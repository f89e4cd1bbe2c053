//! The size bucketer: records grouped by their size in bytes.
//!
//! Files of different sizes cannot be identical, so only the members of one
//! bucket are ever compared with each other.  The buckets are kept in a
//! `multimap::MultiMap` from size to the places of the records in the
//! enumeration.

use crate::classes::class_of;
use crate::classes::duplicate_groups;
use crate::classes::duplicate_groups_below;
use crate::classes::grouped_together;
use crate::classes::lemma_grouped_iff_equal;
use crate::classes::lemma_class_of;
use crate::classes::lemma_groups_below_step;
use crate::classes::same_item;
use crate::files::FileRecord;
use crate::grouper::index_groups;
use crate::grouper::indices_of;
use crate::indices::indices_where;
use crate::indices::lemma_indices_where;
use crate::indices::strictly_ascending;
use crate::indices::lemma_indices_where_agree;
use crate::indices::lemma_indices_where_skip;
use crate::indices::to_indices;
use multimap::MultiMap;
use vstd::prelude::*;

verus! {

/// `multimap::MultiMap`: a hash map from keys to vectors of values.  Nothing
/// inside it is visible here; what it holds is named by [`bucket_contents`].
#[verifier::external_type_specification]
#[verifier::external_body]
#[verifier::reject_recursive_types(K)]
#[verifier::reject_recursive_types(V)]
#[verifier::reject_recursive_types(S)]
pub struct ExMultiMap<K, V, S>(MultiMap<K, V, S>);

/// The vector of values that a multimap holds for each of its keys, in the
/// order in which the values were inserted.
pub uninterp spec fn bucket_contents(map: MultiMap<u64, usize>) -> Map<u64, Seq<usize>>;

/// `MultiMap::new`: a multimap without keys.
#[verifier::external_body]
fn multimap_new() -> (created: MultiMap<u64, usize>)
    ensures
        forall|size: u64| !bucket_contents(created).dom().contains(size),
{
    MultiMap::new()
}

/// `MultiMap::insert`: the value is pushed to the end of the key's vector; a
/// key that the multimap did not hold gets a vector with this one value.  The
/// vectors of the other keys stay as they are.
#[verifier::external_body]
fn multimap_insert(map: &mut MultiMap<u64, usize>, size: u64, index: usize)
    ensures
        bucket_contents(*final(map)) == bucket_contents(*old(map)).insert(
            size,
            (if bucket_contents(*old(map)).dom().contains(size) {
                bucket_contents(*old(map))[size]
            } else {
                Seq::empty()
            }).push(index),
        ),
{
    map.insert(size, index)
}

/// `MultiMap::get_vec`: the key's vector, or `None` for a key that the
/// multimap does not hold.
#[verifier::external_body]
fn multimap_get_vec(map: &MultiMap<u64, usize>, size: u64) -> (found: Option<&Vec<usize>>)
    ensures
        match found {
            Some(members) => bucket_contents(*map).dom().contains(size) && members@
                == bucket_contents(*map)[size],
            None => !bucket_contents(*map).dom().contains(size),
        },
{
    map.get_vec(&size)
}

/// The records of the given size.
pub open spec fn of_size(sizes: Seq<u64>, size: u64) -> spec_fn(int) -> bool {
    |at: int| sizes[at] == size
}

/// The bucket of the given size: the places of the records of that size, in
/// the order in which the records were enumerated.
pub open spec fn bucket_of(sizes: Seq<u64>, size: u64) -> Seq<int> {
    indices_where(of_size(sizes, size), sizes.len() as int)
}

/// The sizes of the given records.
pub open spec fn sizes_of(records: Seq<FileRecord>) -> Seq<u64> {
    Seq::new(records.len(), |at: int| records[at].size)
}

/// A copy of a list of record indices.
fn copy_indices(list: &Vec<usize>) -> (copy: Vec<usize>)
    ensures
        copy@ == list@,
{
    let mut copy: Vec<usize> = Vec::new();
    let mut at: usize = 0;
    while at < list.len()
        invariant
            at <= list@.len(),
            copy@ == list@.take(at as int),
        decreases list@.len() - at,
    {
        copy.push(list[at]);
        at += 1;
        assert(copy@ =~= list@.take(at as int));
    }
    assert(list@.take(at as int) =~= list@);
    copy
}

/// The records enumerated so far, bucketed by size.  A record is known by its
/// place in the enumeration: the first record inserted is record 0.
pub struct SizeBuckets {
    /// The bucket of each size that occurs.
    map: MultiMap<u64, usize>,
    /// The size of each record.
    sizes: Vec<u64>,
}

impl SizeBuckets {
    /// The sizes of the records inserted so far, in the order of insertion.
    pub closed spec fn sizes(&self) -> Seq<u64> {
        self.sizes@
    }

    /// The multimap holds, for each size that occurs, the bucket of that size.
    pub closed spec fn wf(&self) -> bool {
        let held = bucket_contents(self.map);
        &&& forall|size: u64| #[trigger]
            held.dom().contains(size) ==> to_indices(held[size]) == bucket_of(self.sizes@, size)
        &&& forall|at: int|
            0 <= at < self.sizes@.len() ==> held.dom().contains(#[trigger] self.sizes@[at])
    }

    /// No records, and so no buckets.
    pub fn new() -> (buckets: SizeBuckets)
        ensures
            buckets.wf(),
            buckets.sizes() == Seq::<u64>::empty(),
    {
        SizeBuckets { map: multimap_new(), sizes: Vec::new() }
    }

    /// The number of records inserted so far.
    pub fn len(&self) -> (count: usize)
        ensures
            count == self.sizes().len(),
    {
        self.sizes.len()
    }

    /// Adds the next record, of the given size, to the bucket of its size.
    pub fn insert(&mut self, size: u64)
        requires
            old(self).wf(),
        ensures
            final(self).wf(),
            final(self).sizes() == old(self).sizes().push(size),
    {
        let index = self.sizes.len();
        let ghost before = bucket_contents(self.map);
        let ghost sizes = self.sizes@;
        multimap_insert(&mut self.map, size, index);
        self.sizes.push(size);
        proof {
            let held = bucket_contents(self.map);
            let grown = self.sizes@;
            let base = if before.dom().contains(size) {
                before[size]
            } else {
                Seq::<usize>::empty()
            };
            assert forall|other: u64| #[trigger] held.dom().contains(other) implies to_indices(
                held[other],
            ) == bucket_of(grown, other) by {
                lemma_indices_where_agree(
                    of_size(grown, other),
                    of_size(sizes, other),
                    index as int,
                );
                if other == size {
                    if !before.dom().contains(size) {
                        lemma_indices_where_skip(of_size(sizes, size), 0, index as int);
                    }
                    assert(to_indices(base) == bucket_of(sizes, size));
                    assert(to_indices(base.push(index)) =~= to_indices(base).push(index as int));
                    assert(of_size(grown, size)(index as int));
                } else {
                    assert(!of_size(grown, other)(index as int));
                }
            }
        }
    }

    /// The bucket of the given size: the places of the records of that size,
    /// in the order in which they were inserted.  It is empty for a size that
    /// no record has.
    pub fn bucket(&self, size: u64) -> (members: Vec<usize>)
        requires
            self.wf(),
        ensures
            indices_of(members) == bucket_of(self.sizes(), size),
    {
        match multimap_get_vec(&self.map, size) {
            Some(found) => copy_indices(found),
            None => {
                proof {
                    lemma_indices_where_skip(
                        of_size(self.sizes@, size),
                        0,
                        self.sizes@.len() as int,
                    );
                    assert(to_indices(Seq::<usize>::empty()) =~= Seq::<int>::empty());
                }
                Vec::new()
            },
        }
    }

    /// The buckets that can hold duplicates, those with two or more records,
    /// in the order in which their sizes were first seen.
    pub fn candidates(&self) -> (buckets: Vec<Vec<usize>>)
        requires
            self.wf(),
        ensures
            index_groups(buckets) == duplicate_groups(self.sizes()),
    {
        let ghost sizes = self.sizes@;
        let mut buckets: Vec<Vec<usize>> = Vec::new();
        let mut at: usize = 0;
        while at < self.sizes.len()
            invariant
                self.wf(),
                sizes == self.sizes@,
                at <= sizes.len(),
                index_groups(buckets) == duplicate_groups_below(sizes, at as int),
            decreases sizes.len() - at,
        {
            let size = self.sizes[at];
            proof {
                lemma_class_of(sizes, at as int);
                lemma_groups_below_step(sizes, at as int);
                lemma_indices_where_agree(
                    of_size(sizes, size),
                    same_item(sizes, at as int),
                    sizes.len() as int,
                );
            }
            match multimap_get_vec(&self.map, size) {
                Some(members) => {
                    assert(to_indices(members@) == class_of(sizes, at as int));
                    assert(members@.len() == class_of(sizes, at as int).len());
                    assert(members@[0] as int == class_of(sizes, at as int)[0]);
                    if members.len() > 1 && members[0] == at {
                        let ghost earlier = index_groups(buckets);
                        buckets.push(copy_indices(members));
                        assert(index_groups(buckets) =~= earlier.push(to_indices(members@)));
                    }
                },
                None => {
                    assert(false);
                },
            }
            at += 1;
        }
        buckets
    }
}

/// Buckets the given records by size.
pub fn bucket_by_size(records: &Vec<FileRecord>) -> (buckets: SizeBuckets)
    ensures
        buckets.wf(),
        buckets.sizes() == sizes_of(records@),
{
    let mut buckets = SizeBuckets::new();
    let mut at: usize = 0;
    while at < records.len()
        invariant
            at <= records@.len(),
            buckets.wf(),
            buckets.sizes() == sizes_of(records@).take(at as int),
        decreases records@.len() - at,
    {
        buckets.insert(records[at].size);
        at += 1;
        assert(buckets.sizes() =~= sizes_of(records@).take(at as int));
    }
    assert(sizes_of(records@).take(at as int) =~= sizes_of(records@));
    buckets
}

/// Bucketing never merges sizes: two records of different sizes are in no
/// bucket together.
pub proof fn lemma_buckets_never_merge_sizes(sizes: Seq<u64>, size: u64, x: int, y: int)
    requires
        0 <= x < sizes.len(),
        0 <= y < sizes.len(),
        sizes[x] != sizes[y],
    ensures
        !(bucket_of(sizes, size).contains(x) && bucket_of(sizes, size).contains(y)),
        !grouped_together(duplicate_groups(sizes), x, y),
{
    lemma_indices_where(of_size(sizes, size), sizes.len() as int);
    let bucket = bucket_of(sizes, size);
    if bucket.contains(x) && bucket.contains(y) {
        let i = choose|i: int| 0 <= i < bucket.len() && bucket[i] == x;
        let j = choose|j: int| 0 <= j < bucket.len() && bucket[j] == y;
        assert(of_size(sizes, size)(bucket[i]));
        assert(of_size(sizes, size)(bucket[j]));
    }
    lemma_grouped_iff_equal(sizes, x, y);
}

/// Every record is in the bucket of its size, and a bucket holds nothing
/// but the records of its size, each once, in the order of enumeration.
pub proof fn lemma_bucket_members(sizes: Seq<u64>, size: u64)
    ensures
        strictly_ascending(bucket_of(sizes, size)),
        forall|x: int|
            #[trigger] bucket_of(sizes, size).contains(x) <==> 0 <= x < sizes.len() && sizes[x]
                == size,
{
    lemma_indices_where(of_size(sizes, size), sizes.len() as int);
    let bucket = bucket_of(sizes, size);
    assert forall|x: int| #[trigger] bucket.contains(x) <==> 0 <= x < sizes.len() && sizes[x]
        == size by {
        if bucket.contains(x) {
            let i = choose|i: int| 0 <= i < bucket.len() && bucket[i] == x;
            assert(of_size(sizes, size)(bucket[i]));
        }
        if 0 <= x < sizes.len() && sizes[x] == size {
            assert(of_size(sizes, size)(x));
        }
    }
}

} // verus!
