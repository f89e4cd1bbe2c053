//! The search for duplicates among all the files of an enumeration, held in
//! memory: bucket by bucket.

use crate::bucket::SizeBuckets;
use crate::classes::duplicate_groups;
use crate::classes::grouped_together;
use crate::classes::has_twin;
use crate::classes::lemma_grouped_iff_equal;
use crate::classes::lemma_groups_are_sound;
use crate::files::FileImage;
use crate::grouper::index_groups;
use crate::grouper::indices_of;
use crate::oracle::CompareError;
use crate::search::contents;
use crate::search::find_duplicates_among;
use crate::search::lemma_search_error;
use crate::search::lemma_search_fails_iff_not_regular;
use crate::search::members;
use crate::search::search_of;
use vstd::prelude::*;

verus! {

/// The size that each file was enumerated with.
pub open spec fn record_sizes(files: Seq<FileImage>) -> Seq<u64> {
    Seq::new(files.len(), |at: int| files[at].record.size)
}

/// A search that failed in one bucket: the size of the files in that bucket,
/// the places in the enumeration of the two files whose comparison gave no
/// verdict, and why it gave none.
#[derive(Clone, Copy, Debug, PartialEq, Eq, Structural)]
pub struct BucketError {
    pub size: u64,
    pub left: usize,
    pub right: usize,
    pub cause: CompareError,
}

/// The places in the enumeration of the records that a group lists by their
/// places in a bucket.
pub open spec fn relocate(bucket: Seq<int>, group: Seq<int>) -> Seq<int> {
    Seq::new(group.len(), |at: int| bucket[group[at]])
}

/// The groups of a bucket, each given in places of the enumeration.
pub open spec fn relocate_all(bucket: Seq<int>, groups: Seq<Seq<int>>) -> Seq<Seq<int>> {
    Seq::new(groups.len(), |g: int| relocate(bucket, groups[g]))
}

/// What the search in one bucket of an enumeration returns, in places of the
/// enumeration.
pub open spec fn bucket_outcome(files: Seq<FileImage>, bucket: Seq<int>) -> Result<
    Seq<Seq<int>>,
    BucketError,
> {
    match search_of(members(files, bucket)) {
        Ok(groups) => Ok(relocate_all(bucket, groups)),
        Err(error) => Err(
            BucketError {
                size: files[bucket[0]].record.size,
                left: bucket[error.left as int] as usize,
                right: bucket[error.right as int] as usize,
                cause: error.cause,
            },
        ),
    }
}

/// What the search through the first `count` buckets returns: the groups of
/// each bucket in turn, or the error of the first bucket whose search fails.
pub open spec fn search_through(files: Seq<FileImage>, buckets: Seq<Seq<int>>, count: int) -> Result<
    Seq<Seq<int>>,
    BucketError,
>
    decreases count,
{
    if count <= 0 {
        Ok(Seq::empty())
    } else {
        match search_through(files, buckets, count - 1) {
            Err(error) => Err(error),
            Ok(groups) => match bucket_outcome(files, buckets[count - 1]) {
                Ok(found) => Ok(groups + found),
                Err(error) => Err(error),
            },
        }
    }
}

/// What the search over a whole enumeration returns.
///
/// The files are bucketed by the size they were enumerated with.  The
/// buckets with two or more files are searched in the order in which their
/// sizes were first seen, and their groups are reported in that order.  The
/// first search that fails ends the whole search with its error.
pub open spec fn search_of_all(files: Seq<FileImage>) -> Result<Seq<Seq<int>>, BucketError> {
    let buckets = duplicate_groups(record_sizes(files));
    search_through(files, buckets, buckets.len() as int)
}

/// The groups of record indices in a result of the search over a whole
/// enumeration.
pub open spec fn all_view(outcome: Result<Vec<Vec<usize>>, BucketError>) -> Result<
    Seq<Seq<int>>,
    BucketError,
> {
    match outcome {
        Ok(groups) => Ok(index_groups(groups)),
        Err(error) => Err(error),
    }
}

/// Once the search has failed in a bucket, the buckets after it are not
/// searched: the error stands.
proof fn lemma_failure_stands(
    files: Seq<FileImage>,
    buckets: Seq<Seq<int>>,
    failed: int,
    count: int,
)
    requires
        failed <= count,
        search_through(files, buckets, failed) is Err,
    ensures
        search_through(files, buckets, count) == search_through(files, buckets, failed),
    decreases count - failed,
{
    if failed < count {
        lemma_failure_stands(files, buckets, failed, count - 1);
    }
}

/// Appends to `all` the groups found in a bucket, with each place in the
/// bucket replaced by the record's place in the enumeration.
fn append_relocated(all: &mut Vec<Vec<usize>>, found: &Vec<Vec<usize>>, bucket: &Vec<usize>)
    requires
        forall|g: int, at: int|
            0 <= g < found@.len() && 0 <= at < found@[g]@.len() ==> (#[trigger] found@[g]@[at])
                < bucket@.len(),
    ensures
        index_groups(*final(all)) == index_groups(*old(all)) + relocate_all(
            indices_of(*bucket),
            index_groups(*found),
        ),
{
    let ghost start = index_groups(*all);
    let ghost places = indices_of(*bucket);
    let ghost groups = index_groups(*found);
    let mut g: usize = 0;
    while g < found.len()
        invariant
            g <= found@.len(),
            places == indices_of(*bucket),
            groups == index_groups(*found),
            forall|h: int, at: int|
                0 <= h < found@.len() && 0 <= at < found@[h]@.len() ==> (#[trigger] found@[h]@[at])
                    < bucket@.len(),
            index_groups(*all) == start + relocate_all(places, groups).take(g as int),
        decreases found@.len() - g,
    {
        let group = &found[g];
        let mut relocated: Vec<usize> = Vec::new();
        let mut at: usize = 0;
        while at < group.len()
            invariant
                at <= group@.len(),
                group == found@[g as int],
                g < found@.len(),
                places == indices_of(*bucket),
                forall|h: int, at: int|
                    0 <= h < found@.len() && 0 <= at < found@[h]@.len() ==> (
                    #[trigger] found@[h]@[at]) < bucket@.len(),
                indices_of(relocated) == relocate(places, indices_of(*group)).take(at as int),
            decreases group@.len() - at,
        {
            assert(found@[g as int]@[at as int] < bucket@.len());
            let ghost shorter = indices_of(relocated);
            let ghost target = relocate(places, indices_of(*group));
            relocated.push(bucket[group[at]]);
            proof {
                assert(indices_of(relocated) =~= shorter.push(
                    bucket@[group@[at as int] as int] as int,
                ));
                assert(indices_of(*group)[at as int] == group@[at as int]);
                assert(places[group@[at as int] as int] == bucket@[group@[at as int] as int]);
                assert(target[at as int] == bucket@[group@[at as int] as int]);
                assert(target.take(at + 1) =~= target.take(at as int).push(target[at as int]));
            }
            at += 1;
        }
        assert(indices_of(relocated) =~= relocate(places, groups[g as int]));
        let ghost earlier = index_groups(*all);
        all.push(relocated);
        g += 1;
        assert(index_groups(*all) =~= earlier.push(relocate(places, groups[g - 1])));
        assert(index_groups(*all) =~= start + relocate_all(places, groups).take(g as int));
    }
    assert(relocate_all(places, groups).take(g as int) =~= relocate_all(places, groups));
}

/// Finds the groups of identical files among all the files of an
/// enumeration.
///
/// Only files that were enumerated with the same size are compared.  Each
/// group lists the places in `files` of two or more files of one size with
/// equal bytes, in ascending order.  The groups of one size stand together,
/// the sizes in the order in which they were first seen, and the groups of
/// one size in the order of their first members.
pub fn find_all_duplicates(files: &Vec<FileImage>) -> (outcome: Result<
    Vec<Vec<usize>>,
    BucketError,
>)
    ensures
        all_view(outcome) == search_of_all(files@),
{
    let ghost sizes = record_sizes(files@);
    let mut by_size = SizeBuckets::new();
    let mut at: usize = 0;
    while at < files.len()
        invariant
            at <= files@.len(),
            by_size.wf(),
            by_size.sizes() == record_sizes(files@).take(at as int),
        decreases files@.len() - at,
    {
        by_size.insert(files[at].record.size);
        at += 1;
        assert(by_size.sizes() =~= record_sizes(files@).take(at as int));
    }
    assert(record_sizes(files@).take(at as int) =~= sizes);
    let candidates = by_size.candidates();
    let ghost buckets = index_groups(candidates);
    proof {
        lemma_groups_are_sound(sizes);
    }
    let mut all: Vec<Vec<usize>> = Vec::new();
    assert(index_groups(all) =~= Seq::<Seq<int>>::empty());
    let mut k: usize = 0;
    while k < candidates.len()
        invariant
            k <= candidates@.len(),
            buckets == index_groups(candidates),
            buckets == duplicate_groups(record_sizes(files@)),
            forall|g: int|
                0 <= g < buckets.len() ==> {
                    let group = #[trigger] buckets[g];
                    &&& group.len() >= 2
                    &&& forall|i: int| 0 <= i < group.len() ==> 0 <= #[trigger] group[i] < files@.len()
                },
            search_through(files@, buckets, k as int) == Ok::<Seq<Seq<int>>, BucketError>(
                index_groups(all),
            ),
        decreases candidates@.len() - k,
    {
        let bucket = &candidates[k];
        let ghost places = indices_of(*bucket);
        proof {
            assert(places == buckets[k as int]);
            assert forall|i: int| 0 <= i < bucket@.len() implies #[trigger] bucket@[i] < files@.len() by {
                assert(places[i] == bucket@[i]);
            }
            assert(members(files@, places).len() == bucket.len());
            lemma_search_error(members(files@, places));
            lemma_groups_are_sound(contents(members(files@, places)));
        }
        match find_duplicates_among(files, bucket) {
            Ok(found) => {
                proof {
                    let groups = index_groups(found);
                    assert forall|g: int, i: int|
                        0 <= g < found@.len() && 0 <= i < found@[g]@.len() implies (
                    #[trigger] found@[g]@[i]) < bucket@.len() by {
                        assert(groups[g][i] == found@[g]@[i]);
                    }
                }
                append_relocated(&mut all, &found, bucket);
            },
            Err(error) => {
                assert(places[0] == bucket@[0]);
                assert(places[error.left as int] == bucket@[error.left as int]);
                assert(places[error.right as int] == bucket@[error.right as int]);
                proof {
                    lemma_failure_stands(files@, buckets, k + 1, buckets.len() as int);
                }
                return Err(
                    BucketError {
                        size: files[bucket[0]].record.size,
                        left: bucket[error.left],
                        right: bucket[error.right],
                        cause: error.cause,
                    },
                );
            },
        }
        k += 1;
    }
    Ok(all)
}

/// The paths of the files in each group, as a report lists them.  There is
/// no list for groups that name a place which `files` does not have.
pub fn group_paths(files: &Vec<FileImage>, groups: &Vec<Vec<usize>>) -> (paths: Option<
    Vec<Vec<String>>,
>)
    ensures
        paths is Some <==> forall|g: int, at: int|
            0 <= g < groups@.len() && 0 <= at < groups@[g]@.len() ==> (#[trigger] groups@[g]@[at])
                < files@.len(),
        paths matches Some(lists) ==> {
            &&& lists@.len() == groups@.len()
            &&& forall|g: int|
                0 <= g < groups@.len() ==> (#[trigger] lists@[g])@.len() == groups@[g]@.len()
            &&& forall|g: int, at: int|
                0 <= g < groups@.len() && 0 <= at < groups@[g]@.len() ==> (
                #[trigger] lists@[g]@[at])@ == files@[groups@[g]@[at] as int].record.path@
        },
{
    let mut lists: Vec<Vec<String>> = Vec::new();
    let mut g: usize = 0;
    while g < groups.len()
        invariant
            g <= groups@.len(),
            lists@.len() == g,
            forall|h: int, at: int|
                0 <= h < g && 0 <= at < groups@[h]@.len() ==> (#[trigger] groups@[h]@[at])
                    < files@.len(),
            forall|h: int| 0 <= h < g ==> (#[trigger] lists@[h])@.len() == groups@[h]@.len(),
            forall|h: int, at: int|
                0 <= h < g && 0 <= at < groups@[h]@.len() ==> (#[trigger] lists@[h]@[at])@
                    == files@[groups@[h]@[at] as int].record.path@,
        decreases groups@.len() - g,
    {
        let group = &groups[g];
        let mut list: Vec<String> = Vec::new();
        let mut at: usize = 0;
        while at < group.len()
            invariant
                at <= group@.len(),
                g < groups@.len(),
                group == groups@[g as int],
                list@.len() == at,
                forall|i: int| 0 <= i < at ==> (#[trigger] group@[i]) < files@.len(),
                forall|i: int|
                    0 <= i < at ==> (#[trigger] list@[i])@ == files@[group@[i] as int].record.path@,
            decreases group@.len() - at,
        {
            let place = group[at];
            if place >= files.len() {
                assert(!(groups@[g as int]@[at as int] < files@.len()));
                return None;
            }
            list.push(files[place].record.path.clone());
            at += 1;
        }
        lists.push(list);
        g += 1;
    }
    Some(lists)
}

/// Searching the same files again gives the same result: the same groups
/// with the same members, in the same order, or the same error.
pub proof fn lemma_search_is_repeatable(
    files: Seq<FileImage>,
    first: Result<Vec<Vec<usize>>, BucketError>,
    second: Result<Vec<Vec<usize>>, BucketError>,
)
    requires
        all_view(first) == search_of_all(files),
        all_view(second) == search_of_all(files),
    ensures
        all_view(first) == all_view(second),
{
}

/// The bucket's search succeeds and reports `group` among its groups.
pub open spec fn found_in(files: Seq<FileImage>, bucket: Seq<int>, group: Seq<int>) -> bool {
    bucket_outcome(files, bucket) matches Ok(found) && found.contains(group)
}

/// One of the first `count` buckets reports `group`.
pub open spec fn found_in_some(
    files: Seq<FileImage>,
    buckets: Seq<Seq<int>>,
    count: int,
    group: Seq<int>,
) -> bool {
    exists|k: int| 0 <= k < count && #[trigger] found_in(files, buckets[k], group)
}

/// A search through some buckets that succeeds reports the groups of each of
/// these buckets, and no other group.
proof fn lemma_search_through(files: Seq<FileImage>, buckets: Seq<Seq<int>>, count: int)
    requires
        0 <= count <= buckets.len(),
        search_through(files, buckets, count) is Ok,
    ensures
        forall|k: int| 0 <= k < count ==> (#[trigger] bucket_outcome(files, buckets[k])) is Ok,
        forall|k: int, group: Seq<int>|
            0 <= k < count && #[trigger] found_in(files, buckets[k], group) ==> search_through(
                files,
                buckets,
                count,
            )->Ok_0.contains(group),
        forall|i: int|
            0 <= i < search_through(files, buckets, count)->Ok_0.len() ==> found_in_some(
                files,
                buckets,
                count,
                #[trigger] search_through(files, buckets, count)->Ok_0[i],
            ),
    decreases count,
{
    if count > 0 {
        let earlier = search_through(files, buckets, count - 1)->Ok_0;
        let found = bucket_outcome(files, buckets[count - 1])->Ok_0;
        let groups = search_through(files, buckets, count)->Ok_0;
        assert(groups == earlier + found);
        lemma_search_through(files, buckets, count - 1);
        assert forall|k: int, group: Seq<int>|
            0 <= k < count && #[trigger] found_in(files, buckets[k], group) implies groups.contains(
            group,
        ) by {
            if k < count - 1 {
                assert(earlier.contains(group));
                let i = choose|i: int| 0 <= i < earlier.len() && earlier[i] == group;
                assert(groups[i] == group);
            } else {
                let j = choose|j: int| 0 <= j < found.len() && found[j] == group;
                assert(groups[earlier.len() + j] == group);
            }
        }
        assert forall|i: int| 0 <= i < groups.len() implies found_in_some(
            files,
            buckets,
            count,
            #[trigger] groups[i],
        ) by {
            if i < earlier.len() {
                assert(groups[i] == earlier[i]);
                assert(found_in_some(files, buckets, count - 1, earlier[i]));
                let k = choose|k: int|
                    0 <= k < count - 1 && #[trigger] found_in(files, buckets[k], earlier[i]);
                assert(found_in(files, buckets[k], groups[i]));
            } else {
                assert(groups[i] == found[i - earlier.len()]);
                assert(found_in(files, buckets[count - 1], groups[i]));
            }
        }
    }
}

/// In a group that a bucket's search reports, every member is a place of
/// the bucket, and all members hold the same bytes.
proof fn lemma_found_group(files: Seq<FileImage>, bucket: Seq<int>, group: Seq<int>)
    requires
        found_in(files, bucket, group),
    ensures
        group.len() >= 2,
        forall|at: int| 0 <= at < group.len() ==> bucket.contains(#[trigger] group[at]),
        forall|at: int|
            0 <= at < group.len() ==> files[#[trigger] group[at]].content.bytes()
                == files[group[0]].content.bytes(),
{
    let list = members(files, bucket);
    let inner = duplicate_groups(contents(list));
    let found = relocate_all(bucket, inner);
    let j = choose|j: int| 0 <= j < found.len() && found[j] == group;
    lemma_groups_are_sound(contents(list));
    let positions = inner[j];
    assert(group == relocate(bucket, positions));
    assert forall|at: int| 0 <= at < group.len() implies bucket.contains(#[trigger] group[at])
        && files[group[at]].content.bytes() == files[group[0]].content.bytes() by {
        assert(0 <= positions[at] < list.len());
        assert(0 <= positions[0] < list.len());
        assert(group[at] == bucket[positions[at]]);
        assert(contents(list)[positions[at]] == contents(list)[positions[0]]);
    }
}

/// What a successful search over a whole enumeration reports: two different
/// files are in one group if and only if they were enumerated with the same
/// size and hold the same bytes.
pub proof fn lemma_search_groups_equal_files(files: Seq<FileImage>, x: int, y: int)
    requires
        search_of_all(files) is Ok,
        0 <= x < files.len(),
        0 <= y < files.len(),
        x != y,
    ensures
        grouped_together(search_of_all(files)->Ok_0, x, y) <==> files[x].record.size
            == files[y].record.size && files[x].content.bytes() == files[y].content.bytes(),
{
    let sizes = record_sizes(files);
    let buckets = duplicate_groups(sizes);
    let groups = search_of_all(files)->Ok_0;
    lemma_search_through(files, buckets, buckets.len() as int);
    lemma_groups_are_sound(sizes);
    if grouped_together(groups, x, y) {
        let g = choose|g: int|
            0 <= g < groups.len() && (#[trigger] groups[g]).contains(x) && groups[g].contains(y);
        assert(found_in_some(files, buckets, buckets.len() as int, groups[g]));
        let k = choose|k: int|
            0 <= k < buckets.len() && #[trigger] found_in(files, buckets[k], groups[g]);
        lemma_found_group(files, buckets[k], groups[g]);
        let i = choose|i: int| 0 <= i < groups[g].len() && groups[g][i] == x;
        let j = choose|j: int| 0 <= j < groups[g].len() && groups[g][j] == y;
        assert(buckets[k].contains(groups[g][i]));
        assert(buckets[k].contains(groups[g][j]));
        let p = choose|p: int| 0 <= p < buckets[k].len() && buckets[k][p] == x;
        let q = choose|q: int| 0 <= q < buckets[k].len() && buckets[k][q] == y;
        assert(sizes[buckets[k][p]] == sizes[buckets[k][0]]);
        assert(sizes[buckets[k][q]] == sizes[buckets[k][0]]);
        assert(files[groups[g][i]].content.bytes() == files[groups[g][0]].content.bytes());
        assert(files[groups[g][j]].content.bytes() == files[groups[g][0]].content.bytes());
    }
    if sizes[x] == sizes[y] && files[x].content.bytes() == files[y].content.bytes() {
        lemma_grouped_iff_equal(sizes, x, y);
        let k = choose|k: int|
            0 <= k < buckets.len() && (#[trigger] buckets[k]).contains(x) && buckets[k].contains(y);
        let bucket = buckets[k];
        let p = choose|p: int| 0 <= p < bucket.len() && bucket[p] == x;
        let q = choose|q: int| 0 <= q < bucket.len() && bucket[q] == y;
        let list = members(files, bucket);
        let inner = duplicate_groups(contents(list));
        assert(contents(list)[p] == contents(list)[q]);
        lemma_grouped_iff_equal(contents(list), p, q);
        let j = choose|j: int|
            0 <= j < inner.len() && (#[trigger] inner[j]).contains(p) && inner[j].contains(q);
        let at_p = choose|at: int| 0 <= at < inner[j].len() && inner[j][at] == p;
        let at_q = choose|at: int| 0 <= at < inner[j].len() && inner[j][at] == q;
        assert(bucket_outcome(files, bucket) is Ok);
        let found = relocate_all(bucket, inner);
        let group = found[j];
        assert(group[at_p] == x);
        assert(group[at_q] == y);
        assert(found_in(files, bucket, group));
        assert(groups.contains(group));
        let g = choose|g: int| 0 <= g < groups.len() && groups[g] == group;
        assert(groups[g].contains(x) && groups[g].contains(y));
    }
}

/// A successful search over a whole enumeration reports no group of fewer
/// than two files, and none that holds files of different sizes.
pub proof fn lemma_search_groups_are_sound(files: Seq<FileImage>)
    requires
        search_of_all(files) is Ok,
    ensures
        forall|g: int|
            0 <= g < search_of_all(files)->Ok_0.len() ==> {
                let group = #[trigger] search_of_all(files)->Ok_0[g];
                &&& group.len() >= 2
                &&& forall|at: int|
                    0 <= at < group.len() ==> {
                        let place = #[trigger] group[at];
                        &&& 0 <= place < files.len()
                        &&& files[place].record.size == files[group[0]].record.size
                        &&& files[place].content.bytes() == files[group[0]].content.bytes()
                    }
            },
{
    let sizes = record_sizes(files);
    let buckets = duplicate_groups(sizes);
    let groups = search_of_all(files)->Ok_0;
    lemma_search_through(files, buckets, buckets.len() as int);
    lemma_groups_are_sound(sizes);
    assert forall|g: int| 0 <= g < groups.len() implies {
        let group = #[trigger] groups[g];
        &&& group.len() >= 2
        &&& forall|at: int|
            0 <= at < group.len() ==> {
                let place = #[trigger] group[at];
                &&& 0 <= place < files.len()
                &&& files[place].record.size == files[group[0]].record.size
                &&& files[place].content.bytes() == files[group[0]].content.bytes()
            }
    } by {
        let group = groups[g];
        assert(found_in_some(files, buckets, buckets.len() as int, group));
        let k = choose|k: int| 0 <= k < buckets.len() && #[trigger] found_in(files, buckets[k], group);
        lemma_found_group(files, buckets[k], group);
        assert forall|at: int| 0 <= at < group.len() implies {
            let place = #[trigger] group[at];
            &&& 0 <= place < files.len()
            &&& files[place].record.size == files[group[0]].record.size
            &&& files[place].content.bytes() == files[group[0]].content.bytes()
        } by {
            assert(buckets[k].contains(group[at]));
            assert(buckets[k].contains(group[0]));
            let p = choose|p: int| 0 <= p < buckets[k].len() && buckets[k][p] == group[at];
            let q = choose|q: int| 0 <= q < buckets[k].len() && buckets[k][q] == group[0];
            assert(sizes[buckets[k][p]] == sizes[buckets[k][0]]);
            assert(sizes[buckets[k][q]] == sizes[buckets[k][0]]);
        }
    }
}

/// A search through some buckets that fails has failed in one of them.
proof fn lemma_failed_bucket(files: Seq<FileImage>, buckets: Seq<Seq<int>>, count: int) -> (k: int)
    requires
        search_through(files, buckets, count) is Err,
    ensures
        0 <= k < count,
        bucket_outcome(files, buckets[k]) is Err,
    decreases count,
{
    if search_through(files, buckets, count - 1) is Err {
        lemma_failed_bucket(files, buckets, count - 1)
    } else {
        count - 1
    }
}

/// The search over a whole enumeration fails if and only if some entry that
/// is not a regular file shares its size with another entry.  An entry that
/// is alone in its bucket is never compared, whatever it is.
pub proof fn lemma_whole_search_fails_iff(files: Seq<FileImage>)
    ensures
        search_of_all(files) is Err <==> exists|x: int|
            0 <= x < files.len() && !((#[trigger] files[x]).content is File) && has_twin(
                record_sizes(files),
                x,
            ),
{
    let sizes = record_sizes(files);
    let buckets = duplicate_groups(sizes);
    let count = buckets.len() as int;
    lemma_groups_are_sound(sizes);
    if search_of_all(files) is Err {
        let k = lemma_failed_bucket(files, buckets, count);
        let bucket = buckets[k];
        let list = members(files, bucket);
        lemma_search_fails_iff_not_regular(list);
        let at = choose|at: int| 0 <= at < list.len() && !((#[trigger] list[at]).content is File);
        let x = bucket[at];
        let other = if at == 0 {
            1int
        } else {
            0int
        };
        assert(0 <= bucket[at] < sizes.len() && sizes[bucket[at]] == sizes[bucket[0]]);
        assert(0 <= bucket[other] < sizes.len() && sizes[bucket[other]] == sizes[bucket[0]]);
        if at == 0 {
            assert(bucket[0] < bucket[1]);
        } else {
            assert(bucket[0] < bucket[at]);
        }
        assert(sizes[bucket[other]] == sizes[x]);
        assert(has_twin(sizes, x));
        assert(!(files[x].content is File));
    }
    if exists|x: int|
        0 <= x < files.len() && !((#[trigger] files[x]).content is File) && has_twin(sizes, x) {
        let x = choose|x: int|
            0 <= x < files.len() && !((#[trigger] files[x]).content is File) && has_twin(sizes, x);
        let y = choose|y: int| 0 <= y < sizes.len() && y != x && #[trigger] sizes[y] == sizes[x];
        lemma_grouped_iff_equal(sizes, x, y);
        let k = choose|k: int|
            0 <= k < buckets.len() && (#[trigger] buckets[k]).contains(x) && buckets[k].contains(y);
        let bucket = buckets[k];
        let p = choose|p: int| 0 <= p < bucket.len() && bucket[p] == x;
        let list = members(files, bucket);
        assert(!(list[p].content is File));
        lemma_search_fails_iff_not_regular(list);
        assert(bucket_outcome(files, bucket) is Err);
        if search_of_all(files) is Ok {
            lemma_search_through(files, buckets, count);
        }
    }
}

} // verus!
