//! The search for duplicates in one bucket of files held in memory.

use crate::classes::answers_agree;
use crate::classes::duplicate_groups;
use crate::classes::lemma_complete_scan_finds_duplicates;
use crate::classes::lemma_distinct_items_give_no_group;
use crate::classes::lemma_equal_items_give_one_group;
use crate::files::are_files_identical;
use crate::files::comparison_of;
use crate::files::FileImage;
use crate::grouper::before;
use crate::grouper::claimed_below;
use crate::grouper::eligible;
use crate::grouper::index_groups;
use crate::grouper::indices_of;
use crate::grouper::lead_of;
use crate::grouper::partner_of;
use crate::grouper::Grouper;
use crate::oracle::CompareError;
use vstd::prelude::*;

verus! {

/// A comparison that gave no verdict, with the places in the bucket of the
/// two files that were compared.
#[derive(Clone, Copy, Debug, PartialEq, Eq, Structural)]
pub struct SearchError {
    pub left: usize,
    pub right: usize,
    pub cause: CompareError,
}

/// What reading each file gives: its bytes.
pub open spec fn contents(files: Seq<FileImage>) -> Seq<Seq<u8>> {
    Seq::new(files.len(), |at: int| files[at].content.bytes())
}

/// The files at the given places.
pub open spec fn members(files: Seq<FileImage>, bucket: Seq<int>) -> Seq<FileImage> {
    Seq::new(bucket.len(), |k: int| files[bucket[k]])
}

/// The first file from `from` on that cannot be compared with the first file
/// of all.
pub open spec fn first_failure(files: Seq<FileImage>, from: int) -> Option<int>
    decreases files.len() - from,
{
    if from >= files.len() {
        None
    } else if comparison_of(files[0], files[from]) is Err {
        Some(from)
    } else {
        first_failure(files, from + 1)
    }
}

/// What the search in one bucket returns.
///
/// The search compares the first file with every other file before it
/// compares anything else.  So it fails if and only if one of these
/// comparisons does, with the first one that does.  If none does, all the
/// files are regular files, and the search returns the groups of files with
/// equal bytes.
pub open spec fn search_of(files: Seq<FileImage>) -> Result<Seq<Seq<int>>, SearchError> {
    match first_failure(files, 1) {
        Some(right) => Err(
            SearchError {
                left: 0,
                right: right as usize,
                cause: comparison_of(files[0], files[right])->Err_0,
            },
        ),
        None => Ok(duplicate_groups(contents(files))),
    }
}

/// The groups of record indices in a result of the search in one bucket.
pub open spec fn outcome_view(outcome: Result<Vec<Vec<usize>>, SearchError>) -> Result<
    Seq<Seq<int>>,
    SearchError,
> {
    match outcome {
        Ok(groups) => Ok(index_groups(groups)),
        Err(error) => Err(error),
    }
}

/// `first_failure` finds the first file that cannot be compared with the
/// first file of all, if there is one.
proof fn lemma_first_failure(files: Seq<FileImage>, from: int, bound: int)
    requires
        0 <= from <= bound <= files.len(),
        forall|j: int| from <= j < bound ==> (#[trigger] comparison_of(files[0], files[j])) is Ok,
    ensures
        bound < files.len() && comparison_of(files[0], files[bound]) is Err ==> first_failure(
            files,
            from,
        ) == Some(bound),
        bound == files.len() ==> first_failure(files, from) is None,
    decreases bound - from,
{
    if from < bound {
        assert(comparison_of(files[0], files[from]) is Ok);
        lemma_first_failure(files, from + 1, bound);
    }
}

/// Finds the groups of identical files among the files at the places that
/// `bucket` lists.  The groups and the error speak of places in `bucket`.
pub(crate) fn find_duplicates_among(files: &Vec<FileImage>, bucket: &Vec<usize>) -> (outcome: Result<
    Vec<Vec<usize>>,
    SearchError,
>)
    requires
        forall|k: int| 0 <= k < bucket@.len() ==> #[trigger] bucket@[k] < files@.len(),
    ensures
        outcome_view(outcome) == search_of(members(files@, indices_of(*bucket))),
{
    let len = bucket.len();
    let ghost list = members(files@, indices_of(*bucket));
    let ghost items = contents(list);
    let mut grouper = Grouper::new(len);
    loop
        invariant
            grouper.wf(),
            grouper.len() == len,
            len == bucket@.len(),
            list == members(files@, indices_of(*bucket)),
            items == contents(list),
            forall|k: int| 0 <= k < bucket@.len() ==> #[trigger] bucket@[k] < files@.len(),
            answers_agree(grouper.answers(), items),
            forall|a: int, b: int| #[trigger]
                grouper.answers().dom().contains((a, b)) ==> comparison_of(list[a], list[b]) is Ok,
        ensures
            grouper.cursor() is None,
        decreases
                len - lead_of(len as int, grouper.cursor()),
                len - partner_of(len as int, grouper.cursor()),
    {
        proof {
            grouper.lemma_cursor();
        }
        match grouper.pending() {
            None => {
                break ;
            },
            Some((a, b)) => {
                let ghost answers = grouper.answers();
                assert(eligible(answers, len as int, a as int, b as int));
                assert(list[a as int] == files@[bucket@[a as int] as int]);
                assert(list[b as int] == files@[bucket@[b as int] as int]);
                match are_files_identical(&files[bucket[a]], &files[bucket[b]]) {
                    Ok(same) => {
                        grouper.record(same);
                        proof {
                            grouper.lemma_cursor();
                            assert(grouper.answers().dom().contains((a as int, b as int)));
                        }
                    },
                    Err(cause) => {
                        proof {
                            assert forall|j: int| 0 < j < len implies !claimed_below(
                                answers,
                                0,
                                j,
                            ) by {}
                            assert(!claimed_below(answers, 0, 0));
                            if a > 0 {
                                assert(eligible(answers, len as int, 0, a as int));
                                assert(before(0, a as int, a as int, b as int));
                                assert(answers.dom().contains((0, a as int)));
                                assert(eligible(answers, len as int, 0, b as int));
                                assert(before(0, b as int, a as int, b as int));
                                assert(answers.dom().contains((0, b as int)));
                                assert(false);
                            }
                            assert forall|j: int| 1 <= j < b implies (#[trigger] comparison_of(
                                list[0],
                                list[j],
                            )) is Ok by {
                                assert(eligible(answers, len as int, 0, j));
                                assert(before(0, j, a as int, b as int));
                                assert(answers.dom().contains((0, j)));
                            }
                            lemma_first_failure(list, 1, b as int);
                        }
                        return Err(SearchError { left: a, right: b, cause });
                    },
                }
            },
        }
    }
    proof {
        grouper.lemma_cursor();
        let answers = grouper.answers();
        lemma_complete_scan_finds_duplicates(answers, items);
        if len >= 1 {
            assert forall|j: int| 1 <= j < len implies (#[trigger] comparison_of(
                list[0],
                list[j],
            )) is Ok by {
                assert(!claimed_below(answers, 0, 0));
                assert(!claimed_below(answers, 0, j));
                assert(eligible(answers, len as int, 0, j));
                assert(answers.dom().contains((0, j)));
            }
            lemma_first_failure(list, 1, len as int);
        }
    }
    Ok(grouper.groups())
}

/// The places `0..len`, in order.
fn all_places(len: usize) -> (places: Vec<usize>)
    ensures
        places@.len() == len,
        forall|k: int| 0 <= k < len ==> #[trigger] places@[k] == k,
{
    let mut places: Vec<usize> = Vec::new();
    let mut at: usize = 0;
    while at < len
        invariant
            at <= len,
            places@.len() == at,
            forall|k: int| 0 <= k < at ==> #[trigger] places@[k] == k,
        decreases len - at,
    {
        places.push(at);
        at += 1;
    }
    places
}

/// Finds the groups of identical files in one bucket.
///
/// Each group lists the places in `list` of two or more files with equal
/// bytes, in ascending order; the groups stand in the order of their first
/// members; a file that no other file equals is in no group.  The first
/// comparison that gives no verdict ends the search with its error.
pub fn find_duplicates(list: &Vec<FileImage>) -> (outcome: Result<Vec<Vec<usize>>, SearchError>)
    ensures
        outcome_view(outcome) == search_of(list@),
{
    let places = all_places(list.len());
    assert(members(list@, indices_of(places)) =~= list@);
    find_duplicates_among(list, &places)
}

/// Where `first_failure` finds a file, that file is in the bucket and not
/// before the place where the search for it began.
proof fn lemma_first_failure_in_range(files: Seq<FileImage>, from: int)
    requires
        0 <= from,
    ensures
        first_failure(files, from) matches Some(found) ==> from <= found < files.len(),
    decreases files.len() - from,
{
    if from < files.len() && comparison_of(files[0], files[from]) is Ok {
        lemma_first_failure_in_range(files, from + 1);
    }
}

/// What a failed search in one bucket reports: the first file that cannot
/// be compared with the first file of the bucket, and what stands in the way.
pub proof fn lemma_search_error(files: Seq<FileImage>)
    requires
        files.len() <= usize::MAX,
    ensures
        search_of(files) matches Err(error) ==> {
            &&& error.left == 0
            &&& 1 <= error.right < files.len()
            &&& comparison_of(files[0], files[error.right as int]) == Err::<bool, CompareError>(
                error.cause,
            )
            &&& forall|j: int|
                1 <= j < error.right ==> (#[trigger] comparison_of(files[0], files[j])) is Ok
        },
{
    if first_failure(files, 1) is Some {
        lemma_first_failure_in_range(files, 1);
        lemma_failure_found(files, 1);
        lemma_failure_is_first(files, 1);
    }
}

/// Every file between `from` and the file that `first_failure` finds can be
/// compared with the first file.
proof fn lemma_failure_is_first(files: Seq<FileImage>, from: int)
    requires
        0 <= from,
        first_failure(files, from) is Some,
    ensures
        forall|j: int|
            from <= j < first_failure(files, from)->0 ==> (#[trigger] comparison_of(
                files[0],
                files[j],
            )) is Ok,
    decreases files.len() - from,
{
    if from < files.len() && comparison_of(files[0], files[from]) is Ok {
        lemma_failure_is_first(files, from + 1);
    }
}

/// The search in one bucket fails if and only if the bucket has two or more
/// files and one of them is not a regular file.
pub proof fn lemma_search_fails_iff_not_regular(files: Seq<FileImage>)
    ensures
        search_of(files) is Err <==> files.len() >= 2 && exists|at: int|
            0 <= at < files.len() && !((#[trigger] files[at]).content is File),
{
    lemma_first_failure_in_range(files, 1);
    if first_failure(files, 1) is None {
        if files.len() >= 2 {
            lemma_all_comparable(files, 1, 1);
            assert(comparison_of(files[0], files[1]) is Ok);
            assert forall|at: int| 0 <= at < files.len() implies (#[trigger] files[at]).content is File by {
                if at >= 1 {
                    lemma_all_comparable(files, 1, at);
                }
            }
        }
    } else {
        let found = first_failure(files, 1)->0;
        lemma_failure_found(files, 1);
        if files[0].content is File {
            assert(!(files[found].content is File));
        }
    }
}

/// Where `first_failure` finds nothing, every file from `from` on can be
/// compared with the first file.
proof fn lemma_all_comparable(files: Seq<FileImage>, from: int, at: int)
    requires
        0 <= from <= at < files.len(),
        first_failure(files, from) is None,
    ensures
        comparison_of(files[0], files[at]) is Ok,
    decreases at - from,
{
    if from < at {
        lemma_all_comparable(files, from + 1, at);
    }
}

/// The file that `first_failure` finds cannot be compared with the first
/// file.
proof fn lemma_failure_found(files: Seq<FileImage>, from: int)
    requires
        0 <= from,
        first_failure(files, from) is Some,
    ensures
        comparison_of(files[0], files[first_failure(files, from)->0]) is Err,
    decreases files.len() - from,
{
    if from < files.len() && comparison_of(files[0], files[from]) is Ok {
        lemma_failure_found(files, from + 1);
    }
}

/// Regular files that all differ give no group.
pub proof fn lemma_distinct_files_give_no_group(files: Seq<FileImage>)
    requires
        forall|at: int| 0 <= at < files.len() ==> (#[trigger] files[at]).content is File,
        forall|a: int, b: int|
            0 <= a < files.len() && 0 <= b < files.len() && a != b ==> (
            #[trigger] files[a]).content.bytes() != (#[trigger] files[b]).content.bytes(),
    ensures
        search_of(files) == Ok::<Seq<Seq<int>>, SearchError>(Seq::empty()),
{
    lemma_search_fails_iff_not_regular(files);
    let items = contents(files);
    assert forall|a: int, b: int|
        0 <= a < items.len() && 0 <= b < items.len() && a != b implies #[trigger] items[a]
        != #[trigger] items[b] by {
        assert(files[a].content.bytes() != files[b].content.bytes());
    }
    lemma_distinct_items_give_no_group(items);
}

/// Two or more regular files with the same bytes give one group, which
/// holds them all.
pub proof fn lemma_identical_files_give_one_group(files: Seq<FileImage>)
    requires
        files.len() >= 2,
        forall|at: int| 0 <= at < files.len() ==> (#[trigger] files[at]).content is File,
        forall|a: int, b: int|
            0 <= a < files.len() && 0 <= b < files.len() ==> (#[trigger] files[a]).content.bytes()
                == (#[trigger] files[b]).content.bytes(),
    ensures
        search_of(files) == Ok::<Seq<Seq<int>>, SearchError>(
            seq![Seq::new(files.len(), |at: int| at)],
        ),
{
    lemma_search_fails_iff_not_regular(files);
    let items = contents(files);
    assert forall|a: int, b: int|
        0 <= a < items.len() && 0 <= b < items.len() implies #[trigger] items[a]
        == #[trigger] items[b] by {
        assert(files[a].content.bytes() == files[b].content.bytes());
    }
    lemma_equal_items_give_one_group(items);
}

} // verus!
