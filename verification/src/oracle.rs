//! The equality oracle: byte-exact comparison of two files, read in lockstep.
//!
//! The oracle's decisions are taken here, one pair of read events at a time.
//! A caller that reads real files feeds each pair to [`compare_step`] and
//! stops at the first verdict.  [`compare_streams`] does the same over
//! recorded events, and [`compare_bytes`] over two byte strings.

use vstd::prelude::*;

verus! {

/// Which of the two compared files is meant.
#[derive(Clone, Copy, Debug, PartialEq, Eq, Structural)]
pub enum Side {
    Left,
    Right,
}

/// What a path names.
#[derive(Clone, Copy, Debug, PartialEq, Eq, Structural)]
pub enum EntryKind {
    /// A regular file.
    File,
    /// A directory.
    Directory,
    /// Anything else, or nothing that can be reached.
    Other,
}

/// Why two paths cannot be compared.
#[derive(Clone, Copy, Debug, PartialEq, Eq, Structural)]
pub enum Obstacle {
    /// Both sides are directories.
    TwoDirectories,
    /// The given side is a directory and the other side is not.
    Directory(Side),
    /// Neither side is a directory, and the given side is not a regular
    /// file; the left side where both are not.
    NotRegular(Side),
}

/// Why a comparison gave no verdict.
#[derive(Clone, Copy, Debug, PartialEq, Eq, Structural)]
pub enum CompareError {
    /// At least one side is not a regular file.
    NotComparable(Obstacle),
    /// A read failed on the given side.
    ReadError(Side),
}

/// What one attempt to read the next byte of a stream produced.
#[derive(Clone, Copy, Debug, PartialEq, Eq, Structural)]
pub enum ReadEvent {
    /// The stream delivered this byte.
    Byte(u8),
    /// The stream is exhausted.
    End,
    /// The read failed.
    Failed,
}

/// The outcome of a finished comparison.
#[derive(Clone, Copy, Debug, PartialEq, Eq, Structural)]
pub enum Verdict {
    /// Both streams ended together without a mismatch.
    Identical,
    /// A byte differed, or one stream ended before the other.
    Different,
    /// A read failed on the given side before the comparison was decided.
    ReadFailed(Side),
}

/// What the comparison does after looking at one pair of read events.
#[derive(Clone, Copy, Debug, PartialEq, Eq, Structural)]
pub enum Progress {
    /// The two bytes agree; read the next pair.
    Continue,
    /// The comparison is decided.
    Finished(Verdict),
}

/// What stands in the way of comparing a path of kind `left` with one of
/// kind `right`; nothing if both are regular files.
pub open spec fn obstacle_between(left: EntryKind, right: EntryKind) -> Option<Obstacle> {
    if left is File && right is File {
        None
    } else if left is Directory && right is Directory {
        Some(Obstacle::TwoDirectories)
    } else if left is Directory {
        Some(Obstacle::Directory(Side::Left))
    } else if right is Directory {
        Some(Obstacle::Directory(Side::Right))
    } else if left is Other {
        Some(Obstacle::NotRegular(Side::Left))
    } else {
        Some(Obstacle::NotRegular(Side::Right))
    }
}

/// Tells whether two paths of the given kinds can be compared, and if not,
/// why: only two regular files can.
pub fn check_comparable(left: EntryKind, right: EntryKind) -> (outcome: Result<(), CompareError>)
    ensures
        outcome == match obstacle_between(left, right) {
            None => Ok::<(), CompareError>(()),
            Some(obstacle) => Err(CompareError::NotComparable(obstacle)),
        },
{
    match (left, right) {
        (EntryKind::File, EntryKind::File) => Ok(()),
        (EntryKind::Directory, EntryKind::Directory) => Err(
            CompareError::NotComparable(Obstacle::TwoDirectories),
        ),
        (EntryKind::Directory, _) => Err(
            CompareError::NotComparable(Obstacle::Directory(Side::Left)),
        ),
        (_, EntryKind::Directory) => Err(
            CompareError::NotComparable(Obstacle::Directory(Side::Right)),
        ),
        (EntryKind::Other, _) => Err(CompareError::NotComparable(Obstacle::NotRegular(Side::Left))),
        (_, EntryKind::Other) => Err(
            CompareError::NotComparable(Obstacle::NotRegular(Side::Right)),
        ),
    }
}

/// The decision taken on one pair of read events.
///
/// An exhausted stream decides the comparison whatever the other side
/// delivered, even a failed read.  Otherwise a failed read is reported, the
/// left one first.
pub open spec fn step_of(left: ReadEvent, right: ReadEvent) -> Progress {
    if left is End || right is End {
        Progress::Finished(
            if left is End && right is End {
                Verdict::Identical
            } else {
                Verdict::Different
            },
        )
    } else if left is Failed {
        Progress::Finished(Verdict::ReadFailed(Side::Left))
    } else if right is Failed {
        Progress::Finished(Verdict::ReadFailed(Side::Right))
    } else if left->Byte_0 == right->Byte_0 {
        Progress::Continue
    } else {
        Progress::Finished(Verdict::Different)
    }
}

/// Decides on one pair of read events, one from each stream at the same
/// position.
pub fn compare_step(left: ReadEvent, right: ReadEvent) -> (progress: Progress)
    ensures
        progress == step_of(left, right),
{
    match (left, right) {
        (ReadEvent::End, ReadEvent::End) => Progress::Finished(Verdict::Identical),
        (ReadEvent::End, _) => Progress::Finished(Verdict::Different),
        (_, ReadEvent::End) => Progress::Finished(Verdict::Different),
        (ReadEvent::Failed, _) => Progress::Finished(Verdict::ReadFailed(Side::Left)),
        (_, ReadEvent::Failed) => Progress::Finished(Verdict::ReadFailed(Side::Right)),
        (ReadEvent::Byte(a), ReadEvent::Byte(b)) => if a == b {
            Progress::Continue
        } else {
            Progress::Finished(Verdict::Different)
        },
    }
}

/// What a finished comparison returns to its caller: whether the files are
/// identical, or the read error.
pub open spec fn outcome_of(verdict: Verdict) -> Result<bool, CompareError> {
    match verdict {
        Verdict::Identical => Ok(true),
        Verdict::Different => Ok(false),
        Verdict::ReadFailed(side) => Err(CompareError::ReadError(side)),
    }
}

/// Turns a verdict into the oracle's result.
pub fn verdict_outcome(verdict: Verdict) -> (outcome: Result<bool, CompareError>)
    ensures
        outcome == outcome_of(verdict),
{
    match verdict {
        Verdict::Identical => Ok(true),
        Verdict::Different => Ok(false),
        Verdict::ReadFailed(side) => Err(CompareError::ReadError(side)),
    }
}

/// The event that a recorded stream delivers at `position`.  Past its last
/// recorded event a stream is exhausted.
pub open spec fn event_at(stream: Seq<ReadEvent>, position: int) -> ReadEvent {
    if 0 <= position < stream.len() {
        stream[position]
    } else {
        ReadEvent::End
    }
}

/// The verdict on two streams that are read in lockstep from `position` on:
/// that of the first pair of events which decides.
pub open spec fn verdict_from(left: Seq<ReadEvent>, right: Seq<ReadEvent>, position: int) -> Verdict
    decreases left.len() - position,
{
    match step_of(event_at(left, position), event_at(right, position)) {
        Progress::Finished(verdict) => verdict,
        Progress::Continue => verdict_from(left, right, position + 1),
    }
}

/// The verdict on two streams that are read in lockstep from their start.
pub open spec fn stream_verdict(left: Seq<ReadEvent>, right: Seq<ReadEvent>) -> Verdict {
    verdict_from(left, right, 0)
}

/// The position after the pair of events that decides the comparison: how
/// many events the comparison reads from each stream.
pub open spec fn reads_from(left: Seq<ReadEvent>, right: Seq<ReadEvent>, position: int) -> int
    decreases left.len() - position,
{
    match step_of(event_at(left, position), event_at(right, position)) {
        Progress::Finished(_) => position + 1,
        Progress::Continue => reads_from(left, right, position + 1),
    }
}

/// The stream that a readable file of the given content delivers.
pub open spec fn byte_events(content: Seq<u8>) -> Seq<ReadEvent> {
    Seq::new(content.len(), |position: int| ReadEvent::Byte(content[position]))
}

/// Compares two recorded streams in lockstep.
pub fn compare_streams(left: &Vec<ReadEvent>, right: &Vec<ReadEvent>) -> (verdict: Verdict)
    ensures
        verdict == stream_verdict(left@, right@),
{
    let mut position: usize = 0;
    loop
        invariant
            position <= left@.len(),
            verdict_from(left@, right@, position as int) == stream_verdict(left@, right@),
        decreases left@.len() - position,
    {
        let from_left = if position < left.len() {
            left[position]
        } else {
            ReadEvent::End
        };
        let from_right = if position < right.len() {
            right[position]
        } else {
            ReadEvent::End
        };
        match compare_step(from_left, from_right) {
            Progress::Finished(verdict) => {
                return verdict;
            },
            Progress::Continue => {
                position += 1;
            },
        }
    }
}

/// Compares two byte strings as the contents of two readable files.
pub fn compare_bytes(left: &[u8], right: &[u8]) -> (verdict: Verdict)
    ensures
        verdict == stream_verdict(byte_events(left@), byte_events(right@)),
{
    let ghost left_events = byte_events(left@);
    let ghost right_events = byte_events(right@);
    let mut position: usize = 0;
    loop
        invariant
            position <= left@.len(),
            left_events == byte_events(left@),
            right_events == byte_events(right@),
            verdict_from(left_events, right_events, position as int) == stream_verdict(
                left_events,
                right_events,
            ),
        decreases left@.len() - position,
    {
        let from_left = if position < left.len() {
            ReadEvent::Byte(left[position])
        } else {
            ReadEvent::End
        };
        let from_right = if position < right.len() {
            ReadEvent::Byte(right[position])
        } else {
            ReadEvent::End
        };
        match compare_step(from_left, from_right) {
            Progress::Finished(verdict) => {
                return verdict;
            },
            Progress::Continue => {
                position += 1;
            },
        }
    }
}

/// The comparison of two readable files from a position up to which their
/// contents agree.
proof fn lemma_bytes_from(left: Seq<u8>, right: Seq<u8>, position: int)
    requires
        0 <= position <= left.len(),
        position <= right.len(),
        forall|i: int| 0 <= i < position ==> left[i] == right[i],
    ensures
        verdict_from(byte_events(left), byte_events(right), position) == if left == right {
            Verdict::Identical
        } else {
            Verdict::Different
        },
    decreases left.len() - position,
{
    if position < left.len() && position < right.len() {
        if left[position] == right[position] {
            lemma_bytes_from(left, right, position + 1);
        }
    } else if position == left.len() && position == right.len() {
        assert(left =~= right);
    }
}

/// Two readable files compare as identical if their contents are equal, and
/// as different otherwise.
pub proof fn lemma_readable_files(left: Seq<u8>, right: Seq<u8>)
    ensures
        stream_verdict(byte_events(left), byte_events(right)) == if left == right {
            Verdict::Identical
        } else {
            Verdict::Different
        },
{
    lemma_bytes_from(left, right, 0);
}

/// A readable file is identical to itself.
pub proof fn lemma_identical_to_itself(content: Seq<u8>)
    ensures
        stream_verdict(byte_events(content), byte_events(content)) == Verdict::Identical,
{
    lemma_readable_files(content, content);
}

/// Two readable files of different lengths are different.
pub proof fn lemma_lengths_differ(left: Seq<u8>, right: Seq<u8>)
    requires
        left.len() != right.len(),
    ensures
        stream_verdict(byte_events(left), byte_events(right)) == Verdict::Different,
{
    lemma_readable_files(left, right);
}

/// How far a comparison that has reached `position` still reads.
proof fn lemma_reads_from(left: Seq<ReadEvent>, right: Seq<ReadEvent>, position: int)
    requires
        0 <= position <= left.len(),
        position <= right.len(),
    ensures
        position < reads_from(left, right, position),
        reads_from(left, right, position) <= left.len() + 1,
        reads_from(left, right, position) <= right.len() + 1,
    decreases left.len() - position,
{
    if step_of(event_at(left, position), event_at(right, position)) is Continue {
        lemma_reads_from(left, right, position + 1);
    }
}

/// A comparison reads no further than the end of the shorter stream: from
/// each stream it takes at most one event more than the shorter one holds,
/// and that last event is the shorter stream's end.
pub proof fn lemma_reads_bounded(left: Seq<ReadEvent>, right: Seq<ReadEvent>)
    ensures
        1 <= reads_from(left, right, 0),
        reads_from(left, right, 0) <= left.len() + 1,
        reads_from(left, right, 0) <= right.len() + 1,
{
    lemma_reads_from(left, right, 0);
}

/// Two pairs of streams that agree from `position` up to where the first
/// comparison stops are compared alike.
proof fn lemma_same_reads_from(
    left: Seq<ReadEvent>,
    right: Seq<ReadEvent>,
    other_left: Seq<ReadEvent>,
    other_right: Seq<ReadEvent>,
    position: int,
)
    requires
        0 <= position,
        forall|at: int|
            position <= at < reads_from(left, right, position) ==> event_at(left, at) == event_at(
                other_left,
                at,
            ) && event_at(right, at) == event_at(other_right, at),
    ensures
        verdict_from(other_left, other_right, position) == verdict_from(left, right, position),
        reads_from(other_left, other_right, position) == reads_from(left, right, position),
    decreases left.len() - position,
{
    if step_of(event_at(left, position), event_at(right, position)) is Continue {
        lemma_reads_from(left, right, position + 1);
        assert(event_at(left, position) == event_at(other_left, position));
        lemma_same_reads_from(left, right, other_left, other_right, position + 1);
    } else {
        assert(event_at(left, position) == event_at(other_left, position));
    }
}

/// Events that a comparison does not read have no part in what it decides.
/// If two other streams agree with `left` and `right` on every event read,
/// their comparison reads as far and decides as that of `left` and `right`.
pub proof fn lemma_unread_events_are_irrelevant(
    left: Seq<ReadEvent>,
    right: Seq<ReadEvent>,
    other_left: Seq<ReadEvent>,
    other_right: Seq<ReadEvent>,
)
    requires
        forall|at: int|
            0 <= at < reads_from(left, right, 0) ==> event_at(left, at) == event_at(
                other_left,
                at,
            ) && event_at(right, at) == event_at(other_right, at),
    ensures
        stream_verdict(other_left, other_right) == stream_verdict(left, right),
        reads_from(other_left, other_right, 0) == reads_from(left, right, 0),
{
    lemma_same_reads_from(left, right, other_left, other_right, 0);
}

} // verus!
