use file_dedup::files::are_files_identical;
use file_dedup::files::Content;
use file_dedup::files::FileImage;
use file_dedup::files::FileRecord;
use file_dedup::oracle::check_comparable;
use file_dedup::oracle::compare_bytes;
use file_dedup::oracle::compare_step;
use file_dedup::oracle::compare_streams;
use file_dedup::oracle::verdict_outcome;
use file_dedup::oracle::CompareError;
use file_dedup::oracle::EntryKind;
use file_dedup::oracle::Obstacle;
use file_dedup::oracle::Progress;
use file_dedup::oracle::ReadEvent;
use file_dedup::oracle::Side;
use file_dedup::oracle::Verdict;

fn file(path: &str, bytes: &[u8]) -> FileImage {
    FileImage {
        record: FileRecord { path: path.to_string(), size: bytes.len() as u64 },
        content: Content::File(bytes.to_vec()),
    }
}

fn directory(path: &str) -> FileImage {
    FileImage { record: FileRecord { path: path.to_string(), size: 0 }, content: Content::Directory }
}

fn other(path: &str) -> FileImage {
    FileImage { record: FileRecord { path: path.to_string(), size: 0 }, content: Content::Other }
}

fn bytes(text: &[u8]) -> Vec<ReadEvent> {
    text.iter().map(|b| ReadEvent::Byte(*b)).collect()
}

#[test]
fn step_both_ended_is_identical() {
    assert_eq!(compare_step(ReadEvent::End, ReadEvent::End), Progress::Finished(Verdict::Identical));
}

#[test]
fn step_one_side_ended_is_different() {
    assert_eq!(
        compare_step(ReadEvent::End, ReadEvent::Byte(7)),
        Progress::Finished(Verdict::Different)
    );
    assert_eq!(
        compare_step(ReadEvent::Byte(7), ReadEvent::End),
        Progress::Finished(Verdict::Different)
    );
}

#[test]
fn step_end_wins_over_failed_read() {
    assert_eq!(
        compare_step(ReadEvent::End, ReadEvent::Failed),
        Progress::Finished(Verdict::Different)
    );
    assert_eq!(
        compare_step(ReadEvent::Failed, ReadEvent::End),
        Progress::Finished(Verdict::Different)
    );
}

#[test]
fn step_failed_read_names_its_side() {
    assert_eq!(
        compare_step(ReadEvent::Failed, ReadEvent::Byte(1)),
        Progress::Finished(Verdict::ReadFailed(Side::Left))
    );
    assert_eq!(
        compare_step(ReadEvent::Byte(1), ReadEvent::Failed),
        Progress::Finished(Verdict::ReadFailed(Side::Right))
    );
    assert_eq!(
        compare_step(ReadEvent::Failed, ReadEvent::Failed),
        Progress::Finished(Verdict::ReadFailed(Side::Left))
    );
}

#[test]
fn step_equal_bytes_continue() {
    assert_eq!(compare_step(ReadEvent::Byte(0), ReadEvent::Byte(0)), Progress::Continue);
    assert_eq!(compare_step(ReadEvent::Byte(255), ReadEvent::Byte(255)), Progress::Continue);
}

#[test]
fn step_unequal_bytes_are_different() {
    assert_eq!(
        compare_step(ReadEvent::Byte(1), ReadEvent::Byte(2)),
        Progress::Finished(Verdict::Different)
    );
}

#[test]
fn verdicts_become_results() {
    assert_eq!(verdict_outcome(Verdict::Identical), Ok(true));
    assert_eq!(verdict_outcome(Verdict::Different), Ok(false));
    assert_eq!(
        verdict_outcome(Verdict::ReadFailed(Side::Left)),
        Err(CompareError::ReadError(Side::Left))
    );
    assert_eq!(
        verdict_outcome(Verdict::ReadFailed(Side::Right)),
        Err(CompareError::ReadError(Side::Right))
    );
}

#[test]
fn two_files_are_comparable() {
    assert_eq!(check_comparable(EntryKind::File, EntryKind::File), Ok(()));
}

#[test]
fn two_directories_are_reported_as_such() {
    assert_eq!(
        check_comparable(EntryKind::Directory, EntryKind::Directory),
        Err(CompareError::NotComparable(Obstacle::TwoDirectories))
    );
}

#[test]
fn one_directory_is_named_by_its_side() {
    assert_eq!(
        check_comparable(EntryKind::Directory, EntryKind::File),
        Err(CompareError::NotComparable(Obstacle::Directory(Side::Left)))
    );
    assert_eq!(
        check_comparable(EntryKind::File, EntryKind::Directory),
        Err(CompareError::NotComparable(Obstacle::Directory(Side::Right)))
    );
    assert_eq!(
        check_comparable(EntryKind::Directory, EntryKind::Other),
        Err(CompareError::NotComparable(Obstacle::Directory(Side::Left)))
    );
    assert_eq!(
        check_comparable(EntryKind::Other, EntryKind::Directory),
        Err(CompareError::NotComparable(Obstacle::Directory(Side::Right)))
    );
}

#[test]
fn an_entry_that_is_no_file_is_named_by_its_side() {
    assert_eq!(
        check_comparable(EntryKind::Other, EntryKind::File),
        Err(CompareError::NotComparable(Obstacle::NotRegular(Side::Left)))
    );
    assert_eq!(
        check_comparable(EntryKind::File, EntryKind::Other),
        Err(CompareError::NotComparable(Obstacle::NotRegular(Side::Right)))
    );
    assert_eq!(
        check_comparable(EntryKind::Other, EntryKind::Other),
        Err(CompareError::NotComparable(Obstacle::NotRegular(Side::Left)))
    );
}

#[test]
fn equal_streams_are_identical() {
    assert_eq!(compare_streams(&bytes(b"hello"), &bytes(b"hello")), Verdict::Identical);
}

#[test]
fn empty_streams_are_identical() {
    assert_eq!(compare_streams(&Vec::new(), &Vec::new()), Verdict::Identical);
}

#[test]
fn streams_with_one_unequal_byte_are_different() {
    assert_eq!(compare_streams(&bytes(b"hello"), &bytes(b"hellp")), Verdict::Different);
    assert_eq!(compare_streams(&bytes(b"hello"), &bytes(b"jello")), Verdict::Different);
}

#[test]
fn a_prefix_is_different_from_the_longer_stream() {
    assert_eq!(compare_streams(&bytes(b"hell"), &bytes(b"hello")), Verdict::Different);
    assert_eq!(compare_streams(&bytes(b"hello"), &bytes(b"hell")), Verdict::Different);
    assert_eq!(compare_streams(&bytes(b""), &bytes(b"x")), Verdict::Different);
}

#[test]
fn a_failed_read_before_the_decision_is_an_error() {
    let mut left = bytes(b"ab");
    left.push(ReadEvent::Failed);
    assert_eq!(compare_streams(&left, &bytes(b"abc")), Verdict::ReadFailed(Side::Left));
    let mut right = bytes(b"ab");
    right.push(ReadEvent::Failed);
    assert_eq!(compare_streams(&bytes(b"abc"), &right), Verdict::ReadFailed(Side::Right));
}

#[test]
fn a_mismatch_before_a_failed_read_decides() {
    let mut right = bytes(b"xb");
    right.push(ReadEvent::Failed);
    assert_eq!(compare_streams(&bytes(b"abc"), &right), Verdict::Different);
}

#[test]
fn an_unreadable_tail_behind_the_shorter_file_is_never_read() {
    let mut long = bytes(b"hello");
    long.push(ReadEvent::Failed);
    long.push(ReadEvent::Byte(1));
    assert_eq!(compare_streams(&bytes(b"hello"), &long), Verdict::Different);
    assert_eq!(compare_streams(&long, &bytes(b"hello")), Verdict::Different);
}

#[test]
fn a_huge_tail_does_not_change_the_verdict() {
    let mut long = bytes(b"ab");
    long.extend(std::iter::repeat(ReadEvent::Byte(0)).take(100_000));
    assert_eq!(compare_streams(&bytes(b"ab"), &long), Verdict::Different);
}

#[test]
fn an_end_inside_a_recorded_stream_ends_it() {
    let left = vec![ReadEvent::Byte(1), ReadEvent::End, ReadEvent::Byte(2)];
    let right = vec![ReadEvent::Byte(1)];
    assert_eq!(compare_streams(&left, &right), Verdict::Identical);
}

#[test]
fn equal_byte_strings_are_identical() {
    assert_eq!(compare_bytes(b"hello", b"hello"), Verdict::Identical);
    assert_eq!(compare_bytes(b"", b""), Verdict::Identical);
}

#[test]
fn unequal_byte_strings_are_different() {
    assert_eq!(compare_bytes(b"hello", b"world"), Verdict::Different);
    assert_eq!(compare_bytes(b"hello", b"hello!"), Verdict::Different);
    assert_eq!(compare_bytes(b"hello!", b"hello"), Verdict::Different);
    assert_eq!(compare_bytes(b"", b"a"), Verdict::Different);
}

#[test]
fn a_file_is_identical_to_itself() {
    let image = file("a.txt", b"some content");
    assert_eq!(are_files_identical(&image, &image), Ok(true));
    let same_path_again = file("a.txt", b"some content");
    assert_eq!(are_files_identical(&image, &same_path_again), Ok(true));
}

#[test]
fn files_of_different_sizes_are_not_identical() {
    assert_eq!(are_files_identical(&file("a", b"abc"), &file("b", b"abcd")), Ok(false));
    assert_eq!(are_files_identical(&file("a", b"abcd"), &file("b", b"abc")), Ok(false));
}

#[test]
fn files_of_equal_size_and_different_bytes_are_not_identical() {
    assert_eq!(are_files_identical(&file("a", b"hello"), &file("b", b"world")), Ok(false));
}

#[test]
fn two_empty_files_are_identical() {
    assert_eq!(are_files_identical(&file("empty1", b""), &file("empty2", b"")), Ok(true));
}

#[test]
fn comparing_with_a_directory_fails_and_names_it() {
    assert_eq!(
        are_files_identical(&directory("dir"), &file("a", b"x")),
        Err(CompareError::NotComparable(Obstacle::Directory(Side::Left)))
    );
    assert_eq!(
        are_files_identical(&file("a", b"x"), &directory("dir")),
        Err(CompareError::NotComparable(Obstacle::Directory(Side::Right)))
    );
}

#[test]
fn comparing_two_directories_fails() {
    assert_eq!(
        are_files_identical(&directory("d1"), &directory("d2")),
        Err(CompareError::NotComparable(Obstacle::TwoDirectories))
    );
}

#[test]
fn comparing_with_an_unreachable_entry_fails() {
    assert_eq!(
        are_files_identical(&other("gone"), &file("a", b"x")),
        Err(CompareError::NotComparable(Obstacle::NotRegular(Side::Left)))
    );
    assert_eq!(
        are_files_identical(&file("a", b"x"), &other("gone")),
        Err(CompareError::NotComparable(Obstacle::NotRegular(Side::Right)))
    );
}

#[test]
fn the_kind_of_a_content() {
    assert_eq!(Content::File(vec![1, 2]).entry_kind(), EntryKind::File);
    assert_eq!(Content::Directory.entry_kind(), EntryKind::Directory);
    assert_eq!(Content::Other.entry_kind(), EntryKind::Other);
}
