use file_dedup::files::Content;
use file_dedup::files::FileImage;
use file_dedup::files::FileRecord;
use file_dedup::oracle::CompareError;
use file_dedup::oracle::Obstacle;
use file_dedup::oracle::Side;
use file_dedup::enumeration::find_all_duplicates;
use file_dedup::enumeration::group_paths;
use file_dedup::enumeration::BucketError;
use file_dedup::search::find_duplicates;
use file_dedup::search::SearchError;

fn file(path: &str, bytes: &[u8]) -> FileImage {
    FileImage {
        record: FileRecord { path: path.to_string(), size: bytes.len() as u64 },
        content: Content::File(bytes.to_vec()),
    }
}

fn sized(path: &str, size: u64, content: Content) -> FileImage {
    FileImage { record: FileRecord { path: path.to_string(), size }, content }
}

fn names(lists: Vec<Vec<&str>>) -> Option<Vec<Vec<String>>> {
    Some(lists.into_iter().map(|l| l.into_iter().map(|s| s.to_string()).collect()).collect())
}

#[test]
fn hello_hello_world_hello() {
    let files = vec![
        file("a.txt", b"hello"),
        file("b.txt", b"hello"),
        file("c.txt", b"world"),
        file("sub/d.txt", b"hello"),
    ];
    let groups = find_all_duplicates(&files).unwrap();
    assert_eq!(groups, vec![vec![0, 1, 3]]);
    assert_eq!(group_paths(&files, &groups), names(vec![vec!["a.txt", "b.txt", "sub/d.txt"]]));
}

#[test]
fn two_empty_files_are_duplicates() {
    let files = vec![file("empty1", b""), file("empty2", b"")];
    assert_eq!(find_all_duplicates(&files), Ok(vec![vec![0, 1]]));
    assert_eq!(find_duplicates(&files), Ok(vec![vec![0, 1]]));
}

#[test]
fn three_identical_files_and_one_other_in_a_bucket() {
    let files = vec![file("A", b"same"), file("B", b"same"), file("C", b"same"), file("D", b"diff")];
    assert_eq!(find_duplicates(&files), Ok(vec![vec![0, 1, 2]]));
}

#[test]
fn a_bucket_of_distinct_files_gives_no_groups() {
    let files = vec![file("1", b"aaaa"), file("2", b"aaab"), file("3", b"aaba"), file("4", b"abaa")];
    assert_eq!(find_duplicates(&files), Ok(vec![]));
    assert_eq!(find_all_duplicates(&files), Ok(vec![]));
}

#[test]
fn an_empty_list_gives_no_groups() {
    assert_eq!(find_duplicates(&Vec::new()), Ok(vec![]));
    assert_eq!(find_all_duplicates(&Vec::new()), Ok(vec![]));
}

#[test]
fn a_single_file_gives_no_groups() {
    assert_eq!(find_duplicates(&vec![file("only", b"x")]), Ok(vec![]));
    assert_eq!(find_all_duplicates(&vec![file("only", b"x")]), Ok(vec![]));
}

#[test]
fn a_single_directory_is_never_compared() {
    let files = vec![sized("dir", 0, Content::Directory)];
    assert_eq!(find_duplicates(&files), Ok(vec![]));
    assert_eq!(find_all_duplicates(&files), Ok(vec![]));
}

#[test]
fn all_identical_files_give_one_group() {
    let files = vec![file("a", b"zz"), file("b", b"zz"), file("c", b"zz")];
    assert_eq!(find_duplicates(&files), Ok(vec![vec![0, 1, 2]]));
}

#[test]
fn the_search_is_repeatable() {
    let files = vec![
        file("a", b"one"),
        file("b", b"two"),
        file("c", b"one"),
        file("d", b"four"),
        file("e", b"two"),
        file("f", b"four"),
        file("g", b"six"),
    ];
    let first = find_all_duplicates(&files);
    let second = find_all_duplicates(&files);
    assert_eq!(first, second);
    assert_eq!(first, Ok(vec![vec![0, 2], vec![1, 4], vec![3, 5]]));
}

#[test]
fn groups_of_one_size_stand_together() {
    // sizes 1, 2, 1, 1, 2: the bucket of size 1 comes first
    let files = vec![file("a", b"x"), file("b", b"yy"), file("c", b"z"), file("d", b"z"), file("e", b"yy")];
    assert_eq!(find_all_duplicates(&files), Ok(vec![vec![2, 3], vec![1, 4]]));
    assert_eq!(find_duplicates(&files), Ok(vec![vec![1, 4], vec![2, 3]]));
}

#[test]
fn files_enumerated_with_different_sizes_are_never_grouped() {
    let files = vec![
        sized("grown", 3, Content::File(b"same".to_vec())),
        sized("current", 4, Content::File(b"same".to_vec())),
    ];
    assert_eq!(find_all_duplicates(&files), Ok(vec![]));
    assert_eq!(find_duplicates(&files), Ok(vec![vec![0, 1]]));
}

#[test]
fn the_oracle_decides_even_if_the_sizes_were_stale() {
    let files = vec![
        sized("a", 7, Content::File(b"short".to_vec())),
        sized("b", 7, Content::File(b"much longer".to_vec())),
    ];
    assert_eq!(find_all_duplicates(&files), Ok(vec![]));
}

#[test]
fn a_directory_in_a_bucket_fails_the_search() {
    let files = vec![file("a", b""), sized("dir", 0, Content::Directory), file("b", b"")];
    assert_eq!(
        find_duplicates(&files),
        Err(SearchError {
            left: 0,
            right: 1,
            cause: CompareError::NotComparable(Obstacle::Directory(Side::Right)),
        })
    );
}

#[test]
fn the_first_failing_comparison_is_reported() {
    let files = vec![
        file("a", b"x"),
        file("b", b"x"),
        sized("gone", 1, Content::Other),
        sized("dir", 1, Content::Directory),
    ];
    assert_eq!(
        find_duplicates(&files),
        Err(SearchError {
            left: 0,
            right: 2,
            cause: CompareError::NotComparable(Obstacle::NotRegular(Side::Right)),
        })
    );
}

#[test]
fn a_first_entry_that_is_no_file_fails_at_once() {
    let files = vec![sized("dir", 1, Content::Directory), file("a", b"x"), file("b", b"x")];
    assert_eq!(
        find_duplicates(&files),
        Err(SearchError {
            left: 0,
            right: 1,
            cause: CompareError::NotComparable(Obstacle::Directory(Side::Left)),
        })
    );
}

#[test]
fn two_directories_in_a_bucket() {
    let files = vec![sized("d1", 0, Content::Directory), sized("d2", 0, Content::Directory)];
    assert_eq!(
        find_duplicates(&files),
        Err(SearchError {
            left: 0,
            right: 1,
            cause: CompareError::NotComparable(Obstacle::TwoDirectories),
        })
    );
}

#[test]
fn a_failing_bucket_fails_the_whole_search() {
    let files = vec![
        file("a", b"12"),
        file("b", b"12"),
        file("c", b"123"),
        sized("dir", 3, Content::Directory),
        file("d", b"1234"),
        file("e", b"1234"),
    ];
    assert_eq!(
        find_all_duplicates(&files),
        Err(BucketError {
            size: 3,
            left: 2,
            right: 3,
            cause: CompareError::NotComparable(Obstacle::Directory(Side::Right)),
        })
    );
}

#[test]
fn an_entry_alone_in_its_bucket_is_never_compared() {
    let files = vec![file("a", b"12"), sized("dir", 9, Content::Directory), file("b", b"12")];
    assert_eq!(find_all_duplicates(&files), Ok(vec![vec![0, 2]]));
}

#[test]
fn the_same_path_twice_is_a_group() {
    let files = vec![file("a", b"data"), file("a", b"data")];
    let groups = find_all_duplicates(&files).unwrap();
    assert_eq!(group_paths(&files, &groups), names(vec![vec!["a", "a"]]));
}

#[test]
fn paths_of_several_groups() {
    let files = vec![file("p", b"1"), file("q", b"2"), file("r", b"2"), file("s", b"1")];
    let groups = find_all_duplicates(&files).unwrap();
    assert_eq!(groups, vec![vec![0, 3], vec![1, 2]]);
    assert_eq!(group_paths(&files, &groups), names(vec![vec!["p", "s"], vec!["q", "r"]]));
}

#[test]
fn no_paths_for_a_place_that_does_not_exist() {
    let files = vec![file("p", b"1"), file("q", b"1")];
    assert_eq!(group_paths(&files, &vec![vec![0, 2]]), None);
    assert_eq!(group_paths(&files, &vec![vec![0, 1], vec![7]]), None);
    assert_eq!(group_paths(&files, &vec![]), Some(vec![]));
    assert_eq!(group_paths(&files, &vec![vec![]]), Some(vec![vec![]]));
}

#[test]
fn no_group_has_fewer_than_two_members() {
    let files = vec![
        file("a", b"k"),
        file("b", b"l"),
        file("c", b"k"),
        file("d", b"mm"),
        file("e", b"nn"),
        file("f", b"mm"),
        file("g", b"ooo"),
    ];
    let groups = find_all_duplicates(&files).unwrap();
    assert_eq!(groups, vec![vec![0, 2], vec![3, 5]]);
    for group in &groups {
        assert!(group.len() >= 2);
    }
}
