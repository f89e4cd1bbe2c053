use file_dedup::bucket::bucket_by_size;
use file_dedup::bucket::SizeBuckets;
use file_dedup::files::FileRecord;

fn records(sizes: &[u64]) -> Vec<FileRecord> {
    sizes
        .iter()
        .enumerate()
        .map(|(at, size)| FileRecord { path: format!("file{}", at), size: *size })
        .collect()
}

#[test]
fn no_records_no_buckets() {
    let buckets = SizeBuckets::new();
    assert_eq!(buckets.len(), 0);
    assert_eq!(buckets.bucket(0), Vec::<usize>::new());
    assert_eq!(buckets.candidates(), Vec::<Vec<usize>>::new());
}

#[test]
fn records_are_bucketed_by_size_in_enumeration_order() {
    let buckets = bucket_by_size(&records(&[5, 5, 3, 5, 3, 7]));
    assert_eq!(buckets.len(), 6);
    assert_eq!(buckets.bucket(5), vec![0, 1, 3]);
    assert_eq!(buckets.bucket(3), vec![2, 4]);
    assert_eq!(buckets.bucket(7), vec![5]);
    assert_eq!(buckets.bucket(9), Vec::<usize>::new());
}

#[test]
fn buckets_of_one_record_are_no_candidates() {
    let buckets = bucket_by_size(&records(&[5, 5, 3, 5, 3, 7]));
    assert_eq!(buckets.candidates(), vec![vec![0, 1, 3], vec![2, 4]]);
}

#[test]
fn candidates_stand_in_the_order_their_sizes_were_first_seen() {
    let buckets = bucket_by_size(&records(&[10, 2, 7, 2, 10, 7]));
    assert_eq!(buckets.candidates(), vec![vec![0, 4], vec![1, 3], vec![2, 5]]);
}

#[test]
fn records_of_different_sizes_never_share_a_bucket() {
    let sizes = [4u64, 8, 4, 15, 8, 16, 23, 42, 4];
    let buckets = bucket_by_size(&records(&sizes));
    for size in sizes {
        for place in buckets.bucket(size) {
            assert_eq!(sizes[place], size);
        }
    }
    for bucket in buckets.candidates() {
        for place in &bucket {
            assert_eq!(sizes[*place], sizes[bucket[0]]);
        }
    }
}

#[test]
fn all_sizes_different_gives_no_candidates() {
    let buckets = bucket_by_size(&records(&[1, 2, 3, 4]));
    assert_eq!(buckets.candidates(), Vec::<Vec<usize>>::new());
}

#[test]
fn inserting_adds_the_next_record_to_its_bucket() {
    let mut buckets = SizeBuckets::new();
    buckets.insert(100);
    assert_eq!(buckets.bucket(100), vec![0]);
    buckets.insert(200);
    buckets.insert(100);
    assert_eq!(buckets.len(), 3);
    assert_eq!(buckets.bucket(100), vec![0, 2]);
    assert_eq!(buckets.bucket(200), vec![1]);
    assert_eq!(buckets.candidates(), vec![vec![0, 2]]);
}

#[test]
fn empty_files_share_the_bucket_of_size_zero() {
    let buckets = bucket_by_size(&records(&[0, 1, 0]));
    assert_eq!(buckets.bucket(0), vec![0, 2]);
    assert_eq!(buckets.candidates(), vec![vec![0, 2]]);
}

#[test]
fn the_largest_size_is_a_size_like_any_other() {
    let buckets = bucket_by_size(&records(&[u64::MAX, 0, u64::MAX]));
    assert_eq!(buckets.bucket(u64::MAX), vec![0, 2]);
}
