//! File records, and images of files held in memory.

use crate::oracle::check_comparable;
use crate::oracle::compare_bytes;
use crate::oracle::lemma_readable_files;
use crate::oracle::obstacle_between;
use crate::oracle::verdict_outcome;
use crate::oracle::CompareError;
use crate::oracle::EntryKind;
use crate::oracle::Obstacle;
use crate::oracle::Side;
use vstd::prelude::*;

verus! {

/// One enumerated file: its path and its size in bytes when it was
/// enumerated.  The path is a label only; a record is known by its place in
/// the enumeration.
#[derive(Debug)]
pub struct FileRecord {
    pub path: String,
    pub size: u64,
}

/// What a path was found to hold.
#[derive(Debug)]
pub enum Content {
    /// A regular file with these bytes.
    File(Vec<u8>),
    /// A directory.
    Directory,
    /// Something that is neither, or that cannot be reached.
    Other,
}

/// A file as enumerated, together with what reading it finds.
#[derive(Debug)]
pub struct FileImage {
    pub record: FileRecord,
    pub content: Content,
}

impl Content {
    /// The kind of entry that holds this content.
    pub open spec fn kind(self) -> EntryKind {
        match self {
            Content::File(_) => EntryKind::File,
            Content::Directory => EntryKind::Directory,
            Content::Other => EntryKind::Other,
        }
    }

    /// The bytes of a regular file; nothing for anything else.
    pub open spec fn bytes(self) -> Seq<u8> {
        match self {
            Content::File(data) => data@,
            _ => Seq::empty(),
        }
    }

    /// The kind of entry that holds this content.
    pub fn entry_kind(&self) -> (kind: EntryKind)
        ensures
            kind == self.kind(),
    {
        match self {
            Content::File(_) => EntryKind::File,
            Content::Directory => EntryKind::Directory,
            Content::Other => EntryKind::Other,
        }
    }
}

/// What the oracle answers on two images: whether their bytes are equal if
/// both are regular files, and what stands in the way if not.
pub open spec fn comparison_of(left: FileImage, right: FileImage) -> Result<bool, CompareError> {
    match obstacle_between(left.content.kind(), right.content.kind()) {
        Some(obstacle) => Err(CompareError::NotComparable(obstacle)),
        None => Ok(left.content.bytes() == right.content.bytes()),
    }
}

/// Decides whether two files held in memory are identical, byte for byte.
/// Only regular files are compared.
pub fn are_files_identical(left: &FileImage, right: &FileImage) -> (outcome: Result<
    bool,
    CompareError,
>)
    ensures
        outcome == comparison_of(*left, *right),
{
    match check_comparable(left.content.entry_kind(), right.content.entry_kind()) {
        Err(error) => Err(error),
        Ok(()) => {
            match (&left.content, &right.content) {
                (Content::File(left_bytes), Content::File(right_bytes)) => {
                    proof {
                        lemma_readable_files(left_bytes@, right_bytes@);
                    }
                    verdict_outcome(compare_bytes(left_bytes.as_slice(), right_bytes.as_slice()))
                },
                _ => vstd::pervasive::unreached(),
            }
        },
    }
}

/// A regular file is identical to itself.
pub proof fn lemma_file_identical_to_itself(file: FileImage)
    requires
        file.content is File,
    ensures
        comparison_of(file, file) == Ok::<bool, CompareError>(true),
{
}

/// Regular files of different lengths are not identical.
pub proof fn lemma_files_of_different_length(left: FileImage, right: FileImage)
    requires
        left.content is File,
        right.content is File,
        left.content.bytes().len() != right.content.bytes().len(),
    ensures
        comparison_of(left, right) == Ok::<bool, CompareError>(false),
{
}

/// A directory on either side is reported as such, whatever the other side
/// is: the error is never a read error.
pub proof fn lemma_directory_is_not_comparable(left: FileImage, right: FileImage)
    requires
        left.content is Directory || right.content is Directory,
    ensures
        comparison_of(left, right) == Err::<bool, CompareError>(
            CompareError::NotComparable(
                if left.content is Directory && right.content is Directory {
                    Obstacle::TwoDirectories
                } else if left.content is Directory {
                    Obstacle::Directory(Side::Left)
                } else {
                    Obstacle::Directory(Side::Right)
                },
            ),
        ),
{
}

} // verus!
