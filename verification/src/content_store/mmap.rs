//! Segment files in memory.

use vstd::prelude::*;
use vstd::string::*;

use crate::text;

verus! {

/// A segment file in memory.
#[derive(Debug)]
pub struct MappedSegment {
    pub segment_id: String,
    pub file_name: String,
    pub mapped_bytes: u64,
}

/// A stretch of memory.
#[derive(Debug, Clone, Copy, PartialEq, Eq, Structural)]
pub struct MmapRegion {
    pub base_address: u64,
    pub length: u64,
    pub is_private: bool,
}

/// Why a segment file could not be opened.
#[derive(Debug)]
pub enum MmapLoadError {
    FileNotFound(String),
    PermissionDenied(String),
    InvalidAlignment(String),
}

/// An error in contracts.
pub open spec fn error_message(e: MmapLoadError) -> Seq<char> {
    match e {
        MmapLoadError::FileNotFound(p) => "file not found: "@ + p@,
        MmapLoadError::PermissionDenied(p) => "permission denied: "@ + p@,
        MmapLoadError::InvalidAlignment(m) => "invalid alignment: "@ + m@,
    }
}

impl MmapLoadError {
    /// The error in words.
    pub fn message(&self) -> (r: String)
        ensures
            r@ == error_message(*self),
    {
        match self {
            MmapLoadError::FileNotFound(p) => text::join2("file not found: ", p.as_str()),
            MmapLoadError::PermissionDenied(p) => text::join2("permission denied: ", p.as_str()),
            MmapLoadError::InvalidAlignment(m) => text::join2("invalid alignment: ", m.as_str()),
        }
    }
}

/// What was found of a segment file.
#[derive(Debug)]
pub enum SegmentFile {
    /// There is no such file.
    Missing,
    /// The file is there and its size cannot be had.
    Unreadable,
    /// The file, its name without directories, and its size.
    Found { file_name: String, bytes: u64 },
}

/// Opens segment files.
#[derive(Debug, Clone, Copy)]
pub struct MmapLoader;

/// A text without the suffix, however often it stands at the end.
pub open spec fn without_suffixes(s: Seq<char>, p: Seq<char>) -> Seq<char>
    decreases s.len(),
{
    if p.len() > 0 && text::has_suffix(s, p) {
        without_suffixes(s.take(s.len() - p.len()), p)
    } else {
        s
    }
}

fn trim_suffixes(s: &str, p: &str) -> (r: String)
    requires
        p@.len() > 0,
    ensures
        r@ == without_suffixes(s@, p@),
    decreases s@.len(),
{
    if text::ends_with(s, p) {
        let keep: usize = s.unicode_len() - p.unicode_len();
        let rest: &str = s.substring_char(0, keep);
        assert(rest@ =~= s@.take(s@.len() - p@.len()));
        trim_suffixes(rest, p)
    } else {
        s.to_owned()
    }
}

impl MmapLoader {
    pub fn new() -> Self {
        MmapLoader
    }

    /// Opens the segment file at a path. The id of the segment is the name of
    /// the file without its endings.
    pub fn open_segment(path: &str, file: SegmentFile) -> (r: Result<MappedSegment, MmapLoadError>)
        ensures
            match file {
                SegmentFile::Missing => r matches Err(MmapLoadError::FileNotFound(p)) && p@
                    == path@,
                SegmentFile::Unreadable => r matches Err(MmapLoadError::PermissionDenied(p)) && p@
                    == path@,
                SegmentFile::Found { file_name, bytes } => r matches Ok(m) && m.segment_id@
                    == without_suffixes(file_name@, ".bin"@) && m.file_name@ == file_name@
                    && m.mapped_bytes == bytes,
            },
    {
        match file {
            SegmentFile::Missing => Err(MmapLoadError::FileNotFound(path.to_owned())),
            SegmentFile::Unreadable => Err(MmapLoadError::PermissionDenied(path.to_owned())),
            SegmentFile::Found { file_name, bytes } => {
                proof {
                    reveal_strlit(".bin");
                }
                let segment_id: String = trim_suffixes(file_name.as_str(), ".bin");
                Ok(MappedSegment { segment_id, file_name, mapped_bytes: bytes })
            },
        }
    }

    /// Gives a segment back.
    pub fn close_segment(_segment: MappedSegment) {
    }

    /// Says that a segment will be read here and there.
    pub fn advise_random_access(_segment: &MappedSegment) {
    }

    /// Says that a segment will be read from end to end.
    pub fn advise_sequential(_segment: &MappedSegment) {
    }

    /// Says that a stretch of a segment will be read soon.
    pub fn advise_will_need(_segment: &MappedSegment, _offset: u64, _length: u64) {
    }
}

} // verus!
