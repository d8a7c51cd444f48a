//! An in-memory model of the scanned directory tree.
//!
//! The walker operates on this value: the surrounding program lists the
//! real directories and reads the real files, and hands the result over
//! as plain data. A file whose contents could not be read carries `None`
//! and is silently skipped by every journal; an entry that is neither a
//! plain file nor a directory is `Other` and is ignored by the walk.

use vstd::prelude::*;

verus! {

/// A plain file: its basename and its contents, `None` when unreadable.
pub struct FileNode {
    pub name: String,
    pub content: Option<String>,
}

/// A directory: its basename and its immediate entries, in listing order.
pub struct DirNode {
    pub name: String,
    pub entries: Vec<FsEntry>,
}

/// One immediate entry of a directory.
pub enum FsEntry {
    Dir(DirNode),
    File(FileNode),
    /// Symlinks, devices, and entries whose type could not be determined.
    Other,
}

/// The contents of a file as the specifications see them.
pub open spec fn content_view(c: Option<String>) -> Option<Seq<char>> {
    match c {
        Some(s) => Some(s@),
        None => None,
    }
}

/// Machine limit: every file's character count leaves room for one more,
/// so that line numbers and line counts fit in the machine's word.
pub open spec fn wf_file(f: FileNode) -> bool {
    f.content is Some ==> f.content->0@.len() < usize::MAX
}

pub open spec fn wf_entry(e: FsEntry) -> bool
    decreases e,
{
    match e {
        FsEntry::Dir(d) => wf_dir(d),
        FsEntry::File(f) => wf_file(f),
        FsEntry::Other => true,
    }
}

pub open spec fn wf_dir(d: DirNode) -> bool
    decreases d,
{
    forall|i: int| 0 <= i < d.entries@.len() ==> wf_entry(#[trigger] d.entries@[i])
}

} // verus!
