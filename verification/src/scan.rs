//! Filesystem scanning: the scanning strategy interface, and the decisions
//! of the portable walker.
//!
//! The walker itself (reading directories from disk) is the caller's; this
//! module decides what a walk reports: a missing root is an error, every
//! directory and readable file becomes one entry, and anything else (such as
//! a symbolic link that is not followed) is left out.
use vstd::prelude::*;

use crate::error::Error;
use crate::model::FileEntry;

verus! {

/// A filesystem-scanning strategy.
///
/// The fast strategy reads the NTFS Master File Table directly; the portable
/// walker works everywhere.
pub trait Scanner {
    /// Scan `root`, appending one entry to `sink` per discovered file or
    /// directory. Only a failure to access `root` itself is an error.
    fn scan(&self, root: &str, sink: &mut Vec<FileEntry>) -> Result<(), Error>;

    /// A short human-readable name for this strategy.
    fn strategy_name(&self) -> &'static str;
}

/// Portable directory walker settings.
#[derive(Debug, Clone, Copy, Default)]
pub struct WalkScanner {
    /// Whether to follow symbolic links (off by default, to avoid cycles and
    /// double counting).
    follow_links: bool,
    /// Whether to skip hidden files and directories (off by default).
    skip_hidden: bool,
}

/// What the walker found at a path.
#[derive(Debug, Clone, Copy, PartialEq, Eq, Structural)]
pub enum WalkedKind {
    /// A directory.
    Dir,
    /// A regular file.
    File,
    /// Anything else (an unfollowed symbolic link, a device, ...).
    Other,
}

/// One raw result of a directory walk.
#[derive(Debug, Clone)]
pub struct WalkedEntry {
    /// The path found.
    pub path: String,
    /// What is there.
    pub kind: WalkedKind,
    /// The file's length, or `None` when its metadata could not be read.
    pub len: Option<u64>,
    /// Seconds since the Unix epoch of the last modification, when known.
    pub modified_secs: Option<u64>,
}

/// The entry a walk result contributes, if any: every directory, and every
/// file whose metadata could be read, with its length and modification time.
pub open spec fn entry_of_spec(w: WalkedEntry, e: FileEntry) -> bool {
    &&& e.path@ == w.path@
    &&& match w.kind {
        WalkedKind::Dir => e.is_dir && e.size == 0 && e.modified is None,
        WalkedKind::File => w.len matches Some(l) && !e.is_dir && e.size == l && e.modified == match w.modified_secs {
            Some(s) => Some(s as i64),
            None => None,
        },
        WalkedKind::Other => false,
    }
}

pub open spec fn contributes(w: WalkedEntry) -> bool {
    w.kind == WalkedKind::Dir || (w.kind == WalkedKind::File && w.len is Some)
}

/// The entry for one walk result.
pub fn entry_of(w: &WalkedEntry) -> (r: Option<FileEntry>)
    ensures
        r is Some <==> contributes(*w),
        r matches Some(e) ==> entry_of_spec(*w, e),
{
    match w.kind {
        WalkedKind::Dir => Some(FileEntry::dir(w.path.as_str())),
        WalkedKind::File => match w.len {
            Some(l) => {
                let modified = match w.modified_secs {
                    Some(s) => Some(s as i64),
                    None => None,
                };
                Some(FileEntry::file(w.path.as_str(), l).with_modified(modified))
            },
            None => None,
        },
        WalkedKind::Other => None,
    }
}

/// The entries a walk contributes, in walk order.
pub open spec fn walk_entries_ok(walked: Seq<WalkedEntry>, added: Seq<FileEntry>) -> bool
    decreases walked.len(),
{
    if walked.len() == 0 {
        added.len() == 0
    } else if contributes(walked.last()) {
        added.len() > 0 && entry_of_spec(walked.last(), added.last()) && walk_entries_ok(
            walked.drop_last(),
            added.drop_last(),
        )
    } else {
        walk_entries_ok(walked.drop_last(), added)
    }
}

impl WalkScanner {
    pub closed spec fn follows(&self) -> bool {
        self.follow_links
    }

    pub closed spec fn skips(&self) -> bool {
        self.skip_hidden
    }

    /// Create a walker with default settings: links not followed, hidden
    /// entries included.
    pub fn new() -> (r: Self)
        ensures
            !r.follows(),
            !r.skips(),
    {
        WalkScanner { follow_links: false, skip_hidden: false }
    }

    /// Set whether symbolic links are followed.
    pub fn follow_links(self, yes: bool) -> (r: Self)
        ensures
            r.follows() == yes,
            r.skips() == self.skips(),
    {
        WalkScanner { follow_links: yes, skip_hidden: self.skip_hidden }
    }

    /// Set whether hidden entries are skipped.
    pub fn skip_hidden(self, yes: bool) -> (r: Self)
        ensures
            r.skips() == yes,
            r.follows() == self.follows(),
    {
        WalkScanner { follow_links: self.follow_links, skip_hidden: yes }
    }

    /// Whether symbolic links are followed.
    pub fn follows_links(&self) -> (r: bool)
        ensures
            r == self.follows(),
    {
        self.follow_links
    }

    /// Whether hidden entries are skipped.
    pub fn skips_hidden(&self) -> (r: bool)
        ensures
            r == self.skips(),
    {
        self.skip_hidden
    }

    /// The name of this strategy.
    pub fn strategy_name(&self) -> (r: &'static str)
        ensures
            r@ == "portable-walk"@,
    {
        "portable-walk"
    }

    /// Report a walk of `root`: a missing root (`root_exists` is what the
    /// file system reported) is `TargetNotFound`; otherwise each walk result
    /// that is a directory or a readable file is appended to `sink`.
    pub fn scan_walked(&self, root: &str, root_exists: bool, walked: &[WalkedEntry], sink: &mut Vec<FileEntry>) -> (r: Result<(), Error>)
        ensures
            !root_exists ==> (r matches Err(Error::TargetNotFound(p)) && p@ == root@) && final(sink)@ == old(sink)@,
            root_exists ==> r is Ok && final(sink)@.len() >= old(sink)@.len() && final(sink)@.take(old(sink)@.len() as int)
                == old(sink)@ && walk_entries_ok(walked@, final(sink)@.skip(old(sink)@.len() as int)),
    {
        if !root_exists {
            return Err(Error::TargetNotFound(String::from_str(root)));
        }
        let ghost start = sink@;
        let mut i: usize = 0;
        assert(sink@.skip(start.len() as int) =~= Seq::<FileEntry>::empty());
        assert(walk_entries_ok(walked@.take(0), Seq::<FileEntry>::empty()));
        while i < walked.len()
            invariant
                i <= walked@.len(),
                sink@.len() >= start.len(),
                sink@.take(start.len() as int) == start,
                walk_entries_ok(walked@.take(i as int), sink@.skip(start.len() as int)),
            decreases walked.len() - i,
        {
            let ghost before = sink@;
            assert(walked@.take(i + 1).drop_last() =~= walked@.take(i as int));
            assert(walked@.take(i + 1).last() == walked@[i as int]);
            match entry_of(&walked[i]) {
                Some(e) => {
                    sink.push(e);
                    assert(sink@.skip(start.len() as int).drop_last() =~= before.skip(start.len() as int));
                    assert(sink@.take(start.len() as int) =~= before.take(start.len() as int));
                },
                None => {},
            }
            i += 1;
        }
        assert(walked@.take(i as int) =~= walked@);
        Ok(())
    }
}

} // verus!
