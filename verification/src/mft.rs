//! Direct NTFS Master File Table scanning: the scanner type, and the
//! traversal that turns directory listings into entries.
//!
//! Reading MFT records and directory indexes from a volume is the caller's
//! (it goes through the `ntfs` crate over any `Read + Seek` source). The walk
//! decides which directory to read next and what each listing contributes: an
//! explicit stack rather than recursion, each record visited at most once,
//! nesting bounded, DOS 8.3 aliases and reserved system records skipped.
use vstd::prelude::*;

use crate::error::Error;
use crate::model::FileEntry;
use crate::paths::{backslash_separates, join, join_chars, PathStyle};
use crate::scan::Scanner;
use crate::text::{chars_of, string_of};
use std::collections::HashSet;

verus! {

broadcast use vstd::std_specs::hash::group_hash_axioms;

/// The NTFS root directory always lives at MFT record 5.
pub const ROOT_RECORD: u64 = 5;

/// MFT records below this number are reserved system metafiles.
pub const FIRST_USER_RECORD: u64 = 24;

/// Guards against pathological or malicious directory nesting.
pub const MAX_DEPTH: usize = 512;

/// High-performance scanner backed by direct NTFS MFT reads (Windows only).
#[derive(Debug, Default)]
pub struct MftScanner {
    _private: (),
}

impl MftScanner {
    /// Create a new MFT scanner.
    pub fn new() -> (r: Self) {
        MftScanner { _private: () }
    }

    /// Whether direct MFT scanning is available in this build: only on
    /// Windows. Callers fall back to the portable walker otherwise.
    pub fn is_available() -> bool {
        backslash_separates()
    }
}

impl Scanner for MftScanner {
    /// Direct MFT scanning of a live volume is not implemented: always
    /// `Unsupported`, and nothing reaches the sink.
    fn scan(&self, root: &str, sink: &mut Vec<FileEntry>) -> (r: Result<(), Error>)
        ensures
            r matches Err(Error::Unsupported(m)) && m@
                == "direct MFT scanning is not yet implemented (arrives in Phase 1)"@,
            final(sink)@ == old(sink)@,
    {
        Err(Error::Unsupported(String::from_str("direct MFT scanning is not yet implemented (arrives in Phase 1)")))
    }

    fn strategy_name(&self) -> (r: &'static str)
        ensures
            r@ == "ntfs-mft"@,
    {
        "ntfs-mft"
    }
}

/// One entry of a directory index, as read from the volume.
#[derive(Debug, Clone)]
pub struct IndexEntry {
    /// The MFT record the entry refers to.
    pub record: u64,
    /// The entry's file name.
    pub name: String,
    /// Whether the name is a DOS 8.3 alias of another name.
    pub dos_alias: bool,
    /// Whether the entry is a directory.
    pub is_dir: bool,
    /// The data size recorded in the index.
    pub size: u64,
}

/// A directory still to visit: its record, path and nesting depth.
pub struct Pending {
    pub record: u64,
    pub path: String,
    pub depth: usize,
}

pub open spec fn pending_view(p: Pending) -> (u64, Seq<char>, usize) {
    (p.record, p.path@, p.depth)
}

pub open spec fn pending_views(s: Seq<Pending>) -> Seq<(u64, Seq<char>, usize)> {
    Seq::new(s.len(), |i: int| pending_view(s[i]))
}

/// A directory on the stack is read when its nesting is within bounds and
/// its record has not been read yet.
pub open spec fn eligible(p: (u64, Seq<char>, usize), visited: Set<u64>) -> bool {
    p.2 <= MAX_DEPTH && !visited.contains(p.0)
}

/// The position of the topmost eligible directory on the stack, or -1.
pub open spec fn top_eligible(stack: Seq<(u64, Seq<char>, usize)>, visited: Set<u64>) -> int
    decreases stack.len(),
{
    if stack.len() == 0 {
        -1
    } else if eligible(stack.last(), visited) {
        stack.len() - 1
    } else {
        top_eligible(stack.drop_last(), visited)
    }
}

/// An index entry that names a user-visible file: not a DOS alias, and not a
/// reserved system record.
pub open spec fn listed(c: IndexEntry) -> bool {
    !c.dos_alias && c.record >= FIRST_USER_RECORD
}

/// What a directory listing contributes, in listing order: the entries, and
/// the directories to visit later.
pub open spec fn listing_effect(dir: Seq<char>, depth: usize, children: Seq<IndexEntry>, st: PathStyle) -> (Seq<EntryView>, Seq<(u64, Seq<char>, usize)>)
    decreases children.len(),
{
    if children.len() == 0 {
        (Seq::empty(), Seq::empty())
    } else {
        let prev = listing_effect(dir, depth, children.drop_last(), st);
        let c = children.last();
        let p = join(dir, c.name@, st);
        if !listed(c) {
            prev
        } else if c.is_dir {
            (prev.0.push((p, true, 0, None)), prev.1.push((c.record, p, (depth + 1) as usize)))
        } else {
            (prev.0.push((p, false, c.size, None)), prev.1)
        }
    }
}

/// An entry as plain values: path, directory flag, size, modification time.
pub type EntryView = (Seq<char>, bool, u64, Option<i64>);

pub open spec fn entry_view(e: FileEntry) -> EntryView {
    (e.path@, e.is_dir, e.size, e.modified)
}

pub open spec fn entry_views(s: Seq<FileEntry>) -> Seq<EntryView> {
    Seq::new(s.len(), |i: int| entry_view(s[i]))
}

/// The state of an MFT traversal: directories still to visit, and the records
/// already read.
pub struct MftWalk {
    stack: Vec<Pending>,
    visited: HashSet<u64>,
    style: PathStyle,
}

impl MftWalk {
    /// The directories still to visit, the next one last.
    pub closed spec fn pending(&self) -> Seq<(u64, Seq<char>, usize)> {
        pending_views(self.stack@)
    }

    /// The records read so far.
    pub closed spec fn visited(&self) -> Set<u64> {
        self.visited@
    }

    /// The separator rule of the paths the walk builds.
    pub closed spec fn style(&self) -> PathStyle {
        self.style
    }

    /// A traversal that starts at the root directory, `\`, building paths
    /// under the separator rule `style`.
    pub fn new(style: PathStyle) -> (r: Self)
        ensures
            r.pending() == seq![(ROOT_RECORD, "\\"@, 0usize)],
            r.visited() == Set::<u64>::empty(),
            r.style() == style,
    {
        let mut stack: Vec<Pending> = Vec::new();
        stack.push(Pending { record: ROOT_RECORD, path: String::from_str("\\"), depth: 0 });
        let r = MftWalk { stack, visited: HashSet::new(), style };
        assert(pending_views(r.stack@) =~= seq![(ROOT_RECORD, "\\"@, 0usize)]);
        r
    }

    /// The next directory to read: the topmost pending one within the depth
    /// bound whose record has not been read. Those above it are dropped, and
    /// its record is marked as read. `None` once nothing is left to read.
    pub fn next_dir(&mut self) -> (r: Option<(u64, String, usize)>)
        ensures
            ({
                let k = top_eligible(old(self).pending(), old(self).visited());
                match r {
                    Some((rec, path, depth)) => {
                        &&& k >= 0
                        &&& (rec, path@, depth) == old(self).pending()[k]
                        &&& depth <= MAX_DEPTH
                        &&& !old(self).visited().contains(rec)
                        &&& final(self).pending() == old(self).pending().take(k)
                        &&& final(self).visited() == old(self).visited().insert(rec)
                    },
                    None => {
                        &&& k == -1
                        &&& final(self).pending() == Seq::<(u64, Seq<char>, usize)>::empty()
                        &&& final(self).visited() == old(self).visited()
                    },
                }
            }),
            final(self).style() == old(self).style(),
    {
        let ghost st0 = self.pending();
        let ghost vis = self.visited();
        loop
            invariant
                self.visited() == vis,
                self.style == old(self).style(),
                st0 == old(self).pending(),
                vis == old(self).visited(),
                self.pending() == st0.take(self.stack@.len() as int),
                self.stack@.len() <= st0.len(),
                top_eligible(st0, vis) == top_eligible(self.pending(), vis),
            decreases self.stack@.len(),
        {
            let ghost cur = self.pending();
            match self.stack.pop() {
                None => {
                    assert(cur =~= Seq::<(u64, Seq<char>, usize)>::empty());
                    assert(top_eligible(cur, vis) == -1);
                    assert(self.pending() =~= Seq::<(u64, Seq<char>, usize)>::empty());
                    return None;
                },
                Some(p) => {
                    assert(pending_views(self.stack@) =~= cur.drop_last());
                    assert(cur.last() == pending_view(p));
                    assert(st0.take(self.stack@.len() as int) =~= cur.drop_last());
                    if p.depth <= MAX_DEPTH && !self.visited.contains(&p.record) {
                        proof {
                            assert(eligible(cur.last(), vis));
                            assert(top_eligible(cur, vis) == cur.len() - 1);
                            assert(st0[cur.len() - 1] == cur.last());
                            assert(st0.take(cur.len() - 1) =~= cur.drop_last());
                        }
                        self.visited.insert(p.record);
                        return Some((p.record, p.path, p.depth));
                    }
                    assert(top_eligible(cur, vis) == top_eligible(cur.drop_last(), vis));
                }
            }
        }
    }

    /// Record a directory listing: every listed child becomes an entry in
    /// `sink` (a directory, or a file with its indexed size) at `dir/name`, and
    /// each child directory is queued one level deeper.
    pub fn visit(&mut self, dir: &str, depth: usize, children: &[IndexEntry], sink: &mut Vec<FileEntry>)
        requires
            depth <= MAX_DEPTH,
        ensures
            ({
                let eff = listing_effect(dir@, depth, children@, old(self).style());
                &&& final(sink)@.len() == old(sink)@.len() + eff.0.len()
                &&& final(sink)@.take(old(sink)@.len() as int) == old(sink)@
                &&& entry_views(final(sink)@) == entry_views(old(sink)@) + eff.0
                &&& final(self).pending() == old(self).pending() + eff.1
                &&& final(self).visited() == old(self).visited()
                &&& final(self).style() == old(self).style()
            }),
    {
        let dc = chars_of(dir);
        let ghost st0 = self.pending();
        let ghost sk0 = entry_views(sink@);
        let ghost raw0 = sink@;
        let st = self.style;
        let mut i: usize = 0;
        assert(children@.take(0) =~= Seq::<IndexEntry>::empty());
        assert(entry_views(sink@) =~= sk0 + Seq::<EntryView>::empty());
        assert(sink@.take(raw0.len() as int) =~= raw0);
        assert(self.pending() =~= st0 + Seq::<(u64, Seq<char>, usize)>::empty());
        while i < children.len()
            invariant
                i <= children@.len(),
                depth <= MAX_DEPTH,
                dc@ == dir@,
                self.visited() == old(self).visited(),
                st == self.style,
                st == old(self).style(),
                raw0 == old(sink)@,
                sk0 == entry_views(raw0),
                sink@.len() >= raw0.len(),
                sink@.take(raw0.len() as int) == raw0,
                ({
                    let eff = listing_effect(dir@, depth, children@.take(i as int), st);
                    &&& sink@.len() == raw0.len() + eff.0.len()
                    &&& entry_views(sink@) == sk0 + eff.0
                    &&& self.pending() == st0 + eff.1
                }),
            decreases children.len() - i,
        {
            let c = &children[i];
            assert(children@.take(i + 1).drop_last() =~= children@.take(i as int));
            assert(children@.take(i + 1).last() == children@[i as int]);
            if !c.dos_alias && c.record >= FIRST_USER_RECORD {
                let p = string_of(&join_chars(&dc, &chars_of(c.name.as_str()), st));
                let ghost es = entry_views(sink@);
                let ghost before = sink@;
                if c.is_dir {
                    sink.push(FileEntry::dir(p.as_str()));
                    assert(entry_views(sink@) =~= es.push((p@, true, 0u64, None)));
                    let ghost ps = self.pending();
                    self.stack.push(Pending { record: c.record, path: p, depth: depth + 1 });
                    assert(self.pending() =~= ps.push((c.record, join(dir@, c.name@, st), (depth + 1) as usize)));
                } else {
                    sink.push(FileEntry::file(p.as_str(), c.size));
                    assert(entry_views(sink@) =~= es.push((p@, false, c.size, None)));
                }
                assert(sink@.take(raw0.len() as int) =~= before.take(raw0.len() as int));
            }
            i += 1;
        }
        assert(children@.take(i as int) =~= children@);
    }
}

} // verus!
