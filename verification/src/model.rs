//! The data model for scanned filesystem entries.
use vstd::prelude::*;

use crate::paths::{comps, cur_comp, is_drive_comp, path_comps, root_comp, PathStyle};
use crate::text::{chars_of, lower, lower_vec, string_of, sub_vec};

verus! {

/// A single entry discovered by a scanner.
#[derive(Debug, Clone)]
pub struct FileEntry {
    /// Absolute path to the file or directory.
    pub path: String,
    /// Logical size in bytes (0 for directories).
    pub size: u64,
    /// Whether the entry is a directory.
    pub is_dir: bool,
    /// Last-modified time as a Unix timestamp in seconds, if known.
    pub modified: Option<i64>,
}

/// The final component of a path when it names something
/// (`Path::file_name`): none for an empty path, a drive prefix, a root, `.`
/// or `..`.
pub open spec fn file_name_spec(path: Seq<char>, st: PathStyle) -> Option<Seq<char>> {
    let c = comps(path, st);
    if c.len() == 0 {
        None
    } else {
        let last = c.last();
        if is_drive_comp(last) || last == root_comp() || last == cur_comp() || last == seq!['.', '.'] {
            None
        } else {
            Some(last)
        }
    }
}

/// The index of the last `c` in `s`, or -1.
pub open spec fn last_index_of(s: Seq<char>, c: char) -> int
    decreases s.len(),
{
    if s.len() == 0 {
        -1
    } else if s.last() == c {
        s.len() - 1
    } else {
        last_index_of(s.drop_last(), c)
    }
}

/// The extension of a file name (`Path::extension`): the text after the last
/// `.`, unless there is no `.` or the only `.` leads the name.
pub open spec fn extension_of_name(name: Seq<char>) -> Option<Seq<char>> {
    let k = last_index_of(name, '.');
    if k <= 0 {
        None
    } else {
        Some(name.skip(k + 1))
    }
}

pub open spec fn extension_spec(path: Seq<char>, st: PathStyle) -> Option<Seq<char>> {
    match file_name_spec(path, st) {
        Some(name) => extension_of_name(name),
        None => None,
    }
}

pub proof fn lemma_last_index_bounds(s: Seq<char>, c: char)
    ensures
        -1 <= last_index_of(s, c) < s.len(),
        last_index_of(s, c) >= 0 ==> s[last_index_of(s, c)] == c,
    decreases s.len(),
{
    if s.len() > 0 && s.last() != c {
        lemma_last_index_bounds(s.drop_last(), c);
    }
}

fn last_index_exec(s: &[char], c: char) -> (r: Option<usize>)
    ensures
        match r {
            Some(k) => last_index_of(s@, c) == k,
            None => last_index_of(s@, c) == -1,
        },
{
    let mut k: usize = s.len();
    assert(s@.take(k as int) =~= s@);
    while k > 0
        invariant
            k <= s.len(),
            last_index_of(s@.take(k as int), c) == last_index_of(s@, c),
        decreases k,
    {
        assert(s@.take(k as int).drop_last() =~= s@.take(k - 1));
        if s[k - 1] == c {
            return Some(k - 1);
        }
        k -= 1;
    }
    None
}

/// `Path::file_name` of a path, as characters.
pub fn file_name_chars(path: &[char], st: PathStyle) -> (r: Option<Vec<char>>)
    ensures
        match r {
            Some(v) => file_name_spec(path@, st) == Some(v@),
            None => file_name_spec(path@, st) is None,
        },
{
    let mut c = path_comps(path, st);
    let n = c.len();
    if n == 0 {
        return None;
    }
    let last = c.pop().unwrap();
    assert(last@ == comps(path@, st).last());
    if last.len() == 3 && last[0] == '/' {
        return None;
    }
    if (last.len() == 1 && (last[0] == '/' || last[0] == '.')) || (last.len() == 2 && last[0] == '.'
        && last[1] == '.') {
        assert(last@ == root_comp() || last@ == cur_comp() || last@ == seq!['.', '.']) by {
            if last@.len() == 1 && last@[0] == '/' {
                assert(last@ =~= root_comp());
            } else if last@.len() == 1 {
                assert(last@ =~= cur_comp());
            } else {
                assert(last@ =~= seq!['.', '.']);
            }
        }
        None
    } else {
        assert(last@ != root_comp() && last@ != cur_comp() && last@ != seq!['.', '.']) by {
            if last@ == root_comp() {
                assert(last@.len() == 1 && last@[0] == '/');
            }
            if last@ == cur_comp() {
                assert(last@.len() == 1 && last@[0] == '.');
            }
            if last@ == seq!['.', '.'] {
                assert(last@.len() == 2 && last@[0] == '.' && last@[1] == '.');
            }
        }
        Some(last)
    }
}

impl FileEntry {
    /// Convenience constructor for a file entry.
    pub fn file(path: &str, size: u64) -> (r: Self)
        ensures
            r.path@ == path@,
            r.size == size,
            !r.is_dir,
            r.modified is None,
    {
        FileEntry { path: String::from_str(path), size, is_dir: false, modified: None }
    }

    /// Convenience constructor for a directory entry.
    pub fn dir(path: &str) -> (r: Self)
        ensures
            r.path@ == path@,
            r.size == 0,
            r.is_dir,
            r.modified is None,
    {
        FileEntry { path: String::from_str(path), size: 0, is_dir: true, modified: None }
    }

    /// Set the last-modified timestamp (builder style).
    pub fn with_modified(self, modified: Option<i64>) -> (r: Self)
        ensures
            r.path == self.path,
            r.size == self.size,
            r.is_dir == self.is_dir,
            r.modified == modified,
    {
        let mut e = self;
        e.modified = modified;
        e
    }

    /// The file extension in lowercase, if any (without the leading dot).
    pub fn extension_lower(&self, style: PathStyle) -> (r: Option<String>)
        ensures
            match r {
                Some(x) => extension_spec(self.path@, style) matches Some(e) && x@ == lower(e),
                None => extension_spec(self.path@, style) is None,
            },
    {
        let p = chars_of(self.path.as_str());
        match file_name_chars(&p, style) {
            None => None,
            Some(name) => {
                match last_index_exec(&name, '.') {
                    None => None,
                    Some(k) => {
                        if k == 0 {
                            None
                        } else {
                            proof {
                                lemma_last_index_bounds(name@, '.');
                            }
                            let ext = sub_vec(&name, k + 1, name.len());
                            assert(ext@ =~= name@.skip(k + 1));
                            let low = lower_vec(&ext);
                            Some(string_of(&low))
                        }
                    }
                }
            }
        }
    }

    /// The final path component as a string (empty when there is none).
    pub fn file_name_lossy(&self, style: PathStyle) -> (r: String)
        ensures
            match file_name_spec(self.path@, style) {
                Some(name) => r@ == name,
                None => r@ == Seq::<char>::empty(),
            },
    {
        let p = chars_of(self.path.as_str());
        match file_name_chars(&p, style) {
            Some(name) => string_of(&name),
            None => String::new(),
        }
    }
}

} // verus!
