//! A model of Unix path components over character sequences.
//!
//! A path string is split on `/`; empty pieces and `.` pieces are dropped,
//! except that a relative path whose first piece is `.` keeps a leading
//! current-directory component. A rooted path starts with the root component,
//! written `/`. Two paths are the same path when their component sequences are
//! equal, and ordering, prefix tests and ancestry are all defined on
//! components.
use vstd::prelude::*;

use crate::text::{chars_eq, chars_of, copy_chars};

verus! {

/// The pieces of `s` between `/` separators (`str::split('/')`).
pub open spec fn split_seg(s: Seq<char>) -> Seq<Seq<char>>
    decreases s.len(),
{
    if s.len() == 0 {
        seq![Seq::empty()]
    } else {
        let p = split_seg(s.drop_last());
        if s.last() == '/' {
            p.push(Seq::empty())
        } else {
            p.update(p.len() - 1, p.last().push(s.last()))
        }
    }
}

/// A piece that names something (not empty and not `.`).
pub open spec fn is_normal_piece(seg: Seq<char>) -> bool {
    seg.len() > 0 && seg != seq!['.']
}

/// The naming pieces of a piece list, in order.
pub open spec fn keep_normal(segs: Seq<Seq<char>>) -> Seq<Seq<char>>
    decreases segs.len(),
{
    if segs.len() == 0 {
        Seq::empty()
    } else if is_normal_piece(segs.last()) {
        keep_normal(segs.drop_last()).push(segs.last())
    } else {
        keep_normal(segs.drop_last())
    }
}

/// The root component.
pub open spec fn root_comp() -> Seq<char> {
    seq!['/']
}

/// The current-directory component.
pub open spec fn cur_comp() -> Seq<char> {
    seq!['.']
}

pub open spec fn is_rooted(s: Seq<char>) -> bool {
    s.len() > 0 && s[0] == '/'
}

/// The components of a path under the `/`-only separator rule.
pub open spec fn unix_comps(s: Seq<char>) -> Seq<Seq<char>> {
    let head: Seq<Seq<char>> = if is_rooted(s) {
        seq![root_comp()]
    } else if split_seg(s)[0] == cur_comp() {
        seq![cur_comp()]
    } else {
        Seq::empty()
    };
    head + keep_normal(split_seg(s))
}

/// The character sequences held by a vector of character vectors.
pub open spec fn views(v: Seq<Vec<char>>) -> Seq<Seq<char>> {
    Seq::new(v.len(), |i: int| v[i]@)
}

pub proof fn lemma_split_seg_nonempty(s: Seq<char>)
    ensures
        split_seg(s).len() >= 1,
    decreases s.len(),
{
    if s.len() > 0 {
        lemma_split_seg_nonempty(s.drop_last());
    }
}

/// No piece between separators holds a separator.
pub proof fn lemma_split_seg_no_slash(s: Seq<char>)
    ensures
        forall|i: int, j: int| 0 <= i < split_seg(s).len() && 0 <= j < split_seg(s)[i].len() ==> split_seg(s)[i][j] != '/',
    decreases s.len(),
{
    if s.len() > 0 {
        lemma_split_seg_no_slash(s.drop_last());
        lemma_split_seg_nonempty(s.drop_last());
        let p = split_seg(s.drop_last());
        if s.last() != '/' {
            assert forall|i: int, j: int| 0 <= i < split_seg(s).len() && 0 <= j < split_seg(s)[i].len() implies split_seg(s)[i][j] != '/' by {
                if i == p.len() - 1 && j == p.last().len() {
                } else if i == p.len() - 1 {
                    assert(split_seg(s)[i][j] == p[i][j]);
                } else {
                    assert(split_seg(s)[i] == p[i]);
                }
            }
        }
    }
}

/// Every naming piece kept is one of the pieces.
pub proof fn lemma_keep_normal_member(segs: Seq<Seq<char>>, k: int)
    requires
        0 <= k < keep_normal(segs).len(),
    ensures
        exists|i: int| 0 <= i < segs.len() && segs[i] == keep_normal(segs)[k] && is_normal_piece(segs[i]),
    decreases segs.len(),
{
    if segs.len() > 0 {
        let prev = keep_normal(segs.drop_last());
        if is_normal_piece(segs.last()) && k == prev.len() {
            assert(segs[segs.len() - 1] == keep_normal(segs)[k]);
        } else {
            lemma_keep_normal_member(segs.drop_last(), k);
            let i = choose|i: int| 0 <= i < segs.drop_last().len() && segs.drop_last()[i] == prev[k] && is_normal_piece(segs.drop_last()[i]);
            assert(segs[i] == keep_normal(segs)[k]);
        }
    }
}

/// A component other than the root and `.` is a non-empty name without a
/// separator.
proof fn lemma_unix_named_component(s: Seq<char>, k: int)
    requires
        0 <= k < unix_comps(s).len(),
        unix_comps(s)[k] != root_comp(),
        unix_comps(s)[k] != cur_comp(),
    ensures
        unix_comps(s)[k].len() > 0,
        forall|j: int| 0 <= j < unix_comps(s)[k].len() ==> unix_comps(s)[k][j] != '/',
{
    let head: Seq<Seq<char>> = if is_rooted(s) {
        seq![root_comp()]
    } else if split_seg(s)[0] == cur_comp() {
        seq![cur_comp()]
    } else {
        Seq::empty()
    };
    lemma_split_seg_nonempty(s);
    assert(k >= head.len());
    let q = k - head.len();
    assert(unix_comps(s)[k] == keep_normal(split_seg(s))[q]);
    lemma_keep_normal_member(split_seg(s), q);
    lemma_split_seg_no_slash(s);
    let i = choose|i: int| 0 <= i < split_seg(s).len() && split_seg(s)[i] == keep_normal(split_seg(s))[q] && is_normal_piece(split_seg(s)[i]);
    assert forall|j: int| 0 <= j < unix_comps(s)[k].len() implies unix_comps(s)[k][j] != '/' by {
        assert(split_seg(s)[i][j] != '/');
    }
}

proof fn lemma_keep_normal_push(segs: Seq<Seq<char>>, x: Seq<char>)
    ensures
        keep_normal(segs.push(x)) == if is_normal_piece(x) {
            keep_normal(segs).push(x)
        } else {
            keep_normal(segs)
        },
{
    assert(segs.push(x).drop_last() =~= segs);
}

/// The components of `s` under the `/`-only separator rule.
fn unix_path_comps(s: &[char]) -> (r: Vec<Vec<char>>)
    ensures
        views(r@) == unix_comps(s@),
{
    let mut parts: Vec<Vec<char>> = Vec::new();
    let mut cur: Vec<char> = Vec::new();
    let ghost mut done: Seq<Seq<char>> = Seq::empty();
    let mut first_done = false;
    let mut first_dot = false;
    let mut i: usize = 0;
    assert(s@.take(0) =~= Seq::<char>::empty());
    while i < s.len()
        invariant
            i <= s.len(),
            split_seg(s@.take(i as int)) == done.push(cur@),
            views(parts@) == keep_normal(done),
            first_done == (done.len() > 0),
            first_done ==> (first_dot == (done[0] == cur_comp())),
        decreases s.len() - i,
    {
        let c = s[i];
        assert(s@.take(i + 1).drop_last() =~= s@.take(i as int));
        assert(s@.take(i + 1).last() == c);
        if c == '/' {
            proof {
                lemma_keep_normal_push(done, cur@);
            }
            if !first_done {
                first_done = true;
                first_dot = cur.len() == 1 && cur[0] == '.';
                assert(first_dot == (cur@ == cur_comp())) by {
                    if cur@.len() == 1 && cur@[0] == '.' {
                        assert(cur@ =~= cur_comp());
                    }
                }
            }
            let ghost old_done = done;
            if cur.len() > 0 && !(cur.len() == 1 && cur[0] == '.') {
                assert(is_normal_piece(cur@));
                parts.push(cur);
            } else {
                assert(!is_normal_piece(cur@)) by {
                    if cur@.len() == 1 && cur@[0] == '.' {
                        assert(cur@ =~= cur_comp());
                    }
                }
            }
            proof {
                done = done.push(cur@);
                assert(views(parts@) =~= keep_normal(done));
            }
            cur = Vec::new();
            assert(split_seg(s@.take(i + 1)) =~= done.push(cur@));
            assert(old_done.len() > 0 ==> done[0] == old_done[0]);
        } else {
            let ghost old_cur = cur@;
            cur.push(c);
            assert(split_seg(s@.take(i + 1)) =~= done.push(cur@));
        }
        i += 1;
    }
    assert(s@.take(s.len() as int) =~= s@);
    // the final piece
    proof {
        lemma_keep_normal_push(done, cur@);
    }
    let last_dot = cur.len() == 1 && cur[0] == '.';
    assert(last_dot == (cur@ == cur_comp())) by {
        if cur@.len() == 1 && cur@[0] == '.' {
            assert(cur@ =~= cur_comp());
        }
    }
    if !first_done {
        first_dot = last_dot;
    }
    if cur.len() > 0 && !last_dot {
        parts.push(cur);
    }
    let ghost segs = done.push(cur@);
    assert(views(parts@) =~= keep_normal(segs));
    assert(segs[0] == (if done.len() > 0 { done[0] } else { cur@ }));
    let mut r: Vec<Vec<char>> = Vec::new();
    if s.len() > 0 && s[0] == '/' {
        r.push(vec!['/']);
        assert(r@[0]@ =~= root_comp());
    } else if first_dot {
        r.push(vec!['.']);
        assert(r@[0]@ =~= cur_comp());
    }
    let ghost head = views(r@);
    let mut k: usize = 0;
    let n = parts.len();
    while k < n
        invariant
            n == parts.len(),
            k <= n,
            views(r@) =~= head + views(parts@).take(k as int),
        decreases n - k,
    {
        let ghost old_r = views(r@);
        r.push(copy_chars(&parts[k]));
        assert(views(r@) =~= old_r.push(parts@[k as int]@));
        assert(views(parts@).take(k + 1) =~= views(parts@).take(k as int).push(parts@[k as int]@));
        k += 1;
    }
    assert(views(parts@).take(n as int) =~= views(parts@));
    r
}

} // verus!

verus! {

/// `a.join(b)` under the `/`-only rule: an absolute `b` replaces `a`;
/// otherwise `b` is appended after a separator when `a` does not already end
/// with one.
pub open spec fn unix_join(a: Seq<char>, b: Seq<char>) -> Seq<char> {
    if is_rooted(b) {
        b
    } else if a.len() > 0 && a.last() != '/' {
        a.push('/') + b
    } else {
        a + b
    }
}

/// `a` followed by `b`.
fn append_chars(a: &[char], b: &[char]) -> (r: Vec<char>)
    ensures
        r@ == a@ + b@,
{
    let mut r = copy_chars(a);
    let ghost start = r@;
    let mut i: usize = 0;
    while i < b.len()
        invariant
            i <= b.len(),
            start == a@,
            r@ =~= start + b@.take(i as int),
        decreases b.len() - i,
    {
        r.push(b[i]);
        i += 1;
    }
    assert(b@.take(b.len() as int) =~= b@);
    r
}

/// `p` is a prefix of `q` (component-wise `Path::starts_with`).
pub open spec fn comps_prefix(p: Seq<Seq<char>>, q: Seq<Seq<char>>) -> bool {
    p.len() <= q.len() && q.take(p.len() as int) == p
}

/// Equality of two component vectors.
pub fn comps_eq(a: &Vec<Vec<char>>, b: &Vec<Vec<char>>) -> (r: bool)
    ensures
        r == (views(a@) == views(b@)),
{
    if a.len() != b.len() {
        assert(views(a@).len() != views(b@).len());
        return false;
    }
    let mut i: usize = 0;
    while i < a.len()
        invariant
            i <= a.len(),
            a.len() == b.len(),
            views(a@).take(i as int) == views(b@).take(i as int),
        decreases a.len() - i,
    {
        if !chars_eq(&a[i], &b[i]) {
            assert(views(a@)[i as int] != views(b@)[i as int]);
            return false;
        }
        assert(views(a@).take(i + 1) =~= views(a@).take(i as int).push(views(a@)[i as int]));
        assert(views(b@).take(i + 1) =~= views(b@).take(i as int).push(views(b@)[i as int]));
        i += 1;
    }
    assert(views(a@) =~= views(a@).take(a.len() as int));
    assert(views(b@) =~= views(b@).take(b.len() as int));
    true
}

/// Whether `p` is a component prefix of `q`.
pub fn comps_prefix_exec(p: &Vec<Vec<char>>, q: &Vec<Vec<char>>) -> (r: bool)
    ensures
        r == comps_prefix(views(p@), views(q@)),
{
    if p.len() > q.len() {
        return false;
    }
    let mut i: usize = 0;
    while i < p.len()
        invariant
            i <= p.len() <= q.len(),
            views(q@).take(i as int) == views(p@).take(i as int),
        decreases p.len() - i,
    {
        if !chars_eq(&p[i], &q[i]) {
            assert(views(q@).take(p.len() as int)[i as int] != views(p@)[i as int]);
            return false;
        }
        assert(views(p@).take(i + 1) =~= views(p@).take(i as int).push(views(p@)[i as int]));
        assert(views(q@).take(i + 1) =~= views(q@).take(i as int).push(views(q@)[i as int]));
        i += 1;
    }
    assert(views(p@) =~= views(p@).take(p.len() as int));
    true
}

/// Ordering rank of a component: root, current directory, parent directory,
/// then ordinary names.
pub open spec fn comp_rank(c: Seq<char>) -> int {
    if is_drive_comp(c) {
        0
    } else if c == root_comp() {
        1
    } else if c == cur_comp() {
        2
    } else if c == seq!['.', '.'] {
        3
    } else {
        4
    }
}

/// Lexicographic order of character sequences (by code point).
pub open spec fn chars_lt(a: Seq<char>, b: Seq<char>) -> bool
    decreases a.len(),
{
    if b.len() == 0 {
        false
    } else if a.len() == 0 {
        true
    } else if (a[0] as u32) < (b[0] as u32) {
        true
    } else if a[0] == b[0] {
        chars_lt(a.skip(1), b.skip(1))
    } else {
        false
    }
}

/// Order of components: by rank, then names by their characters.
pub open spec fn comp_lt(a: Seq<char>, b: Seq<char>) -> bool {
    comp_rank(a) < comp_rank(b) || (comp_rank(a) == comp_rank(b) && chars_lt(a, b))
}

/// Lexicographic order of component sequences (`Ord for Path`).
pub open spec fn comps_lt(a: Seq<Seq<char>>, b: Seq<Seq<char>>) -> bool
    decreases a.len(),
{
    if b.len() == 0 {
        false
    } else if a.len() == 0 {
        true
    } else if comp_lt(a[0], b[0]) {
        true
    } else if a[0] == b[0] {
        comps_lt(a.skip(1), b.skip(1))
    } else {
        false
    }
}

pub open spec fn path_lt(p: Seq<char>, q: Seq<char>, st: PathStyle) -> bool {
    comps_lt(comps(p, st), comps(q, st))
}

pub proof fn lemma_chars_lt_asym(a: Seq<char>, b: Seq<char>)
    ensures
        chars_lt(a, b) ==> !chars_lt(b, a),
        !chars_lt(a, a),
    decreases a.len(),
{
    if a.len() > 0 && b.len() > 0 && a[0] == b[0] {
        lemma_chars_lt_asym(a.skip(1), b.skip(1));
    }
    if a.len() > 0 {
        lemma_chars_lt_asym(a.skip(1), a.skip(1));
    }
}

pub proof fn lemma_comps_lt_asym(a: Seq<Seq<char>>, b: Seq<Seq<char>>)
    ensures
        comps_lt(a, b) ==> !comps_lt(b, a),
        !comps_lt(a, a),
    decreases a.len(),
{
    if a.len() > 0 && b.len() > 0 {
        lemma_chars_lt_asym(a[0], b[0]);
        lemma_chars_lt_asym(b[0], a[0]);
        if a[0] == b[0] {
            lemma_comps_lt_asym(a.skip(1), b.skip(1));
        }
    }
    if a.len() > 0 {
        lemma_chars_lt_asym(a[0], a[0]);
        lemma_comps_lt_asym(a.skip(1), a.skip(1));
    }
}

fn chars_lt_exec(a: &[char], b: &[char]) -> (r: bool)
    ensures
        r == chars_lt(a@, b@),
{
    let mut i: usize = 0;
    assert(a@.skip(0) =~= a@);
    assert(b@.skip(0) =~= b@);
    while i < a.len() && i < b.len()
        invariant
            i <= a.len(),
            i <= b.len(),
            chars_lt(a@, b@) == chars_lt(a@.skip(i as int), b@.skip(i as int)),
        decreases a.len() - i,
    {
        let x = a[i];
        let y = b[i];
        if (x as u32) < (y as u32) {
            return true;
        }
        if x != y {
            return false;
        }
        assert(a@.skip(i as int).skip(1) =~= a@.skip(i + 1));
        assert(b@.skip(i as int).skip(1) =~= b@.skip(i + 1));
        i += 1;
    }
    i < b.len()
}

fn comp_rank_exec(c: &[char]) -> (r: u8)
    ensures
        r == comp_rank(c@),
{
    if c.len() == 3 && c[0] == '/' {
        0
    } else if c.len() == 1 && c[0] == '/' {
        assert(c@ =~= root_comp());
        1
    } else if c.len() == 1 && c[0] == '.' {
        assert(c@ =~= cur_comp());
        2
    } else if c.len() == 2 && c[0] == '.' && c[1] == '.' {
        assert(c@ =~= seq!['.', '.']);
        3
    } else {
        assert(c@ != root_comp() && c@ != cur_comp() && c@ != seq!['.', '.']) by {
            if c@ == root_comp() {
                assert(c@.len() == 1 && c@[0] == '/');
            }
            if c@ == cur_comp() {
                assert(c@.len() == 1 && c@[0] == '.');
            }
            if c@ == seq!['.', '.'] {
                assert(c@.len() == 2 && c@[0] == '.' && c@[1] == '.');
            }
        }
        4
    }
}

fn comp_lt_exec(a: &[char], b: &[char]) -> (r: bool)
    ensures
        r == comp_lt(a@, b@),
{
    let ra = comp_rank_exec(a);
    let rb = comp_rank_exec(b);
    ra < rb || (ra == rb && chars_lt_exec(a, b))
}

/// Order of two component vectors.
pub fn comps_lt_exec(a: &Vec<Vec<char>>, b: &Vec<Vec<char>>) -> (r: bool)
    ensures
        r == comps_lt(views(a@), views(b@)),
{
    let mut i: usize = 0;
    assert(views(a@).skip(0) =~= views(a@));
    assert(views(b@).skip(0) =~= views(b@));
    while i < a.len() && i < b.len()
        invariant
            i <= a.len(),
            i <= b.len(),
            comps_lt(views(a@), views(b@)) == comps_lt(
                views(a@).skip(i as int),
                views(b@).skip(i as int),
            ),
        decreases a.len() - i,
    {
        if comp_lt_exec(&a[i], &b[i]) {
            return true;
        }
        if !chars_eq(&a[i], &b[i]) {
            return false;
        }
        assert(views(a@).skip(i as int).skip(1) =~= views(a@).skip(i + 1));
        assert(views(b@).skip(i as int).skip(1) =~= views(b@).skip(i + 1));
        i += 1;
    }
    i < b.len()
}

/// `Ord for Path`: whether `p` sorts before `q`.
pub fn path_lt_exec(p: &str, q: &str, st: PathStyle) -> (r: bool)
    ensures
        r == path_lt(p@, q@, st),
{
    let pc = path_comps(&chars_of(p), st);
    let qc = path_comps(&chars_of(q), st);
    comps_lt_exec(&pc, &qc)
}

} // verus!

verus! {

/// Which separator rule paths follow: `/` only, or `/` and `\` with drive
/// prefixes such as `C:`.
#[derive(Debug, Clone, Copy, PartialEq, Eq, Structural)]
pub enum PathStyle {
    /// `/` separates components.
    Unix,
    /// `/` and `\` separate components, and a path may start with a drive
    /// prefix (`C:`).
    Windows,
}

/// `std::path::is_separator('\\')`: whether a backslash separates path
/// components, which holds exactly on Windows targets. Nothing is claimed of
/// the result, which depends on the platform the crate was built for.
#[verifier::external_body]
pub(crate) fn backslash_separates() -> bool {
    std::path::is_separator('\\')
}

impl PathStyle {
    /// The separator rule of the platform this crate was built for.
    pub fn host() -> (r: PathStyle) {
        if backslash_separates() {
            PathStyle::Windows
        } else {
            PathStyle::Unix
        }
    }
}

pub open spec fn is_sep(c: char, st: PathStyle) -> bool {
    c == '/' || (st == PathStyle::Windows && c == '\\')
}

pub open spec fn is_ascii_letter(c: char) -> bool {
    ('a' <= c && c <= 'z') || ('A' <= c && c <= 'Z')
}

/// The path starts with a drive prefix (`C:`), under the Windows rule.
pub open spec fn has_drive(s: Seq<char>, st: PathStyle) -> bool {
    st == PathStyle::Windows && s.len() >= 2 && s[1] == ':' && is_ascii_letter(s[0])
}

/// The length of the drive prefix (0 or 2).
pub open spec fn drive_len(s: Seq<char>, st: PathStyle) -> int {
    if has_drive(s, st) {
        2
    } else {
        0
    }
}

pub open spec fn upper_char(c: char) -> char {
    if 'a' <= c && c <= 'z' {
        (((c as u8) - 32) as u8) as char
    } else {
        c
    }
}

/// The drive prefix component for drive letter `c`. Drive letters compare
/// without regard to case; the leading `/` keeps the prefix apart from every
/// named component, which never holds a separator.
pub open spec fn drive_comp(c: char) -> Seq<char> {
    seq!['/', upper_char(c), ':']
}

pub open spec fn is_drive_comp(c: Seq<char>) -> bool {
    c.len() == 3 && c[0] == '/'
}

/// `s` with every `\` written as `/`.
pub open spec fn slashed(s: Seq<char>) -> Seq<char> {
    Seq::new(s.len(), |i: int| if s[i] == '\\' { '/' } else { s[i] })
}

/// The components of a path (`Path::components`) under a separator rule:
/// the drive prefix, if any, then the root, if the rest starts with a
/// separator (or a leading `.`), then the named pieces.
pub open spec fn comps(s: Seq<char>, st: PathStyle) -> Seq<Seq<char>> {
    match st {
        PathStyle::Unix => unix_comps(s),
        PathStyle::Windows => {
            let head: Seq<Seq<char>> = if has_drive(s, st) {
                seq![drive_comp(s[0])]
            } else {
                Seq::empty()
            };
            head + unix_comps(slashed(s.skip(drive_len(s, st))))
        },
    }
}

/// `a.join(b)` (`Path::join`). Under the `/`-only rule an absolute `b`
/// replaces `a`. Under the Windows rule a `b` with a drive prefix replaces
/// `a`, a `b` starting with a separator keeps only `a`'s drive prefix, and
/// otherwise `b` follows a `\` unless `a` is empty, ends with a separator, or
/// is a bare drive.
pub open spec fn join(a: Seq<char>, b: Seq<char>, st: PathStyle) -> Seq<char> {
    match st {
        PathStyle::Unix => unix_join(a, b),
        PathStyle::Windows => if has_drive(b, st) {
            b
        } else if b.len() > 0 && is_sep(b[0], st) {
            a.take(drive_len(a, st)) + b
        } else if a.len() > 0 && !is_sep(a.last(), st) && !(has_drive(a, st) && a.len() == 2) {
            a.push('\\') + b
        } else {
            a + b
        },
    }
}

fn has_drive_exec(s: &[char], st: PathStyle) -> (r: bool)
    ensures
        r == has_drive(s@, st),
{
    st == PathStyle::Windows && s.len() >= 2 && s[1] == ':' && (('a' <= s[0] && s[0] <= 'z') || ('A' <= s[0]
        && s[0] <= 'Z'))
}

fn is_sep_exec(c: char, st: PathStyle) -> (r: bool)
    ensures
        r == is_sep(c, st),
{
    c == '/' || (st == PathStyle::Windows && c == '\\')
}

/// The components of `s` (`Path::components`) under a separator rule, each
/// as a character vector.
pub fn path_comps(s: &[char], st: PathStyle) -> (r: Vec<Vec<char>>)
    ensures
        views(r@) == comps(s@, st),
{
    match st {
        PathStyle::Unix => unix_path_comps(s),
        PathStyle::Windows => {
            let d = has_drive_exec(s, st);
            let start: usize = if d { 2 } else { 0 };
            let mut rest: Vec<char> = Vec::new();
            let mut i: usize = start;
            while i < s.len()
                invariant
                    start <= i <= s@.len(),
                    start == drive_len(s@, st),
                    rest@ == slashed(s@.skip(start as int)).take(i - start),
                decreases s.len() - i,
            {
                let c = s[i];
                rest.push(if c == '\\' { '/' } else { c });
                assert(slashed(s@.skip(start as int)).take(i + 1 - start) =~= slashed(s@.skip(start as int)).take(
                    i - start,
                ).push(if c == '\\' { '/' } else { c }));
                i += 1;
            }
            assert(slashed(s@.skip(start as int)).take(i - start) =~= slashed(s@.skip(start as int)));
            let tail = unix_path_comps(&rest);
            let mut r: Vec<Vec<char>> = Vec::new();
            if d {
                let c0 = s[0];
                let up: char = if 'a' <= c0 && c0 <= 'z' { ((c0 as u8) - 32) as char } else { c0 };
                r.push(vec!['/', up, ':']);
                assert(views(r@)[0] =~= drive_comp(s@[0]));
            }
            let ghost head = views(r@);
            let mut k: usize = 0;
            let n = tail.len();
            while k < n
                invariant
                    n == tail.len(),
                    k <= n,
                    views(r@) =~= head + views(tail@).take(k as int),
                decreases n - k,
            {
                let ghost old_r = views(r@);
                r.push(copy_chars(&tail[k]));
                assert(views(r@) =~= old_r.push(tail@[k as int]@));
                assert(views(tail@).take(k + 1) =~= views(tail@).take(k as int).push(tail@[k as int]@));
                k += 1;
            }
            assert(views(tail@).take(n as int) =~= views(tail@));
            assert(head =~= (if has_drive(s@, st) { seq![drive_comp(s@[0])] } else { Seq::<Seq<char>>::empty() }));
            r
        },
    }
}

/// `a.join(b)` (`Path::join`) under a separator rule.
pub fn join_chars(a: &[char], b: &[char], st: PathStyle) -> (r: Vec<char>)
    ensures
        r@ == join(a@, b@, st),
{
    match st {
        PathStyle::Unix => {
            if b.len() > 0 && b[0] == '/' {
                return copy_chars(b);
            }
            if a.len() > 0 && a[a.len() - 1] != '/' {
                let mut a2 = copy_chars(a);
                a2.push('/');
                append_chars(&a2, b)
            } else {
                append_chars(a, b)
            }
        },
        PathStyle::Windows => {
            if has_drive_exec(b, st) {
                copy_chars(b)
            } else if b.len() > 0 && is_sep_exec(b[0], st) {
                let n: usize = if has_drive_exec(a, st) { 2 } else { 0 };
                let mut p: Vec<char> = Vec::new();
                let mut i: usize = 0;
                while i < n
                    invariant
                        i <= n <= a@.len(),
                        p@ == a@.take(i as int),
                    decreases n - i,
                {
                    p.push(a[i]);
                    assert(a@.take(i + 1) =~= a@.take(i as int).push(a@[i as int]));
                    i += 1;
                }
                append_chars(&p, b)
            } else if a.len() > 0 && !is_sep_exec(a[a.len() - 1], st) && !(has_drive_exec(a, st) && a.len()
                == 2) {
                let mut a2 = copy_chars(a);
                a2.push('\\');
                append_chars(&a2, b)
            } else {
                append_chars(a, b)
            }
        },
    }
}

/// A component that is neither a drive prefix, the root nor `.` is a
/// non-empty name holding no separator.
pub proof fn lemma_named_component(s: Seq<char>, st: PathStyle, k: int)
    requires
        0 <= k < comps(s, st).len(),
        !is_drive_comp(comps(s, st)[k]),
        comps(s, st)[k] != root_comp(),
        comps(s, st)[k] != cur_comp(),
    ensures
        comps(s, st)[k].len() > 0,
        forall|j: int| 0 <= j < comps(s, st)[k].len() ==> !is_sep(#[trigger] comps(s, st)[k][j], st),
{
    match st {
        PathStyle::Unix => {
            lemma_unix_named_component(s, k);
        },
        PathStyle::Windows => {
            let head: Seq<Seq<char>> = if has_drive(s, st) {
                seq![drive_comp(s[0])]
            } else {
                Seq::empty()
            };
            let rest = slashed(s.skip(drive_len(s, st)));
            assert(k >= head.len());
            let q = k - head.len();
            assert(comps(s, st)[k] == unix_comps(rest)[q]);
            lemma_unix_named_component(rest, q);
            lemma_unix_comps_unslashed(rest, q);
        },
    }
}

/// No piece between separators holds a `\` that the string does not hold.
proof fn lemma_split_seg_no_backslash(s: Seq<char>)
    requires
        forall|i: int| 0 <= i < s.len() ==> s[i] != '\\',
    ensures
        forall|i: int, j: int| 0 <= i < split_seg(s).len() && 0 <= j < split_seg(s)[i].len() ==> split_seg(s)[i][j] != '\\',
    decreases s.len(),
{
    if s.len() > 0 {
        lemma_split_seg_no_backslash(s.drop_last());
        lemma_split_seg_nonempty(s.drop_last());
        let p = split_seg(s.drop_last());
        assert(s.last() != '\\');
        if s.last() != '/' {
            assert forall|i: int, j: int| 0 <= i < split_seg(s).len() && 0 <= j < split_seg(s)[i].len() implies split_seg(s)[i][j] != '\\' by {
                if i == p.len() - 1 && j == p.last().len() {
                } else if i == p.len() - 1 {
                    assert(split_seg(s)[i][j] == p[i][j]);
                } else {
                    assert(split_seg(s)[i] == p[i]);
                }
            }
        }
    }
}

/// Components of a slashed string hold no `\`.
proof fn lemma_unix_comps_unslashed(rest: Seq<char>, q: int)
    requires
        0 <= q < unix_comps(rest).len(),
        forall|i: int| 0 <= i < rest.len() ==> rest[i] != '\\',
    ensures
        forall|j: int| 0 <= j < unix_comps(rest)[q].len() ==> unix_comps(rest)[q][j] != '\\',
{
    let head: Seq<Seq<char>> = if is_rooted(rest) {
        seq![root_comp()]
    } else if split_seg(rest)[0] == cur_comp() {
        seq![cur_comp()]
    } else {
        Seq::empty()
    };
    lemma_split_seg_nonempty(rest);
    lemma_split_seg_no_backslash(rest);
    if q < head.len() {
        assert forall|j: int| 0 <= j < unix_comps(rest)[q].len() implies unix_comps(rest)[q][j] != '\\' by {
            assert(unix_comps(rest)[q] == head[q]);
        }
    } else {
        let k = q - head.len();
        assert(unix_comps(rest)[q] == keep_normal(split_seg(rest))[k]);
        lemma_keep_normal_member(split_seg(rest), k);
        let i = choose|i: int| 0 <= i < split_seg(rest).len() && split_seg(rest)[i] == keep_normal(split_seg(rest))[k] && is_normal_piece(split_seg(rest)[i]);
        assert forall|j: int| 0 <= j < unix_comps(rest)[q].len() implies unix_comps(rest)[q][j] != '\\' by {
            assert(split_seg(rest)[i][j] != '\\');
        }
    }
}

proof fn lemma_char_code_injective(x: char, y: char)
    ensures
        (x as u32) == (y as u32) ==> x == y,
{
}

proof fn lemma_chars_lt_total(a: Seq<char>, b: Seq<char>)
    ensures
        a != b ==> chars_lt(a, b) || chars_lt(b, a),
    decreases a.len(),
{
    if a.len() > 0 && b.len() > 0 {
        lemma_char_code_injective(a[0], b[0]);
    }
    if a.len() > 0 && b.len() > 0 && a[0] == b[0] {
        lemma_chars_lt_total(a.skip(1), b.skip(1));
        if a.skip(1) == b.skip(1) {
            assert(a =~= seq![a[0]] + a.skip(1));
            assert(b =~= seq![b[0]] + b.skip(1));
        }
    } else if a.len() == 0 && b.len() == 0 {
        assert(a =~= b);
    }
}

proof fn lemma_chars_lt_ntrans(a: Seq<char>, b: Seq<char>, c: Seq<char>)
    ensures
        chars_lt(a, c) ==> chars_lt(a, b) || chars_lt(b, c),
    decreases a.len(),
{
    if a.len() > 0 && b.len() > 0 && c.len() > 0 {
        lemma_char_code_injective(a[0], b[0]);
        lemma_char_code_injective(b[0], c[0]);
        lemma_char_code_injective(a[0], c[0]);
    }
    if a.len() > 0 && b.len() > 0 && c.len() > 0 && a[0] == b[0] && b[0] == c[0] {
        lemma_chars_lt_ntrans(a.skip(1), b.skip(1), c.skip(1));
    }
}

proof fn lemma_comp_lt_total(a: Seq<char>, b: Seq<char>)
    ensures
        a != b ==> comp_lt(a, b) || comp_lt(b, a),
{
    lemma_chars_lt_total(a, b);
}

proof fn lemma_comp_lt_ntrans(a: Seq<char>, b: Seq<char>, c: Seq<char>)
    ensures
        comp_lt(a, c) ==> comp_lt(a, b) || comp_lt(b, c),
{
    lemma_chars_lt_ntrans(a, b, c);
}

proof fn lemma_comps_lt_ntrans(a: Seq<Seq<char>>, b: Seq<Seq<char>>, c: Seq<Seq<char>>)
    ensures
        comps_lt(a, c) ==> comps_lt(a, b) || comps_lt(b, c),
    decreases a.len(),
{
    if a.len() > 0 && b.len() > 0 && c.len() > 0 {
        lemma_comp_lt_ntrans(a[0], b[0], c[0]);
        lemma_comp_lt_total(a[0], b[0]);
        lemma_chars_lt_asym(a[0], a[0]);
        if a[0] == b[0] && b[0] == c[0] {
            lemma_comps_lt_ntrans(a.skip(1), b.skip(1), c.skip(1));
        }
    }
}

/// Path order is a strict weak order: asymmetric, and "not before" is
/// transitive.
pub proof fn lemma_path_lt_order(p: Seq<char>, q: Seq<char>, r: Seq<char>, st: PathStyle)
    ensures
        path_lt(p, q, st) ==> !path_lt(q, p, st),
        !path_lt(p, q, st) && !path_lt(q, r, st) ==> !path_lt(p, r, st),
{
    lemma_comps_lt_asym(comps(p, st), comps(q, st));
    lemma_comps_lt_ntrans(comps(p, st), comps(q, st), comps(r, st));
}

/// A path that does not start with a separator (and, under the Windows rule,
/// with a drive prefix) is appended by `join`, not put in its place.
pub open spec fn relative_piece(s: Seq<char>, st: PathStyle) -> bool {
    !has_drive(s, st) && !(s.len() > 0 && is_sep(s[0], st))
}

/// A single file name: not empty, not `.`, without separators or a drive
/// prefix.
pub open spec fn plain_name(n: Seq<char>, st: PathStyle) -> bool {
    &&& n.len() > 0
    &&& n != cur_comp()
    &&& forall|i: int| 0 <= i < n.len() ==> !is_sep(#[trigger] n[i], st)
    &&& !has_drive(n, st)
}

proof fn lemma_split_seg_concat(x: Seq<char>, y: Seq<char>)
    ensures
        split_seg(x.push('/') + y) == split_seg(x) + split_seg(y),
    decreases y.len(),
{
    lemma_split_seg_nonempty(x);
    let s = x.push('/') + y;
    if y.len() == 0 {
        assert(s =~= x.push('/'));
        assert(s.drop_last() =~= x);
        assert(split_seg(x) + split_seg(y) =~= split_seg(x).push(Seq::empty()));
    } else {
        assert(s.drop_last() =~= x.push('/') + y.drop_last());
        assert(s.last() == y.last());
        lemma_split_seg_concat(x, y.drop_last());
        lemma_split_seg_nonempty(y.drop_last());
        assert(split_seg(s) =~= split_seg(x) + split_seg(y));
    }
}

proof fn lemma_keep_normal_single(x: Seq<char>)
    ensures
        keep_normal(seq![x]) == if is_normal_piece(x) {
            seq![x]
        } else {
            Seq::<Seq<char>>::empty()
        },
{
    let s = seq![x];
    let e = Seq::<Seq<char>>::empty();
    assert(s.drop_last() =~= e);
    assert(s.last() == x);
    assert(keep_normal(e) == e);
    assert(e.push(x) =~= s);
}

proof fn lemma_keep_normal_concat(a: Seq<Seq<char>>, b: Seq<Seq<char>>)
    ensures
        keep_normal(a + b) == keep_normal(a) + keep_normal(b),
    decreases b.len(),
{
    if b.len() == 0 {
        assert(a + b =~= a);
        assert(keep_normal(a) + keep_normal(b) =~= keep_normal(a));
    } else {
        assert((a + b).drop_last() =~= a + b.drop_last());
        assert((a + b).last() == b.last());
        lemma_keep_normal_concat(a, b.drop_last());
        assert(keep_normal(a + b) =~= keep_normal(a) + keep_normal(b));
    }
}

/// What follows a `/` adds its naming pieces to the components.
proof fn lemma_unix_comps_after_sep(x: Seq<char>, y: Seq<char>)
    ensures
        unix_comps(x.push('/') + y) == unix_comps(x.push('/')) + keep_normal(split_seg(y)),
{
    let e = Seq::<char>::empty();
    lemma_split_seg_concat(x, y);
    lemma_split_seg_concat(x, e);
    assert(x.push('/') + e =~= x.push('/'));
    lemma_split_seg_nonempty(x);
    lemma_keep_normal_concat(split_seg(x), split_seg(y));
    lemma_keep_normal_concat(split_seg(x), split_seg(e));
    assert(split_seg(e) == seq![e]);
    lemma_keep_normal_single(e);
    assert((x.push('/') + y)[0] == x.push('/')[0]);
    assert((split_seg(x) + split_seg(y))[0] == split_seg(x)[0]);
    assert((split_seg(x) + split_seg(e))[0] == split_seg(x)[0]);
    assert(unix_comps(x.push('/') + y) =~= unix_comps(x.push('/')) + keep_normal(split_seg(y)));
}

/// A trailing `/` adds no component to a non-empty path.
proof fn lemma_unix_comps_trailing_sep(x: Seq<char>)
    requires
        x.len() > 0,
    ensures
        unix_comps(x.push('/')) == unix_comps(x),
{
    let e = Seq::<char>::empty();
    assert(x.push('/').drop_last() =~= x);
    lemma_split_seg_nonempty(x);
    let sx = split_seg(x);
    assert(split_seg(x.push('/')) == sx.push(e));
    assert(sx.push(e).drop_last() =~= sx);
    assert(keep_normal(sx.push(e)) == keep_normal(sx));
    assert(sx.push(e)[0] == sx[0]);
    assert(x.push('/')[0] == x[0]);
    assert(unix_comps(x.push('/')) =~= unix_comps(x));
}

proof fn lemma_unix_join_comps(a: Seq<char>, b: Seq<char>)
    requires
        !is_rooted(b),
        a.len() > 0,
    ensures
        unix_comps(unix_join(a, b)) == unix_comps(a) + keep_normal(split_seg(b)),
{
    if a.last() != '/' {
        lemma_unix_comps_after_sep(a, b);
        lemma_unix_comps_trailing_sep(a);
    } else {
        let a0 = a.drop_last();
        assert(a0.push('/') =~= a);
        lemma_unix_comps_after_sep(a0, b);
    }
}

proof fn lemma_slashed_concat(x: Seq<char>, y: Seq<char>)
    ensures
        slashed(x + y) == slashed(x) + slashed(y),
{
    assert(slashed(x + y) =~= slashed(x) + slashed(y));
}

/// Under the Windows rule, joining a relative piece to a path that is neither
/// empty nor a bare drive adds the piece's naming parts to the components.
proof fn lemma_windows_join_comps(a: Seq<char>, b: Seq<char>)
    requires
        relative_piece(b, PathStyle::Windows),
        a.len() > 0,
        !(has_drive(a, PathStyle::Windows) && a.len() == 2),
    ensures
        comps(join(a, b, PathStyle::Windows), PathStyle::Windows) == comps(a, PathStyle::Windows) + keep_normal(
            split_seg(slashed(b)),
        ),
{
    let st = PathStyle::Windows;
    let d = drive_len(a, st);
    let s = join(a, b, st);
    if !is_sep(a.last(), st) {
        assert(s == a.push('\\') + b);
        assert(has_drive(s, st) == has_drive(a, st)) by {
            if a.len() >= 2 {
                assert(s[0] == a[0] && s[1] == a[1]);
            } else {
                assert(s[1] == '\\');
            }
        }
        let ad = a.skip(d);
        assert(s.skip(d) =~= ad.push('\\') + b);
        lemma_slashed_concat(ad.push('\\'), b);
        let x = slashed(ad);
        assert(slashed(ad.push('\\')) =~= x.push('/'));
        lemma_unix_comps_after_sep(x, slashed(b));
        lemma_unix_comps_trailing_sep(x);
        assert(s[0] == a[0]);
    } else {
        assert(s == a + b);
        assert(has_drive(s, st) == has_drive(a, st)) by {
            if a.len() >= 2 {
                assert(s[0] == a[0] && s[1] == a[1]);
            }
        }
        let ad = a.skip(d);
        let a0 = ad.drop_last();
        assert(ad =~= a0.push(a.last()));
        assert(s.skip(d) =~= a0.push(a.last()) + b);
        lemma_slashed_concat(a0.push(a.last()), b);
        let x = slashed(a0);
        assert(slashed(a0.push(a.last())) =~= x.push('/'));
        assert(slashed(ad) =~= x.push('/'));
        lemma_unix_comps_after_sep(x, slashed(b));
        assert(s[0] == a[0]);
    }
}

/// A piece without separators is one segment.
proof fn lemma_split_seg_single(n: Seq<char>)
    requires
        forall|i: int| 0 <= i < n.len() ==> n[i] != '/',
    ensures
        split_seg(n) == seq![n],
    decreases n.len(),
{
    if n.len() > 0 {
        lemma_split_seg_single(n.drop_last());
        assert(n.drop_last().push(n.last()) =~= n);
        assert(split_seg(n) =~= seq![n]);
    } else {
        assert(n =~= Seq::<char>::empty());
    }
}

/// The components of a plain name are the name itself.
proof fn lemma_plain_name_pieces(n: Seq<char>, st: PathStyle)
    requires
        plain_name(n, st),
    ensures
        st == PathStyle::Windows ==> slashed(n) == n,
        split_seg(n) == seq![n],
        keep_normal(seq![n]) == seq![n],
        unix_comps(n) == seq![n],
{
    assert forall|i: int| 0 <= i < n.len() implies n[i] != '/' by {
        assert(!is_sep(n[i], st));
    }
    if st == PathStyle::Windows {
        assert forall|i: int| 0 <= i < n.len() implies n[i] != '\\' by {
            assert(!is_sep(n[i], st));
        }
        assert(slashed(n) =~= n);
    }
    lemma_split_seg_single(n);
    lemma_keep_normal_single(n);
    assert(!is_rooted(n)) by {
        assert(!is_sep(n[0], st));
    }
    assert(unix_comps(n) =~= seq![n]);
}

/// Joining a relative piece keeps every component of the path it is joined
/// to: `a.join(b).starts_with(a)`.
pub proof fn lemma_join_prefix(a: Seq<char>, b: Seq<char>, st: PathStyle)
    requires
        relative_piece(b, st),
    ensures
        comps_prefix(comps(a, st), comps(join(a, b, st), st)),
{
    let e = Seq::<char>::empty();
    let w = PathStyle::Windows;
    lemma_split_seg_nonempty(e);
    lemma_keep_normal_single(e);
    assert(split_seg(e) == seq![e]);
    assert(unix_comps(e) =~= Seq::<Seq<char>>::empty());
    if a.len() == 0 {
        assert(slashed(e) =~= e);
        assert(e.skip(0) =~= e);
        assert(comps(a, st) =~= Seq::<Seq<char>>::empty());
        assert(comps(join(a, b, st), st).take(0) =~= comps(a, st));
    } else if st == PathStyle::Unix {
        lemma_unix_join_comps(a, b);
        let c = comps(join(a, b, st), st);
        assert(c.take(comps(a, st).len() as int) =~= comps(a, st));
    } else if has_drive(a, w) && a.len() == 2 {
        let s = join(a, b, w);
        assert(s == a + b);
        assert(s[0] == a[0] && s[1] == a[1]);
        assert(a.skip(2) =~= e);
        assert(slashed(e) =~= e);
        assert(comps(a, w) =~= seq![drive_comp(a[0])]);
        let c = comps(s, w);
        assert(c[0] == drive_comp(a[0]));
        assert(c.take(1) =~= seq![drive_comp(a[0])]);
    } else {
        lemma_windows_join_comps(a, b);
        let c = comps(join(a, b, w), w);
        assert(c.take(comps(a, w).len() as int) =~= comps(a, w));
    }
}

/// Joining a plain file name adds exactly that name as the last component:
/// the parent of `a.join(n)` is `a`.
pub proof fn lemma_join_name(a: Seq<char>, n: Seq<char>, st: PathStyle)
    requires
        plain_name(n, st),
    ensures
        comps(join(a, n, st), st) == comps(a, st).push(n),
{
    let e = Seq::<char>::empty();
    let w = PathStyle::Windows;
    lemma_plain_name_pieces(n, st);
    lemma_keep_normal_single(n);
    lemma_split_seg_nonempty(e);
    lemma_keep_normal_single(e);
    assert(split_seg(e) == seq![e]);
    assert(unix_comps(e) =~= Seq::<Seq<char>>::empty());
    assert(!is_sep(n[0], st));
    if a.len() == 0 {
        assert(slashed(e) =~= e);
        assert(e.skip(0) =~= e);
        assert(comps(a, st) =~= Seq::<Seq<char>>::empty());
        assert(join(a, n, st) =~= n);
        if st == w {
            assert(n.skip(0) =~= n);
        }
        assert(comps(n, st) =~= comps(a, st).push(n));
    } else if st == PathStyle::Unix {
        lemma_unix_join_comps(a, n);
        assert(comps(join(a, n, st), st) =~= comps(a, st).push(n));
    } else if has_drive(a, w) && a.len() == 2 {
        let s = join(a, n, w);
        assert(s == a + n);
        assert(s[0] == a[0] && s[1] == a[1]);
        assert(a.skip(2) =~= e);
        assert(slashed(e) =~= e);
        assert(comps(a, w) =~= seq![drive_comp(a[0])]);
        assert(s.skip(2) =~= n);
        assert(comps(s, w) =~= comps(a, w).push(n));
    } else {
        lemma_windows_join_comps(a, n);
        assert(comps(join(a, n, w), w) =~= comps(a, w).push(n));
    }
}

} // verus!
