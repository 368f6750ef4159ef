//! Disk-usage aggregation: a stream of entries becomes a report of the
//! largest space consumers directly under a scanned root, and a directory
//! size index answers "how many bytes lie beneath this directory?".
use vstd::prelude::*;

use crate::model::FileEntry;
use crate::paths::{comps, comps_prefix, comps_prefix_exec, join, join_chars, path_comps, path_lt, path_lt_exec, views, lemma_comps_lt_asym, comps_eq, PathStyle};
use crate::text::{chars_of, string_of};

verus! {

broadcast use vstd::seq_lib::group_to_multiset_ensures;

/// One immediate child of the scanned root with the bytes attributed to it.
#[derive(Debug, Clone, PartialEq, Eq)]
pub struct Consumer {
    /// Path of the immediate child.
    pub path: String,
    /// Total bytes attributed to this child.
    pub size: u64,
    /// Whether the child is a directory.
    pub is_dir: bool,
}

/// A summary of what fills a scanned location.
#[derive(Debug, Clone, PartialEq, Eq)]
pub struct UsageReport {
    /// The scanned root.
    pub root: String,
    /// Total bytes across all files under the root.
    pub total_bytes: u64,
    /// Number of files counted.
    pub file_count: u64,
    /// Largest immediate children, sorted by size descending.
    pub top: Vec<Consumer>,
}

/// The plain value of a consumer: path, size, directory flag.
pub type ConsumerView = (Seq<char>, u64, bool);

pub open spec fn cview(c: Consumer) -> ConsumerView {
    (c.path@, c.size, c.is_dir)
}

pub open spec fn cviews(s: Seq<Consumer>) -> Seq<ConsumerView> {
    Seq::new(s.len(), |i: int| cview(s[i]))
}

/// The state of a collector.
pub ghost struct UsageState {
    pub root: Seq<char>,
    pub style: PathStyle,
    pub children: Seq<ConsumerView>,
    pub total_bytes: u64,
    pub file_count: u64,
}

/// The immediate child of `root` that contains `path`, and whether that
/// child is a directory (the path lies more than one level below the root).
pub open spec fn child_of(root: Seq<char>, path: Seq<char>, st: PathStyle) -> Option<(Seq<char>, bool)> {
    let rc = comps(root, st);
    let pc = comps(path, st);
    if comps_prefix(rc, pc) && pc.len() > rc.len() {
        Some((join(root, pc[rc.len() as int], st), pc.len() > rc.len() + 1))
    } else {
        None
    }
}

/// Index of the first child with the given path, or -1.
pub open spec fn find_child(ch: Seq<ConsumerView>, key: Seq<char>) -> int
    decreases ch.len(),
{
    if ch.len() == 0 {
        -1
    } else {
        let k = find_child(ch.drop_last(), key);
        if k >= 0 {
            k
        } else if ch.last().0 == key {
            ch.len() - 1
        } else {
            -1
        }
    }
}

pub open spec fn sat_add(a: u64, b: u64) -> u64 {
    if a + b > u64::MAX {
        u64::MAX
    } else {
        (a + b) as u64
    }
}

/// Attribute `size` bytes to the child `key`, creating it (with the given
/// directory flag) when it is not yet known.
pub open spec fn attribute(ch: Seq<ConsumerView>, key: Seq<char>, size: u64, is_dir: bool) -> Seq<
    ConsumerView,
> {
    let k = find_child(ch, key);
    if k >= 0 {
        ch.update(k, (ch[k].0, sat_add(ch[k].1, size), ch[k].2))
    } else {
        ch.push((key, size, is_dir))
    }
}

/// The effect of recording one entry: directories are ignored; a file adds
/// its bytes to the total (saturating), to the file count, and to the
/// immediate child of the root that holds it.
pub open spec fn record_step(st: UsageState, e: FileEntry) -> UsageState {
    if e.is_dir {
        st
    } else {
        UsageState {
            root: st.root,
            style: st.style,
            total_bytes: sat_add(st.total_bytes, e.size),
            file_count: (st.file_count + 1) as u64,
            children: match child_of(st.root, e.path@, st.style) {
                Some((child, d)) => attribute(st.children, child, e.size, d),
                None => st.children,
            },
        }
    }
}

/// `a` ranks before `b` in a report: larger first, then by path.
pub open spec fn cons_lt(a: ConsumerView, b: ConsumerView, st: PathStyle) -> bool {
    a.1 > b.1 || (a.1 == b.1 && path_lt(a.0, b.0, st))
}

pub open spec fn sorted_by_size(s: Seq<ConsumerView>, st: PathStyle) -> bool {
    forall|i: int| 0 <= i < s.len() - 1 ==> !cons_lt(#[trigger] s[i + 1], s[i], st)
}

pub open spec fn min(a: int, b: int) -> int {
    if a < b {
        a
    } else {
        b
    }
}

/// Accumulates entries into a [`UsageReport`], attributing every file's bytes
/// to the immediate child of the root that contains it.
#[derive(Debug)]
pub struct UsageCollector {
    root: String,
    style: PathStyle,
    children: Vec<Consumer>,
    total_bytes: u64,
    file_count: u64,
}

impl View for UsageCollector {
    type V = UsageState;

    closed spec fn view(&self) -> UsageState {
        UsageState {
            root: self.root@,
            style: self.style,
            children: cviews(self.children@),
            total_bytes: self.total_bytes,
            file_count: self.file_count,
        }
    }
}

proof fn lemma_find_child_bounds(ch: Seq<ConsumerView>, key: Seq<char>)
    ensures
        -1 <= find_child(ch, key) < ch.len(),
        find_child(ch, key) >= 0 ==> ch[find_child(ch, key)].0 == key,
    decreases ch.len(),
{
    if ch.len() > 0 {
        lemma_find_child_bounds(ch.drop_last(), key);
    }
}

proof fn lemma_find_child_prefix(ch: Seq<ConsumerView>, k: int, key: Seq<char>)
    requires
        0 <= k <= ch.len(),
        find_child(ch.take(k), key) >= 0,
    ensures
        find_child(ch, key) == find_child(ch.take(k), key),
    decreases ch.len() - k,
{
    if k < ch.len() {
        assert(ch.take(k + 1).drop_last() =~= ch.take(k));
        lemma_find_child_prefix(ch, k + 1, key);
    } else {
        assert(ch.take(k) =~= ch);
    }
}

impl UsageCollector {
    /// Create a collector for a given scan root, whose paths follow `style`.
    pub fn new(root: &str, style: PathStyle) -> (r: Self)
        ensures
            r@.root == root@,
            r@.style == style,
            r@.children.len() == 0,
            r@.total_bytes == 0,
            r@.file_count == 0,
    {
        UsageCollector { root: String::from_str(root), style, children: Vec::new(), total_bytes: 0, file_count: 0 }
    }

    /// The immediate child of the root that a path belongs to, with whether
    /// that child is a directory.
    fn immediate_child(&self, path: &str) -> (r: Option<(String, bool)>)
        ensures
            match r {
                Some((c, d)) => child_of(self@.root, path@, self@.style) == Some((c@, d)),
                None => child_of(self@.root, path@, self@.style) is None,
            },
    {
        let root = chars_of(self.root.as_str());
        let rc = path_comps(&root, self.style);
        let pc = path_comps(&chars_of(path), self.style);
        if pc.len() > rc.len() && comps_prefix_exec(&rc, &pc) {
            let child = join_chars(&root, &pc[rc.len()], self.style);
            Some((string_of(&child), pc.len() > rc.len() + 1))
        } else {
            None
        }
    }

    /// Record a scanned entry. Directories are ignored (their size is
    /// derived from the files they contain); only files contribute bytes.
    #[verifier::loop_isolation(false)]
    pub fn record(&mut self, entry: &FileEntry)
        requires
            entry.is_dir || old(self)@.file_count < u64::MAX,
        ensures
            final(self)@ == record_step(old(self)@, *entry),
    {
        if entry.is_dir {
            return;
        }
        self.total_bytes = self.total_bytes.saturating_add(entry.size);
        self.file_count = self.file_count + 1;
        if let Some((child, is_dir)) = self.immediate_child(entry.path.as_str()) {
            let ghost ch = cviews(self.children@);
            let ghost mid = self@;
            let mut k: usize = 0;
            assert(ch.take(0) =~= Seq::<ConsumerView>::empty());
            while k < self.children.len()
                invariant
                    k <= self.children.len(),
                    ch == cviews(self.children@),
                    self@ == mid,
                    find_child(ch.take(k as int), child@) == -1,
                decreases self.children.len() - k,
            {
                assert(ch.take(k + 1).drop_last() =~= ch.take(k as int));
                if self.children[k].path == child {
                    assert(find_child(ch.take(k + 1), child@) == k);
                    proof {
                        lemma_find_child_prefix(ch, k + 1, child@);
                    }
                    let c = Consumer {
                        path: self.children[k].path.clone(),
                        size: self.children[k].size.saturating_add(entry.size),
                        is_dir: self.children[k].is_dir,
                    };
                    self.children.set(k, c);
                    assert(cviews(self.children@) =~= attribute(ch, child@, entry.size, is_dir));
                    return;
                }
                k += 1;
            }
            assert(ch.take(k as int) =~= ch);
            self.children.push(Consumer { path: child, size: entry.size, is_dir });
            assert(cviews(self.children@) =~= attribute(ch, child@, entry.size, is_dir));
        }
    }

    /// The number of files recorded so far.
    pub fn file_count(&self) -> (r: u64)
        ensures
            r == self@.file_count,
    {
        self.file_count
    }

    /// Finalize into a report keeping the `top` largest children, sorted by
    /// size descending and then by path.
    pub fn into_report(self, top: usize) -> (r: UsageReport)
        ensures
            r.root@ == self@.root,
            r.total_bytes == self@.total_bytes,
            r.file_count == self@.file_count,
            exists|full: Seq<ConsumerView>|
                {
                    &&& sorted_by_size(full, self@.style)
                    &&& full.to_multiset() == self@.children.to_multiset()
                    &&& cviews(r.top@) == full.take(min(top as int, full.len() as int))
                },
    {
        let ghost ch = self@.children;
        let mut sorted = sort_consumers(self.children, self.style);
        let ghost full = cviews(sorted@);
        if top < sorted.len() {
            sorted.truncate(top);
        }
        assert(cviews(sorted@) =~= full.take(min(top as int, full.len() as int)));
        UsageReport {
            root: self.root,
            total_bytes: self.total_bytes,
            file_count: self.file_count,
            top: sorted,
        }
    }
}

/// The state after recording `es`, one after the other, starting from `s`.
pub open spec fn recorded(s: UsageState, es: Seq<FileEntry>) -> UsageState
    decreases es.len(),
{
    if es.len() == 0 {
        s
    } else {
        record_step(recorded(s, es.drop_last()), es.last())
    }
}

/// A fresh collector's state.
pub open spec fn fresh(root: Seq<char>, st: PathStyle) -> UsageState {
    UsageState { root, style: st, children: Seq::empty(), total_bytes: 0, file_count: 0 }
}

/// Number of files (not directories) in `es`.
pub open spec fn files_in(es: Seq<FileEntry>) -> nat
    decreases es.len(),
{
    if es.len() == 0 {
        0
    } else {
        files_in(es.drop_last()) + if es.last().is_dir { 0nat } else { 1nat }
    }
}

/// Bytes of the files in `es`.
pub open spec fn file_bytes(es: Seq<FileEntry>) -> nat
    decreases es.len(),
{
    if es.len() == 0 {
        0
    } else {
        file_bytes(es.drop_last()) + if es.last().is_dir { 0nat } else { es.last().size as nat }
    }
}

/// The file `e` lies under the immediate child `key` of `root`.
pub open spec fn in_child(root: Seq<char>, e: FileEntry, key: Seq<char>, st: PathStyle) -> bool {
    !e.is_dir && (child_of(root, e.path@, st) matches Some(c) && c.0 == key)
}

/// Bytes of the files in `es` under the immediate child `key` of `root`.
pub open spec fn child_bytes(es: Seq<FileEntry>, root: Seq<char>, key: Seq<char>, st: PathStyle) -> nat
    decreases es.len(),
{
    if es.len() == 0 {
        0
    } else {
        child_bytes(es.drop_last(), root, key, st) + if in_child(root, es.last(), key, st) {
            es.last().size as nat
        } else {
            0nat
        }
    }
}

proof fn lemma_find_child_none(ch: Seq<ConsumerView>, key: Seq<char>, i: int)
    requires
        find_child(ch, key) == -1,
        0 <= i < ch.len(),
    ensures
        ch[i].0 != key,
    decreases ch.len(),
{
    if i < ch.len() - 1 {
        assert(ch.drop_last()[i] == ch[i]);
        lemma_find_child_none(ch.drop_last(), key, i);
    }
}

/// What a collector holds after recording a scan: the file count is the
/// number of files, the total is their bytes (saturating at `u64::MAX`), the
/// consumers are the distinct immediate children of the root that hold files,
/// each with the bytes of the files beneath it (saturating), and every file
/// beneath the root is attributed to one of them. Directories change nothing.
pub proof fn lemma_recorded_usage(root: Seq<char>, st: PathStyle, es: Seq<FileEntry>)
    requires
        files_in(es) <= u64::MAX,
    ensures
        ({
            let s = recorded(fresh(root, st), es);
            &&& s.root == root
            &&& s.style == st
            &&& s.file_count == files_in(es)
            &&& s.total_bytes == min(file_bytes(es) as int, u64::MAX as int)
            &&& forall|i: int|
                0 <= i < s.children.len() ==> (#[trigger] s.children[i]).1 == min(
                    child_bytes(es, root, s.children[i].0, st) as int,
                    u64::MAX as int,
                )
            &&& forall|i: int, j: int|
                0 <= i < j < s.children.len() ==> (#[trigger] s.children[i]).0 != (#[trigger] s.children[j]).0
            &&& forall|i: int|
                0 <= i < s.children.len() ==> exists|q: int|
                    0 <= q < es.len() && !es[q].is_dir && child_of(root, (#[trigger] es[q]).path@, st) == Some(
                        ((#[trigger] s.children[i]).0, s.children[i].2),
                    )
            &&& forall|q: int|
                0 <= q < es.len() && !(#[trigger] es[q]).is_dir && child_of(root, es[q].path@, st) is Some
                    ==> exists|i: int|
                    0 <= i < s.children.len() && (#[trigger] s.children[i]).0 == child_of(
                        root,
                        es[q].path@,
                        st,
                    ).unwrap().0
        }),
    decreases es.len(),
{
    if es.len() > 0 {
        let d = es.drop_last();
        let e = es.last();
        assert(files_in(d) <= files_in(es));
        lemma_recorded_usage(root, st, d);
        let p = recorded(fresh(root, st), d);
        let s = recorded(fresh(root, st), es);
        assert(s == record_step(p, e));
        assert forall|q: int| 0 <= q < d.len() implies #[trigger] es[q] == d[q] by {}
        if e.is_dir || child_of(root, e.path@, st) is None {
            assert(s.children == p.children);
            assert forall|i: int| 0 <= i < s.children.len() implies (#[trigger] s.children[i]).1 == min(
                child_bytes(es, root, s.children[i].0, st) as int,
                u64::MAX as int,
            ) by {
                assert(!in_child(root, e, s.children[i].0, st));
            }
            assert forall|i: int| 0 <= i < s.children.len() implies exists|q: int|
                0 <= q < es.len() && !es[q].is_dir && child_of(root, (#[trigger] es[q]).path@, st) == Some(
                    ((#[trigger] s.children[i]).0, s.children[i].2),
                ) by {
                let q = choose|q: int|
                    0 <= q < d.len() && !d[q].is_dir && child_of(root, (#[trigger] d[q]).path@, st) == Some(
                        (p.children[i].0, p.children[i].2),
                    );
                assert(es[q] == d[q]);
            }
            assert forall|q: int|
                0 <= q < es.len() && !(#[trigger] es[q]).is_dir && child_of(root, es[q].path@, st) is Some implies exists|i: int|
                0 <= i < s.children.len() && (#[trigger] s.children[i]).0 == child_of(root, es[q].path@, st).unwrap().0 by {
                if q < d.len() {
                    assert(d[q] == es[q]);
                }
            }
        } else {
            let (key, dflag) = child_of(root, e.path@, st).unwrap();
            let ch = p.children;
            let k = find_child(ch, key);
            lemma_find_child_bounds(ch, key);
            assert(s.children == attribute(ch, key, e.size, dflag));
            if k < 0 {
                assert(child_bytes(d, root, key, st) == 0) by {
                    if child_bytes(d, root, key, st) > 0 {
                        let q = lemma_child_bytes_witness(d, root, key, st);
                        let i = choose|i: int|
                            0 <= i < ch.len() && (#[trigger] ch[i]).0 == child_of(root, d[q].path@, st).unwrap().0;
                        lemma_find_child_none(ch, key, i);
                    }
                }
            }
            assert forall|i: int| 0 <= i < s.children.len() implies (#[trigger] s.children[i]).1 == min(
                child_bytes(es, root, s.children[i].0, st) as int,
                u64::MAX as int,
            ) by {
                if i < ch.len() && i != k {
                    assert(s.children[i] == ch[i]);
                    if k >= 0 {
                        assert(ch[i].0 != ch[k].0);
                    } else {
                        lemma_find_child_none(ch, key, i);
                    }
                    assert(!in_child(root, e, ch[i].0, st));
                }
            }
            assert forall|i: int, j: int|
                0 <= i < j < s.children.len() implies (#[trigger] s.children[i]).0 != (#[trigger] s.children[j]).0 by {
                if j == ch.len() {
                    lemma_find_child_none(ch, key, i);
                }
            }
            assert forall|i: int| 0 <= i < s.children.len() implies exists|q: int|
                0 <= q < es.len() && !es[q].is_dir && child_of(root, (#[trigger] es[q]).path@, st) == Some(
                    ((#[trigger] s.children[i]).0, s.children[i].2),
                ) by {
                if i < ch.len() {
                    let q = choose|q: int|
                        0 <= q < d.len() && !d[q].is_dir && child_of(root, (#[trigger] d[q]).path@, st) == Some(
                            (p.children[i].0, p.children[i].2),
                        );
                    assert(es[q] == d[q]);
                } else {
                    assert(es[es.len() - 1] == e);
                }
            }
            assert forall|q: int|
                0 <= q < es.len() && !(#[trigger] es[q]).is_dir && child_of(root, es[q].path@, st) is Some implies exists|i: int|
                0 <= i < s.children.len() && (#[trigger] s.children[i]).0 == child_of(root, es[q].path@, st).unwrap().0 by {
                if q < d.len() {
                    assert(d[q] == es[q]);
                    let i = choose|i: int|
                        0 <= i < ch.len() && (#[trigger] ch[i]).0 == child_of(root, d[q].path@, st).unwrap().0;
                    assert(s.children[i].0 == ch[i].0);
                } else if k >= 0 {
                    assert(s.children[k].0 == key);
                } else {
                    assert(s.children[ch.len() as int].0 == key);
                }
            }
        }
    }
}

/// A child with bytes holds a file.
proof fn lemma_child_bytes_witness(es: Seq<FileEntry>, root: Seq<char>, key: Seq<char>, st: PathStyle) -> (q: int)
    requires
        child_bytes(es, root, key, st) > 0,
    ensures
        0 <= q < es.len(),
        in_child(root, es[q], key, st),
    decreases es.len(),
{
    if in_child(root, es.last(), key, st) {
        es.len() - 1
    } else {
        let q = lemma_child_bytes_witness(es.drop_last(), root, key, st);
        assert(es.drop_last()[q] == es[q]);
        q
    }
}

/// A directory never holds more bytes than all the files of the scan, so a
/// scan whose file bytes fit in `u64` meets the bound that
/// [`DirSizeIndex::build`] asks for.
pub proof fn lemma_dir_total_within_files(es: Seq<FileEntry>, d: Seq<Seq<char>>, st: PathStyle)
    ensures
        dir_total(es, d, st) <= file_bytes(es),
    decreases es.len(),
{
    if es.len() > 0 {
        lemma_dir_total_within_files(es.drop_last(), d, st);
    }
}

/// How many consumers a report lists when `requested` are asked for: a
/// request for none still shows the single largest.
pub fn shown_top(requested: usize) -> (r: usize)
    ensures
        r == if requested == 0 {
            1
        } else {
            requested
        },
{
    if requested == 0 {
        1
    } else {
        requested
    }
}

/// Whether consumer `a` ranks before consumer `b`.
fn cons_lt_exec(a: &Consumer, b: &Consumer, st: PathStyle) -> (r: bool)
    ensures
        r == cons_lt(cview(*a), cview(*b), st),
{
    a.size > b.size || (a.size == b.size && path_lt_exec(a.path.as_str(), b.path.as_str(), st))
}

proof fn lemma_cons_lt_asym(a: ConsumerView, b: ConsumerView, st: PathStyle)
    ensures
        cons_lt(a, b, st) ==> !cons_lt(b, a, st),
{
    lemma_comps_lt_asym(comps(a.0, st), comps(b.0, st));
}

/// Insertion sort of consumers: larger first, then by path.
fn sort_consumers(v: Vec<Consumer>, st: PathStyle) -> (r: Vec<Consumer>)
    ensures
        sorted_by_size(cviews(r@), st),
        cviews(r@).to_multiset() == cviews(v@).to_multiset(),
{
    let mut rest = v;
    let mut r: Vec<Consumer> = Vec::new();
    let ghost orig = cviews(rest@);
    assert(cviews(r@).to_multiset().add(cviews(rest@).to_multiset()) =~= orig.to_multiset());
    while rest.len() > 0
        invariant
            sorted_by_size(cviews(r@), st),
            cviews(r@).to_multiset().add(cviews(rest@).to_multiset()) == orig.to_multiset(),
        decreases rest.len(),
    {
        let ghost before = cviews(rest@);
        let x = rest.pop().unwrap();
        assert(cviews(rest@) =~= before.drop_last());
        assert(before =~= cviews(rest@).push(cview(x)));
        let mut j: usize = r.len();
        while j > 0 && cons_lt_exec(&x, &r[j - 1], st)
            invariant
                j <= r.len(),
                j < r.len() ==> cons_lt(cview(x), cviews(r@)[j as int], st),
            decreases j,
        {
            j -= 1;
        }
        let ghost old_r = cviews(r@);
        proof {
            if j < old_r.len() {
                lemma_cons_lt_asym(cview(x), old_r[j as int], st);
            }
        }
        r.insert(j, x);
        assert(cviews(r@) =~= old_r.insert(j as int, cview(x)));
        assert(sorted_by_size(cviews(r@), st)) by {
            assert forall|i: int| 0 <= i < cviews(r@).len() - 1 implies !cons_lt(
                #[trigger] cviews(r@)[i + 1],
                cviews(r@)[i],
                st,
            ) by {
                if i + 1 < j {
                    assert(cviews(r@)[i + 1] == old_r[i + 1]);
                    assert(cviews(r@)[i] == old_r[i]);
                    assert(!cons_lt(old_r[i + 1], old_r[i], st));
                } else if i + 1 == j {
                    assert(cviews(r@)[i + 1] == cview(x));
                    assert(cviews(r@)[i] == old_r[i]);
                } else if i == j {
                    assert(cviews(r@)[i + 1] == old_r[i]);
                    assert(cviews(r@)[i] == cview(x));
                } else {
                    assert(cviews(r@)[i + 1] == old_r[i]);
                    assert(cviews(r@)[i] == old_r[i - 1]);
                    assert(!cons_lt(old_r[(i - 1) + 1], old_r[i - 1], st));
                }
            }
        }
        proof {
            vstd::seq_lib::to_multiset_insert(old_r, j as int, cview(x));
            vstd::seq_lib::to_multiset_build(cviews(rest@), cview(x));
            assert(cviews(r@).to_multiset().add(cviews(rest@).to_multiset()) =~= orig.to_multiset());
        }
    }
    assert(cviews(rest@).to_multiset() =~= vstd::multiset::Multiset::empty());
    assert(cviews(r@).to_multiset() =~= orig.to_multiset());
    r
}

} // verus!

verus! {

/// A file entry whose bytes count toward directory `d`: a non-empty file
/// strictly beneath `d` (component-wise), where `d` is not the empty path.
pub open spec fn counts_toward(e: FileEntry, d: Seq<Seq<char>>, st: PathStyle) -> bool {
    let pc = comps(e.path@, st);
    &&& !e.is_dir
    &&& e.size > 0
    &&& d.len() >= 1
    &&& d.len() < pc.len()
    &&& pc.take(d.len() as int) == d
}

/// Bytes of the entries in `es` that lie beneath directory `d`.
pub open spec fn dir_total(es: Seq<FileEntry>, d: Seq<Seq<char>>, st: PathStyle) -> nat
    decreases es.len(),
{
    if es.len() == 0 {
        0
    } else {
        dir_total(es.drop_last(), d, st) + if counts_toward(es.last(), d, st) {
            es.last().size as nat
        } else {
            0
        }
    }
}

pub open spec fn key_views(keys: Seq<Vec<Vec<char>>>) -> Seq<Seq<Seq<char>>> {
    Seq::new(keys.len(), |i: int| views(keys[i]@))
}

/// An index of every directory's recursive byte size, built from a scan:
/// each file contributes its size to every one of its ancestor directories
/// exactly once.
pub struct DirSizeIndex {
    keys: Vec<Vec<Vec<char>>>,
    sizes: Vec<u64>,
    style: PathStyle,
    source: Ghost<Seq<FileEntry>>,
}

pub proof fn lemma_dir_total_step(es: Seq<FileEntry>, i: int, d: Seq<Seq<char>>, st: PathStyle)
    requires
        0 <= i < es.len(),
    ensures
        dir_total(es.take(i + 1), d, st) == dir_total(es.take(i), d, st) + if counts_toward(es[i], d, st) {
            es[i].size as nat
        } else {
            0
        },
{
    assert(es.take(i + 1).drop_last() =~= es.take(i));
}

/// A prefix of a scan holds no more bytes beneath a directory than the scan.
pub proof fn lemma_dir_total_prefix(es: Seq<FileEntry>, k: int, d: Seq<Seq<char>>, st: PathStyle)
    requires
        0 <= k <= es.len(),
    ensures
        dir_total(es.take(k), d, st) <= dir_total(es, d, st),
    decreases es.len() - k,
{
    if k < es.len() {
        assert(es.take(k + 1).drop_last() =~= es.take(k));
        lemma_dir_total_prefix(es, k + 1, d, st);
    } else {
        assert(es.take(k) =~= es);
    }
}

/// The position of `key` among `keys`.
pub(crate) fn find_key(keys: &Vec<Vec<Vec<char>>>, key: &Vec<Vec<char>>) -> (r: Option<usize>)
    ensures
        match r {
            Some(j) => j < keys@.len() && key_views(keys@)[j as int] == views(key@),
            None => forall|q: int| 0 <= q < keys@.len() ==> #[trigger] key_views(keys@)[q] != views(key@),
        },
{
    let mut j: usize = 0;
    while j < keys.len()
        invariant
            j <= keys.len(),
            forall|q: int| 0 <= q < j ==> #[trigger] key_views(keys@)[q] != views(key@),
        decreases keys.len() - j,
    {
        if comps_eq(&keys[j], key) {
            return Some(j);
        }
        j += 1;
    }
    None
}

impl DirSizeIndex {
    #[verifier::type_invariant]
    spec fn inv(self) -> bool {
        let kv = key_views(self.keys@);
        &&& self.keys@.len() == self.sizes@.len()
        &&& forall|j: int| 0 <= j < kv.len() ==> self.sizes@[j] == dir_total(self.source@, #[trigger] kv[j], self.style)
        &&& forall|d: Seq<Seq<char>>| #[trigger] dir_total(self.source@, d, self.style) > 0 ==> exists|j: int|
            0 <= j < kv.len() && #[trigger] kv[j] == d
    }

    /// The entries the index was built from.
    pub closed spec fn source(&self) -> Seq<FileEntry> {
        self.source@
    }

    /// The separator rule of the indexed paths.
    pub closed spec fn style(&self) -> PathStyle {
        self.style
    }

    /// Build the index from a full list of scanned entries.
    #[verifier::loop_isolation(false)]
    #[verifier::spinoff_prover]
    pub fn build(entries: &[FileEntry], st: PathStyle) -> (r: Self)
        requires
            forall|d: Seq<Seq<char>>| #[trigger] dir_total(entries@, d, st) <= u64::MAX,
        ensures
            r.source() == entries@,
            r.style() == st,
    {
        let ghost es = entries@;
        let mut keys: Vec<Vec<Vec<char>>> = Vec::new();
        let mut sizes: Vec<u64> = Vec::new();
        let mut i: usize = 0;
        while i < entries.len()
            invariant
                i <= entries.len(),
                keys@.len() == sizes@.len(),
                forall|j: int| 0 <= j < key_views(keys@).len() ==> sizes@[j] == dir_total(es.take(i as int), #[trigger] key_views(keys@)[j], st),
                forall|d: Seq<Seq<char>>| #[trigger] dir_total(es.take(i as int), d, st) > 0 ==> exists|j: int|
                    0 <= j < key_views(keys@).len() && #[trigger] key_views(keys@)[j] == d,
                forall|j1: int, j2: int| 0 <= j1 < j2 < key_views(keys@).len() ==> #[trigger] key_views(keys@)[j1] != #[trigger] key_views(keys@)[j2],
            decreases entries.len() - i,
        {
            let e = &entries[i];
            let ghost ii = i as int;
            proof {
                assert forall|d: Seq<Seq<char>>| true implies #[trigger] dir_total(es.take(ii + 1), d, st) == dir_total(es.take(ii), d, st) + if counts_toward(es[ii], d, st) { es[ii].size as nat } else { 0 } by {
                    lemma_dir_total_step(es, ii, d, st);
                }
            }
            if !e.is_dir && e.size > 0 {
                let pc = path_comps(&chars_of(e.path.as_str()), st);
                assert(views(pc@) == comps(es[ii].path@, st));
                let mut l: usize = 1;
                while l < pc.len()
                    invariant
                        1 <= l,
                        keys@.len() == sizes@.len(),
                        forall|j: int| 0 <= j < key_views(keys@).len() ==> sizes@[j] == dir_total(es.take(ii), #[trigger] key_views(keys@)[j], st) + if counts_toward(es[ii], key_views(keys@)[j], st) && key_views(keys@)[j].len() < l { es[ii].size as nat } else { 0 },
                        forall|d: Seq<Seq<char>>| #![trigger dir_total(es.take(ii), d, st)] #![trigger counts_toward(es[ii], d, st)] (dir_total(es.take(ii), d, st) > 0 || (counts_toward(es[ii], d, st) && d.len() < l)) ==> exists|j: int|
                            0 <= j < key_views(keys@).len() && #[trigger] key_views(keys@)[j] == d,
                        forall|j1: int, j2: int| 0 <= j1 < j2 < key_views(keys@).len() ==> #[trigger] key_views(keys@)[j1] != #[trigger] key_views(keys@)[j2],
                    decreases pc.len() - l,
                {
                    // the ancestor made of the first `l` components
                    let mut key: Vec<Vec<char>> = Vec::new();
                    let mut t: usize = 0;
                    while t < l
                        invariant
                            t <= l < pc.len(),
                            views(key@) =~= views(pc@).take(t as int),
                        decreases l - t,
                    {
                        key.push(crate::text::copy_chars(&pc[t]));
                        t += 1;
                    }
                    let ghost kd = views(key@);
                    assert(counts_toward(es[ii], kd, st));
                    let fk = find_key(&keys, &key);
                    let found = fk.is_some();
                    let j: usize = match fk { Some(j) => j, None => 0 };
                    if found {
                        assert(key_views(keys@)[j as int] == kd);
                        proof {
                            lemma_dir_total_prefix(es, ii + 1, kd, st);
                        }
                        let v = sizes[j] + e.size;
                        let ghost old_keys = key_views(keys@);
                        sizes.set(j, v);
                        assert forall|d: Seq<Seq<char>>| #![trigger dir_total(es.take(ii), d, st)] #![trigger counts_toward(es[ii], d, st)] (dir_total(es.take(ii), d, st) > 0 || (counts_toward(es[ii], d, st) && d.len() < l + 1)) implies exists|q: int|
                            0 <= q < key_views(keys@).len() && #[trigger] key_views(keys@)[q] == d by {
                            if counts_toward(es[ii], d, st) && d.len() == l {
                                assert(d == comps(es[ii].path@, st).take(l as int));
                                assert(d =~= kd);
                                assert(key_views(keys@)[j as int] == d);
                            }
                        }
                        assert forall|q: int| 0 <= q < key_views(keys@).len() implies sizes@[q] == dir_total(es.take(ii), #[trigger] key_views(keys@)[q], st) + if counts_toward(es[ii], key_views(keys@)[q], st) && key_views(keys@)[q].len() < l + 1 { es[ii].size as nat } else { 0 } by {
                            if q != j && counts_toward(es[ii], key_views(keys@)[q], st) && key_views(keys@)[q].len() == l {
                                assert(key_views(keys@)[q] =~= kd);
                            }
                        }
                    } else {
                        assert(dir_total(es.take(ii), kd, st) == 0);
                        let ghost old_keys = key_views(keys@);
                        keys.push(key);
                        sizes.push(e.size);
                        assert(key_views(keys@) =~= old_keys.push(kd));
                        assert forall|j1: int, j2: int| 0 <= j1 < j2 < key_views(keys@).len() implies #[trigger] key_views(keys@)[j1] != #[trigger] key_views(keys@)[j2] by {
                            if j2 == old_keys.len() {
                                assert(old_keys[j1] != kd);
                            } else {
                                assert(old_keys[j1] != old_keys[j2]);
                            }
                        }
                        assert forall|q: int| 0 <= q < key_views(keys@).len() implies sizes@[q] == dir_total(es.take(ii), #[trigger] key_views(keys@)[q], st) + if counts_toward(es[ii], key_views(keys@)[q], st) && key_views(keys@)[q].len() < l + 1 { es[ii].size as nat } else { 0 } by {
                            if q < old_keys.len() && counts_toward(es[ii], key_views(keys@)[q], st) && key_views(keys@)[q].len() == l {
                                assert(key_views(keys@)[q] =~= kd);
                            }
                        }
                        assert forall|d: Seq<Seq<char>>| #![trigger dir_total(es.take(ii), d, st)] #![trigger counts_toward(es[ii], d, st)] (dir_total(es.take(ii), d, st) > 0 || (counts_toward(es[ii], d, st) && d.len() < l + 1)) implies exists|q: int|
                            0 <= q < key_views(keys@).len() && #[trigger] key_views(keys@)[q] == d by {
                            if counts_toward(es[ii], d, st) && d.len() == l {
                                assert(d == comps(es[ii].path@, st).take(l as int));
                                assert(d =~= kd);
                                assert(key_views(keys@)[old_keys.len() as int] == d);
                            } else {
                                assert(dir_total(es.take(ii), d, st) > 0 || (counts_toward(es[ii], d, st) && d.len() < l));
                                assert(exists|q: int| 0 <= q < old_keys.len() && #[trigger] old_keys[q] == d);
                                let q = choose|q: int| 0 <= q < old_keys.len() && #[trigger] old_keys[q] == d;
                                assert(key_views(keys@)[q] == d);
                            }
                        }
                    }
                    l += 1;
                }
            }
            i += 1;
        }
        assert(es.take(entries.len() as int) =~= es);
        let ghost kv = key_views(keys@);
        assert(es.take(i as int) == es);
        assert forall|j: int| 0 <= j < kv.len() implies sizes@[j] == dir_total(es, #[trigger] kv[j], st) by {}
        assert forall|d: Seq<Seq<char>>| #[trigger] dir_total(es, d, st) > 0 implies exists|j: int|
            0 <= j < kv.len() && #[trigger] kv[j] == d by {
            assert(dir_total(es.take(i as int), d, st) > 0);
        }
        Self::from_parts(keys, sizes, entries, st)
    }

    /// An index of the given directory totals of `entries`.
    fn from_parts(keys: Vec<Vec<Vec<char>>>, sizes: Vec<u64>, entries: &[FileEntry], st: PathStyle) -> (r: Self)
        requires
            keys@.len() == sizes@.len(),
            forall|j: int|
                0 <= j < key_views(keys@).len() ==> sizes@[j] == dir_total(entries@, #[trigger] key_views(keys@)[j], st),
            forall|d: Seq<Seq<char>>| #[trigger] dir_total(entries@, d, st) > 0 ==> exists|j: int|
                0 <= j < key_views(keys@).len() && #[trigger] key_views(keys@)[j] == d,
        ensures
            r.source() == entries@,
            r.style() == st,
    {
        DirSizeIndex { keys, sizes, style: st, source: Ghost(entries@) }
    }

    /// Total bytes stored beneath `dir` (0 if unknown).
    pub fn size_of(&self, dir: &str) -> (r: u64)
        ensures
            r == dir_total(self.source(), comps(dir@, self.style()), self.style()),
    {
        proof {
            use_type_invariant(self);
        }
        let d = path_comps(&chars_of(dir), self.style);
        match find_key(&self.keys, &d) {
            Some(j) => self.sizes[j],
            None => 0,
        }
    }
}

} // verus!
