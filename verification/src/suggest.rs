//! Turns a scan plus a signature set into concrete, de-duplicated cleanup
//! suggestions.
//!
//! Signatures are compiled once (needles and patterns pre-lowercased), each
//! path is normalized once, and the per-entry matching runs in parallel.
//! Matches are then ordered by path length so that a directory is accepted
//! before anything beneath it, and entries beneath an accepted directory are
//! dropped. Directories are sized from the whole scan.
use vstd::prelude::*;

use rayon::iter::{IndexedParallelIterator, IntoParallelRefIterator, ParallelIterator};
use vstd::utf8::encode_utf8;

use crate::model::FileEntry;
use crate::paths::{
    comps, comps_prefix, comps_prefix_exec, lemma_path_lt_order, path_comps, path_lt, path_lt_exec, views, PathStyle,
};
use crate::rules::{
    age_ok_exec, confidence_label, last_comp, rule_matches, string_views,
    wildcard_match_lower, wildcard_raw, wildcard_spec, Confidence, MatchRule, Signature,
    SignatureSet,
};
use crate::safety::{is_protected, protected};
use crate::sorting::{insert_sorted, lemma_insert_at, stable_sort};
use crate::text::{
    after_last, after_last_vec, backslashed, chars_of, contains_vec, lower, lower_char, lower_vec,
    normalize_vec, normalized, trim_end, trim_end_vec,
};
use crate::usage::{counts_toward, dir_total, key_views, lemma_dir_total_prefix, lemma_dir_total_step};

verus! {

/// The lowercased final component of a normalized path is the lowercased
/// final component of the path.
pub proof fn lemma_name_of_normalized(p: Seq<char>)
    ensures
        after_last(trim_end(normalized(p), '\\'), '\\') == lower(last_comp(p)),
{
    assert(normalized(p) =~= lower(backslashed(p)));
    lemma_lower_trim_after(backslashed(p));
}

proof fn lemma_lower_trim_after(s: Seq<char>)
    ensures
        after_last(trim_end(lower(s), '\\'), '\\') == lower(after_last(trim_end(s, '\\'), '\\')),
{
    lemma_lower_trim(s);
    lemma_lower_after(trim_end(s, '\\'));
}

proof fn lemma_lower_trim(s: Seq<char>)
    ensures
        trim_end(lower(s), '\\') == lower(trim_end(s, '\\')),
    decreases s.len(),
{
    if s.len() > 0 {
        assert(lower(s).drop_last() =~= lower(s.drop_last()));
        lemma_lower_trim(s.drop_last());
    } else {
        assert(lower(s) =~= s);
    }
}

proof fn lemma_lower_after(s: Seq<char>)
    ensures
        after_last(lower(s), '\\') == lower(after_last(s, '\\')),
    decreases s.len(),
{
    if s.len() > 0 {
        assert(lower(s).drop_last() =~= lower(s.drop_last()));
        lemma_lower_after(s.drop_last());
        if s.last() != '\\' {
            assert(lower(after_last(s.drop_last(), '\\').push(s.last())) =~= lower(
                after_last(s.drop_last(), '\\'),
            ).push(lower_char(s.last())));
        } else {
            assert(lower(Seq::<char>::empty()) =~= Seq::<char>::empty());
        }
    } else {
        assert(lower(s) =~= s);
    }
}

/// A rule with its match inputs pre-lowercased for allocation-free matching.
pub enum CompiledRule {
    DirName { name: Vec<char> },
    PathContains { needle: Vec<char> },
    Glob { patterns: Vec<Vec<char>>, within: Option<Vec<char>>, min_age_days: Option<u32> },
}

/// A signature with its rule compiled.
struct CompiledSig {
    id: String,
    title: String,
    category: String,
    confidence: Confidence,
    description: String,
    rule: CompiledRule,
}

pub open spec fn lower_all(s: Seq<Seq<char>>) -> Seq<Seq<char>> {
    Seq::new(s.len(), |i: int| lower(s[i]))
}

pub open spec fn char_views(v: Seq<Vec<char>>) -> Seq<Seq<char>> {
    Seq::new(v.len(), |i: int| v[i]@)
}

/// A compiled rule is the compilation of a rule.
pub open spec fn compiled_from(c: CompiledRule, r: MatchRule) -> bool {
    match (c, r) {
        (CompiledRule::DirName { name: c }, MatchRule::DirName { name }) => c@ == lower(name@),
        (CompiledRule::PathContains { needle: c }, MatchRule::PathContains { needle }) => c@
            == normalized(needle@),
        (
            CompiledRule::Glob { patterns: cp, within: cw, min_age_days: ca },
            MatchRule::Glob { patterns, within, min_age_days },
        ) => {
            &&& char_views(cp@) == lower_all(string_views(patterns@))
            &&& match (cw, within) {
                (None, None) => true,
                (Some(c), Some(w)) => c@ == normalized(w@),
                _ => false,
            }
            &&& ca == min_age_days
        },
        _ => false,
    }
}

spec fn sig_compiled_from(c: CompiledSig, s: Signature) -> bool {
    &&& c.id == s.id
    &&& c.title == s.title
    &&& c.category == s.category
    &&& c.confidence == s.confidence
    &&& c.description == s.description
    &&& compiled_from(c.rule, s.rule)
}

fn lower_all_exec(v: &Vec<String>) -> (r: Vec<Vec<char>>)
    ensures
        char_views(r@) == lower_all(string_views(v@)),
{
    let mut r: Vec<Vec<char>> = Vec::new();
    let mut i: usize = 0;
    while i < v.len()
        invariant
            i <= v.len(),
            char_views(r@) =~= lower_all(string_views(v@)).take(i as int),
        decreases v.len() - i,
    {
        let l = lower_vec(&chars_of(v[i].as_str()));
        let ghost old_r = char_views(r@);
        r.push(l);
        assert(char_views(r@) =~= old_r.push(l@));
        i += 1;
    }
    r
}

impl CompiledRule {
    /// Compile a rule: lowercase its names and patterns, and normalize its
    /// path fragments.
    pub fn compile(rule: &MatchRule) -> (c: CompiledRule)
        ensures
            compiled_from(c, *rule),
    {
        match rule {
            MatchRule::DirName { name } => CompiledRule::DirName { name: lower_vec(&chars_of(name.as_str())) },
            MatchRule::PathContains { needle } => CompiledRule::PathContains {
                needle: normalize_vec(&chars_of(needle.as_str())),
            },
            MatchRule::Glob { patterns, within, min_age_days } => {
                let w = match within {
                    Some(w) => Some(normalize_vec(&chars_of(w.as_str()))),
                    None => None,
                };
                CompiledRule::Glob { patterns: lower_all_exec(patterns), within: w, min_age_days: *min_age_days }
            },
        }
    }

    /// Match a compiled rule against a normalized path and its lowercased final
    /// component: the same answer as the rule it was compiled from gives for
    /// the entry.
    pub fn matches(
        &self,
        norm_path: &[char],
        name_lower: &[char],
        is_dir: bool,
        modified: Option<i64>,
        now: i64,
        Ghost(orig): Ghost<MatchRule>,
        Ghost(entry): Ghost<FileEntry>,
    ) -> (r: bool)
        requires
            compiled_from(*self, orig),
            norm_path@ == normalized(entry.path@),
            name_lower@ == lower(last_comp(entry.path@)),
            is_dir == entry.is_dir,
            modified == entry.modified,
        ensures
            r == rule_matches(orig, entry, now),
    {
        match self {
            CompiledRule::DirName { name } => {
                assert(orig is DirName);
                let r = is_dir && crate::text::chars_eq(name_lower, name);
                assert(r == rule_matches(orig, entry, now));
                r
            },
            CompiledRule::PathContains { needle } => contains_vec(norm_path, needle),
            CompiledRule::Glob { patterns, within, min_age_days } => {
                if is_dir {
                    return false;
                }
                if let Some(w) = within {
                    if !contains_vec(norm_path, w) {
                        return false;
                    }
                }
                if !age_ok_exec(*min_age_days, modified, now) {
                    return false;
                }
                let ghost ps = match orig {
                    MatchRule::Glob { patterns, .. } => string_views(patterns@),
                    _ => Seq::empty(),
                };
                let found = any_lower_pattern(patterns, name_lower);
                proof {
                    assert(lower_all(ps).len() == ps.len());
                    if found {
                        let j = choose|j: int|
                            0 <= j < patterns@.len() && wildcard_raw(name_lower@, #[trigger] patterns@[j]@);
                        assert(char_views(patterns@)[j] == patterns@[j]@);
                        assert(wildcard_spec(last_comp(entry.path@), ps[j]));
                    } else {
                        assert forall|j: int| 0 <= j < ps.len() implies !wildcard_spec(
                            last_comp(entry.path@),
                            #[trigger] ps[j],
                        ) by {
                            assert(char_views(patterns@)[j] == patterns@[j]@);
                            assert(!wildcard_raw(name_lower@, patterns@[j]@));
                        }
                    }
                }
                found
            },
        }
    }

}

/// Whether some lowercased pattern matches the lowercased name.
fn any_lower_pattern(patterns: &Vec<Vec<char>>, name_lower: &[char]) -> (r: bool)
    ensures
        r == exists|j: int| 0 <= j < patterns@.len() && wildcard_raw(name_lower@, #[trigger] patterns@[j]@),
{
    let mut i: usize = 0;
    while i < patterns.len()
        invariant
            i <= patterns.len(),
            forall|j: int| 0 <= j < i ==> !wildcard_raw(name_lower@, #[trigger] patterns@[j]@),
        decreases patterns.len() - i,
    {
        if wildcard_match_lower(name_lower, &patterns[i]) {
            return true;
        }
        i += 1;
    }
    false
}


/// A concrete recommendation to reclaim a specific path.
#[derive(Debug, Clone, PartialEq, Eq)]
pub struct Suggestion {
    /// The signature that produced this suggestion.
    pub signature_id: String,
    /// Human-readable title of the category.
    pub title: String,
    /// Category grouping.
    pub category: String,
    /// Confidence label (`safe` / `likely-safe` / `review-needed`).
    pub confidence: String,
    /// The path recommended for cleanup.
    pub path: String,
    /// Whether the path is a directory.
    pub is_dir: bool,
    /// Bytes that would be reclaimed.
    pub size: u64,
    /// Why this is safe/recommended (from the signature description).
    pub reason: String,
}

/// The result of analyzing a scan against a signature set.
#[derive(Debug, Clone, Default)]
pub struct AnalysisReport {
    /// All suggestions, sorted by size descending.
    pub suggestions: Vec<Suggestion>,
    /// Total reclaimable bytes across all suggestions.
    pub total_reclaimable: u64,
}

/// The index of the first signature whose rule matches `e`, or -1.
pub open spec fn first_match(sigs: Seq<Signature>, e: FileEntry, now: i64) -> int
    decreases sigs.len(),
{
    if sigs.len() == 0 {
        -1
    } else {
        let k = first_match(sigs.drop_last(), e, now);
        if k >= 0 {
            k
        } else if rule_matches(sigs.last().rule, e, now) {
            sigs.len() - 1
        } else {
            -1
        }
    }
}

/// Entry `i` with the first signature that matches it, unless the entry is
/// protected or nothing matches.
pub open spec fn pick_for(sigs: Seq<Signature>, e: FileEntry, now: i64, i: int) -> Option<(int, int)> {
    if !protected(e.path@) && first_match(sigs, e, now) >= 0 {
        Some((i, first_match(sigs, e, now)))
    } else {
        None
    }
}

/// The present values, in order.
pub open spec fn somes<T>(s: Seq<Option<T>>) -> Seq<T>
    decreases s.len(),
{
    if s.len() == 0 {
        Seq::empty()
    } else {
        match s.last() {
            Some(x) => somes(s.drop_last()).push(x),
            None => somes(s.drop_last()),
        }
    }
}

/// Every matched entry (as entry index, signature index), in scan order.
pub open spec fn picks(entries: Seq<FileEntry>, sigs: Seq<Signature>, now: i64) -> Seq<(int, int)> {
    somes(Seq::new(entries.len(), |i: int| pick_for(sigs, entries[i], now, i)))
}

/// The length of a path in bytes.
pub open spec fn path_bytes(p: Seq<char>) -> int {
    encode_utf8(p).len() as usize as int
}

/// Shorter paths first.
pub open spec fn by_length(entries: Seq<FileEntry>) -> spec_fn((int, int), (int, int)) -> bool {
    |a: (int, int), b: (int, int)| path_bytes(entries[a.0].path@) < path_bytes(entries[b.0].path@)
}

/// Some directory in `dirs` is a component prefix of `pc`.
pub open spec fn beneath_any(dirs: Seq<Seq<Seq<char>>>, pc: Seq<Seq<char>>) -> bool {
    exists|j: int| 0 <= j < dirs.len() && comps_prefix(#[trigger] dirs[j], pc)
}

/// Walk the matches in order, dropping each one that lies beneath an
/// already-accepted directory: the accepted matches, and the accepted
/// directories' components.
pub open spec fn prune(entries: Seq<FileEntry>, s: Seq<(int, int)>, st: PathStyle) -> (Seq<(int, int)>, Seq<Seq<Seq<char>>>)
    decreases s.len(),
{
    if s.len() == 0 {
        (Seq::empty(), Seq::empty())
    } else {
        let prev = prune(entries, s.drop_last(), st);
        let e = entries[s.last().0];
        let pc = comps(e.path@, st);
        if beneath_any(prev.1, pc) {
            prev
        } else {
            (prev.0.push(s.last()), if e.is_dir { prev.1.push(pc) } else { prev.1 })
        }
    }
}

/// The matches that survive de-duplication.
pub open spec fn accepted(entries: Seq<FileEntry>, sigs: Seq<Signature>, now: i64, st: PathStyle) -> Seq<(int, int)> {
    prune(entries, stable_sort(picks(entries, sigs, now), by_length(entries)), st).0
}

/// Bytes reclaimed by removing entry `i`: a directory's recursive size, or a
/// file's own size.
pub open spec fn pick_size(entries: Seq<FileEntry>, i: int, st: PathStyle) -> nat {
    if entries[i].is_dir {
        dir_total(entries, comps(entries[i].path@, st), st)
    } else {
        entries[i].size as nat
    }
}

/// The accepted matches with their sizes, dropping those of size 0.
pub open spec fn sized(entries: Seq<FileEntry>, acc: Seq<(int, int)>, st: PathStyle) -> Seq<(int, int, nat)>
    decreases acc.len(),
{
    if acc.len() == 0 {
        Seq::empty()
    } else {
        let prev = sized(entries, acc.drop_last(), st);
        let p = acc.last();
        let n = pick_size(entries, p.0, st);
        if n > 0 {
            prev.push((p.0, p.1, n))
        } else {
            prev
        }
    }
}

pub open spec fn sizes_total(s: Seq<(int, int, nat)>) -> nat
    decreases s.len(),
{
    if s.len() == 0 {
        0
    } else {
        sizes_total(s.drop_last()) + s.last().2
    }
}

/// Larger first; equal sizes by path.
pub open spec fn by_size(entries: Seq<FileEntry>, st: PathStyle) -> spec_fn((int, int, nat), (int, int, nat)) -> bool {
    |a: (int, int, nat), b: (int, int, nat)|
        a.2 > b.2 || (a.2 == b.2 && path_lt(entries[a.0].path@, entries[b.0].path@, st))
}

/// The suggestions of an analysis as (entry index, signature index, size).
pub open spec fn analysis(entries: Seq<FileEntry>, sigs: Seq<Signature>, now: i64, st: PathStyle) -> Seq<(int, int, nat)> {
    stable_sort(sized(entries, accepted(entries, sigs, now, st), st), by_size(entries, st))
}

/// The reclaimable total of an analysis.
pub open spec fn analysis_total(entries: Seq<FileEntry>, sigs: Seq<Signature>, now: i64, st: PathStyle) -> nat {
    sizes_total(sized(entries, accepted(entries, sigs, now, st), st))
}

/// Every size of an analysis, and their total, fit in `u64`.
pub open spec fn analysis_fits(entries: Seq<FileEntry>, sigs: Seq<Signature>, now: i64, st: PathStyle) -> bool {
    analysis_total(entries, sigs, now, st) <= u64::MAX
}

/// `s` is the suggestion for entry `t.0` matched by signature `t.1`, of size
/// `t.2`.
pub open spec fn describes(s: Suggestion, entries: Seq<FileEntry>, sigs: Seq<Signature>, t: (int, int, nat)) -> bool {
    &&& s.signature_id@ == sigs[t.1].id@
    &&& s.title@ == sigs[t.1].title@
    &&& s.category@ == sigs[t.1].category@
    &&& s.confidence@ == confidence_label(sigs[t.1].confidence)
    &&& s.path@ == entries[t.0].path@
    &&& s.is_dir == entries[t.0].is_dir
    &&& s.size == t.2
    &&& s.reason@ == sigs[t.1].description@
}

/// `r` is the report of analyzing `entries` with `sigs` at `now`.
pub open spec fn report_of(r: AnalysisReport, entries: Seq<FileEntry>, sigs: Seq<Signature>, now: i64, st: PathStyle) -> bool {
    let a = analysis(entries, sigs, now, st);
    &&& r.suggestions@.len() == a.len()
    &&& forall|j: int| 0 <= j < a.len() ==> describes(r.suggestions@[j], entries, sigs, #[trigger] a[j])
    &&& r.total_reclaimable == analysis_total(entries, sigs, now, st)
}

pub open spec fn pair_views(v: Seq<(usize, usize)>) -> Seq<(int, int)> {
    Seq::new(v.len(), |j: int| (v[j].0 as int, v[j].1 as int))
}

pub open spec fn triple_views(v: Seq<(usize, usize, u64)>) -> Seq<(int, int, nat)> {
    Seq::new(v.len(), |j: int| (v[j].0 as int, v[j].1 as int, v[j].2 as nat))
}

pub open spec fn opt_pair(o: Option<(usize, usize)>) -> Option<(int, int)> {
    match o {
        Some(p) => Some((p.0 as int, p.1 as int)),
        None => None,
    }
}

proof fn lemma_first_match_prefix(sigs: Seq<Signature>, k: int, e: FileEntry, now: i64)
    requires
        0 <= k <= sigs.len(),
        first_match(sigs.take(k), e, now) >= 0,
    ensures
        first_match(sigs, e, now) == first_match(sigs.take(k), e, now),
    decreases sigs.len() - k,
{
    if k < sigs.len() {
        assert(sigs.take(k + 1).drop_last() =~= sigs.take(k));
        lemma_first_match_prefix(sigs, k + 1, e, now);
    } else {
        assert(sigs.take(k) =~= sigs);
    }
}

/// Analyzes scanned entries against signatures to produce suggestions.
pub struct Analyzer {
    signatures: Vec<CompiledSig>,
    source: Ghost<Seq<Signature>>,
}

impl Analyzer {
    #[verifier::type_invariant]
    spec fn inv(self) -> bool {
        &&& self.signatures@.len() == self.source@.len()
        &&& forall|k: int| 0 <= k < self.signatures@.len() ==> sig_compiled_from(#[trigger] self.signatures@[k], self.source@[k])
    }

    /// The signatures this analyzer matches against, in order.
    pub closed spec fn sigs(&self) -> Seq<Signature> {
        self.source@
    }

    /// Create an analyzer from a signature set, compiling it for fast matching.
    pub fn new(signatures: SignatureSet) -> (r: Self)
        ensures
            r.sigs() == signatures.signatures@,
    {
        let v = &signatures.signatures;
        let mut compiled: Vec<CompiledSig> = Vec::new();
        let mut i: usize = 0;
        while i < v.len()
            invariant
                i <= v.len(),
                compiled@.len() == i,
                forall|k: int| 0 <= k < i ==> sig_compiled_from(#[trigger] compiled@[k], v@[k]),
            decreases v.len() - i,
        {
            let s = &v[i];
            compiled.push(
                CompiledSig {
                    rule: CompiledRule::compile(&s.rule),
                    id: s.id.clone(),
                    title: s.title.clone(),
                    category: s.category.clone(),
                    confidence: s.confidence,
                    description: s.description.clone(),
                },
            );
            i += 1;
        }
        Analyzer { signatures: compiled, source: Ghost(signatures.signatures@) }
    }

    /// The first signature matching `e`, matching against its path
    /// normalized once.
    fn first_match_exec(&self, e: &FileEntry, now: i64) -> (r: Option<usize>)
        ensures
            match r {
                Some(k) => k == first_match(self.sigs(), *e, now),
                None => first_match(self.sigs(), *e, now) == -1,
            },
    {
        proof {
            use_type_invariant(self);
            lemma_name_of_normalized(e.path@);
        }
        let path = chars_of(e.path.as_str());
        let norm = normalize_vec(&path);
        let name = after_last_vec(&trim_end_vec(&norm, '\\'), '\\');
        let ghost sigs = self.sigs();
        let mut j: usize = 0;
        assert(sigs.take(0) =~= Seq::<Signature>::empty());
        while j < self.signatures.len()
            invariant
                j <= self.signatures@.len() == sigs.len(),
                sigs == self.source@,
                first_match(sigs.take(j as int), *e, now) == -1,
                norm@ == normalized(e.path@),
                name@ == lower(last_comp(e.path@)),
                forall|k: int| 0 <= k < self.signatures@.len() ==> sig_compiled_from(#[trigger] self.signatures@[k], self.source@[k]),
            decreases self.signatures.len() - j,
        {
            assert(sig_compiled_from(self.signatures@[j as int], sigs[j as int]));
            let m = self.signatures[j].rule.matches(
                &norm,
                &name,
                e.is_dir,
                e.modified,
                now,
                Ghost(sigs[j as int].rule),
                Ghost(*e),
            );
            assert(sigs.take(j + 1).drop_last() =~= sigs.take(j as int));
            if m {
                proof {
                    lemma_first_match_prefix(sigs, j + 1, *e, now);
                }
                return Some(j);
            }
            j += 1;
        }
        assert(sigs.take(j as int) =~= sigs);
        None
    }

    /// Entry `i` paired with its first matching signature, unless the entry is
    /// protected or unmatched.
    fn match_at(&self, i: usize, e: &FileEntry, now: i64) -> (r: Option<(usize, usize)>)
        ensures
            opt_pair(r) == pick_for(self.sigs(), *e, now, i as int),
    {
        if is_protected(e.path.as_str()) {
            return None;
        }
        match self.first_match_exec(e, now) {
            Some(k) => Some((i, k)),
            None => None,
        }
    }

    fn make_suggestion(&self, e: &FileEntry, k: usize, size: u64) -> (s: Suggestion)
        requires
            k < self.sigs().len(),
        ensures
            describes(s, seq![*e], self.sigs(), (0, k as int, size as nat)),
    {
        proof {
            use_type_invariant(self);
        }
        let sig = &self.signatures[k];
        assert(sig_compiled_from(self.signatures@[k as int], self.source@[k as int]));
        Suggestion {
            signature_id: sig.id.clone(),
            title: sig.title.clone(),
            category: sig.category.clone(),
            confidence: sig.confidence.label().to_owned(),
            path: e.path.clone(),
            is_dir: e.is_dir,
            size,
            reason: sig.description.clone(),
        }
    }
}

/// Matches every entry in parallel with rayon: `par_iter().enumerate()
/// .filter_map(..).collect()`. The closure only calls `Analyzer::match_at`;
/// the contract claims that rayon keeps the entries' order when it collects
/// an indexed iterator's filtered results into a `Vec`, so the result is the
/// present results of `match_at`, in entry order.
#[verifier::external_body]
fn par_picks(analyzer: &Analyzer, entries: &[FileEntry], now: i64) -> (r: Vec<(usize, usize)>)
    ensures
        pair_views(r@) == somes(Seq::new(entries@.len(), |i: int| pick_for(analyzer.sigs(), entries@[i], now, i))),
{
    entries.par_iter().enumerate().filter_map(|(i, e)| analyzer.match_at(i, e, now)).collect()
}



/// Stable insertion sort of the matches, shorter paths first.
fn sort_by_length(entries: &[FileEntry], ms: &Vec<(usize, usize)>) -> (r: Vec<(usize, usize)>)
    requires
        forall|j: int| 0 <= j < ms@.len() ==> (#[trigger] ms@[j]).0 < entries@.len(),
    ensures
        pair_views(r@) == stable_sort(pair_views(ms@), by_length(entries@)),
        forall|j: int| 0 <= j < r@.len() ==> (#[trigger] r@[j]).0 < entries@.len(),
{
    let ghost before = by_length(entries@);
    let mut r: Vec<(usize, usize)> = Vec::new();
    let mut i: usize = 0;
    assert(pair_views(ms@).take(0) =~= Seq::<(int, int)>::empty());
    assert(pair_views(r@) =~= Seq::<(int, int)>::empty());
    while i < ms.len()
        invariant
            i <= ms@.len(),
            before == by_length(entries@),
            forall|j: int| 0 <= j < ms@.len() ==> (#[trigger] ms@[j]).0 < entries@.len(),
            forall|j: int| 0 <= j < r@.len() ==> (#[trigger] r@[j]).0 < entries@.len(),
            pair_views(r@) == stable_sort(pair_views(ms@).take(i as int), before),
        decreases ms.len() - i,
    {
        let x = ms[i];
        let kx = entries[x.0].path.as_str().len();
        let ghost xv = (x.0 as int, x.1 as int);
        let mut p = r.len();
        while p > 0 && kx < entries[r[p - 1].0].path.as_str().len()
            invariant
                p <= r@.len(),
                x.0 < entries@.len(),
                xv == (x.0 as int, x.1 as int),
                kx == path_bytes(entries@[x.0 as int].path@),
                forall|j: int| 0 <= j < r@.len() ==> (#[trigger] r@[j]).0 < entries@.len(),
                forall|q: int| p <= q < r@.len() ==> before(xv, #[trigger] pair_views(r@)[q]),
                before == by_length(entries@),
            decreases p,
        {
            let kp = entries[r[p - 1].0].path.as_str().len();
            assert(kx < kp);
            assert(kp == path_bytes(entries@[r@[p - 1].0 as int].path@));
            assert(pair_views(r@)[p - 1] == (r@[p - 1].0 as int, r@[p - 1].1 as int));
            assert(by_length(entries@)(xv, pair_views(r@)[p - 1]));
            p -= 1;
        }
        proof {
            if p > 0 {
                assert(!before(xv, pair_views(r@)[p - 1]));
            }
            lemma_insert_at(pair_views(r@), xv, before, p as int);
        }
        let ghost old_r = pair_views(r@);
        r.insert(p, x);
        assert(pair_views(r@) =~= old_r.insert(p as int, xv));
        assert(pair_views(ms@).take(i + 1).drop_last() =~= pair_views(ms@).take(i as int));
        assert(pair_views(ms@).take(i + 1).last() == xv);
        i += 1;
    }
    assert(pair_views(ms@).take(i as int) =~= pair_views(ms@));
    r
}

/// Whether some directory of `dirs` is a component prefix of `pc`.
fn beneath_any_exec(dirs: &Vec<Vec<Vec<char>>>, pc: &Vec<Vec<char>>) -> (r: bool)
    ensures
        r == beneath_any(key_views(dirs@), views(pc@)),
{
    let mut j: usize = 0;
    while j < dirs.len()
        invariant
            j <= dirs@.len(),
            forall|q: int| 0 <= q < j ==> !comps_prefix(#[trigger] key_views(dirs@)[q], views(pc@)),
        decreases dirs.len() - j,
    {
        if comps_prefix_exec(&dirs[j], pc) {
            assert(comps_prefix(key_views(dirs@)[j as int], views(pc@)));
            return true;
        }
        j += 1;
    }
    false
}

/// Drop every match that lies beneath an already-accepted directory.
fn prune_exec(entries: &[FileEntry], sorted: &Vec<(usize, usize)>, st: PathStyle) -> (r: Vec<(usize, usize)>)
    requires
        forall|j: int| 0 <= j < sorted@.len() ==> (#[trigger] sorted@[j]).0 < entries@.len(),
    ensures
        pair_views(r@) == prune(entries@, pair_views(sorted@), st).0,
        forall|j: int| 0 <= j < r@.len() ==> (#[trigger] r@[j]).0 < entries@.len(),
{
    let mut acc: Vec<(usize, usize)> = Vec::new();
    let mut dirs: Vec<Vec<Vec<char>>> = Vec::new();
    let mut i: usize = 0;
    assert(pair_views(sorted@).take(0) =~= Seq::<(int, int)>::empty());
    assert(pair_views(acc@) =~= Seq::<(int, int)>::empty());
    assert(key_views(dirs@) =~= Seq::<Seq<Seq<char>>>::empty());
    while i < sorted.len()
        invariant
            i <= sorted@.len(),
            forall|j: int| 0 <= j < sorted@.len() ==> (#[trigger] sorted@[j]).0 < entries@.len(),
            forall|j: int| 0 <= j < acc@.len() ==> (#[trigger] acc@[j]).0 < entries@.len(),
            (pair_views(acc@), key_views(dirs@)) == prune(entries@, pair_views(sorted@).take(i as int), st),
        decreases sorted.len() - i,
    {
        let x = sorted[i];
        let e = &entries[x.0];
        let pc = path_comps(&chars_of(e.path.as_str()), st);
        assert(pair_views(sorted@).take(i + 1).drop_last() =~= pair_views(sorted@).take(i as int));
        assert(pair_views(sorted@).take(i + 1).last() == (x.0 as int, x.1 as int));
        if !beneath_any_exec(&dirs, &pc) {
            let ghost old_acc = pair_views(acc@);
            let ghost old_dirs = key_views(dirs@);
            acc.push(x);
            assert(pair_views(acc@) =~= old_acc.push((x.0 as int, x.1 as int)));
            if e.is_dir {
                dirs.push(pc);
                assert(key_views(dirs@) =~= old_dirs.push(comps(e.path@, st)));
            }
        }
        i += 1;
    }
    assert(pair_views(sorted@).take(i as int) =~= pair_views(sorted@));
    acc
}

/// Bytes beneath directory `dir`, or `None` when they do not fit in `u64`.
fn dir_bytes(entries: &[FileEntry], dir: &Vec<Vec<char>>, st: PathStyle) -> (r: Option<u64>)
    ensures
        match r {
            Some(n) => n == dir_total(entries@, views(dir@), st),
            None => dir_total(entries@, views(dir@), st) > u64::MAX,
        },
{
    let ghost d = views(dir@);
    let mut total: u64 = 0;
    let mut i: usize = 0;
    assert(entries@.take(0) =~= Seq::<FileEntry>::empty());
    while i < entries.len()
        invariant
            i <= entries@.len(),
            d == views(dir@),
            total == dir_total(entries@.take(i as int), d, st),
        decreases entries.len() - i,
    {
        let e = &entries[i];
        proof {
            lemma_dir_total_step(entries@, i as int, d, st);
        }
        if !e.is_dir && e.size > 0 && dir.len() >= 1 {
            let pc = path_comps(&chars_of(e.path.as_str()), st);
            if dir.len() < pc.len() && comps_prefix_exec(dir, &pc) {
                assert(counts_toward(entries@[i as int], d, st));
                match total.checked_add(e.size) {
                    Some(t) => {
                        total = t;
                    },
                    None => {
                        proof {
                            lemma_dir_total_prefix(entries@, i + 1, d, st);
                        }
                        return None;
                    },
                }
            } else {
                assert(!counts_toward(entries@[i as int], d, st));
            }
        } else {
            assert(!counts_toward(entries@[i as int], d, st));
        }
        i += 1;
    }
    assert(entries@.take(i as int) =~= entries@);
    Some(total)
}



proof fn lemma_first_match_bound(sigs: Seq<Signature>, e: FileEntry, now: i64)
    ensures
        -1 <= first_match(sigs, e, now) < sigs.len(),
        first_match(sigs, e, now) >= 0 ==> rule_matches(sigs[first_match(sigs, e, now)].rule, e, now),
    decreases sigs.len(),
{
    if sigs.len() > 0 {
        lemma_first_match_bound(sigs.drop_last(), e, now);
    }
}

proof fn lemma_somes_member<T>(s: Seq<Option<T>>, x: T)
    requires
        somes(s).contains(x),
    ensures
        exists|i: int| 0 <= i < s.len() && s[i] == Some(x),
    decreases s.len(),
{
    let r = somes(s.drop_last());
    match s.last() {
        Some(y) => {
            if r.contains(x) {
                lemma_somes_member(s.drop_last(), x);
                let i = choose|i: int| 0 <= i < s.drop_last().len() && s.drop_last()[i] == Some(x);
                assert(s[i] == Some(x));
            } else {
                let j = choose|j: int| 0 <= j < somes(s).len() && somes(s)[j] == x;
                assert(somes(s) == r.push(y));
                assert(j == r.len());
                assert(s[s.len() - 1] == Some(x));
            }
        },
        None => {
            lemma_somes_member(s.drop_last(), x);
            let i = choose|i: int| 0 <= i < s.drop_last().len() && s.drop_last()[i] == Some(x);
            assert(s[i] == Some(x));
        },
    }
}

/// A match names an entry of the scan that is unprotected and matched by its
/// signature, which is the first that matches it.
proof fn lemma_picks_member(entries: Seq<FileEntry>, sigs: Seq<Signature>, now: i64, x: (int, int))
    requires
        picks(entries, sigs, now).contains(x),
    ensures
        0 <= x.0 < entries.len(),
        0 <= x.1 < sigs.len(),
        pick_for(sigs, entries[x.0], now, x.0) == Some(x),
        !protected(entries[x.0].path@),
        x.1 == first_match(sigs, entries[x.0], now),
        rule_matches(sigs[x.1].rule, entries[x.0], now),
{
    let s = Seq::new(entries.len(), |i: int| pick_for(sigs, entries[i], now, i));
    lemma_somes_member(s, x);
    let i = choose|i: int| 0 <= i < s.len() && s[i] == Some(x);
    lemma_first_match_bound(sigs, entries[i], now);
}

proof fn lemma_prune_member(entries: Seq<FileEntry>, s: Seq<(int, int)>, x: (int, int), st: PathStyle)
    requires
        prune(entries, s, st).0.contains(x),
    ensures
        s.contains(x),
    decreases s.len(),
{
    let prev = prune(entries, s.drop_last(), st);
    if prev.0.contains(x) {
        lemma_prune_member(entries, s.drop_last(), x, st);
        let i = choose|i: int| 0 <= i < s.drop_last().len() && s.drop_last()[i] == x;
        assert(s[i] == x);
    } else {
        let j = choose|j: int| 0 <= j < prune(entries, s, st).0.len() && prune(entries, s, st).0[j] == x;
        assert(prune(entries, s, st).0 == prev.0.push(s.last()));
        assert(j == prev.0.len());
        assert(s[s.len() - 1] == x);
    }
}

proof fn lemma_sized_member(entries: Seq<FileEntry>, acc: Seq<(int, int)>, t: (int, int, nat), st: PathStyle)
    requires
        sized(entries, acc, st).contains(t),
    ensures
        acc.contains((t.0, t.1)),
        t.2 == pick_size(entries, t.0, st),
        t.2 > 0,
    decreases acc.len(),
{
    let prev = sized(entries, acc.drop_last(), st);
    if prev.contains(t) {
        lemma_sized_member(entries, acc.drop_last(), t, st);
        let i = choose|i: int| 0 <= i < acc.drop_last().len() && acc.drop_last()[i] == (t.0, t.1);
        assert(acc[i] == (t.0, t.1));
    } else {
        let j = choose|j: int| 0 <= j < sized(entries, acc, st).len() && sized(entries, acc, st)[j] == t;
        let p = acc.last();
        assert(sized(entries, acc, st) == prev.push((p.0, p.1, pick_size(entries, p.0, st))));
        assert(j == prev.len());
        assert(acc[acc.len() - 1] == (t.0, t.1));
    }
}

proof fn lemma_sort_member<T>(s: Seq<T>, before: spec_fn(T, T) -> bool, x: T)
    requires
        stable_sort(s, before).contains(x),
    ensures
        s.contains(x),
{
    broadcast use vstd::seq_lib::group_to_multiset_ensures;
    crate::sorting::lemma_sort_contents(s, before);
    assert(stable_sort(s, before).to_multiset().count(x) > 0);
}

/// Every suggestion of an analysis names an unprotected entry of the scan,
/// matched by its first matching signature, with the entry's positive size.
pub proof fn lemma_analysis_member(entries: Seq<FileEntry>, sigs: Seq<Signature>, now: i64, t: (int, int, nat), st: PathStyle)
    requires
        analysis(entries, sigs, now, st).contains(t),
    ensures
        0 <= t.0 < entries.len(),
        0 <= t.1 < sigs.len(),
        !protected(entries[t.0].path@),
        t.1 == first_match(sigs, entries[t.0], now),
        rule_matches(sigs[t.1].rule, entries[t.0], now),
        t.2 == pick_size(entries, t.0, st),
        t.2 > 0,
{
    let sorted = stable_sort(picks(entries, sigs, now), by_length(entries));
    let acc = accepted(entries, sigs, now, st);
    lemma_sort_member(sized(entries, acc, st), by_size(entries, st), t);
    lemma_sized_member(entries, acc, t, st);
    lemma_prune_member(entries, sorted, (t.0, t.1), st);
    lemma_sort_member(picks(entries, sigs, now), by_length(entries), (t.0, t.1));
    lemma_picks_member(entries, sigs, now, (t.0, t.1));
}

proof fn lemma_sizes_total_push(s: Seq<(int, int, nat)>, x: (int, int, nat))
    ensures
        sizes_total(s.push(x)) == sizes_total(s) + x.2,
{
    assert(s.push(x).drop_last() =~= s);
}

/// The sizes of one more accepted match.
proof fn lemma_sized_step(entries: Seq<FileEntry>, acc: Seq<(int, int)>, k: int, st: PathStyle)
    requires
        0 <= k < acc.len(),
    ensures
        sizes_total(sized(entries, acc.take(k + 1), st)) == sizes_total(sized(entries, acc.take(k), st))
            + if pick_size(entries, acc[k].0, st) > 0 { pick_size(entries, acc[k].0, st) } else { 0 },
{
    assert(acc.take(k + 1).drop_last() =~= acc.take(k));
    let prev = sized(entries, acc.take(k), st);
    let p = acc[k];
    lemma_sizes_total_push(prev, (p.0, p.1, pick_size(entries, p.0, st)));
}

proof fn lemma_sized_prefix(entries: Seq<FileEntry>, acc: Seq<(int, int)>, k: int, st: PathStyle)
    requires
        0 <= k <= acc.len(),
    ensures
        sizes_total(sized(entries, acc.take(k), st)) <= sizes_total(sized(entries, acc, st)),
    decreases acc.len() - k,
{
    if k < acc.len() {
        lemma_sized_step(entries, acc, k, st);
        lemma_sized_prefix(entries, acc, k + 1, st);
    } else {
        assert(acc.take(k) =~= acc);
    }
}

/// Size the accepted matches, dropping empty ones; `None` when a size or the
/// running total does not fit in `u64`.
fn size_accepted(entries: &[FileEntry], acc: &Vec<(usize, usize)>, st: PathStyle) -> (r: Option<(Vec<(usize, usize, u64)>, u64)>)
    requires
        forall|j: int| 0 <= j < acc@.len() ==> (#[trigger] acc@[j]).0 < entries@.len(),
    ensures
        match r {
            Some((t, total)) => {
                &&& triple_views(t@) == sized(entries@, pair_views(acc@), st)
                &&& total == sizes_total(sized(entries@, pair_views(acc@), st))
                &&& forall|j: int| 0 <= j < t@.len() ==> (#[trigger] t@[j]).0 < entries@.len()
            },
            None => sizes_total(sized(entries@, pair_views(acc@), st)) > u64::MAX,
        },
{
    let ghost av = pair_views(acc@);
    let mut trips: Vec<(usize, usize, u64)> = Vec::new();
    let mut total: u64 = 0;
    let mut j: usize = 0;
    assert(av.take(0) =~= Seq::<(int, int)>::empty());
    assert(triple_views(trips@) =~= Seq::<(int, int, nat)>::empty());
    while j < acc.len()
        invariant
            j <= acc@.len(),
            av == pair_views(acc@),
            forall|q: int| 0 <= q < acc@.len() ==> (#[trigger] acc@[q]).0 < entries@.len(),
            forall|q: int| 0 <= q < trips@.len() ==> (#[trigger] trips@[q]).0 < entries@.len(),
            triple_views(trips@) == sized(entries@, av.take(j as int), st),
            total == sizes_total(sized(entries@, av.take(j as int), st)),
        decreases acc.len() - j,
    {
        let (i, k) = acc[j];
        let e = &entries[i];
        assert(av.take(j + 1).drop_last() =~= av.take(j as int));
        assert(av.take(j + 1).last() == (i as int, k as int));
        proof {
            lemma_sized_step(entries@, av, j as int, st);
        }
        let size: u64 = if e.is_dir {
            let pc = path_comps(&chars_of(e.path.as_str()), st);
            match dir_bytes(entries, &pc, st) {
                Some(n) => n,
                None => {
                    proof {
                        lemma_sized_prefix(entries@, av, j + 1, st);
                    }
                    return None;
                },
            }
        } else {
            e.size
        };
        assert(size == pick_size(entries@, i as int, st));
        if size > 0 {
            match total.checked_add(size) {
                Some(t) => {
                    let ghost old_t = triple_views(trips@);
                    proof {
                        lemma_sizes_total_push(old_t, (i as int, k as int, size as nat));
                    }
                    total = t;
                    trips.push((i, k, size));
                    assert(triple_views(trips@) =~= old_t.push((i as int, k as int, size as nat)));
                },
                None => {
                    proof {
                        lemma_sized_prefix(entries@, av, j + 1, st);
                    }
                    return None;
                },
            }
        }
        j += 1;
    }
    assert(av.take(j as int) =~= av);
    Some((trips, total))
}

/// Whether suggestion `x` goes before `y`: larger first, then by path.
fn size_before(entries: &[FileEntry], x: (usize, usize, u64), y: (usize, usize, u64), st: PathStyle) -> (r: bool)
    requires
        x.0 < entries@.len(),
        y.0 < entries@.len(),
    ensures
        r == by_size(entries@, st)((x.0 as int, x.1 as int, x.2 as nat), (y.0 as int, y.1 as int, y.2 as nat)),
{
    x.2 > y.2 || (x.2 == y.2 && path_lt_exec(entries[x.0].path.as_str(), entries[y.0].path.as_str(), st))
}

/// Stable insertion sort of the sized suggestions, largest first.
fn sort_by_size(entries: &[FileEntry], ts: &Vec<(usize, usize, u64)>, st: PathStyle) -> (r: Vec<(usize, usize, u64)>)
    requires
        forall|j: int| 0 <= j < ts@.len() ==> (#[trigger] ts@[j]).0 < entries@.len(),
    ensures
        triple_views(r@) == stable_sort(triple_views(ts@), by_size(entries@, st)),
{
    let ghost before = by_size(entries@, st);
    let mut r: Vec<(usize, usize, u64)> = Vec::new();
    let mut i: usize = 0;
    assert(triple_views(ts@).take(0) =~= Seq::<(int, int, nat)>::empty());
    assert(triple_views(r@) =~= Seq::<(int, int, nat)>::empty());
    while i < ts.len()
        invariant
            i <= ts@.len(),
            before == by_size(entries@, st),
            forall|j: int| 0 <= j < ts@.len() ==> (#[trigger] ts@[j]).0 < entries@.len(),
            forall|j: int| 0 <= j < r@.len() ==> (#[trigger] r@[j]).0 < entries@.len(),
            triple_views(r@) == stable_sort(triple_views(ts@).take(i as int), before),
        decreases ts.len() - i,
    {
        let x = ts[i];
        let ghost xv = (x.0 as int, x.1 as int, x.2 as nat);
        let mut p = r.len();
        while p > 0 && size_before(entries, x, r[p - 1], st)
            invariant
                p <= r@.len(),
                x.0 < entries@.len(),
                xv == (x.0 as int, x.1 as int, x.2 as nat),
                forall|j: int| 0 <= j < r@.len() ==> (#[trigger] r@[j]).0 < entries@.len(),
                forall|q: int| p <= q < r@.len() ==> before(xv, #[trigger] triple_views(r@)[q]),
                before == by_size(entries@, st),
            decreases p,
        {
            assert(triple_views(r@)[p - 1] == (r@[p - 1].0 as int, r@[p - 1].1 as int, r@[p - 1].2 as nat));
            p -= 1;
        }
        proof {
            if p > 0 {
                assert(triple_views(r@)[p - 1] == (r@[p - 1].0 as int, r@[p - 1].1 as int, r@[p - 1].2 as nat));
                assert(!before(xv, triple_views(r@)[p - 1]));
            }
            lemma_insert_at(triple_views(r@), xv, before, p as int);
        }
        let ghost old_r = triple_views(r@);
        r.insert(p, x);
        assert(triple_views(r@) =~= old_r.insert(p as int, xv));
        assert(triple_views(ts@).take(i + 1).drop_last() =~= triple_views(ts@).take(i as int));
        assert(triple_views(ts@).take(i + 1).last() == xv);
        i += 1;
    }
    assert(triple_views(ts@).take(i as int) =~= triple_views(ts@));
    r
}

impl Analyzer {
    /// Analyze a full list of scanned entries, or `None` when the sizes do not
    /// fit in `u64`.
    ///
    /// `now_unix` drives age-based rules. Suggestions are de-duplicated so that
    /// when a whole directory is recommended, individual files beneath it are
    /// not also listed.
    pub fn analyze_checked(&self, entries: &[FileEntry], now_unix: i64, st: PathStyle) -> (r: Option<AnalysisReport>)
        ensures
            r is Some <==> analysis_fits(entries@, self.sigs(), now_unix, st),
            match r {
                Some(rep) => report_of(rep, entries@, self.sigs(), now_unix, st),
                None => true,
            },
    {
        let ghost sigs = self.sigs();
        let ghost es = entries@;
        let ms = par_picks(self, entries, now_unix);
        assert forall|j: int| 0 <= j < ms@.len() implies (#[trigger] ms@[j]).0 < entries@.len() by {
            assert(pair_views(ms@)[j] == (ms@[j].0 as int, ms@[j].1 as int));
            assert(picks(es, sigs, now_unix).contains(pair_views(ms@)[j]));
            lemma_picks_member(es, sigs, now_unix, pair_views(ms@)[j]);
        }
        let sorted = sort_by_length(entries, &ms);
        let acc = prune_exec(entries, &sorted, st);
        assert(pair_views(acc@) == accepted(es, sigs, now_unix, st));
        match size_accepted(entries, &acc, st) {
            None => None,
            Some((trips, total)) => {
                let ordered = sort_by_size(entries, &trips, st);
                let ghost a = analysis(es, sigs, now_unix, st);
                assert(triple_views(ordered@) == a);
                let mut sugs: Vec<Suggestion> = Vec::new();
                let mut j: usize = 0;
                while j < ordered.len()
                    invariant
                        j <= ordered@.len(),
                        triple_views(ordered@) == a,
                        a == analysis(es, sigs, now_unix, st),
                        sigs == self.sigs(),
                        es == entries@,
                        sugs@.len() == j,
                        forall|q: int| 0 <= q < j ==> describes(sugs@[q], es, sigs, #[trigger] a[q]),
                    decreases ordered.len() - j,
                {
                    let t = ordered[j];
                    assert(a[j as int] == (t.0 as int, t.1 as int, t.2 as nat));
                    proof {
                        lemma_analysis_member(es, sigs, now_unix, a[j as int], st);
                    }
                    let s = self.make_suggestion(&entries[t.0], t.1, t.2);
                    sugs.push(s);
                    j += 1;
                }
                Some(AnalysisReport { suggestions: sugs, total_reclaimable: total })
            },
        }
    }

    /// Analyze a full list of scanned entries.
    ///
    /// `now_unix` drives age-based rules. Suggestions are de-duplicated so that
    /// when a whole directory is recommended, individual files beneath it are
    /// not also listed.
    pub fn analyze(&self, entries: &[FileEntry], now_unix: i64, st: PathStyle) -> (r: AnalysisReport)
        requires
            analysis_fits(entries@, self.sigs(), now_unix, st),
        ensures
            report_of(r, entries@, self.sigs(), now_unix, st),
    {
        match self.analyze_checked(entries, now_unix, st) {
            Some(r) => r,
            None => AnalysisReport { suggestions: Vec::new(), total_reclaimable: 0 },
        }
    }
}

/// The rank of a confidence label: `safe` first, then `likely-safe`, then
/// anything else.
pub open spec fn label_rank(label: Seq<char>) -> u8 {
    if label == "safe"@ {
        0
    } else if label == "likely-safe"@ {
        1
    } else {
        2
    }
}

/// Rank a confidence label (lower is safer).
pub fn confidence_rank(label: &str) -> (r: u8)
    ensures
        r == label_rank(label@),
{
    let l = chars_of(label);
    if crate::text::chars_eq(&l, &chars_of("safe")) {
        0
    } else if crate::text::chars_eq(&l, &chars_of("likely-safe")) {
        1
    } else {
        2
    }
}

/// Bytes of the suggestions whose confidence ranks at or below `max_rank`.
pub open spec fn reclaimable(s: Seq<Suggestion>, max_rank: u8) -> nat
    decreases s.len(),
{
    if s.len() == 0 {
        0
    } else {
        reclaimable(s.drop_last(), max_rank) + if label_rank(s.last().confidence@) <= max_rank {
            s.last().size as nat
        } else {
            0
        }
    }
}

impl AnalysisReport {
    /// Total reclaimable bytes for suggestions at or below a confidence rank.
    pub fn reclaimable_up_to(&self, max: Confidence) -> (r: u64)
        requires
            reclaimable(self.suggestions@, crate::rules::confidence_rank(max)) <= u64::MAX,
        ensures
            r == reclaimable(self.suggestions@, crate::rules::confidence_rank(max)),
    {
        let m = max.rank();
        let ghost s = self.suggestions@;
        let mut total: u64 = 0;
        let mut j: usize = 0;
        assert(s.take(0) =~= Seq::<Suggestion>::empty());
        while j < self.suggestions.len()
            invariant
                j <= s.len(),
                s == self.suggestions@,
                m == crate::rules::confidence_rank(max),
                reclaimable(s, m) <= u64::MAX,
                total == reclaimable(s.take(j as int), m),
            decreases s.len() - j,
        {
            let sg = &self.suggestions[j];
            assert(s.take(j + 1).drop_last() =~= s.take(j as int));
            proof {
                lemma_reclaimable_prefix(s, j + 1, m);
            }
            if confidence_rank(sg.confidence.as_str()) <= m {
                total = total + sg.size;
            }
            j += 1;
        }
        assert(s.take(j as int) =~= s);
        total
    }
}

/// The positions of the suggestions whose confidence ranks at or below
/// `max_rank`, in order.
pub open spec fn selected_spec(s: Seq<Suggestion>, max_rank: u8) -> Seq<int>
    decreases s.len(),
{
    if s.len() == 0 {
        Seq::empty()
    } else {
        let prev = selected_spec(s.drop_last(), max_rank);
        if label_rank(s.last().confidence@) <= max_rank {
            prev.push(s.len() - 1)
        } else {
            prev
        }
    }
}

impl AnalysisReport {
    /// The positions of the suggestions at or below a confidence rank, in
    /// order: what a cleanup at that tier acts on.
    pub fn selected_up_to(&self, max: Confidence) -> (r: Vec<usize>)
        ensures
            r@.map_values(|j: usize| j as int) == selected_spec(self.suggestions@, crate::rules::confidence_rank(max)),
    {
        let m = max.rank();
        let ghost s = self.suggestions@;
        let mut out: Vec<usize> = Vec::new();
        let mut j: usize = 0;
        assert(s.take(0) =~= Seq::<Suggestion>::empty());
        assert(out@.map_values(|q: usize| q as int) =~= Seq::<int>::empty());
        while j < self.suggestions.len()
            invariant
                j <= s.len(),
                s == self.suggestions@,
                m == crate::rules::confidence_rank(max),
                out@.map_values(|q: usize| q as int) == selected_spec(s.take(j as int), m),
            decreases s.len() - j,
        {
            assert(s.take(j + 1).drop_last() =~= s.take(j as int));
            assert(s.take(j + 1).last() == s[j as int]);
            if confidence_rank(self.suggestions[j].confidence.as_str()) <= m {
                let ghost prev = out@.map_values(|q: usize| q as int);
                out.push(j);
                assert(out@.map_values(|q: usize| q as int) =~= prev.push(j as int));
            }
            j += 1;
        }
        assert(s.take(j as int) =~= s);
        out
    }
}

proof fn lemma_reclaimable_prefix(s: Seq<Suggestion>, k: int, m: u8)
    requires
        0 <= k <= s.len(),
    ensures
        reclaimable(s.take(k), m) <= reclaimable(s, m),
    decreases s.len() - k,
{
    if k < s.len() {
        assert(s.take(k + 1).drop_last() =~= s.take(k));
        lemma_reclaimable_prefix(s, k + 1, m);
    } else {
        assert(s.take(k) =~= s);
    }
}



/// Bytes of all suggestions.
pub open spec fn suggestions_total(s: Seq<Suggestion>) -> nat
    decreases s.len(),
{
    if s.len() == 0 {
        0
    } else {
        suggestions_total(s.drop_last()) + s.last().size as nat
    }
}

/// No suggestion names a protected path, and every suggestion reclaims some
/// bytes.
pub proof fn lemma_suggestions_safe_and_nonempty(
    r: AnalysisReport,
    entries: Seq<FileEntry>,
    sigs: Seq<Signature>,
    now: i64,
    j: int,
    st: PathStyle,
)
    requires
        report_of(r, entries, sigs, now, st),
        0 <= j < r.suggestions@.len(),
    ensures
        !protected(r.suggestions@[j].path@),
        r.suggestions@[j].size > 0,
{
    let a = analysis(entries, sigs, now, st);
    assert(describes(r.suggestions@[j], entries, sigs, a[j]));
    assert(a.contains(a[j]));
    lemma_analysis_member(entries, sigs, now, a[j], st);
}

/// The size-then-path order of suggestions is a strict weak order.
proof fn lemma_by_size_strict_weak(entries: Seq<FileEntry>, st: PathStyle)
    ensures
        crate::sorting::strict_weak(by_size(entries, st)),
{
    let before = by_size(entries, st);
    assert forall|a: (int, int, nat), b: (int, int, nat)| #[trigger] before(a, b) implies !before(b, a) by {
        lemma_path_lt_order(entries[a.0].path@, entries[b.0].path@, entries[b.0].path@, st);
    }
    assert forall|a: (int, int, nat), b: (int, int, nat), c: (int, int, nat)|
        !#[trigger] before(a, b) && !#[trigger] before(b, c) implies !before(a, c) by {
        lemma_path_lt_order(entries[a.0].path@, entries[b.0].path@, entries[c.0].path@, st);
    }
}

/// Suggestions come largest first, and equal sizes in path order.
pub proof fn lemma_suggestions_by_size(
    r: AnalysisReport,
    entries: Seq<FileEntry>,
    sigs: Seq<Signature>,
    now: i64,
    i: int,
    j: int,
    st: PathStyle,
)
    requires
        report_of(r, entries, sigs, now, st),
        0 <= i < j < r.suggestions@.len(),
    ensures
        r.suggestions@[i].size >= r.suggestions@[j].size,
        r.suggestions@[i].size > r.suggestions@[j].size || !path_lt(
            r.suggestions@[j].path@,
            r.suggestions@[i].path@,
            st,
        ),
{
    let a = analysis(entries, sigs, now, st);
    lemma_by_size_strict_weak(entries, st);
    crate::sorting::lemma_sort_rel_sorted(sized(entries, accepted(entries, sigs, now, st), st), by_size(entries, st));
    assert(!by_size(entries, st)(a[j], a[i]));
    let key = |t: (int, int, nat)| -(t.2 as int);
    let before = by_size(entries, st);
    assert(crate::sorting::refines_key(before, key));
    crate::sorting::lemma_sort_key_sorted(sized(entries, accepted(entries, sigs, now, st), st), before, key);
    assert(describes(r.suggestions@[i], entries, sigs, a[i]));
    assert(describes(r.suggestions@[j], entries, sigs, a[j]));
    assert(key(a[i]) <= key(a[j]));
}

proof fn lemma_insert_total(s: Seq<(int, int, nat)>, x: (int, int, nat), before: spec_fn((int, int, nat), (int, int, nat)) -> bool)
    ensures
        sizes_total(insert_sorted(s, x, before)) == sizes_total(s) + x.2,
    decreases s.len(),
{
    if s.len() == 0 {
        lemma_sizes_total_push(s, x);
        assert(seq![x] =~= s.push(x));
    } else if !before(x, s.last()) {
        lemma_sizes_total_push(s, x);
    } else {
        lemma_insert_total(s.drop_last(), x, before);
        lemma_sizes_total_push(insert_sorted(s.drop_last(), x, before), s.last());
    }
}

proof fn lemma_sort_total(s: Seq<(int, int, nat)>, before: spec_fn((int, int, nat), (int, int, nat)) -> bool)
    ensures
        sizes_total(stable_sort(s, before)) == sizes_total(s),
    decreases s.len(),
{
    if s.len() > 0 {
        lemma_sort_total(s.drop_last(), before);
        lemma_insert_total(stable_sort(s.drop_last(), before), s.last(), before);
    }
}

proof fn lemma_described_total(s: Seq<Suggestion>, entries: Seq<FileEntry>, sigs: Seq<Signature>, a: Seq<(int, int, nat)>)
    requires
        s.len() == a.len(),
        forall|j: int| 0 <= j < a.len() ==> describes(s[j], entries, sigs, #[trigger] a[j]),
    ensures
        suggestions_total(s) == sizes_total(a),
    decreases s.len(),
{
    if s.len() > 0 {
        assert(describes(s[s.len() - 1], entries, sigs, a[a.len() - 1]));
        lemma_described_total(s.drop_last(), entries, sigs, a.drop_last());
    }
}

/// The reported total is the sum of the listed suggestions' sizes.
pub proof fn lemma_total_is_sum(r: AnalysisReport, entries: Seq<FileEntry>, sigs: Seq<Signature>, now: i64, st: PathStyle)
    requires
        report_of(r, entries, sigs, now, st),
    ensures
        suggestions_total(r.suggestions@) == r.total_reclaimable,
{
    let a = analysis(entries, sigs, now, st);
    lemma_described_total(r.suggestions@, entries, sigs, a);
    lemma_sort_total(sized(entries, accepted(entries, sigs, now, st), st), by_size(entries, st));
}

/// Counting every confidence level counts every suggestion, and counting
/// fewer levels never counts more.
pub proof fn lemma_reclaimable_bounds(s: Seq<Suggestion>, m: u8, n: u8)
    requires
        m <= n,
    ensures
        reclaimable(s, m) <= reclaimable(s, n),
        reclaimable(s, n) <= suggestions_total(s),
        n >= 2 ==> reclaimable(s, n) == suggestions_total(s),
    decreases s.len(),
{
    if s.len() > 0 {
        lemma_reclaimable_bounds(s.drop_last(), m, n);
    }
}



proof fn lemma_insert_distinct<T>(s: Seq<T>, x: T, before: spec_fn(T, T) -> bool)
    requires
        s.no_duplicates(),
        !s.contains(x),
    ensures
        insert_sorted(s, x, before).no_duplicates(),
    decreases s.len(),
{
    broadcast use vstd::seq_lib::group_to_multiset_ensures;
    if s.len() == 0 {
    } else if !before(x, s.last()) {
    } else {
        let d = s.drop_last();
        assert(!d.contains(x));
        lemma_insert_distinct(d, x, before);
        let t = insert_sorted(d, x, before);
        crate::sorting::lemma_insert_contents(d, x, before);
        if t.contains(s.last()) {
            assert(t.to_multiset().count(s.last()) > 0);
            assert(d.to_multiset().insert(x).count(s.last()) > 0);
            assert(d.contains(s.last()));
            let q = choose|q: int| 0 <= q < d.len() && d[q] == s.last();
            assert(s[q] == s[s.len() - 1]);
        }
        assert(insert_sorted(s, x, before) == t.push(s.last()));
    }
}

proof fn lemma_sort_distinct<T>(s: Seq<T>, before: spec_fn(T, T) -> bool)
    requires
        s.no_duplicates(),
    ensures
        stable_sort(s, before).no_duplicates(),
    decreases s.len(),
{
    broadcast use vstd::seq_lib::group_to_multiset_ensures;
    if s.len() > 0 {
        let d = s.drop_last();
        lemma_sort_distinct(d, before);
        crate::sorting::lemma_sort_contents(d, before);
        if stable_sort(d, before).contains(s.last()) {
            assert(stable_sort(d, before).to_multiset().count(s.last()) > 0);
            assert(d.contains(s.last()));
            let q = choose|q: int| 0 <= q < d.len() && d[q] == s.last();
            assert(s[q] == s[s.len() - 1]);
        }
        lemma_insert_distinct(stable_sort(d, before), s.last(), before);
    }
}

/// Matches come in scan order, one per entry.
proof fn lemma_picks_distinct(entries: Seq<FileEntry>, sigs: Seq<Signature>, now: i64)
    ensures
        picks(entries, sigs, now).no_duplicates(),
{
    let s = Seq::new(entries.len(), |i: int| pick_for(sigs, entries[i], now, i));
    lemma_somes_increasing(s);
}

proof fn lemma_somes_increasing(s: Seq<Option<(int, int)>>)
    requires
        forall|i: int| 0 <= i < s.len() && #[trigger] s[i] is Some ==> s[i].unwrap().0 == i,
    ensures
        forall|a: int, b: int| 0 <= a < b < somes(s).len() ==> somes(s)[a].0 < somes(s)[b].0,
        forall|a: int| 0 <= a < somes(s).len() ==> 0 <= #[trigger] somes(s)[a].0 < s.len(),
        somes(s).no_duplicates(),
    decreases s.len(),
{
    if s.len() > 0 {
        let d = s.drop_last();
        assert forall|i: int| 0 <= i < d.len() && #[trigger] d[i] is Some implies d[i].unwrap().0 == i by {
            assert(s[i] is Some);
        }
        lemma_somes_increasing(d);
    }
}

/// The directories accepted by a prefix of the walk are still accepted
/// later.
proof fn lemma_prune_dirs_grow(entries: Seq<FileEntry>, s: Seq<(int, int)>, q: int, q2: int, d: Seq<Seq<char>>, st: PathStyle)
    requires
        0 <= q <= q2 <= s.len(),
        prune(entries, s.take(q), st).1.contains(d),
    ensures
        prune(entries, s.take(q2), st).1.contains(d),
    decreases q2 - q,
{
    if q < q2 {
        let prev = prune(entries, s.take(q), st);
        assert(s.take(q + 1).drop_last() =~= s.take(q));
        let w = choose|w: int| 0 <= w < prev.1.len() && prev.1[w] == d;
        let next = prune(entries, s.take(q + 1), st);
        assert(next.1[w] == d);
        lemma_prune_dirs_grow(entries, s, q + 1, q2, d, st);
    }
}

/// An accepted match of a walk without repeats was accepted at its own step.
proof fn lemma_prune_accepted_at(entries: Seq<FileEntry>, s: Seq<(int, int)>, p: int, st: PathStyle)
    requires
        s.no_duplicates(),
        0 <= p < s.len(),
        prune(entries, s, st).0.contains(s[p]),
    ensures
        !beneath_any(prune(entries, s.take(p), st).1, comps(entries[s[p].0].path@, st)),
        entries[s[p].0].is_dir ==> prune(entries, s.take(p + 1), st).1.contains(comps(entries[s[p].0].path@, st)),
    decreases s.len(),
{
    let d = s.drop_last();
    assert(s.take(p + 1).drop_last() =~= s.take(p));
    assert(s.take(p + 1).last() == s[p]);
    if p == s.len() - 1 {
        assert(d =~= s.take(p));
        if prune(entries, d, st).0.contains(s[p]) {
            lemma_prune_member(entries, d, s[p], st);
            let q = choose|q: int| 0 <= q < d.len() && d[q] == s[p];
            assert(s[q] == s[p]);
        }
        assert(s.take(p + 1) =~= s);
        let pc = comps(entries[s[p].0].path@, st);
        let next = prune(entries, s, st);
        if entries[s[p].0].is_dir {
            assert(next.1[next.1.len() - 1] == pc);
        }
    } else {
        if s.last() == s[p] {
            assert(s[s.len() - 1] == s[p]);
        }
        let prev = prune(entries, d, st);
        if !prev.0.contains(s[p]) {
            let j = choose|j: int| 0 <= j < prune(entries, s, st).0.len() && prune(entries, s, st).0[j] == s[p];
            assert(prune(entries, s, st).0 == prev.0.push(s.last()));
            assert(j == prev.0.len());
        }
        assert(d.take(p) =~= s.take(p));
        assert(d.take(p + 1) =~= s.take(p + 1));
        assert(d[p] == s[p]);
        lemma_prune_accepted_at(entries, d, p, st);
    }
}

/// No suggestion lies beneath a suggested directory whose path is shorter:
/// when a whole directory is recommended, what lies beneath it is not listed
/// again.
pub proof fn lemma_no_suggestion_beneath_suggested_dir(
    r: AnalysisReport,
    entries: Seq<FileEntry>,
    sigs: Seq<Signature>,
    now: i64,
    i: int,
    j: int,
    st: PathStyle,
)
    requires
        report_of(r, entries, sigs, now, st),
        0 <= i < r.suggestions@.len(),
        0 <= j < r.suggestions@.len(),
        r.suggestions@[i].is_dir,
        path_bytes(r.suggestions@[i].path@) < path_bytes(r.suggestions@[j].path@),
    ensures
        !comps_prefix(comps(r.suggestions@[i].path@, st), comps(r.suggestions@[j].path@, st)),
{
    broadcast use vstd::seq_lib::group_to_multiset_ensures;
    let a = analysis(entries, sigs, now, st);
    let s = stable_sort(picks(entries, sigs, now), by_length(entries));
    let acc = prune(entries, s, st).0;
    assert(describes(r.suggestions@[i], entries, sigs, a[i]));
    assert(describes(r.suggestions@[j], entries, sigs, a[j]));
    assert(a.contains(a[i]));
    assert(a.contains(a[j]));
    lemma_analysis_member(entries, sigs, now, a[i], st);
    lemma_analysis_member(entries, sigs, now, a[j], st);
    let x = (a[i].0, a[i].1);
    let y = (a[j].0, a[j].1);
    lemma_sort_member(sized(entries, acc, st), by_size(entries, st), a[i]);
    lemma_sort_member(sized(entries, acc, st), by_size(entries, st), a[j]);
    lemma_sized_member(entries, acc, a[i], st);
    lemma_sized_member(entries, acc, a[j], st);
    lemma_prune_member(entries, s, x, st);
    lemma_prune_member(entries, s, y, st);
    let pa = choose|q: int| 0 <= q < s.len() && s[q] == x;
    let pb = choose|q: int| 0 <= q < s.len() && s[q] == y;
    let key = |t: (int, int)| path_bytes(entries[t.0].path@);
    assert(crate::sorting::refines_key(by_length(entries), key));
    crate::sorting::lemma_sort_key_sorted(picks(entries, sigs, now), by_length(entries), key);
    assert(key(x) < key(y));
    if pb <= pa {
        assert(key(s[pb]) <= key(s[pa]));
    }
    lemma_picks_distinct(entries, sigs, now);
    lemma_sort_distinct(picks(entries, sigs, now), by_length(entries));
    lemma_prune_accepted_at(entries, s, pa, st);
    lemma_prune_accepted_at(entries, s, pb, st);
    let da = comps(entries[x.0].path@, st);
    let db = comps(entries[y.0].path@, st);
    lemma_prune_dirs_grow(entries, s, pa + 1, pb, da, st);
    if comps_prefix(da, db) {
        let dirs = prune(entries, s.take(pb), st).1;
        let w = choose|w: int| 0 <= w < dirs.len() && dirs[w] == da;
        assert(comps_prefix(dirs[w], db));
        assert(beneath_any(dirs, db));
    }
}



proof fn lemma_somes_contains<T>(s: Seq<Option<T>>, i: int)
    requires
        0 <= i < s.len(),
        s[i] is Some,
    ensures
        somes(s).contains(s[i].unwrap()),
    decreases s.len(),
{
    let d = s.drop_last();
    if i == s.len() - 1 {
        assert(somes(s) == somes(d).push(s[i].unwrap()));
        assert(somes(s)[somes(d).len() as int] == s[i].unwrap());
    } else {
        assert(d[i] == s[i]);
        lemma_somes_contains(d, i);
        let q = choose|q: int| 0 <= q < somes(d).len() && somes(d)[q] == s[i].unwrap();
        match s.last() {
            Some(y) => {
                assert(somes(s) == somes(d).push(y));
                assert(somes(s)[q] == s[i].unwrap());
            },
            None => {},
        }
    }
}

proof fn lemma_sort_contains<T>(s: Seq<T>, before: spec_fn(T, T) -> bool, x: T)
    requires
        s.contains(x),
    ensures
        stable_sort(s, before).contains(x),
{
    broadcast use vstd::seq_lib::group_to_multiset_ensures;
    crate::sorting::lemma_sort_contents(s, before);
    assert(s.to_multiset().count(x) > 0);
}

/// Every match of the walk is accepted, or lies beneath an accepted
/// directory.
proof fn lemma_prune_covers(entries: Seq<FileEntry>, s: Seq<(int, int)>, x: (int, int), st: PathStyle)
    requires
        s.contains(x),
    ensures
        prune(entries, s, st).0.contains(x) || beneath_any(prune(entries, s, st).1, comps(entries[x.0].path@, st)),
    decreases s.len(),
{
    let d = s.drop_last();
    let prev = prune(entries, d, st);
    let next = prune(entries, s, st);
    let pc = comps(entries[x.0].path@, st);
    if x == s.last() {
        if !beneath_any(prev.1, pc) {
            assert(next.0[prev.0.len() as int] == x);
        }
    } else {
        let q = choose|q: int| 0 <= q < s.len() && s[q] == x;
        assert(d[q] == x);
        lemma_prune_covers(entries, d, x, st);
        if prev.0.contains(x) {
            let w = choose|w: int| 0 <= w < prev.0.len() && prev.0[w] == x;
            assert(next.0[w] == x);
        } else {
            let w = choose|w: int| 0 <= w < prev.1.len() && comps_prefix(#[trigger] prev.1[w], pc);
            assert(next.1[w] == prev.1[w]);
        }
    }
}

/// Each directory collected by the walk is the path of an accepted
/// directory match.
proof fn lemma_prune_dir_source(entries: Seq<FileEntry>, s: Seq<(int, int)>, dc: Seq<Seq<char>>, st: PathStyle) -> (p: (int, int))
    requires
        prune(entries, s, st).1.contains(dc),
    ensures
        prune(entries, s, st).0.contains(p),
        entries[p.0].is_dir,
        comps(entries[p.0].path@, st) == dc,
    decreases s.len(),
{
    let d = s.drop_last();
    let prev = prune(entries, d, st);
    let next = prune(entries, s, st);
    if prev.1.contains(dc) {
        let p = lemma_prune_dir_source(entries, d, dc, st);
        let w = choose|w: int| 0 <= w < prev.0.len() && prev.0[w] == p;
        assert(next.0[w] == p);
        p
    } else {
        let w = choose|w: int| 0 <= w < next.1.len() && next.1[w] == dc;
        assert(w == prev.1.len());
        assert(next.0[prev.0.len() as int] == s.last());
        s.last()
    }
}

proof fn lemma_sized_contains(entries: Seq<FileEntry>, acc: Seq<(int, int)>, p: (int, int), st: PathStyle)
    requires
        acc.contains(p),
        pick_size(entries, p.0, st) > 0,
    ensures
        sized(entries, acc, st).contains((p.0, p.1, pick_size(entries, p.0, st))),
    decreases acc.len(),
{
    let t = (p.0, p.1, pick_size(entries, p.0, st));
    let d = acc.drop_last();
    let prev = sized(entries, d, st);
    let q = acc.last();
    if p == q {
        assert(sized(entries, acc, st) == prev.push(t));
        assert(sized(entries, acc, st)[prev.len() as int] == t);
    } else {
        let i = choose|i: int| 0 <= i < acc.len() && acc[i] == p;
        assert(d[i] == p);
        lemma_sized_contains(entries, d, p, st);
        let w = choose|w: int| 0 <= w < prev.len() && prev[w] == t;
        if pick_size(entries, q.0, st) > 0 {
            assert(sized(entries, acc, st)[w] == t);
        }
    }
}

/// A file of positive size beneath a directory adds to its total.
proof fn lemma_dir_total_counts(es: Seq<FileEntry>, i: int, dc: Seq<Seq<char>>, st: PathStyle)
    requires
        0 <= i < es.len(),
        counts_toward(es[i], dc, st),
    ensures
        dir_total(es, dc, st) >= es[i].size > 0,
    decreases es.len(),
{
    if i < es.len() - 1 {
        assert(es.drop_last()[i] == es[i]);
        lemma_dir_total_counts(es.drop_last(), i, dc, st);
    }
}

/// A directory of positive total has a file beneath it.
proof fn lemma_dir_total_witness(es: Seq<FileEntry>, dc: Seq<Seq<char>>, st: PathStyle) -> (i: int)
    requires
        dir_total(es, dc, st) > 0,
    ensures
        0 <= i < es.len(),
        counts_toward(es[i], dc, st),
    decreases es.len(),
{
    if counts_toward(es.last(), dc, st) {
        es.len() - 1
    } else {
        let i = lemma_dir_total_witness(es.drop_last(), dc, st);
        assert(es.drop_last()[i] == es[i]);
        i
    }
}

/// Every unprotected entry that a signature matches and that would reclaim
/// some bytes is suggested itself, with its first matching signature and its
/// size, or lies beneath a suggested directory. This holds where no two
/// entries have the same path and no directory entry has an empty path.
pub proof fn lemma_matched_entries_covered(
    r: AnalysisReport,
    entries: Seq<FileEntry>,
    sigs: Seq<Signature>,
    now: i64,
    k: int,
    st: PathStyle,
)
    requires
        report_of(r, entries, sigs, now, st),
        forall|i: int, j: int|
            0 <= i < j < entries.len() ==> comps(#[trigger] entries[i].path@, st) != comps(
                #[trigger] entries[j].path@,
                st,
            ),
        forall|i: int| 0 <= i < entries.len() && #[trigger] entries[i].is_dir ==> comps(entries[i].path@, st).len() > 0,
        0 <= k < entries.len(),
        !protected(entries[k].path@),
        first_match(sigs, entries[k], now) >= 0,
        pick_size(entries, k, st) > 0,
    ensures
        exists|j: int|
            0 <= j < r.suggestions@.len() && (describes(
                #[trigger] r.suggestions@[j],
                entries,
                sigs,
                (k, first_match(sigs, entries[k], now), pick_size(entries, k, st)),
            ) || (r.suggestions@[j].is_dir && comps_prefix(
                comps(r.suggestions@[j].path@, st),
                comps(entries[k].path@, st),
            ))),
{
    let a = analysis(entries, sigs, now, st);
    let ps = picks(entries, sigs, now);
    let s = stable_sort(ps, by_length(entries));
    let acc = prune(entries, s, st).0;
    let x = (k, first_match(sigs, entries[k], now));
    let pc = comps(entries[k].path@, st);
    let opts = Seq::new(entries.len(), |i: int| pick_for(sigs, entries[i], now, i));
    lemma_somes_contains(opts, k);
    lemma_sort_contains(ps, by_length(entries), x);
    lemma_prune_covers(entries, s, x, st);
    if acc.contains(x) {
        let t = (k, x.1, pick_size(entries, k, st));
        lemma_sized_contains(entries, acc, x, st);
        lemma_sort_contains(sized(entries, acc, st), by_size(entries, st), t);
        let j = choose|j: int| 0 <= j < a.len() && a[j] == t;
        assert(describes(r.suggestions@[j], entries, sigs, a[j]));
    } else {
        let dirs = prune(entries, s, st).1;
        let w = choose|w: int| 0 <= w < dirs.len() && comps_prefix(#[trigger] dirs[w], pc);
        let dc = dirs[w];
        let p = lemma_prune_dir_source(entries, s, dc, st);
        lemma_prune_member(entries, s, p, st);
        lemma_sort_member(ps, by_length(entries), p);
        lemma_picks_member(entries, sigs, now, p);
        assert(dc.len() > 0);
        if entries[k].is_dir {
            let f = lemma_dir_total_witness(entries, pc, st);
            let fc = comps(entries[f].path@, st);
            assert(fc.take(dc.len() as int) =~= fc.take(pc.len() as int).take(dc.len() as int));
            assert(pc.take(dc.len() as int) == dc);
            assert(counts_toward(entries[f], dc, st));
            lemma_dir_total_counts(entries, f, dc, st);
        } else {
            if dc.len() == pc.len() {
                assert(pc =~= pc.take(pc.len() as int));
                if p.0 < k {
                    assert(comps(entries[p.0].path@, st) != comps(entries[k].path@, st));
                } else if k < p.0 {
                    assert(comps(entries[k].path@, st) != comps(entries[p.0].path@, st));
                }
            }
            assert(counts_toward(entries[k], dc, st));
            lemma_dir_total_counts(entries, k, dc, st);
        }
        let t = (p.0, p.1, pick_size(entries, p.0, st));
        lemma_sized_contains(entries, acc, p, st);
        lemma_sort_contains(sized(entries, acc, st), by_size(entries, st), t);
        let j = choose|j: int| 0 <= j < a.len() && a[j] == t;
        assert(describes(r.suggestions@[j], entries, sigs, a[j]));
        assert(r.suggestions@[j].is_dir && comps_prefix(comps(r.suggestions@[j].path@, st), pc));
    }
}

/// The scan's paths carry no redundant separators or `.` pieces: a path
/// that lies strictly beneath another is longer in bytes.
pub open spec fn lengths_follow_nesting(entries: Seq<FileEntry>, st: PathStyle) -> bool {
    forall|i: int, j: int|
        0 <= i < entries.len() && 0 <= j < entries.len() && comps_prefix(
            comps(#[trigger] entries[i].path@, st),
            comps(#[trigger] entries[j].path@, st),
        ) && comps(entries[i].path@, st).len() < comps(entries[j].path@, st).len() ==> path_bytes(
            entries[i].path@,
        ) < path_bytes(entries[j].path@)
}

/// No suggestion lies strictly beneath a suggested directory, for scans
/// whose paths carry no redundant separators or `.` pieces.
pub proof fn lemma_no_suggestion_strictly_beneath_suggested_dir(
    r: AnalysisReport,
    entries: Seq<FileEntry>,
    sigs: Seq<Signature>,
    now: i64,
    i: int,
    j: int,
    st: PathStyle,
)
    requires
        report_of(r, entries, sigs, now, st),
        lengths_follow_nesting(entries, st),
        0 <= i < r.suggestions@.len(),
        0 <= j < r.suggestions@.len(),
        r.suggestions@[i].is_dir,
    ensures
        comps_prefix(comps(r.suggestions@[i].path@, st), comps(r.suggestions@[j].path@, st)) ==> comps(
            r.suggestions@[i].path@,
            st,
        ) == comps(r.suggestions@[j].path@, st),
{
    let a = analysis(entries, sigs, now, st);
    let di = comps(r.suggestions@[i].path@, st);
    let dj = comps(r.suggestions@[j].path@, st);
    if comps_prefix(di, dj) && di != dj {
        assert(describes(r.suggestions@[i], entries, sigs, a[i]));
        assert(describes(r.suggestions@[j], entries, sigs, a[j]));
        assert(a.contains(a[i]));
        assert(a.contains(a[j]));
        lemma_analysis_member(entries, sigs, now, a[i], st);
        lemma_analysis_member(entries, sigs, now, a[j], st);
        if di.len() == dj.len() {
            assert(dj.take(di.len() as int) =~= dj);
        }
        assert(path_bytes(entries[a[i].0].path@) < path_bytes(entries[a[j].0].path@));
        lemma_no_suggestion_beneath_suggested_dir(r, entries, sigs, now, i, j, st);
    }
}

/// A suggestion with this label is cleaned at tier `max`: `safe` ones at
/// every tier, `likely-safe` ones from the likely-safe tier up, and every
/// suggestion at the review-needed tier.
pub open spec fn cleaned_at(label: Seq<char>, max: Confidence) -> bool {
    ||| label == "safe"@
    ||| (label == "likely-safe"@ && max != Confidence::Safe)
    ||| max == Confidence::ReviewNeeded
}

proof fn lemma_selected_bounds(s: Seq<Suggestion>, m: u8)
    ensures
        forall|q: int| 0 <= q < selected_spec(s, m).len() ==> 0 <= #[trigger] selected_spec(s, m)[q] < s.len(),
        forall|q1: int, q2: int|
            0 <= q1 < q2 < selected_spec(s, m).len() ==> #[trigger] selected_spec(s, m)[q1] < #[trigger] selected_spec(
                s,
                m,
            )[q2],
    decreases s.len(),
{
    if s.len() > 0 {
        let d = s.drop_last();
        lemma_selected_bounds(d, m);
        let prev = selected_spec(d, m);
        let cur = selected_spec(s, m);
        assert(cur == prev || cur == prev.push(s.len() - 1));
        assert forall|q: int| 0 <= q < cur.len() implies 0 <= #[trigger] cur[q] < s.len() by {
            if q < prev.len() {
                assert(cur[q] == prev[q]);
            }
        }
        assert forall|q1: int, q2: int| 0 <= q1 < q2 < cur.len() implies #[trigger] cur[q1] < #[trigger] cur[q2] by {
            assert(cur[q1] == prev[q1]);
            if q2 < prev.len() {
                assert(cur[q2] == prev[q2]);
            }
        }
    }
}

/// Cleaning up to a confidence tier selects, in order and once each, exactly
/// the positions of the suggestions whose label is cleaned at that tier: a
/// suggestion labelled at the tier itself is selected, and at the
/// review-needed tier every suggestion is.
pub proof fn lemma_selected_by_tier(s: Seq<Suggestion>, max: Confidence)
    ensures
        forall|q: int|
            0 <= q < selected_spec(s, crate::rules::confidence_rank(max)).len() ==> 0 <= #[trigger] selected_spec(
                s,
                crate::rules::confidence_rank(max),
            )[q] < s.len(),
        forall|q1: int, q2: int|
            0 <= q1 < q2 < selected_spec(s, crate::rules::confidence_rank(max)).len() ==> #[trigger] selected_spec(
                s,
                crate::rules::confidence_rank(max),
            )[q1] < #[trigger] selected_spec(s, crate::rules::confidence_rank(max))[q2],
        forall|j: int|
            0 <= j < s.len() ==> (selected_spec(s, crate::rules::confidence_rank(max)).contains(j) <==> cleaned_at(
                #[trigger] s[j].confidence@,
                max,
            )),
    decreases s.len(),
{
    let m = crate::rules::confidence_rank(max);
    lemma_selected_bounds(s, m);
    reveal_strlit("safe");
    reveal_strlit("likely-safe");
    if s.len() > 0 {
        let d = s.drop_last();
        lemma_selected_by_tier(d, max);
        lemma_selected_bounds(d, m);
        let prev = selected_spec(d, m);
        let cur = selected_spec(s, m);
        assert("safe"@ != "likely-safe"@) by {
            assert("safe"@.len() != "likely-safe"@.len());
        }
        assert forall|j: int| 0 <= j < s.len() implies (cur.contains(j) <==> cleaned_at(#[trigger] s[j].confidence@, max)) by {
            let l = s[j].confidence@;
            assert(cleaned_at(l, max) <==> label_rank(l) <= m);
            if j < s.len() - 1 {
                assert(d[j] == s[j]);
                if cur.contains(j) {
                    let q = choose|q: int| 0 <= q < cur.len() && cur[q] == j;
                    if q < prev.len() {
                        assert(cur[q] == prev[q]);
                    }
                }
                if prev.contains(j) {
                    let q = choose|q: int| 0 <= q < prev.len() && prev[q] == j;
                    assert(cur[q] == prev[q]);
                }
            } else {
                if cur.contains(j) {
                    let q = choose|q: int| 0 <= q < cur.len() && cur[q] == j;
                    if q < prev.len() {
                        assert(cur[q] == prev[q]);
                        assert(prev[q] < d.len());
                    }
                }
                if label_rank(l) <= m {
                    assert(cur[prev.len() as int] == j);
                }
            }
        }
    }
}

/// The total size of the suggestions at the given positions.
pub open spec fn sizes_at(s: Seq<Suggestion>, idx: Seq<int>) -> nat
    decreases idx.len(),
{
    if idx.len() == 0 {
        0
    } else {
        sizes_at(s, idx.drop_last()) + s[idx.last()].size as nat
    }
}

proof fn lemma_sizes_at_prefix(s: Seq<Suggestion>, d: Seq<Suggestion>, idx: Seq<int>)
    requires
        d.len() <= s.len(),
        forall|i: int| 0 <= i < d.len() ==> s[i] == d[i],
        forall|q: int| 0 <= q < idx.len() ==> 0 <= #[trigger] idx[q] < d.len(),
    ensures
        sizes_at(s, idx) == sizes_at(d, idx),
    decreases idx.len(),
{
    if idx.len() > 0 {
        assert(0 <= idx[idx.len() - 1] < d.len());
        lemma_sizes_at_prefix(s, d, idx.drop_last());
    }
}

/// The bytes a cleanup up to a tier reclaims are the sizes of exactly the
/// suggestions it selects.
pub proof fn lemma_reclaimable_is_selected_sizes(s: Seq<Suggestion>, max: Confidence)
    ensures
        reclaimable(s, crate::rules::confidence_rank(max)) == sizes_at(
            s,
            selected_spec(s, crate::rules::confidence_rank(max)),
        ),
    decreases s.len(),
{
    let m = crate::rules::confidence_rank(max);
    if s.len() > 0 {
        let d = s.drop_last();
        lemma_reclaimable_is_selected_sizes(d, max);
        lemma_selected_bounds(d, m);
        let prev = selected_spec(d, m);
        lemma_sizes_at_prefix(s, d, prev);
        if label_rank(s.last().confidence@) <= m {
            assert(prev.push(s.len() - 1).drop_last() =~= prev);
        }
    }
}

} // verus!
