//! The cleanup rule engine: signatures describing categories of reclaimable
//! files, and the matching primitives that detect them.
//!
//! Signatures are data. Matching is case-insensitive and treats `/` and `\`
//! alike, because the target platform's paths are.
use vstd::prelude::*;

use crate::model::FileEntry;
use crate::text::{
    after_last, after_last_vec, backslash_vec, backslashed, chars_eq, chars_of, contains_vec,
    ends_with_vec, has_infix, has_prefix, has_suffix, lower, lower_vec, normalize_vec, normalized,
    starts_with_vec, string_of, sub_vec, trim_end, trim_end_vec,
};

verus! {

/// How confident we are that a matched item is safe to reclaim.
#[derive(Debug, Clone, Copy, PartialEq, Eq, Structural)]
pub enum Confidence {
    /// Reinstallable/regenerable with no user impact (caches, temp files).
    Safe,
    /// Almost always safe, but with a plausible edge case (old installers).
    LikelySafe,
    /// Real reclaimable space, but the user should confirm (node_modules).
    ReviewNeeded,
}

pub open spec fn confidence_label(c: Confidence) -> Seq<char> {
    match c {
        Confidence::Safe => "safe"@,
        Confidence::LikelySafe => "likely-safe"@,
        Confidence::ReviewNeeded => "review-needed"@,
    }
}

pub open spec fn confidence_rank(c: Confidence) -> u8 {
    match c {
        Confidence::Safe => 0,
        Confidence::LikelySafe => 1,
        Confidence::ReviewNeeded => 2,
    }
}

impl Confidence {
    /// A stable lowercase label for display and JSON.
    pub fn label(self) -> (r: &'static str)
        ensures
            r@ == confidence_label(self),
    {
        match self {
            Confidence::Safe => "safe",
            Confidence::LikelySafe => "likely-safe",
            Confidence::ReviewNeeded => "review-needed",
        }
    }

    /// Ranking for sorting (safest first).
    pub fn rank(self) -> (r: u8)
        ensures
            r == confidence_rank(self),
    {
        match self {
            Confidence::Safe => 0,
            Confidence::LikelySafe => 1,
            Confidence::ReviewNeeded => 2,
        }
    }
}

/// How a signature detects matching paths.
#[derive(Debug, Clone, PartialEq, Eq)]
pub enum MatchRule {
    /// Match any directory whose final component equals `name`
    /// (case-insensitive), e.g. `node_modules`.
    DirName {
        /// The directory name to match.
        name: String,
    },
    /// Match any path containing `needle` (case-insensitive, `/` and `\`
    /// treated alike). Matches whole directories.
    PathContains {
        /// The substring to look for in the normalized path.
        needle: String,
    },
    /// Match files by wildcard `patterns` (e.g. `*.tmp`), optionally restricted
    /// to paths containing `within` and older than `min_age_days`.
    Glob {
        /// Wildcard patterns applied to the file name (supports a single `*`).
        patterns: Vec<String>,
        /// Optional path substring the file must be located within.
        within: Option<String>,
        /// Optional minimum age in days (requires a known modification time).
        min_age_days: Option<u32>,
    },
}

/// A single cleanup signature.
#[derive(Debug, Clone, PartialEq, Eq)]
pub struct Signature {
    /// Stable unique identifier (e.g. `npm-cache`).
    pub id: String,
    /// Human-readable title.
    pub title: String,
    /// Category grouping (e.g. `dev-cache`).
    pub category: String,
    /// Confidence that matched items are safe to reclaim.
    pub confidence: Confidence,
    /// A short explanation of what this is and why it is reclaimable.
    pub description: String,
    /// The detection rule.
    pub rule: MatchRule,
}

/// The character contents of a list of strings.
pub open spec fn string_views(v: Seq<String>) -> Seq<Seq<char>> {
    Seq::new(v.len(), |i: int| v[i]@)
}

pub open spec fn opt_view(o: Option<String>) -> Option<Seq<char>> {
    match o {
        Some(s) => Some(s@),
        None => None,
    }
}

/// The final component of a path, treating both separators alike and
/// ignoring trailing separators.
pub open spec fn last_comp(path: Seq<char>) -> Seq<char> {
    after_last(trim_end(backslashed(path), '\\'), '\\')
}

/// The index of the first `c` in `s`, or -1.
pub open spec fn first_index_of(s: Seq<char>, c: char) -> int
    decreases s.len(),
{
    if s.len() == 0 {
        -1
    } else {
        let k = first_index_of(s.drop_last(), c);
        if k >= 0 {
            k
        } else if s.last() == c {
            s.len() - 1
        } else {
            -1
        }
    }
}

/// Wildcard match of already-lowercased text against a pattern holding at
/// most one significant `*` (the first one).
pub open spec fn wildcard_raw(n: Seq<char>, p: Seq<char>) -> bool {
    let k = first_index_of(p, '*');
    if k < 0 {
        n == p
    } else {
        let prefix = p.take(k);
        let suffix = p.skip(k + 1);
        n.len() >= prefix.len() + suffix.len() && has_prefix(n, prefix) && has_suffix(n, suffix)
    }
}

/// Case-insensitive single-`*` wildcard match.
pub open spec fn wildcard_spec(name: Seq<char>, pattern: Seq<char>) -> bool {
    wildcard_raw(lower(name), lower(pattern))
}

/// `a.saturating_sub(b)` on `i64`.
pub open spec fn sat_sub(a: i64, b: i64) -> int {
    let d = a - b;
    if d > i64::MAX {
        i64::MAX as int
    } else if d < i64::MIN {
        i64::MIN as int
    } else {
        d
    }
}

/// The age gate of a glob: no minimum age, or a known modification time at
/// least `days` whole days before `now`.
pub open spec fn age_ok(min_age_days: Option<u32>, modified: Option<i64>, now: i64) -> bool {
    match min_age_days {
        None => true,
        Some(days) => match modified {
            None => false,
            Some(m) => sat_sub(now, m) >= days * 86400,
        },
    }
}

/// The location gate of a glob.
pub open spec fn within_ok(within: Option<Seq<char>>, path: Seq<char>) -> bool {
    match within {
        None => true,
        Some(w) => has_infix(normalized(path), normalized(w)),
    }
}

/// Some pattern matches the file name.
pub open spec fn any_pattern(patterns: Seq<Seq<char>>, name: Seq<char>) -> bool {
    exists|i: int| 0 <= i < patterns.len() && wildcard_spec(name, #[trigger] patterns[i])
}

/// A file glob: never a directory, located within `within`, old enough, and
/// named by one of `patterns`.
pub open spec fn glob_matches(
    patterns: Seq<Seq<char>>,
    within: Option<Seq<char>>,
    min_age_days: Option<u32>,
    entry: FileEntry,
    now: i64,
) -> bool {
    &&& !entry.is_dir
    &&& within_ok(within, entry.path@)
    &&& age_ok(min_age_days, entry.modified, now)
    &&& any_pattern(patterns, last_comp(entry.path@))
}

pub open spec fn rule_matches(rule: MatchRule, entry: FileEntry, now: i64) -> bool {
    match rule {
        MatchRule::DirName { name } => entry.is_dir && lower(last_comp(entry.path@)) == lower(name@),
        MatchRule::PathContains { needle } => has_infix(
            normalized(entry.path@),
            normalized(needle@),
        ),
        MatchRule::Glob { patterns, within, min_age_days } => glob_matches(
            string_views(patterns@),
            opt_view(within),
            min_age_days,
            entry,
            now,
        ),
    }
}

pub open spec fn targets_dirs(rule: MatchRule) -> bool {
    rule is DirName || rule is PathContains
}

/// The final component of a path, using both separators.
pub fn last_component(path: &[char]) -> (r: Vec<char>)
    ensures
        r@ == last_comp(path@),
{
    let b = backslash_vec(path);
    let t = trim_end_vec(&b, '\\');
    after_last_vec(&t, '\\')
}

/// Lowercase a string and unify path separators to `\`.
pub fn normalize(s: &str) -> (r: String)
    ensures
        r@ == normalized(s@),
{
    let c = chars_of(s);
    let n = normalize_vec(&c);
    string_of(&n)
}

/// ASCII case-insensitive equality.
pub fn eq_ignore_case(a: &str, b: &str) -> (r: bool)
    ensures
        r == (lower(a@) == lower(b@)),
{
    let la = lower_vec(&chars_of(a));
    let lb = lower_vec(&chars_of(b));
    chars_eq(&la, &lb)
}

proof fn lemma_first_index(s: Seq<char>, c: char)
    ensures
        -1 <= first_index_of(s, c) < s.len(),
        first_index_of(s, c) >= 0 ==> s[first_index_of(s, c)] == c,
    decreases s.len(),
{
    if s.len() > 0 {
        lemma_first_index(s.drop_last(), c);
    }
}

fn first_index_exec(s: &[char], c: char) -> (r: Option<usize>)
    ensures
        match r {
            Some(k) => first_index_of(s@, c) == k,
            None => first_index_of(s@, c) == -1,
        },
{
    let mut i: usize = 0;
    assert(s@.take(0) =~= Seq::<char>::empty());
    while i < s.len()
        invariant
            i <= s.len(),
            first_index_of(s@.take(i as int), c) == -1,
        decreases s.len() - i,
    {
        assert(s@.take(i + 1).drop_last() =~= s@.take(i as int));
        if s[i] == c {
            assert(first_index_of(s@.take(i + 1), c) == i);
            proof {
                lemma_first_index_prefix(s@, i + 1, c);
            }
            return Some(i);
        }
        i += 1;
    }
    assert(s@.take(s.len() as int) =~= s@);
    None
}

/// Once the first `c` lies within a prefix, the whole sequence agrees.
proof fn lemma_first_index_prefix(s: Seq<char>, k: int, c: char)
    requires
        0 <= k <= s.len(),
        first_index_of(s.take(k), c) >= 0,
    ensures
        first_index_of(s, c) == first_index_of(s.take(k), c),
    decreases s.len() - k,
{
    if k < s.len() {
        assert(s.take(k + 1).drop_last() =~= s.take(k));
        lemma_first_index_prefix(s, k + 1, c);
    } else {
        assert(s.take(k) =~= s);
    }
}

/// Wildcard match of already-lowercased text (single `*`).
pub fn wildcard_match_lower(name_lower: &[char], pattern_lower: &[char]) -> (r: bool)
    ensures
        r == wildcard_raw(name_lower@, pattern_lower@),
{
    match first_index_exec(pattern_lower, '*') {
        None => chars_eq(name_lower, pattern_lower),
        Some(k) => {
            proof {
                lemma_first_index(pattern_lower@, '*');
            }
            let prefix = sub_vec(pattern_lower, 0, k);
            let suffix = sub_vec(pattern_lower, k + 1, pattern_lower.len());
            assert(prefix@ =~= pattern_lower@.take(k as int));
            assert(suffix@ =~= pattern_lower@.skip(k + 1));
            name_lower.len() >= prefix.len() + suffix.len() && starts_with_vec(name_lower, &prefix)
                && ends_with_vec(name_lower, &suffix)
        }
    }
}

/// Minimal wildcard match supporting a single `*` (any run of characters).
/// Case-insensitive.
pub fn wildcard_match(name: &str, pattern: &str) -> (r: bool)
    ensures
        r == wildcard_spec(name@, pattern@),
{
    let n = lower_vec(&chars_of(name));
    let p = lower_vec(&chars_of(pattern));
    wildcard_match_lower(&n, &p)
}

/// `a.saturating_sub(b)` on `i64`.
pub fn saturating_sub_i64(a: i64, b: i64) -> (r: i64)
    ensures
        r == sat_sub(a, b),
{
    let d: i128 = a as i128 - b as i128;
    if d > i64::MAX as i128 {
        i64::MAX
    } else if d < i64::MIN as i128 {
        i64::MIN
    } else {
        d as i64
    }
}

pub fn age_ok_exec(min_age_days: Option<u32>, modified: Option<i64>, now: i64) -> (r: bool)
    ensures
        r == age_ok(min_age_days, modified, now),
{
    match min_age_days {
        None => true,
        Some(days) => match modified {
            None => false,
            Some(m) => {
                let age = saturating_sub_i64(now, m);
                !(age < (days as i64) * 86_400)
            },
        },
    }
}

/// Whether `name` matches one of the patterns.
fn any_pattern_exec(patterns: &Vec<String>, name: &str) -> (r: bool)
    ensures
        r == any_pattern(string_views(patterns@), name@),
{
    let mut i: usize = 0;
    while i < patterns.len()
        invariant
            i <= patterns.len(),
            forall|j: int| 0 <= j < i ==> !wildcard_spec(name@, #[trigger] string_views(patterns@)[j]),
        decreases patterns.len() - i,
    {
        if wildcard_match(name, patterns[i].as_str()) {
            assert(wildcard_spec(name@, string_views(patterns@)[i as int]));
            return true;
        }
        i += 1;
    }
    false
}

/// Evaluate a file glob against an entry.
pub fn glob_matches_exec(
    patterns: &Vec<String>,
    within: &Option<String>,
    min_age_days: Option<u32>,
    entry: &FileEntry,
    now_unix: i64,
) -> (r: bool)
    ensures
        r == glob_matches(string_views(patterns@), opt_view(*within), min_age_days, *entry, now_unix),
{
    if entry.is_dir {
        return false;
    }
    let path = chars_of(entry.path.as_str());
    if let Some(w) = within {
        let np = normalize_vec(&path);
        let nw = normalize_vec(&chars_of(w.as_str()));
        if !contains_vec(&np, &nw) {
            return false;
        }
    }
    if !age_ok_exec(min_age_days, entry.modified, now_unix) {
        return false;
    }
    let name = string_of(&last_component(&path));
    any_pattern_exec(patterns, name.as_str())
}

impl MatchRule {
    /// Whether this rule targets directories (as opposed to individual files).
    pub fn targets_directories(&self) -> (r: bool)
        ensures
            r == targets_dirs(*self),
    {
        match self {
            MatchRule::DirName { .. } => true,
            MatchRule::PathContains { .. } => true,
            MatchRule::Glob { .. } => false,
        }
    }

    /// Evaluate the rule against a single scanned entry. `now_unix` is the
    /// current time; it is used only by age-restricted globs.
    pub fn matches(&self, entry: &FileEntry, now_unix: i64) -> (r: bool)
        ensures
            r == rule_matches(*self, *entry, now_unix),
    {
        match self {
            MatchRule::DirName { name } => {
                if !entry.is_dir {
                    return false;
                }
                let path = chars_of(entry.path.as_str());
                let last = string_of(&last_component(&path));
                eq_ignore_case(last.as_str(), name.as_str())
            },
            MatchRule::PathContains { needle } => {
                let np = normalize_vec(&chars_of(entry.path.as_str()));
                let nn = normalize_vec(&chars_of(needle.as_str()));
                contains_vec(&np, &nn)
            },
            MatchRule::Glob { patterns, within, min_age_days } => {
                glob_matches_exec(patterns, within, *min_age_days, entry, now_unix)
            },
        }
    }
}

/// A collection of signatures.
#[derive(Debug, Clone, Default)]
pub struct SignatureSet {
    /// The loaded signatures.
    pub signatures: Vec<Signature>,
}

impl SignatureSet {
    /// Number of signatures loaded.
    pub fn len(&self) -> (r: usize)
        ensures
            r == self.signatures@.len(),
    {
        self.signatures.len()
    }

    /// Whether the set is empty.
    pub fn is_empty(&self) -> (r: bool)
        ensures
            r == (self.signatures@.len() == 0),
    {
        self.signatures.len() == 0
    }
}

/// A directory-name rule ignores the case of its name: two rules whose names
/// differ only in letter case match the same entries.
pub proof fn lemma_dir_name_ignores_case(n1: String, n2: String, e: FileEntry, now: i64)
    requires
        lower(n1@) == lower(n2@),
    ensures
        rule_matches(MatchRule::DirName { name: n1 }, e, now) == rule_matches(MatchRule::DirName { name: n2 }, e, now),
{
}

/// A directory-name rule matches every directory whose final component is
/// its name, and never a file.
pub proof fn lemma_dir_name_matches_its_directories(name: String, e: FileEntry, now: i64)
    ensures
        e.is_dir && last_comp(e.path@) == name@ ==> rule_matches(MatchRule::DirName { name }, e, now),
        !e.is_dir ==> !rule_matches(MatchRule::DirName { name }, e, now),
{
}

/// A path-fragment rule ignores the case and the separator style of its
/// fragment.
pub proof fn lemma_path_contains_ignores_case_and_separators(n1: String, n2: String, e: FileEntry, now: i64)
    requires
        normalized(n1@) == normalized(n2@),
    ensures
        rule_matches(MatchRule::PathContains { needle: n1 }, e, now) == rule_matches(
            MatchRule::PathContains { needle: n2 },
            e,
            now,
        ),
{
}

/// A file glob ignores the case of its patterns and the case and separator
/// style of its location fragment.
pub proof fn lemma_glob_ignores_case(
    p1: Vec<String>,
    p2: Vec<String>,
    w1: Option<String>,
    w2: Option<String>,
    age: Option<u32>,
    e: FileEntry,
    now: i64,
)
    requires
        p1@.len() == p2@.len(),
        forall|i: int| 0 <= i < p1@.len() ==> lower((#[trigger] p1@[i])@) == lower(p2@[i]@),
        w1 is Some <==> w2 is Some,
        w1 is Some ==> normalized(w1->0@) == normalized(w2->0@),
    ensures
        rule_matches(MatchRule::Glob { patterns: p1, within: w1, min_age_days: age }, e, now) == rule_matches(
            MatchRule::Glob { patterns: p2, within: w2, min_age_days: age },
            e,
            now,
        ),
{
    let s1 = string_views(p1@);
    let s2 = string_views(p2@);
    let name = last_comp(e.path@);
    assert forall|i: int| 0 <= i < s1.len() implies wildcard_spec(name, #[trigger] s1[i]) == wildcard_spec(name, s2[i]) by {
        assert(s1[i] == p1@[i]@ && s2[i] == p2@[i]@);
    }
    if any_pattern(s1, name) {
        let i = choose|i: int| 0 <= i < s1.len() && wildcard_spec(name, #[trigger] s1[i]);
        assert(wildcard_spec(name, s2[i]));
    }
    if any_pattern(s2, name) {
        let i = choose|i: int| 0 <= i < s2.len() && wildcard_spec(name, #[trigger] s2[i]);
        assert(wildcard_spec(name, s1[i]));
    }
}

/// A pattern `*suffix` (with no other `*`) matches exactly the names that
/// end with the suffix, ignoring case; a pattern without `*` matches exactly
/// the name itself, ignoring case.
pub proof fn lemma_wildcard_forms(name: Seq<char>, suffix: Seq<char>)
    requires
        forall|i: int| 0 <= i < suffix.len() ==> suffix[i] != '*',
    ensures
        wildcard_spec(name, seq!['*'] + suffix) <==> has_suffix(lower(name), lower(suffix)),
        wildcard_spec(name, suffix) <==> lower(name) == lower(suffix),
{
    let p = seq!['*'] + suffix;
    let lp = lower(p);
    let ls = lower(suffix);
    assert(lp[0] == '*');
    lemma_first_index_at_start(lp, '*');
    assert(lp.take(0) =~= Seq::<char>::empty());
    assert(lp.skip(1) =~= ls);
    assert(lower(name).take(0) =~= Seq::<char>::empty());
    assert forall|i: int| 0 <= i < ls.len() implies ls[i] != '*' by {
        assert(suffix[i] != '*');
    }
    lemma_first_index_none(ls, '*');
}

proof fn lemma_first_index_at_start(s: Seq<char>, c: char)
    requires
        s.len() > 0,
        s[0] == c,
    ensures
        first_index_of(s, c) == 0,
    decreases s.len(),
{
    if s.len() > 1 {
        lemma_first_index_at_start(s.drop_last(), c);
    } else {
        assert(first_index_of(s.drop_last(), c) == -1);
    }
}

proof fn lemma_first_index_none(s: Seq<char>, c: char)
    requires
        forall|i: int| 0 <= i < s.len() ==> s[i] != c,
    ensures
        first_index_of(s, c) == -1,
    decreases s.len(),
{
    if s.len() > 0 {
        lemma_first_index_none(s.drop_last(), c);
    }
}

} // verus!
