//! The file organizer: rule-driven tidying with a preview plan and an undo
//! log. Rules map files (by name pattern, location and age) to destination
//! folders; a plan lists the moves, and the log records performed moves so
//! they can be reversed.
use vstd::prelude::*;

use crate::format::{append_chars, decimal, digit_char, push_decimal};
use crate::model::{last_index_of, lemma_last_index_bounds, FileEntry};
use crate::paths::{
    comps, comps_eq, comps_prefix, comps_prefix_exec, cur_comp, is_sep, join, join_chars, lemma_join_name, lemma_join_prefix,
    path_comps, plain_name, relative_piece, views, PathStyle,
};
use crate::rules::{glob_matches, glob_matches_exec, last_comp, last_component, opt_view, string_views};
use crate::safety::{is_protected, protected};
use crate::text::{chars_of, string_of, sub_vec};
use crate::usage::key_views;

verus! {

/// A single organization rule.
#[derive(Debug, Clone, PartialEq, Eq)]
pub struct OrganizeRule {
    /// Stable identifier.
    pub id: String,
    /// Human-readable description.
    pub description: String,
    /// File-name wildcard patterns (e.g. `*.pdf`).
    pub patterns: Vec<String>,
    /// Optional path substring the file must be located within.
    pub within: Option<String>,
    /// Optional minimum age in days.
    pub min_age_days: Option<u32>,
    /// Destination subdirectory (relative to the organize base).
    pub dest_subdir: String,
}

/// A planned move of one file.
#[derive(Debug, Clone, PartialEq, Eq)]
pub struct Move {
    /// Source path.
    pub from: String,
    /// Destination path.
    pub to: String,
    /// The rule that produced this move.
    pub rule_id: String,
    /// File size in bytes.
    pub size: u64,
}

/// A preview of all moves an organize run would perform.
#[derive(Debug, Clone, Default)]
pub struct OrganizePlan {
    /// The planned moves.
    pub moves: Vec<Move>,
}

/// A record of moves actually performed, enabling exact undo.
#[derive(Debug, Clone, Default)]
pub struct OrganizeLog {
    /// Pairs of (original source, final destination).
    pub moves: Vec<(String, String)>,
}

/// The organizer: a set of rules applied to a scan.
#[derive(Debug, Clone)]
pub struct Organizer {
    rules: Vec<OrganizeRule>,
}

/// A move as plain values: source, destination, rule id, size.
pub type MoveView = (Seq<char>, Seq<char>, Seq<char>, u64);

pub open spec fn mview(m: Move) -> MoveView {
    (m.from@, m.to@, m.rule_id@, m.size)
}

pub open spec fn mviews(s: Seq<Move>) -> Seq<MoveView> {
    Seq::new(s.len(), |i: int| mview(s[i]))
}

/// A rule as plain values: id, description, patterns, within, minimum age,
/// destination subdirectory.
pub type RuleView = (Seq<char>, Seq<char>, Seq<Seq<char>>, Option<Seq<char>>, Option<u32>, Seq<char>);

pub open spec fn rview(r: OrganizeRule) -> RuleView {
    (r.id@, r.description@, string_views(r.patterns@), opt_view(r.within), r.min_age_days, r.dest_subdir@)
}

pub open spec fn rviews(s: Seq<OrganizeRule>) -> Seq<RuleView> {
    Seq::new(s.len(), |i: int| rview(s[i]))
}

/// Whether an organization rule applies to an entry.
pub open spec fn org_rule_matches(r: OrganizeRule, e: FileEntry, now: i64) -> bool {
    glob_matches(string_views(r.patterns@), opt_view(r.within), r.min_age_days, e, now)
}

/// Index of the first rule that applies, or -1.
pub open spec fn first_rule(rules: Seq<OrganizeRule>, e: FileEntry, now: i64) -> int
    decreases rules.len(),
{
    if rules.len() == 0 {
        -1
    } else {
        let k = first_rule(rules.drop_last(), e, now);
        if k >= 0 {
            k
        } else if org_rule_matches(rules.last(), e, now) {
            rules.len() - 1
        } else {
            -1
        }
    }
}

/// `name` with ` (n)` inserted before its extension (after the whole name
/// when it has no extension or only a leading dot).
pub open spec fn disambiguated(name: Seq<char>, n: nat) -> Seq<char> {
    let k = last_index_of(name, '.');
    if k > 0 {
        name.take(k) + " ("@ + decimal(n) + ")."@ + name.skip(k + 1)
    } else {
        name + " ("@ + decimal(n) + ")"@
    }
}

/// The `k`-th destination candidate for `name` in `dir`.
pub open spec fn candidate(dir: Seq<char>, name: Seq<char>, k: nat, st: PathStyle) -> Seq<char> {
    if k == 0 {
        join(dir, name, st)
    } else {
        join(dir, disambiguated(name, k), st)
    }
}

/// A destination is taken when it is the source itself, already claimed by
/// an earlier move, or an existing path.
pub open spec fn taken(
    c: Seq<Seq<char>>,
    from: Seq<Seq<char>>,
    claimed: Seq<Seq<Seq<char>>>,
    existing: Seq<Seq<Seq<char>>>,
) -> bool {
    ||| c == from
    ||| exists|j: int| 0 <= j < claimed.len() && claimed[j] == c
    ||| exists|j: int| 0 <= j < existing.len() && existing[j] == c
}

/// The first free candidate number at or after `k` (candidates are tried
/// while the counter stays below `u32::MAX`).
pub open spec fn first_free(
    dir: Seq<char>,
    name: Seq<char>,
    from: Seq<Seq<char>>,
    claimed: Seq<Seq<Seq<char>>>,
    existing: Seq<Seq<Seq<char>>>,
    k: nat,
    st: PathStyle,
) -> Option<nat>
    decreases u32::MAX - k,
{
    if k >= u32::MAX {
        None
    } else if !taken(comps(candidate(dir, name, k, st), st), from, claimed, existing) {
        Some(k)
    } else {
        first_free(dir, name, from, claimed, existing, k + 1, st)
    }
}

pub open spec fn path_comps_all(s: Seq<Seq<char>>, st: PathStyle) -> Seq<Seq<Seq<char>>> {
    Seq::new(s.len(), |j: int| comps(s[j], st))
}

pub open spec fn dest_comps(moves: Seq<MoveView>, st: PathStyle) -> Seq<Seq<Seq<char>>> {
    Seq::new(moves.len(), |j: int| comps(moves[j].1, st))
}

/// The move planned for one entry, given the destinations already claimed.
pub open spec fn plan_entry(
    rules: Seq<OrganizeRule>,
    e: FileEntry,
    base: Seq<char>,
    now: i64,
    existing: Seq<Seq<char>>,
    claimed: Seq<Seq<Seq<char>>>,
    st: PathStyle,
) -> Option<MoveView> {
    if e.is_dir || protected(e.path@) {
        None
    } else if comps_prefix(comps(base, st), comps(e.path@, st)) {
        None
    } else {
        let ri = first_rule(rules, e, now);
        if ri < 0 {
            None
        } else {
            let rule = rules[ri];
            let name = last_comp(e.path@);
            let dir = join(base, rule.dest_subdir@, st);
            match first_free(dir, name, comps(e.path@, st), claimed, path_comps_all(existing, st), 0, st) {
                None => None,
                Some(k) => {
                    let dest = candidate(dir, name, k, st);
                    if comps(dest, st) == comps(e.path@, st) {
                        None
                    } else {
                        Some((e.path@, dest, rule.id@, e.size))
                    }
                },
            }
        }
    }
}

/// The moves planned for a list of entries, in entry order.
pub open spec fn plan_moves(
    rules: Seq<OrganizeRule>,
    es: Seq<FileEntry>,
    base: Seq<char>,
    now: i64,
    existing: Seq<Seq<char>>,
    st: PathStyle,
) -> Seq<MoveView>
    decreases es.len(),
{
    if es.len() == 0 {
        Seq::empty()
    } else {
        let prev = plan_moves(rules, es.drop_last(), base, now, existing, st);
        match plan_entry(rules, es.last(), base, now, existing, dest_comps(prev, st), st) {
            Some(m) => prev.push(m),
            None => prev,
        }
    }
}

pub open spec fn default_rules() -> Seq<RuleView> {
    seq![
        ("documents"@, "Documents"@, seq!["*.pdf"@, "*.doc"@, "*.docx"@, "*.txt"@, "*.odt"@], None, Some(30u32), "Documents"@),
        ("spreadsheets"@, "Spreadsheets"@, seq!["*.xls"@, "*.xlsx"@, "*.csv"@, "*.ods"@], None, Some(30u32), "Documents/Spreadsheets"@),
        ("images"@, "Images"@, seq!["*.jpg"@, "*.jpeg"@, "*.png"@, "*.gif"@, "*.webp"@], None, Some(30u32), "Pictures"@),
        ("archives"@, "Archives"@, seq!["*.zip"@, "*.7z"@, "*.rar"@, "*.tar"@, "*.gz"@], None, Some(30u32), "Archives"@),
        ("installers"@, "Installers"@, seq!["*.msi"@, "*.exe"@], None, Some(60u32), "Installers"@),
        ("audio"@, "Audio"@, seq!["*.mp3"@, "*.flac"@, "*.wav"@, "*.m4a"@], None, Some(30u32), "Music"@),
        ("video"@, "Video"@, seq!["*.mp4"@, "*.mkv"@, "*.mov"@, "*.avi"@], None, Some(30u32), "Videos"@),
    ]
}

impl OrganizeRule {
    /// Whether this rule applies to an entry.
    pub fn matches(&self, entry: &FileEntry, now_unix: i64) -> (r: bool)
        ensures
            r == org_rule_matches(*self, *entry, now_unix),
    {
        glob_matches_exec(&self.patterns, &self.within, self.min_age_days, entry, now_unix)
    }
}

/// Insert ` (n)` before the extension of a file name.
pub fn disambiguate(name: &[char], n: u32) -> (r: Vec<char>)
    ensures
        r@ == disambiguated(name@, n as nat),
{
    let mut k: usize = name.len();
    assert(name@.take(k as int) =~= name@);
    while k > 0 && name[k - 1] != '.'
        invariant
            k <= name.len(),
            last_index_of(name@.take(k as int), '.') == last_index_of(name@, '.'),
        decreases k,
    {
        assert(name@.take(k as int).drop_last() =~= name@.take(k - 1));
        k -= 1;
    }
    let mut out: Vec<char>;
    if k > 1 {
        assert(name@.take(k as int).drop_last() =~= name@.take(k - 1));
        assert(last_index_of(name@, '.') == k - 1);
        out = sub_vec(name, 0, k - 1);
        append_chars(&mut out, " (");
        push_decimal(&mut out, n as u128);
        append_chars(&mut out, ").");
        let ext = sub_vec(name, k, name.len());
        let ghost before = out@;
        let mut i: usize = 0;
        while i < ext.len()
            invariant
                i <= ext.len(),
                out@ =~= before + ext@.take(i as int),
            decreases ext.len() - i,
        {
            out.push(ext[i]);
            i += 1;
        }
        assert(ext@.take(ext.len() as int) =~= ext@);
        assert(name@.take(k - 1) =~= sub_vec_spec(name@, k - 1));
    } else {
        assert(last_index_of(name@, '.') <= 0) by {
            if k == 1 {
                assert(name@.take(k as int).drop_last() =~= name@.take(0));
            }
        }
        out = sub_vec(name, 0, name.len());
        assert(out@ =~= name@);
        append_chars(&mut out, " (");
        push_decimal(&mut out, n as u128);
        append_chars(&mut out, ")");
    }
    out
}

spec fn sub_vec_spec(s: Seq<char>, k: int) -> Seq<char> {
    s.subrange(0, k)
}

/// Builds one rule.
fn make_rule(id: &str, desc: &str, pats: &[&str], sub: &str, age: Option<u32>) -> (r: OrganizeRule)
    ensures
        rview(r) == (id@, desc@, Seq::new(pats@.len(), |i: int| pats@[i]@), None::<Seq<char>>, age, sub@),
{
    let mut patterns: Vec<String> = Vec::new();
    let mut i: usize = 0;
    while i < pats.len()
        invariant
            i <= pats.len(),
            string_views(patterns@) =~= Seq::new(i as nat, |j: int| pats@[j]@),
        decreases pats.len() - i,
    {
        let ghost old_p = string_views(patterns@);
        let p = String::from_str(pats[i]);
        patterns.push(p);
        assert(string_views(patterns@) =~= old_p.push(pats@[i as int]@));
        i += 1;
    }
    OrganizeRule {
        id: String::from_str(id),
        description: String::from_str(desc),
        patterns,
        within: None,
        min_age_days: age,
        dest_subdir: String::from_str(sub),
    }
}

impl Organizer {
    /// The rules, in priority order.
    pub closed spec fn rules(&self) -> Seq<OrganizeRule> {
        self.rules@
    }

    /// Create an organizer from explicit rules.
    pub fn new(rules: Vec<OrganizeRule>) -> (r: Self)
        ensures
            r.rules() == rules@,
    {
        Organizer { rules }
    }

    /// A sensible default rule set: documents, spreadsheets, images,
    /// archives, installers, audio and video, each into its own folder, for
    /// files at least 30 days old (installers: 60).
    pub fn with_defaults() -> (r: Self)
        ensures
            rviews(r.rules()) == default_rules(),
    {
        let mut rules: Vec<OrganizeRule> = Vec::new();
        rules.push(make_rule("documents", "Documents", &["*.pdf", "*.doc", "*.docx", "*.txt", "*.odt"], "Documents", Some(30)));
        rules.push(make_rule("spreadsheets", "Spreadsheets", &["*.xls", "*.xlsx", "*.csv", "*.ods"], "Documents/Spreadsheets", Some(30)));
        rules.push(make_rule("images", "Images", &["*.jpg", "*.jpeg", "*.png", "*.gif", "*.webp"], "Pictures", Some(30)));
        rules.push(make_rule("archives", "Archives", &["*.zip", "*.7z", "*.rar", "*.tar", "*.gz"], "Archives", Some(30)));
        rules.push(make_rule("installers", "Installers", &["*.msi", "*.exe"], "Installers", Some(60)));
        rules.push(make_rule("audio", "Audio", &["*.mp3", "*.flac", "*.wav", "*.m4a"], "Music", Some(30)));
        rules.push(make_rule("video", "Video", &["*.mp4", "*.mkv", "*.mov", "*.avi"], "Videos", Some(30)));
        assert(rviews(rules@) =~~= default_rules());
        Organizer { rules }
    }

    /// The number of rules.
    pub fn rule_count(&self) -> (r: usize)
        ensures
            r == self.rules().len(),
    {
        self.rules.len()
    }
}

} // verus!

verus! {

fn first_rule_exec(rules: &Vec<OrganizeRule>, e: &FileEntry, now: i64) -> (r: Option<usize>)
    ensures
        match r {
            Some(k) => k < rules@.len() && first_rule(rules@, *e, now) == k,
            None => first_rule(rules@, *e, now) == -1,
        },
{
    let mut i: usize = 0;
    assert(rules@.take(0) =~= Seq::<OrganizeRule>::empty());
    while i < rules.len()
        invariant
            i <= rules.len(),
            first_rule(rules@.take(i as int), *e, now) == -1,
        decreases rules.len() - i,
    {
        assert(rules@.take(i + 1).drop_last() =~= rules@.take(i as int));
        if rules[i].matches(e, now) {
            assert(first_rule(rules@.take(i + 1), *e, now) == i);
            proof {
                lemma_first_rule_prefix(rules@, i + 1, *e, now);
            }
            return Some(i);
        }
        i += 1;
    }
    assert(rules@.take(rules.len() as int) =~= rules@);
    None
}

proof fn lemma_first_rule_prefix(rules: Seq<OrganizeRule>, k: int, e: FileEntry, now: i64)
    requires
        0 <= k <= rules.len(),
        first_rule(rules.take(k), e, now) >= 0,
    ensures
        first_rule(rules, e, now) == first_rule(rules.take(k), e, now),
    decreases rules.len() - k,
{
    if k < rules.len() {
        assert(rules.take(k + 1).drop_last() =~= rules.take(k));
        lemma_first_rule_prefix(rules, k + 1, e, now);
    } else {
        assert(rules.take(k) =~= rules);
    }
}

proof fn lemma_first_rule_bounds(rules: Seq<OrganizeRule>, e: FileEntry, now: i64)
    ensures
        -1 <= first_rule(rules, e, now) < rules.len(),
    decreases rules.len(),
{
    if rules.len() > 0 {
        lemma_first_rule_bounds(rules.drop_last(), e, now);
    }
}

fn candidate_exec(dir: &[char], name: &[char], k: u32, st: PathStyle) -> (r: Vec<char>)
    ensures
        r@ == candidate(dir@, name@, k as nat, st),
{
    if k == 0 {
        join_chars(dir, name, st)
    } else {
        let d = disambiguate(name, k);
        join_chars(dir, &d, st)
    }
}

fn is_taken(
    c: &Vec<Vec<char>>,
    from: &Vec<Vec<char>>,
    claimed: &Vec<Vec<Vec<char>>>,
    existing: &Vec<Vec<Vec<char>>>,
) -> (r: bool)
    ensures
        r == taken(views(c@), views(from@), key_views(claimed@), key_views(existing@)),
{
    if comps_eq(c, from) {
        return true;
    }
    if let Some(j) = crate::usage::find_key(claimed, c) {
        return true;
    }
    if let Some(j) = crate::usage::find_key(existing, c) {
        return true;
    }
    false
}

impl Organizer {
    /// The move planned for one entry.
    #[verifier::loop_isolation(false)]
    fn plan_entry_exec(
        &self,
        e: &FileEntry,
        base: &[char],
        base_comps: &Vec<Vec<char>>,
        now: i64,
        existing_comps: &Vec<Vec<Vec<char>>>,
        claimed: &Vec<Vec<Vec<char>>>,
        Ghost(existing): Ghost<Seq<Seq<char>>>,
        st: PathStyle,
    ) -> (r: Option<(Move, Vec<Vec<char>>)>)
        requires
            views(base_comps@) == comps(base@, st),
            key_views(existing_comps@) == path_comps_all(existing, st),
        ensures
            match r {
                Some((m, c)) => plan_entry(self.rules(), *e, base@, now, existing, key_views(claimed@), st)
                    == Some(mview(m)) && views(c@) == comps(m.to@, st),
                None => plan_entry(self.rules(), *e, base@, now, existing, key_views(claimed@), st) is None,
            },
    {
        if e.is_dir || is_protected(e.path.as_str()) {
            return None;
        }
        let path = chars_of(e.path.as_str());
        let pc = path_comps(&path, st);
        if comps_prefix_exec(base_comps, &pc) {
            return None;
        }
        let ri = match first_rule_exec(&self.rules, e, now) {
            None => return None,
            Some(ri) => ri,
        };
        let rule = &self.rules[ri];
        let name = last_component(&path);
        let sub = chars_of(rule.dest_subdir.as_str());
        let dir = join_chars(base, &sub, st);
        let ghost from = comps(e.path@, st);
        let ghost ex = path_comps_all(existing, st);
        let ghost cl = key_views(claimed@);
        let mut k: u32 = 0;
        while k < u32::MAX
            invariant
                first_free(dir@, name@, from, cl, ex, 0, st) == first_free(dir@, name@, from, cl, ex, k as nat, st),
                views(pc@) == from,
                key_views(existing_comps@) == ex,
                key_views(claimed@) == cl,
            decreases u32::MAX - k,
        {
            let cand = candidate_exec(&dir, &name, k, st);
            let cc = path_comps(&cand, st);
            if !is_taken(&cc, &pc, claimed, existing_comps) {
                assert(first_free(dir@, name@, from, cl, ex, k as nat, st) == Some(k as nat));
                if comps_eq(&cc, &pc) {
                    return None;
                }
                let m = Move {
                    from: e.path.clone(),
                    to: string_of(&cand),
                    rule_id: rule.id.clone(),
                    size: e.size,
                };
                return Some((m, cc));
            }
            k += 1;
        }
        None
    }

    /// Build a plan for organizing `entries` into folders under `dest_base`.
    ///
    /// Directories, protected files and files already under `dest_base` are
    /// left alone (so re-running is idempotent); each remaining file goes to
    /// the folder of the first rule that applies. A destination that is the
    /// source itself, already claimed by an earlier move, or one of the
    /// `existing` paths is disambiguated by appending ` (n)` before the
    /// extension.
    pub fn plan(&self, entries: &[FileEntry], dest_base: &str, now_unix: i64, existing: &[String], st: PathStyle) -> (r: OrganizePlan)
        ensures
            mviews(r.moves@) == plan_moves(self.rules(), entries@, dest_base@, now_unix, existing@.map_values(|s: String| s@), st),
    {
        let ghost ex = existing@.map_values(|s: String| s@);
        let base = chars_of(dest_base);
        let base_comps = path_comps(&base, st);
        let mut existing_comps: Vec<Vec<Vec<char>>> = Vec::new();
        let mut q: usize = 0;
        while q < existing.len()
            invariant
                q <= existing.len(),
                ex == existing@.map_values(|s: String| s@),
                key_views(existing_comps@) =~= path_comps_all(ex, st).take(q as int),
            decreases existing.len() - q,
        {
            let c = path_comps(&chars_of(existing[q].as_str()), st);
            let ghost old_k = key_views(existing_comps@);
            existing_comps.push(c);
            assert(key_views(existing_comps@) =~= old_k.push(comps(ex[q as int], st)));
            assert(path_comps_all(ex, st).take(q + 1) =~= path_comps_all(ex, st).take(q as int).push(comps(ex[q as int], st)));
            q += 1;
        }
        assert(path_comps_all(ex, st).take(existing.len() as int) =~= path_comps_all(ex, st));
        let mut moves: Vec<Move> = Vec::new();
        let mut claimed: Vec<Vec<Vec<char>>> = Vec::new();
        let mut i: usize = 0;
        assert(entries@.take(0) =~= Seq::<FileEntry>::empty());
        while i < entries.len()
            invariant
                i <= entries.len(),
                views(base_comps@) == comps(base@, st),
                base@ == dest_base@,
                key_views(existing_comps@) == path_comps_all(ex, st),
                mviews(moves@) == plan_moves(self.rules(), entries@.take(i as int), dest_base@, now_unix, ex, st),
                key_views(claimed@) == dest_comps(mviews(moves@), st),
            decreases entries.len() - i,
        {
            assert(entries@.take(i + 1).drop_last() =~= entries@.take(i as int));
            let ghost prev = mviews(moves@);
            match self.plan_entry_exec(&entries[i], &base, &base_comps, now_unix, &existing_comps, &claimed, Ghost(ex), st) {
                Some((m, c)) => {
                    let ghost old_cl = key_views(claimed@);
                    let ghost mv = mview(m);
                    moves.push(m);
                    claimed.push(c);
                    assert(key_views(claimed@) =~= old_cl.push(comps(mv.1, st)));
                    assert(dest_comps(prev.push(mv), st) =~= dest_comps(prev, st).push(comps(mv.1, st)));
                    assert(mviews(moves@) =~= prev.push(mview(m)));
                    assert(key_views(claimed@) =~= dest_comps(mviews(moves@), st));
                },
                None => {},
            }
            i += 1;
        }
        assert(entries@.take(entries.len() as int) =~= entries@);
        OrganizePlan { moves }
    }
}

} // verus!

verus! {

proof fn lemma_first_free_is_free(
    dir: Seq<char>,
    name: Seq<char>,
    from: Seq<Seq<char>>,
    claimed: Seq<Seq<Seq<char>>>,
    existing: Seq<Seq<Seq<char>>>,
    k: nat,
    st: PathStyle,
)
    ensures
        first_free(dir, name, from, claimed, existing, k, st) matches Some(f) ==> !taken(
            comps(candidate(dir, name, f, st), st),
            from,
            claimed,
            existing,
        ),
    decreases u32::MAX - k,
{
    if k < u32::MAX && taken(comps(candidate(dir, name, k, st), st), from, claimed, existing) {
        lemma_first_free_is_free(dir, name, from, claimed, existing, k + 1, st);
    }
}

/// Every planned move is safe and unambiguous: its source is a file of the
/// scan, not a directory, not protected and not already inside the
/// destination tree; its destination differs from the source and from every
/// existing path; and no two moves share a destination.
pub proof fn lemma_plan_is_safe(
    rules: Seq<OrganizeRule>,
    es: Seq<FileEntry>,
    base: Seq<char>,
    now: i64,
    existing: Seq<Seq<char>>,
    st: PathStyle,
)
    ensures
        ({
            let ms = plan_moves(rules, es, base, now, existing, st);
            &&& forall|j: int|
                0 <= j < ms.len() ==> {
                    &&& !protected(#[trigger] ms[j].0)
                    &&& !comps_prefix(comps(base, st), comps(ms[j].0, st))
                    &&& comps(ms[j].1, st) != comps(ms[j].0, st)
                    &&& forall|q: int| 0 <= q < existing.len() ==> comps(existing[q], st) != comps(ms[j].1, st)
                    &&& exists|i: int|
                        0 <= i < es.len() && (#[trigger] es[i]).path@ == ms[j].0 && !es[i].is_dir
                            && es[i].size == ms[j].3
                }
            &&& forall|j1: int, j2: int|
                0 <= j1 < j2 < ms.len() ==> comps(#[trigger] ms[j1].1, st) != comps(#[trigger] ms[j2].1, st)
        }),
    decreases es.len(),
{
    if es.len() > 0 {
        let rest = es.drop_last();
        lemma_plan_is_safe(rules, rest, base, now, existing, st);
        let prev = plan_moves(rules, rest, base, now, existing, st);
        let e = es.last();
        match plan_entry(rules, e, base, now, existing, dest_comps(prev, st), st) {
            Some(m) => {
                let ms = prev.push(m);
                let ri = first_rule(rules, e, now);
                let rule = rules[ri];
                let name = last_comp(e.path@);
                let dir = join(base, rule.dest_subdir@, st);
                let ex = path_comps_all(existing, st);
                let f = first_free(dir, name, comps(e.path@, st), dest_comps(prev, st), ex, 0, st).unwrap();
                lemma_first_free_is_free(dir, name, comps(e.path@, st), dest_comps(prev, st), ex, 0, st);
                assert(m.1 == candidate(dir, name, f, st));
                assert forall|j: int| 0 <= j < ms.len() implies {
                    &&& !protected(#[trigger] ms[j].0)
                    &&& !comps_prefix(comps(base, st), comps(ms[j].0, st))
                    &&& comps(ms[j].1, st) != comps(ms[j].0, st)
                    &&& forall|q: int| 0 <= q < existing.len() ==> comps(existing[q], st) != comps(ms[j].1, st)
                    &&& exists|i: int|
                        0 <= i < es.len() && (#[trigger] es[i]).path@ == ms[j].0 && !es[i].is_dir
                            && es[i].size == ms[j].3
                } by {
                    if j < prev.len() {
                        assert(ms[j] == prev[j]);
                        let i = choose|i: int|
                            0 <= i < rest.len() && (#[trigger] rest[i]).path@ == prev[j].0 && !rest[i].is_dir
                                && rest[i].size == prev[j].3;
                        assert(es[i] == rest[i]);
                    } else {
                        assert(ms[j] == m);
                        assert forall|q: int| 0 <= q < existing.len() implies comps(existing[q], st) != comps(ms[j].1, st) by {
                            assert(ex[q] == comps(existing[q], st));
                        }
                        assert(es[es.len() - 1] == e);
                    }
                }
                assert forall|j1: int, j2: int|
                    0 <= j1 < j2 < ms.len() implies comps(#[trigger] ms[j1].1, st) != comps(#[trigger] ms[j2].1, st) by {
                    if j2 < prev.len() {
                        assert(ms[j1] == prev[j1] && ms[j2] == prev[j2]);
                    } else {
                        assert(ms[j2] == m);
                        assert(ms[j1] == prev[j1]);
                        assert(dest_comps(prev, st)[j1] == comps(prev[j1].1, st));
                    }
                }
            },
            None => {
                assert forall|j: int| #![trigger prev[j]] 0 <= j < prev.len() implies exists|i: int|
                    0 <= i < es.len() && (#[trigger] es[i]).path@ == prev[j].0 && !es[i].is_dir
                        && es[i].size == prev[j].3 by {
                    let i = choose|i: int|
                        0 <= i < rest.len() && (#[trigger] rest[i]).path@ == prev[j].0 && !rest[i].is_dir
                            && rest[i].size == prev[j].3;
                    assert(es[i] == rest[i]);
                }
            },
        }
    }
}


/// `m` is the move of entry `e`: a file that is neither protected nor
/// already under `base`, sent under the folder of the first rule that applies
/// to it, keeping its name (or the name disambiguated by a number).
pub open spec fn move_of_entry(
    rules: Seq<OrganizeRule>,
    e: FileEntry,
    base: Seq<char>,
    now: i64,
    m: MoveView,
    st: PathStyle,
) -> bool {
    let ri = first_rule(rules, e, now);
    &&& !e.is_dir
    &&& !protected(e.path@)
    &&& !comps_prefix(comps(base, st), comps(e.path@, st))
    &&& 0 <= ri < rules.len()
    &&& m.0 == e.path@
    &&& m.2 == rules[ri].id@
    &&& m.3 == e.size
    &&& exists|k: nat| m.1 == #[trigger] candidate(join(base, rules[ri].dest_subdir@, st), last_comp(e.path@), k, st)
}

/// The moves follow the entries: move `j` is the move of entry `idx[j]`, and
/// the entries moved come in the order of the scan, each at most once.
pub proof fn lemma_plan_follows_entries(
    rules: Seq<OrganizeRule>,
    es: Seq<FileEntry>,
    base: Seq<char>,
    now: i64,
    existing: Seq<Seq<char>>,
    st: PathStyle,
) -> (idx: Seq<int>)
    ensures
        idx.len() == plan_moves(rules, es, base, now, existing, st).len(),
        forall|j1: int, j2: int| 0 <= j1 < j2 < idx.len() ==> idx[j1] < idx[j2],
        forall|j: int|
            0 <= j < idx.len() ==> 0 <= #[trigger] idx[j] < es.len() && move_of_entry(
                rules,
                es[idx[j]],
                base,
                now,
                plan_moves(rules, es, base, now, existing, st)[j],
                st,
            ),
    decreases es.len(),
{
    if es.len() == 0 {
        Seq::empty()
    } else {
        let rest = es.drop_last();
        let prev = plan_moves(rules, rest, base, now, existing, st);
        let pidx = lemma_plan_follows_entries(rules, rest, base, now, existing, st);
        let e = es.last();
        assert forall|j: int| 0 <= j < pidx.len() implies es[pidx[j]] == rest[pidx[j]] by {}
        match plan_entry(rules, e, base, now, existing, dest_comps(prev, st), st) {
            Some(m) => {
                let ri = first_rule(rules, e, now);
                lemma_first_rule_bounds(rules, e, now);
                let dir = join(base, rules[ri].dest_subdir@, st);
                let name = last_comp(e.path@);
                let k = first_free(dir, name, comps(e.path@, st), dest_comps(prev, st), path_comps_all(existing, st), 0, st).unwrap();
                assert(m.1 == candidate(dir, name, k, st));
                let idx = pidx.push(es.len() - 1);
                let ms = prev.push(m);
                assert forall|j: int| 0 <= j < idx.len() implies 0 <= #[trigger] idx[j] < es.len() && move_of_entry(
                    rules,
                    es[idx[j]],
                    base,
                    now,
                    ms[j],
                    st,
                ) by {
                    if j < pidx.len() {
                        assert(idx[j] == pidx[j] && ms[j] == prev[j]);
                    } else {
                        assert(es[idx[j]] == e);
                    }
                }
                idx
            },
            None => pidx,
        }
    }
}

/// No character of `s` is a separator.
pub open spec fn sep_free(s: Seq<char>, st: PathStyle) -> bool {
    forall|i: int| 0 <= i < s.len() ==> !is_sep(#[trigger] s[i], st)
}

proof fn lemma_sep_free_concat(a: Seq<char>, b: Seq<char>, st: PathStyle)
    requires
        sep_free(a, st),
        sep_free(b, st),
    ensures
        sep_free(a + b, st),
{
    assert forall|i: int| 0 <= i < (a + b).len() implies !is_sep(#[trigger] (a + b)[i], st) by {
        if i < a.len() {
            assert((a + b)[i] == a[i]);
        } else {
            assert((a + b)[i] == b[i - a.len()]);
        }
    }
}

proof fn lemma_decimal_sep_free(n: nat, st: PathStyle)
    ensures
        sep_free(decimal(n), st),
    decreases n,
{
    if n < 10 {
        assert(decimal(n)[0] == digit_char(n));
    } else {
        lemma_decimal_sep_free(n / 10, st);
        let d = decimal(n / 10);
        assert forall|i: int| 0 <= i < decimal(n).len() implies !is_sep(#[trigger] decimal(n)[i], st) by {
            if i < d.len() {
                assert(decimal(n)[i] == d[i]);
            }
        }
    }
}

/// A plain name stays plain when a number is inserted before its
/// extension.
proof fn lemma_disambiguated_plain(name: Seq<char>, k: nat, st: PathStyle)
    requires
        plain_name(name, st),
    ensures
        plain_name(disambiguated(name, k), st),
{
    reveal_strlit(" (");
    reveal_strlit(").");
    reveal_strlit(")");
    let d = disambiguated(name, k);
    let i = last_index_of(name, '.');
    lemma_decimal_sep_free(k, st);
    assert(sep_free(" ("@, st));
    assert(sep_free(")."@, st));
    assert(sep_free(")"@, st));
    assert(sep_free(name, st));
    lemma_last_index_bounds(name, '.');
    if i > 0 {
        let a = name.take(i);
        let b = name.skip(i + 1);
        assert(sep_free(a, st)) by {
            assert forall|j: int| 0 <= j < a.len() implies !is_sep(#[trigger] a[j], st) by {
                assert(a[j] == name[j]);
            }
        }
        assert(sep_free(b, st)) by {
            assert forall|j: int| 0 <= j < b.len() implies !is_sep(#[trigger] b[j], st) by {
                assert(b[j] == name[j + i + 1]);
            }
        }
        lemma_sep_free_concat(a, " ("@, st);
        lemma_sep_free_concat(a + " ("@, decimal(k), st);
        lemma_sep_free_concat(a + " ("@ + decimal(k), ")."@, st);
        lemma_sep_free_concat(a + " ("@ + decimal(k) + ")."@, b, st);
        if i == 1 {
            assert(d[1] == ' ');
        } else {
            assert(d[0] == name[0] && d[1] == name[1]);
        }
        assert(d.len() >= 4);
    } else {
        lemma_sep_free_concat(name, " ("@, st);
        lemma_sep_free_concat(name + " ("@, decimal(k), st);
        lemma_sep_free_concat(name + " ("@ + decimal(k), ")"@, st);
        if name.len() == 1 {
            assert(d[1] == ' ');
        } else {
            assert(d[0] == name[0] && d[1] == name[1]);
        }
        assert(d.len() >= 4);
    }
    assert(d != cur_comp()) by {
        assert(cur_comp().len() == 1);
    }
}

/// Every destination lies in the folder of its rule under `base`, with the
/// entry's file name (or that name disambiguated) as its last component;
/// so no destination is the source of any move, since no source lies under
/// `base`. This holds where every rule's folder is a relative path and every
/// file's name is a plain name.
pub proof fn lemma_plan_destinations(
    rules: Seq<OrganizeRule>,
    es: Seq<FileEntry>,
    base: Seq<char>,
    now: i64,
    existing: Seq<Seq<char>>,
    st: PathStyle,
) -> (idx: Seq<int>)
    requires
        forall|q: int| 0 <= q < rules.len() ==> relative_piece(#[trigger] rules[q].dest_subdir@, st),
        forall|i: int| 0 <= i < es.len() && !(#[trigger] es[i]).is_dir ==> plain_name(last_comp(es[i].path@), st),
    ensures
        idx.len() == plan_moves(rules, es, base, now, existing, st).len(),
        forall|j1: int, j2: int| 0 <= j1 < j2 < idx.len() ==> idx[j1] < idx[j2],
        forall|j: int|
            0 <= j < idx.len() ==> 0 <= #[trigger] idx[j] < es.len() && move_of_entry(
                rules,
                es[idx[j]],
                base,
                now,
                plan_moves(rules, es, base, now, existing, st)[j],
                st,
            ) && comps(plan_moves(rules, es, base, now, existing, st)[j].1, st).drop_last() == comps(
                join(base, rules[first_rule(rules, es[idx[j]], now)].dest_subdir@, st),
                st,
            ) && comps_prefix(comps(base, st), comps(plan_moves(rules, es, base, now, existing, st)[j].1, st)),
        forall|j1: int, j2: int|
            0 <= j1 < idx.len() && 0 <= j2 < idx.len() ==> comps(
                #[trigger] plan_moves(rules, es, base, now, existing, st)[j1].1,
                st,
            ) != comps(#[trigger] plan_moves(rules, es, base, now, existing, st)[j2].0, st),
{
    let ms = plan_moves(rules, es, base, now, existing, st);
    let idx = lemma_plan_follows_entries(rules, es, base, now, existing, st);
    let bc = comps(base, st);
    assert forall|j: int| 0 <= j < idx.len() implies comps(#[trigger] ms[j].1, st).drop_last() == comps(
        join(base, rules[first_rule(rules, es[idx[j]], now)].dest_subdir@, st),
        st,
    ) && comps_prefix(bc, comps(ms[j].1, st)) by {
        let e = es[idx[j]];
        assert(move_of_entry(rules, e, base, now, ms[j], st));
        let ri = first_rule(rules, e, now);
        let dir = join(base, rules[ri].dest_subdir@, st);
        let name = last_comp(e.path@);
        let k = choose|k: nat| ms[j].1 == #[trigger] candidate(dir, name, k, st);
        let n = if k == 0 { name } else { disambiguated(name, k) };
        assert(plain_name(name, st));
        if k > 0 {
            lemma_disambiguated_plain(name, k, st);
        }
        assert(ms[j].1 == join(dir, n, st));
        lemma_join_name(dir, n, st);
        assert(comps(ms[j].1, st).drop_last() =~= comps(dir, st));
        lemma_join_prefix(base, rules[ri].dest_subdir@, st);
        let dc = comps(dir, st);
        let c = comps(ms[j].1, st);
        assert(c.take(bc.len() as int) =~= dc.take(bc.len() as int));
    }
    assert forall|j1: int, j2: int| 0 <= j1 < idx.len() && 0 <= j2 < idx.len() implies comps(
        #[trigger] ms[j1].1,
        st,
    ) != comps(#[trigger] ms[j2].0, st) by {
        assert(comps_prefix(bc, comps(ms[j1].1, st)));
        assert(move_of_entry(rules, es[idx[j2]], base, now, ms[j2], st));
    }
    idx
}

proof fn lemma_last_dot_at(name: Seq<char>, p: int)
    requires
        0 <= p < name.len(),
        name[p] == '.',
        forall|i: int| p < i < name.len() ==> name[i] != '.',
    ensures
        last_index_of(name, '.') == p,
    decreases name.len(),
{
    if p < name.len() - 1 {
        assert(name.drop_last()[p] == name[p]);
        lemma_last_dot_at(name.drop_last(), p);
    }
}

proof fn lemma_no_dot_after(name: Seq<char>)
    requires
        forall|i: int| 0 < i < name.len() ==> name[i] != '.',
    ensures
        last_index_of(name, '.') <= 0,
    decreases name.len(),
{
    if name.len() > 1 {
        let d = name.drop_last();
        assert forall|i: int| 0 < i < d.len() implies d[i] != '.' by {
            assert(d[i] == name[i]);
        }
        lemma_no_dot_after(d);
        assert(name.last() != '.');
    } else if name.len() == 1 {
        assert(last_index_of(name.drop_last(), '.') == -1);
    }
}

/// Disambiguating inserts ` (n)` just before the name's last dot, when that
/// dot is not the first character: the name's stem keeps every earlier dot,
/// and taking the insertion out gives the name back.
pub proof fn lemma_disambiguate_inserts_before_last_dot(name: Seq<char>, n: nat, p: int)
    requires
        0 < p < name.len(),
        name[p] == '.',
        forall|i: int| p < i < name.len() ==> name[i] != '.',
    ensures
        disambiguated(name, n) == name.take(p) + " ("@ + decimal(n) + ")"@ + name.skip(p),
{
    reveal_strlit(" (");
    reveal_strlit(").");
    reveal_strlit(")");
    lemma_last_dot_at(name, p);
    assert(name.skip(p) =~= seq!['.'] + name.skip(p + 1));
    assert(")."@ =~= ")"@ + seq!['.']);
    assert(name.take(p) + " ("@ + decimal(n) + ")"@ + name.skip(p) =~= name.take(p) + " ("@ + decimal(n) + ")."@
        + name.skip(p + 1));
}

/// A name with no dot after its first character gets ` (n)` appended.
pub proof fn lemma_disambiguate_appends_without_extension(name: Seq<char>, n: nat)
    requires
        forall|i: int| 0 < i < name.len() ==> name[i] != '.',
    ensures
        disambiguated(name, n) == name + " ("@ + decimal(n) + ")"@,
{
    lemma_no_dot_after(name);
}

} // verus!
