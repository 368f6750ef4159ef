//! Protected-path guard shared by every operation that moves files.
//!
//! A path is protected when it lies under an operating-system or program
//! root on any drive (outside the caches Windows regenerates itself), names a
//! Windows pseudo-file, or is a bare drive root. Comparison is
//! case-insensitive and treats `/` and `\` alike.
use vstd::prelude::*;

use crate::text::{
    after_last, after_last_vec, chars_eq, chars_of, has_prefix, normalize_vec, normalized, starts_with_vec, sub_vec, trim_end,
    trim_end_vec,
};

verus! {

/// `n` equals `prefix` or lies beneath it (`prefix` followed by `\`).
pub open spec fn within_prefix(n: Seq<char>, prefix: Seq<char>) -> bool {
    n == prefix || has_prefix(n, prefix.push('\\'))
}

/// What follows the drive letter of a normalized path such as `c:\windows`,
/// when the path starts with one.
pub open spec fn after_drive(n: Seq<char>) -> Option<Seq<char>> {
    if n.len() >= 2 && n[1] == ':' && 'a' <= n[0] && n[0] <= 'z' {
        Some(n.skip(2))
    } else {
        None
    }
}

/// The operating-system and program roots, below any drive letter.
pub open spec fn system_root(t: Seq<char>) -> bool {
    ||| within_prefix(t, "\\windows"@)
    ||| within_prefix(t, "\\program files"@)
    ||| within_prefix(t, "\\program files (x86)"@)
    ||| within_prefix(t, "\\programdata\\microsoft\\windows"@)
    ||| within_prefix(t, "\\$recycle.bin\\s-1-5-18"@)
    ||| within_prefix(t, "\\system volume information"@)
    ||| within_prefix(t, "\\perflogs"@)
    ||| within_prefix(t, "\\boot"@)
    ||| within_prefix(t, "\\recovery"@)
}

/// The caches that Windows regenerates and its own Disk Cleanup empties: what
/// lies inside them (not the folders themselves) may be reclaimed.
pub open spec fn reclaimable_cache(t: Seq<char>) -> bool {
    ||| has_prefix(t, "\\windows\\temp\\"@)
    ||| has_prefix(t, "\\windows\\prefetch\\"@)
    ||| has_prefix(t, "\\windows\\logs\\"@)
    ||| has_prefix(t, "\\windows\\softwaredistribution\\download\\"@)
    ||| has_prefix(t, "\\windows\\softwaredistribution\\deliveryoptimization\\"@)
    ||| has_prefix(t, "\\windows\\serviceprofiles\\networkservice\\appdata\\local\\microsoft\\windows\\deliveryoptimization\\"@)
    ||| has_prefix(t, "\\programdata\\microsoft\\windows\\wer\\"@)
}

/// A normalized path without trailing `\` lies under an operating-system or
/// program root on some drive, and not inside one of the reclaimable caches.
pub open spec fn under_protected_root(n: Seq<char>) -> bool {
    match after_drive(n) {
        Some(t) => system_root(t) && !reclaimable_cache(t),
        None => false,
    }
}

/// The Windows pseudo-files that are protected wherever they are found.
pub open spec fn is_protected_name(name: Seq<char>) -> bool {
    ||| name == "pagefile.sys"@
    ||| name == "hiberfil.sys"@
    ||| name == "swapfile.sys"@
    ||| name == "bootmgr"@
    ||| name == "ntldr"@
    ||| name == "bootnxt"@
}

/// A normalized path that is a bare drive root such as `c:` or `c:\`: after
/// trailing `\` are removed, two bytes remain and the second is `:`.
pub open spec fn is_drive_root_spec(n: Seq<char>) -> bool {
    let t = trim_end(n, '\\');
    t.len() == 2 && t[1] == ':' && (t[0] as u32) < 128
}

/// The final component of a normalized path (after trailing `\` are trimmed).
pub open spec fn final_component(n: Seq<char>) -> Seq<char> {
    after_last(trim_end(n, '\\'), '\\')
}

/// Whether `path` must never be quarantined, moved or deleted.
pub open spec fn protected(path: Seq<char>) -> bool {
    let n = normalized(path);
    ||| is_protected_name(final_component(n))
    ||| is_drive_root_spec(n)
    ||| under_protected_root(trim_end(n, '\\'))
}

fn within_prefix_exec(n: &[char], prefix: &str) -> (r: bool)
    ensures
        r == within_prefix(n@, prefix@),
{
    let p = chars_of(prefix);
    if chars_eq(n, &p) {
        return true;
    }
    let mut q = p;
    q.push('\\');
    starts_with_vec(n, &q)
}

fn name_is(name: &[char], lit: &str) -> (r: bool)
    ensures
        r == (name@ == lit@),
{
    let l = chars_of(lit);
    chars_eq(name, &l)
}

/// Whether the normalized path is a drive root such as `c:\` or `c:`.
fn is_drive_root(normalized: &[char]) -> (r: bool)
    ensures
        r == is_drive_root_spec(normalized@),
{
    let t = trim_end_vec(normalized, '\\');
    t.len() == 2 && t[1] == ':' && (t[0] as u32) < 128
}

/// Whether `path` is protected and must never be quarantined, moved, or
/// deleted: anything under a known OS/program root on any drive (except what
/// lies inside the regenerated caches), the protected pseudo-files by name,
/// and bare drive roots.
pub fn is_protected(path: &str) -> (r: bool)
    ensures
        r == protected(path@),
{
    let raw = chars_of(path);
    let n = normalize_vec(&raw);
    let trimmed = trim_end_vec(&n, '\\');
    let name = after_last_vec(&trimmed, '\\');
    if name_is(&name, "pagefile.sys") || name_is(&name, "hiberfil.sys") || name_is(&name, "swapfile.sys")
        || name_is(&name, "bootmgr") || name_is(&name, "ntldr") || name_is(&name, "bootnxt")
    {
        return true;
    }
    if is_drive_root(&n) {
        return true;
    }
    if trimmed.len() >= 2 && trimmed[1] == ':' && 'a' <= trimmed[0] && trimmed[0] <= 'z' {
        let t = sub_vec(&trimmed, 2, trimmed.len());
        assert(t@ =~= trimmed@.skip(2));
        system_root_exec(&t) && !reclaimable_cache_exec(&t)
    } else {
        false
    }
}

fn system_root_exec(t: &[char]) -> (r: bool)
    ensures
        r == system_root(t@),
{
    within_prefix_exec(t, "\\windows") || within_prefix_exec(t, "\\program files")
        || within_prefix_exec(t, "\\program files (x86)")
        || within_prefix_exec(t, "\\programdata\\microsoft\\windows")
        || within_prefix_exec(t, "\\$recycle.bin\\s-1-5-18")
        || within_prefix_exec(t, "\\system volume information")
        || within_prefix_exec(t, "\\perflogs") || within_prefix_exec(t, "\\boot")
        || within_prefix_exec(t, "\\recovery")
}

fn has_prefix_lit(t: &[char], lit: &str) -> (r: bool)
    ensures
        r == has_prefix(t@, lit@),
{
    let p = chars_of(lit);
    starts_with_vec(t, &p)
}

fn reclaimable_cache_exec(t: &[char]) -> (r: bool)
    ensures
        r == reclaimable_cache(t@),
{
    has_prefix_lit(t, "\\windows\\temp\\") || has_prefix_lit(t, "\\windows\\prefetch\\")
        || has_prefix_lit(t, "\\windows\\logs\\")
        || has_prefix_lit(t, "\\windows\\softwaredistribution\\download\\")
        || has_prefix_lit(t, "\\windows\\softwaredistribution\\deliveryoptimization\\")
        || has_prefix_lit(
            t,
            "\\windows\\serviceprofiles\\networkservice\\appdata\\local\\microsoft\\windows\\deliveryoptimization\\",
        )
        || has_prefix_lit(t, "\\programdata\\microsoft\\windows\\wer\\")
}

/// The Windows pseudo-files (`pagefile.sys`, `hiberfil.sys`,
/// `swapfile.sys`, `bootmgr`, `ntldr`, `bootnxt`) are protected wherever they
/// lie, whatever the case of their name.
pub proof fn lemma_pseudo_files_protected(path: Seq<char>)
    requires
        seq!["pagefile.sys"@, "hiberfil.sys"@, "swapfile.sys"@, "bootmgr"@, "ntldr"@, "bootnxt"@].contains(
            after_last(trim_end(normalized(path), '\\'), '\\'),
        ),
    ensures
        protected(path),
{
    let names = seq!["pagefile.sys"@, "hiberfil.sys"@, "swapfile.sys"@, "bootmgr"@, "ntldr"@, "bootnxt"@];
    let name = after_last(trim_end(normalized(path), '\\'), '\\');
    let k = choose|k: int| 0 <= k < names.len() && names[k] == name;
    assert(is_protected_name(names[k]));
}

proof fn lemma_trim_keeps_prefix(s: Seq<char>, p: Seq<char>)
    requires
        has_prefix(s, p),
        p.len() > 0,
        p.last() != '\\',
    ensures
        has_prefix(trim_end(s, '\\'), p),
    decreases s.len(),
{
    if s.len() > 0 && s.last() == '\\' {
        if s.len() == p.len() {
            assert(s.take(p.len() as int) =~= s);
        } else {
            assert(s.drop_last().take(p.len() as int) =~= s.take(p.len() as int));
            lemma_trim_keeps_prefix(s.drop_last(), p);
        }
    }
}

proof fn lemma_prefix_clash(t: Seq<char>, a: Seq<char>, b: Seq<char>, i: int)
    requires
        has_prefix(t, a),
        0 <= i < a.len(),
        i < b.len(),
        a[i] != b[i],
    ensures
        !has_prefix(t, b),
{
    if has_prefix(t, b) {
        assert(t.take(a.len() as int)[i] == t[i]);
        assert(t.take(b.len() as int)[i] == t[i]);
    }
}

/// The system folders (`\Windows\System32`, `\Windows\WinSxS`,
/// `\Program Files`, `\Boot`, `\Recovery`) and everything beneath them are
/// protected on every drive letter.
pub proof fn lemma_system_dirs_protected_on_any_drive(path: Seq<char>, c: char, root: Seq<char>, rest: Seq<char>)
    requires
        'a' <= c <= 'z',
        root == "\\windows\\system32"@ || root == "\\windows\\winsxs"@ || root == "\\program files"@ || root
            == "\\boot"@ || root == "\\recovery"@,
        normalized(path) == seq![c, ':'] + root + rest,
        rest.len() == 0 || rest[0] == '\\',
    ensures
        protected(path),
{
    reveal_strlit("\\windows\\system32");
    reveal_strlit("\\windows\\winsxs");
    reveal_strlit("\\program files");
    reveal_strlit("\\boot");
    reveal_strlit("\\recovery");
    reveal_strlit("\\windows");
    reveal_strlit("\\windows\\temp\\");
    reveal_strlit("\\windows\\prefetch\\");
    reveal_strlit("\\windows\\logs\\");
    reveal_strlit("\\windows\\softwaredistribution\\download\\");
    reveal_strlit("\\windows\\softwaredistribution\\deliveryoptimization\\");
    reveal_strlit("\\windows\\serviceprofiles\\networkservice\\appdata\\local\\microsoft\\windows\\deliveryoptimization\\");
    reveal_strlit("\\programdata\\microsoft\\windows\\wer\\");
    let n = normalized(path);
    let head = seq![c, ':'] + root;
    assert(n.take(head.len() as int) =~= head);
    lemma_trim_keeps_prefix(n, head);
    let tr = trim_end(n, '\\');
    assert(tr[0] == c && tr[1] == ':');
    let t = tr.skip(2);
    assert(after_drive(tr) == Some(t));
    assert(t.take(root.len() as int) =~= root) by {
        assert forall|i: int| 0 <= i < root.len() implies t[i] == root[i] by {
            assert(tr.take(head.len() as int)[i + 2] == head[i + 2]);
        }
    }
    assert(has_prefix(t, root));
    if root == "\\windows\\system32"@ || root == "\\windows\\winsxs"@ {
        let w = "\\windows\\"@;
        assert(t.take(9) =~= w) by {
            reveal_strlit("\\windows\\");
            assert(root.take(9) =~= w);
            assert(t.take(root.len() as int).take(9) =~= t.take(9));
        }
        reveal_strlit("\\windows\\");
        assert("\\windows"@.push('\\') =~= w);
        assert(has_prefix(t, "\\windows"@.push('\\')));
        assert(within_prefix(t, "\\windows"@));
        let ci: int = 9;
        lemma_prefix_clash(t, root, "\\windows\\temp\\"@, ci);
        lemma_prefix_clash(t, root, "\\windows\\prefetch\\"@, ci);
        lemma_prefix_clash(t, root, "\\windows\\logs\\"@, ci);
        if root == "\\windows\\system32"@ {
            lemma_prefix_clash(t, root, "\\windows\\softwaredistribution\\download\\"@, 10);
            lemma_prefix_clash(t, root, "\\windows\\softwaredistribution\\deliveryoptimization\\"@, 10);
            lemma_prefix_clash(
                t,
                root,
                "\\windows\\serviceprofiles\\networkservice\\appdata\\local\\microsoft\\windows\\deliveryoptimization\\"@,
                10,
            );
        } else {
            lemma_prefix_clash(t, root, "\\windows\\softwaredistribution\\download\\"@, ci);
            lemma_prefix_clash(t, root, "\\windows\\softwaredistribution\\deliveryoptimization\\"@, ci);
            lemma_prefix_clash(
                t,
                root,
                "\\windows\\serviceprofiles\\networkservice\\appdata\\local\\microsoft\\windows\\deliveryoptimization\\"@,
                ci,
            );
        }
        lemma_prefix_clash(t, root, "\\programdata\\microsoft\\windows\\wer\\"@, 1);
    } else {
        if t.len() == root.len() {
            assert(t =~= root);
        } else {
            assert(t[root.len() as int] == '\\') by {
                assert(tr.take(head.len() as int) =~= head);
                assert(rest.len() > 0);
                assert(n[head.len() as int] == rest[0]);
                assert(has_prefix(tr, head));
                assert(tr.len() > head.len());
                assert(tr[head.len() as int] == n[head.len() as int]) by {
                    lemma_trim_is_prefix(n);
                }
            }
            assert(t.take(root.len() as int + 1) =~= root.push('\\'));
        }
        assert(within_prefix(t, root));
        let ci: int = 1;
        lemma_prefix_clash(t, root, "\\windows\\temp\\"@, ci);
        lemma_prefix_clash(t, root, "\\windows\\prefetch\\"@, ci);
        lemma_prefix_clash(t, root, "\\windows\\logs\\"@, ci);
        lemma_prefix_clash(t, root, "\\windows\\softwaredistribution\\download\\"@, ci);
        lemma_prefix_clash(t, root, "\\windows\\softwaredistribution\\deliveryoptimization\\"@, ci);
        lemma_prefix_clash(
            t,
            root,
            "\\windows\\serviceprofiles\\networkservice\\appdata\\local\\microsoft\\windows\\deliveryoptimization\\"@,
            ci,
        );
        if root == "\\program files"@ {
            lemma_prefix_clash(t, root, "\\programdata\\microsoft\\windows\\wer\\"@, 8);
        } else {
            lemma_prefix_clash(t, root, "\\programdata\\microsoft\\windows\\wer\\"@, 1);
        }
    }
    assert(system_root(t));
    assert(!reclaimable_cache(t));
}

/// Trimming trailing separators keeps a prefix of the path.
proof fn lemma_trim_is_prefix(s: Seq<char>)
    ensures
        trim_end(s, '\\').len() <= s.len(),
        s.take(trim_end(s, '\\').len() as int) == trim_end(s, '\\'),
    decreases s.len(),
{
    if s.len() > 0 && s.last() == '\\' {
        lemma_trim_is_prefix(s.drop_last());
        assert(s.take(trim_end(s, '\\').len() as int) =~= s.drop_last().take(trim_end(s, '\\').len() as int));
    } else {
        assert(s.take(s.len() as int) =~= s);
    }
}

proof fn lemma_after_last_concat(x: Seq<char>, r: Seq<char>)
    requires
        x.len() > 0,
        x.last() == '\\',
    ensures
        after_last(x + r, '\\') == after_last(r, '\\'),
    decreases r.len(),
{
    if r.len() == 0 {
        assert(x + r =~= x);
    } else {
        assert((x + r).drop_last() =~= x + r.drop_last());
        assert((x + r).last() == r.last());
        lemma_after_last_concat(x, r.drop_last());
    }
}

/// What lies inside the caches that Windows regenerates itself
/// (`\Windows\Temp`, `\Windows\Prefetch`, `\Windows\Logs`, the Windows Update
/// download and Delivery Optimization caches, and Windows Error Reporting)
/// is reclaimable on every drive, unless it is one of the pseudo-files.
pub proof fn lemma_windows_caches_reclaimable(path: Seq<char>, c: char, cache: Seq<char>, rest: Seq<char>)
    requires
        'a' <= c <= 'z',
        cache == "\\windows\\temp\\"@ || cache == "\\windows\\prefetch\\"@ || cache == "\\windows\\logs\\"@
            || cache == "\\windows\\softwaredistribution\\download\\"@ || cache
            == "\\windows\\softwaredistribution\\deliveryoptimization\\"@ || cache
            == "\\windows\\serviceprofiles\\networkservice\\appdata\\local\\microsoft\\windows\\deliveryoptimization\\"@
            || cache == "\\programdata\\microsoft\\windows\\wer\\"@,
        normalized(path) == seq![c, ':'] + cache + rest,
        rest.len() > 0,
        rest.last() != '\\',
        ({
            let name = after_last(rest, '\\');
            &&& name != "pagefile.sys"@
            &&& name != "hiberfil.sys"@
            &&& name != "swapfile.sys"@
            &&& name != "bootmgr"@
            &&& name != "ntldr"@
            &&& name != "bootnxt"@
        }),
    ensures
        !protected(path),
{
    reveal_strlit("\\windows\\temp\\");
    reveal_strlit("\\windows\\prefetch\\");
    reveal_strlit("\\windows\\logs\\");
    reveal_strlit("\\windows\\softwaredistribution\\download\\");
    reveal_strlit("\\windows\\softwaredistribution\\deliveryoptimization\\");
    reveal_strlit("\\windows\\serviceprofiles\\networkservice\\appdata\\local\\microsoft\\windows\\deliveryoptimization\\");
    reveal_strlit("\\programdata\\microsoft\\windows\\wer\\");
    let n = normalized(path);
    let head = seq![c, ':'] + cache;
    assert(n =~= head + rest);
    assert(n.last() == rest.last());
    assert(trim_end(n, '\\') == n);
    assert(head.last() == '\\');
    lemma_after_last_concat(head, rest);
    assert(final_component(n) == after_last(rest, '\\'));
    assert(!is_drive_root_spec(n));
    let t = n.skip(2);
    assert(after_drive(n) == Some(t));
    assert(t =~= cache + rest);
    assert(t.take(cache.len() as int) =~= cache);
    assert(reclaimable_cache(t));
}

proof fn lemma_trim_backslashes(x: Seq<char>, k: nat)
    requires
        x.len() > 0,
        x.last() != '\\',
    ensures
        trim_end(x + Seq::new(k, |i: int| '\\'), '\\') == x,
    decreases k,
{
    let s = x + Seq::new(k, |i: int| '\\');
    if k == 0 {
        assert(s =~= x);
    } else {
        assert(s.drop_last() =~= x + Seq::new((k - 1) as nat, |i: int| '\\'));
        lemma_trim_backslashes(x, (k - 1) as nat);
    }
}

/// A bare drive (`d:`, `d:\`, `d:\\`, ...) is protected.
pub proof fn lemma_drive_roots_protected(path: Seq<char>, c: char, k: nat)
    requires
        'a' <= c <= 'z',
        normalized(path) == seq![c, ':'] + Seq::new(k, |i: int| '\\'),
    ensures
        protected(path),
{
    lemma_trim_backslashes(seq![c, ':'], k);
}

proof fn lemma_not_within(t: Seq<char>, pre: Seq<char>, root: Seq<char>, i: int)
    requires
        has_prefix(t, pre),
        0 <= i < pre.len(),
        i < root.len(),
        pre[i] != root[i],
    ensures
        !within_prefix(t, root),
{
    assert(t.take(pre.len() as int)[i] == t[i]);
    if t == root {
    }
    lemma_prefix_clash(t, pre, root.push('\\'), i);
}

/// Files under `\Users` on any drive are not protected, unless they are
/// pseudo-files.
pub proof fn lemma_user_files_not_protected(path: Seq<char>, c: char, rest: Seq<char>)
    requires
        'a' <= c <= 'z',
        normalized(path) == seq![c, ':'] + "\\users\\"@ + rest,
        rest.len() > 0,
        rest.last() != '\\',
        !seq!["pagefile.sys"@, "hiberfil.sys"@, "swapfile.sys"@, "bootmgr"@, "ntldr"@, "bootnxt"@].contains(
            after_last(rest, '\\'),
        ),
    ensures
        !protected(path),
{
    reveal_strlit("\\users\\");
    reveal_strlit("\\windows");
    reveal_strlit("\\program files");
    reveal_strlit("\\program files (x86)");
    reveal_strlit("\\programdata\\microsoft\\windows");
    reveal_strlit("\\$recycle.bin\\s-1-5-18");
    reveal_strlit("\\system volume information");
    reveal_strlit("\\perflogs");
    reveal_strlit("\\boot");
    reveal_strlit("\\recovery");
    let names = seq!["pagefile.sys"@, "hiberfil.sys"@, "swapfile.sys"@, "bootmgr"@, "ntldr"@, "bootnxt"@];
    let n = normalized(path);
    let u = "\\users\\"@;
    let head = seq![c, ':'] + u;
    assert(n =~= head + rest);
    assert(n.last() == rest.last());
    assert(trim_end(n, '\\') == n);
    assert(head.last() == '\\');
    lemma_after_last_concat(head, rest);
    let name = after_last(rest, '\\');
    assert(!is_protected_name(name)) by {
        if is_protected_name(name) {
            if name == "pagefile.sys"@ { assert(names[0] == name); }
            if name == "hiberfil.sys"@ { assert(names[1] == name); }
            if name == "swapfile.sys"@ { assert(names[2] == name); }
            if name == "bootmgr"@ { assert(names[3] == name); }
            if name == "ntldr"@ { assert(names[4] == name); }
            if name == "bootnxt"@ { assert(names[5] == name); }
        }
    }
    assert(!is_drive_root_spec(n));
    let t = n.skip(2);
    assert(after_drive(n) == Some(t));
    assert(t =~= u + rest);
    assert(t.take(u.len() as int) =~= u);
    lemma_not_within(t, u, "\\windows"@, 1);
    lemma_not_within(t, u, "\\program files"@, 1);
    lemma_not_within(t, u, "\\program files (x86)"@, 1);
    lemma_not_within(t, u, "\\programdata\\microsoft\\windows"@, 1);
    lemma_not_within(t, u, "\\$recycle.bin\\s-1-5-18"@, 1);
    lemma_not_within(t, u, "\\system volume information"@, 1);
    lemma_not_within(t, u, "\\perflogs"@, 1);
    lemma_not_within(t, u, "\\boot"@, 1);
    lemma_not_within(t, u, "\\recovery"@, 1);
    assert(!system_root(t));
}

} // verus!
