//! The lines of text that present a disk-usage report.
use vstd::prelude::*;

use crate::format::{append_chars, decimal, format_bytes, format_bytes_spec, push_decimal};
use crate::model::{file_name_spec, FileEntry};
use crate::paths::PathStyle;
use crate::rules::string_views;
use crate::text::{chars_of, string_of};
use crate::usage::{cview, cviews, Consumer, ConsumerView, UsageReport};

verus! {

/// `s` right-aligned in a field of `w` characters.
pub open spec fn pad_left(s: Seq<char>, w: nat) -> Seq<char> {
    if s.len() < w {
        Seq::new((w - s.len()) as nat, |i: int| ' ') + s
    } else {
        s
    }
}

/// The name shown for a consumer: its file name, or its whole path when it
/// has none.
pub open spec fn shown_name(path: Seq<char>, st: PathStyle) -> Seq<char> {
    match file_name_spec(path, st) {
        Some(n) => if n.len() > 0 {
            n
        } else {
            path
        },
        None => path,
    }
}

/// The widest formatted size among `top`.
pub open spec fn size_width(top: Seq<ConsumerView>) -> nat
    decreases top.len(),
{
    if top.len() == 0 {
        0
    } else {
        let w = size_width(top.drop_last());
        let l = format_bytes_spec(top.last().1).len();
        if l > w {
            l
        } else {
            w
        }
    }
}

/// The line of the consumer at position `i` (counted from 0).
pub open spec fn consumer_line(i: nat, c: ConsumerView, width: nat, st: PathStyle) -> Seq<char> {
    "  "@ + pad_left(decimal(i + 1), 2) + ". "@ + pad_left(format_bytes_spec(c.1), width) + "  ["@ + (if c.2 {
        "dir "@
    } else {
        "file"@
    }) + "]  "@ + shown_name(c.0, st)
}

/// The lines of a report: a heading with the root, the strategy, the total
/// and the file count, then the largest consumers with right-aligned sizes
/// (or a note that nothing was found).
pub open spec fn report_lines_spec(
    root: Seq<char>,
    total: u64,
    files: u64,
    top: Seq<ConsumerView>,
    strategy: Seq<char>,
    st: PathStyle,
) -> Seq<Seq<char>> {
    let head = seq![
        Seq::<char>::empty(),
        "  purify scan \u{2014} "@ + root,
        "  strategy: "@ + strategy,
        "  total: "@ + format_bytes_spec(total) + "  across "@ + decimal(files as nat) + " files"@,
        Seq::<char>::empty(),
    ];
    if top.len() == 0 {
        head.push("  (nothing found)"@)
    } else {
        head.push("  Largest consumers:"@) + Seq::new(
            top.len(),
            |i: int| consumer_line(i as nat, top[i], size_width(top), st),
        ).push(Seq::<char>::empty())
    }
}

fn push_all(out: &mut Vec<char>, s: &[char])
    ensures
        final(out)@ == old(out)@ + s@,
{
    let ghost start = out@;
    let mut i: usize = 0;
    while i < s.len()
        invariant
            i <= s.len(),
            out@ == start + s@.take(i as int),
        decreases s.len() - i,
    {
        out.push(s[i]);
        assert(s@.take(i + 1) =~= s@.take(i as int).push(s@[i as int]));
        i += 1;
    }
    assert(s@.take(s.len() as int) =~= s@);
}

fn push_padded(out: &mut Vec<char>, s: &[char], w: usize)
    ensures
        final(out)@ == old(out)@ + pad_left(s@, w as nat),
{
    let ghost start = out@;
    if s.len() < w {
        let n = w - s.len();
        let ghost sp = Seq::new(n as nat, |i: int| ' ');
        let mut k: usize = 0;
        while k < n
            invariant
                k <= n,
                n == w - s.len(),
                out@ == start + sp.take(k as int),
                sp == Seq::new(n as nat, |i: int| ' '),
            decreases n - k,
        {
            out.push(' ');
            assert(sp.take(k + 1) =~= sp.take(k as int).push(' '));
            k += 1;
        }
        assert(sp.take(n as int) =~= sp);
    }
    push_all(out, s);
    assert(out@ =~= start + pad_left(s@, w as nat));
}

fn shown_name_exec(path: &str, st: PathStyle) -> (r: Vec<char>)
    ensures
        r@ == shown_name(path@, st),
{
    let name = FileEntry::dir(path).file_name_lossy(st);
    if name.as_str().unicode_len() == 0 {
        let r = chars_of(path);
        proof {
            match file_name_spec(path@, st) {
                Some(n) => assert(n.len() == 0),
                None => {},
            }
        }
        r
    } else {
        chars_of(name.as_str())
    }
}

/// The lines that present `report`, found with `strategy`, whose paths
/// follow `st`.
pub fn report_lines(report: &UsageReport, strategy: &str, st: PathStyle) -> (r: Vec<String>)
    ensures
        string_views(r@) == report_lines_spec(
            report.root@,
            report.total_bytes,
            report.file_count,
            cviews(report.top@),
            strategy@,
            st,
        ),
{
    let ghost top = cviews(report.top@);
    let mut lines: Vec<String> = Vec::new();
    lines.push(String::new());
    let mut l1: Vec<char> = Vec::new();
    append_chars(&mut l1, "  purify scan \u{2014} ");
    append_chars(&mut l1, report.root.as_str());
    lines.push(string_of(&l1));
    let mut l2: Vec<char> = Vec::new();
    append_chars(&mut l2, "  strategy: ");
    append_chars(&mut l2, strategy);
    lines.push(string_of(&l2));
    let mut l3: Vec<char> = Vec::new();
    append_chars(&mut l3, "  total: ");
    let fb = format_bytes(report.total_bytes);
    append_chars(&mut l3, fb.as_str());
    append_chars(&mut l3, "  across ");
    push_decimal(&mut l3, report.file_count as u128);
    append_chars(&mut l3, " files");
    lines.push(string_of(&l3));
    lines.push(String::new());
    let ghost head = string_views(lines@);
    assert(head =~= seq![
        Seq::<char>::empty(),
        "  purify scan \u{2014} "@ + report.root@,
        "  strategy: "@ + strategy@,
        "  total: "@ + format_bytes_spec(report.total_bytes) + "  across "@ + decimal(report.file_count as nat)
            + " files"@,
        Seq::<char>::empty(),
    ]) by {
        reveal_strlit("");
    }
    if report.top.len() == 0 {
        lines.push(String::from_str("  (nothing found)"));
        assert(string_views(lines@) =~= head.push("  (nothing found)"@));
        return lines;
    }
    lines.push(String::from_str("  Largest consumers:"));
    let ghost head2 = string_views(lines@);
    assert(head2 =~= head.push("  Largest consumers:"@));
    let mut width: usize = 0;
    let mut i: usize = 0;
    while i < report.top.len()
        invariant
            i <= report.top.len(),
            top == cviews(report.top@),
            width as nat == size_width(top.take(i as int)),
        decreases report.top.len() - i,
    {
        let l = format_bytes(report.top[i].size).as_str().unicode_len();
        assert(top.take(i + 1).drop_last() =~= top.take(i as int));
        assert(top.take(i + 1).last() == cview(report.top@[i as int]));
        if l > width {
            width = l;
        }
        i += 1;
    }
    assert(top.take(top.len() as int) =~= top);
    let ghost w = size_width(top);
    let mut j: usize = 0;
    while j < report.top.len()
        invariant
            j <= report.top.len(),
            top == cviews(report.top@),
            width as nat == w,
            w == size_width(top),
            string_views(lines@) =~= head2 + Seq::new(j as nat, |k: int| consumer_line(k as nat, top[k], w, st)),
        decreases report.top.len() - j,
    {
        let c: &Consumer = &report.top[j];
        let mut line: Vec<char> = Vec::new();
        append_chars(&mut line, "  ");
        let mut num: Vec<char> = Vec::new();
        push_decimal(&mut num, (j as u128) + 1);
        push_padded(&mut line, &num, 2);
        append_chars(&mut line, ". ");
        let fb = chars_of(format_bytes(c.size).as_str());
        push_padded(&mut line, &fb, width);
        append_chars(&mut line, "  [");
        if c.is_dir {
            append_chars(&mut line, "dir ");
        } else {
            append_chars(&mut line, "file");
        }
        append_chars(&mut line, "]  ");
        let name = shown_name_exec(c.path.as_str(), st);
        push_all(&mut line, &name);
        assert(top[j as int] == cview(*c));
        assert(line@ =~= consumer_line(j as nat, top[j as int], w, st));
        let ghost before = string_views(lines@);
        lines.push(string_of(&line));
        assert(string_views(lines@) =~= before.push(line@));
        assert(Seq::new((j + 1) as nat, |k: int| consumer_line(k as nat, top[k], w, st)) =~= Seq::new(
            j as nat,
            |k: int| consumer_line(k as nat, top[k], w, st),
        ).push(consumer_line(j as nat, top[j as int], w, st)));
        j += 1;
    }
    let ghost body = Seq::new(top.len(), |k: int| consumer_line(k as nat, top[k], w, st));
    let ghost mid = string_views(lines@);
    assert(mid =~= head2 + body);
    lines.push(String::new());
    proof {
        reveal_strlit("");
    }
    assert(string_views(lines@) =~= mid.push(Seq::<char>::empty()));
    assert(mid.push(Seq::<char>::empty()) =~= head.push("  Largest consumers:"@) + body.push(Seq::<char>::empty()));
    assert(string_views(lines@) =~= report_lines_spec(
        report.root@,
        report.total_bytes,
        report.file_count,
        top,
        strategy@,
        st,
    ));
    lines
}

} // verus!
