//! Reversible quarantine: the decisions behind moving a path into the
//! managed quarantine area, restoring it, and purging it.
//!
//! Nothing is deleted directly. A cleanup moves its target under the
//! quarantine root, namespaced by a fresh id, and records where it came from;
//! it can be restored to that exact place, or purged once its retention window
//! has passed. Protected system paths are refused outright. The metadata store
//! and the file moves themselves are the caller's; this module decides what
//! they must do.
use vstd::prelude::*;
use vstd::utf8::encode_utf8;

use crate::error::Error;
use crate::model::{file_name_chars, file_name_spec};
use crate::paths::{comps, has_drive, is_sep, join, join_chars, lemma_named_component, relative_piece, PathStyle};
use crate::safety::{is_protected, protected};
use crate::text::{chars_eq, chars_of, string_of};

verus! {

/// Lifecycle status of a quarantined item.
#[derive(Debug, Clone, Copy, PartialEq, Eq, Structural)]
pub enum ItemStatus {
    /// Currently held in quarantine, restorable.
    Quarantined,
    /// Restored to its original location.
    Restored,
    /// Permanently deleted.
    Purged,
}

/// The stored text of a status.
pub open spec fn status_text(s: ItemStatus) -> Seq<char> {
    match s {
        ItemStatus::Quarantined => "quarantined"@,
        ItemStatus::Restored => "restored"@,
        ItemStatus::Purged => "purged"@,
    }
}

/// The status a stored text names; anything unknown reads as quarantined.
pub open spec fn status_of_text(t: Seq<char>) -> ItemStatus {
    if t == "restored"@ {
        ItemStatus::Restored
    } else if t == "purged"@ {
        ItemStatus::Purged
    } else {
        ItemStatus::Quarantined
    }
}

/// The variant name of a status, as it appears in messages.
pub open spec fn status_name(s: ItemStatus) -> Seq<char> {
    match s {
        ItemStatus::Quarantined => "Quarantined"@,
        ItemStatus::Restored => "Restored"@,
        ItemStatus::Purged => "Purged"@,
    }
}

impl ItemStatus {
    /// The text stored for this status.
    pub fn as_str(self) -> (r: &'static str)
        ensures
            r@ == status_text(self),
    {
        match self {
            ItemStatus::Quarantined => "quarantined",
            ItemStatus::Restored => "restored",
            ItemStatus::Purged => "purged",
        }
    }

    /// Read a stored status text.
    pub fn parse(s: &str) -> (r: ItemStatus)
        ensures
            r == status_of_text(s@),
    {
        let c = chars_of(s);
        if chars_eq(&c, &chars_of("restored")) {
            ItemStatus::Restored
        } else if chars_eq(&c, &chars_of("purged")) {
            ItemStatus::Purged
        } else {
            ItemStatus::Quarantined
        }
    }

    /// The variant name of this status.
    pub fn name(self) -> (r: &'static str)
        ensures
            r@ == status_name(self),
    {
        match self {
            ItemStatus::Quarantined => "Quarantined",
            ItemStatus::Restored => "Restored",
            ItemStatus::Purged => "Purged",
        }
    }
}

/// Reading back the text stored for a status gives the status.
pub proof fn lemma_status_text_roundtrip(s: ItemStatus)
    ensures
        status_of_text(status_text(s)) == s,
{
    reveal_strlit("quarantined");
    reveal_strlit("restored");
    reveal_strlit("purged");
    assert("quarantined"@[0] != "restored"@[0]);
    assert("quarantined"@ != "purged"@);
    assert("purged"@[0] != "restored"@[0]);
}

/// A request to quarantine a single path.
#[derive(Debug, Clone)]
pub struct QuarantineRequest {
    /// Absolute path to move into quarantine.
    pub original_path: String,
    /// Known size in bytes (for reporting).
    pub size: u64,
    /// Whether the path is a directory.
    pub is_dir: bool,
    /// Why it is being quarantined (e.g. signature description).
    pub reason: String,
    /// The signature id that produced this, if any.
    pub signature_id: Option<String>,
    /// The confidence label, if any.
    pub confidence: Option<String>,
}

/// A record of a quarantined item.
#[derive(Debug, Clone, PartialEq, Eq)]
pub struct QuarantineItem {
    /// Unique identifier.
    pub id: String,
    /// Where the item came from (restore target).
    pub original_path: String,
    /// Where the item is currently stored.
    pub quarantine_path: String,
    /// Size in bytes.
    pub size: u64,
    /// Whether it is a directory.
    pub is_dir: bool,
    /// Why it was quarantined.
    pub reason: String,
    /// Signature id, if any.
    pub signature_id: Option<String>,
    /// Confidence label, if any.
    pub confidence: Option<String>,
    /// When it was quarantined (Unix seconds).
    pub quarantined_at: i64,
    /// Lifecycle status.
    pub status: ItemStatus,
}

/// `a` followed by `b`.
pub fn join_str(a: &str, b: &str) -> (r: String)
    ensures
        r@ == a@ + b@,
{
    let mut v = chars_of(a);
    let w = chars_of(b);
    let mut i: usize = 0;
    let ghost start = v@;
    while i < w.len()
        invariant
            i <= w@.len(),
            v@ == start + w@.take(i as int),
        decreases w.len() - i,
    {
        v.push(w[i]);
        assert(start + w@.take(i + 1) =~= (start + w@.take(i as int)).push(w@[i as int]));
        i += 1;
    }
    assert(w@.take(w@.len() as int) =~= w@);
    string_of(&v)
}

/// Whether a request may go ahead: protected paths are refused, and the
/// source must exist (`source_exists` is what the file system reported).
pub fn check_request(req: &QuarantineRequest, source_exists: bool) -> (r: Result<(), Error>)
    ensures
        protected(req.original_path@) ==> (r matches Err(Error::Refused(m)) && m@
            == "refusing to quarantine protected path: "@ + req.original_path@),
        !protected(req.original_path@) && !source_exists ==> (r matches Err(Error::Quarantine(m))
            && m@ == "source does not exist: "@ + req.original_path@),
        !protected(req.original_path@) && source_exists ==> r is Ok,
{
    if is_protected(req.original_path.as_str()) {
        return Err(Error::Refused(join_str("refusing to quarantine protected path: ", req.original_path.as_str())));
    }
    if !source_exists {
        return Err(Error::Quarantine(join_str("source does not exist: ", req.original_path.as_str())));
    }
    Ok(())
}

/// Names the BLAKE3 digest of a byte string: 32 bytes.
pub uninterp spec fn blake3_digest(input: Seq<u8>) -> Seq<u8>;

/// `blake3::hash`: the BLAKE3 digest of `input`. The contract claims only that
/// the result is a function of the input bytes alone, which the hash is.
#[verifier::external_body]
fn blake3_hash(input: &[u8]) -> (r: [u8; 32])
    ensures
        r@ == blake3_digest(input@),
{
    *blake3::hash(input).as_bytes()
}

/// The little-endian bytes of `v` (`u64::to_le_bytes`).
pub open spec fn le_bytes(v: u64) -> Seq<u8> {
    Seq::new(8, |i: int| ((v >> ((8 * i) as u64)) & 0xffu64) as u8)
}

/// The lowercase hexadecimal digit for `n` (below 16).
pub open spec fn hex_digit(n: u8) -> char {
    (if n < 10 {
        (n + 48) as u8
    } else {
        (n + 87) as u8
    }) as char
}

/// The first 16 lowercase hexadecimal digits of a digest (its first 8
/// bytes, high nibble first).
pub open spec fn hex_prefix(d: Seq<u8>) -> Seq<char> {
    Seq::new(16, |i: int| if i % 2 == 0 { hex_digit(d[i / 2] / 16) } else { hex_digit(d[i / 2] % 16) })
}

/// The bytes hashed for an id: the path, the time in seconds, the
/// sub-second nanoseconds, and the counter.
pub open spec fn id_input(original: Seq<char>, now_unix: i64, subsec_nanos: u32, counter: u64) -> Seq<u8> {
    encode_utf8(original) + le_bytes(now_unix as u64) + le_bytes(subsec_nanos as u64) + le_bytes(counter)
}

fn push_le(v: &mut Vec<u8>, x: u64)
    ensures
        final(v)@ == old(v)@ + le_bytes(x),
{
    let ghost start = v@;
    let mut i: u64 = 0;
    while i < 8
        invariant
            i <= 8,
            v@ == start + le_bytes(x).take(i as int),
        decreases 8 - i,
    {
        v.push(((x >> (8 * i)) & 0xff) as u8);
        assert(start + le_bytes(x).take(i + 1) =~= (start + le_bytes(x).take(i as int)).push(le_bytes(x)[i as int]));
        i += 1;
    }
    assert(le_bytes(x).take(8) =~= le_bytes(x));
}

fn hex_digit_exec(n: u8) -> (c: char)
    requires
        n < 16,
    ensures
        c == hex_digit(n),
{
    let b: u8 = if n < 10 { n + 48 } else { n + 87 };
    b as char
}

/// The bytes hashed for an item id: the path's UTF-8 bytes, then the time
/// in seconds, the sub-second nanoseconds and the counter, each as eight
/// little-endian bytes.
pub fn id_input_bytes(original: &str, now_unix: i64, subsec_nanos: u32, counter: u64) -> (r: Vec<u8>)
    ensures
        r@ == id_input(original@, now_unix, subsec_nanos, counter),
{
    let mut input: Vec<u8> = Vec::new();
    let b = original.as_bytes();
    let mut i: usize = 0;
    while i < b.len()
        invariant
            i <= b@.len(),
            b@ == encode_utf8(original@),
            input@ == b@.take(i as int),
        decreases b.len() - i,
    {
        input.push(b[i]);
        assert(b@.take(i + 1) =~= b@.take(i as int).push(b@[i as int]));
        i += 1;
    }
    assert(b@.take(b@.len() as int) =~= b@);
    push_le(&mut input, now_unix as u64);
    push_le(&mut input, subsec_nanos as u64);
    push_le(&mut input, counter);
    input
}

/// The id for a digest: its first 16 lowercase hexadecimal digits.
pub fn id_from_digest(digest: &[u8; 32]) -> (r: String)
    ensures
        r@ == hex_prefix(digest@),
{
    let ghost dv = digest@;
    let mut out: Vec<char> = Vec::new();
    let mut j: usize = 0;
    while j < 8
        invariant
            j <= 8,
            digest@ == dv,
            dv.len() == 32,
            out@ == hex_prefix(dv).take(2 * j as int),
        decreases 8 - j,
    {
        let byte = digest[j];
        let hi = hex_digit_exec(byte / 16);
        let lo = hex_digit_exec(byte % 16);
        out.push(hi);
        out.push(lo);
        assert(hex_prefix(dv).take(2 * j + 2) =~= hex_prefix(dv).take(2 * j as int).push(hi).push(lo));
        j += 1;
    }
    assert(hex_prefix(dv).take(16) =~= hex_prefix(dv));
    string_of(&out)
}

/// A fresh item id: the first 16 hex digits of the BLAKE3 hash of the path's
/// bytes, then the time, its sub-second part and a counter as little-endian
/// bytes, so that two items quarantined within one second differ even across
/// runs.
pub fn new_id(original: &str, now_unix: i64, subsec_nanos: u32, counter: u64) -> (r: String)
    ensures
        r@ == hex_prefix(blake3_digest(id_input(original@, now_unix, subsec_nanos, counter))),
{
    let input = id_input_bytes(original, now_unix, subsec_nanos, counter);
    let d = blake3_hash(input.as_slice());
    id_from_digest(&d)
}

/// The name a blob keeps: the original's file name, or `item` when it has
/// none.
pub open spec fn blob_name(original: Seq<char>, st: PathStyle) -> Seq<char> {
    match file_name_spec(original, st) {
        Some(n) => n,
        None => "item"@,
    }
}

/// Where a quarantined item is stored: `root/id/name`, keeping the original
/// file name (or `item` when the path has none).
pub open spec fn blob_path_spec(root: Seq<char>, id: Seq<char>, original: Seq<char>, st: PathStyle) -> Seq<char> {
    join(join(root, id, st), blob_name(original, st), st)
}

/// The name a blob keeps never starts with a separator.
proof fn lemma_blob_name_unrooted(original: Seq<char>, st: PathStyle)
    ensures
        !(blob_name(original, st).len() > 0 && is_sep(blob_name(original, st)[0], st)),
{
    reveal_strlit("item");
    match file_name_spec(original, st) {
        Some(n) => {
            let c = comps(original, st);
            lemma_named_component(original, st, c.len() - 1);
            assert(!is_sep(c[c.len() - 1][0], st));
        },
        None => {},
    }
}

/// Joining a relative piece keeps what it is joined to as a prefix.
proof fn lemma_join_extends(a: Seq<char>, b: Seq<char>, st: PathStyle)
    requires
        relative_piece(b, st),
    ensures
        join(a, b, st).len() >= a.len(),
        join(a, b, st).take(a.len() as int) =~= a,
{
}

/// Items with different ids never share a blob path: each blob lives in the
/// directory of its own id under the quarantine root (for ids of one length
/// that are relative pieces, as `new_id` makes them, and kept names without a
/// drive prefix).
pub proof fn lemma_blob_paths_distinct(
    root: Seq<char>,
    id1: Seq<char>,
    id2: Seq<char>,
    original1: Seq<char>,
    original2: Seq<char>,
    st: PathStyle,
)
    requires
        id1.len() == id2.len(),
        id1 != id2,
        relative_piece(id1, st),
        relative_piece(id2, st),
        !has_drive(blob_name(original1, st), st),
        !has_drive(blob_name(original2, st), st),
    ensures
        blob_path_spec(root, id1, original1, st) != blob_path_spec(root, id2, original2, st),
{
    lemma_blob_name_unrooted(original1, st);
    lemma_blob_name_unrooted(original2, st);
    let p1 = join(root, id1, st);
    let p2 = join(root, id2, st);
    let q = if st == PathStyle::Unix {
        if root.len() > 0 && root.last() != '/' { root.push('/') } else { root }
    } else {
        if root.len() > 0 && !is_sep(root.last(), st) && !(has_drive(root, st) && root.len() == 2) { root.push('\\') } else { root }
    };
    assert(p1 == q + id1);
    assert(p2 == q + id2);
    lemma_join_extends(p1, blob_name(original1, st), st);
    lemma_join_extends(p2, blob_name(original2, st), st);
    let b1 = blob_path_spec(root, id1, original1, st);
    let b2 = blob_path_spec(root, id2, original2, st);
    assert(b1.subrange(q.len() as int, (q.len() + id1.len()) as int) =~= id1);
    assert(b2.subrange(q.len() as int, (q.len() + id2.len()) as int) =~= id2);
}

/// The on-disk destination for a quarantined blob, preserving the file name
/// for human readability while namespacing by id to avoid collisions.
pub fn blob_path(root: &str, id: &str, original: &str, style: PathStyle) -> (r: String)
    ensures
        r@ == blob_path_spec(root@, id@, original@, style),
{
    let name = match file_name_chars(&chars_of(original), style) {
        Some(n) => n,
        None => chars_of("item"),
    };
    let dir = join_chars(&chars_of(root), &chars_of(id), style);
    string_of(&join_chars(&dir, &name, style))
}

/// The record of a request just moved into quarantine.
pub fn quarantined_item(req: &QuarantineRequest, id: String, quarantine_path: String, now_unix: i64) -> (r: QuarantineItem)
    ensures
        r.id == id,
        r.original_path@ == req.original_path@,
        r.quarantine_path == quarantine_path,
        r.size == req.size,
        r.is_dir == req.is_dir,
        r.reason@ == req.reason@,
        r.signature_id == req.signature_id,
        r.confidence == req.confidence,
        r.quarantined_at == now_unix,
        r.status == ItemStatus::Quarantined,
{
    QuarantineItem {
        id,
        original_path: req.original_path.clone(),
        quarantine_path,
        size: req.size,
        is_dir: req.is_dir,
        reason: req.reason.clone(),
        signature_id: match &req.signature_id {
            Some(s) => Some(s.clone()),
            None => None,
        },
        confidence: match &req.confidence {
            Some(s) => Some(s.clone()),
            None => None,
        },
        quarantined_at: now_unix,
        status: ItemStatus::Quarantined,
    }
}

impl QuarantineItem {
    /// Whether the item's blob is still held in quarantine (and so must be
    /// removed when it is purged).
    pub fn holds_blob(&self) -> (r: bool)
        ensures
            r == (self.status == ItemStatus::Quarantined),
    {
        self.status == ItemStatus::Quarantined
    }
}

/// Whether an item may be restored: it must still be quarantined, and its
/// original location must be free (`original_exists` is what the file system
/// reported).
pub fn check_restore(item: &QuarantineItem, original_exists: bool) -> (r: Result<(), Error>)
    ensures
        item.status != ItemStatus::Quarantined ==> (r matches Err(Error::Quarantine(m)) && m@ == "item "@
            + item.id@ + " is not currently quarantined (status: "@ + status_name(item.status) + ")"@),
        item.status == ItemStatus::Quarantined && original_exists ==> (r matches Err(Error::Quarantine(m))
            && m@ == "cannot restore "@ + item.id@ + ": original path already exists: "@
            + item.original_path@),
        item.status == ItemStatus::Quarantined && !original_exists ==> r is Ok,
{
    if item.status != ItemStatus::Quarantined {
        let a = join_str("item ", item.id.as_str());
        let b = join_str(a.as_str(), " is not currently quarantined (status: ");
        let c = join_str(b.as_str(), item.status.name());
        return Err(Error::Quarantine(join_str(c.as_str(), ")")));
    }
    if original_exists {
        let a = join_str("cannot restore ", item.id.as_str());
        let b = join_str(a.as_str(), ": original path already exists: ");
        return Err(Error::Quarantine(join_str(b.as_str(), item.original_path.as_str())));
    }
    Ok(())
}

/// `now.saturating_sub(days * 86400)`: the latest quarantine time that has
/// outlived a retention window of `days`.
pub open spec fn retention_cutoff(now_unix: i64, days: u32) -> int {
    crate::rules::sat_sub(now_unix, (days * 86400) as i64)
}

/// An item that is still quarantined and old enough to purge.
pub open spec fn is_expired(item: QuarantineItem, days: u32, now_unix: i64) -> bool {
    item.status == ItemStatus::Quarantined && item.quarantined_at <= retention_cutoff(now_unix, days)
}

/// The ids of the expired items, in order.
pub open spec fn expired_ids_spec(items: Seq<QuarantineItem>, days: u32, now_unix: i64) -> Seq<Seq<char>>
    decreases items.len(),
{
    if items.len() == 0 {
        Seq::empty()
    } else {
        let prev = expired_ids_spec(items.drop_last(), days, now_unix);
        if is_expired(items.last(), days, now_unix) {
            prev.push(items.last().id@)
        } else {
            prev
        }
    }
}

pub open spec fn string_seq_views(v: Seq<String>) -> Seq<Seq<char>> {
    Seq::new(v.len(), |i: int| v[i]@)
}

/// The ids of the items that have outlived a retention window of
/// `retention_days`: still quarantined, and quarantined no later than the
/// cutoff.
pub fn expired_ids(items: &[QuarantineItem], retention_days: u32, now_unix: i64) -> (r: Vec<String>)
    ensures
        string_seq_views(r@) == expired_ids_spec(items@, retention_days, now_unix),
{
    let window: i64 = (retention_days as i64) * 86_400;
    let cutoff = crate::rules::saturating_sub_i64(now_unix, window);
    let mut out: Vec<String> = Vec::new();
    let mut i: usize = 0;
    assert(items@.take(0) =~= Seq::<QuarantineItem>::empty());
    assert(string_seq_views(out@) =~= Seq::<Seq<char>>::empty());
    while i < items.len()
        invariant
            i <= items@.len(),
            cutoff == retention_cutoff(now_unix, retention_days),
            string_seq_views(out@) == expired_ids_spec(items@.take(i as int), retention_days, now_unix),
        decreases items.len() - i,
    {
        let it = &items[i];
        assert(items@.take(i + 1).drop_last() =~= items@.take(i as int));
        assert(items@.take(i + 1).last() == items@[i as int]);
        if it.status == ItemStatus::Quarantined && it.quarantined_at <= cutoff {
            let ghost old_out = string_seq_views(out@);
            out.push(it.id.clone());
            assert(string_seq_views(out@) =~= old_out.push(it.id@));
        }
        i += 1;
    }
    assert(items@.take(i as int) =~= items@);
    out
}

/// The items with the wanted status, in order (all items when no status is
/// wanted).
pub open spec fn with_status(items: Seq<QuarantineItem>, status: Option<ItemStatus>) -> Seq<QuarantineItem>
    decreases items.len(),
{
    if items.len() == 0 {
        Seq::empty()
    } else {
        let rest = with_status(items.skip(1), status);
        match status {
            Some(want) => if items[0].status == want {
                seq![items[0]] + rest
            } else {
                rest
            },
            None => seq![items[0]] + rest,
        }
    }
}

/// Keep the items with the wanted status, in order (all of them when no
/// status is wanted).
pub fn filter_status(items: Vec<QuarantineItem>, status: Option<ItemStatus>) -> (r: Vec<QuarantineItem>)
    ensures
        r@ == with_status(items@, status),
{
    let ghost orig = items@;
    let mut rest = items;
    let mut out: Vec<QuarantineItem> = Vec::new();
    while rest.len() > 0
        invariant
            out@ + with_status(rest@, status) == with_status(orig, status),
        decreases rest@.len(),
    {
        let ghost before = rest@;
        let ghost old_out = out@;
        let x = rest.remove(0);
        assert(rest@ =~= before.skip(1));
        let keep = match status {
            Some(want) => x.status == want,
            None => true,
        };
        if keep {
            assert(with_status(before, status) == seq![x] + with_status(rest@, status));
            out.push(x);
            assert(old_out.push(x) + with_status(rest@, status) =~= old_out + (seq![x] + with_status(rest@, status)));
        } else {
            assert(with_status(before, status) == with_status(rest@, status));
        }
    }
    assert(with_status(rest@, status) =~= Seq::<QuarantineItem>::empty());
    assert(out@ + Seq::<QuarantineItem>::empty() =~= out@);
    out
}

/// Where one quarantine operation stands.
#[derive(Debug, Clone, Copy, PartialEq, Eq, Structural)]
pub enum QuarantineStage {
    /// Checked and about to move the item into the blob area.
    Ready,
    /// Moved into the blob area, not yet recorded.
    Moved,
    /// Recording failed; moving the item back.
    RollingBack,
    /// Moved and recorded: the item is quarantined.
    Committed,
    /// Nothing changed: the move failed, or was undone.
    Aborted,
    /// Recording failed and moving the item back failed too: it is left in
    /// the blob area unrecorded, which must be reported.
    Stranded,
}

/// The next piece of outside work of a quarantine operation.
#[derive(Debug, Clone, Copy, PartialEq, Eq, Structural)]
pub enum QuarantineAction {
    /// Move the item to its blob path.
    MoveToBlob,
    /// Insert the item's record into the store.
    Record,
    /// Move the item from its blob path back to where it was.
    MoveBack,
    /// Stop: the stage is final.
    Finish,
}

/// The stage and action after the current action succeeded (`ok`) or failed.
pub open spec fn quarantine_next(s: QuarantineStage, ok: bool) -> (QuarantineStage, QuarantineAction) {
    match s {
        QuarantineStage::Ready => if ok {
            (QuarantineStage::Moved, QuarantineAction::Record)
        } else {
            (QuarantineStage::Aborted, QuarantineAction::Finish)
        },
        QuarantineStage::Moved => if ok {
            (QuarantineStage::Committed, QuarantineAction::Finish)
        } else {
            (QuarantineStage::RollingBack, QuarantineAction::MoveBack)
        },
        QuarantineStage::RollingBack => if ok {
            (QuarantineStage::Aborted, QuarantineAction::Finish)
        } else {
            (QuarantineStage::Stranded, QuarantineAction::Finish)
        },
        t => (t, QuarantineAction::Finish),
    }
}

pub open spec fn is_final(s: QuarantineStage) -> bool {
    s is Committed || s is Aborted || s is Stranded
}

/// The item sits in the blob area at this stage.
pub open spec fn in_blob_area(s: QuarantineStage) -> bool {
    s is Moved || s is RollingBack || s is Committed || s is Stranded
}

/// The store holds the item's record at this stage.
pub open spec fn holds_record(s: QuarantineStage) -> bool {
    s is Committed
}

/// The stage reached from `s` through the outcomes `oks`, one per action.
pub open spec fn quarantine_run(s: QuarantineStage, oks: Seq<bool>) -> QuarantineStage
    decreases oks.len(),
{
    if oks.len() == 0 {
        s
    } else {
        quarantine_next(quarantine_run(s, oks.drop_last()), oks.last()).0
    }
}

/// A quarantine operation starts by moving the item to its blob path.
pub fn quarantine_start() -> (r: (QuarantineStage, QuarantineAction))
    ensures
        r == (QuarantineStage::Ready, QuarantineAction::MoveToBlob),
{
    (QuarantineStage::Ready, QuarantineAction::MoveToBlob)
}

/// The next stage and action, given whether the last action succeeded: a
/// failed record is undone by moving the item back.
pub fn quarantine_step(s: QuarantineStage, ok: bool) -> (r: (QuarantineStage, QuarantineAction))
    ensures
        r == quarantine_next(s, ok),
{
    match s {
        QuarantineStage::Ready => if ok {
            (QuarantineStage::Moved, QuarantineAction::Record)
        } else {
            (QuarantineStage::Aborted, QuarantineAction::Finish)
        },
        QuarantineStage::Moved => if ok {
            (QuarantineStage::Committed, QuarantineAction::Finish)
        } else {
            (QuarantineStage::RollingBack, QuarantineAction::MoveBack)
        },
        QuarantineStage::RollingBack => if ok {
            (QuarantineStage::Aborted, QuarantineAction::Finish)
        } else {
            (QuarantineStage::Stranded, QuarantineAction::Finish)
        },
        t => (t, QuarantineAction::Finish),
    }
}

/// Quarantine is all-or-nothing: whatever the outcomes of its outside steps,
/// it finishes after at most three of them, and when it finishes the item is
/// in the blob area exactly when it is recorded, unless both the record and
/// the move back failed. It is recorded only when the move and the record
/// both succeeded.
pub proof fn lemma_quarantine_all_or_nothing(oks: Seq<bool>)
    requires
        oks.len() >= 3,
    ensures
        is_final(quarantine_run(QuarantineStage::Ready, oks)),
        in_blob_area(quarantine_run(QuarantineStage::Ready, oks)) == holds_record(
            quarantine_run(QuarantineStage::Ready, oks),
        ) || (quarantine_run(QuarantineStage::Ready, oks) is Stranded && oks[0] && !oks[1] && !oks[2]),
        holds_record(quarantine_run(QuarantineStage::Ready, oks)) <==> (oks[0] && oks[1]),
    decreases oks.len(),
{
    let r = QuarantineStage::Ready;
    let t1 = oks.take(1);
    let t2 = oks.take(2);
    let t3 = oks.take(3);
    assert(t1.drop_last() =~= Seq::<bool>::empty());
    assert(t2.drop_last() =~= t1);
    assert(t3.drop_last() =~= t2);
    assert(quarantine_run(r, Seq::<bool>::empty()) == r);
    assert(t1.last() == oks[0] && t2.last() == oks[1] && t3.last() == oks[2]);
    assert(quarantine_run(r, t1) == quarantine_next(r, oks[0]).0);
    assert(quarantine_run(r, t2) == quarantine_next(quarantine_run(r, t1), oks[1]).0);
    assert(quarantine_run(r, t3) == quarantine_next(quarantine_run(r, t2), oks[2]).0);
    lemma_final_stays(r, oks, 3);
}

/// Once final, a stage stays as it is.
proof fn lemma_final_stays(s: QuarantineStage, oks: Seq<bool>, k: int)
    requires
        0 <= k <= oks.len(),
        is_final(quarantine_run(s, oks.take(k))),
    ensures
        quarantine_run(s, oks) == quarantine_run(s, oks.take(k)),
    decreases oks.len() - k,
{
    if k < oks.len() {
        assert(oks.take(k + 1).drop_last() =~= oks.take(k));
        lemma_final_stays(s, oks, k + 1);
    } else {
        assert(oks.take(k) =~= oks);
    }
}

/// The item is still quarantined and was quarantined no later than
/// `now - days` (in seconds, saturating at the earliest time).
pub open spec fn outlived(item: QuarantineItem, days: u32, now_unix: i64) -> bool {
    &&& item.status == ItemStatus::Quarantined
    &&& item.quarantined_at as int <= if now_unix - days * 86400 < i64::MIN {
        i64::MIN as int
    } else {
        now_unix - days * 86400
    }
}

/// Purging selects, in order and once each, exactly the items that are still
/// quarantined and have outlived the retention window: an item already
/// restored or purged is never selected, however old.
pub proof fn lemma_expired_ids_exact(items: Seq<QuarantineItem>, days: u32, now_unix: i64) -> (idx: Seq<int>)
    ensures
        idx.len() == expired_ids_spec(items, days, now_unix).len(),
        forall|k: int|
            0 <= k < idx.len() ==> 0 <= #[trigger] idx[k] < items.len() && expired_ids_spec(items, days, now_unix)[k]
                == items[idx[k]].id@ && outlived(items[idx[k]], days, now_unix),
        forall|k1: int, k2: int| 0 <= k1 < k2 < idx.len() ==> #[trigger] idx[k1] < #[trigger] idx[k2],
        forall|i: int|
            0 <= i < items.len() && outlived(#[trigger] items[i], days, now_unix) ==> exists|k: int|
                0 <= k < idx.len() && idx[k] == i,
    decreases items.len(),
{
    if items.len() == 0 {
        Seq::empty()
    } else {
        let d = items.drop_last();
        let pidx = lemma_expired_ids_exact(d, days, now_unix);
        let last = items.last();
        let n = items.len() - 1;
        assert(is_expired(last, days, now_unix) == outlived(last, days, now_unix));
        assert forall|k: int| 0 <= k < pidx.len() implies items[pidx[k]] == d[pidx[k]] by {}
        if is_expired(last, days, now_unix) {
            let idx = pidx.push(n);
            assert forall|i: int| 0 <= i < items.len() && outlived(#[trigger] items[i], days, now_unix) implies exists|k: int|
                0 <= k < idx.len() && idx[k] == i by {
                if i < n {
                    assert(d[i] == items[i]);
                    let k = choose|k: int| 0 <= k < pidx.len() && pidx[k] == i;
                    assert(idx[k] == i);
                } else {
                    assert(idx[pidx.len() as int] == i);
                }
            }
            assert forall|k: int| 0 <= k < idx.len() implies 0 <= #[trigger] idx[k] < items.len()
                && expired_ids_spec(items, days, now_unix)[k] == items[idx[k]].id@ && outlived(
                items[idx[k]],
                days,
                now_unix,
            ) by {
                if k < pidx.len() {
                    assert(idx[k] == pidx[k]);
                }
            }
            idx
        } else {
            assert forall|i: int| 0 <= i < items.len() && outlived(#[trigger] items[i], days, now_unix) implies exists|k: int|
                0 <= k < pidx.len() && pidx[k] == i by {
                assert(i < n);
                assert(d[i] == items[i]);
            }
            pidx
        }
    }
}

} // verus!
