//! Putting fragments back together, and delivering each message once.
use crate::event;
use crate::event::{deliver, emit, no_events, Event, Level};
use crate::framing;
use crate::framing::{DeviceId, FragHeader, T_FILE, T_TEXT};
use crate::text;
use crate::text::{push_decimal, push_hex4};
use vstd::prelude::*;

verus! {

/// Nanoseconds before an incomplete message is dropped: five minutes.
pub const REASM_TIMEOUT: u64 = 300_000_000_000;

/// Who sent a message, and which of theirs it is.
pub type MsgKey = (DeviceId, u16);

/// Something last touched at `touched` still counts at `now`.
pub open spec fn fresh(touched: u64, now: u64) -> bool {
    now - touched <= REASM_TIMEOUT
}

/// A message of which some fragments have arrived.
#[verifier::ext_equal]
pub struct PartialView {
    /// The fragments, each where it has arrived.
    pub parts: Seq<Option<Seq<u8>>>,
    pub kind: u8,
    pub touched: u64,
}

/// The messages that are under way, and when the finished ones were finished.
#[verifier::ext_equal]
pub struct ReassemblerView {
    pub pending: Map<MsgKey, PartialView>,
    pub delivered: Map<MsgKey, u64>,
}

// --------------------------------------------------------------------------- //
// Tables
// --------------------------------------------------------------------------- //
/// A row of a table that is looked up by message.
trait Row: Sized {
    type Val;

    spec fn key(self) -> MsgKey;

    spec fn val(self) -> Self::Val;

    spec fn stamp(v: Self::Val) -> u64;

    fn is_for(&self, src: DeviceId, msg_id: u16) -> (yes: bool)
        ensures
            yes == (self.key() == (src, msg_id)),
    ;

    fn last_touched(&self) -> (t: u64)
        ensures
            t == Self::stamp(self.val()),
    ;
}

/// No two rows are for the same message.
spec fn distinct<R: Row>(rows: Seq<R>) -> bool {
    forall|i: int, j: int|
        0 <= i < j < rows.len() ==> (#[trigger] rows[i]).key() != (#[trigger] rows[j]).key()
}

/// Some row is for this message.
spec fn has_row<R: Row>(rows: Seq<R>, key: MsgKey) -> bool {
    exists|i: int| 0 <= i < rows.len() && (#[trigger] rows[i]).key() == key
}

/// The row for this message.
spec fn row_of<R: Row>(rows: Seq<R>, key: MsgKey) -> int {
    choose|i: int| 0 <= i < rows.len() && (#[trigger] rows[i]).key() == key
}

/// What a table says, message by message.
spec fn table<R: Row>(rows: Seq<R>) -> Map<MsgKey, R::Val> {
    Map::new(|key: MsgKey| has_row(rows, key), |key: MsgKey| rows[row_of(rows, key)].val())
}

proof fn lemma_row<R: Row>(rows: Seq<R>, i: int)
    requires
        distinct(rows),
        0 <= i < rows.len(),
    ensures
        table(rows).contains_key(rows[i].key()),
        row_of(rows, rows[i].key()) == i,
        table(rows)[rows[i].key()] == rows[i].val(),
{
    let key = rows[i].key();
    assert(has_row(rows, key));
    let k = row_of(rows, key);
    assert(rows[k].key() == key);
    if k < i {
        assert(rows[k].key() != rows[i].key());
    } else if i < k {
        assert(rows[i].key() != rows[k].key());
    }
}

proof fn lemma_remove_row<R: Row>(rows: Seq<R>, i: int)
    requires
        distinct(rows),
        0 <= i < rows.len(),
    ensures
        distinct(rows.remove(i)),
        table(rows.remove(i)) == table(rows).remove(rows[i].key()),
{
    let after = rows.remove(i);
    let gone = rows[i].key();
    assert forall|k: int| 0 <= k < after.len() implies #[trigger] after[k] == rows[if k < i {
        k
    } else {
        k + 1
    }] by {}
    assert forall|a: int, b: int| 0 <= a < b < after.len() implies (#[trigger] after[a]).key() != (
    #[trigger] after[b]).key() by {
        let a0 = if a < i {
            a
        } else {
            a + 1
        };
        let b0 = if b < i {
            b
        } else {
            b + 1
        };
        assert(rows[a0].key() != rows[b0].key());
    }
    assert forall|key: MsgKey| #[trigger] has_row(after, key) == (has_row(rows, key) && key
        != gone) by {
        if has_row(after, key) {
            let k = row_of(after, key);
            let k0 = if k < i {
                k
            } else {
                k + 1
            };
            assert(rows[k0].key() == key);
            if k0 < i {
                assert(rows[k0].key() != rows[i].key());
            } else {
                assert(rows[i].key() != rows[k0].key());
            }
        }
        if has_row(rows, key) && key != gone {
            let k = row_of(rows, key);
            let k1 = if k < i {
                k
            } else {
                k - 1
            };
            assert(after[k1].key() == key);
        }
    }
    assert forall|key: MsgKey| has_row(after, key) implies #[trigger] table(after)[key]
        == table(rows)[key] by {
        let k = row_of(after, key);
        let k0 = if k < i {
            k
        } else {
            k + 1
        };
        lemma_row(after, k);
        lemma_row(rows, k0);
    }
    assert(table(after) =~= table(rows).remove(gone));
}

proof fn lemma_push_row<R: Row>(rows: Seq<R>, row: R)
    requires
        distinct(rows),
        !has_row(rows, row.key()),
    ensures
        distinct(rows.push(row)),
        table(rows.push(row)) == table(rows).insert(row.key(), row.val()),
{
    let after = rows.push(row);
    let n = rows.len() as int;
    assert forall|a: int, b: int| 0 <= a < b < after.len() implies (#[trigger] after[a]).key() != (
    #[trigger] after[b]).key() by {
        if b == n {
            assert(rows[a].key() != row.key());
        }
    }
    assert forall|key: MsgKey| #[trigger] has_row(after, key) == (has_row(rows, key) || key
        == row.key()) by {
        if has_row(after, key) {
            let k = row_of(after, key);
            if k < n {
                assert(rows[k].key() == key);
            }
        }
        if has_row(rows, key) {
            assert(after[row_of(rows, key)].key() == key);
        }
        if key == row.key() {
            assert(after[n].key() == key);
        }
    }
    assert forall|key: MsgKey| has_row(after, key) implies #[trigger] table(after)[key] == table(
        rows,
    ).insert(row.key(), row.val())[key] by {
        let k = row_of(after, key);
        lemma_row(after, k);
        if k < n {
            lemma_row(rows, k);
            assert(key != row.key());
        }
    }
    assert(table(after) =~= table(rows).insert(row.key(), row.val()));
}

/// The row for a message, if there is one.
fn find<R: Row>(rows: &Vec<R>, src: DeviceId, msg_id: u16) -> (at: Option<usize>)
    requires
        distinct(rows@),
    ensures
        match at {
            Some(i) => i < rows@.len() && rows@[i as int].key() == (src, msg_id) && table(
                rows@,
            ).contains_key((src, msg_id)) && table(rows@)[(src, msg_id)] == rows@[i as int].val(),
            None => !table(rows@).contains_key((src, msg_id)) && !has_row(rows@, (src, msg_id)),
        },
{
    let mut i: usize = 0;
    while i < rows.len()
        invariant
            i <= rows@.len(),
            distinct(rows@),
            forall|k: int| 0 <= k < i ==> (#[trigger] rows@[k]).key() != (src, msg_id),
        decreases rows@.len() - i,
    {
        if rows[i].is_for(src, msg_id) {
            proof {
                lemma_row(rows@, i as int);
            }
            return Some(i);
        }
        i = i + 1;
    }
    None
}

/// Drop the rows that no longer count.
fn expire<R: Row>(rows: &mut Vec<R>, now: u64)
    requires
        distinct(old(rows)@),
    ensures
        distinct(final(rows)@),
        forall|key: MsgKey| #[trigger]
            table(final(rows)@).contains_key(key) <==> table(old(rows)@).contains_key(key) && fresh(
                R::stamp(table(old(rows)@)[key]),
                now,
            ),
        forall|key: MsgKey|
            table(final(rows)@).contains_key(key) ==> #[trigger] table(final(rows)@)[key] == table(
                old(rows)@,
            )[key],
{
    let ghost all = table(rows@);
    let mut i: usize = 0;
    while i < rows.len()
        invariant
            i <= rows@.len(),
            distinct(rows@),
            forall|key: MsgKey| #[trigger]
                table(rows@).contains_key(key) ==> all.contains_key(key) && table(rows@)[key]
                    == all[key],
            forall|key: MsgKey| #[trigger]
                all.contains_key(key) && fresh(R::stamp(all[key]), now) ==> table(
                    rows@,
                ).contains_key(key),
            forall|j: int| 0 <= j < i ==> fresh(R::stamp((#[trigger] rows@[j]).val()), now),
        decreases rows@.len() - i,
    {
        proof {
            lemma_row(rows@, i as int);
        }
        let t: u64 = rows[i].last_touched();
        if now <= t || now - t <= REASM_TIMEOUT {
            i = i + 1;
        } else {
            proof {
                lemma_remove_row(rows@, i as int);
            }
            let ghost before = rows@;
            rows.remove(i);
            assert forall|j: int| 0 <= j < i implies fresh(
                R::stamp((#[trigger] rows@[j]).val()),
                now,
            ) by {
                assert(rows@[j] == before[j]);
            }
        }
    }
    assert forall|key: MsgKey| #[trigger] table(rows@).contains_key(key) implies all.contains_key(
        key,
    ) && fresh(R::stamp(all[key]), now) by {
        let j = row_of(rows@, key);
        assert(has_row(rows@, key));
        lemma_row(rows@, j);
    }
}

// --------------------------------------------------------------------------- //
// One fragment
// --------------------------------------------------------------------------- //
/// How many fragments have arrived.
pub open spec fn arrived(parts: Seq<Option<Seq<u8>>>) -> nat
    decreases parts.len(),
{
    if parts.len() == 0 {
        0
    } else {
        arrived(parts.drop_last()) + (if parts.last() is Some {
            1nat
        } else {
            0
        })
    }
}

/// The fragments in order, one behind the other.
pub open spec fn joined(parts: Seq<Option<Seq<u8>>>) -> Seq<u8>
    decreases parts.len(),
{
    if parts.len() == 0 {
        Seq::empty()
    } else {
        joined(parts.drop_last()) + (match parts.last() {
            Some(p) => p,
            None => Seq::empty(),
        })
    }
}

/// What became of a fragment.
#[verifier::ext_equal]
pub enum Verdict {
    /// Its message was delivered before.
    Duplicate,
    /// Its message has another number of fragments: this many.
    Mismatch(nat),
    /// It was kept; so many have arrived.
    Kept(nat),
    /// It was the last one: the message, and its kind.
    Complete(u8, Seq<u8>),
}

/// The state after a fragment, and what became of it.
#[verifier::ext_equal]
pub struct Arrival {
    pub state: ReassemblerView,
    pub verdict: Verdict,
}

/// The finished messages that still count.
pub open spec fn remembered(delivered: Map<MsgKey, u64>, now: u64) -> Map<MsgKey, u64> {
    Map::new(
        |k: MsgKey| delivered.contains_key(k) && fresh(delivered[k], now),
        |k: MsgKey| delivered[k],
    )
}

/// The messages under way that still count.
pub open spec fn under_way(pending: Map<MsgKey, PartialView>, now: u64) -> Map<
    MsgKey,
    PartialView,
> {
    Map::new(
        |k: MsgKey| pending.contains_key(k) && fresh(pending[k].touched, now),
        |k: MsgKey| pending[k],
    )
}

/// Which message a fragment belongs to.
pub open spec fn key_of(hdr: FragHeader) -> MsgKey {
    (hdr.src, hdr.msg_id)
}

/// The message a fragment is put into: the one under way, or a new one of the
/// shape that the fragment gives.
pub open spec fn slot_for(pending: Map<MsgKey, PartialView>, hdr: FragHeader, now: u64) -> PartialView {
    if pending.contains_key(key_of(hdr)) {
        pending[key_of(hdr)]
    } else {
        PartialView {
            parts: Seq::new(hdr.frag_total as nat, |i: int| None),
            kind: hdr.kind,
            touched: now,
        }
    }
}

/// What a fragment does.
///
/// The first fragment of a message establishes its shape. A later frame claiming
/// a different total is a corrupted header that happened to pass the CRC, or a
/// message id used twice; either way, splicing it in would silently produce a wrong
/// message.
pub open spec fn arrival(s: ReassemblerView, hdr: FragHeader, frag: Seq<u8>, now: u64) -> Arrival {
    let delivered = remembered(s.delivered, now);
    let key = key_of(hdr);
    if delivered.contains_key(key) {
        Arrival { state: ReassemblerView { delivered, ..s }, verdict: Verdict::Duplicate }
    } else {
        let pending = under_way(s.pending, now);
        let slot = slot_for(pending, hdr, now);
        let parts = slot.parts.update(hdr.frag_idx as int, Some(frag));
        if slot.parts.len() != hdr.frag_total {
            Arrival {
                state: ReassemblerView { pending, delivered },
                verdict: Verdict::Mismatch(slot.parts.len()),
            }
        } else if arrived(parts) < parts.len() {
            Arrival {
                state: ReassemblerView {
                    pending: pending.insert(
                        key,
                        PartialView { parts, kind: slot.kind, touched: now },
                    ),
                    delivered,
                },
                verdict: Verdict::Kept(arrived(parts)),
            }
        } else {
            Arrival {
                state: ReassemblerView {
                    pending: pending.remove(key),
                    delivered: delivered.insert(key, now),
                },
                verdict: Verdict::Complete(slot.kind, joined(parts)),
            }
        }
    }
}

/// What the user is told of a fragment.
pub open spec fn arrival_events(hdr: FragHeader, verdict: Verdict) -> Seq<event::EventView> {
    let number = text::decimal((hdr.frag_idx + 1) as nat);
    let total = text::decimal(hdr.frag_total as nat);
    match verdict {
        Verdict::Duplicate => seq![
            event::EventView::Log(
                Level::Info,
                "duplicate frag "@ + number + "/"@ + total + " of msg "@ + text::hex4(hdr.msg_id)
                    + " -- re-acked, not re-delivered"@,
            ),
        ],
        Verdict::Mismatch(n) => seq![
            event::EventView::Log(
                Level::Warn,
                "frag "@ + number + " of msg "@ + text::hex4(hdr.msg_id) + " claims "@ + total
                    + " fragments, not "@ + text::decimal(n) + " -- ignored"@,
            ),
        ],
        Verdict::Kept(got) => seq![
            event::EventView::Progress {
                pct: (got * 100 / hdr.frag_total as nat) as u8,
                note: "RX "@ + text::decimal(got) + "/"@ + total,
            },
        ],
        Verdict::Complete(kind, blob) => seq![
            event::EventView::Progress { pct: 100, note: "RX "@ + total + "/"@ + total },
            event::delivery(kind, blob),
        ],
    }
}

struct Done {
    src: DeviceId,
    msg_id: u16,
    at: u64,
}

impl Row for Done {
    type Val = u64;

    spec fn key(self) -> MsgKey {
        (self.src, self.msg_id)
    }

    spec fn val(self) -> u64 {
        self.at
    }

    spec fn stamp(v: u64) -> u64 {
        v
    }

    fn is_for(&self, src: DeviceId, msg_id: u16) -> (yes: bool) {
        self.src == src && self.msg_id == msg_id
    }

    fn last_touched(&self) -> (t: u64) {
        self.at
    }
}

struct Partial {
    src: DeviceId,
    msg_id: u16,
    kind: u8,
    touched: u64,
    parts: Vec<Option<Vec<u8>>>,
}

spec fn part_view(p: Option<Vec<u8>>) -> Option<Seq<u8>> {
    match p {
        Some(v) => Some(v@),
        None => None,
    }
}

spec fn part_views(parts: Seq<Option<Vec<u8>>>) -> Seq<Option<Seq<u8>>> {
    Seq::new(parts.len(), |i: int| part_view(parts[i]))
}

impl Row for Partial {
    type Val = PartialView;

    spec fn key(self) -> MsgKey {
        (self.src, self.msg_id)
    }

    spec fn val(self) -> PartialView {
        PartialView { parts: part_views(self.parts@), kind: self.kind, touched: self.touched }
    }

    spec fn stamp(v: PartialView) -> u64 {
        v.touched
    }

    fn is_for(&self, src: DeviceId, msg_id: u16) -> (yes: bool) {
        self.src == src && self.msg_id == msg_id
    }

    fn last_touched(&self) -> (t: u64) {
        self.touched
    }
}

fn count_arrived(parts: &Vec<Option<Vec<u8>>>) -> (n: usize)
    ensures
        n == arrived(part_views(parts@)),
        n <= parts@.len(),
{
    let mut n: usize = 0;
    let mut i: usize = 0;
    let ghost all = part_views(parts@);
    while i < parts.len()
        invariant
            n <= i <= parts@.len(),
            all == part_views(parts@),
            n == arrived(all.take(i as int)),
        decreases parts@.len() - i,
    {
        assert(all.take(i + 1).drop_last() =~= all.take(i as int));
        if parts[i].is_some() {
            n = n + 1;
        }
        i = i + 1;
    }
    assert(all.take(i as int) =~= all);
    n
}

fn join(parts: &Vec<Option<Vec<u8>>>) -> (blob: Vec<u8>)
    ensures
        blob@ == joined(part_views(parts@)),
{
    let mut blob: Vec<u8> = Vec::new();
    let mut i: usize = 0;
    let ghost all = part_views(parts@);
    while i < parts.len()
        invariant
            i <= parts@.len(),
            all == part_views(parts@),
            blob@ == joined(all.take(i as int)),
        decreases parts@.len() - i,
    {
        assert(all.take(i + 1).drop_last() =~= all.take(i as int));
        match &parts[i] {
            Some(p) => {
                blob.extend_from_slice(p.as_slice());
            },
            None => {
                assert(blob@ + Seq::<u8>::empty() =~= blob@);
            },
        }
        i = i + 1;
    }
    assert(all.take(i as int) =~= all);
    blob
}

/// The messages that are under way on a link, and the ones it finished lately.
pub struct Reassembler {
    pending: Vec<Partial>,
    delivered: Vec<Done>,
}

impl View for Reassembler {
    type V = ReassemblerView;

    closed spec fn view(&self) -> ReassemblerView {
        ReassemblerView { pending: table(self.pending@), delivered: table(self.delivered@) }
    }
}

impl Reassembler {
    /// No message is kept twice.
    pub closed spec fn wf(self) -> bool {
        distinct(self.pending@) && distinct(self.delivered@)
    }

    pub fn new() -> (r: Self)
        ensures
            r.wf(),
            r@.pending == Map::<MsgKey, PartialView>::empty(),
            r@.delivered == Map::<MsgKey, u64>::empty(),
    {
        let r = Reassembler { pending: Vec::new(), delivered: Vec::new() };
        assert(r@.pending =~= Map::<MsgKey, PartialView>::empty());
        assert(r@.delivered =~= Map::<MsgKey, u64>::empty());
        r
    }

    /// Drop the finished messages that no longer count, and say whether this one
    /// is among those that do.
    fn recall(&mut self, src: DeviceId, msg_id: u16, now: u64) -> (seen: bool)
        requires
            old(self).wf(),
        ensures
            final(self).wf(),
            final(self)@.pending == old(self)@.pending,
            final(self)@.delivered == remembered(old(self)@.delivered, now),
            seen == final(self)@.delivered.contains_key((src, msg_id)),
    {
        let ghost before = self@.delivered;
        expire(&mut self.delivered, now);
        assert(self@.delivered =~= remembered(before, now));
        find(&self.delivered, src, msg_id).is_some()
    }

    /// Take the message under way that a fragment belongs to, or begin it; what no
    /// longer counts is dropped.
    fn take_slot(&mut self, hdr: &FragHeader, now: u64) -> (slot: Partial)
        requires
            old(self).wf(),
        ensures
            final(self).wf(),
            final(self)@.delivered == old(self)@.delivered,
            slot.key() == key_of(*hdr),
            slot.val() == slot_for(under_way(old(self)@.pending, now), *hdr, now),
            final(self)@.pending == under_way(old(self)@.pending, now).remove(key_of(*hdr)),
    {
        let ghost before = self@.pending;
        expire(&mut self.pending, now);
        assert(self@.pending =~= under_way(before, now));
        match find(&self.pending, hdr.src, hdr.msg_id) {
            Some(i) => {
                proof {
                    lemma_remove_row(self.pending@, i as int);
                }
                self.pending.remove(i)
            },
            None => {
                assert(self@.pending =~= self@.pending.remove(key_of(*hdr)));
                let mut parts: Vec<Option<Vec<u8>>> = Vec::new();
                let mut i: u16 = 0;
                while i < hdr.frag_total
                    invariant
                        i <= hdr.frag_total,
                        parts@.len() == i,
                        forall|k: int| 0 <= k < i ==> #[trigger] parts@[k] is None,
                    decreases hdr.frag_total - i,
                {
                    parts.push(None);
                    i = i + 1;
                }
                let slot = Partial {
                    src: hdr.src,
                    msg_id: hdr.msg_id,
                    kind: hdr.kind,
                    touched: now,
                    parts,
                };
                assert(slot.val().parts =~= Seq::new(hdr.frag_total as nat, |i: int| None));
                slot
            },
        }
    }

    /// Take one fragment that is for us, and say what happened.
    pub fn reassemble(&mut self, hdr: &FragHeader, frag: Vec<u8>, now: u64) -> (events: Vec<Event>)
        requires
            old(self).wf(),
            hdr.frag_idx < hdr.frag_total,
        ensures
            final(self).wf(),
            final(self)@ == arrival(old(self)@, *hdr, frag@, now).state,
            event::views(events@) == arrival_events(
                *hdr,
                arrival(old(self)@, *hdr, frag@, now).verdict,
            ),
    {
        let ghost start = self@;
        let ghost done = remembered(start.delivered, now);
        let ghost pending = under_way(start.pending, now);
        let mut events = no_events();
        let number: u128 = hdr.frag_idx as u128 + 1;
        // A lost ack makes the sender resend a fragment we already have. It must
        // still be acknowledged or the sender never advances -- but it must not be
        // delivered twice.
        if self.recall(hdr.src, hdr.msg_id, now) {
            let mut note = "duplicate frag ".to_owned();
            push_decimal(&mut note, number);
            note.append("/");
            push_decimal(&mut note, hdr.frag_total as u128);
            note.append(" of msg ");
            push_hex4(&mut note, hdr.msg_id);
            note.append(" -- re-acked, not re-delivered");
            emit(&mut events, Event::Log(Level::Info, note));
            assert(event::views(events@) =~= arrival_events(*hdr, Verdict::Duplicate));
            return events;
        }
        let mut slot = self.take_slot(hdr, now);
        let ghost held = slot.val();
        let total: usize = slot.parts.len();
        if total != hdr.frag_total as usize {
            let mut note = "frag ".to_owned();
            push_decimal(&mut note, number);
            note.append(" of msg ");
            push_hex4(&mut note, hdr.msg_id);
            note.append(" claims ");
            push_decimal(&mut note, hdr.frag_total as u128);
            note.append(" fragments, not ");
            push_decimal(&mut note, total as u128);
            note.append(" -- ignored");
            emit(&mut events, Event::Log(Level::Warn, note));
            proof {
                assert(pending.contains_key(key_of(*hdr)));
                assert(!has_row(self.pending@, slot.key())) by {
                    assert(!table(self.pending@).contains_key(slot.key()));
                }
                lemma_push_row(self.pending@, slot);
                assert(pending.remove(key_of(*hdr)).insert(key_of(*hdr), held) =~= pending);
            }
            self.pending.push(slot);
            assert(event::views(events@) =~= arrival_events(*hdr, Verdict::Mismatch(total as nat)));
            return events;
        }
        let ghost parts = held.parts.update(hdr.frag_idx as int, Some(frag@));
        slot.parts.set(hdr.frag_idx as usize, Some(frag));
        slot.touched = now;
        assert(slot.val().parts =~= parts);
        let got: usize = count_arrived(&slot.parts);
        let mut note = "RX ".to_owned();
        push_decimal(&mut note, got as u128);
        note.append("/");
        push_decimal(&mut note, total as u128);
        let pct: u8 = (got as u128 * 100 / total as u128) as u8;
        emit(&mut events, Event::Progress { pct, note });
        if got == total {
            let blob = join(&slot.parts);
            proof {
                assert(!has_row(self.delivered@, slot.key())) by {
                    assert(!table(self.delivered@).contains_key(slot.key()));
                }
                lemma_push_row(
                    self.delivered@,
                    Done { src: hdr.src, msg_id: hdr.msg_id, at: now },
                );
            }
            self.delivered.push(Done { src: hdr.src, msg_id: hdr.msg_id, at: now });
            emit(&mut events, deliver(slot.kind, blob.as_slice()));
            assert(got * 100 / (total as int) == 100) by (nonlinear_arith)
                requires
                    got == total,
                    0 < total,
            ;
            assert(event::views(events@) =~= arrival_events(
                *hdr,
                Verdict::Complete(slot.kind, blob@),
            ));
        } else {
            proof {
                assert(!has_row(self.pending@, slot.key())) by {
                    assert(!table(self.pending@).contains_key(slot.key()));
                }
                lemma_push_row(self.pending@, slot);
                assert(pending.remove(key_of(*hdr)).insert(key_of(*hdr), slot.val())
                    =~= pending.insert(key_of(*hdr), slot.val()));
            }
            self.pending.push(slot);
            assert(event::views(events@) =~= arrival_events(*hdr, Verdict::Kept(got as nat)));
        }
        events
    }
}

// --------------------------------------------------------------------------- //
// Many fragments
// --------------------------------------------------------------------------- //
/// One fragment and when it came.
#[verifier::ext_equal]
pub struct Fragment {
    pub hdr: FragHeader,
    pub frag: Seq<u8>,
    pub now: u64,
}

/// A message as its sender cut it up.
#[verifier::ext_equal]
pub struct Message {
    pub key: MsgKey,
    pub kind: u8,
    pub frags: Seq<Seq<u8>>,
}

/// Pieces one behind the other.
pub open spec fn whole(frags: Seq<Seq<u8>>) -> Seq<u8>
    decreases frags.len(),
{
    if frags.len() == 0 {
        Seq::empty()
    } else {
        whole(frags.drop_last()) + frags.last()
    }
}

/// The state after a run of fragments.
pub open spec fn after(s: ReassemblerView, run: Seq<Fragment>) -> ReassemblerView
    decreases run.len(),
{
    if run.len() == 0 {
        s
    } else {
        let f = run.last();
        arrival(after(s, run.drop_last()), f.hdr, f.frag, f.now).state
    }
}

/// What became of the last fragment of a run.
pub open spec fn last_verdict(s: ReassemblerView, run: Seq<Fragment>) -> Verdict {
    let f = run.last();
    arrival(after(s, run.drop_last()), f.hdr, f.frag, f.now).verdict
}

/// The deliveries of one message during a run, in order.
pub open spec fn deliveries(s: ReassemblerView, run: Seq<Fragment>, key: MsgKey) -> Seq<Verdict>
    decreases run.len(),
{
    if run.len() == 0 {
        Seq::empty()
    } else {
        let before = deliveries(s, run.drop_last(), key);
        if key_of(run.last().hdr) == key && last_verdict(s, run) is Complete {
            before.push(last_verdict(s, run))
        } else {
            before
        }
    }
}

/// Fragment `i` of a message occurs in a run.
pub open spec fn came(run: Seq<Fragment>, key: MsgKey, i: int) -> bool {
    exists|j: int|
        0 <= j < run.len() && key_of((#[trigger] run[j]).hdr) == key && run[j].hdr.frag_idx == i
}

/// Every fragment of a message occurs in a run.
pub open spec fn all_came(run: Seq<Fragment>, m: Message) -> bool {
    forall|i: int| 0 <= i < m.frags.len() ==> #[trigger] came(run, m.key, i)
}

/// A fragment is of another message, or as the sender of this one cut it.
pub open spec fn genuine(f: Fragment, m: Message) -> bool {
    key_of(f.hdr) == m.key ==> {
        &&& f.hdr.frag_total == m.frags.len()
        &&& f.hdr.frag_idx < f.hdr.frag_total
        &&& f.hdr.kind == m.kind
        &&& f.frag == m.frags[f.hdr.frag_idx as int]
    }
}

/// A run of fragments, this message's among them in any order and any number of
/// times, all within the time a message may take from `t0` on.
pub open spec fn in_time(run: Seq<Fragment>, m: Message, t0: u64) -> bool {
    forall|j: int|
        0 <= j < run.len() ==> genuine(#[trigger] run[j], m) && t0 <= run[j].now && run[j].now - t0
            <= REASM_TIMEOUT
}

/// Nothing of a message is known that still counts at `t0`.
pub open spec fn unknown(s: ReassemblerView, key: MsgKey, t0: u64) -> bool {
    &&& s.delivered.contains_key(key) ==> !fresh(s.delivered[key], t0)
    &&& s.pending.contains_key(key) ==> !fresh(s.pending[key].touched, t0)
}

proof fn lemma_arrived(parts: Seq<Option<Seq<u8>>>)
    ensures
        arrived(parts) <= parts.len(),
        arrived(parts) == parts.len() <==> forall|i: int|
            0 <= i < parts.len() ==> #[trigger] parts[i] is Some,
    decreases parts.len(),
{
    if parts.len() > 0 {
        let rest = parts.drop_last();
        lemma_arrived(rest);
        if arrived(parts) == parts.len() {
            assert forall|i: int| 0 <= i < parts.len() implies #[trigger] parts[i] is Some by {
                if i < rest.len() {
                    assert(rest[i] is Some);
                }
            }
        }
        if forall|i: int| 0 <= i < parts.len() ==> #[trigger] parts[i] is Some {
            assert forall|i: int| 0 <= i < rest.len() implies #[trigger] rest[i] is Some by {
                assert(parts[i] is Some);
            }
            assert(parts[parts.len() - 1] is Some);
        }
    }
}

proof fn lemma_joined(parts: Seq<Option<Seq<u8>>>, frags: Seq<Seq<u8>>)
    requires
        parts.len() == frags.len(),
        forall|i: int| 0 <= i < parts.len() ==> #[trigger] parts[i] == Some(frags[i]),
    ensures
        joined(parts) == whole(frags),
    decreases parts.len(),
{
    if parts.len() > 0 {
        assert forall|i: int| 0 <= i < parts.len() - 1 implies #[trigger] parts.drop_last()[i]
            == Some(frags.drop_last()[i]) by {
            assert(parts[i] == Some(frags[i]));
        }
        lemma_joined(parts.drop_last(), frags.drop_last());
        assert(parts[parts.len() - 1] == Some(frags[parts.len() - 1]));
    }
}

/// What is known of a message after part of a run.
spec fn knows(s: ReassemblerView, run: Seq<Fragment>, m: Message, t0: u64) -> bool {
    if all_came(run, m) {
        s.delivered.contains_key(m.key) && t0 <= s.delivered[m.key]
    } else {
        &&& s.delivered.contains_key(m.key) ==> !fresh(s.delivered[m.key], t0)
        &&& if exists|i: int| 0 <= i < m.frags.len() && came(run, m.key, i) {
            &&& s.pending.contains_key(m.key)
            &&& t0 <= s.pending[m.key].touched
            &&& s.pending[m.key].kind == m.kind
            &&& s.pending[m.key].parts.len() == m.frags.len()
            &&& forall|i: int|
                0 <= i < m.frags.len() ==> #[trigger] s.pending[m.key].parts[i] == (if came(
                    run,
                    m.key,
                    i,
                ) {
                    Some(m.frags[i])
                } else {
                    None
                })
        } else {
            s.pending.contains_key(m.key) ==> !fresh(s.pending[m.key].touched, t0)
        }
    }
}

proof fn lemma_came(run: Seq<Fragment>, key: MsgKey, i: int)
    requires
        run.len() > 0,
    ensures
        came(run, key, i) <==> came(run.drop_last(), key, i) || (key_of(run.last().hdr) == key
            && run.last().hdr.frag_idx == i),
{
    let n = run.len() - 1;
    if came(run, key, i) {
        let j = choose|j: int|
            0 <= j < run.len() && key_of((#[trigger] run[j]).hdr) == key && run[j].hdr.frag_idx == i;
        if j < n {
            assert(run.drop_last()[j] == run[j]);
        }
    }
    if came(run.drop_last(), key, i) {
        let j = choose|j: int|
            0 <= j < n && key_of((#[trigger] run.drop_last()[j]).hdr) == key
                && run.drop_last()[j].hdr.frag_idx == i;
        assert(run[j] == run.drop_last()[j]);
    }
    if key_of(run.last().hdr) == key && run.last().hdr.frag_idx == i {
        assert(key_of(run[n].hdr) == key);
    }
}

/// One fragment further: what is known follows, and the verdict says when the
/// message became complete.
proof fn lemma_knows_step(s: ReassemblerView, run: Seq<Fragment>, m: Message, t0: u64)
    requires
        run.len() > 0,
        m.frags.len() > 0,
        in_time(run, m, t0),
        knows(s, run.drop_last(), m, t0),
    ensures
        ({
            let f = run.last();
            let a = arrival(s, f.hdr, f.frag, f.now);
            &&& knows(a.state, run, m, t0)
            &&& key_of(f.hdr) == m.key ==> (a.verdict is Complete <==> all_came(run, m)
                && !all_came(run.drop_last(), m))
            &&& key_of(f.hdr) == m.key && a.verdict is Complete ==> a.verdict == Verdict::Complete(
                m.kind,
                whole(m.frags),
            )
            &&& key_of(f.hdr) != m.key ==> (all_came(run, m) <==> all_came(run.drop_last(), m))
        }),
{
    let f = run[run.len() - 1];
    let before = run.drop_last();
    let a = arrival(s, f.hdr, f.frag, f.now);
    let mine = key_of(f.hdr) == m.key;
    let idx = f.hdr.frag_idx as int;
    assert(genuine(f, m));
    assert forall|i: int| #[trigger]
        came(run, m.key, i) <==> came(before, m.key, i) || (mine && idx == i) by {
        lemma_came(run, m.key, i);
    }
    if mine {
        assert(came(run, m.key, idx));
    }
    assert forall|i: int| #[trigger] came(before, m.key, i) implies came(run, m.key, i) by {}
    if !mine {
        assert(all_came(run, m) <==> all_came(before, m)) by {
            if all_came(before, m) {
                assert forall|i: int| 0 <= i < m.frags.len() implies #[trigger] came(
                    run,
                    m.key,
                    i,
                ) by {
                    assert(came(before, m.key, i));
                }
            }
            if all_came(run, m) {
                assert forall|i: int| 0 <= i < m.frags.len() implies #[trigger] came(
                    before,
                    m.key,
                    i,
                ) by {
                    assert(came(run, m.key, i));
                }
            }
        }
    } else if all_came(before, m) {
        assert forall|i: int| 0 <= i < m.frags.len() implies #[trigger] came(run, m.key, i) by {
            assert(came(before, m.key, i));
        }
    } else {
        let pending = under_way(s.pending, f.now);
        let slot = slot_for(pending, f.hdr, f.now);
        let parts = slot.parts.update(idx, Some(f.frag));
        assert(slot.parts.len() == m.frags.len());
        assert(slot.kind == m.kind);
        assert forall|i: int| 0 <= i < m.frags.len() implies #[trigger] parts[i] == (if came(
            run,
            m.key,
            i,
        ) {
            Some(m.frags[i])
        } else {
            None
        }) by {
            lemma_came(run, m.key, i);
            if exists|k: int| 0 <= k < m.frags.len() && came(before, m.key, k) {
                assert(s.pending[m.key].parts[i] == (if came(before, m.key, i) {
                    Some(m.frags[i])
                } else {
                    None
                }));
            } else {
                assert(!came(before, m.key, i));
            }
        }
        lemma_arrived(parts);
        if all_came(run, m) {
            assert forall|i: int| 0 <= i < parts.len() implies #[trigger] parts[i] == Some(
                m.frags[i],
            ) by {
                assert(came(run, m.key, i));
            }
            lemma_joined(parts, m.frags);
        } else {
            let i = choose|i: int| 0 <= i < m.frags.len() && !#[trigger] came(run, m.key, i);
            assert(parts[i] is None);
        }
    }
}

/// A message is delivered exactly once, whole and in order, however its fragments
/// come: in any order, repeated, and mixed with those of other messages. It is
/// delivered with the fragment that completes it, and not at all where one never
/// comes.
///
/// The fragments come within the time a message may take, and nothing of the
/// message is known beforehand.
pub proof fn messages_are_delivered_exactly_once(
    s: ReassemblerView,
    run: Seq<Fragment>,
    m: Message,
    t0: u64,
)
    requires
        m.frags.len() > 0,
        in_time(run, m, t0),
        unknown(s, m.key, t0),
    ensures
        deliveries(s, run, m.key) == (if all_came(run, m) {
            seq![Verdict::Complete(m.kind, whole(m.frags))]
        } else {
            Seq::empty()
        }),
{
    lemma_run(s, run, m, t0);
}

proof fn lemma_run(s: ReassemblerView, run: Seq<Fragment>, m: Message, t0: u64)
    requires
        m.frags.len() > 0,
        in_time(run, m, t0),
        unknown(s, m.key, t0),
    ensures
        knows(after(s, run), run, m, t0),
        deliveries(s, run, m.key) == (if all_came(run, m) {
            seq![Verdict::Complete(m.kind, whole(m.frags))]
        } else {
            Seq::empty()
        }),
    decreases run.len(),
{
    if run.len() == 0 {
        assert(!came(run, m.key, 0));
        assert(!all_came(run, m));
    } else {
        let before = run.drop_last();
        assert forall|j: int| 0 <= j < before.len() implies genuine(#[trigger] before[j], m) && t0
            <= before[j].now && before[j].now - t0 <= REASM_TIMEOUT by {
            assert(before[j] == run[j]);
        }
        lemma_run(s, before, m, t0);
        lemma_knows_step(after(s, before), run, m, t0);
        if all_came(before, m) {
            assert(all_came(run, m)) by {
                assert forall|i: int| 0 <= i < m.frags.len() implies #[trigger] came(
                    run,
                    m.key,
                    i,
                ) by {
                    assert(came(before, m.key, i));
                    lemma_came(run, m.key, i);
                }
            }
        }
        assert(Seq::<Verdict>::empty().push(Verdict::Complete(m.kind, whole(m.frags)))
            =~= seq![Verdict::Complete(m.kind, whole(m.frags))]);
    }
}

/// A fragment of a message that was delivered no longer ago than messages are
/// remembered changes nothing that was delivered and delivers nothing.
pub proof fn resent_fragments_are_not_delivered_again(
    s: ReassemblerView,
    hdr: FragHeader,
    frag: Seq<u8>,
    now: u64,
)
    requires
        s.delivered.contains_key(key_of(hdr)),
        fresh(s.delivered[key_of(hdr)], now),
    ensures
        arrival(s, hdr, frag, now).verdict == Verdict::Duplicate,
        arrival(s, hdr, frag, now).state.pending == s.pending,
        arrival(s, hdr, frag, now).state.delivered.contains_key(key_of(hdr)),
        arrival(s, hdr, frag, now).state.delivered[key_of(hdr)] == s.delivered[key_of(hdr)],
{
}

/// No message is under way and delivered at once.
pub open spec fn apart(s: ReassemblerView) -> bool {
    forall|k: MsgKey|
        #![trigger s.pending.contains_key(k)]
        #![trigger s.delivered.contains_key(k)]
        !(s.pending.contains_key(k) && s.delivered.contains_key(k))
}

/// A message is under way or delivered, never both, whatever arrives.
pub proof fn messages_are_under_way_or_delivered(
    s: ReassemblerView,
    hdr: FragHeader,
    frag: Seq<u8>,
    now: u64,
)
    requires
        apart(s),
    ensures
        apart(arrival(s, hdr, frag, now).state),
{
    let t = arrival(s, hdr, frag, now).state;
    assert forall|k: MsgKey| !(t.pending.contains_key(k) && t.delivered.contains_key(k)) by {
        assert(!(s.pending.contains_key(k) && s.delivered.contains_key(k)));
    }
}

/// The fragments come one after the other, from `t0` on.
pub open spec fn in_order(run: Seq<Fragment>, t0: u64) -> bool {
    &&& forall|j: int| 0 <= j < run.len() ==> t0 <= (#[trigger] run[j]).now
    &&& forall|i: int, j: int|
        0 <= i < j < run.len() ==> (#[trigger] run[i]).now <= (#[trigger] run[j]).now
}

/// All that still counts at `t` is the same.
pub open spec fn alike(a: ReassemblerView, b: ReassemblerView, t: u64) -> bool {
    &&& remembered(a.delivered, t) == remembered(b.delivered, t)
    &&& under_way(a.pending, t) == under_way(b.pending, t)
}

proof fn lemma_alike_later(a: ReassemblerView, b: ReassemblerView, t: u64, now: u64)
    requires
        alike(a, b, t),
        t <= now,
    ensures
        alike(a, b, now),
{
    let (ad, bd) = (remembered(a.delivered, t), remembered(b.delivered, t));
    assert(remembered(ad, now) =~= remembered(a.delivered, now));
    assert(remembered(bd, now) =~= remembered(b.delivered, now));
    let (ap, bp) = (under_way(a.pending, t), under_way(b.pending, t));
    assert(under_way(ap, now) =~= under_way(a.pending, now));
    assert(under_way(bp, now) =~= under_way(b.pending, now));
}

proof fn lemma_alike_step(a: ReassemblerView, b: ReassemblerView, f: Fragment)
    requires
        alike(a, b, f.now),
    ensures
        arrival(a, f.hdr, f.frag, f.now).verdict == arrival(b, f.hdr, f.frag, f.now).verdict,
        alike(
            arrival(a, f.hdr, f.frag, f.now).state,
            arrival(b, f.hdr, f.frag, f.now).state,
            f.now,
        ),
{
    let d = remembered(a.delivered, f.now);
    assert(remembered(d, f.now) =~= d);
}

proof fn lemma_alike_run(a: ReassemblerView, b: ReassemblerView, run: Seq<Fragment>, t0: u64, key: MsgKey)
    requires
        alike(a, b, t0),
        in_order(run, t0),
    ensures
        alike(
            after(a, run),
            after(b, run),
            if run.len() == 0 {
                t0
            } else {
                run.last().now
            },
        ),
        deliveries(a, run, key) == deliveries(b, run, key),
    decreases run.len(),
{
    if run.len() > 0 {
        let front = run.drop_last();
        assert forall|j: int| 0 <= j < front.len() implies t0 <= (#[trigger] front[j]).now by {
            assert(front[j] == run[j]);
        }
        assert forall|i: int, j: int| 0 <= i < j < front.len() implies (#[trigger] front[i]).now <= (
        #[trigger] front[j]).now by {
            assert(front[i] == run[i] && front[j] == run[j]);
        }
        lemma_alike_run(a, b, front, t0, key);
        let (u, v) = (after(a, front), after(b, front));
        let last = run.last();
        if front.len() > 0 {
            assert(front.last() == run[run.len() - 2] && last == run[run.len() - 1]);
            lemma_alike_later(u, v, front.last().now, last.now);
        } else {
            assert(last == run[0]);
            lemma_alike_later(u, v, t0, last.now);
        }
        lemma_alike_step(u, v, last);
    }
}

/// A fragment whose total is not that of its message is dropped with a warning: nothing
/// is delivered, what was kept of the message stays as it is, and whatever comes later
/// is delivered as if the fragment had never come.
pub proof fn a_wrong_total_is_never_spliced_in(
    s: ReassemblerView,
    hdr: FragHeader,
    frag: Seq<u8>,
    now: u64,
    run: Seq<Fragment>,
    key: MsgKey,
)
    requires
        apart(s),
        s.pending.contains_key(key_of(hdr)),
        fresh(s.pending[key_of(hdr)].touched, now),
        s.pending[key_of(hdr)].parts.len() != hdr.frag_total,
        in_order(run, now),
    ensures
        ({
            let kept = s.pending[key_of(hdr)];
            let a = arrival(s, hdr, frag, now);
            &&& a.verdict == Verdict::Mismatch(kept.parts.len())
            &&& arrival_events(hdr, a.verdict).len() == 1
            &&& arrival_events(hdr, a.verdict)[0] matches event::EventView::Log(Level::Warn, _)
            &&& a.state.pending.contains_key(key_of(hdr))
            &&& a.state.pending[key_of(hdr)] == kept
            &&& deliveries(a.state, run, key) == deliveries(s, run, key)
        }),
{
    let t = arrival(s, hdr, frag, now).state;
    assert(remembered(t.delivered, now) =~= remembered(s.delivered, now));
    assert(under_way(t.pending, now) =~= under_way(s.pending, now));
    lemma_alike_run(t, s, run, now, key);
}

// --------------------------------------------------------------------------- //
// What one fragment changes and tells
// --------------------------------------------------------------------------- //
/// A message that became complete is told whole: the last report of the fragment that
/// completed it is the delivery of the message, of whatever kind and length, and the
/// one before it says that all has arrived.
pub proof fn a_complete_message_is_told_whole(hdr: FragHeader, kind: u8, blob: Seq<u8>)
    ensures
        ({
            let e = arrival_events(hdr, Verdict::Complete(kind, blob));
            &&& e.len() == 2
            &&& e.last() == event::delivery(kind, blob)
            &&& e[0] matches event::EventView::Progress { pct, .. } && pct == 100
        }),
{
}

/// A text of any length ends the reports of the fragment that completes it; so does a
/// file with all of its contents.
pub proof fn texts_and_files_are_delivered_whole(
    hdr: FragHeader,
    text: Seq<char>,
    name: Seq<char>,
    data: Seq<u8>,
)
    requires
        vstd::utf8::encode_utf8(name).len() <= 255,
        data.len() <= u32::MAX,
    ensures
        arrival_events(
            hdr,
            Verdict::Complete(T_TEXT, vstd::utf8::encode_utf8(text)),
        ).last() == event::EventView::Text(text),
        arrival_events(
            hdr,
            Verdict::Complete(
                T_FILE,
                framing::meta_bytes(vstd::utf8::encode_utf8(name), data.len() as u32) + data,
            ),
        ).last() == (event::EventView::File { name, size: data.len() as u32, data }),
{
    event::texts_are_told_whole(text);
    event::files_are_told_whole(name, data);
}

/// A fragment that completes nothing delivers nothing: it is reported once, as progress
/// in whole percent where it was kept, and else in the log.
pub proof fn nothing_is_delivered_before_it_is_complete(hdr: FragHeader, v: Verdict)
    requires
        !(v is Complete),
    ensures
        ({
            let e = arrival_events(hdr, v);
            &&& e.len() == 1
            &&& v == Verdict::Duplicate ==> (e[0] matches event::EventView::Log(Level::Info, _))
            &&& v is Mismatch ==> (e[0] matches event::EventView::Log(Level::Warn, _))
            &&& v is Kept && v->Kept_0 < hdr.frag_total ==> (
            e[0] matches event::EventView::Progress { pct, .. } && pct * hdr.frag_total <= 100
                * v->Kept_0 < (pct + 1) * hdr.frag_total)
        }),
{
    if let Verdict::Kept(got) = v {
        if got < hdr.frag_total {
            let n = hdr.frag_total as int;
            let a = got * 100int;
            let q = a / n;
            vstd::arithmetic::div_mod::lemma_fundamental_div_mod(a, n);
            assert(q * n <= a < (q + 1) * n && 0 <= q <= 100) by (nonlinear_arith)
                requires
                    a == n * q + a % n,
                    0 <= a % n < n,
                    0 <= a <= 100 * n,
            ;
        }
    }
}

/// The fragment that completes a message tells it: where all but this one had come, its
/// reports end with the whole message, as it was sent.
pub proof fn the_last_missing_fragment_tells_the_message(
    s: ReassemblerView,
    run: Seq<Fragment>,
    m: Message,
    t0: u64,
)
    requires
        run.len() > 0,
        m.frags.len() > 0,
        in_time(run, m, t0),
        unknown(s, m.key, t0),
        all_came(run, m),
        !all_came(run.drop_last(), m),
    ensures
        key_of(run.last().hdr) == m.key,
        last_verdict(s, run) == Verdict::Complete(m.kind, whole(m.frags)),
        arrival_events(run.last().hdr, last_verdict(s, run)).last() == event::delivery(
            m.kind,
            whole(m.frags),
        ),
{
    let before = run.drop_last();
    assert forall|j: int| 0 <= j < before.len() implies genuine(#[trigger] before[j], m) && t0
        <= before[j].now && before[j].now - t0 <= REASM_TIMEOUT by {
        assert(before[j] == run[j]);
    }
    messages_are_delivered_exactly_once(s, run, m, t0);
    messages_are_delivered_exactly_once(s, before, m, t0);
    let d = deliveries(s, run, m.key);
    assert(d.len() == 1);
    assert(d[0] == last_verdict(s, run));
    a_complete_message_is_told_whole(run.last().hdr, m.kind, whole(m.frags));
}

/// Fragments belong together exactly where they have the same sender and the same
/// message id.
pub proof fn messages_are_told_apart(a: FragHeader, b: FragHeader)
    ensures
        key_of(a) == key_of(b) <==> a.src == b.src && a.msg_id == b.msg_id,
        key_of(a) == (a.src, a.msg_id),
{
}

/// A fragment counts once: one that was missing adds one to those that arrived, one
/// that is there already adds nothing; and of a new message none has arrived.
pub proof fn fragments_count_once(parts: Seq<Option<Seq<u8>>>, i: int, frag: Seq<u8>)
    requires
        0 <= i < parts.len(),
    ensures
        arrived(parts.update(i, Some(frag))) == arrived(parts) + (if parts[i] is None {
            1int
        } else {
            0
        }),
        (forall|k: int| 0 <= k < parts.len() ==> #[trigger] parts[k] is None) ==> arrived(parts)
            == 0,
    decreases parts.len(),
{
    let all = parts.update(i, Some(frag));
    let rest = parts.drop_last();
    if i == parts.len() - 1 {
        assert(all.drop_last() =~= rest);
    } else {
        assert(all.drop_last() =~= rest.update(i, Some(frag)));
        fragments_count_once(rest, i, frag);
    }
    if forall|k: int| 0 <= k < parts.len() ==> #[trigger] parts[k] is None {
        assert(parts[parts.len() - 1] is None);
        if rest.len() > 0 {
            assert forall|k: int| 0 <= k < rest.len() implies #[trigger] rest[k] is None by {
                assert(parts[k] is None);
            }
            fragments_count_once(rest, 0, frag);
        }
    }
}

/// A fragment is kept with those of its message: it takes its own place, the other
/// places and the kind stay, and the message is fresh again. Where none is missing any
/// more, the message is no longer under way but delivered, and remembered from now on.
///
/// Something of the message came no longer than five minutes ago, none of it was
/// delivered in that time, and the totals agree.
pub proof fn a_fragment_joins_its_message(
    s: ReassemblerView,
    hdr: FragHeader,
    frag: Seq<u8>,
    now: u64,
)
    requires
        hdr.frag_idx < hdr.frag_total,
        s.pending.contains_key((hdr.src, hdr.msg_id)),
        now <= s.pending[(hdr.src, hdr.msg_id)].touched + 300_000_000_000,
        s.pending[(hdr.src, hdr.msg_id)].parts.len() == hdr.frag_total,
        s.delivered.contains_key((hdr.src, hdr.msg_id)) ==> now > s.delivered[(
            hdr.src,
            hdr.msg_id,
        )] + 300_000_000_000,
    ensures
        ({
            let key = (hdr.src, hdr.msg_id);
            let old = s.pending[key];
            let a = arrival(s, hdr, frag, now);
            let parts = old.parts.update(hdr.frag_idx as int, Some(frag));
            let missing = exists|i: int| 0 <= i < parts.len() && #[trigger] parts[i] is None;
            &&& missing ==> a.verdict == Verdict::Kept(arrived(parts))
                && a.state.pending.contains_key(key)
                && a.state.pending[key] == (PartialView { parts, kind: old.kind, touched: now })
                && !a.state.delivered.contains_key(key)
            &&& !missing ==> a.verdict is Complete && a.verdict->Complete_0 == old.kind
                && !a.state.pending.contains_key(key) && a.state.delivered.contains_key(key)
                && a.state.delivered[key] == now
        }),
{
    let old = s.pending[key_of(hdr)];
    let parts = old.parts.update(hdr.frag_idx as int, Some(frag));
    lemma_arrived(parts);
}

/// The first fragment of a message gives it its shape: as many places as it has
/// fragments, all of them empty but its own. So does the next one of a message that
/// stood still for more than five minutes: what was kept of it is gone.
pub proof fn a_first_fragment_starts_its_message(
    s: ReassemblerView,
    hdr: FragHeader,
    frag: Seq<u8>,
    now: u64,
)
    requires
        hdr.frag_idx < hdr.frag_total,
        s.pending.contains_key((hdr.src, hdr.msg_id)) ==> now > s.pending[(
            hdr.src,
            hdr.msg_id,
        )].touched + 300_000_000_000,
        s.delivered.contains_key((hdr.src, hdr.msg_id)) ==> now > s.delivered[(
            hdr.src,
            hdr.msg_id,
        )] + 300_000_000_000,
    ensures
        ({
            let key = (hdr.src, hdr.msg_id);
            let a = arrival(s, hdr, frag, now);
            let kept = a.state.pending[key];
            &&& hdr.frag_total == 1 ==> a.verdict == Verdict::Complete(hdr.kind, frag)
            &&& hdr.frag_total > 1 ==> {
                &&& a.verdict == Verdict::Kept(1)
                &&& a.state.pending.contains_key(key)
                &&& kept.kind == hdr.kind
                &&& kept.touched == now
                &&& kept.parts.len() == hdr.frag_total
                &&& kept.parts[hdr.frag_idx as int] == Some(frag)
                &&& forall|i: int|
                    0 <= i < hdr.frag_total && i != hdr.frag_idx ==> #[trigger] kept.parts[i]
                        is None
            }
        }),
{
    let none = Seq::new(hdr.frag_total as nat, |i: int| None::<Seq<u8>>);
    let i = hdr.frag_idx as int;
    fragments_count_once(none, i, frag);
    if hdr.frag_total == 1 {
        let parts = none.update(0, Some(frag));
        assert(parts.drop_last() =~= Seq::<Option<Seq<u8>>>::empty());
        assert(Seq::<u8>::empty() + frag =~= frag);
        assert(parts.last() == Some(frag));
        assert(joined(parts.drop_last()) == Seq::<u8>::empty());
        assert(joined(parts) == frag);
    }
}

/// A fragment changes nothing of other messages: those under way, and those delivered,
/// stay as they are for five minutes after they were last touched, and no new ones
/// appear. Only what a resent fragment finds under way is not looked through.
pub proof fn other_messages_stay(
    s: ReassemblerView,
    hdr: FragHeader,
    frag: Seq<u8>,
    now: u64,
    k: MsgKey,
)
    requires
        k != (hdr.src, hdr.msg_id),
    ensures
        ({
            let a = arrival(s, hdr, frag, now);
            let (p, d) = (a.state.pending, a.state.delivered);
            &&& p.contains_key(k) ==> s.pending.contains_key(k) && p[k] == s.pending[k]
            &&& d.contains_key(k) ==> s.delivered.contains_key(k) && d[k] == s.delivered[k]
            &&& d.contains_key(k) <==> s.delivered.contains_key(k) && now <= s.delivered[k]
                + 300_000_000_000
            &&& s.pending.contains_key(k) && now <= s.pending[k].touched + 300_000_000_000
                ==> p.contains_key(k)
            &&& p.contains_key(k) ==> now <= p[k].touched + 300_000_000_000 || a.verdict
                == Verdict::Duplicate
        }),
{
}

/// What is told of a fragment: how many have come, which one came again, or that it
/// claims another total.
pub proof fn the_log_tells_of_fragments(hdr: FragHeader, n: nat, kind: u8, blob: Seq<u8>)
    ensures
        ({
            let number = text::decimal((hdr.frag_idx + 1) as nat);
            let total = text::decimal(hdr.frag_total as nat);
            let id = text::hex4(hdr.msg_id);
            &&& arrival_events(hdr, Verdict::Duplicate)[0] == event::EventView::Log(
                Level::Info,
                "duplicate frag "@ + number + "/"@ + total + " of msg "@ + id
                    + " -- re-acked, not re-delivered"@,
            )
            &&& arrival_events(hdr, Verdict::Mismatch(n))[0] == event::EventView::Log(
                Level::Warn,
                "frag "@ + number + " of msg "@ + id + " claims "@ + total + " fragments, not "@
                    + text::decimal(n) + " -- ignored"@,
            )
            &&& arrival_events(hdr, Verdict::Kept(n))[0] matches event::EventView::Progress {
                note,
                ..
            } && note == "RX "@ + text::decimal(n) + "/"@ + total
            &&& arrival_events(hdr, Verdict::Complete(kind, blob))[0]
                matches event::EventView::Progress { note, .. } && note == "RX "@ + total + "/"@
                + total
        }),
{
}

} // verus!
