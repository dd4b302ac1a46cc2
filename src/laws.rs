//! What holds across operations.

use vstd::prelude::*;
use crate::content::{
    ContentView, ElmtView, cleared_of, text_of, tokens_of, lemma_tokens_round_trip,
    lemma_text_of_push,
};
use crate::reconcile::{reconciled, reconciled_from, typed_text_of, consume, with_virtual, lemma_reconciled};
use crate::whitespace::{typed_text, WhitespaceView};

verus! {

/// Whether `shown` is `plain` with only spaces and newlines inserted: nothing
/// of `plain` removed or moved.
pub open spec fn padded_only(plain: Seq<char>, shown: Seq<char>) -> bool
    decreases shown.len(),
{
    if shown.len() == 0 {
        plain.len() == 0
    } else if plain.len() > 0 && plain.last() == shown.last() && padded_only(
        plain.drop_last(),
        shown.drop_last(),
    ) {
        true
    } else {
        (shown.last() == ' ' || shown.last() == '\n') && padded_only(plain, shown.drop_last())
    }
}

/// Typed text survives the split into tokens unchanged.
pub proof fn lemma_round_trip(s: Seq<char>)
    ensures
        text_of(tokens_of(s)) == s,
{
    lemma_tokens_round_trip(s);
}

proof fn lemma_reconciled_from_same(a: Seq<ElmtView>, b: Seq<ElmtView>, f: Seq<char>, i: nat, pos: nat)
    requires
        a.len() == b.len(),
        forall|k: int| 0 <= k < a.len() ==> (#[trigger] a[k]).cleared() == b[k].cleared(),
    ensures
        reconciled_from(a, f, i, pos) == reconciled_from(b, f, i, pos),
    decreases a.len() - i,
{
    if i < a.len() {
        lemma_reconciled_from_same(a, b, f, i + 1, consume(a[i as int].character, f, pos, 0, 0).0);
        assert(a[i as int].cleared() == b[i as int].cleared());
        let (p, vn, vs) = consume(a[i as int].character, f, pos, 0, 0);
        assert(with_virtual(a[i as int], vn, vs) == with_virtual(b[i as int], vn, vs));
    }
}

/// Reconciling twice with the same formatted text gives what reconciling once
/// gives: the virtual counts depend on the typed tokens and the text alone.
pub proof fn lemma_reconcile_idempotent(elmts: Seq<ElmtView>, f: Seq<char>)
    ensures
        reconciled(reconciled(elmts, f), f) == reconciled(elmts, f),
{
    let r = reconciled(elmts, f);
    lemma_reconciled(elmts, f);
    assert forall|k: int| 0 <= k < r.len() implies (#[trigger] r[k]).cleared() == elmts[k].cleared() by {
        assert(cleared_of(r)[k] == cleared_of(elmts)[k]);
    }
    lemma_reconciled_from_same(r, elmts, f, 0, 0);
}

/// The same on a whole buffer: the second pass changes nothing.
pub proof fn lemma_buffer_reconcile_idempotent(v: ContentView, f: Seq<char>)
    ensures
        v.reconciled_with(f).reconciled_with(f) == v.reconciled_with(f),
{
    lemma_reconcile_idempotent(v.elmts, f);
}

proof fn lemma_padded_refl(s: Seq<char>)
    ensures
        padded_only(s, s),
    decreases s.len(),
{
    if s.len() > 0 {
        lemma_padded_refl(s.drop_last());
    }
}

proof fn lemma_padded_extend(plain: Seq<char>, shown: Seq<char>, pad: Seq<char>)
    requires
        padded_only(plain, shown),
        forall|k: int| 0 <= k < pad.len() ==> #[trigger] pad[k] == ' ' || pad[k] == '\n',
    ensures
        padded_only(plain, shown + pad),
    decreases pad.len(),
{
    if pad.len() == 0 {
        assert(shown + pad =~= shown);
    } else {
        lemma_padded_extend(plain, shown, pad.drop_last());
        assert((shown + pad).drop_last() =~= shown + pad.drop_last());
    }
}

proof fn lemma_padded_concat(a: Seq<char>, b: Seq<char>, c: Seq<char>, d: Seq<char>)
    requires
        padded_only(a, b),
        padded_only(c, d),
    ensures
        padded_only(a + c, b + d),
    decreases d.len(),
{
    if d.len() == 0 {
        assert(c.len() == 0);
        assert(a + c =~= a);
        assert(b + d =~= b);
    } else {
        assert((b + d).drop_last() =~= b + d.drop_last());
        if c.len() > 0 && c.last() == d.last() && padded_only(c.drop_last(), d.drop_last()) {
            lemma_padded_concat(a, b, c.drop_last(), d.drop_last());
            assert((a + c).drop_last() =~= a + c.drop_last());
        } else {
            lemma_padded_concat(a, b, c, d.drop_last());
        }
    }
}

proof fn lemma_whitespace_padded(w: WhitespaceView)
    ensures
        padded_only(typed_text(w.typed), w.text()),
{
    lemma_padded_refl(typed_text(w.typed));
    lemma_padded_extend(typed_text(w.typed), typed_text(w.typed), w.padding());
}

/// Any buffer shows its typed text with only spaces and newlines added.
pub proof fn lemma_padding_only(elmts: Seq<ElmtView>)
    ensures
        padded_only(typed_text_of(elmts), text_of(elmts)),
    decreases elmts.len(),
{
    if elmts.len() > 0 {
        let init = elmts.drop_last();
        let x = elmts.last();
        lemma_padding_only(init);
        assert(cleared_of(elmts) =~= cleared_of(init).push(x.cleared()));
        lemma_text_of_push(cleared_of(init), x.cleared());
        assert(x.cleared().whitespace.padding() =~= Seq::<char>::empty());
        lemma_whitespace_padded(x.whitespace);
        lemma_padded_refl(x.char_text());
        lemma_padded_concat(
            typed_text(x.whitespace.typed),
            x.whitespace.text(),
            x.char_text(),
            x.char_text(),
        );
        assert(x.cleared().text() =~= typed_text(x.whitespace.typed) + x.char_text());
        lemma_padded_concat(
            typed_text_of(init),
            text_of(init),
            x.cleared().text(),
            x.text(),
        );
    } else {
        assert(cleared_of(elmts) =~= Seq::<ElmtView>::empty());
    }
}

/// After reconciling with any text, the buffer shows the typed text it had
/// before with only spaces and newlines added.
pub proof fn lemma_reconciled_pads_only(elmts: Seq<ElmtView>, f: Seq<char>)
    ensures
        typed_text_of(reconciled(elmts, f)) == typed_text_of(elmts),
        padded_only(typed_text_of(elmts), text_of(reconciled(elmts, f))),
{
    lemma_reconciled(elmts, f);
    lemma_padding_only(reconciled(elmts, f));
}

/// How many cursor slots the tokens before index `i` have.
pub open spec fn slots_before(elmts: Seq<ElmtView>, i: nat) -> nat
    decreases i,
{
    if i == 0 || i > elmts.len() {
        0
    } else {
        slots_before(elmts, (i - 1) as nat) + elmts[i - 1].whitespace.num_cursor_positions()
    }
}

/// The cursor's place in the sequence of all slots.
pub open spec fn slot_index(v: ContentView) -> nat {
    slots_before(v.elmts, v.cursor.0) + v.cursor.1
}

/// `right()` applied `n` times.
pub open spec fn right_n(v: ContentView, n: nat) -> ContentView
    decreases n,
{
    if n == 0 {
        v
    } else {
        right_n(v, (n - 1) as nat).moved_right()
    }
}

/// `left()` applied `n` times.
pub open spec fn left_n(v: ContentView, n: nat) -> ContentView
    decreases n,
{
    if n == 0 {
        v
    } else {
        left_n(v, (n - 1) as nat).moved_left()
    }
}

proof fn lemma_slots_before_grows(elmts: Seq<ElmtView>, i: nat)
    requires
        i <= elmts.len(),
    ensures
        slots_before(elmts, i) >= i,
    decreases i,
{
    if i > 0 {
        lemma_slots_before_grows(elmts, (i - 1) as nat);
    }
}

proof fn lemma_right_step(v: ContentView)
    requires
        v.wf(),
    ensures
        v.moved_right().wf(),
        slot_index(v.moved_right()) == if slot_index(v) + 1 < slots_before(v.elmts, v.elmts.len()) {
            slot_index(v) + 1
        } else {
            slot_index(v)
        },
        slot_index(v) < slots_before(v.elmts, v.elmts.len()),
{
    lemma_slots_in_range(v);
    let (i, o) = v.cursor;
    if !(o < v.last_offset(i as int)) && i + 1 < v.elmts.len() {
        assert(slots_before(v.elmts, i + 1) == slots_before(v.elmts, i) + v.elmts[i as int].whitespace.num_cursor_positions());
        lemma_slots_before_mono(v.elmts, i + 1, v.elmts.len());
    }
}

proof fn lemma_left_step(v: ContentView)
    requires
        v.wf(),
    ensures
        v.moved_left().wf(),
        slot_index(v.moved_left()) == if slot_index(v) > 0 {
            (slot_index(v) - 1) as nat
        } else {
            0nat
        },
{
    let (i, o) = v.cursor;
    if o == 0 && i > 0 {
        assert(slots_before(v.elmts, i) == slots_before(v.elmts, (i - 1) as nat)
            + v.elmts[i - 1].whitespace.num_cursor_positions());
    }
}

proof fn lemma_slots_before_mono(elmts: Seq<ElmtView>, a: nat, b: nat)
    requires
        a <= b <= elmts.len(),
    ensures
        slots_before(elmts, a) + (b - a) <= slots_before(elmts, b),
    decreases b - a,
{
    if a < b {
        lemma_slots_before_mono(elmts, a, (b - 1) as nat);
    }
}

/// The cursor's slot index is below the total, and reaches the last slot only
/// at the very end.
proof fn lemma_slots_in_range(v: ContentView)
    requires
        v.wf(),
    ensures
        slot_index(v) < slots_before(v.elmts, v.elmts.len()),
        slot_index(v) + 1 == slots_before(v.elmts, v.elmts.len()) ==> v.cursor.0 + 1
            == v.elmts.len() && v.cursor.1 == v.last_offset(v.cursor.0 as int),
{
    let (i, o) = v.cursor;
    assert(slots_before(v.elmts, i + 1) == slots_before(v.elmts, i) + v.elmts[i as int].whitespace.num_cursor_positions());
    lemma_slots_before_mono(v.elmts, i + 1, v.elmts.len());
}

proof fn lemma_right_n(v: ContentView, n: nat)
    requires
        v.wf(),
    ensures
        right_n(v, n).wf(),
        slot_index(right_n(v, n)) <= slot_index(v) + n,
    decreases n,
{
    if n > 0 {
        lemma_right_n(v, (n - 1) as nat);
        lemma_right_step(right_n(v, (n - 1) as nat));
    }
}

proof fn lemma_left_n(v: ContentView, n: nat)
    requires
        v.wf(),
    ensures
        left_n(v, n).wf(),
        slot_index(left_n(v, n)) == if slot_index(v) > n {
            (slot_index(v) - n) as nat
        } else {
            0nat
        },
    decreases n,
{
    if n > 0 {
        lemma_left_n(v, (n - 1) as nat);
        lemma_left_step(left_n(v, (n - 1) as nat));
    }
}

/// Moving right `n` times from the start and then left `n` times comes back
/// to the start.
pub proof fn lemma_right_then_left(v: ContentView, n: nat)
    requires
        v.wf(),
        v.cursor == (0nat, 0nat),
    ensures
        left_n(right_n(v, n), n).cursor == (0nat, 0nat),
{
    lemma_right_n(v, n);
    let r = right_n(v, n);
    lemma_left_n(r, n);
    let l = left_n(r, n);
    assert(slots_before(v.elmts, 0) == 0);
    lemma_slots_before_grows(l.elmts, l.cursor.0);
    if l.cursor.0 > 0 {
        lemma_slots_before_mono(l.elmts, 1, l.cursor.0);
        assert(slots_before(l.elmts, 1) == l.elmts[0].whitespace.num_cursor_positions());
    }
}

} // verus!
