//! Deriving virtual whitespace from a formatted rendering of the typed text.

use vstd::prelude::*;
use crate::content::{
    Content, ContentView, ElmtView, cleared_of, is_char_token, size_of, text_of, tokens_of,
    lemma_size_concat, lemma_size_take, lemma_text_of_take,
};
use crate::whitespace::{WhitespaceView, typed_text};

verus! {

/// Reads formatted text from `pos` in front of a token whose character is
/// `ch`, counting newlines (each one starts the space count afresh) and
/// spaces. It stops after the token's own character, skips commas that the
/// formatter may have added, and stops in front of anything else. Returns the
/// position reached and the two counts.
pub open spec fn consume(ch: Option<char>, f: Seq<char>, pos: nat, vn: nat, vs: nat) -> (
    nat,
    nat,
    nat,
)
    decreases f.len() - pos,
{
    if pos >= f.len() {
        (pos, vn, vs)
    } else {
        let c = f[pos as int];
        if c == '\n' {
            consume(ch, f, pos + 1, vn + 1, 0)
        } else if c == ' ' {
            consume(ch, f, pos + 1, vn, vs + 1)
        } else if ch == Some(c) {
            ((pos + 1) as nat, vn, vs)
        } else if c == ',' {
            consume(ch, f, pos + 1, vn, vs)
        } else {
            (pos, vn, vs)
        }
    }
}

pub open spec fn with_virtual(e: ElmtView, vn: nat, vs: nat) -> ElmtView {
    ElmtView {
        whitespace: WhitespaceView {
            virtual_newlines: vn,
            virtual_spaces: vs,
            ..e.whitespace
        },
        ..e
    }
}

/// The tokens from index `i` on, with virtual counts read from `f` starting
/// at `pos`.
pub open spec fn reconciled_from(elmts: Seq<ElmtView>, f: Seq<char>, i: nat, pos: nat) -> Seq<
    ElmtView,
>
    decreases elmts.len() - i,
{
    if i >= elmts.len() {
        Seq::empty()
    } else {
        let (p, vn, vs) = consume(elmts[i as int].character, f, pos, 0, 0);
        seq![with_virtual(elmts[i as int], vn, vs)] + reconciled_from(elmts, f, i + 1, p)
    }
}

/// Every token's virtual counts replaced by those read from formatted text.
pub open spec fn reconciled(elmts: Seq<ElmtView>, f: Seq<char>) -> Seq<ElmtView> {
    reconciled_from(elmts, f, 0, 0)
}

/// The plain typed text of the tokens, with no virtual whitespace.
pub open spec fn typed_text_of(elmts: Seq<ElmtView>) -> Seq<char> {
    text_of(cleared_of(elmts))
}

impl ContentView {
    /// The cursor offset pulled back into the whitespace run it is in.
    pub open spec fn clamped(self) -> ContentView {
        let i = self.cursor.0;
        let o = self.cursor.1;
        let last = self.last_offset(i as int);
        self.with_cursor((i, if o <= last { o } else { last }))
    }

    /// Virtual counts taken from `f`, the cursor kept in bounds.
    pub open spec fn reconciled_with(self, f: Seq<char>) -> ContentView {
        ContentView { elmts: reconciled(self.elmts, f), ..self }.clamped()
    }

    /// Virtual counts all zero, the cursor kept in bounds.
    pub open spec fn cleared(self) -> ContentView {
        ContentView { elmts: cleared_of(self.elmts), ..self }.clamped()
    }

    /// After formatting to `f`: reconciled, with the sticky position at the
    /// start of the cursor.
    pub open spec fn formatted_with(self, f: Seq<char>) -> ContentView {
        let r = self.reconciled_with(f);
        r.with_spatial(r.cursor_range().0)
    }
}

proof fn lemma_consume(ch: Option<char>, f: Seq<char>, pos: nat, vn: nat, vs: nat)
    requires
        pos <= f.len(),
    ensures
        pos <= consume(ch, f, pos, vn, vs).0 <= f.len(),
        consume(ch, f, pos, vn, vs).1 + consume(ch, f, pos, vn, vs).2 <= vn + vs + consume(
            ch,
            f,
            pos,
            vn,
            vs,
        ).0 - pos,
    decreases f.len() - pos,
{
    if pos < f.len() {
        let c = f[pos as int];
        if c == '\n' {
            lemma_consume(ch, f, pos + 1, vn + 1, 0);
        } else if c == ' ' {
            lemma_consume(ch, f, pos + 1, vn, vs + 1);
        } else if ch == Some(c) {
        } else if c == ',' {
            lemma_consume(ch, f, pos + 1, vn, vs);
        }
    }
}

proof fn lemma_reconciled_from(elmts: Seq<ElmtView>, f: Seq<char>, i: nat, pos: nat)
    requires
        i <= elmts.len(),
        pos <= f.len(),
    ensures
        reconciled_from(elmts, f, i, pos).len() == elmts.len() - i,
        forall|k: int|
            0 <= k < elmts.len() - i ==> (#[trigger] reconciled_from(elmts, f, i, pos)[k]).cleared()
                == elmts[i + k].cleared(),
        size_of(reconciled_from(elmts, f, i, pos)) <= size_of(cleared_of(elmts.skip(i as int)))
            + f.len() - pos,
    decreases elmts.len() - i,
{
    if i == elmts.len() {
        assert(elmts.skip(i as int) =~= Seq::<ElmtView>::empty());
        assert(cleared_of(elmts.skip(i as int)) =~= Seq::<ElmtView>::empty());
    } else {
        let (p, vn, vs) = consume(elmts[i as int].character, f, pos, 0, 0);
        lemma_consume(elmts[i as int].character, f, pos, 0, 0);
        lemma_reconciled_from(elmts, f, i + 1, p);
        let head = with_virtual(elmts[i as int], vn, vs);
        let rest = reconciled_from(elmts, f, i + 1, p);
        lemma_size_concat(seq![head], rest);
        let cl = cleared_of(elmts.skip(i as int));
        assert(cl =~= seq![elmts[i as int].cleared()] + cleared_of(elmts.skip(i + 1int)));
        lemma_size_concat(seq![elmts[i as int].cleared()], cleared_of(elmts.skip(i + 1int)));
        assert(seq![head].drop_last() =~= Seq::<ElmtView>::empty());
        assert(seq![elmts[i as int].cleared()].drop_last() =~= Seq::<ElmtView>::empty());
        assert forall|k: int| 0 <= k < elmts.len() - i implies (#[trigger] reconciled_from(
            elmts,
            f,
            i,
            pos,
        )[k]).cleared() == elmts[i + k].cleared() by {
            if k > 0 {
                assert(reconciled_from(elmts, f, i, pos)[k] == rest[k - 1]);
            }
        }
    }
}

/// Reconciling changes no token's character or typed whitespace, and keeps
/// the size within the typed size plus the formatted length.
pub proof fn lemma_reconciled(elmts: Seq<ElmtView>, f: Seq<char>)
    ensures
        cleared_of(reconciled(elmts, f)) == cleared_of(elmts),
        size_of(reconciled(elmts, f)) <= size_of(cleared_of(elmts)) + f.len(),
{
    lemma_reconciled_from(elmts, f, 0, 0);
    assert(elmts.skip(0) =~= elmts);
    assert(cleared_of(reconciled(elmts, f)) =~= cleared_of(elmts));
}

impl Content {
    /// Replaces every token's virtual counts by those that `formatted_input`
    /// shows in front of it; the cursor offset is pulled back into its run if
    /// that run lost slots.
    pub fn update_virtual_whitespace_2(&mut self, formatted_input: &str)
        requires
            old(self).wf(),
            size_of(cleared_of(old(self)@.elmts)) + formatted_input@.len() <= usize::MAX,
        ensures
            final(self).wf(),
            final(self)@ == old(self)@.reconciled_with(formatted_input@),
    {
        let ghost v = self@;
        let ghost f = formatted_input@;
        let mut chars: Vec<char> = Vec::new();
        for c in it: formatted_input.chars()
            invariant
                it.seq() == f,
                it.index() <= it.seq().len(),
                chars@ == f.take(it.index() as int),
        {
            chars.push(c);
            proof {
                assert(chars@ =~= f.take(it.index() + 1));
            }
        }
        proof {
            assert(f.take(f.len() as int) =~= f);
        }
        let mut pos: usize = 0;
        let mut i: usize = 0;
        while i < self.elmts.len()
            invariant
                chars@ == f,
                pos <= f.len(),
                i <= self.elmts.len(),
                self.elmts.len() == v.elmts.len(),
                self.cursor == old(self).cursor,
                self.spacial_cursor == old(self).spacial_cursor,
                self@.elmts.skip(i as int) == v.elmts.skip(i as int),
                reconciled(v.elmts, f) == self@.elmts.take(i as int) + reconciled_from(
                    v.elmts,
                    f,
                    i as nat,
                    pos as nat,
                ),
            decreases self.elmts.len() - i,
        {
            let ch = self.elmts[i].character;
            let ghost pos0 = pos as nat;
            let mut vn: usize = 0;
            let mut vs: usize = 0;
            let mut stop = false;
            while !stop && pos < chars.len()
                invariant
                    chars@ == f,
                    pos0 <= pos <= f.len(),
                    vn + vs <= pos - pos0,
                    !stop ==> consume(ch, f, pos0, 0, 0) == consume(
                        ch,
                        f,
                        pos as nat,
                        vn as nat,
                        vs as nat,
                    ),
                    stop ==> consume(ch, f, pos0, 0, 0) == (pos as nat, vn as nat, vs as nat),
                decreases f.len() - pos + if stop { 0int } else { 1int },
            {
                let c = chars[pos];
                if c == '\n' {
                    vn = vn + 1;
                    vs = 0;
                    pos = pos + 1;
                } else if c == ' ' {
                    vs = vs + 1;
                    pos = pos + 1;
                } else if ch == Some(c) {
                    pos = pos + 1;
                    stop = true;
                } else if c == ',' {
                    pos = pos + 1;
                } else {
                    stop = true;
                }
            }
            let ghost bv = self@.elmts;
            proof {
                assert(bv[i as int] == bv.skip(i as int)[0]);
            }
            self.elmts[i].whitespace.virtual_newlines = vn;
            self.elmts[i].whitespace.virtual_spaces = vs;
            proof {
                let head = with_virtual(v.elmts[i as int], vn as nat, vs as nat);
                assert(self@.elmts =~= bv.update(i as int, head));
                assert(self@.elmts.skip(i + 1) =~= bv.skip(i as int).skip(1));
                assert(v.elmts.skip(i + 1) =~= v.elmts.skip(i as int).skip(1));
                assert(self@.elmts.take(i + 1) =~= self@.elmts.take(i as int).push(head));
                assert(reconciled_from(v.elmts, f, i as nat, pos0) == seq![head] + reconciled_from(
                    v.elmts,
                    f,
                    (i + 1) as nat,
                    pos as nat,
                ));
                assert(self@.elmts.take(i + 1) + reconciled_from(v.elmts, f, (i + 1) as nat, pos as nat)
                    =~= self@.elmts.take(i as int) + reconciled_from(v.elmts, f, i as nat, pos0));
            }
            i = i + 1;
        }
        proof {
            assert(reconciled_from(v.elmts, f, i as nat, pos as nat) =~= Seq::<ElmtView>::empty());
            assert(self@.elmts =~= reconciled(v.elmts, f));
            lemma_reconciled(v.elmts, f);
            let e = self@.elmts;
            assert forall|k: int| 0 <= k < e.len() - 1 implies is_char_token(#[trigger] e[k]) by {
                assert(cleared_of(e)[k] == cleared_of(v.elmts)[k]);
            }
            assert(cleared_of(e)[e.len() - 1] == cleared_of(v.elmts)[e.len() - 1]);
        }
        self.clamp_cursor();
    }

    /// Pulls the cursor offset back into its whitespace run.
    fn clamp_cursor(&mut self)
        requires
            old(self)@.with_cursor((old(self)@.cursor.0, 0)).wf(),
        ensures
            final(self).wf(),
            final(self)@ == old(self)@.clamped(),
    {
        let o = self.cursor.1;
        self.cursor.1 = 0;
        let last = self.last_offset(self.cursor.0);
        self.cursor.1 = if o <= last {
            o
        } else {
            last
        };
    }

    /// Sets every virtual count to zero; the cursor offset is pulled back into
    /// its run if that run lost slots.
    pub fn clear_virtual_whitespace(&mut self)
        requires
            old(self).wf(),
        ensures
            final(self).wf(),
            final(self)@ == old(self)@.cleared(),
    {
        let ghost v = self@;
        let mut i: usize = 0;
        while i < self.elmts.len()
            invariant
                i <= self.elmts.len(),
                self.elmts.len() == v.elmts.len(),
                self.cursor == old(self).cursor,
                self.spacial_cursor == old(self).spacial_cursor,
                self@.elmts.skip(i as int) == v.elmts.skip(i as int),
                self@.elmts.take(i as int) == cleared_of(v.elmts).take(i as int),
            decreases self.elmts.len() - i,
        {
            let ghost bv = self@.elmts;
            proof {
                assert(bv[i as int] == bv.skip(i as int)[0]);
            }
            self.elmts[i].whitespace.virtual_newlines = 0;
            self.elmts[i].whitespace.virtual_spaces = 0;
            proof {
                assert(self@.elmts =~= bv.update(i as int, v.elmts[i as int].cleared()));
                assert(self@.elmts.skip(i + 1) =~= bv.skip(i as int).skip(1));
                assert(v.elmts.skip(i + 1) =~= v.elmts.skip(i as int).skip(1));
                assert(self@.elmts.take(i + 1) =~= cleared_of(v.elmts).take(i + 1));
            }
            i = i + 1;
        }
        proof {
            assert(self@.elmts =~= self@.elmts.take(i as int));
            assert(cleared_of(v.elmts) =~= cleared_of(v.elmts).take(i as int));
            lemma_reconciled(v.elmts, Seq::empty());
            lemma_cleared_size(v.elmts);
            let e = self@.elmts;
            assert forall|k: int| 0 <= k < e.len() - 1 implies is_char_token(#[trigger] e[k]) by {
                assert(e[k].character == v.elmts[k].character);
            }
        }
        self.clamp_cursor();
    }

    /// Builds from typed text, then reconciles with its formatted rendering.
    pub fn from_strings(typed: &str, visible: &str) -> (r: Content)
        requires
            typed@.len() + visible@.len() < usize::MAX,
        ensures
            r.wf(),
            r@.elmts == reconciled(tokens_of(typed@), visible@),
            r@.cursor == (0nat, 0nat),
            r@.spatial == (0nat, 0nat),
    {
        let mut content = Content::from_string(typed);
        proof {
            crate::content::lemma_tokens_round_trip(typed@);
            lemma_cleared_size(content@.elmts);
        }
        content.update_virtual_whitespace_2(visible);
        content
    }

    /// The typed text alone, without virtual whitespace.
    pub fn typed_string(&self) -> (r: String)
        ensures
            r@ == typed_text_of(self@.elmts),
    {
        let mut s = String::new();
        let mut k: usize = 0;
        while k < self.elmts.len()
            invariant
                k <= self.elmts.len(),
                s@ == text_of(cleared_of(self@.elmts).take(k as int)),
            decreases self.elmts.len() - k,
        {
            let ws = &self.elmts[k].whitespace;
            let mut j: usize = 0;
            let ghost s0 = s@;
            while j < ws.typed.len()
                invariant
                    j <= ws.typed.len(),
                    s@ == s0 + typed_text(ws.typed@.take(j as int)),
                decreases ws.typed.len() - j,
            {
                s.push(ws.typed[j].to_char());
                proof {
                    assert(typed_text(ws.typed@.take(j + 1)) =~= typed_text(ws.typed@.take(j as int)).push(
                        ws.typed@[j as int].spec_char(),
                    ));
                }
                j = j + 1;
            }
            if let Some(c) = self.elmts[k].character {
                s.push(c);
            }
            proof {
                let e = cleared_of(self@.elmts);
                lemma_text_of_take(e, k as int);
                assert(ws.typed@.take(j as int) =~= ws.typed@);
                assert(e[k as int].whitespace.padding() =~= Seq::<char>::empty());
                assert(s@ =~= text_of(e.take(k as int)) + e[k as int].text());
            }
            k = k + 1;
        }
        proof {
            assert(cleared_of(self@.elmts).take(k as int) =~= cleared_of(self@.elmts));
        }
        s
    }
}

/// Clearing never grows the size.
pub proof fn lemma_cleared_size(elmts: Seq<ElmtView>)
    ensures
        size_of(cleared_of(elmts)) <= size_of(elmts),
    decreases elmts.len(),
{
    if elmts.len() > 0 {
        lemma_cleared_size(elmts.drop_last());
        assert(cleared_of(elmts).drop_last() =~= cleared_of(elmts.drop_last()));
    }
}


impl Content {
    /// The size bound of the tokens with no virtual whitespace.
    fn typed_size(&self) -> (r: usize)
        requires
            self.wf(),
        ensures
            r == size_of(cleared_of(self@.elmts)),
    {
        let ghost e = cleared_of(self@.elmts);
        proof {
            lemma_cleared_size(self@.elmts);
        }
        let mut total: usize = 0;
        let mut k: usize = 0;
        while k < self.elmts.len()
            invariant
                k <= self.elmts.len(),
                e == cleared_of(self@.elmts),
                size_of(e) <= usize::MAX,
                total == size_of(e.take(k as int)),
            decreases self.elmts.len() - k,
        {
            proof {
                lemma_text_of_take(e, k as int);
                lemma_size_take(e, k + 1);
            }
            total = total + self.elmts[k].whitespace.typed.len() + 1;
            k = k + 1;
        }
        proof {
            assert(e.take(k as int) =~= e);
        }
        total
    }

    /// Takes `formatted` as the formatter's rendering of the typed text:
    /// reconciles with it and puts the sticky position at the cursor's start.
    /// Returns false, changing nothing, when the counts could not fit.
    pub fn apply_formatted(&mut self, formatted: &str) -> (r: bool)
        requires
            old(self).wf(),
        ensures
            final(self).wf(),
            r == (size_of(cleared_of(old(self)@.elmts)) + formatted@.len() <= usize::MAX),
            r ==> final(self)@ == old(self)@.formatted_with(formatted@),
            !r ==> final(self)@ == old(self)@,
    {
        let base = self.typed_size();
        let len = formatted.unicode_len();
        if len > usize::MAX - base {
            return false;
        }
        self.update_virtual_whitespace_2(formatted);
        let pos = self.cursor_pos();
        self.spacial_cursor = pos.0;
        true
    }
}

} // verus!
