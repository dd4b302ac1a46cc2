//! Moving the cursor.

use vstd::prelude::*;
use crate::content::{
    Content, ContentView, ElmtView, GetString, text_of, lemma_split_at,
    lemma_text_len_bound, lemma_text_of_take,
};
use crate::text::{line_col, step, lemma_advance_bound, lemma_advance_concat};

verus! {

/// Whether a scan for `line` (and, when given, `col`) stops at position `p`:
/// it is past the line, or on it at or beyond the column.
pub open spec fn stops_at(p: (nat, nat), line: nat, col: Option<nat>) -> bool {
    p.0 > line || (p.0 == line && match col {
        Some(c) => p.1 >= c,
        None => false,
    })
}

/// The first character index from `k` on at which the scan stops, or the
/// text's length if there is none.
pub open spec fn first_stop(t: Seq<char>, line: nat, col: Option<nat>, k: nat) -> nat
    decreases t.len() - k,
{
    if k >= t.len() {
        t.len()
    } else if stops_at(line_col(t.take(k as int)), line, col) {
        k
    } else {
        first_stop(t, line, col, k + 1)
    }
}

/// The token (from index `i` on) whose text holds character `k` of the text
/// of those tokens, and the index of that character within it.
pub open spec fn locate(elmts: Seq<ElmtView>, i: nat, k: int) -> (nat, int)
    decreases elmts.len() - i,
{
    if i + 1 >= elmts.len() || k < elmts[i as int].text().len() {
        (i, k)
    } else {
        locate(elmts, i + 1, k - elmts[i as int].text().len())
    }
}

/// The cursor slot for character `k` of the text: its token, and its index
/// within that token's text kept within the token's slots.
pub open spec fn slot_of(elmts: Seq<ElmtView>, k: int) -> (nat, nat) {
    let (i, j) = locate(elmts, 0, k);
    let last = (elmts[i as int].whitespace.num_cursor_positions() - 1) as nat;
    (i, if j <= last { j as nat } else { last })
}

/// Where a scan of the rendered text for `line` (and column `col`, if given)
/// ends: the slot of the stopping character if it is on `line`, else of the
/// character before it (the end of `line`), with that character's column.
/// `None` when the text ends first.
pub open spec fn scan_target(elmts: Seq<ElmtView>, line: nat, col: Option<nat>) -> Option<
    ((nat, nat), nat),
> {
    let t = text_of(elmts);
    let k = first_stop(t, line, col, 0);
    if k >= t.len() {
        None
    } else {
        let q = if line_col(t.take(k as int)).0 == line {
            k as int
        } else {
            k - 1
        };
        Some((slot_of(elmts, q), line_col(t.take(q)).1))
    }
}

proof fn lemma_locate(elmts: Seq<ElmtView>, m: nat, i: nat, j: int)
    requires
        m <= i < elmts.len(),
        0 <= j < elmts[i as int].text().len(),
    ensures
        locate(
            elmts,
            m,
            text_of(elmts.take(i as int)).len() - text_of(elmts.take(m as int)).len() + j,
        ) == (i, j),
    decreases i - m,
{
    if m < i {
        lemma_text_of_take(elmts, m as int);
        lemma_prefix_grows(elmts, (m + 1) as nat, i);
        lemma_locate(elmts, m + 1, i, j);
    }
}

proof fn lemma_prefix_grows(elmts: Seq<ElmtView>, a: nat, b: nat)
    requires
        a <= b <= elmts.len(),
    ensures
        text_of(elmts.take(a as int)).len() <= text_of(elmts.take(b as int)).len(),
    decreases b - a,
{
    if a < b {
        lemma_text_of_take(elmts, a as int);
        lemma_prefix_grows(elmts, a + 1, b);
    }
}

proof fn lemma_never_stops(t: Seq<char>, line: nat, col: Option<nat>, k: nat)
    requires
        k <= t.len(),
        t.len() < line,
    ensures
        first_stop(t, line, col, k) == t.len(),
    decreases t.len() - k,
{
    if k < t.len() {
        lemma_advance_bound((0, 0), t.take(k as int));
        lemma_never_stops(t, line, col, k + 1);
    }
}

impl ContentView {
    /// One slot to the left, onto the last slot of the previous token when at
    /// the start of a whitespace run; nothing at the very start.
    pub open spec fn left_of(self) -> (nat, nat) {
        let (i, o) = self.cursor;
        if o > 0 {
            (i, (o - 1) as nat)
        } else if i > 0 {
            ((i - 1) as nat, self.last_offset(i - 1))
        } else {
            self.cursor
        }
    }

    /// One slot to the right, onto the first slot of the next token when at
    /// the end of a whitespace run; nothing at the very end.
    pub open spec fn right_of(self) -> (nat, nat) {
        let (i, o) = self.cursor;
        if o < self.last_offset(i as int) {
            (i, o + 1)
        } else if i + 1 < self.elmts.len() {
            (i + 1, 0)
        } else {
            self.cursor
        }
    }

    /// The very last slot: the end of the end token's whitespace.
    pub open spec fn end_slot(self) -> (nat, nat) {
        ((self.elmts.len() - 1) as nat, self.last_offset(self.elmts.len() - 1))
    }

    /// The cursor at the very end, the sticky position at its start.
    pub open spec fn at_end(self) -> ContentView {
        self.placed_at_start(self.end_slot())
    }

    /// To the slot that a scan for `(line, col)` finds, keeping that target as
    /// the sticky position; to the very end when the text ends first.
    pub open spec fn moved_to(self, line: nat, col: nat) -> ContentView {
        match scan_target(self.elmts, line, Some(col)) {
            Some((slot, _)) => self.with_cursor(slot).with_spatial((line, col)),
            None => self.at_end(),
        }
    }

    /// One line down, at the sticky column.
    pub open spec fn moved_down(self) -> ContentView {
        self.moved_to(self.spatial.0 + 1, self.spatial.1)
    }

    /// One line up (the first line stays the target), at the sticky column.
    pub open spec fn moved_up(self) -> ContentView {
        self.moved_to(
            if self.spatial.0 > 0 {
                (self.spatial.0 - 1) as nat
            } else {
                0
            },
            self.spatial.1,
        )
    }

    /// To the start of the sticky line.
    pub open spec fn moved_home(self) -> ContentView {
        self.moved_to(self.spatial.0, 0)
    }

    /// To the end of the sticky line, whose column becomes the sticky one; to
    /// the very end on the last line.
    pub open spec fn moved_end(self) -> ContentView {
        match scan_target(self.elmts, self.spatial.0, None) {
            Some((slot, col)) => self.with_cursor(slot).with_spatial((self.spatial.0, col)),
            None => self.at_end(),
        }
    }

    pub open spec fn moved_left(self) -> ContentView {
        self.placed_at_end(self.left_of())
    }

    pub open spec fn moved_right(self) -> ContentView {
        self.placed_at_start(self.right_of())
    }
}

impl Content {
    pub fn cursor_left(&mut self)
        requires
            old(self).wf(),
        ensures
            final(self).wf(),
            final(self)@ == old(self)@.moved_left(),
    {
        if self.cursor.1 > 0 {
            self.cursor.1 = self.cursor.1 - 1;
        } else if self.cursor.0 > 0 {
            let last = self.last_offset(self.cursor.0 - 1);
            self.cursor = (self.cursor.0 - 1, last);
        }
        let pos = self.cursor_pos();
        self.spacial_cursor = pos.1;
    }

    pub fn cursor_right(&mut self)
        requires
            old(self).wf(),
        ensures
            final(self).wf(),
            final(self)@ == old(self)@.moved_right(),
    {
        let last = self.last_offset(self.cursor.0);
        if self.cursor.1 < last {
            self.cursor.1 = self.cursor.1 + 1;
        } else if self.cursor.0 < self.elmts.len() - 1 {
            self.cursor = (self.cursor.0 + 1, 0);
        }
        let pos = self.cursor_pos();
        self.spacial_cursor = pos.0;
    }
}


impl Content {
    /// Scans the rendered text for `line` (and `col`, if given), as
    /// `scan_target` says.
    fn scan_to(&self, line: usize, col: Option<usize>) -> (r: Option<((usize, usize), usize)>)
        requires
            self.wf(),
        ensures
            r matches Some(x) ==> scan_target(
                self@.elmts,
                line as nat,
                match col {
                    Some(c) => Some(c as nat),
                    None => None,
                },
            ) == Some(((x.0.0 as nat, x.0.1 as nat), x.1 as nat)),
            r is None ==> scan_target(
                self@.elmts,
                line as nat,
                match col {
                    Some(c) => Some(c as nat),
                    None => None,
                },
            ) is None,
    {
        let ghost e = self@.elmts;
        let ghost t = text_of(e);
        let ghost tcol: Option<nat> = match col {
            Some(c) => Some(c as nat),
            None => None,
        };
        proof {
            lemma_text_len_bound(e);
        }
        let mut l: usize = 0;
        let mut c: usize = 0;
        let mut prev: ((usize, usize), usize) = ((0, 0), 0);
        let mut i: usize = 0;
        while i < self.elmts.len()
            invariant
                self.wf(),
                e == self@.elmts,
                t == text_of(e),
                t.len() <= usize::MAX,
                tcol == match col {
                    Some(c) => Some(c as nat),
                    None => None,
                },
                i <= e.len(),
                (l as nat, c as nat) == line_col(t.take(text_of(e.take(i as int)).len() as int)),
                t.take(text_of(e.take(i as int)).len() as int) == text_of(e.take(i as int)),
                first_stop(t, line as nat, tcol, 0) == first_stop(
                    t,
                    line as nat,
                    tcol,
                    text_of(e.take(i as int)).len(),
                ),
                text_of(e.take(i as int)).len() > 0 ==> ((prev.0.0 as nat, prev.0.1 as nat),
                prev.1 as nat) == (
                    slot_of(e, text_of(e.take(i as int)).len() - 1),
                    line_col(t.take(text_of(e.take(i as int)).len() - 1)).1,
                ),
            decreases e.len() - i,
        {
            let s = self.elmts[i].get_string();
            let last = self.last_offset(i);
            let ghost base = text_of(e.take(i as int)).len();
            proof {
                lemma_split_at(e, i as int);
                lemma_text_of_take(e, i as int);
                assert(e.take(i as int + 1) == e.take(i as int).push(e[i as int]));
            }
            let mut j: usize = 0;
            for ch in it: s.chars()
                invariant
                    self.wf(),
                    e == self@.elmts,
                    t == text_of(e),
                    t.len() <= usize::MAX,
                    i < e.len(),
                    tcol == match col {
                        Some(c) => Some(c as nat),
                        None => None,
                    },
                    last == e[i as int].whitespace.num_cursor_positions() - 1,
                    base == text_of(e.take(i as int)).len(),
                    t == text_of(e.take(i as int)) + e[i as int].text() + text_of(e.skip(i + 1)),
                    it.seq() == s@,
                    s@ == e[i as int].text(),
                    it.index() <= it.seq().len(),
                    j == it.index(),
                    (l as nat, c as nat) == line_col(t.take(base + j)),
                    first_stop(t, line as nat, tcol, 0) == first_stop(t, line as nat, tcol, (base + j) as nat),
                    base + j > 0 ==> ((prev.0.0 as nat, prev.0.1 as nat), prev.1 as nat) == (
                        slot_of(e, base + j - 1),
                        line_col(t.take(base + j - 1)).1,
                    ),
            {
                let ghost g = base + j;
                proof {
                    assert(t[g] == ch);
                    lemma_advance_bound((0, 0), t.take(g));
                    lemma_locate(e, 0, i as nat, j as int);
                    assert(e.take(0) =~= Seq::<ElmtView>::empty());
                    assert(text_of(e.take(0)).len() == 0);
                    assert(locate(e, 0, g) == (i as nat, j as int));
                    assert(g < t.len());
                    assert(first_stop(t, line as nat, tcol, g as nat) == if stops_at(
                        line_col(t.take(g)),
                        line as nat,
                        tcol,
                    ) {
                        g as nat
                    } else {
                        first_stop(t, line as nat, tcol, (g + 1) as nat)
                    });
                }
                let slot = (i, if j <= last { j } else { last });
                let on_line = l == line;
                let stop = l > line || (on_line && match col {
                    Some(target) => c >= target,
                    None => false,
                });
                assert(stop == stops_at(line_col(t.take(g)), line as nat, tcol));
                if stop {
                    if on_line {
                        return Some((slot, c));
                    } else {
                        proof {
                            if g == 0 {
                                assert(t.take(0) =~= Seq::<char>::empty());
                            }
                        }
                        return Some(prev);
                    }
                }
                prev = (slot, c);
                proof {
                    assert(t.take(g + 1) =~= t.take(g) + seq![ch]);
                    lemma_advance_concat((0, 0), t.take(g), seq![ch]);
                }
                let p = step(l, c, ch);
                l = p.0;
                c = p.1;
                j = j + 1;
            }
            proof {
                assert(text_of(e.take(i + 1)).len() == base + s@.len());
            }
            i = i + 1;
        }
        proof {
            assert(e.take(i as int) =~= e);
        }
        None
    }

    /// Puts the cursor at the very end, the sticky position at its start.
    fn move_to_end(&mut self)
        requires
            old(self).wf(),
        ensures
            final(self).wf(),
            final(self)@ == old(self)@.at_end(),
    {
        let n = self.elmts.len() - 1;
        self.cursor = (n, 0);
        let last = self.last_offset(n);
        self.cursor.1 = last;
        let pos = self.cursor_pos();
        self.spacial_cursor = pos.0;
    }

    /// Moves to what a scan for `(line, col)` finds.
    fn move_to(&mut self, line: usize, col: usize)
        requires
            old(self).wf(),
        ensures
            final(self).wf(),
            final(self)@ == old(self)@.moved_to(line as nat, col as nat),
    {
        match self.scan_to(line, Some(col)) {
            Some((slot, _)) => {
                proof {
                    lemma_slot_valid(self@.elmts, line as nat, Some(col as nat));
                }
                self.cursor = slot;
                self.spacial_cursor = (line, col);
            },
            None => self.move_to_end(),
        }
    }

    pub fn cursor_down(&mut self)
        requires
            old(self).wf(),
        ensures
            final(self).wf(),
            final(self)@ == old(self)@.moved_down(),
    {
        if self.spacial_cursor.0 < usize::MAX {
            self.move_to(self.spacial_cursor.0 + 1, self.spacial_cursor.1);
        } else {
            proof {
                lemma_text_len_bound(self@.elmts);
                lemma_never_stops(
                    text_of(self@.elmts),
                    self@.spatial.0 + 1,
                    Some(self@.spatial.1),
                    0,
                );
            }
            self.move_to_end();
        }
    }

    pub fn cursor_up(&mut self)
        requires
            old(self).wf(),
        ensures
            final(self).wf(),
            final(self)@ == old(self)@.moved_up(),
    {
        if self.spacial_cursor.0 > 0 {
            self.move_to(self.spacial_cursor.0 - 1, self.spacial_cursor.1);
        } else {
            self.move_to(0, self.spacial_cursor.1);
        }
    }

    pub fn cursor_home(&mut self)
        requires
            old(self).wf(),
        ensures
            final(self).wf(),
            final(self)@ == old(self)@.moved_home(),
    {
        self.move_to(self.spacial_cursor.0, 0);
    }

    pub fn cursor_end(&mut self)
        requires
            old(self).wf(),
        ensures
            final(self).wf(),
            final(self)@ == old(self)@.moved_end(),
    {
        let line = self.spacial_cursor.0;
        match self.scan_to(line, None) {
            Some((slot, col)) => {
                proof {
                    lemma_slot_valid(self@.elmts, line as nat, None);
                }
                self.cursor = slot;
                self.spacial_cursor = (line, col);
            },
            None => self.move_to_end(),
        }
    }
}

/// A slot that a scan finds is a valid cursor.
proof fn lemma_slot_valid(elmts: Seq<ElmtView>, line: nat, col: Option<nat>)
    requires
        elmts.len() >= 1,
        scan_target(elmts, line, col) is Some,
    ensures
        ({
            let slot = match scan_target(elmts, line, col) {
                Some(x) => x.0,
                None => (0, 0),
            };
            slot.0 < elmts.len() && slot.1 < elmts[slot.0 as int].whitespace.num_cursor_positions()
        }),
{
    let t = text_of(elmts);
    let k = first_stop(t, line, col, 0);
    let q = if line_col(t.take(k as int)).0 == line {
        k as int
    } else {
        k - 1
    };
    assert(t.take(0) =~= Seq::<char>::empty());
    if k == 0 {
        assert(line_col(t.take(0)) == (0nat, 0nat));
        lemma_first_stop_ge(t, line, col, 1);
        assert(stops_at(line_col(t.take(0)), line, col));
    }
    lemma_locate_bound(elmts, 0, q);
}

proof fn lemma_first_stop_ge(t: Seq<char>, line: nat, col: Option<nat>, k: nat)
    ensures
        first_stop(t, line, col, k) >= k || first_stop(t, line, col, k) == t.len(),
        first_stop(t, line, col, k) <= t.len() || k > t.len(),
    decreases t.len() - k,
{
    if k < t.len() {
        lemma_first_stop_ge(t, line, col, k + 1);
    }
}

proof fn lemma_locate_bound(elmts: Seq<ElmtView>, i: nat, k: int)
    requires
        i < elmts.len(),
        k >= 0,
    ensures
        locate(elmts, i, k).0 < elmts.len(),
        locate(elmts, i, k).1 >= 0,
    decreases elmts.len() - i,
{
    if !(i + 1 >= elmts.len() || k < elmts[i as int].text().len()) {
        lemma_locate_bound(elmts, i + 1, k - elmts[i as int].text().len());
    }
}

} // verus!
