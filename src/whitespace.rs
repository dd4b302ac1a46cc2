//! The whitespace in front of one token: what was typed, and what a formatter
//! would add.

use vstd::prelude::*;
use crate::text::repeated;

verus! {

/// One typed whitespace unit.
#[derive(Clone, Copy, Debug, PartialEq, Eq, Structural)]
pub enum WhitespaceChar {
    Space,
    Newline,
}

impl WhitespaceChar {
    pub open spec fn spec_char(self) -> char {
        match self {
            WhitespaceChar::Space => ' ',
            WhitespaceChar::Newline => '\n',
        }
    }

    pub fn is_newline(&self) -> (r: bool)
        ensures
            r == (*self == WhitespaceChar::Newline),
    {
        match self {
            WhitespaceChar::Newline => true,
            WhitespaceChar::Space => false,
        }
    }

    pub fn to_char(&self) -> (r: char)
        ensures
            r == self.spec_char(),
    {
        match self {
            WhitespaceChar::Space => ' ',
            WhitespaceChar::Newline => '\n',
        }
    }
}

/// The characters that typed units stand for.
pub open spec fn typed_text(t: Seq<WhitespaceChar>) -> Seq<char> {
    t.map_values(|w: WhitespaceChar| w.spec_char())
}

/// How many typed units are newlines.
pub open spec fn newline_count(t: Seq<WhitespaceChar>) -> nat
    decreases t.len(),
{
    if t.len() == 0 {
        0
    } else {
        newline_count(t.drop_last()) + if t.last() == WhitespaceChar::Newline {
            1nat
        } else {
            0nat
        }
    }
}

/// How many spaces follow the last typed newline (all of them, if none).
pub open spec fn trailing_spaces(t: Seq<WhitespaceChar>) -> nat
    decreases t.len(),
{
    if t.len() == 0 {
        0
    } else if t.last() == WhitespaceChar::Newline {
        0
    } else {
        trailing_spaces(t.drop_last()) + 1
    }
}

/// The whitespace in front of one token, as plain values.
pub struct WhitespaceView {
    pub typed: Seq<WhitespaceChar>,
    pub virtual_newlines: nat,
    pub virtual_spaces: nat,
}

impl WhitespaceView {
    /// What the formatter adds to the typed whitespace: it only pads.
    pub open spec fn padding(self) -> Seq<char> {
        let nl = newline_count(self.typed);
        let sp = trailing_spaces(self.typed);
        if nl < self.virtual_newlines {
            repeated('\n', (self.virtual_newlines - nl) as nat) + repeated(
                ' ',
                self.virtual_spaces,
            )
        } else if nl == self.virtual_newlines && sp < self.virtual_spaces {
            repeated(' ', (self.virtual_spaces - sp) as nat)
        } else {
            Seq::empty()
        }
    }

    pub open spec fn text(self) -> Seq<char> {
        typed_text(self.typed) + self.padding()
    }

    /// Virtual newlines that no typed newline matches.
    pub open spec fn unmatched_newlines(self) -> nat {
        if self.virtual_newlines > newline_count(self.typed) {
            (self.virtual_newlines - newline_count(self.typed)) as nat
        } else {
            0
        }
    }

    /// One slot per typed unit boundary, plus one per unmatched virtual newline.
    pub open spec fn num_cursor_positions(self) -> nat {
        self.typed.len() + 1 + self.unmatched_newlines()
    }

    /// An upper bound on the length of the text, used to rule out overflow.
    pub open spec fn size(self) -> nat {
        self.typed.len() + self.virtual_newlines + self.virtual_spaces
    }

    /// This run followed by `right`, as one run: typed units are joined, virtual
    /// newlines add up, and virtual spaces add up only when `right` starts no
    /// new virtual line.
    pub open spec fn merged(self, right: WhitespaceView) -> WhitespaceView {
        WhitespaceView {
            typed: self.typed + right.typed,
            virtual_newlines: self.virtual_newlines + right.virtual_newlines,
            virtual_spaces: if right.virtual_newlines == 0 {
                self.virtual_spaces + right.virtual_spaces
            } else {
                right.virtual_spaces
            },
        }
    }

    pub open spec fn with_typed(self, typed: Seq<WhitespaceChar>) -> WhitespaceView {
        WhitespaceView { typed, ..self }
    }

    pub open spec fn cleared(self) -> WhitespaceView {
        WhitespaceView { typed: self.typed, virtual_newlines: 0, virtual_spaces: 0 }
    }
}

/// Typed whitespace together with the virtual counts that a formatter asked for.
#[derive(Clone, Debug)]
pub struct Whitespace {
    pub typed: Vec<WhitespaceChar>,
    pub virtual_newlines: usize,
    pub virtual_spaces: usize,
}

impl View for Whitespace {
    type V = WhitespaceView;

    open spec fn view(&self) -> WhitespaceView {
        WhitespaceView {
            typed: self.typed@,
            virtual_newlines: self.virtual_newlines as nat,
            virtual_spaces: self.virtual_spaces as nat,
        }
    }
}

pub proof fn lemma_newline_count_bound(t: Seq<WhitespaceChar>)
    ensures
        newline_count(t) <= t.len(),
        trailing_spaces(t) <= t.len(),
    decreases t.len(),
{
    if t.len() > 0 {
        lemma_newline_count_bound(t.drop_last());
    }
}

pub proof fn lemma_newline_count_concat(a: Seq<WhitespaceChar>, b: Seq<WhitespaceChar>)
    ensures
        newline_count(a + b) == newline_count(a) + newline_count(b),
    decreases b.len(),
{
    if b.len() == 0 {
        assert(a + b =~= a);
    } else {
        assert((a + b).drop_last() =~= a + b.drop_last());
        lemma_newline_count_concat(a, b.drop_last());
    }
}

/// Removing or inserting one unit changes the newline count by at most one,
/// and only in the direction of that unit.
pub proof fn lemma_newline_count_split(t: Seq<WhitespaceChar>, k: int)
    requires
        0 <= k <= t.len(),
    ensures
        newline_count(t) == newline_count(t.take(k)) + newline_count(t.skip(k)),
{
    assert(t =~= t.take(k) + t.skip(k));
    lemma_newline_count_concat(t.take(k), t.skip(k));
}

pub proof fn lemma_newline_count_one(w: WhitespaceChar)
    ensures
        newline_count(seq![w]) == if w == WhitespaceChar::Newline {
            1nat
        } else {
            0nat
        },
{
    assert(seq![w].drop_last() =~= Seq::<WhitespaceChar>::empty());
    assert(seq![w].last() == w);
    assert(newline_count(Seq::<WhitespaceChar>::empty()) == 0);
    assert(newline_count(seq![w]) == newline_count(seq![w].drop_last()) + if seq![w].last()
        == WhitespaceChar::Newline {
        1nat
    } else {
        0nat
    });
}

pub proof fn lemma_newline_count_remove(t: Seq<WhitespaceChar>, k: int)
    requires
        0 <= k < t.len(),
    ensures
        newline_count(t.remove(k)) <= newline_count(t),
        newline_count(t.remove(k)) + 1 >= newline_count(t),
{
    lemma_newline_count_split(t, k);
    lemma_newline_count_split(t.skip(k), 1);
    assert(t.remove(k) =~= t.take(k) + t.skip(k + 1));
    assert(t.skip(k).skip(1) =~= t.skip(k + 1));
    lemma_newline_count_concat(t.take(k), t.skip(k + 1));
    assert(t.skip(k).take(1) =~= seq![t[k]]);
    lemma_newline_count_one(t[k]);
}

pub proof fn lemma_newline_count_insert(t: Seq<WhitespaceChar>, k: int, w: WhitespaceChar)
    requires
        0 <= k <= t.len(),
    ensures
        newline_count(t.insert(k, w)) == newline_count(t) + if w == WhitespaceChar::Newline {
            1nat
        } else {
            0nat
        },
{
    lemma_newline_count_split(t, k);
    assert(t.insert(k, w) =~= t.take(k) + (seq![w] + t.skip(k)));
    lemma_newline_count_concat(t.take(k), seq![w] + t.skip(k));
    lemma_newline_count_concat(seq![w], t.skip(k));
    lemma_newline_count_one(w);
}

pub proof fn lemma_padding_len(w: WhitespaceView)
    ensures
        w.padding().len() <= w.virtual_newlines + w.virtual_spaces,
        w.text().len() <= w.size(),
{
}

impl Whitespace {
    /// Counts the typed newlines and the spaces after the last of them.
    pub fn typed_counts(&self) -> (r: (usize, usize))
        ensures
            r.0 == newline_count(self.typed@),
            r.1 == trailing_spaces(self.typed@),
    {
        let mut nl: usize = 0;
        let mut sp: usize = 0;
        let mut k: usize = 0;
        while k < self.typed.len()
            invariant
                k <= self.typed.len(),
                nl == newline_count(self.typed@.take(k as int)),
                sp == trailing_spaces(self.typed@.take(k as int)),
            decreases self.typed.len() - k,
        {
            proof {
                assert(self.typed@.take(k as int + 1).drop_last() =~= self.typed@.take(k as int));
                lemma_newline_count_bound(self.typed@.take(k as int));
            }
            if self.typed[k].is_newline() {
                nl = nl + 1;
                sp = 0;
            } else {
                sp = sp + 1;
            }
            k = k + 1;
        }
        proof {
            assert(self.typed@.take(k as int) =~= self.typed@);
        }
        (nl, sp)
    }

    pub fn get_num_cursor_positions(&self) -> (r: usize)
        requires
            self@.num_cursor_positions() <= usize::MAX,
        ensures
            r == self@.num_cursor_positions(),
    {
        let (nl, _sp) = self.typed_counts();
        if self.virtual_newlines > nl {
            self.typed.len() + 1 + (self.virtual_newlines - nl)
        } else {
            self.typed.len() + 1
        }
    }

    /// The typed whitespace followed by the virtual padding.
    pub fn render(&self) -> (r: String)
        ensures
            r@ == self@.text(),
    {
        let (nl, sp) = self.typed_counts();
        let mut s = String::new();
        let mut k: usize = 0;
        while k < self.typed.len()
            invariant
                k <= self.typed.len(),
                s@ == typed_text(self.typed@.take(k as int)),
            decreases self.typed.len() - k,
        {
            s.push(self.typed[k].to_char());
            proof {
                assert(typed_text(self.typed@.take(k as int + 1)) =~= typed_text(
                    self.typed@.take(k as int),
                ).push(self.typed@[k as int].spec_char()));
            }
            k = k + 1;
        }
        proof {
            assert(self.typed@.take(k as int) =~= self.typed@);
        }
        let ghost base = s@;
        if nl < self.virtual_newlines {
            let mut n: usize = 0;
            while n < self.virtual_newlines - nl
                invariant
                    nl < self.virtual_newlines,
                    n <= self.virtual_newlines - nl,
                    s@ == base + repeated('\n', n as nat),
                decreases self.virtual_newlines - nl - n,
            {
                s.push('\n');
                n = n + 1;
                proof {
                    assert(s@ =~= base + repeated('\n', n as nat));
                }
            }
            let ghost mid = s@;
            let mut m: usize = 0;
            while m < self.virtual_spaces
                invariant
                    m <= self.virtual_spaces,
                    s@ == mid + repeated(' ', m as nat),
                decreases self.virtual_spaces - m,
            {
                s.push(' ');
                m = m + 1;
                proof {
                    assert(s@ =~= mid + repeated(' ', m as nat));
                }
            }
            proof {
                assert(s@ =~= self@.text());
            }
        } else if nl == self.virtual_newlines && sp < self.virtual_spaces {
            let mut m: usize = 0;
            while m < self.virtual_spaces - sp
                invariant
                    sp < self.virtual_spaces,
                    m <= self.virtual_spaces - sp,
                    s@ == base + repeated(' ', m as nat),
                decreases self.virtual_spaces - sp - m,
            {
                s.push(' ');
                m = m + 1;
                proof {
                    assert(s@ =~= base + repeated(' ', m as nat));
                }
            }
            proof {
                assert(s@ =~= self@.text());
            }
        } else {
            proof {
                assert(s@ =~= self@.text());
            }
        }
        s
    }

    /// Appends `right` to this run, as `WhitespaceView::merged` says.
    pub fn merge(left: Whitespace, right: &mut Whitespace)
        requires
            left@.size() + old(right)@.size() <= usize::MAX,
        ensures
            final(right)@ == left@.merged(old(right)@),
    {
        let mut typed = left.typed;
        typed.append(&mut right.typed);
        let spaces = if right.virtual_newlines == 0 {
            left.virtual_spaces + right.virtual_spaces
        } else {
            right.virtual_spaces
        };
        right.typed = typed;
        right.virtual_newlines = left.virtual_newlines + right.virtual_newlines;
        right.virtual_spaces = spaces;
    }
}

} // verus!
