//! Plain character sequences: line and column arithmetic and string building.

use vstd::prelude::*;

verus! {

/// Relies on `String::push`, which appends one character at the end; used to
/// build rendered text.
pub assume_specification[ String::push ](s: &mut String, ch: char)
    ensures
        final(s)@ == old(s)@.push(ch),
;

/// `n` copies of `c`.
pub open spec fn repeated(c: char, n: nat) -> Seq<char> {
    Seq::new(n, |i: int| c)
}

/// The (line, column) reached after reading `s`, starting at `start`.
pub open spec fn advance(start: (nat, nat), s: Seq<char>) -> (nat, nat)
    decreases s.len(),
{
    if s.len() == 0 {
        start
    } else {
        let p = advance(start, s.drop_last());
        if s.last() == '\n' {
            ((p.0 + 1) as nat, 0nat)
        } else {
            (p.0, (p.1 + 1) as nat)
        }
    }
}

/// The (line, column) of the position just after `s`.
pub open spec fn line_col(s: Seq<char>) -> (nat, nat) {
    advance((0, 0), s)
}

/// Lexicographic maximum of two positions.
pub open spec fn max_pos(a: (nat, nat), b: (nat, nat)) -> (nat, nat) {
    if a.0 > b.0 || (a.0 == b.0 && a.1 >= b.1) {
        a
    } else {
        b
    }
}

pub proof fn lemma_advance_concat(start: (nat, nat), a: Seq<char>, b: Seq<char>)
    ensures
        advance(start, a + b) == advance(advance(start, a), b),
    decreases b.len(),
{
    if b.len() == 0 {
        assert(a + b =~= a);
    } else {
        assert((a + b).drop_last() =~= a + b.drop_last());
        lemma_advance_concat(start, a, b.drop_last());
    }
}

pub proof fn lemma_advance_bound(start: (nat, nat), s: Seq<char>)
    ensures
        advance(start, s).0 <= start.0 + s.len(),
        advance(start, s).1 <= start.1 + s.len(),
    decreases s.len(),
{
    if s.len() > 0 {
        lemma_advance_bound(start, s.drop_last());
    }
}

/// Step one character forward from `(line, col)`.
pub fn step(line: usize, col: usize, c: char) -> (r: (usize, usize))
    requires
        line < usize::MAX,
        col < usize::MAX,
    ensures
        (r.0 as nat, r.1 as nat) == advance((line as nat, col as nat), seq![c]),
{
    proof {
        assert(seq![c].drop_last() =~= Seq::<char>::empty());
        assert(seq![c].last() == c);
        assert(advance((line as nat, col as nat), Seq::<char>::empty()) == (line as nat, col as nat));
    }
    if c == '\n' {
        (line + 1, 0)
    } else {
        (line, col + 1)
    }
}

/// Steps `(line, col)` over every character of `s`.
pub fn advance_over(line: usize, col: usize, s: &String) -> (r: (usize, usize))
    requires
        line + s@.len() <= usize::MAX,
        col + s@.len() <= usize::MAX,
    ensures
        (r.0 as nat, r.1 as nat) == advance((line as nat, col as nat), s@),
{
    let mut l = line;
    let mut c = col;
    for ch in it: s.chars()
        invariant
            it.seq() == s@,
            it.index() <= it.seq().len(),
            line + s@.len() <= usize::MAX,
            col + s@.len() <= usize::MAX,
            (l as nat, c as nat) == advance(
                (line as nat, col as nat),
                s@.take(it.index() as int),
            ),
    {
        proof {
            let k = it.index() as int;
            lemma_advance_bound((line as nat, col as nat), s@.take(k));
            assert(s@.take(k + 1) =~= s@.take(k) + seq![ch]);
            lemma_advance_concat((line as nat, col as nat), s@.take(k), seq![ch]);
        }
        let p = step(l, c, ch);
        l = p.0;
        c = p.1;
    }
    proof {
        assert(s@.take(s@.len() as int) =~= s@);
    }
    (l, c)
}

} // verus!
