//! The buffer: a sequence of tokens, each with the whitespace before it, and a
//! cursor.

use vstd::prelude::*;
use crate::text::{advance, advance_over, line_col, max_pos, step, lemma_advance_bound, lemma_advance_concat};
use crate::whitespace::{
    typed_text, Whitespace, WhitespaceChar, WhitespaceView, lemma_padding_len,
    lemma_newline_count_bound,
};

verus! {

/// Turns a value into the text that it shows.
pub trait GetString {
    spec fn text(&self) -> Seq<char>;

    fn get_string(&self) -> (r: String)
        ensures
            r@ == self.text(),
    ;
}

/// One token as plain values; `character` is `None` only for the end token.
pub struct ElmtView {
    pub character: Option<char>,
    pub whitespace: WhitespaceView,
}

impl ElmtView {
    pub open spec fn char_text(self) -> Seq<char> {
        match self.character {
            Some(c) => seq![c],
            None => Seq::empty(),
        }
    }

    pub open spec fn text(self) -> Seq<char> {
        self.whitespace.text() + self.char_text()
    }

    pub open spec fn size(self) -> nat {
        self.whitespace.size() + 1
    }

    pub open spec fn cleared(self) -> ElmtView {
        ElmtView { character: self.character, whitespace: self.whitespace.cleared() }
    }
}

/// The rendered text of a sequence of tokens.
pub open spec fn text_of(elmts: Seq<ElmtView>) -> Seq<char>
    decreases elmts.len(),
{
    if elmts.len() == 0 {
        Seq::empty()
    } else {
        text_of(elmts.drop_last()) + elmts.last().text()
    }
}

/// An upper bound on the rendered length of a sequence of tokens.
pub open spec fn size_of(elmts: Seq<ElmtView>) -> nat
    decreases elmts.len(),
{
    if elmts.len() == 0 {
        0
    } else {
        size_of(elmts.drop_last()) + elmts.last().size()
    }
}

/// The tokens with every virtual count set to zero.
pub open spec fn cleared_of(elmts: Seq<ElmtView>) -> Seq<ElmtView> {
    elmts.map_values(|e: ElmtView| e.cleared())
}

pub open spec fn is_token_char(c: char) -> bool {
    c != ' ' && c != '\n'
}

/// A token that is not the end token: it holds a non-whitespace character.
pub open spec fn is_char_token(e: ElmtView) -> bool {
    match e.character {
        Some(c) => is_token_char(c),
        None => false,
    }
}

/// The whole buffer as plain values.
pub struct ContentView {
    pub elmts: Seq<ElmtView>,
    pub cursor: (nat, nat),
    pub spatial: (nat, nat),
}

impl ContentView {
    /// Tokens carry one non-whitespace character each, the last one is the end
    /// token, the cursor addresses a slot, and every count fits in `usize`.
    pub open spec fn wf(self) -> bool {
        &&& self.elmts.len() >= 1
        &&& forall|i: int|
            0 <= i < self.elmts.len() - 1 ==> is_char_token(#[trigger] self.elmts[i])
        &&& self.elmts.last().character is None
        &&& self.cursor.0 < self.elmts.len()
        &&& self.cursor.1 < self.elmts[self.cursor.0 as int].whitespace.num_cursor_positions()
        &&& size_of(self.elmts) <= usize::MAX
    }

    pub open spec fn text(self) -> Seq<char> {
        text_of(self.elmts)
    }

    pub open spec fn current(self) -> WhitespaceView {
        self.elmts[self.cursor.0 as int].whitespace
    }

    /// The last cursor slot in the whitespace of token `i`.
    pub open spec fn last_offset(self, i: int) -> nat {
        (self.elmts[i].whitespace.num_cursor_positions() - 1) as nat
    }

    pub open spec fn with_cursor(self, cursor: (nat, nat)) -> ContentView {
        ContentView { cursor, ..self }
    }

    pub open spec fn with_spatial(self, spatial: (nat, nat)) -> ContentView {
        ContentView { spatial, ..self }
    }

    /// The cursor placed at `cursor`, with the sticky position at its start.
    pub open spec fn placed_at_start(self, cursor: (nat, nat)) -> ContentView {
        self.with_cursor(cursor).with_spatial(self.with_cursor(cursor).cursor_range().0)
    }

    /// The cursor placed at `cursor`, with the sticky position at its end.
    pub open spec fn placed_at_end(self, cursor: (nat, nat)) -> ContentView {
        self.with_cursor(cursor).with_spatial(self.with_cursor(cursor).cursor_range().1)
    }

    /// The (start, end) positions of the cursor; they differ only when the
    /// cursor stands before a character with virtual padding still ahead.
    pub open spec fn cursor_range(self) -> ((nat, nat), (nat, nat)) {
        let i = self.cursor.0 as int;
        let o = self.cursor.1;
        let ws = self.elmts[i].whitespace;
        let base = line_col(text_of(self.elmts.take(i)));
        let virtual_end = if ws.virtual_newlines > 0 {
            ((base.0 + ws.virtual_newlines) as nat, ws.virtual_spaces)
        } else {
            (base.0, (base.1 + ws.virtual_spaces) as nat)
        };
        let walked = if o <= ws.typed.len() {
            ws.typed.take(o as int)
        } else {
            ws.typed
        };
        let start = advance(base, typed_text(walked));
        if o == ws.num_cursor_positions() - 1 {
            (start, max_pos(start, virtual_end))
        } else {
            (start, start)
        }
    }
}

/// One token: a character and the whitespace in front of it.
#[derive(Clone, Debug)]
pub struct Elmt {
    pub(crate) character: Option<char>,
    pub(crate) whitespace: Whitespace,
}

impl View for Elmt {
    type V = ElmtView;

    open(crate) spec fn view(&self) -> ElmtView {
        ElmtView { character: self.character, whitespace: self.whitespace@ }
    }
}

/// A buffer of typed text with formatter padding, and a cursor in it.
#[derive(Debug)]
pub struct Content {
    pub(crate) elmts: Vec<Elmt>,
    pub(crate) cursor: (usize, usize),
    pub(crate) spacial_cursor: (usize, usize),
}

impl View for Content {
    type V = ContentView;

    open(crate) spec fn view(&self) -> ContentView {
        ContentView {
            elmts: self.elmts@.map_values(|e: Elmt| e@),
            cursor: (self.cursor.0 as nat, self.cursor.1 as nat),
            spatial: (self.spacial_cursor.0 as nat, self.spacial_cursor.1 as nat),
        }
    }
}

/// Splitting typed text: the finished tokens and the whitespace still pending.
pub open spec fn scan(s: Seq<char>) -> (Seq<ElmtView>, Seq<WhitespaceChar>)
    decreases s.len(),
{
    if s.len() == 0 {
        (Seq::empty(), Seq::empty())
    } else {
        let (done, pending) = scan(s.drop_last());
        let c = s.last();
        if c == ' ' {
            (done, pending.push(WhitespaceChar::Space))
        } else if c == '\n' {
            (done, pending.push(WhitespaceChar::Newline))
        } else {
            (
                done.push(
                    ElmtView {
                        character: Some(c),
                        whitespace: WhitespaceView {
                            typed: pending,
                            virtual_newlines: 0,
                            virtual_spaces: 0,
                        },
                    },
                ),
                Seq::empty(),
            )
        }
    }
}

pub open spec fn typed_only(typed: Seq<WhitespaceChar>) -> WhitespaceView {
    WhitespaceView { typed, virtual_newlines: 0, virtual_spaces: 0 }
}

/// The tokens of typed text: every non-whitespace character with the
/// whitespace before it, then the end token with the trailing whitespace.
pub open spec fn tokens_of(s: Seq<char>) -> Seq<ElmtView> {
    scan(s).0.push(ElmtView { character: None, whitespace: typed_only(scan(s).1) })
}

pub proof fn lemma_text_of_push(e: Seq<ElmtView>, x: ElmtView)
    ensures
        text_of(e.push(x)) == text_of(e) + x.text(),
        size_of(e.push(x)) == size_of(e) + x.size(),
{
    assert(e.push(x).drop_last() =~= e);
}

pub proof fn lemma_text_of_take(e: Seq<ElmtView>, k: int)
    requires
        0 <= k < e.len(),
    ensures
        text_of(e.take(k + 1)) == text_of(e.take(k)) + e[k].text(),
        size_of(e.take(k + 1)) == size_of(e.take(k)) + e[k].size(),
{
    assert(e.take(k + 1).drop_last() =~= e.take(k));
}

pub proof fn lemma_text_len_bound(e: Seq<ElmtView>)
    ensures
        text_of(e).len() <= size_of(e),
    decreases e.len(),
{
    if e.len() > 0 {
        lemma_text_len_bound(e.drop_last());
        lemma_padding_len(e.last().whitespace);
    }
}

pub proof fn lemma_size_take(e: Seq<ElmtView>, k: int)
    requires
        0 <= k <= e.len(),
    ensures
        size_of(e.take(k)) <= size_of(e),
    decreases e.len() - k,
{
    if k < e.len() {
        lemma_text_of_take(e, k);
        lemma_size_take(e, k + 1);
    } else {
        assert(e.take(k) =~= e);
    }
}

proof fn lemma_scan(s: Seq<char>)
    ensures
        text_of(scan(s).0) + typed_text(scan(s).1) == s,
        size_of(scan(s).0) + scan(s).1.len() == s.len(),
        forall|i: int|
            0 <= i < scan(s).0.len() ==> is_char_token(#[trigger] scan(s).0[i]),
        forall|i: int|
            0 <= i < scan(s).0.len() ==> #[trigger] scan(s).0[i].whitespace.virtual_newlines
                == 0 && scan(s).0[i].whitespace.virtual_spaces == 0,
    decreases s.len(),
{
    if s.len() > 0 {
        let (done, pending) = scan(s.drop_last());
        lemma_scan(s.drop_last());
        let c = s.last();
        assert(s =~= s.drop_last().push(c));
        if c == ' ' {
            assert(typed_text(pending.push(WhitespaceChar::Space)) =~= typed_text(pending).push(
                ' ',
            ));
            assert(s =~= text_of(done) + typed_text(pending.push(WhitespaceChar::Space)));
        } else if c == '\n' {
            assert(typed_text(pending.push(WhitespaceChar::Newline)) =~= typed_text(
                pending,
            ).push('\n'));
            assert(s =~= text_of(done) + typed_text(pending.push(WhitespaceChar::Newline)));
        } else {
            let x = ElmtView { character: Some(c), whitespace: typed_only(pending) };
            lemma_text_of_push(done, x);
            assert(x.whitespace.padding() =~= Seq::<char>::empty());
            assert(typed_text(Seq::<WhitespaceChar>::empty()) =~= Seq::<char>::empty());
            assert(s =~= text_of(done.push(x)) + typed_text(Seq::<WhitespaceChar>::empty()));
            assert forall|i: int| 0 <= i < done.push(x).len() implies is_char_token(
                #[trigger] done.push(x)[i],
            ) by {
                if i < done.len() {
                    assert(done.push(x)[i] == done[i]);
                }
            }
        }
    }
}

/// Typed text comes back unchanged from its tokens.
pub proof fn lemma_tokens_round_trip(s: Seq<char>)
    ensures
        text_of(tokens_of(s)) == s,
        size_of(tokens_of(s)) == s.len() + 1,
{
    lemma_scan(s);
    let last = ElmtView { character: None, whitespace: typed_only(scan(s).1) };
    lemma_text_of_push(scan(s).0, last);
    assert(last.whitespace.padding() =~= Seq::<char>::empty());
    assert(last.text() =~= typed_text(scan(s).1));
}

impl GetString for WhitespaceChar {
    open spec fn text(&self) -> Seq<char> {
        seq![self.spec_char()]
    }

    fn get_string(&self) -> (r: String) {
        let mut s = String::new();
        s.push(self.to_char());
        proof {
            assert(s@ =~= seq![self.spec_char()]);
        }
        s
    }
}

impl GetString for Whitespace {
    open spec fn text(&self) -> Seq<char> {
        self@.text()
    }

    fn get_string(&self) -> (r: String) {
        self.render()
    }
}

impl GetString for Elmt {
    open spec fn text(&self) -> Seq<char> {
        self@.text()
    }

    fn get_string(&self) -> (r: String) {
        let mut s = self.whitespace.render();
        if let Some(c) = self.character {
            s.push(c);
        }
        proof {
            assert(s@ =~= self@.text());
        }
        s
    }
}

impl GetString for Content {
    open spec fn text(&self) -> Seq<char> {
        text_of(self@.elmts)
    }

    fn get_string(&self) -> (r: String) {
        let mut s = String::new();
        let mut k: usize = 0;
        while k < self.elmts.len()
            invariant
                k <= self.elmts.len(),
                s@ == text_of(self@.elmts.take(k as int)),
            decreases self.elmts.len() - k,
        {
            let t = self.elmts[k].get_string();
            proof {
                lemma_text_of_take(self@.elmts, k as int);
            }
            s.append(t.as_str());
            k = k + 1;
        }
        proof {
            assert(self@.elmts.take(k as int) =~= self@.elmts);
        }
        s
    }
}

impl Content {
    pub open spec fn wf(&self) -> bool {
        self@.wf()
    }

    /// Splits typed text into tokens, with no virtual whitespace and the
    /// cursor at the start.
    pub fn from_string(input: &str) -> (r: Content)
        requires
            input@.len() < usize::MAX,
        ensures
            r.wf(),
            r@.elmts == tokens_of(input@),
            r@.cursor == (0nat, 0nat),
            r@.spatial == (0nat, 0nat),
            r@.text() == input@,
    {
        let mut elmts: Vec<Elmt> = Vec::new();
        let mut current: Vec<WhitespaceChar> = Vec::new();
        for c in it: input.chars()
            invariant
                it.seq() == input@,
                it.index() <= it.seq().len(),
                elmts@.map_values(|e: Elmt| e@) == scan(input@.take(it.index() as int)).0,
                current@ == scan(input@.take(it.index() as int)).1,
        {
            let ghost k = it.index() as int;
            proof {
                assert(input@.take(k + 1).drop_last() =~= input@.take(k));
                assert(input@.take(k + 1).last() == c);
            }
            if c == ' ' {
                current.push(WhitespaceChar::Space);
            } else if c == '\n' {
                current.push(WhitespaceChar::Newline);
            } else {
                let ws = Whitespace { typed: current, virtual_newlines: 0, virtual_spaces: 0 };
                elmts.push(Elmt { character: Some(c), whitespace: ws });
                current = Vec::new();
                proof {
                    assert(elmts@.map_values(|e: Elmt| e@) =~= scan(input@.take(k + 1)).0);
                    assert(current@ =~= scan(input@.take(k + 1)).1);
                }
            }
        }
        let ws = Whitespace { typed: current, virtual_newlines: 0, virtual_spaces: 0 };
        elmts.push(Elmt { character: None, whitespace: ws });
        let r = Content { elmts, cursor: (0, 0), spacial_cursor: (0, 0) };
        proof {
            assert(input@.take(input@.len() as int) =~= input@);
            assert(r@.elmts =~= tokens_of(input@));
            lemma_tokens_round_trip(input@);
            lemma_scan(input@);
            let e = r@.elmts;
            assert forall|i: int| 0 <= i < e.len() - 1 implies is_char_token(#[trigger] e[i]) by {
                assert(e[i] == scan(input@).0[i]);
            }
        }
        r
    }

    /// The last cursor slot in the whitespace of token `i`.
    pub(crate) fn last_offset(&self, i: usize) -> (r: usize)
        requires
            self.wf(),
            i < self@.elmts.len(),
        ensures
            r == self@.last_offset(i as int),
    {
        proof {
            lemma_prefix_bounds(self@.elmts, i as int);
        }
        self.elmts[i].whitespace.get_num_cursor_positions() - 1
    }

    /// The position reached after the text of the first `i` tokens.
    pub(crate) fn prefix_pos(&self, i: usize) -> (r: (usize, usize))
        requires
            self.wf(),
            i < self@.elmts.len(),
        ensures
            (r.0 as nat, r.1 as nat) == line_col(text_of(self@.elmts.take(i as int))),
            r.0 + self@.elmts[i as int].size() <= usize::MAX,
            r.1 + self@.elmts[i as int].size() <= usize::MAX,
    {
        let mut line: usize = 0;
        let mut col: usize = 0;
        let mut k: usize = 0;
        while k < i
            invariant
                self.wf(),
                k <= i < self@.elmts.len(),
                (line as nat, col as nat) == line_col(text_of(self@.elmts.take(k as int))),
            decreases i - k,
        {
            let t = self.elmts[k].get_string();
            proof {
                lemma_prefix_bounds(self@.elmts, k as int);
            }
            let p = advance_over(line, col, &t);
            proof {
                lemma_text_of_take(self@.elmts, k as int);
                lemma_advance_concat((0, 0), text_of(self@.elmts.take(k as int)), t@);
            }
            line = p.0;
            col = p.1;
            k = k + 1;
        }
        proof {
            lemma_prefix_bounds(self@.elmts, i as int);
        }
        (line, col)
    }

    pub fn cursor_pos(&self) -> (r: ((usize, usize), (usize, usize)))
        requires
            self.wf(),
        ensures
            ((r.0.0 as nat, r.0.1 as nat), (r.1.0 as nat, r.1.1 as nat)) == self@.cursor_range(),
    {
        let i = self.cursor.0;
        let o = self.cursor.1;
        let base = self.prefix_pos(i);
        let ws = &self.elmts[i].whitespace;
        let virtual_end = if ws.virtual_newlines > 0 {
            (base.0 + ws.virtual_newlines, ws.virtual_spaces)
        } else {
            (base.0, base.1 + ws.virtual_spaces)
        };
        let n = if o <= ws.typed.len() {
            o
        } else {
            ws.typed.len()
        };
        let ghost b = (base.0 as nat, base.1 as nat);
        let mut line = base.0;
        let mut col = base.1;
        let mut j: usize = 0;
        while j < n
            invariant
                j <= n <= ws.typed.len(),
                b == (base.0 as nat, base.1 as nat),
                base.0 + ws@.size() + 1 <= usize::MAX,
                base.1 + ws@.size() + 1 <= usize::MAX,
                (line as nat, col as nat) == advance(b, typed_text(ws.typed@.take(j as int))),
            decreases n - j,
        {
            proof {
                lemma_advance_bound(b, typed_text(ws.typed@.take(j as int)));
                assert(typed_text(ws.typed@.take(j as int)).len() == j);
                assert(typed_text(ws.typed@.take(j as int + 1)) =~= typed_text(
                    ws.typed@.take(j as int),
                ) + seq![ws.typed@[j as int].spec_char()]);
                lemma_advance_concat(
                    b,
                    typed_text(ws.typed@.take(j as int)),
                    seq![ws.typed@[j as int].spec_char()],
                );
            }
            let p = step(line, col, ws.typed[j].to_char());
            line = p.0;
            col = p.1;
            j = j + 1;
        }
        proof {
            if o > ws.typed.len() {
                assert(ws.typed@.take(n as int) =~= ws.typed@);
            }
            lemma_newline_count_bound(ws.typed@);
        }
        let start = (line, col);
        let last = ws.get_num_cursor_positions() - 1;
        let end = if o == last {
            if start.0 > virtual_end.0 || (start.0 == virtual_end.0 && start.1 >= virtual_end.1) {
                start
            } else {
                virtual_end
            }
        } else {
            start
        };
        (start, end)
    }

    /// The cursor's range, and the end of it that lies on the line of the
    /// sticky position (the start, when both do).
    pub fn cursor_pos_2(&self) -> (r: (((usize, usize), (usize, usize)), (usize, usize)))
        requires
            self.wf(),
        ensures
            ((r.0.0.0 as nat, r.0.0.1 as nat), (r.0.1.0 as nat, r.0.1.1 as nat))
                == self@.cursor_range(),
            r.1 == if self@.spatial.0 == r.0.0.0 {
                r.0.0
            } else {
                r.0.1
            },
    {
        let pos = self.cursor_pos();
        let small = if self.spacial_cursor.0 == pos.0.0 {
            pos.0
        } else {
            pos.1
        };
        (pos, small)
    }
}

pub proof fn lemma_size_concat(a: Seq<ElmtView>, b: Seq<ElmtView>)
    ensures
        size_of(a + b) == size_of(a) + size_of(b),
        text_of(a + b) == text_of(a) + text_of(b),
    decreases b.len(),
{
    if b.len() == 0 {
        assert(a + b =~= a);
        assert(text_of(a) + text_of(b) =~= text_of(a));
    } else {
        assert((a + b).drop_last() =~= a + b.drop_last());
        lemma_size_concat(a, b.drop_last());
        assert(text_of(a + b) =~= text_of(a) + text_of(b));
    }
}

/// A sequence of tokens split around token `i`.
pub proof fn lemma_split_at(e: Seq<ElmtView>, i: int)
    requires
        0 <= i < e.len(),
    ensures
        size_of(e) == size_of(e.take(i)) + e[i].size() + size_of(e.skip(i + 1)),
        text_of(e) == text_of(e.take(i)) + e[i].text() + text_of(e.skip(i + 1)),
{
    assert(e =~= e.take(i).push(e[i]) + e.skip(i + 1));
    lemma_size_concat(e.take(i).push(e[i]), e.skip(i + 1));
    lemma_text_of_push(e.take(i), e[i]);
}

pub proof fn lemma_size_update(e: Seq<ElmtView>, i: int, x: ElmtView)
    requires
        0 <= i < e.len(),
    ensures
        size_of(e.update(i, x)) + e[i].size() == size_of(e) + x.size(),
{
    lemma_split_at(e, i);
    lemma_split_at(e.update(i, x), i);
    assert(e.update(i, x).take(i) =~= e.take(i));
    assert(e.update(i, x).skip(i + 1) =~= e.skip(i + 1));
}

pub proof fn lemma_size_remove(e: Seq<ElmtView>, i: int)
    requires
        0 <= i < e.len(),
    ensures
        size_of(e.remove(i)) + e[i].size() == size_of(e),
{
    lemma_split_at(e, i);
    assert(e.remove(i) =~= e.take(i) + e.skip(i + 1));
    lemma_size_concat(e.take(i), e.skip(i + 1));
}

pub proof fn lemma_size_insert(e: Seq<ElmtView>, i: int, x: ElmtView)
    requires
        0 <= i <= e.len(),
    ensures
        size_of(e.insert(i, x)) == size_of(e) + x.size(),
{
    lemma_split_at(e.insert(i, x), i);
    assert(e.insert(i, x).take(i) =~= e.take(i));
    assert(e.insert(i, x).skip(i + 1) =~= e.skip(i));
    assert(e =~= e.take(i) + e.skip(i));
    lemma_size_concat(e.take(i), e.skip(i));
}

/// Two distinct tokens together fit within the size bound.
pub proof fn lemma_two_sizes(e: Seq<ElmtView>, i: int)
    requires
        0 <= i < e.len() - 1,
    ensures
        e[i].size() + e[i + 1].size() <= size_of(e),
{
    lemma_split_at(e, i);
    lemma_split_at(e.skip(i + 1), 0);
    assert(e.skip(i + 1)[0] == e[i + 1]);
}

/// The text before token `i` and token `i` itself fit within the size bound.
pub proof fn lemma_prefix_bounds(e: Seq<ElmtView>, i: int)
    requires
        0 <= i < e.len(),
    ensures
        line_col(text_of(e.take(i))).0 + e[i].size() <= size_of(e),
        line_col(text_of(e.take(i))).1 + e[i].size() <= size_of(e),
        text_of(e.take(i)).len() + e[i].text().len() <= size_of(e),
        e[i].size() <= size_of(e),
        e[i].whitespace.num_cursor_positions() <= e[i].size(),
{
    lemma_advance_bound((0, 0), text_of(e.take(i)));
    lemma_text_len_bound(e.take(i));
    lemma_text_of_take(e, i);
    lemma_size_take(e, i + 1);
    lemma_padding_len(e[i].whitespace);
}

} // verus!
