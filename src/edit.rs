//! Typing and deleting at the cursor.

use vstd::prelude::*;
use crate::content::{
    Content, ContentView, Elmt, ElmtView, is_char_token, lemma_prefix_bounds, lemma_size_insert,
    lemma_size_remove, lemma_size_take, lemma_size_update, lemma_text_of_take, lemma_two_sizes,
    size_of, typed_only,
};
use crate::whitespace::{
    Whitespace, WhitespaceChar, WhitespaceView, lemma_newline_count_bound,
    lemma_newline_count_concat, lemma_newline_count_insert, lemma_newline_count_remove,
};

verus! {

/// The typed unit for a whitespace character.
pub open spec fn unit_of(c: char) -> WhitespaceChar {
    if c == '\n' {
        WhitespaceChar::Newline
    } else {
        WhitespaceChar::Space
    }
}

impl ContentView {
    /// The tokens with the whitespace of token `i` replaced.
    pub open spec fn with_whitespace(self, i: int, ws: WhitespaceView) -> Seq<ElmtView> {
        self.elmts.update(i, ElmtView { whitespace: ws, ..self.elmts[i] })
    }

    pub open spec fn with_elmts(self, elmts: Seq<ElmtView>) -> ContentView {
        ContentView { elmts, ..self }
    }

    /// Typing `c`: a space or newline joins the typed whitespace at the cursor
    /// and the cursor moves past it (staying within the run); any other
    /// character becomes a new token that takes the typed whitespace before
    /// the cursor, and the cursor lands just after it.
    pub open spec fn inserted(self, c: char) -> ContentView {
        let (i, o) = self.cursor;
        let ws = self.current();
        let p = if o <= ws.typed.len() {
            o
        } else {
            ws.typed.len()
        };
        if c == ' ' || c == '\n' {
            let new_ws = ws.with_typed(ws.typed.insert(p as int, unit_of(c)));
            let next = if o + 1 < new_ws.num_cursor_positions() {
                o + 1
            } else {
                (new_ws.num_cursor_positions() - 1) as nat
            };
            self.with_elmts(self.with_whitespace(i as int, new_ws)).placed_at_start((i, next))
        } else {
            let token = ElmtView {
                character: Some(c),
                whitespace: typed_only(ws.typed.take(p as int)),
            };
            let rest = ws.with_typed(ws.typed.skip(p as int));
            self.with_elmts(
                self.with_whitespace(i as int, rest).insert(i as int, token),
            ).placed_at_start((i + 1, 0))
        }
    }

    /// Backspace: inside a run, the typed unit before the cursor goes (if the
    /// cursor is past the typed units, only the cursor moves); at the start of
    /// a run, the previous token's character goes, its whitespace merges into
    /// this run, and the cursor ends up at the end of the merged run.
    pub open spec fn backspaced(self) -> ContentView {
        let (i, o) = self.cursor;
        let ws = self.current();
        if o > 0 {
            let typed = if o <= ws.typed.len() {
                ws.typed.remove(o - 1)
            } else {
                ws.typed
            };
            self.with_elmts(self.with_whitespace(i as int, ws.with_typed(typed))).placed_at_end(
                (i, (o - 1) as nat),
            )
        } else if i > 0 {
            let merged = self.elmts[i - 1].whitespace.merged(ws);
            self.with_elmts(self.with_whitespace(i as int, merged).remove(i - 1)).placed_at_end(
                ((i - 1) as nat, (merged.num_cursor_positions() - 1) as nat),
            )
        } else {
            self
        }
    }

    /// Forward delete: a typed unit after the cursor goes; past the typed
    /// units, the character in front of the cursor goes and the next run
    /// merges into this one, the cursor keeping its slot number.
    pub open spec fn deleted(self) -> ContentView {
        let (i, o) = self.cursor;
        let ws = self.current();
        if o < ws.typed.len() {
            self.with_elmts(self.with_whitespace(i as int, ws.with_typed(ws.typed.remove(o as int))))
        } else if i + 1 < self.elmts.len() {
            let merged = ws.merged(self.elmts[i + 1int].whitespace);
            self.with_elmts(self.with_whitespace(i + 1int, merged).remove(i as int)).placed_at_start(
                self.cursor,
            )
        } else {
            self
        }
    }
}

impl Content {
    /// Whether one more character can be typed without the counts overflowing.
    pub fn has_room(&self) -> (r: bool)
        requires
            self.wf(),
        ensures
            r == (size_of(self@.elmts) < usize::MAX),
    {
        let mut total: usize = 0;
        let mut k: usize = 0;
        while k < self.elmts.len()
            invariant
                self.wf(),
                k <= self.elmts.len(),
                total == size_of(self@.elmts.take(k as int)),
            decreases self.elmts.len() - k,
        {
            proof {
                lemma_text_of_take(self@.elmts, k as int);
                lemma_size_take(self@.elmts, k + 1);
            }
            let ws = &self.elmts[k].whitespace;
            total = total + ws.typed.len() + ws.virtual_newlines + ws.virtual_spaces + 1;
            k = k + 1;
        }
        proof {
            assert(self@.elmts.take(k as int) =~= self@.elmts);
        }
        total < usize::MAX
    }

    /// Types one character at the cursor.
    pub fn insert(&mut self, c: char)
        requires
            old(self).wf(),
            size_of(old(self)@.elmts) < usize::MAX,
        ensures
            final(self).wf(),
            final(self)@ == old(self)@.inserted(c),
    {
        let ghost v = self@;
        let i = self.cursor.0;
        let o = self.cursor.1;
        let count = self.elmts.len();
        assert(i < count);
        let next = i + 1;
        let typed_len = self.elmts[i].whitespace.typed.len();
        let p = if o <= typed_len {
            o
        } else {
            typed_len
        };
        proof {
            lemma_prefix_bounds(v.elmts, i as int);
        }
        if c == '\n' || c == ' ' {
            let unit = if c == '\n' {
                WhitespaceChar::Newline
            } else {
                WhitespaceChar::Space
            };
            self.elmts[i].whitespace.typed.insert(p, unit);
            proof {
                let new_ws = v.current().with_typed(v.current().typed.insert(p as int, unit));
                lemma_newline_count_insert(v.current().typed, p as int, unit);
                lemma_size_update(v.elmts, i as int, ElmtView { whitespace: new_ws, ..v.elmts[i as int] });
                assert(self@.elmts =~= v.with_whitespace(i as int, new_ws));
                assert forall|k: int| 0 <= k < self@.elmts.len() - 1 implies is_char_token(
                    #[trigger] self@.elmts[k],
                ) by {
                    assert(self@.elmts[k].character == v.elmts[k].character);
                }
            }
            let last = self.last_offset(i);
            self.cursor.1 = if o < last {
                o + 1
            } else {
                last
            };
            let pos = self.cursor_pos();
            self.spacial_cursor = pos.0;
            return;
        }
        let mut left: Vec<WhitespaceChar> = Vec::new();
        std::mem::swap(&mut left, &mut self.elmts[i].whitespace.typed);
        let right = left.split_off(p);
        self.elmts[i].whitespace.typed = right;
        let token = Elmt {
            character: Some(c),
            whitespace: Whitespace { typed: left, virtual_newlines: 0, virtual_spaces: 0 },
        };
        self.elmts.insert(i, token);
        self.cursor = (next, 0);
        proof {
            let ws = v.current();
            let rest = ws.with_typed(ws.typed.skip(p as int));
            let tok = ElmtView { character: Some(c), whitespace: typed_only(ws.typed.take(p as int)) };
            let mid = v.with_whitespace(i as int, rest);
            assert(self@.elmts =~= mid.insert(i as int, tok));
            lemma_size_update(v.elmts, i as int, ElmtView { whitespace: rest, ..v.elmts[i as int] });
            lemma_size_insert(mid, i as int, tok);
            assert forall|k: int| 0 <= k < self@.elmts.len() - 1 implies is_char_token(
                #[trigger] self@.elmts[k],
            ) by {
                if k < i {
                    assert(self@.elmts[k] == v.elmts[k]);
                } else if k > i {
                    assert(self@.elmts[k].character == v.elmts[k - 1].character);
                }
            }
        }
        let pos = self.cursor_pos();
        self.spacial_cursor = pos.0;
    }

    /// Deletes backwards from the cursor.
    pub fn backspace(&mut self)
        requires
            old(self).wf(),
        ensures
            final(self).wf(),
            final(self)@ == old(self)@.backspaced(),
    {
        let ghost v = self@;
        let i = self.cursor.0;
        let o = self.cursor.1;
        if o > 0 {
            if o <= self.elmts[i].whitespace.typed.len() {
                self.elmts[i].whitespace.typed.remove(o - 1);
                proof {
                    let new_ws = v.current().with_typed(v.current().typed.remove(o - 1));
                    lemma_newline_count_remove(v.current().typed, o - 1);
                    lemma_size_update(
                        v.elmts,
                        i as int,
                        ElmtView { whitespace: new_ws, ..v.elmts[i as int] },
                    );
                    assert(self@.elmts =~= v.with_whitespace(i as int, new_ws));
                }
            } else {
                proof {
                    assert(self@.elmts =~= v.with_whitespace(i as int, v.current()));
                }
            }
            self.cursor.1 = o - 1;
            proof {
                assert forall|k: int| 0 <= k < self@.elmts.len() - 1 implies is_char_token(
                    #[trigger] self@.elmts[k],
                ) by {
                    assert(self@.elmts[k].character == v.elmts[k].character);
                }
            }
            let pos = self.cursor_pos();
            self.spacial_cursor = pos.1;
        } else if i > 0 {
            proof {
                lemma_two_sizes(v.elmts, i - 1);
            }
            let prev = self.elmts.remove(i - 1);
            Whitespace::merge(prev.whitespace, &mut self.elmts[i - 1].whitespace);
            proof {
                let merged = v.elmts[i - 1].whitespace.merged(v.current());
                let mid = v.with_whitespace(i as int, merged);
                assert(self@.elmts =~= mid.remove(i - 1));
                lemma_size_update(v.elmts, i as int, ElmtView { whitespace: merged, ..v.elmts[i as int] });
                lemma_size_remove(mid, i - 1);
                assert forall|k: int| 0 <= k < self@.elmts.len() - 1 implies is_char_token(
                    #[trigger] self@.elmts[k],
                ) by {
                    if k < i - 1 {
                        assert(self@.elmts[k] == v.elmts[k]);
                    } else {
                        assert(self@.elmts[k].character == v.elmts[k + 1].character);
                    }
                }
                assert(self@.elmts.last() == mid.last());
            }
            self.cursor = (i - 1, 0);
            let last = self.last_offset(i - 1);
            self.cursor.1 = last;
            let pos = self.cursor_pos();
            self.spacial_cursor = pos.1;
        }
    }

    /// Deletes forwards from the cursor.
    pub fn delete(&mut self)
        requires
            old(self).wf(),
        ensures
            final(self).wf(),
            final(self)@ == old(self)@.deleted(),
    {
        let ghost v = self@;
        let i = self.cursor.0;
        let o = self.cursor.1;
        if o < self.elmts[i].whitespace.typed.len() {
            self.elmts[i].whitespace.typed.remove(o);
            proof {
                let new_ws = v.current().with_typed(v.current().typed.remove(o as int));
                lemma_newline_count_remove(v.current().typed, o as int);
                lemma_size_update(v.elmts, i as int, ElmtView { whitespace: new_ws, ..v.elmts[i as int] });
                assert(self@.elmts =~= v.with_whitespace(i as int, new_ws));
                assert forall|k: int| 0 <= k < self@.elmts.len() - 1 implies is_char_token(
                    #[trigger] self@.elmts[k],
                ) by {
                    assert(self@.elmts[k].character == v.elmts[k].character);
                }
            }
        } else if i < self.elmts.len() - 1 {
            proof {
                lemma_two_sizes(v.elmts, i as int);
            }
            let cur = self.elmts.remove(i);
            Whitespace::merge(cur.whitespace, &mut self.elmts[i].whitespace);
            proof {
                let left = v.current();
                let right = v.elmts[i + 1].whitespace;
                let merged = left.merged(right);
                let mid = v.with_whitespace(i + 1, merged);
                assert(self@.elmts =~= mid.remove(i as int));
                lemma_size_update(v.elmts, i + 1, ElmtView { whitespace: merged, ..v.elmts[i + 1] });
                lemma_size_remove(mid, i as int);
                lemma_newline_count_concat(left.typed, right.typed);
                lemma_newline_count_bound(right.typed);
                assert forall|k: int| 0 <= k < self@.elmts.len() - 1 implies is_char_token(
                    #[trigger] self@.elmts[k],
                ) by {
                    if k < i {
                        assert(self@.elmts[k] == v.elmts[k]);
                    } else {
                        assert(self@.elmts[k].character == v.elmts[k + 1].character);
                    }
                }
                assert(self@.elmts.last() == mid.last());
            }
            let pos = self.cursor_pos();
            self.spacial_cursor = pos.0;
        }
    }
}

} // verus!
