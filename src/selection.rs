//! The selection of a text field.
use vstd::prelude::*;

verus! {

/// A text field's selection: the text cursor and the selection anchor.
///
/// The selected text lies between the two; when they are equal, nothing is selected.
#[derive(Clone, Copy, Debug, PartialEq, Eq, Structural)]
pub struct Selection {
    pub cursor: usize,
    pub anchor: usize,
}

impl Selection {
    /// The start of the selected range: the lesser of cursor and anchor.
    pub fn start(&self) -> (r: usize)
        ensures
            r == if self.cursor <= self.anchor {
                self.cursor
            } else {
                self.anchor
            },
    {
        if self.cursor <= self.anchor {
            self.cursor
        } else {
            self.anchor
        }
    }

    /// The end of the selected range: the greater of cursor and anchor.
    pub fn end(&self) -> (r: usize)
        ensures
            r == if self.cursor <= self.anchor {
                self.anchor
            } else {
                self.cursor
            },
    {
        if self.cursor <= self.anchor {
            self.anchor
        } else {
            self.cursor
        }
    }

    /// The selected range, from `start` to `end`.
    pub fn normalize(&self) -> (r: std::ops::Range<usize>)
        ensures
            r.start == if self.cursor <= self.anchor {
                self.cursor
            } else {
                self.anchor
            },
            r.end == if self.cursor <= self.anchor {
                self.anchor
            } else {
                self.cursor
            },
    {
        self.start()..self.end()
    }

    /// The number of selected characters.
    pub fn len(&self) -> (r: usize)
        ensures
            r == if self.cursor <= self.anchor {
                self.anchor - self.cursor
            } else {
                self.cursor - self.anchor
            },
    {
        self.end() - self.start()
    }

    /// Moves the cursor to `position`, and the anchor with it, selecting nothing.
    pub fn move_to(&mut self, position: usize)
        ensures
            final(self).cursor == position,
            final(self).anchor == position,
    {
        self.cursor = position;
        self.anchor = self.cursor;
    }

    /// Moves the cursor one character to the left, unless it is at the start. Without shift the
    /// anchor follows, which clears the selection; with shift it stays, extending it.
    pub fn move_left(&mut self, is_shift_down: bool)
        ensures
            final(self).cursor == if old(self).cursor > 0 {
                (old(self).cursor - 1) as usize
            } else {
                old(self).cursor
            },
            final(self).anchor == if old(self).cursor > 0 && !is_shift_down {
                final(self).cursor
            } else {
                old(self).anchor
            },
    {
        if self.cursor > 0 {
            self.cursor -= 1;
            if !is_shift_down {
                self.anchor = self.cursor;
            }
        }
    }

    /// Moves the cursor one character to the right. Without shift the anchor follows, which
    /// clears the selection; with shift it stays, extending it.
    pub fn move_right(&mut self, is_shift_down: bool)
        requires
            old(self).cursor < usize::MAX,
        ensures
            final(self).cursor == old(self).cursor + 1,
            final(self).anchor == if is_shift_down {
                old(self).anchor
            } else {
                final(self).cursor
            },
    {
        self.cursor += 1;
        if !is_shift_down {
            self.anchor = self.cursor;
        }
    }
}

/// The text of a text field as characters, with its selection.
pub struct EditableText {
    text: Vec<char>,
    selection: Selection,
}

/// `s` with the characters in `start..end` replaced by `with`.
pub open spec fn replace_range(s: Seq<char>, start: int, end: int, with: Seq<char>) -> Seq<char> {
    s.subrange(0, start) + with + s.subrange(end, s.len() as int)
}

impl EditableText {
    pub closed spec fn text(&self) -> Seq<char> {
        self.text@
    }

    pub closed spec fn selection(&self) -> Selection {
        self.selection
    }

    /// Both ends of the selection lie within the text.
    pub closed spec fn wf(&self) -> bool {
        self.selection.cursor <= self.text@.len() && self.selection.anchor <= self.text@.len()
    }

    pub open spec fn sel_start(&self) -> int {
        let s = self.selection();
        if s.cursor <= s.anchor {
            s.cursor as int
        } else {
            s.anchor as int
        }
    }

    pub open spec fn sel_end(&self) -> int {
        let s = self.selection();
        if s.cursor <= s.anchor {
            s.anchor as int
        } else {
            s.cursor as int
        }
    }

    /// The text `text`, with the cursor at its end.
    pub fn new(text: Vec<char>) -> (r: EditableText)
        ensures
            r.wf(),
            r.text() == text@,
            r.selection() == (Selection { cursor: text@.len() as usize, anchor: text@.len() as usize }),
    {
        let n = text.len();
        EditableText { text, selection: Selection { cursor: n, anchor: n } }
    }

    /// The text, as characters.
    pub fn chars(&self) -> (r: &Vec<char>)
        ensures
            r@ == self.text(),
    {
        &self.text
    }

    /// The cursor and the anchor.
    pub fn current_selection(&self) -> (r: Selection)
        ensures
            r == self.selection(),
    {
        self.selection
    }

    /// The selected characters.
    pub fn selection_text(&self) -> (r: Vec<char>)
        requires
            self.wf(),
        ensures
            r@ == self.text().subrange(self.sel_start(), self.sel_end()),
    {
        let start = self.selection.start();
        let end = self.selection.end();
        let mut r: Vec<char> = Vec::new();
        let mut i: usize = start;
        while i < end
            invariant
                start <= i <= end <= self.text@.len(),
                r@ == self.text@.subrange(start as int, i as int),
            decreases end - i,
        {
            r.push(self.text[i]);
            i += 1;
            assert(r@ =~= self.text@.subrange(start as int, i as int));
        }
        r
    }

    /// Removes the characters in `start..end`.
    fn remove_range(&mut self, start: usize, end: usize)
        requires
            start <= end <= old(self).text@.len(),
        ensures
            final(self).text@ == replace_range(old(self).text@, start as int, end as int, Seq::empty()),
            final(self).selection == old(self).selection,
    {
        let ghost orig = self.text@;
        let mut k: usize = 0;
        while k < end - start
            invariant
                start <= end <= orig.len(),
                k <= end - start,
                self.text@ == orig.subrange(0, start as int) + orig.subrange(start + k, orig.len() as int),
                self.selection == old(self).selection,
            decreases end - start - k,
        {
            let ghost before = self.text@;
            self.text.remove(start);
            k += 1;
            assert(self.text@ =~= orig.subrange(0, start as int) + orig.subrange(start + k, orig.len() as int)) by {
                assert forall|j: int| 0 <= j < self.text@.len() implies self.text@[j] == (orig.subrange(0, start as int) + orig.subrange(start + k, orig.len() as int))[j] by {
                    if j < start {
                    } else {
                        assert(before[j + 1] == orig[start + k + (j - start)]);
                    }
                }
            }
        }
        assert(self.text@ =~= replace_range(orig, start as int, end as int, Seq::empty()));
    }

    /// Types `ch` over the selection, or at the cursor when nothing is selected; the cursor ends
    /// up after it.
    pub fn append(&mut self, ch: char)
        requires
            old(self).wf(),
        ensures
            final(self).wf(),
            final(self).text() == replace_range(
                old(self).text(),
                old(self).sel_start(),
                old(self).sel_end(),
                seq![ch],
            ),
            final(self).selection() == (Selection {
                cursor: (old(self).sel_start() + 1) as usize,
                anchor: (old(self).sel_start() + 1) as usize,
            }),
    {
        let start = self.selection.start();
        let end = self.selection.end();
        let ghost orig = self.text@;
        self.remove_range(start, end);
        self.text.insert(start, ch);
        assert(self.text@ =~= replace_range(orig, start as int, end as int, seq![ch]));
        assert(start < self.text.len());
        self.selection.move_to(start + 1);
    }

    /// Deletes the selection, or the character after the cursor when nothing is selected.
    pub fn delete(&mut self)
        requires
            old(self).wf(),
        ensures
            final(self).wf(),
            old(self).sel_start() < old(self).sel_end() ==> final(self).text() == replace_range(
                old(self).text(),
                old(self).sel_start(),
                old(self).sel_end(),
                Seq::empty(),
            ) && final(self).selection() == (Selection {
                cursor: old(self).sel_start() as usize,
                anchor: old(self).sel_start() as usize,
            }),
            old(self).sel_start() == old(self).sel_end() ==> final(self).selection() == old(
                self,
            ).selection() && final(self).text() == if old(self).selection().cursor < old(
                self,
            ).text().len() {
                old(self).text().remove(old(self).selection().cursor as int)
            } else {
                old(self).text()
            },
    {
        let start = self.selection.start();
        let end = self.selection.end();
        if start < end {
            self.remove_range(start, end);
            self.selection.move_to(start);
        } else if self.selection.cursor < self.text.len() {
            self.text.remove(self.selection.cursor);
        }
    }

    /// Deletes the selection, or the character before the cursor when nothing is selected.
    pub fn backspace(&mut self)
        requires
            old(self).wf(),
        ensures
            final(self).wf(),
            old(self).sel_start() < old(self).sel_end() ==> final(self).text() == replace_range(
                old(self).text(),
                old(self).sel_start(),
                old(self).sel_end(),
                Seq::empty(),
            ) && final(self).selection() == (Selection {
                cursor: old(self).sel_start() as usize,
                anchor: old(self).sel_start() as usize,
            }),
            old(self).sel_start() == old(self).sel_end() && old(self).selection().cursor > 0
                ==> final(self).text() == old(self).text().remove(
                old(self).selection().cursor - 1,
            ) && final(self).selection() == (Selection {
                cursor: (old(self).selection().cursor - 1) as usize,
                anchor: (old(self).selection().cursor - 1) as usize,
            }),
            old(self).sel_start() == old(self).sel_end() && old(self).selection().cursor == 0
                ==> final(self).text() == old(self).text() && final(self).selection() == old(
                self,
            ).selection(),
    {
        if self.selection.len() != 0 {
            self.delete();
        } else if self.selection.cursor > 0 {
            self.selection.move_left(false);
            self.text.remove(self.selection.cursor);
        }
    }

    /// The Left key: moves the cursor one character left, extending the selection with shift.
    pub fn key_left(&mut self, is_shift_down: bool)
        requires
            old(self).wf(),
        ensures
            final(self).wf(),
            final(self).text() == old(self).text(),
            final(self).selection().cursor == if old(self).selection().cursor > 0 {
                (old(self).selection().cursor - 1) as usize
            } else {
                old(self).selection().cursor
            },
            final(self).selection().anchor == if old(self).selection().cursor > 0 && !is_shift_down {
                final(self).selection().cursor
            } else {
                old(self).selection().anchor
            },
    {
        self.selection.move_left(is_shift_down);
    }

    /// The Right key: moves the cursor one character right unless it is at the end of the text,
    /// extending the selection with shift.
    pub fn key_right(&mut self, is_shift_down: bool)
        requires
            old(self).wf(),
        ensures
            final(self).wf(),
            final(self).text() == old(self).text(),
            old(self).selection().cursor < old(self).text().len() ==> final(self).selection()
                == (Selection {
                cursor: (old(self).selection().cursor + 1) as usize,
                anchor: if is_shift_down {
                    old(self).selection().anchor
                } else {
                    (old(self).selection().cursor + 1) as usize
                },
            }),
            old(self).selection().cursor >= old(self).text().len() ==> final(self).selection()
                == old(self).selection(),
    {
        if self.selection.cursor < self.text.len() {
            self.selection.move_right(is_shift_down);
        }
    }

    /// The Home key: moves the cursor to the start, selecting nothing.
    pub fn key_home(&mut self)
        requires
            old(self).wf(),
        ensures
            final(self).wf(),
            final(self).text() == old(self).text(),
            final(self).selection() == (Selection { cursor: 0, anchor: 0 }),
    {
        self.selection.move_to(0);
    }

    /// The End key: moves the cursor to the end, selecting nothing.
    pub fn key_end(&mut self)
        requires
            old(self).wf(),
        ensures
            final(self).wf(),
            final(self).text() == old(self).text(),
            final(self).selection() == (Selection {
                cursor: old(self).text().len() as usize,
                anchor: old(self).text().len() as usize,
            }),
    {
        self.selection.move_to(self.text.len());
    }

    /// Replaces the text, moving the cursor to its end.
    pub fn set_text(&mut self, text: Vec<char>)
        ensures
            final(self).wf(),
            final(self).text() == text@,
            final(self).selection() == (Selection { cursor: text@.len() as usize, anchor: text@.len() as usize }),
    {
        self.text = text;
        self.selection.move_to(self.text.len());
    }
}

} // verus!
