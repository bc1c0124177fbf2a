//! The editing engine: a document in a [`LineGapBuffer`], a cursor and a
//! selection, and grouped undo/redo history.
//!
//! All positions are absolute character offsets.  Every editing operation
//! goes through one private mutation path that records the inverse edit, so
//! the history stays sound; the abstract history and the transitions of each
//! operation live in [`crate::history`].
//!
//! Screen geometry — pixel coordinates, scrolling, line shaping — is the
//! host's concern: operations that need shaped-line data (`home`, `end`)
//! take the shaper's sub-line boundaries as an argument, and hit-test
//! results enter as plain offsets (`click`, `select_word`).

use vstd::prelude::*;

use crate::history::{
    EditModel, Hist, SnapModel, hist_core_ok, hist_redo_ok, modified_of, record_edit, sel_lo,
    sel_hi, snapshot_hist, snapshot_pushes, undo_hist, redo_hist, swap_hist, with_sel,
    lemma_record_edit_sound, lemma_snapshot_preserves, lemma_undo_preserves_core,
    lemma_undo_preserves, lemma_unwind_step, text_at, unwind_inverses, log_ok, inverse_of,
};
use crate::line_gap_buffer::{splice, LineGapBuffer, BufferModel, line_index_of};
use crate::strutil;

verus! {

/// One recorded mutation: put `old_text` back in place of `[start, end)`.
struct SliceEdit {
    start: usize,
    end: usize,
    old_text: Vec<char>,
}

/// One undo checkpoint: the edit-log depth and the cursor position at the
/// time it was taken.
struct UndoSnapshot {
    slice_edit_count: usize,
    cursor_pos: usize,
}

spec fn edit_view(e: SliceEdit) -> EditModel {
    EditModel { start: e.start as int, end: e.end as int, old_text: e.old_text@ }
}

spec fn edits_view(s: Seq<SliceEdit>) -> Seq<EditModel> {
    s.map_values(|e: SliceEdit| edit_view(e))
}

spec fn snap_view(s: UndoSnapshot) -> SnapModel {
    SnapModel { count: s.slice_edit_count as int, cursor: s.cursor_pos as int }
}

spec fn snaps_view(s: Seq<UndoSnapshot>) -> Seq<SnapModel> {
    s.map_values(|x: UndoSnapshot| snap_view(x))
}

/// Abstract state of the engine: the document model and the history.
pub struct EngineModel<T> {
    pub doc: BufferModel<T>,
    pub hist: Hist,
}

/// A word jump to the left stops where whitespace is followed by
/// non-whitespace.
pub open spec fn word_boundary_left(text: Seq<char>, p: int) -> bool {
    strutil::char_is_whitespace(text[p - 1]) && !strutil::char_is_whitespace(text[p])
}

/// A word jump to the right stops where non-whitespace is followed by
/// whitespace.
pub open spec fn word_boundary_right(text: Seq<char>, p: int) -> bool {
    !strutil::char_is_whitespace(text[p - 1]) && strutil::char_is_whitespace(text[p])
}

/// The document, cursor/selection and undo state of one editor view.
pub struct ViewState<T> {
    document: LineGapBuffer<T>,
    cursor_pos: usize,
    selection_pos: usize,
    undo_slice_edits: Vec<SliceEdit>,
    undo_snapshots: Vec<UndoSnapshot>,
    redo_slice_edits: Vec<SliceEdit>,
    redo_snapshots: Vec<UndoSnapshot>,
    unmodified_snapshot: Option<usize>,
}

impl<T> View for ViewState<T> {
    type V = EngineModel<T>;

    closed spec fn view(&self) -> EngineModel<T> {
        EngineModel {
            doc: self.document@,
            hist: Hist {
                text: self.document@.text,
                cursor: self.cursor_pos as int,
                sel: self.selection_pos as int,
                uedits: edits_view(self.undo_slice_edits@),
                usnaps: snaps_view(self.undo_snapshots@),
                redits: edits_view(self.redo_slice_edits@),
                rsnaps: snaps_view(self.redo_snapshots@),
                unmod: match self.unmodified_snapshot {
                    Some(n) => Some(n as int),
                    None => None,
                },
            },
        }
    }
}

impl<T> ViewState<T> {
    /// The document representation is sound.
    pub closed spec fn doc_wf(&self) -> bool {
        self.document.wf()
    }

    /// The engine is well formed: the document is sound and so is the undo
    /// side of the history.  The redo side is tracked separately by
    /// [`Self::redo_ok`]: an edit made after an undo, without a fresh
    /// snapshot in between, leaves the redo stacks stale.
    pub open spec fn wf(&self) -> bool {
        &&& self.doc_wf()
        &&& hist_core_ok(self@.hist)
    }

    /// The redo side of the history is sound.
    pub open spec fn redo_ok(&self) -> bool {
        hist_redo_ok(self@.hist)
    }

    /// An empty document, cursor at the start, empty history, unmodified.
    pub fn new() -> (r: Self)
        ensures
            r.wf(),
            r.redo_ok(),
            r@.hist.text =~= Seq::<char>::empty(),
            r@.hist.cursor == 0,
            r@.hist.sel == 0,
            r@.hist.uedits =~= Seq::<EditModel>::empty(),
            r@.hist.usnaps =~= Seq::<SnapModel>::empty(),
            r@.hist.redits =~= Seq::<EditModel>::empty(),
            r@.hist.rsnaps =~= Seq::<SnapModel>::empty(),
            r@.hist.unmod == Some(0int),
            r@.doc == r.document_model(),
    {
        let r = ViewState {
            document: LineGapBuffer::new(),
            cursor_pos: 0,
            selection_pos: 0,
            undo_slice_edits: Vec::new(),
            undo_snapshots: Vec::new(),
            redo_slice_edits: Vec::new(),
            redo_snapshots: Vec::new(),
            unmodified_snapshot: Some(0),
        };
        proof {
            assert(r@.hist.uedits =~= Seq::<EditModel>::empty());
            assert(r@.hist.usnaps =~= Seq::<SnapModel>::empty());
            assert(r@.hist.redits =~= Seq::<EditModel>::empty());
            assert(r@.hist.rsnaps =~= Seq::<SnapModel>::empty());
        }
        r
    }

    /// The document model, for stating where the engine and its buffer
    /// agree.
    pub closed spec fn document_model(&self) -> BufferModel<T> {
        self.document@
    }

    /// Read access to the document, for rendering and for the host's
    /// viewport geometry.
    pub fn document(&self) -> (r: &LineGapBuffer<T>)
        requires
            self.wf(),
        ensures
            r.wf(),
            r@ == self@.doc,
            r@.text == self@.hist.text,
    {
        &self.document
    }

    /// Store a computed layout (or clear one) in the cached slot of a line.
    pub fn set_line_layout(&mut self, line_no: usize, data: Option<T>)
        requires
            old(self).wf(),
            line_no < old(self)@.doc.lines.len(),
        ensures
            final(self).wf(),
            final(self)@.hist == old(self)@.hist,
            final(self)@.doc.text == old(self)@.doc.text,
            final(self)@.doc.lines == old(self)@.doc.lines,
            final(self)@.doc.slots == old(self)@.doc.slots.update(line_no as int, data),
            old(self).redo_ok() ==> final(self).redo_ok(),
    {
        self.document.set_line_data(line_no, data);
    }

    /// Drop every cached line layout; called when the text format changes
    /// and every line must be reshaped.
    pub fn change_text_format(&mut self)
        requires
            old(self).wf(),
        ensures
            final(self).wf(),
            final(self)@.hist == old(self)@.hist,
            final(self)@.doc.text == old(self)@.doc.text,
            final(self)@.doc.lines == old(self)@.doc.lines,
            forall|i: int|
                0 <= i < final(self)@.doc.slots.len() ==> final(self)@.doc.slots[i] is None,
            old(self).redo_ok() ==> final(self).redo_ok(),
    {
        let n = self.document.num_lines();
        let mut i: usize = 0;
        while i < n
            invariant
                self.wf(),
                n == self@.doc.lines.len(),
                i <= n,
                self@.hist == old(self)@.hist,
                self@.doc.text == old(self)@.doc.text,
                self@.doc.lines == old(self)@.doc.lines,
                forall|j: int| 0 <= j < i ==> self@.doc.slots[j] is None,
            decreases n - i,
        {
            self.document.set_line_data(i, Option::None);
            i += 1;
        }
    }

    /// Number of characters in the document.
    pub fn len(&self) -> (r: usize)
        requires
            self.wf(),
        ensures
            r == self@.hist.text.len(),
    {
        self.document.len()
    }

    /// The whole document as a string.
    pub fn content(&self) -> (r: String)
        requires
            self.wf(),
        ensures
            r@ == self@.hist.text,
    {
        let n = self.document.len();
        let r = self.document.slice_string(0, n);
        proof {
            assert(self@.hist.text.subrange(0, self@.hist.text.len() as int) =~= self@.hist.text);
        }
        r
    }

    /// Whether the document differs from the state last marked as saved.
    pub fn modified(&self) -> (r: bool)
        requires
            self.wf(),
        ensures
            r == modified_of(self@.hist),
    {
        proof {
            assert(self@.hist.usnaps.len() == self.undo_snapshots@.len());
        }
        match self.unmodified_snapshot {
            Some(n) => n != self.undo_snapshots.len(),
            None => true,
        }
    }

    /// Mark the current undo depth as saved; `modified` is false until the
    /// depth changes.  `crate::history::lemma_undo_reaches_unmodified`
    /// proves that enough undos always lead back to an unmodified state.
    pub fn set_unmodified_snapshot(&mut self)
        requires
            old(self).wf(),
        ensures
            final(self).wf(),
            final(self)@.hist == (Hist {
                unmod: Some(old(self)@.hist.usnaps.len() as int),
                ..old(self)@.hist
            }),
            final(self)@.doc == old(self)@.doc,
            !modified_of(final(self)@.hist),
            old(self).redo_ok() ==> final(self).redo_ok(),
    {
        self.unmodified_snapshot = Some(self.undo_snapshots.len());
    }

    /// Whether there is a checkpoint to undo to.
    pub fn can_undo(&self) -> (r: bool)
        requires
            self.wf(),
        ensures
            r == (self@.hist.usnaps.len() > 0),
    {
        self.undo_snapshots.len() > 0
    }

    /// Whether there is an undone checkpoint to redo.
    pub fn can_redo(&self) -> (r: bool)
        requires
            self.wf(),
        ensures
            r == (self@.hist.rsnaps.len() > 0),
    {
        self.redo_snapshots.len() > 0
    }

    /// Collapse the selection onto the cursor.
    pub fn clear_selection(&mut self)
        requires
            old(self).wf(),
        ensures
            final(self).wf(),
            final(self)@.hist == with_sel(old(self)@.hist, old(self)@.hist.cursor),
            final(self)@.doc == old(self)@.doc,
            old(self).redo_ok() ==> final(self).redo_ok(),
    {
        self.selection_pos = self.cursor_pos;
    }

    /// Select the whole document: selection at 0, cursor at the end.
    pub fn select_all(&mut self)
        requires
            old(self).wf(),
        ensures
            final(self).wf(),
            final(self)@.hist == (Hist {
                cursor: old(self)@.hist.text.len() as int,
                sel: 0,
                ..old(self)@.hist
            }),
            final(self)@.doc == old(self)@.doc,
            old(self).redo_ok() ==> final(self).redo_ok(),
    {
        self.selection_pos = 0;
        self.cursor_pos = self.document.len();
    }

    /// The cursor position, an absolute character offset.
    pub fn cursor_pos(&self) -> (r: usize)
        requires
            self.wf(),
        ensures
            r as int == self@.hist.cursor,
    {
        self.cursor_pos
    }

    /// The selection endpoint, an absolute character offset; the selected
    /// range runs between it and the cursor.
    pub fn selection_pos(&self) -> (r: usize)
        requires
            self.wf(),
        ensures
            r as int == self@.hist.sel,
    {
        self.selection_pos
    }

    /// Whether a selection is active.
    pub fn has_selection(&self) -> (r: bool)
        requires
            self.wf(),
        ensures
            r == (self@.hist.cursor != self@.hist.sel),
    {
        self.cursor_pos != self.selection_pos
    }

    /// The selected text.
    pub fn get_selection(&self) -> (r: String)
        requires
            self.wf(),
        ensures
            r@ == self@.hist.text.subrange(sel_lo(self@.hist), sel_hi(self@.hist)),
    {
        let a = if self.cursor_pos < self.selection_pos {
            self.cursor_pos
        } else {
            self.selection_pos
        };
        let b = if self.cursor_pos < self.selection_pos {
            self.selection_pos
        } else {
            self.cursor_pos
        };
        self.document.slice_string(a, b)
    }

    /// Perform the buffer edit only if it changes anything, and return the
    /// inverse edit if it did.  This is the no-op detection that keeps the
    /// undo log free of entries that would not change the text.
    fn replace_slice_and_get_edit(&mut self, start: usize, end: usize, text: &[char]) -> (r:
        Option<SliceEdit>)
        requires
            old(self).doc_wf(),
            start <= end <= old(self)@.hist.text.len(),
            old(self)@.hist.text.subrange(start as int, end as int) != text@ ==> old(
                self,
            )@.hist.text.len() - (end - start) + text@.len() < usize::MAX,
        ensures
            final(self).doc_wf(),
            ({
                let ot = old(self)@.hist.text;
                let changed = ot.subrange(start as int, end as int) != text@;
                &&& (r is Some) == changed
                &&& (!changed ==> final(self)@.doc == old(self)@.doc)
                &&& (changed ==> final(self)@.doc.text == splice(
                    ot,
                    start as int,
                    end as int,
                    text@,
                ))
                &&& (changed ==> edit_view(r->0) == (EditModel {
                    start: start as int,
                    end: start as int + text@.len(),
                    old_text: ot.subrange(start as int, end as int),
                }))
                &&& final(self)@.hist == (Hist { text: final(self)@.doc.text, ..old(self)@.hist })
            }),
    {
        if self.document.slice_eq(start, end, text) {
            return None;
        }
        let old_text = self.document.slice_chars(start, end);
        let result = SliceEdit { start, end: start + text.len(), old_text };
        self.document.replace_slice(start, end, text);
        Some(result)
    }

    /// Apply one mutation and append its inverse, if any, to the undo log.
    /// Editing without a checkpoint on the stack is a programming error in
    /// the host (the engine fails fast), so a non-empty snapshot stack is a
    /// precondition.
    fn replace_slice(&mut self, start: usize, end: usize, text: &[char])
        requires
            old(self).doc_wf(),
            old(self)@.hist.usnaps.len() > 0,
            start <= end <= old(self)@.hist.text.len(),
            old(self)@.hist.text.subrange(start as int, end as int) != text@ ==> old(
                self,
            )@.hist.text.len() - (end - start) + text@.len() < usize::MAX,
        ensures
            final(self).doc_wf(),
            final(self)@.hist == record_edit(old(self)@.hist, start as int, end as int, text@),
    {
        let u = self.replace_slice_and_get_edit(start, end, text);
        match u {
            Some(e) => {
                self.undo_slice_edits.push(e);
                proof {
                    assert(edits_view(self.undo_slice_edits@) =~= edits_view(
                        old(self).undo_slice_edits@,
                    ).push(edit_view(e)));
                }
            },
            None => {},
        }
    }

    /// Insert one character, replacing the selection if one is active; the
    /// cursor ends right after the inserted character.
    pub fn insert_char(&mut self, c: char)
        requires
            old(self).wf(),
            old(self)@.hist.usnaps.len() > 0,
            old(self)@.hist.text.len() + 1 < usize::MAX,
        ensures
            final(self).wf(),
            ({
                let h = old(self)@.hist;
                let h1 = record_edit(h, sel_lo(h), sel_hi(h), seq![c]);
                final(self)@.hist == (Hist { cursor: sel_lo(h) + 1, sel: sel_lo(h) + 1, ..h1 })
            }),
    {
        let ghost h = self@.hist;
        let a = if self.cursor_pos < self.selection_pos {
            self.cursor_pos
        } else {
            self.selection_pos
        };
        let b = if self.cursor_pos < self.selection_pos {
            self.selection_pos
        } else {
            self.cursor_pos
        };
        let mut v: Vec<char> = Vec::new();
        v.push(c);
        proof {
            assert(v@ =~= seq![c]);
        }
        self.replace_slice(a, b, v.as_slice());
        self.cursor_pos = a + 1;
        self.selection_pos = self.cursor_pos;
        proof {
            lemma_record_edit_sound(h, a as int, b as int, seq![c]);
        }
    }

    /// Delete the selection, or the character before the cursor when no
    /// selection is active; at the start of the document without a
    /// selection, nothing happens.
    pub fn backspace(&mut self)
        requires
            old(self).wf(),
            old(self)@.hist.usnaps.len() > 0,
        ensures
            final(self).wf(),
            ({
                let h = old(self)@.hist;
                if h.cursor != h.sel {
                    let h1 = record_edit(h, sel_lo(h), sel_hi(h), Seq::<char>::empty());
                    final(self)@.hist == (Hist { cursor: sel_lo(h), sel: sel_lo(h), ..h1 })
                } else if h.cursor > 0 {
                    let h1 = record_edit(h, h.cursor - 1, h.cursor, Seq::<char>::empty());
                    final(self)@.hist == (Hist { cursor: h.cursor - 1, sel: h.cursor - 1, ..h1 })
                } else {
                    final(self)@.hist == h
                }
            }),
    {
        let ghost h = self@.hist;
        let empty: Vec<char> = Vec::new();
        if self.selection_pos != self.cursor_pos {
            let a = if self.cursor_pos < self.selection_pos {
                self.cursor_pos
            } else {
                self.selection_pos
            };
            let b = if self.cursor_pos < self.selection_pos {
                self.selection_pos
            } else {
                self.cursor_pos
            };
            self.replace_slice(a, b, empty.as_slice());
            self.cursor_pos = a;
            self.selection_pos = a;
            proof {
                lemma_record_edit_sound(h, a as int, b as int, Seq::<char>::empty());
            }
            return ;
        }
        if self.cursor_pos > 0 {
            self.cursor_pos = self.cursor_pos - 1;
            let p = self.cursor_pos;
            self.replace_slice(p, p + 1, empty.as_slice());
            self.selection_pos = self.cursor_pos;
            proof {
                lemma_record_edit_sound(h, p as int, p + 1, Seq::<char>::empty());
            }
        }
    }

    /// Delete the selection, or the character at the cursor when no
    /// selection is active; at the end of the document without a selection,
    /// nothing happens.
    pub fn del(&mut self)
        requires
            old(self).wf(),
            old(self)@.hist.usnaps.len() > 0,
        ensures
            final(self).wf(),
            ({
                let h = old(self)@.hist;
                if h.cursor != h.sel {
                    let h1 = record_edit(h, sel_lo(h), sel_hi(h), Seq::<char>::empty());
                    final(self)@.hist == (Hist { cursor: sel_lo(h), sel: sel_lo(h), ..h1 })
                } else if h.cursor < h.text.len() {
                    let h1 = record_edit(h, h.cursor, h.cursor + 1, Seq::<char>::empty());
                    final(self)@.hist == (Hist { cursor: h.cursor, sel: h.cursor, ..h1 })
                } else {
                    final(self)@.hist == h
                }
            }),
    {
        let ghost h = self@.hist;
        let empty: Vec<char> = Vec::new();
        if self.selection_pos != self.cursor_pos {
            let a = if self.cursor_pos < self.selection_pos {
                self.cursor_pos
            } else {
                self.selection_pos
            };
            let b = if self.cursor_pos < self.selection_pos {
                self.selection_pos
            } else {
                self.cursor_pos
            };
            self.replace_slice(a, b, empty.as_slice());
            self.cursor_pos = a;
            self.selection_pos = a;
            proof {
                lemma_record_edit_sound(h, a as int, b as int, Seq::<char>::empty());
            }
            return ;
        }
        if self.cursor_pos < self.document.len() {
            let p = self.cursor_pos;
            self.replace_slice(p, p + 1, empty.as_slice());
            self.selection_pos = self.cursor_pos;
            proof {
                lemma_record_edit_sound(h, p as int, p + 1, Seq::<char>::empty());
            }
        }
    }

    /// Insert a string, replacing the selection if one is active; the cursor
    /// ends right after the inserted text.
    pub fn paste(&mut self, s: &str)
        requires
            old(self).wf(),
            old(self)@.hist.usnaps.len() > 0,
            old(self)@.hist.text.len() - (sel_hi(old(self)@.hist) - sel_lo(old(self)@.hist))
                + s@.len() < usize::MAX,
        ensures
            final(self).wf(),
            ({
                let h = old(self)@.hist;
                let h1 = record_edit(h, sel_lo(h), sel_hi(h), s@);
                final(self)@.hist == (Hist {
                    cursor: sel_lo(h) + s@.len(),
                    sel: sel_lo(h) + s@.len(),
                    ..h1
                })
            }),
    {
        let ghost h = self@.hist;
        let v = strutil::str_chars(s);
        let a = if self.cursor_pos < self.selection_pos {
            self.cursor_pos
        } else {
            self.selection_pos
        };
        let b = if self.cursor_pos < self.selection_pos {
            self.selection_pos
        } else {
            self.cursor_pos
        };
        self.replace_slice(a, b, v.as_slice());
        self.cursor_pos = a + v.len();
        self.selection_pos = self.cursor_pos;
        proof {
            lemma_record_edit_sound(h, a as int, b as int, s@);
        }
    }

    /// Remove and return the selected text; the cursor ends at the start of
    /// the removed range.  With no selection this returns the empty string
    /// and changes nothing.
    pub fn cut_selection(&mut self) -> (r: String)
        requires
            old(self).wf(),
            old(self)@.hist.usnaps.len() > 0,
        ensures
            final(self).wf(),
            r@ == old(self)@.hist.text.subrange(sel_lo(old(self)@.hist), sel_hi(old(self)@.hist)),
            ({
                let h = old(self)@.hist;
                let h1 = record_edit(h, sel_lo(h), sel_hi(h), Seq::<char>::empty());
                final(self)@.hist == (Hist { cursor: sel_lo(h), sel: sel_lo(h), ..h1 })
            }),
    {
        let ghost h = self@.hist;
        let empty: Vec<char> = Vec::new();
        let a = if self.cursor_pos < self.selection_pos {
            self.cursor_pos
        } else {
            self.selection_pos
        };
        let b = if self.cursor_pos < self.selection_pos {
            self.selection_pos
        } else {
            self.cursor_pos
        };
        let result = self.document.slice_string(a, b);
        proof {
            if a == b {
                assert(self@.hist.text.subrange(a as int, b as int) =~= Seq::<char>::empty());
            }
        }
        self.replace_slice(a, b, empty.as_slice());
        self.cursor_pos = a;
        self.selection_pos = a;
        proof {
            lemma_record_edit_sound(h, a as int, b as int, Seq::<char>::empty());
        }
        result
    }

    /// Push an undo checkpoint at the current depth and cursor, unless the
    /// last checkpoint already records them — this groups a run of edits
    /// into one user-visible undo step.  On a push both redo stacks are
    /// cleared, and the saved mark is dropped if its depth is no longer
    /// reachable: deeper than the stack stood before the push, now that the
    /// redo future is gone.
    pub fn make_undo_snapshot(&mut self)
        requires
            old(self).wf(),
        ensures
            final(self).wf(),
            final(self)@.hist == snapshot_hist(old(self)@.hist),
            final(self)@.doc == old(self)@.doc,
            snapshot_pushes(old(self)@.hist) ==> final(self).redo_ok(),
            old(self).redo_ok() ==> final(self).redo_ok(),
    {
        let ghost h = self@.hist;
        let n = self.undo_snapshots.len();
        if n > 0 {
            let last = &self.undo_snapshots[n - 1];
            if last.cursor_pos == self.cursor_pos && last.slice_edit_count
                == self.undo_slice_edits.len() {
                proof {
                    assert(h.usnaps.last() == snap_view(self.undo_snapshots@[n - 1]));
                    assert(!snapshot_pushes(h));
                }
                return ;
            }
        }
        proof {
            if n > 0 {
                assert(h.usnaps.last() == snap_view(self.undo_snapshots@[n - 1]));
            }
            assert(snapshot_pushes(h));
        }
        let depth = self.undo_snapshots.len();
        self.undo_snapshots.push(
            UndoSnapshot {
                slice_edit_count: self.undo_slice_edits.len(),
                cursor_pos: self.cursor_pos,
            },
        );
        self.redo_snapshots.clear();
        self.redo_slice_edits.clear();
        if let Some(k) = self.unmodified_snapshot {
            // Undo can still reach any depth up to the stack as it stood
            // before this push; a saved depth above that is gone for good.
            if k > depth {
                self.unmodified_snapshot = None;
            }
        }
        proof {
            assert(snaps_view(self.undo_snapshots@) =~= h.usnaps.push(
                SnapModel { count: h.uedits.len() as int, cursor: h.cursor },
            ));
            assert(snaps_view(self.redo_snapshots@) =~= Seq::<SnapModel>::empty());
            assert(edits_view(self.redo_slice_edits@) =~= Seq::<EditModel>::empty());
            assert(self@.hist =~~= snapshot_hist(h));
            lemma_snapshot_preserves(h);
        }
    }

    /// Replace the whole document and reset cursor, selection and history;
    /// the modified flag starts false unless the caller asks otherwise.
    pub fn load(&mut self, text: &str, initially_modified: bool)
        requires
            old(self).wf(),
            text@.len() < usize::MAX,
        ensures
            final(self).wf(),
            final(self).redo_ok(),
            final(self)@.hist == (Hist {
                text: text@,
                cursor: 0,
                sel: 0,
                uedits: Seq::<EditModel>::empty(),
                usnaps: Seq::<SnapModel>::empty(),
                redits: Seq::<EditModel>::empty(),
                rsnaps: Seq::<SnapModel>::empty(),
                unmod: if initially_modified {
                    None
                } else {
                    Some(0int)
                },
            }),
            !initially_modified ==> !modified_of(final(self)@.hist),
    {
        let chars = strutil::str_chars(text);
        let n = self.document.len();
        self.document.replace_slice(0, n, chars.as_slice());
        self.undo_snapshots.clear();
        self.undo_slice_edits.clear();
        self.redo_snapshots.clear();
        self.redo_slice_edits.clear();
        proof {
            assert(splice(old(self)@.hist.text, 0, old(self)@.hist.text.len() as int, text@)
                =~= text@);
        }
        // Move the gap to the beginning, to avoid a long relocation on the
        // first edit; the document itself is unchanged.
        let empty: Vec<char> = Vec::new();
        self.document.replace_slice(0, 0, empty.as_slice());
        proof {
            assert(splice(text@, 0, 0, Seq::<char>::empty()) =~= text@);
        }
        self.cursor_pos = 0;
        self.selection_pos = 0;
        self.unmodified_snapshot = if initially_modified {
            None
        } else {
            Some(0)
        };
        proof {
            assert(snaps_view(self.undo_snapshots@) =~= Seq::<SnapModel>::empty());
            assert(edits_view(self.undo_slice_edits@) =~= Seq::<EditModel>::empty());
            assert(snaps_view(self.redo_snapshots@) =~= Seq::<SnapModel>::empty());
            assert(edits_view(self.redo_slice_edits@) =~= Seq::<EditModel>::empty());
        }
    }

    /// Move the cursor one position left, clamped at the start.
    pub fn left(&mut self)
        requires
            old(self).wf(),
        ensures
            final(self).wf(),
            final(self)@.doc == old(self)@.doc,
            final(self)@.hist == (Hist {
                cursor: if old(self)@.hist.cursor > 0 {
                    old(self)@.hist.cursor - 1
                } else {
                    0
                },
                ..old(self)@.hist
            }),
            old(self).redo_ok() ==> final(self).redo_ok(),
    {
        if self.cursor_pos > 0 {
            self.cursor_pos = self.cursor_pos - 1;
        }
    }

    /// Move the cursor one position right, clamped at the end.
    pub fn right(&mut self)
        requires
            old(self).wf(),
        ensures
            final(self).wf(),
            final(self)@.doc == old(self)@.doc,
            final(self)@.hist == (Hist {
                cursor: if old(self)@.hist.cursor < old(self)@.hist.text.len() {
                    old(self)@.hist.cursor + 1
                } else {
                    old(self)@.hist.cursor
                },
                ..old(self)@.hist
            }),
            old(self).redo_ok() ==> final(self).redo_ok(),
    {
        if self.cursor_pos < self.document.len() {
            self.cursor_pos = self.cursor_pos + 1;
        }
    }

    /// Jump the cursor to the start of the document.
    pub fn ctrl_home(&mut self)
        requires
            old(self).wf(),
        ensures
            final(self).wf(),
            final(self)@.doc == old(self)@.doc,
            final(self)@.hist == (Hist { cursor: 0, ..old(self)@.hist }),
            old(self).redo_ok() ==> final(self).redo_ok(),
    {
        self.cursor_pos = 0;
    }

    /// Jump the cursor to the end of the document.
    pub fn ctrl_end(&mut self)
        requires
            old(self).wf(),
        ensures
            final(self).wf(),
            final(self)@.doc == old(self)@.doc,
            final(self)@.hist == (Hist {
                cursor: old(self)@.hist.text.len() as int,
                ..old(self)@.hist
            }),
            old(self).redo_ok() ==> final(self).redo_ok(),
    {
        self.cursor_pos = self.document.len();
    }

    /// Place the cursor at a position the host hit-tested from a click.
    /// The selection is left alone: whether a click extends or clears it is
    /// the host's policy.
    pub fn click(&mut self, pos: usize)
        requires
            old(self).wf(),
            pos <= old(self)@.hist.text.len(),
        ensures
            final(self).wf(),
            final(self)@.doc == old(self)@.doc,
            final(self)@.hist == (Hist { cursor: pos as int, ..old(self)@.hist }),
            old(self).redo_ok() ==> final(self).redo_ok(),
    {
        self.cursor_pos = pos;
    }

    /// Move the cursor left to the previous word boundary: the nearest
    /// position below the cursor where whitespace is followed by
    /// non-whitespace, or the start of the document.
    pub fn ctrl_left(&mut self)
        requires
            old(self).wf(),
        ensures
            final(self).wf(),
            final(self)@.doc == old(self)@.doc,
            final(self)@.hist == (Hist { cursor: final(self)@.hist.cursor, ..old(self)@.hist }),
            ({
                let text = old(self)@.hist.text;
                let c0 = old(self)@.hist.cursor;
                let c1 = final(self)@.hist.cursor;
                if c0 == 0 {
                    c1 == 0
                } else {
                    &&& c1 <= c0 - 1
                    &&& (c1 == 0 || word_boundary_left(text, c1))
                    &&& forall|q: int| c1 < q <= c0 - 1 ==> !word_boundary_left(text, q)
                }
            }),
            old(self).redo_ok() ==> final(self).redo_ok(),
    {
        let ghost text = self@.hist.text;
        let ghost c0 = self@.hist.cursor;
        if self.cursor_pos > 0 {
            self.cursor_pos = self.cursor_pos - 1;
        }
        while self.cursor_pos > 0
            invariant
                self.wf(),
                self@.doc == old(self)@.doc,
                text == self@.hist.text,
                c0 == old(self)@.hist.cursor,
                c0 <= text.len(),
                self@.hist == (Hist { cursor: self@.hist.cursor, ..old(self)@.hist }),
                c0 > 0 ==> self@.hist.cursor <= c0 - 1,
                c0 == 0 ==> self@.hist.cursor == 0,
                forall|q: int| self@.hist.cursor < q <= c0 - 1 ==> !word_boundary_left(text, q),
            ensures
                self.wf(),
                self@.doc == old(self)@.doc,
                self@.hist == (Hist { cursor: self@.hist.cursor, ..old(self)@.hist }),
                c0 > 0 ==> self@.hist.cursor <= c0 - 1,
                c0 == 0 ==> self@.hist.cursor == 0,
                forall|q: int| self@.hist.cursor < q <= c0 - 1 ==> !word_boundary_left(text, q),
                self.cursor_pos == 0 || word_boundary_left(text, self@.hist.cursor),
            decreases self.cursor_pos,
        {
            if strutil::is_whitespace(self.document.get_char(self.cursor_pos - 1))
                && !strutil::is_whitespace(self.document.get_char(self.cursor_pos)) {
                break ;
            }
            self.cursor_pos = self.cursor_pos - 1;
        }
    }

    /// Move the cursor right to the next word boundary: the nearest position
    /// above the cursor where non-whitespace is followed by whitespace, or
    /// the end of the document.
    pub fn ctrl_right(&mut self)
        requires
            old(self).wf(),
        ensures
            final(self).wf(),
            final(self)@.doc == old(self)@.doc,
            final(self)@.hist == (Hist { cursor: final(self)@.hist.cursor, ..old(self)@.hist }),
            ({
                let text = old(self)@.hist.text;
                let c0 = old(self)@.hist.cursor;
                let c1 = final(self)@.hist.cursor;
                if c0 == text.len() {
                    c1 == c0
                } else {
                    &&& c0 + 1 <= c1 <= text.len()
                    &&& (c1 == text.len() || word_boundary_right(text, c1))
                    &&& forall|q: int| c0 + 1 <= q < c1 ==> !word_boundary_right(text, q)
                }
            }),
            old(self).redo_ok() ==> final(self).redo_ok(),
    {
        let ghost text = self@.hist.text;
        let ghost c0 = self@.hist.cursor;
        let n = self.document.len();
        while self.cursor_pos < n
            invariant_except_break
                forall|q: int| c0 + 1 <= q <= self@.hist.cursor ==> !word_boundary_right(text, q),
            invariant
                self.wf(),
                self@.doc == old(self)@.doc,
                text == self@.hist.text,
                c0 == old(self)@.hist.cursor,
                n == text.len(),
                self@.hist == (Hist { cursor: self@.hist.cursor, ..old(self)@.hist }),
                c0 <= self@.hist.cursor <= n,
                c0 == n ==> self@.hist.cursor == c0,
            ensures
                self.wf(),
                self@.doc == old(self)@.doc,
                self@.hist == (Hist { cursor: self@.hist.cursor, ..old(self)@.hist }),
                c0 <= self@.hist.cursor <= n,
                c0 < n ==> c0 + 1 <= self@.hist.cursor,
                c0 == n ==> self@.hist.cursor == c0,
                self.cursor_pos == n || word_boundary_right(text, self@.hist.cursor),
                forall|q: int| c0 + 1 <= q < self@.hist.cursor ==> !word_boundary_right(text, q),
            decreases n - self.cursor_pos,
        {
            self.cursor_pos = self.cursor_pos + 1;
            if self.cursor_pos == n {
                break ;
            }
            if !strutil::is_whitespace(self.document.get_char(self.cursor_pos - 1))
                && strutil::is_whitespace(self.document.get_char(self.cursor_pos)) {
                break ;
            }
        }
    }

    /// Select the alphanumeric word around a hit-tested position: the
    /// selection is expanded left and right of `pos` over alphanumeric
    /// characters, selection endpoint first, cursor at the end.
    pub fn select_word(&mut self, pos: usize)
        requires
            old(self).wf(),
            pos <= old(self)@.hist.text.len(),
        ensures
            final(self).wf(),
            final(self)@.doc == old(self)@.doc,
            ({
                let text = old(self)@.hist.text;
                let a = final(self)@.hist.sel;
                let b = final(self)@.hist.cursor;
                &&& final(self)@.hist == (Hist { cursor: b, sel: a, ..old(self)@.hist })
                &&& 0 <= a <= pos as int <= b <= text.len()
                &&& forall|q: int| a <= q < b ==> strutil::char_is_alphanumeric(#[trigger] text[q])
                &&& (a == 0 || !strutil::char_is_alphanumeric(text[a - 1]))
                &&& (b == text.len() || !strutil::char_is_alphanumeric(text[b as int]))
            }),
            old(self).redo_ok() ==> final(self).redo_ok(),
    {
        let ghost text = self@.hist.text;
        let n = self.document.len();
        let mut start = pos;
        while start > 0
            invariant
                self.wf(),
                text == self@.hist.text,
                start <= pos <= text.len(),
                forall|q: int|
                    start <= q < pos ==> strutil::char_is_alphanumeric(#[trigger] text[q]),
            ensures
                start <= pos,
                forall|q: int|
                    start <= q < pos ==> strutil::char_is_alphanumeric(#[trigger] text[q]),
                start == 0 || !strutil::char_is_alphanumeric(text[start - 1]),
            decreases start,
        {
            if !strutil::is_alphanumeric(self.document.get_char(start - 1)) {
                break ;
            }
            start = start - 1;
        }
        let mut end = pos;
        while end < n
            invariant
                self.wf(),
                text == self@.hist.text,
                n == text.len(),
                pos <= end <= text.len(),
                forall|q: int| pos <= q < end ==> strutil::char_is_alphanumeric(#[trigger] text[q]),
            ensures
                pos <= end <= text.len(),
                forall|q: int| pos <= q < end ==> strutil::char_is_alphanumeric(#[trigger] text[q]),
                end == text.len() || !strutil::char_is_alphanumeric(text[end as int]),
            decreases n - end,
        {
            if !strutil::is_alphanumeric(self.document.get_char(end)) {
                break ;
            }
            end = end + 1;
        }
        self.selection_pos = start;
        self.cursor_pos = end;
    }

    /// Move the cursor to the start of its sub-line: the last shaped
    /// sub-line boundary strictly before the cursor's offset within its
    /// line, or the line start when there is none.  `bounds` holds the
    /// sub-line (soft-wrap) boundary offsets of the cursor's line, as the
    /// host's shaper reports them; each must lie within the line.
    pub fn home(&mut self, bounds: &Vec<usize>)
        requires
            old(self).wf(),
            ({
                let lines = old(self)@.doc.lines;
                let li = line_index_of(lines, old(self)@.hist.cursor);
                forall|i: int|
                    0 <= i < bounds@.len() ==> bounds@[i] <= lines[li].end - lines[li].start
            }),
        ensures
            final(self).wf(),
            final(self)@.doc == old(self)@.doc,
            final(self)@.hist == (Hist {
                cursor: final(self)@.hist.cursor,
                ..old(self)@.hist
            }),
            ({
                let lines = old(self)@.doc.lines;
                let li = line_index_of(lines, old(self)@.hist.cursor);
                let off = old(self)@.hist.cursor - lines[li].start;
                let c1 = final(self)@.hist.cursor;
                if exists|i: int| 0 <= i < bounds@.len() && (#[trigger] bounds@[i]) < off {
                    exists|i: int|
                        0 <= i < bounds@.len() && ((#[trigger] bounds@[i]) as int) < off && c1
                            == lines[li].start + bounds@[i] && (forall|j: int|
                            i < j < bounds@.len() ==> (bounds@[j] as int) >= off)
                } else {
                    c1 == lines[li].start
                }
            }),
            old(self).redo_ok() ==> final(self).redo_ok(),
    {
        let ghost lines = self@.doc.lines;
        let ghost c0 = self@.hist.cursor;
        proof {
            crate::line_gap_buffer::lemma_partition_covers(self@.doc.text, lines, c0);
        }
        let line_no = self.document.find_line(self.cursor_pos);
        proof {
            assert(line_no as int == line_index_of(lines, c0));
        }
        let start = self.document.get_line(line_no).start;
        let off = self.cursor_pos - start;
        let mut best: usize = 0;
        let mut found = false;
        let ghost mut wit: int = 0;
        let mut i: usize = 0;
        while i < bounds.len()
            invariant
                i <= bounds@.len(),
                off == c0 - lines[line_no as int].start,
                found == exists|q: int| 0 <= q < i && (#[trigger] bounds@[q]) < off,
                found ==> 0 <= wit < i && ((bounds@[wit] as int) < off) && best == bounds@[wit]
                    && (forall|j: int| wit < j < i ==> (bounds@[j] as int) >= off),
            decreases bounds@.len() - i,
        {
            if bounds[i] < off {
                best = bounds[i];
                found = true;
                proof {
                    wit = i as int;
                }
            }
            i += 1;
        }
        self.cursor_pos = if found {
            start + best
        } else {
            start
        };
    }

    /// Move the cursor to the end of its sub-line: the first shaped
    /// sub-line boundary strictly after the cursor's offset within its
    /// line, or the last boundary when there is none.  `bounds` holds the
    /// sub-line boundary offsets of the cursor's line, at least one, each
    /// within the line.
    pub fn end(&mut self, bounds: &Vec<usize>)
        requires
            old(self).wf(),
            bounds@.len() > 0,
            ({
                let lines = old(self)@.doc.lines;
                let li = line_index_of(lines, old(self)@.hist.cursor);
                forall|i: int|
                    0 <= i < bounds@.len() ==> bounds@[i] <= lines[li].end - lines[li].start
            }),
        ensures
            final(self).wf(),
            final(self)@.doc == old(self)@.doc,
            final(self)@.hist == (Hist {
                cursor: final(self)@.hist.cursor,
                ..old(self)@.hist
            }),
            ({
                let lines = old(self)@.doc.lines;
                let li = line_index_of(lines, old(self)@.hist.cursor);
                let off = old(self)@.hist.cursor - lines[li].start;
                let c1 = final(self)@.hist.cursor;
                if exists|i: int| 0 <= i < bounds@.len() && off < (#[trigger] bounds@[i]) {
                    exists|i: int|
                        0 <= i < bounds@.len() && off < (#[trigger] bounds@[i]) && c1 == lines[li].start
                            + bounds@[i] && (forall|j: int|
                            0 <= j < i ==> (bounds@[j] as int) <= off)
                } else {
                    c1 == lines[li].start + bounds@[bounds@.len() - 1]
                }
            }),
            old(self).redo_ok() ==> final(self).redo_ok(),
    {
        let ghost lines = self@.doc.lines;
        let ghost c0 = self@.hist.cursor;
        proof {
            crate::line_gap_buffer::lemma_partition_covers(self@.doc.text, lines, c0);
        }
        let line_no = self.document.find_line(self.cursor_pos);
        proof {
            assert(line_no as int == line_index_of(lines, c0));
        }
        let start = self.document.get_line(line_no).start;
        let off = self.cursor_pos - start;
        let mut i: usize = 0;
        while i < bounds.len()
            invariant
                i <= bounds@.len(),
                off == c0 - lines[line_no as int].start,
                forall|j: int| 0 <= j < i ==> (#[trigger] bounds@[j] as int) <= off,
            ensures
                i <= bounds@.len(),
                forall|j: int| 0 <= j < i ==> (#[trigger] bounds@[j] as int) <= off,
                i < bounds@.len() ==> off < bounds@[i as int],
                i == bounds@.len() ==> (forall|j: int|
                    0 <= j < bounds@.len() ==> (#[trigger] bounds@[j] as int) <= off),
            decreases bounds@.len() - i,
        {
            if bounds[i] > off {
                break ;
            }
            i += 1;
        }
        if i < bounds.len() {
            self.cursor_pos = start + bounds[i];
        } else {
            self.cursor_pos = start + bounds[bounds.len() - 1];
        }
    }

    /// Undo one user-visible step: pop the top checkpoint, reverse-apply
    /// every edit made since it was taken (pushing the inverses onto the
    /// redo log), and restore the cursor recorded in it.  Without a
    /// checkpoint this does nothing.
    ///
    /// `crate::history::lemma_undo_redo_inverse` proves of the transition
    /// promised here that `n` undos followed by `n` redos restore the text,
    /// the cursor and the whole history exactly.
    pub fn undo(&mut self)
        requires
            old(self).wf(),
        ensures
            final(self).wf(),
            final(self)@.hist == undo_hist(old(self)@.hist),
            old(self).redo_ok() ==> final(self).redo_ok(),
    {
        let ghost h = self@.hist;
        if self.undo_snapshots.len() == 0 {
            return ;
        }
        proof {
            assert(h.usnaps.last() == snap_view(self.undo_snapshots@.last()));
        }
        let snap = self.undo_snapshots.pop().unwrap();
        let k = snap.slice_edit_count;
        let ghost ksnap = snap_view(snap);
        self.redo_snapshots.push(
            UndoSnapshot {
                slice_edit_count: self.redo_slice_edits.len(),
                cursor_pos: self.cursor_pos,
            },
        );
        proof {
            assert(snaps_view(self.undo_snapshots@) =~= h.usnaps.drop_last());
            assert(snaps_view(self.redo_snapshots@) =~= h.rsnaps.push(
                SnapModel { count: h.redits.len() as int, cursor: h.cursor },
            ));
            assert(edits_view(self.undo_slice_edits@) =~= h.uedits.subrange(
                0,
                self.undo_slice_edits@.len() as int,
            ));
            assert(edits_view(self.redo_slice_edits@) =~= h.redits + unwind_inverses(
                h.text,
                h.uedits,
                self.undo_slice_edits@.len() as int,
            ));
            assert(k as int == ksnap.count);
            assert(0 <= k <= h.uedits.len());
        }
        while self.undo_slice_edits.len() > k
            invariant
                self.doc_wf(),
                h == old(self)@.hist,
                hist_core_ok(h),
                k as int == ksnap.count,
                k <= self.undo_slice_edits@.len() <= h.uedits.len(),
                self@.doc.text == text_at(h.text, h.uedits, self.undo_slice_edits@.len() as int),
                log_ok(self@.doc.text, edits_view(self.undo_slice_edits@)),
                self@.doc.text.len() < usize::MAX,
                edits_view(self.undo_slice_edits@) == h.uedits.subrange(
                    0,
                    self.undo_slice_edits@.len() as int,
                ),
                edits_view(self.redo_slice_edits@) == h.redits + unwind_inverses(
                    h.text,
                    h.uedits,
                    self.undo_slice_edits@.len() as int,
                ),
                snaps_view(self.undo_snapshots@) == h.usnaps.drop_last(),
                snaps_view(self.redo_snapshots@) == h.rsnaps.push(
                    SnapModel { count: h.redits.len() as int, cursor: h.cursor },
                ),
                self.cursor_pos as int == h.cursor,
                self.selection_pos as int == h.sel,
                self.unmodified_snapshot == old(self).unmodified_snapshot,
            decreases self.undo_slice_edits@.len(),
        {
            let ghost cl = self.undo_slice_edits@.len() as int;
            proof {
                assert(h.uedits.subrange(0, cl).last() == h.uedits[cl - 1]);
                lemma_unwind_step(h.text, h.uedits, cl);
                assert(h.uedits.subrange(0, cl).drop_last() =~= h.uedits.subrange(0, cl - 1));
            }
            let e = self.undo_slice_edits.pop().unwrap();
            let re = self.replace_slice_and_get_edit(e.start, e.end, e.old_text.as_slice());
            proof {
                assert(edits_view(self.undo_slice_edits@) =~= h.uedits.subrange(0, cl - 1));
            }
            match re {
                Some(x) => {
                    let ghost rv = self.redo_slice_edits@;
                    self.redo_slice_edits.push(x);
                    proof {
                        let inv = inverse_of(text_at(h.text, h.uedits, cl), h.uedits[cl - 1]);
                        assert(edit_view(x) == inv);
                        assert(edits_view(rv.push(x)) =~= edits_view(rv).push(inv));
                        assert((h.redits + unwind_inverses(h.text, h.uedits, cl)).push(inv)
                            =~= h.redits + unwind_inverses(h.text, h.uedits, cl).push(inv));
                        assert(edits_view(self.redo_slice_edits@) =~= h.redits + unwind_inverses(
                            h.text,
                            h.uedits,
                            cl - 1,
                        ));
                    }
                },
                None => {
                    // Unreachable under a sound log: a recorded edit is
                    // never a no-op at its turn.
                    proof {
                        assert(false);
                    }
                },
            }
        }
        self.cursor_pos = snap.cursor_pos;
        self.selection_pos = self.cursor_pos;
        proof {
            assert(self@.hist =~~= undo_hist(h));
            lemma_undo_preserves_core(h);
            if hist_redo_ok(h) {
                lemma_undo_preserves(h);
            }
        }
    }

    /// Redo one undone step: literally an undo of the inverse history, with
    /// the undo and redo sides swapped around it.  The redo side must be
    /// sound: editing after an undo without a fresh snapshot invalidates it,
    /// and redoing then would be a programming error in the host.
    pub fn redo(&mut self)
        requires
            old(self).wf(),
            old(self).redo_ok(),
        ensures
            final(self).wf(),
            final(self).redo_ok(),
            final(self)@.hist == redo_hist(old(self)@.hist),
    {
        let ghost h = self@.hist;
        core::mem::swap(&mut self.undo_snapshots, &mut self.redo_snapshots);
        core::mem::swap(&mut self.undo_slice_edits, &mut self.redo_slice_edits);
        proof {
            assert(self@.hist =~~= swap_hist(h));
        }
        self.undo();
        core::mem::swap(&mut self.undo_snapshots, &mut self.redo_snapshots);
        core::mem::swap(&mut self.undo_slice_edits, &mut self.redo_slice_edits);
        proof {
            assert(self@.hist =~~= swap_hist(undo_hist(swap_hist(h))));
            lemma_undo_preserves(swap_hist(h));
        }
    }
}

} // verus!
