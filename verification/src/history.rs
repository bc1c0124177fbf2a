//! The mathematical model of the editing history: two edit logs and two
//! snapshot stacks, as plain sequences, with the transitions that `undo` and
//! `redo` perform and the proofs that they invert each other.
//!
//! An edit log is unwound from its last element: reverse-applying an edit
//! replaces `[start, end)` of the current text by the saved `old_text`.  A
//! snapshot records how many edits were in the log and where the cursor was;
//! `undo` pops one snapshot and unwinds the log down to its count, pushing
//! the inverse of every unwound edit onto the redo log.  `redo` is `undo`
//! run on the swapped pair of logs.

use vstd::prelude::*;

use crate::line_gap_buffer::splice;

verus! {

/// One recorded buffer mutation, as seen by the history: reverse-applying it
/// replaces `[start, end)` of the current text by `old_text`.
#[verifier::ext_equal]
pub struct EditModel {
    pub start: int,
    pub end: int,
    pub old_text: Seq<char>,
}

/// One undo checkpoint: the depth of the edit log and the cursor position
/// when it was taken.
pub struct SnapModel {
    pub count: int,
    pub cursor: int,
}

/// The whole history state: document text, cursor and selection, the undo
/// and redo logs and snapshot stacks, and the depth marked as saved.
#[verifier::ext_equal]
pub struct Hist {
    pub text: Seq<char>,
    pub cursor: int,
    pub sel: int,
    pub uedits: Seq<EditModel>,
    pub usnaps: Seq<SnapModel>,
    pub redits: Seq<EditModel>,
    pub rsnaps: Seq<SnapModel>,
    pub unmod: Option<int>,
}

/// Reverse-apply one edit: put `old_text` back in place of `[start, end)`.
pub open spec fn apply_edit(text: Seq<char>, e: EditModel) -> Seq<char> {
    splice(text, e.start, e.end, e.old_text)
}

/// An edit is applicable and not a no-op on `text`.
pub open spec fn edit_ok(text: Seq<char>, e: EditModel) -> bool {
    &&& 0 <= e.start <= e.end <= text.len()
    &&& text.subrange(e.start, e.end) != e.old_text
}

/// The log unwinds soundly from `text`: every edit, at its turn, is
/// applicable and not a no-op, and every text it leads through fits the
/// machine.
pub open spec fn log_ok(text: Seq<char>, edits: Seq<EditModel>) -> bool
    decreases edits.len(),
{
    edits.len() == 0 || {
        &&& edit_ok(text, edits.last())
        &&& apply_edit(text, edits.last()).len() < usize::MAX
        &&& log_ok(apply_edit(text, edits.last()), edits.drop_last())
    }
}

/// The text after unwinding the log down to `k` edits.
pub open spec fn text_at(text: Seq<char>, edits: Seq<EditModel>, k: int) -> Seq<char>
    decreases edits.len(),
{
    if edits.len() <= k || edits.len() == 0 {
        text
    } else {
        text_at(apply_edit(text, edits.last()), edits.drop_last(), k)
    }
}

/// The inverse of `e` with respect to the text it is about to be
/// reverse-applied to: applying the inverse to `apply_edit(text, e)` gives
/// `text` back.
pub open spec fn inverse_of(text: Seq<char>, e: EditModel) -> EditModel {
    EditModel {
        start: e.start,
        end: e.start + e.old_text.len(),
        old_text: text.subrange(e.start, e.end),
    }
}

/// The inverses pushed onto the redo log while unwinding down to `k`, in
/// push order: the inverse of the last edit first.
pub open spec fn unwind_inverses(text: Seq<char>, edits: Seq<EditModel>, k: int) -> Seq<EditModel>
    decreases edits.len(),
{
    if edits.len() <= k || edits.len() == 0 {
        Seq::empty()
    } else {
        seq![inverse_of(text, edits.last())] + unwind_inverses(
            apply_edit(text, edits.last()),
            edits.drop_last(),
            k,
        )
    }
}

/// The snapshot stack fits the log: counts within the log, taken in order,
/// and each recorded cursor inside the text as it was at that depth.
pub open spec fn snaps_ok(text: Seq<char>, edits: Seq<EditModel>, snaps: Seq<SnapModel>) -> bool {
    &&& forall|j: int| 0 <= j < snaps.len() ==> 0 <= (#[trigger] snaps[j]).count <= edits.len()
    &&& forall|j1: int, j2: int|
        0 <= j1 <= j2 < snaps.len() ==> (#[trigger] snaps[j1]).count <= (#[trigger] snaps[j2]).count
    &&& forall|j: int|
        0 <= j < snaps.len() ==> 0 <= (#[trigger] snaps[j]).cursor <= text_at(
            text,
            edits,
            snaps[j].count,
        ).len()
}

/// The undo side of the history is sound, and cursor and selection are in
/// range.
pub open spec fn hist_core_ok(h: Hist) -> bool {
    &&& 0 <= h.cursor <= h.text.len()
    &&& 0 <= h.sel <= h.text.len()
    &&& h.text.len() < usize::MAX
    &&& log_ok(h.text, h.uedits)
    &&& snaps_ok(h.text, h.uedits, h.usnaps)
}

/// The redo side of the history is sound.  Editing after an undo without
/// taking a fresh snapshot can leave the redo side stale, so this is kept
/// apart from `hist_core_ok` and required only where redo itself runs.
pub open spec fn hist_redo_ok(h: Hist) -> bool {
    &&& log_ok(h.text, h.redits)
    &&& snaps_ok(h.text, h.redits, h.rsnaps)
}

/// Whether the document differs from the state marked as saved.
pub open spec fn modified_of(h: Hist) -> bool {
    h.unmod != Some(h.usnaps.len() as int)
}

/// What `undo` does: pop a snapshot, mirror it onto the redo stack, unwind
/// the undo log down to its count pushing the inverses onto the redo log,
/// and restore the cursor, clearing the selection.  Without a snapshot it
/// does nothing.
pub open spec fn undo_hist(h: Hist) -> Hist {
    if h.usnaps.len() == 0 {
        h
    } else {
        let snap = h.usnaps.last();
        Hist {
            text: text_at(h.text, h.uedits, snap.count),
            cursor: snap.cursor,
            sel: snap.cursor,
            uedits: h.uedits.subrange(0, snap.count),
            usnaps: h.usnaps.drop_last(),
            redits: h.redits + unwind_inverses(h.text, h.uedits, snap.count),
            rsnaps: h.rsnaps.push(SnapModel { count: h.redits.len() as int, cursor: h.cursor }),
            unmod: h.unmod,
        }
    }
}

/// Exchange the undo and redo sides.
pub open spec fn swap_hist(h: Hist) -> Hist {
    Hist {
        text: h.text,
        cursor: h.cursor,
        sel: h.sel,
        uedits: h.redits,
        usnaps: h.rsnaps,
        redits: h.uedits,
        rsnaps: h.usnaps,
        unmod: h.unmod,
    }
}

/// `h` with its selection endpoint replaced.
pub open spec fn with_sel(h: Hist, s: int) -> Hist {
    Hist { sel: s, ..h }
}

/// What `redo` does: undo run on the inverse history.
pub open spec fn redo_hist(h: Hist) -> Hist {
    swap_hist(undo_hist(swap_hist(h)))
}

/// What `make_undo_snapshot` checks: the checkpoint is new, i.e. the last
/// one does not already record the same depth and cursor.
pub open spec fn snapshot_pushes(h: Hist) -> bool {
    h.usnaps.len() == 0 || !(h.usnaps.last().count == h.uedits.len()
        && h.usnaps.last().cursor == h.cursor)
}

/// What `make_undo_snapshot` does: push a checkpoint at the current depth
/// and cursor unless the last one is identical; on a push, clear both redo
/// stacks and re-evaluate the saved mark: a saved depth above the stack as
/// it stood before the push can no longer be reached by undo, since the
/// redo future is gone, so such a mark is dropped; a reachable mark stays.
pub open spec fn snapshot_hist(h: Hist) -> Hist {
    if !snapshot_pushes(h) {
        h
    } else {
        Hist {
            text: h.text,
            cursor: h.cursor,
            sel: h.sel,
            uedits: h.uedits,
            usnaps: h.usnaps.push(
                SnapModel { count: h.uedits.len() as int, cursor: h.cursor },
            ),
            redits: Seq::empty(),
            rsnaps: Seq::empty(),
            unmod: if h.unmod is Some && h.unmod->0 > h.usnaps.len() {
                None
            } else {
                h.unmod
            },
        }
    }
}

/// Reverse-applying an edit and then its inverse restores the text, and the
/// inverse of the inverse is the edit itself.
pub proof fn lemma_edit_invert(text: Seq<char>, e: EditModel)
    requires
        edit_ok(text, e),
    ensures
        edit_ok(apply_edit(text, e), inverse_of(text, e)),
        apply_edit(apply_edit(text, e), inverse_of(text, e)) == text,
        inverse_of(apply_edit(text, e), inverse_of(text, e)) == e,
{
    let inv = inverse_of(text, e);
    let text2 = apply_edit(text, e);
    assert(text2.subrange(e.start, e.start + e.old_text.len()) =~= e.old_text);
    assert(apply_edit(text2, inv) =~= text);
    assert(inverse_of(text2, inv) =~~= e);
}

/// Unwinding a concatenated log processes its right part first: validity,
/// the text reached, and the inverses produced all decompose accordingly,
/// for any depth `k` inside the left part.
proof fn lemma_log_append(text: Seq<char>, xs: Seq<EditModel>, ys: Seq<EditModel>, k: int)
    requires
        0 <= k <= xs.len(),
    ensures
        log_ok(text, ys) && log_ok(text_at(text, ys, 0), xs) ==> log_ok(text, xs + ys),
        text_at(text, xs + ys, k) == text_at(text_at(text, ys, 0), xs, k),
        unwind_inverses(text, xs + ys, k) == unwind_inverses(text, ys, 0) + unwind_inverses(
            text_at(text, ys, 0),
            xs,
            k,
        ),
    decreases ys.len(),
{
    if ys.len() == 0 {
        assert(xs + ys =~= xs);
        assert(unwind_inverses(text, ys, 0) + unwind_inverses(text, xs, k) =~= unwind_inverses(
            text,
            xs,
            k,
        ));
    } else {
        let e = ys.last();
        let text1 = apply_edit(text, e);
        assert((xs + ys).last() == e);
        assert((xs + ys).drop_last() =~= xs + ys.drop_last());
        lemma_log_append(text1, xs, ys.drop_last(), k);
        assert(unwind_inverses(text, xs + ys, k) =~= unwind_inverses(text, ys, 0)
            + unwind_inverses(text_at(text, ys, 0), xs, k));
    }
}

/// Unwinding a sound log down to `k` yields sound prefixes and inverses:
/// the inverses form a sound log on the reached text, unwinding them leads
/// back to the original text and regenerates exactly the unwound edits, and
/// the kept prefix stays sound with the same intermediate texts.
pub proof fn lemma_unwind_invert(text: Seq<char>, edits: Seq<EditModel>, k: int)
    requires
        log_ok(text, edits),
        text.len() < usize::MAX,
        0 <= k <= edits.len(),
    ensures
        unwind_inverses(text, edits, k).len() == edits.len() - k,
        text_at(text, edits, k).len() < usize::MAX,
        log_ok(text_at(text, edits, k), edits.subrange(0, k)),
        log_ok(text_at(text, edits, k), unwind_inverses(text, edits, k)),
        text_at(text_at(text, edits, k), unwind_inverses(text, edits, k), 0) == text,
        unwind_inverses(text_at(text, edits, k), unwind_inverses(text, edits, k), 0)
            == edits.subrange(k, edits.len() as int),
        forall|c: int|
            0 <= c <= k ==> text_at(text_at(text, edits, k), edits.subrange(0, k), c) == text_at(
                text,
                edits,
                c,
            ),
    decreases edits.len(),
{
    let text2 = text_at(text, edits, k);
    let invs = unwind_inverses(text, edits, k);
    if edits.len() <= k {
        assert(edits.subrange(0, k) =~= edits);
        assert(unwind_inverses(text2, invs, 0) =~= edits.subrange(k, edits.len() as int));
    } else {
        let e = edits.last();
        let text1 = apply_edit(text, e);
        let rest = edits.drop_last();
        let inv = inverse_of(text, e);
        lemma_edit_invert(text, e);
        lemma_unwind_invert(text1, rest, k);
        let invs1 = unwind_inverses(text1, rest, k);
        assert(rest.subrange(0, k) =~= edits.subrange(0, k));
        assert(invs =~= seq![inv] + invs1);
        // Validity of the produced inverses, from the right-to-left append
        // decomposition.
        lemma_log_append(text2, seq![inv], invs1, 1);
        lemma_log_append(text2, seq![inv], invs1, 0);
        assert(text_at(text2, invs1, 0) == text1);
        assert(log_ok(text1, seq![inv])) by {
            assert(seq![inv].last() == inv);
            assert(seq![inv].drop_last() =~= Seq::<EditModel>::empty());
            assert(log_ok(apply_edit(text1, inv), Seq::<EditModel>::empty()));
            assert(edit_ok(text1, inv));
        }
        assert(log_ok(text2, invs));
        // Unwinding the inverses leads back to the original text.
        assert(text_at(text2, invs, 0) == text_at(text1, seq![inv], 0));
        assert(text_at(text1, seq![inv], 0) == apply_edit(text1, inv)) by {
            assert(seq![inv].drop_last() =~= Seq::<EditModel>::empty());
            assert(text_at(apply_edit(text1, inv), Seq::<EditModel>::empty(), 0) == apply_edit(
                text1,
                inv,
            ));
        }
        // ... and regenerates the unwound edits.
        assert(unwind_inverses(text2, invs, 0) == unwind_inverses(text2, invs1, 0)
            + unwind_inverses(text1, seq![inv], 0));
        assert(unwind_inverses(text1, seq![inv], 0) =~= seq![e]) by {
            assert(seq![inv].drop_last() =~= Seq::<EditModel>::empty());
            assert(unwind_inverses(apply_edit(text1, inv), Seq::<EditModel>::empty(), 0)
                =~= Seq::<EditModel>::empty());
            assert(inverse_of(text1, inv) == e);
        }
        assert(unwind_inverses(text2, invs, 0) =~= edits.subrange(k, edits.len() as int)) by {
            assert(rest.subrange(k, rest.len() as int) =~= edits.subrange(k, edits.len() - 1));
        }
        assert forall|c: int|
            0 <= c <= k implies text_at(text2, edits.subrange(0, k), c) == text_at(
            text,
            edits,
            c,
        ) by {
            assert(text_at(text, edits, c) == text_at(text1, rest, c));
            assert(text_at(text1, rest, k) == text2);
        }
    }
}

/// `undo` keeps the undo side of the history sound, pops exactly one
/// snapshot, and does not touch the saved mark — whatever the state of the
/// redo side.
pub proof fn lemma_undo_preserves_core(h: Hist)
    requires
        hist_core_ok(h),
    ensures
        hist_core_ok(undo_hist(h)),
        undo_hist(h).unmod == h.unmod,
        h.usnaps.len() > 0 ==> undo_hist(h).usnaps.len() == h.usnaps.len() - 1,
        h.usnaps.len() == 0 ==> undo_hist(h) == h,
{
    if h.usnaps.len() > 0 {
        let snap = h.usnaps.last();
        let c = snap.count;
        let h2 = undo_hist(h);
        lemma_unwind_invert(h.text, h.uedits, c);
        assert forall|j: int| 0 <= j < h2.usnaps.len() implies 0 <= (#[trigger] h2.usnaps[j]).cursor
            <= text_at(h2.text, h2.uedits, h2.usnaps[j].count).len() by {
            assert(h.usnaps[j].count <= c);
        }
    }
}

/// If the redo side was sound too, `undo` keeps it sound: the inverses it
/// pushes unwind back to the text the old redo log was anchored at.
pub proof fn lemma_undo_preserves(h: Hist)
    requires
        hist_core_ok(h),
        hist_redo_ok(h),
    ensures
        hist_core_ok(undo_hist(h)),
        hist_redo_ok(undo_hist(h)),
        undo_hist(h).unmod == h.unmod,
        h.usnaps.len() > 0 ==> undo_hist(h).usnaps.len() == h.usnaps.len() - 1,
        h.usnaps.len() == 0 ==> undo_hist(h) == h,
{
    lemma_undo_preserves_core(h);
    if h.usnaps.len() > 0 {
        let snap = h.usnaps.last();
        let c = snap.count;
        let h2 = undo_hist(h);
        lemma_unwind_invert(h.text, h.uedits, c);
        let invs = unwind_inverses(h.text, h.uedits, c);
        lemma_log_append(h2.text, h.redits, invs, 0);
        assert(log_ok(h2.text, h.redits + invs));
        assert forall|j: int| 0 <= j < h2.rsnaps.len() implies 0 <= (#[trigger] h2.rsnaps[j]).cursor
            <= text_at(h2.text, h2.redits, h2.rsnaps[j].count).len() by {
            if j < h.rsnaps.len() {
                lemma_log_append(h2.text, h.redits, invs, h.rsnaps[j].count);
            } else {
                lemma_log_append(h2.text, h.redits, invs, h.redits.len() as int);
                assert(h.redits.subrange(0, h.redits.len() as int) =~= h.redits);
                assert(text_at(h.text, h.redits, h.redits.len() as int) == h.text);
            }
        }
    }
}

/// One step of the unwinding loop: going from depth `k` to `k - 1`
/// reverse-applies edit `k - 1` and appends its inverse.
pub proof fn lemma_unwind_step(text: Seq<char>, edits: Seq<EditModel>, k: int)
    requires
        1 <= k <= edits.len(),
    ensures
        text_at(text, edits, k - 1) == apply_edit(text_at(text, edits, k), edits[k - 1]),
        unwind_inverses(text, edits, k - 1) == unwind_inverses(text, edits, k).push(
            inverse_of(text_at(text, edits, k), edits[k - 1]),
        ),
    decreases edits.len(),
{
    if k < edits.len() {
        lemma_unwind_step(apply_edit(text, edits.last()), edits.drop_last(), k);
        assert(edits.drop_last()[k - 1] == edits[k - 1]);
        assert(unwind_inverses(text, edits, k - 1) =~= unwind_inverses(text, edits, k).push(
            inverse_of(text_at(text, edits, k), edits[k - 1]),
        ));
    } else {
        assert(edits.last() == edits[k - 1]);
        assert(text_at(text, edits, k) == text);
        assert(unwind_inverses(text, edits, k) =~= Seq::<EditModel>::empty());
        assert(text_at(apply_edit(text, edits.last()), edits.drop_last(), k - 1) == apply_edit(
            text,
            edits.last(),
        ));
        assert(unwind_inverses(apply_edit(text, edits.last()), edits.drop_last(), k - 1)
            =~= Seq::<EditModel>::empty());
        assert(unwind_inverses(text, edits, k - 1) =~= unwind_inverses(text, edits, k).push(
            inverse_of(text_at(text, edits, k), edits[k - 1]),
        ));
    }
}

/// One `redo` after one `undo` restores the whole state exactly — text,
/// cursor, both logs, both stacks and the saved mark — except that the
/// selection has been collapsed onto the cursor, which both undo and redo
/// do.
pub proof fn lemma_undo_redo(h: Hist)
    requires
        hist_core_ok(h),
        hist_redo_ok(h),
        h.usnaps.len() > 0,
    ensures
        redo_hist(undo_hist(h)) == with_sel(h, h.cursor),
{
    let snap = h.usnaps.last();
    let c = snap.count;
    let h1 = undo_hist(h);
    lemma_unwind_invert(h.text, h.uedits, c);
    let invs = unwind_inverses(h.text, h.uedits, c);
    let s1 = swap_hist(h1);
    // The snapshot pushed by undo is on top of s1's undo stack, and its
    // count cuts the swapped log exactly at the old redo log.
    assert(s1.usnaps.last() == SnapModel { count: h.redits.len() as int, cursor: h.cursor });
    lemma_log_append(h1.text, h.redits, invs, h.redits.len() as int);
    assert(h.redits.subrange(0, h.redits.len() as int) =~= h.redits);
    assert(text_at(h1.text, s1.uedits, h.redits.len() as int) == h.text);
    assert(unwind_inverses(h1.text, s1.uedits, h.redits.len() as int) == unwind_inverses(
        h1.text,
        invs,
        0,
    ));
    let h2 = undo_hist(s1);
    assert((h.redits + invs).subrange(0, h.redits.len() as int) =~= h.redits);
    assert(h2.uedits =~= h.redits);
    assert(h2.redits =~~= h.uedits) by {
        assert(h.uedits.subrange(0, c) + edits_suffix(h) =~= h.uedits);
    }
    assert(h2.rsnaps =~= h.usnaps) by {
        assert(h2.rsnaps.last() == SnapModel { count: c, cursor: snap.cursor });
        assert(snap == SnapModel { count: snap.count, cursor: snap.cursor });
    }
    assert(h2.usnaps =~= h.rsnaps);
    assert(h2.text == h.text);
    assert(h2.cursor == h.cursor);
    assert(h2.sel == h.cursor);
    assert(h2.unmod == h.unmod);
    assert(redo_hist(h1) =~~= with_sel(h, h.cursor));
}

/// The part of the undo log that `undo` unwinds.
spec fn edits_suffix(h: Hist) -> Seq<EditModel> {
    h.uedits.subrange(h.usnaps.last().count, h.uedits.len() as int)
}

/// The lower end of the selection range.
pub open spec fn sel_lo(h: Hist) -> int {
    if h.cursor <= h.sel {
        h.cursor
    } else {
        h.sel
    }
}

/// The upper end of the selection range.
pub open spec fn sel_hi(h: Hist) -> int {
    if h.cursor <= h.sel {
        h.sel
    } else {
        h.cursor
    }
}

/// What recording one buffer mutation does to the history: replace
/// `[start, end)` by `new` and push the inverse edit onto the undo log —
/// unless the slice would not change, in which case nothing happens at all.
pub open spec fn record_edit(h: Hist, start: int, end: int, new: Seq<char>) -> Hist {
    if h.text.subrange(start, end) == new {
        h
    } else {
        Hist {
            text: splice(h.text, start, end, new),
            uedits: h.uedits.push(
                EditModel { start, end: start + new.len(), old_text: h.text.subrange(start, end) },
            ),
            ..h
        }
    }
}

/// Recording an edit keeps the undo log and its snapshots sound.
pub proof fn lemma_record_edit_sound(h: Hist, start: int, end: int, new: Seq<char>)
    requires
        log_ok(h.text, h.uedits),
        snaps_ok(h.text, h.uedits, h.usnaps),
        0 <= start <= end <= h.text.len(),
        h.text.len() < usize::MAX,
    ensures
        log_ok(record_edit(h, start, end, new).text, record_edit(h, start, end, new).uedits),
        snaps_ok(
            record_edit(h, start, end, new).text,
            record_edit(h, start, end, new).uedits,
            h.usnaps,
        ),
        record_edit(h, start, end, new).text.len() == h.text.len() - (end - start) + new.len()
            || record_edit(h, start, end, new) == h,
{
    let h1 = record_edit(h, start, end, new);
    if h.text.subrange(start, end) != new {
        let inv = EditModel {
            start,
            end: start + new.len(),
            old_text: h.text.subrange(start, end),
        };
        assert(apply_edit(h1.text, inv) =~= h.text);
        assert(h1.text.subrange(start, start + new.len()) =~= new);
        assert(edit_ok(h1.text, inv));
        assert(h1.uedits.last() == inv);
        assert(h1.uedits.drop_last() =~= h.uedits);
        assert(log_ok(h1.text, h1.uedits));
        assert forall|j: int| 0 <= j < h.usnaps.len() implies 0 <= (#[trigger] h.usnaps[j]).cursor
            <= text_at(h1.text, h1.uedits, h.usnaps[j].count).len() by {
            assert(text_at(h1.text, h1.uedits, h.usnaps[j].count) == text_at(
                apply_edit(h1.text, inv),
                h.uedits,
                h.usnaps[j].count,
            ));
        }
    }
}

/// A snapshot keeps the history sound, and a snapshot that pushes leaves the
/// redo side sound too, having cleared it.
pub proof fn lemma_snapshot_preserves(h: Hist)
    requires
        hist_core_ok(h),
    ensures
        hist_core_ok(snapshot_hist(h)),
        snapshot_pushes(h) ==> hist_redo_ok(snapshot_hist(h)),
        !snapshot_pushes(h) ==> snapshot_hist(h) == h,
{
    if snapshot_pushes(h) {
        let h1 = snapshot_hist(h);
        assert(text_at(h.text, h.uedits, h.uedits.len() as int) == h.text);
        assert(snaps_ok(h1.text, h1.uedits, h1.usnaps));
        assert(log_ok(h1.text, h1.redits));
    }
}

/// Applying `undo` `n` times.
pub open spec fn undo_n(h: Hist, n: nat) -> Hist
    decreases n,
{
    if n == 0 {
        h
    } else {
        undo_hist(undo_n(h, (n - 1) as nat))
    }
}

/// Applying `redo` `n` times.
pub open spec fn redo_n(h: Hist, n: nat) -> Hist
    decreases n,
{
    if n == 0 {
        h
    } else {
        redo_hist(redo_n(h, (n - 1) as nat))
    }
}

/// Iterated undo can be peeled from either end.
proof fn lemma_undo_n_shift(h: Hist, n: nat)
    ensures
        undo_n(undo_hist(h), n) == undo_n(h, n + 1),
    decreases n,
{
    assert(undo_n(h, n + 1) == undo_hist(undo_n(h, n)));
    if n > 0 {
        lemma_undo_n_shift(h, (n - 1) as nat);
        assert(undo_n(undo_hist(h), n) == undo_hist(undo_n(undo_hist(h), (n - 1) as nat)));
    }
}

/// The undo/redo inverse law: from a sound history, `n` undos followed by
/// `n` redos restore the document text, the cursor, both logs, both
/// snapshot stacks and the saved mark exactly; the selection is collapsed
/// onto the cursor, as every undo and redo collapses it.
pub proof fn lemma_undo_redo_inverse(h: Hist, n: nat)
    requires
        hist_core_ok(h),
        hist_redo_ok(h),
        n <= h.usnaps.len(),
    ensures
        redo_n(undo_n(h, n), n) == if n == 0 {
            h
        } else {
            with_sel(h, h.cursor)
        },
    decreases n,
{
    if n > 0 {
        let h1 = undo_hist(h);
        lemma_undo_preserves(h);
        lemma_undo_n_shift(h, (n - 1) as nat);
        lemma_undo_redo_inverse(h1, (n - 1) as nat);
        if n > 1 {
            assert(with_sel(h1, h1.cursor) =~~= h1);
        }
        assert(redo_n(undo_n(h, n), (n - 1) as nat) == h1);
        lemma_undo_redo(h);
    }
}

/// The saved mark survives undo and every undo pops one snapshot: after
/// exactly enough undos to return to the saved depth, the document no
/// longer counts as modified.
pub proof fn lemma_undo_reaches_unmodified(h: Hist, k: int)
    requires
        h.unmod == Some(k),
        0 <= k <= h.usnaps.len(),
    ensures
        !modified_of(undo_n(h, (h.usnaps.len() - k) as nat)),
    decreases h.usnaps.len() - k,
{
    if k < h.usnaps.len() {
        let h1 = undo_hist(h);
        lemma_undo_n_shift(h, (h.usnaps.len() - k - 1) as nat);
        lemma_undo_reaches_unmodified(h1, k);
    }
}

/// A snapshot that actually pushes leaves the engine modified: a kept
/// saved mark is at most the depth the stack had before the push, so it
/// never equals the new depth.
pub proof fn lemma_snapshot_marks_modified(h: Hist)
    requires
        snapshot_pushes(h),
    ensures
        modified_of(snapshot_hist(h)),
{
}

} // verus!
