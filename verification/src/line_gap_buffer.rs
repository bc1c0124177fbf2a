//! A dual gap buffer: the document's characters and its line-boundary
//! records are each stored as a pair of stacks around a movable gap, and the
//! two gaps are kept in lockstep so one positional scan relocates both.
//!
//! The abstract model of a buffer ([`BufferModel`]) is the character sequence
//! together with the line spans and the per-line cached-layout slots.  The
//! invariant [`wf_lines`] says that the spans partition `[0, len]`: line 0
//! starts at 0, each line but the last ends exactly at a `'\n'`, the next
//! line starts one past it, the last line ends at `len`, and no line contains
//! an interior `'\n'`.

use vstd::prelude::*;

verus! {

/// One line record handed out by the buffer.  `start..end` are the line's
/// characters; for every line but the last, the character at `end` is the
/// terminating `'\n'` and the next line starts at `end + 1`; the last line
/// has `end` equal to the document length.  `data` is the line's cached
/// layout slot, `None` until a layout is computed and reset to `None` when
/// the line is edited.
pub struct Line<D> {
    pub start: usize,
    pub end: usize,
    pub data: D,
}

/// A line span in the abstract model, in mathematical integers.
pub struct LineSpan {
    pub start: int,
    pub end: int,
}

/// Abstract state of a [`LineGapBuffer`]: the document text, the line spans,
/// and the cached-layout slot of each line.
pub struct BufferModel<T> {
    pub text: Seq<char>,
    pub lines: Seq<LineSpan>,
    pub slots: Seq<Option<T>>,
}

/// Line `i` ends at a newline of `text` and line `i + 1` starts right past
/// it.
pub open spec fn line_adjacent(text: Seq<char>, lines: Seq<LineSpan>, i: int) -> bool {
    &&& lines[i].end < text.len()
    &&& text[lines[i].end] == '\n'
    &&& lines[i + 1].start == lines[i].end + 1
}

/// The line records partition `[0, text.len()]`: see the module doc.
pub open spec fn wf_lines(text: Seq<char>, lines: Seq<LineSpan>) -> bool {
    &&& lines.len() >= 1
    &&& lines[0].start == 0
    &&& lines[lines.len() - 1].end == text.len()
    &&& forall|i: int|
        0 <= i < lines.len() ==> 0 <= (#[trigger] lines[i]).start <= lines[i].end <= text.len()
    &&& forall|i: int| 0 <= i < lines.len() - 1 ==> #[trigger] line_adjacent(text, lines, i)
    &&& forall|i: int, p: int|
        0 <= i < lines.len() && lines[i].start <= p < (#[trigger] lines[i]).end ==> #[trigger] text[p]
            != '\n'
}

/// The text after replacing `[start, end)` with `new`.
pub open spec fn splice(text: Seq<char>, start: int, end: int, new: Seq<char>) -> Seq<char> {
    text.subrange(0, start) + new + text.subrange(end, text.len() as int)
}

/// The round-trip law: replacing the whole document by `new` — what
/// `replace_slice(0, len, new)` does to the text — leaves exactly `new`, so
/// reading it all back with `slice_string(0, new.len())` returns `new`.
pub proof fn lemma_replace_all_round_trip(text: Seq<char>, new: Seq<char>)
    ensures
        splice(text, 0, text.len() as int, new) =~= new,
{
}

/// The index of the line whose span contains position `p`.
pub open spec fn line_index_of(lines: Seq<LineSpan>, p: int) -> int {
    choose|i: int| 0 <= i < lines.len() && (#[trigger] lines[i]).start <= p <= lines[i].end
}

/// Lines of a well-formed partition are ordered: an earlier line ends before
/// a later one starts.
pub proof fn lemma_line_order(text: Seq<char>, lines: Seq<LineSpan>, i: int, j: int)
    requires
        wf_lines(text, lines),
        0 <= i <= j < lines.len(),
    ensures
        lines[i].start <= lines[j].start,
        lines[i].end <= lines[j].end,
        i < j ==> lines[i].end < lines[j].start,
    decreases j - i,
{
    if i < j {
        lemma_line_order(text, lines, i, j - 1);
        assert(line_adjacent(text, lines, j - 1));
    }
}

/// Each line starts at or after its own index; hence a document of length
/// `n` has at most `n + 1` lines.
pub proof fn lemma_line_start_ge_index(text: Seq<char>, lines: Seq<LineSpan>, i: int)
    requires
        wf_lines(text, lines),
        0 <= i < lines.len(),
    ensures
        lines[i].start >= i,
    decreases i,
{
    if i > 0 {
        lemma_line_start_ge_index(text, lines, i - 1);
        assert(line_adjacent(text, lines, i - 1));
    }
}

/// Every position in `[0, text.len()]` lies on some line at or after `k`,
/// provided line `k` starts at or before it.
proof fn lemma_partition_covers_from(text: Seq<char>, lines: Seq<LineSpan>, p: int, k: int)
    requires
        wf_lines(text, lines),
        0 <= k < lines.len(),
        lines[k].start <= p <= text.len(),
    ensures
        exists|i: int| k <= i < lines.len() && (#[trigger] lines[i]).start <= p <= lines[i].end,
    decreases lines.len() - k,
{
    if p <= lines[k].end {
        assert(lines[k].start <= p <= lines[k].end);
    } else {
        assert(k < lines.len() - 1) by {
            assert(lines[lines.len() - 1].end == text.len());
            lemma_line_order(text, lines, k, lines.len() - 1);
        }
        assert(line_adjacent(text, lines, k));
        lemma_partition_covers_from(text, lines, p, k + 1);
    }
}

/// The partition invariant: every position in `[0, text.len()]` lies on
/// exactly one line.
pub proof fn lemma_partition_covers(text: Seq<char>, lines: Seq<LineSpan>, p: int)
    requires
        wf_lines(text, lines),
        0 <= p <= text.len(),
    ensures
        exists|i: int| 0 <= i < lines.len() && (#[trigger] lines[i]).start <= p <= lines[i].end,
        forall|i: int, j: int|
            (0 <= i < lines.len() && (#[trigger] lines[i]).start <= p <= lines[i].end && 0 <= j
                < lines.len() && (#[trigger] lines[j]).start <= p <= lines[j].end) ==> i == j,
        0 <= line_index_of(lines, p) < lines.len(),
        lines[line_index_of(lines, p)].start <= p <= lines[line_index_of(lines, p)].end,
{
    lemma_partition_covers_from(text, lines, p, 0);
    assert forall|i: int, j: int|
        (0 <= i < lines.len() && (#[trigger] lines[i]).start <= p <= lines[i].end && 0 <= j
            < lines.len() && (#[trigger] lines[j]).start <= p <= lines[j].end) implies i == j by {
        if i < j {
            lemma_line_order(text, lines, i, j);
        }
        if j < i {
            lemma_line_order(text, lines, j, i);
        }
    }
}

/// Makes the adjacency fact of line `k` available where `k` is not the last
/// line.
proof fn lemma_line_adjacent_at(text: Seq<char>, lines: Seq<LineSpan>, k: int)
    requires
        wf_lines(text, lines),
        0 <= k < lines.len(),
    ensures
        k < lines.len() - 1 ==> line_adjacent(text, lines, k),
{
}

/// For one text there is only one well-formed partition: the line spans are
/// pinned by `wf_lines`.
#[verifier::rlimit(60)]
proof fn lemma_wf_lines_unique_from(text: Seq<char>, l1: Seq<LineSpan>, l2: Seq<LineSpan>, k: int)
    requires
        wf_lines(text, l1),
        wf_lines(text, l2),
        0 <= k < l1.len(),
        k < l2.len(),
        l1[k].start == l2[k].start,
    ensures
        l1.len() == l2.len(),
        forall|j: int| k <= j < l1.len() ==> #[trigger] l1[j] == l2[j],
    decreases l1.len() - k,
{
    let e1 = l1[k].end;
    let e2 = l2[k].end;
    lemma_line_adjacent_at(text, l1, k);
    lemma_line_adjacent_at(text, l2, k);
    // The end of line k is pinned: the first '\n' at or after its start, or
    // the end of the text if there is none before it.
    assert(e1 == e2) by {
        if e1 < e2 {
            assert(e1 < text.len() && text[e1] == '\n') by {
                if k == l1.len() - 1 {
                    assert(e1 == text.len());
                    assert(e2 <= text.len());
                    assert(false);
                }
            }
            assert(l2[k].start <= e1 < e2);
            assert(text[e1] != '\n');
        }
        if e2 < e1 {
            assert(e2 < text.len() && text[e2] == '\n') by {
                if k == l2.len() - 1 {
                    assert(e2 == text.len());
                    assert(e1 <= text.len());
                    assert(false);
                }
            }
            assert(l1[k].start <= e2 < e1);
            assert(text[e2] != '\n');
        }
    }
    assert(l1[k] == l2[k]);
    if k == l1.len() - 1 {
        // Line k is the last of l1, so its end is the text length; l2 cannot
        // have a further line, whose end would lie beyond the text.
        assert(l2.len() == k + 1) by {
            if k < l2.len() - 1 {
                assert(l2[k].end < text.len());
                assert(l1[k].end == text.len());
            }
        }
    } else {
        assert(l2.len() - 1 > k) by {
            if k == l2.len() - 1 {
                assert(l2[k].end == text.len());
                assert(l1[k].end < text.len());
            }
        }
        lemma_wf_lines_unique_from(text, l1, l2, k + 1);
    }
}

/// Two well-formed partitions of the same text are equal.  This is what
/// lets `replace_slice` promise only the new text and `wf`: the line spans
/// are already pinned by them.
pub proof fn lemma_wf_lines_unique(text: Seq<char>, l1: Seq<LineSpan>, l2: Seq<LineSpan>)
    requires
        wf_lines(text, l1),
        wf_lines(text, l2),
    ensures
        l1 =~= l2,
{
    lemma_wf_lines_unique_from(text, l1, l2, 0);
}

/// The shape of the line sequence after an edit replaced `[start, end)` of
/// `otext` by a slice of length `end - start + delta`: the old lines before
/// the region are kept, the rescanned region is split on every newline, and
/// the old lines after the region are shifted by `delta`.  `ntext` is the
/// new text.
spec fn splice_shape(
    otext: Seq<char>,
    olines: Seq<LineSpan>,
    ntext: Seq<char>,
    nlines: Seq<LineSpan>,
    ll: int,
    lr: int,
    start: int,
    end: int,
    delta: int,
) -> bool {
    let sc = nlines.len() - (olines.len() - lr) - ll;
    let rl = olines[ll].start;
    let rr = olines[lr - 1].end + delta;
    &&& wf_lines(otext, olines)
    &&& 0 <= ll < lr <= olines.len()
    &&& olines[ll].start <= start <= olines[ll].end
    &&& olines[lr - 1].start <= end <= olines[lr - 1].end
    &&& start <= end
    &&& delta >= start - end
    &&& ntext.len() == otext.len() + delta
    &&& forall|p: int| 0 <= p < start ==> ntext[p] == otext[p]
    &&& forall|p: int| end + delta <= p < ntext.len() ==> ntext[p] == otext[p - delta]
    &&& sc >= 1
    &&& forall|i: int| 0 <= i < ll ==> nlines[i] == olines[i]
    &&& nlines[ll].start == rl
    &&& forall|k: int|
        ll <= k < ll + sc - 1 ==> nlines[k + 1].start == (#[trigger] nlines[k]).end + 1
    &&& forall|k: int| ll <= k < ll + sc ==> (#[trigger] nlines[k]).start <= nlines[k].end
    &&& forall|k: int|
        ll <= k < ll + sc - 1 ==> (#[trigger] nlines[k]).end < rr && ntext[nlines[k].end] == '\n'
    &&& nlines[ll + sc - 1].end == rr
    &&& forall|k: int, p: int|
        ll <= k < ll + sc && nlines[k].start <= p < (#[trigger] nlines[k]).end
            ==> #[trigger] ntext[p] != '\n'
    &&& forall|j: int|
        lr <= j < olines.len() ==> nlines[ll + sc + j - lr].start == (#[trigger] olines[j]).start
            + delta && nlines[ll + sc + j - lr].end == olines[j].end + delta
}

/// Under `splice_shape`, old lines before the edit lie wholly before `start`
/// and old lines after it start past `end`.
proof fn lemma_splice_sides(
    otext: Seq<char>,
    olines: Seq<LineSpan>,
    ntext: Seq<char>,
    nlines: Seq<LineSpan>,
    ll: int,
    lr: int,
    start: int,
    end: int,
    delta: int,
)
    requires
        splice_shape(otext, olines, ntext, nlines, ll, lr, start, end, delta),
    ensures
        forall|i: int| 0 <= i < ll ==> (#[trigger] olines[i]).end < olines[ll].start,
        forall|j: int| lr <= j < olines.len() ==> (#[trigger] olines[j]).start > end,
{
    assert forall|i: int| 0 <= i < ll implies (#[trigger] olines[i]).end < olines[ll].start by {
        lemma_line_order(otext, olines, i, ll);
    }
    assert forall|j: int| lr <= j < olines.len() implies (#[trigger] olines[j]).start > end by {
        lemma_line_order(otext, olines, lr, j);
        assert(line_adjacent(otext, olines, lr - 1));
    }
}

/// Under `splice_shape`, every span of the new line sequence is ordered and
/// inside the new text.
#[verifier::rlimit(100)]
proof fn lemma_splice_bounds(
    otext: Seq<char>,
    olines: Seq<LineSpan>,
    ntext: Seq<char>,
    nlines: Seq<LineSpan>,
    ll: int,
    lr: int,
    start: int,
    end: int,
    delta: int,
)
    requires
        splice_shape(otext, olines, ntext, nlines, ll, lr, start, end, delta),
    ensures
        forall|i: int|
            0 <= i < nlines.len() ==> 0 <= (#[trigger] nlines[i]).start <= nlines[i].end
                <= ntext.len(),
{
    let sc = nlines.len() - (olines.len() - lr) - ll;
    let rl = olines[ll].start;
    let rr = olines[lr - 1].end + delta;
    lemma_splice_sides(otext, olines, ntext, nlines, ll, lr, start, end, delta);
    assert forall|i: int|
        0 <= i < nlines.len() implies 0 <= (#[trigger] nlines[i]).start <= nlines[i].end
        <= ntext.len() by {
        if i < ll {
            assert(nlines[i] == olines[i]);
            assert(olines[i].end < rl <= start <= ntext.len());
        } else if i < ll + sc {
            lemma_scan_chain(nlines, ll, sc, rl, rr, i);
            assert(rr <= ntext.len());
        } else {
            let j = i - (ll + sc) + lr;
            assert(nlines[i].start == olines[j].start + delta && nlines[i].end == olines[j].end
                + delta);
            assert(olines[j].start > end);
        }
    }
}

/// Under `splice_shape`, adjacency holds for the kept prefix and the
/// scanned middle lines.
#[verifier::rlimit(100)]
proof fn lemma_splice_adjacent_low(
    otext: Seq<char>,
    olines: Seq<LineSpan>,
    ntext: Seq<char>,
    nlines: Seq<LineSpan>,
    ll: int,
    lr: int,
    start: int,
    end: int,
    delta: int,
)
    requires
        splice_shape(otext, olines, ntext, nlines, ll, lr, start, end, delta),
    ensures
        forall|i: int|
            0 <= i < nlines.len() - (olines.len() - lr) - 1 ==> (#[trigger] nlines[i]).end
                < ntext.len() && ntext[nlines[i].end] == '\n' && nlines[i + 1].start
                == nlines[i].end + 1,
{
    let sc = nlines.len() - (olines.len() - lr) - ll;
    let rl = olines[ll].start;
    let rr = olines[lr - 1].end + delta;
    lemma_splice_sides(otext, olines, ntext, nlines, ll, lr, start, end, delta);
    assert forall|i: int|
        0 <= i < ll + sc - 1 implies (#[trigger] nlines[i]).end < ntext.len()
        && ntext[nlines[i].end] == '\n' && nlines[i + 1].start == nlines[i].end + 1 by {
        if i < ll - 1 {
            assert(line_adjacent(otext, olines, i));
            assert(nlines[i] == olines[i]);
            assert(nlines[i + 1] == olines[i + 1]);
            assert(olines[i].end < rl <= start);
            assert(ntext[olines[i].end] == otext[olines[i].end]);
        } else if i == ll - 1 {
            assert(line_adjacent(otext, olines, ll - 1));
            assert(nlines[i] == olines[i]);
            assert(olines[i].end < rl <= start);
            assert(ntext[olines[i].end] == otext[olines[i].end]);
            assert(nlines[ll].start == rl);
        } else {
            assert(nlines[i].end < rr && ntext[nlines[i].end] == '\n');
            assert(nlines[i + 1].start == nlines[i].end + 1);
            lemma_scan_chain(nlines, ll, sc, rl, rr, i);
            assert(rr <= ntext.len());
        }
    }
}

/// Adjacency from the last scanned line into the kept suffix, proved from
/// just the facts about the suffix: the single bridge step from the last
/// scanned line to the first kept one, and the kept lines among themselves.
proof fn lemma_splice_adjacent_high(
    otext: Seq<char>,
    olines: Seq<LineSpan>,
    ntext: Seq<char>,
    nlines: Seq<LineSpan>,
    ll: int,
    lr: int,
    start: int,
    end: int,
    delta: int,
)
    requires
        wf_lines(otext, olines),
        0 <= ll < lr <= olines.len(),
        olines[lr - 1].start <= end <= olines[lr - 1].end,
        delta >= start - end,
        start <= end,
        ntext.len() == otext.len() + delta,
        forall|p: int| end + delta <= p < ntext.len() ==> ntext[p] == otext[p - delta],
        nlines.len() - (olines.len() - lr) - ll >= 1,
        nlines[nlines.len() - (olines.len() - lr) - 1].end == olines[lr - 1].end + delta,
        forall|j: int|
            lr <= j < olines.len() ==> nlines[nlines.len() - (olines.len() - lr) + j - lr].start
                == (#[trigger] olines[j]).start + delta && nlines[nlines.len() - (olines.len()
                - lr) + j - lr].end == olines[j].end + delta,
    ensures
        forall|i: int|
            nlines.len() - (olines.len() - lr) - 1 <= i < nlines.len() - 1
                ==> (#[trigger] nlines[i]).end < ntext.len() && ntext[nlines[i].end] == '\n'
                && nlines[i + 1].start == nlines[i].end + 1,
{
    let sc = nlines.len() - (olines.len() - lr) - ll;
    let rr = olines[lr - 1].end + delta;
    assert forall|i: int|
        ll + sc - 1 <= i < nlines.len() - 1 implies (#[trigger] nlines[i]).end < ntext.len()
        && ntext[nlines[i].end] == '\n' && nlines[i + 1].start == nlines[i].end + 1 by {
        if i == ll + sc - 1 {
            lemma_splice_bridge(otext, olines, ntext, nlines, ll, lr, start, end, delta);
        } else {
            lemma_splice_suffix_step(
                otext,
                olines,
                ntext,
                nlines,
                ll,
                lr,
                start,
                end,
                delta,
                i - (ll + sc) + lr,
            );
        }
    }
}

/// The bridge step: a kept line follows the last scanned one, so the old
/// text has a newline at the end of old line `lr - 1`, which sits at the end
/// of the rescanned region in the new text.
proof fn lemma_splice_bridge(
    otext: Seq<char>,
    olines: Seq<LineSpan>,
    ntext: Seq<char>,
    nlines: Seq<LineSpan>,
    ll: int,
    lr: int,
    start: int,
    end: int,
    delta: int,
)
    requires
        wf_lines(otext, olines),
        0 <= ll < lr < olines.len(),
        olines[lr - 1].start <= end <= olines[lr - 1].end,
        delta >= start - end,
        start <= end,
        ntext.len() == otext.len() + delta,
        forall|p: int| end + delta <= p < ntext.len() ==> ntext[p] == otext[p - delta],
        nlines.len() - (olines.len() - lr) - ll >= 1,
        nlines[nlines.len() - (olines.len() - lr) - 1].end == olines[lr - 1].end + delta,
        nlines[nlines.len() - (olines.len() - lr)].start == olines[lr].start + delta,
    ensures
        nlines[nlines.len() - (olines.len() - lr) - 1].end < ntext.len(),
        ntext[nlines[nlines.len() - (olines.len() - lr) - 1].end] == '\n',
        nlines[nlines.len() - (olines.len() - lr)].start == nlines[nlines.len() - (olines.len()
            - lr) - 1].end + 1,
{
    let rr = olines[lr - 1].end + delta;
    assert(line_adjacent(otext, olines, lr - 1));
    assert(olines[lr - 1].end >= end);
    assert(ntext[rr] == otext[rr - delta]);
}

/// One adjacency step inside the kept suffix: old line `j` and old line
/// `j + 1`, both shifted by `delta`.
proof fn lemma_splice_suffix_step(
    otext: Seq<char>,
    olines: Seq<LineSpan>,
    ntext: Seq<char>,
    nlines: Seq<LineSpan>,
    ll: int,
    lr: int,
    start: int,
    end: int,
    delta: int,
    j: int,
)
    requires
        wf_lines(otext, olines),
        0 <= ll < lr <= olines.len(),
        olines[lr - 1].start <= end <= olines[lr - 1].end,
        delta >= start - end,
        start <= end,
        ntext.len() == otext.len() + delta,
        forall|p: int| end + delta <= p < ntext.len() ==> ntext[p] == otext[p - delta],
        nlines.len() - (olines.len() - lr) - ll >= 1,
        lr <= j < olines.len() - 1,
        nlines[nlines.len() - (olines.len() - lr) + j - lr].end == olines[j].end + delta,
        nlines[nlines.len() - (olines.len() - lr) + j + 1 - lr].start == olines[j + 1].start
            + delta,
    ensures
        nlines[nlines.len() - (olines.len() - lr) + j - lr].end < ntext.len(),
        ntext[nlines[nlines.len() - (olines.len() - lr) + j - lr].end] == '\n',
        nlines[nlines.len() - (olines.len() - lr) + j + 1 - lr].start == nlines[nlines.len()
            - (olines.len() - lr) + j - lr].end + 1,
{
    assert(line_adjacent(otext, olines, j));
    assert(olines[j].end >= olines[j].start > end) by {
        lemma_line_order(otext, olines, lr - 1, j);
        assert(olines[lr - 1].end < olines[j].start);
    }
    assert(ntext[olines[j].end + delta] == otext[olines[j].end]);
}

/// Under `splice_shape`, each new line but the last ends at a newline of the
/// new text, and the following line starts one past it.
proof fn lemma_splice_adjacent(
    otext: Seq<char>,
    olines: Seq<LineSpan>,
    ntext: Seq<char>,
    nlines: Seq<LineSpan>,
    ll: int,
    lr: int,
    start: int,
    end: int,
    delta: int,
)
    requires
        splice_shape(otext, olines, ntext, nlines, ll, lr, start, end, delta),
    ensures
        forall|i: int|
            0 <= i < nlines.len() - 1 ==> (#[trigger] nlines[i]).end < ntext.len()
                && ntext[nlines[i].end] == '\n' && nlines[i + 1].start == nlines[i].end + 1,
{
    lemma_splice_adjacent_low(otext, olines, ntext, nlines, ll, lr, start, end, delta);
    lemma_splice_adjacent_high(otext, olines, ntext, nlines, ll, lr, start, end, delta);
}

/// Under `splice_shape`, no new line contains an interior newline.
#[verifier::rlimit(100)]
proof fn lemma_splice_interior(
    otext: Seq<char>,
    olines: Seq<LineSpan>,
    ntext: Seq<char>,
    nlines: Seq<LineSpan>,
    ll: int,
    lr: int,
    start: int,
    end: int,
    delta: int,
)
    requires
        splice_shape(otext, olines, ntext, nlines, ll, lr, start, end, delta),
    ensures
        forall|i: int, p: int|
            0 <= i < nlines.len() && nlines[i].start <= p < (#[trigger] nlines[i]).end
                ==> #[trigger] ntext[p] != '\n',
{
    let sc = nlines.len() - (olines.len() - lr) - ll;
    let rl = olines[ll].start;
    lemma_splice_sides(otext, olines, ntext, nlines, ll, lr, start, end, delta);
    assert forall|i: int, p: int|
        0 <= i < nlines.len() && nlines[i].start <= p < (#[trigger] nlines[i]).end
        implies #[trigger] ntext[p] != '\n' by {
        if i < ll {
            assert(nlines[i] == olines[i]);
            assert(p < rl <= start);
            assert(ntext[p] == otext[p]);
        } else if i < ll + sc {
        } else {
            let j = i - (ll + sc) + lr;
            assert(nlines[i].start == olines[j].start + delta && nlines[i].end == olines[j].end
                + delta);
            assert(olines[j].start > end);
            assert(p - delta >= olines[j].start > end);
            assert(ntext[p] == otext[p - delta]);
            assert(olines[j].start <= p - delta < olines[j].end);
        }
    }
}

/// Under `splice_shape`, the new line sequence is a well-formed partition of
/// the new text.
proof fn lemma_splice_lines(
    otext: Seq<char>,
    olines: Seq<LineSpan>,
    ntext: Seq<char>,
    nlines: Seq<LineSpan>,
    ll: int,
    lr: int,
    start: int,
    end: int,
    delta: int,
)
    requires
        splice_shape(otext, olines, ntext, nlines, ll, lr, start, end, delta),
    ensures
        wf_lines(ntext, nlines),
{
    let sc = nlines.len() - (olines.len() - lr) - ll;
    assert(nlines[0].start == 0) by {
        if ll == 0 {
            assert(nlines[0].start == olines[0].start);
        }
    }
    assert(nlines[nlines.len() - 1].end == ntext.len()) by {
        if lr < olines.len() {
            assert(nlines[ll + sc + (olines.len() - 1) - lr].end == olines[olines.len() - 1].end
                + delta);
        } else {
            assert(nlines.len() - 1 == ll + sc - 1);
        }
    }
    lemma_splice_bounds(otext, olines, ntext, nlines, ll, lr, start, end, delta);
    lemma_splice_adjacent(otext, olines, ntext, nlines, ll, lr, start, end, delta);
    lemma_splice_interior(otext, olines, ntext, nlines, ll, lr, start, end, delta);
}

/// The scanned spans chain upward from `rl`: each starts at or after `rl`
/// and ends at or before `rr`.
proof fn lemma_scan_chain(nlines: Seq<LineSpan>, ll: int, sc: int, rl: int, rr: int, k: int)
    requires
        sc >= 1,
        0 <= ll <= k < ll + sc <= nlines.len(),
        nlines[ll].start == rl,
        forall|q: int|
            ll <= q < ll + sc - 1 ==> nlines[q + 1].start == (#[trigger] nlines[q]).end + 1,
        forall|q: int| ll <= q < ll + sc ==> (#[trigger] nlines[q]).start <= nlines[q].end,
        forall|q: int| ll <= q < ll + sc - 1 ==> (#[trigger] nlines[q]).end < rr,
        nlines[ll + sc - 1].end == rr,
    ensures
        rl <= nlines[k].start,
        nlines[k].end <= rr,
    decreases k,
{
    if k > ll {
        lemma_scan_chain(nlines, ll, sc, rl, rr, k - 1);
        assert(nlines[k].start == nlines[k - 1].end + 1);
    }
    if k < ll + sc - 1 {
        assert(nlines[k].end < rr);
    }
}

/// A document split around a movable gap, chars and line records in lockstep.
/// `chars_right` is reversed; `lines_right` is reversed too and stores each
/// bound as its distance from the end of the document, so that records to the
/// right of the gap stay valid while the text before them changes length.
pub struct LineGapBuffer<T> {
    chars_left: Vec<char>,
    chars_right: Vec<char>,
    lines_left: Vec<Line<Option<T>>>,
    lines_right: Vec<Line<Option<T>>>,
}

impl<T> View for LineGapBuffer<T> {
    type V = BufferModel<T>;

    closed spec fn view(&self) -> BufferModel<T> {
        BufferModel {
            text: self.chars_left@ + self.chars_right@.reverse(),
            lines: Seq::new(
                self.lines_left@.len() + self.lines_right@.len(),
                |i: int|
                    if i < self.lines_left@.len() {
                        LineSpan {
                            start: self.lines_left@[i].start as int,
                            end: self.lines_left@[i].end as int,
                        }
                    } else {
                        let n = self.chars_left@.len() + self.chars_right@.len();
                        let j = self.lines_left@.len() + self.lines_right@.len() - 1 - i;
                        LineSpan {
                            start: n - self.lines_right@[j].start,
                            end: n - self.lines_right@[j].end,
                        }
                    },
            ),
            slots: Seq::new(
                self.lines_left@.len() + self.lines_right@.len(),
                |i: int|
                    if i < self.lines_left@.len() {
                        self.lines_left@[i].data
                    } else {
                        let j = self.lines_left@.len() + self.lines_right@.len() - 1 - i;
                        self.lines_right@[j].data
                    },
            ),
        }
    }
}

impl<T> LineGapBuffer<T> {
    /// Representation invariant of the gap encoding itself: everything the
    /// executable code needs so its `usize` arithmetic cannot underflow or
    /// overflow.
    pub closed spec fn rep_ok(&self) -> bool {
        let n = self.chars_left@.len() + self.chars_right@.len();
        &&& n <= usize::MAX
        &&& self.lines_left@.len() + self.lines_right@.len() <= usize::MAX
        &&& forall|j: int|
            0 <= j < self.lines_right@.len() ==> (#[trigger] self.lines_right@[j]).end
                <= self.lines_right@[j].start <= n
    }

    /// The buffer is well formed: the gap encoding is consistent, everything
    /// fits the machine, and the line records partition the text.
    pub open spec fn wf(&self) -> bool {
        &&& self.rep_ok()
        &&& self@.text.len() <= usize::MAX
        &&& self@.lines.len() <= usize::MAX
        &&& self@.slots.len() == self@.lines.len()
        &&& wf_lines(self@.text, self@.lines)
    }

    /// An empty document: no characters and one empty line.
    pub fn new() -> (r: Self)
        ensures
            r.wf(),
            r@.text =~= Seq::<char>::empty(),
            r@.lines =~= seq![LineSpan { start: 0, end: 0 }],
            r@.slots =~= seq![Option::<T>::None],
    {
        let r = Self {
            chars_left: Vec::new(),
            chars_right: Vec::new(),
            lines_left: vec![Line { start: 0, end: 0, data: Option::<T>::None }],
            lines_right: Vec::new(),
        };
        proof {
            assert(r@.text =~= Seq::<char>::empty());
            assert(r@.lines =~= seq![LineSpan { start: 0, end: 0 }]);
            assert(r@.slots =~= seq![Option::<T>::None]);
        }
        r
    }

    /// Number of characters in the document.
    pub fn len(&self) -> (r: usize)
        requires
            self@.text.len() <= usize::MAX,
        ensures
            r == self@.text.len(),
    {
        self.chars_left.len() + self.chars_right.len()
    }

    /// Number of lines; at least 1, even for an empty document.
    pub fn num_lines(&self) -> (r: usize)
        requires
            self.wf(),
        ensures
            r == self@.lines.len(),
            r >= 1,
    {
        self.lines_left.len() + self.lines_right.len()
    }

    /// The character at `pos`.
    pub fn get_char(&self, pos: usize) -> (r: char)
        requires
            self@.text.len() <= usize::MAX,
            pos < self@.text.len(),
        ensures
            r == self@.text[pos as int],
    {
        if pos < self.chars_left.len() {
            self.chars_left[pos]
        } else {
            let r = self.chars_right[self.len() - 1 - pos];
            proof {
                assert(self@.text[pos as int] == self.chars_right@.reverse()[pos
                    - self.chars_left@.len()]);
            }
            r
        }
    }

    /// The characters in `[start, end)`, as a vector.
    pub fn slice_chars(&self, start: usize, end: usize) -> (r: Vec<char>)
        requires
            self.wf(),
            start <= end <= self@.text.len(),
        ensures
            r@ == self@.text.subrange(start as int, end as int),
    {
        let mut r: Vec<char> = Vec::new();
        let mut i = start;
        while i < end
            invariant
                self.wf(),
                start <= i <= end <= self@.text.len(),
                r@ =~= self@.text.subrange(start as int, i as int),
            decreases end - i,
        {
            r.push(self.get_char(i));
            proof {
                assert(self@.text.subrange(start as int, i + 1) =~= self@.text.subrange(
                    start as int,
                    i as int,
                ).push(self@.text[i as int]));
            }
            i += 1;
        }
        r
    }

    /// The characters in `[start, end)`, as a string.
    pub fn slice_string(&self, start: usize, end: usize) -> (r: String)
        requires
            self.wf(),
            start <= end <= self@.text.len(),
        ensures
            r@ == self@.text.subrange(start as int, end as int),
    {
        let mut r = String::new();
        let mut i = start;
        while i < end
            invariant
                self.wf(),
                start <= i <= end <= self@.text.len(),
                r@ =~= self@.text.subrange(start as int, i as int),
            decreases end - i,
        {
            crate::strutil::push_char(&mut r, self.get_char(i));
            proof {
                assert(self@.text.subrange(start as int, i + 1) =~= self@.text.subrange(
                    start as int,
                    i as int,
                ).push(self@.text[i as int]));
            }
            i += 1;
        }
        proof {
            assert(r@ == self@.text.subrange(start as int, end as int));
        }
        r
    }

    /// Whether the characters in `[start, end)` are exactly `s`.
    pub fn slice_eq(&self, start: usize, end: usize, s: &[char]) -> (r: bool)
        requires
            self.wf(),
            start <= end <= self@.text.len(),
        ensures
            r == (self@.text.subrange(start as int, end as int) == s@),
    {
        if end - start != s.len() {
            proof {
                assert(self@.text.subrange(start as int, end as int).len() == end - start);
            }
            return false;
        }
        let mut i = start;
        while i < end
            invariant
                self.wf(),
                start <= i <= end <= self@.text.len(),
                s@.len() == end - start,
                forall|k: int| 0 <= k < i - start ==> self@.text[start + k] == s@[k],
            decreases end - i,
        {
            if self.get_char(i) != s[i - start] {
                proof {
                    assert(self@.text.subrange(start as int, end as int)[i - start] != s@[i
                        - start]);
                }
                return false;
            }
            i += 1;
        }
        proof {
            assert(self@.text.subrange(start as int, end as int) =~= s@);
        }
        true
    }

    /// The line record at index `line_no`: its span and a reference to its
    /// cached-layout slot.
    pub fn get_line(&self, line_no: usize) -> (r: Line<&Option<T>>)
        requires
            self.wf(),
            line_no < self@.lines.len(),
        ensures
            r.start as int == self@.lines[line_no as int].start,
            r.end as int == self@.lines[line_no as int].end,
            *r.data == self@.slots[line_no as int],
    {
        let n = self.len();
        let num_lines = self.num_lines();
        if line_no < self.lines_left.len() {
            let line = &self.lines_left[line_no];
            Line { start: line.start, end: line.end, data: &line.data }
        } else {
            let line = &self.lines_right[num_lines - 1 - line_no];
            Line { start: n - line.start, end: n - line.end, data: &line.data }
        }
    }

    /// Replace the cached-layout slot of line `line_no`; the text and the
    /// line spans are untouched.
    pub fn set_line_data(&mut self, line_no: usize, data: Option<T>)
        requires
            old(self).wf(),
            line_no < old(self)@.lines.len(),
        ensures
            final(self)@.text == old(self)@.text,
            final(self)@.lines == old(self)@.lines,
            final(self)@.slots == old(self)@.slots.update(line_no as int, data),
            final(self).wf(),
    {
        let num_lines = self.num_lines();
        if line_no < self.lines_left.len() {
            let slot = &mut self.lines_left[line_no].data;
            *slot = data;
        } else {
            let slot = &mut self.lines_right[num_lines - 1 - line_no].data;
            *slot = data;
        }
        proof {
            assert(self@.text =~= old(self)@.text);
            assert(self@.lines =~= old(self)@.lines);
            assert(self@.slots =~= old(self)@.slots.update(line_no as int, data));
        }
    }

    /// Binary search for the unique line whose span contains `pos` (a
    /// position equal to a line's `end` belongs to that line; `pos == len`
    /// gives the last line).
    pub fn find_line(&self, pos: usize) -> (r: usize)
        requires
            self.wf(),
            pos <= self@.text.len(),
        ensures
            r < self@.lines.len(),
            self@.lines[r as int].start <= pos as int <= self@.lines[r as int].end,
    {
        let mut left: usize = 0;
        let mut right: usize = self.num_lines();
        while right - left > 1
            invariant
                self.wf(),
                pos <= self@.text.len(),
                0 <= left < right <= self@.lines.len(),
                self@.lines[left as int].start <= pos as int,
                right < self@.lines.len() ==> (pos as int) < self@.lines[right as int].start,
            decreases right - left,
        {
            let mid = left + (right - left) / 2;
            if pos < self.get_line(mid).start {
                right = mid;
            } else {
                left = mid;
            }
        }
        proof {
            if left + 1 < self@.lines.len() {
                assert(line_adjacent(self@.text, self@.lines, left as int));
            }
        }
        left
    }

    /// Position of the character gap: how many characters sit in the left
    /// store.
    spec fn char_gap(&self) -> int {
        self.chars_left@.len() as int
    }

    /// Position of the line gap: how many line records sit in the left store.
    spec fn line_gap(&self) -> int {
        self.lines_left@.len() as int
    }

    /// Relocate the character gap to `pos` without changing the document.
    fn move_char_gap(&mut self, pos: usize)
        requires
            old(self).wf(),
            pos <= old(self)@.text.len(),
        ensures
            final(self)@ == old(self)@,
            final(self).wf(),
            final(self).char_gap() == pos as int,
            final(self).line_gap() == old(self).line_gap(),
    {
        while self.chars_left.len() > pos
            invariant
                old(self).wf(),
                pos <= old(self)@.text.len(),
                self@.text == old(self)@.text,
                self@.lines == old(self)@.lines,
                self@.slots == old(self)@.slots,
                self.lines_left@ == old(self).lines_left@,
                self.lines_right@ == old(self).lines_right@,
            decreases self.chars_left@.len(),
        {
            let c = self.chars_left.pop().unwrap();
            self.chars_right.push(c);
            proof {
                assert(self@.text =~= old(self)@.text);
                assert(self@.lines =~= old(self)@.lines);
                assert(self@.slots =~= old(self)@.slots);
            }
        }
        while self.chars_left.len() < pos
            invariant
                old(self).wf(),
                pos <= old(self)@.text.len(),
                self.chars_left@.len() <= pos,
                self@.text == old(self)@.text,
                self@.lines == old(self)@.lines,
                self@.slots == old(self)@.slots,
                self.lines_left@ == old(self).lines_left@,
                self.lines_right@ == old(self).lines_right@,
            decreases pos - self.chars_left@.len(),
        {
            let c = self.chars_right.pop().unwrap();
            self.chars_left.push(c);
            proof {
                assert(self@.text =~= old(self)@.text);
                assert(self@.lines =~= old(self)@.lines);
                assert(self@.slots =~= old(self)@.slots);
            }
        }
    }

    /// Relocate the line gap to `pos` without changing the document.  A
    /// record crossing the gap has its bounds flipped between "distance from
    /// the start" and "distance from the end".
    #[verifier::rlimit(100)]
    fn move_line_gap(&mut self, pos: usize)
        requires
            old(self).wf(),
            pos <= old(self)@.lines.len(),
        ensures
            final(self)@ == old(self)@,
            final(self).wf(),
            final(self).line_gap() == pos as int,
            final(self).char_gap() == old(self).char_gap(),
    {
        let n = self.len();
        while self.lines_left.len() > pos
            invariant
                old(self).wf(),
                pos <= old(self)@.lines.len(),
                n == old(self)@.text.len(),
                self.rep_ok(),
                self@.text == old(self)@.text,
                self@.lines == old(self)@.lines,
                self@.slots == old(self)@.slots,
                self.chars_left@ == old(self).chars_left@,
                self.chars_right@ == old(self).chars_right@,
            decreases self.lines_left@.len(),
        {
            proof {
                let i = self.lines_left@.len() - 1;
                assert(self@.lines[i].start == self.lines_left@[i].start as int);
                assert(0 <= self@.lines[i].start <= self@.lines[i].end <= self@.text.len());
            }
            let mut line = self.lines_left.pop().unwrap();
            line.start = n - line.start;
            line.end = n - line.end;
            self.lines_right.push(line);
            proof {
                assert(self@.text =~= old(self)@.text);
                assert forall|ii: int|
                    0 <= ii < self@.lines.len() implies self@.lines[ii] == old(self)@.lines[ii]
                    && self@.slots[ii] == old(self)@.slots[ii] by {
                    if ii == self.lines_left@.len() {
                        assert(self.lines_right@.last() == line);
                    }
                }
                assert(self@.lines =~= old(self)@.lines);
                assert(self@.slots =~= old(self)@.slots);
            }
        }
        while self.lines_left.len() < pos
            invariant
                old(self).wf(),
                pos <= old(self)@.lines.len(),
                n == old(self)@.text.len(),
                self.lines_left@.len() <= pos,
                self.rep_ok(),
                self@.text == old(self)@.text,
                self@.lines == old(self)@.lines,
                self@.slots == old(self)@.slots,
                self.chars_left@ == old(self).chars_left@,
                self.chars_right@ == old(self).chars_right@,
            decreases pos - self.lines_left@.len(),
        {
            let mut line = self.lines_right.pop().unwrap();
            line.start = n - line.start;
            line.end = n - line.end;
            self.lines_left.push(line);
            proof {
                assert(self@.text =~= old(self)@.text);
                assert forall|ii: int|
                    0 <= ii < self@.lines.len() implies self@.lines[ii] == old(self)@.lines[ii]
                    && self@.slots[ii] == old(self)@.slots[ii] by {
                    if ii == self.lines_left@.len() - 1 {
                        assert(self.lines_left@.last() == line);
                    }
                }
                assert(self@.lines =~= old(self)@.lines);
                assert(self@.slots =~= old(self)@.slots);
            }
        }
    }

    /// The core mutation: replace the characters in `[start, end)` by
    /// `new_slice`.  Both gaps are relocated to the edit, the affected line
    /// records are dropped, and the region from the start of the first
    /// affected line to the recomputed right edge is rescanned, splitting on
    /// every newline.  Lines before the edit keep their spans and cached
    /// slots; lines after it are shifted by the change in length and keep
    /// their slots; rescanned lines get an empty slot.  Cost is proportional
    /// to the gap relocation distance plus the rescanned region, not to the
    /// document length.
    #[verifier::rlimit(100)]
    #[verifier::loop_isolation(false)]
    pub fn replace_slice(&mut self, start: usize, end: usize, new_slice: &[char])
        requires
            old(self).wf(),
            start <= end <= old(self)@.text.len(),
            old(self)@.text.len() - (end - start) + new_slice@.len() < usize::MAX,
        ensures
            final(self).wf(),
            final(self)@.text == splice(old(self)@.text, start as int, end as int, new_slice@),
            final(self)@.lines.len() == final(self)@.slots.len(),
            ({
                let ll = line_index_of(old(self)@.lines, start as int);
                let lr = line_index_of(old(self)@.lines, end as int) + 1;
                let delta = new_slice@.len() - (end - start);
                let olen = old(self)@.lines.len();
                let flen = final(self)@.lines.len();
                &&& flen >= ll + 1 + olen - lr
                &&& forall|i: int|
                    0 <= i < ll ==> final(self)@.lines[i] == old(self)@.lines[i]
                        && final(self)@.slots[i] == old(self)@.slots[i]
                &&& forall|j: int|
                    lr <= j < olen ==> final(self)@.lines[flen - (olen - j)].start
                        == (#[trigger] old(self)@.lines[j]).start + delta
                        && final(self)@.lines[flen - (olen - j)].end == old(self)@.lines[j].end
                        + delta && final(self)@.slots[flen - (olen - j)] == old(self)@.slots[j]
                &&& forall|k: int| ll <= k < flen - (olen - lr) ==> final(self)@.slots[k] is None
            }),
    {
        let ghost otext = self@.text;
        let ghost olines = self@.lines;
        let ghost oslots = self@.slots;
        proof {
            lemma_partition_covers(otext, olines, start as int);
            lemma_partition_covers(otext, olines, end as int);
        }

        let line_left = self.find_line(start);
        let line_right = self.find_line(end) + 1;
        let ghost ll = line_left as int;
        let ghost lr = line_right as int;
        proof {
            assert(ll == line_index_of(olines, start as int));
            assert(lr - 1 == line_index_of(olines, end as int));
            if lr - 1 < ll {
                lemma_line_order(otext, olines, lr - 1, ll);
                assert(false);
            }
        }

        let recompute_left = self.get_line(line_left).start;
        let recompute_right = self.get_line(line_right - 1).end - (end - start) + new_slice.len();
        let ghost rl = recompute_left as int;
        let ghost rr = recompute_right as int;
        let ghost delta = new_slice@.len() - (end - start);
        let ghost ntext = splice(otext, start as int, end as int, new_slice@);

        self.move_line_gap(line_left);
        self.move_char_gap(start);
        proof {
            assert(self.chars_left@ =~= otext.subrange(0, start as int));
            assert(self.chars_right@ =~= otext.subrange(
                start as int,
                otext.len() as int,
            ).reverse());
            assert(forall|i: int|
                0 <= i < ll ==> (#[trigger] self.lines_left@[i]).start as int == olines[i].start
                    && self.lines_left@[i].end as int == olines[i].end && self.lines_left@[i].data
                    == oslots[i]);
            assert(forall|jj: int|
                0 <= jj < self.lines_right@.len() ==> {
                    let v = olines.len() - 1 - jj;
                    (#[trigger] self.lines_right@[jj]).start as int == otext.len()
                        - olines[v].start && self.lines_right@[jj].end as int == otext.len()
                        - olines[v].end && self.lines_right@[jj].data == oslots[v]
                });
        }

        let remove_lines = line_right - line_left;
        let keep_right = self.lines_right.len() - remove_lines;
        self.lines_right.truncate(keep_right);
        let ghost kept_right = self.lines_right@;

        let remove_chars = end - start;
        let keep_chars = self.chars_right.len() - remove_chars;
        self.chars_right.truncate(keep_chars);
        proof {
            assert(self.chars_right@ =~= otext.subrange(
                end as int,
                otext.len() as int,
            ).reverse());
        }
        let ghost right_chars = self.chars_right@;
        let ghost left_base = otext.subrange(0, start as int);

        let mut k: usize = 0;
        while k < new_slice.len()
            invariant
                k <= new_slice@.len(),
                self.chars_left@ == left_base + new_slice@.subrange(0, k as int),
                self.chars_right@ == right_chars,
                self.lines_right@ == kept_right,
                self.lines_left@.len() == ll,
                forall|i: int|
                    0 <= i < ll ==> (#[trigger] self.lines_left@[i]).start as int
                        == olines[i].start && self.lines_left@[i].end as int == olines[i].end
                        && self.lines_left@[i].data == oslots[i],
            decreases new_slice@.len() - k,
        {
            self.chars_left.push(new_slice[k]);
            proof {
                assert(self.chars_left@ =~= left_base + new_slice@.subrange(0, k + 1));
            }
            k += 1;
        }
        proof {
            assert(self.chars_left@ =~= left_base + new_slice@);
            assert(self@.text =~= ntext);
            assert(ntext.len() == otext.len() + delta);
            assert(rr == olines[lr - 1].end + delta);
            assert(forall|p: int| 0 <= p < start ==> ntext[p] == otext[p]);
            assert(forall|p: int|
                end + delta <= p < ntext.len() ==> ntext[p] == otext[p - delta]);
            assert(rl <= start as int <= end + delta <= rr <= ntext.len());
        }
        let ghost base = self.lines_left@;

        let mut t = recompute_left;
        let mut i = recompute_left;
        while i < recompute_right
            invariant
                self.chars_left@ == left_base + new_slice@,
                self.chars_right@ == right_chars,
                self.lines_right@ == kept_right,
                self@.text == ntext,
                ntext.len() < usize::MAX,
                rl <= t as int <= i as int <= rr,
                rr <= ntext.len(),
                self.lines_left@.len() >= ll,
                self.lines_left@.subrange(0, ll) == base,
                self.lines_left@.len() == ll ==> t as int == rl,
                self.lines_left@.len() > ll ==> self.lines_left@[self.lines_left@.len()
                    - 1].end as int + 1 == t as int,
                self.lines_left@.len() > ll ==> self.lines_left@[ll].start as int == rl,
                forall|q: int|
                    ll <= q < self.lines_left@.len() - 1 ==> self.lines_left@[q + 1].start as int
                        == (#[trigger] self.lines_left@[q]).end as int + 1,
                forall|q: int|
                    ll <= q < self.lines_left@.len() ==> (#[trigger] self.lines_left@[q]).start
                        <= self.lines_left@[q].end && (self.lines_left@[q].end as int) < t as int
                        && ntext[self.lines_left@[q].end as int] == '\n'
                        && self.lines_left@[q].data is None,
                forall|q: int, p: int|
                    ll <= q < self.lines_left@.len() && self.lines_left@[q].start <= p
                        < (#[trigger] self.lines_left@[q]).end as int ==> #[trigger] ntext[p]
                        != '\n',
                forall|p: int| t as int <= p < i as int ==> ntext[p] != '\n',
            decreases recompute_right - i,
        {
            if self.get_char(i) == '\n' {
                self.lines_left.push(Line { start: t, end: i, data: Option::None });
                proof {
                    assert(self.lines_left@.subrange(0, ll) =~= base);
                }
                t = i + 1;
            }
            i += 1;
        }
        self.lines_left.push(Line { start: t, end: recompute_right, data: Option::None });
        proof {
            assert(self.lines_left@.subrange(0, ll) =~= base);
            let nlines = self@.lines;
            let nslots = self@.slots;
            let sc = self.lines_left@.len() - ll;
            let total = self.lines_left@.len() + kept_right.len();
            assert(nlines.len() == total);
            // The final view, region by region.
            assert(forall|q: int|
                0 <= q < self.lines_left@.len() ==> (#[trigger] nlines[q]).start
                    == self.lines_left@[q].start as int && nlines[q].end
                    == self.lines_left@[q].end as int && nslots[q] == self.lines_left@[q].data);
            assert forall|i2: int|
                0 <= i2 < ll implies nlines[i2] == olines[i2] && nslots[i2] == oslots[i2] by {
                assert(self.lines_left@[i2] == self.lines_left@.subrange(0, ll)[i2]);
                assert(base[i2].start as int == olines[i2].start);
                assert(base[i2].end as int == olines[i2].end);
                assert(base[i2].data == oslots[i2]);
            }
            assert forall|j: int| lr <= j < olines.len() implies nlines[total - (olines.len() - j)].start
                == (#[trigger] olines[j]).start + delta && nlines[total - (olines.len()
                - j)].end == olines[j].end + delta && nslots[total - (olines.len() - j)]
                == oslots[j] by {
                let jj = olines.len() - 1 - j;
                assert(kept_right[jj] == self.lines_right@[jj]);
                assert(self.lines_right@[jj].start as int == otext.len() - olines[j].start);
                assert(nlines[total - (olines.len() - j)].start == ntext.len()
                    - self.lines_right@[jj].start);
            }
            assert(splice_shape(otext, olines, ntext, nlines, ll, lr, start as int, end as int, delta)) by {
                assert(nlines[ll].start == rl);
                assert(nlines[ll + sc - 1].end == rr);
                assert(forall|q: int|
                    ll <= q < ll + sc - 1 ==> (#[trigger] nlines[q]).end < rr
                        && ntext[nlines[q].end] == '\n');
                assert(forall|q: int|
                    ll <= q < ll + sc - 1 ==> nlines[q + 1].start == (#[trigger] nlines[q]).end
                        + 1);
                assert(forall|q: int|
                    ll <= q < ll + sc ==> (#[trigger] nlines[q]).start <= nlines[q].end);
                assert(forall|q: int, p: int|
                    ll <= q < ll + sc && nlines[q].start <= p < (#[trigger] nlines[q]).end
                        ==> #[trigger] ntext[p] != '\n');
            }
            lemma_splice_lines(otext, olines, ntext, nlines, ll, lr, start as int, end as int, delta);
            // Machine bounds for the rebuilt store.
            assert(self@.lines.len() <= ntext.len() + 1) by {
                lemma_line_start_ge_index(ntext, nlines, nlines.len() - 1);
            }
            assert(self.rep_ok()) by {
                lemma_splice_sides(otext, olines, ntext, nlines, ll, lr, start as int, end as int, delta);
                assert(forall|jj: int|
                    0 <= jj < self.lines_right@.len() ==> (#[trigger] self.lines_right@[jj]).end
                        <= self.lines_right@[jj].start <= otext.len() - olines[olines.len() - 1
                        - jj].start + olines[olines.len() - 1 - jj].start);
            }
        }
    }
}

} // verus!
