//! Column width arithmetic: summing, finding the widest column, and the
//! shrink pass that trims a table into its width budget.

use vstd::prelude::*;

verus! {

/// Characters spent on borders and separators for `n` columns: two border
/// glyphs and a pad on each side, and a three-character separator between
/// each pair of columns.
pub open spec fn spec_frame_padding(n: nat) -> int {
    3 * (n - 1) + 4
}

/// The sum of all column widths.
pub open spec fn widths_sum(ws: Seq<usize>) -> int
    decreases ws.len(),
{
    if ws.len() == 0 {
        0
    } else {
        widths_sum(ws.drop_last()) + ws.last()
    }
}

/// The largest column width, zero for no columns.
pub open spec fn widths_max(ws: Seq<usize>) -> usize
    decreases ws.len(),
{
    if ws.len() == 0 {
        0
    } else {
        let m = widths_max(ws.drop_last());
        if ws.last() >= m {
            ws.last()
        } else {
            m
        }
    }
}

/// The highest index holding the largest width: the column that the shrink
/// pass trims first.
pub open spec fn rightmost_max(ws: Seq<usize>) -> int
    decreases ws.len(),
{
    if ws.len() == 0 {
        -1
    } else if ws.last() == widths_max(ws) {
        ws.len() - 1
    } else {
        rightmost_max(ws.drop_last())
    }
}

/// A sum of widths is never negative.
pub proof fn lemma_widths_sum_nonneg(ws: Seq<usize>)
    ensures
        widths_sum(ws) >= 0,
    decreases ws.len(),
{
    if ws.len() > 0 {
        lemma_widths_sum_nonneg(ws.drop_last());
    }
}

/// Adding one more element extends the sum of a prefix.
pub proof fn lemma_widths_sum_take_succ(ws: Seq<usize>, i: int)
    requires
        0 <= i < ws.len(),
    ensures
        widths_sum(ws.take(i + 1)) == widths_sum(ws.take(i)) + ws[i],
{
    assert(ws.take(i + 1).drop_last() =~= ws.take(i));
}

/// A prefix never sums to more than the whole.
pub proof fn lemma_widths_sum_take_le(ws: Seq<usize>, i: int)
    requires
        0 <= i <= ws.len(),
    ensures
        widths_sum(ws.take(i)) <= widths_sum(ws),
    decreases ws.len() - i,
{
    if i == ws.len() {
        assert(ws.take(i) =~= ws);
    } else {
        lemma_widths_sum_take_succ(ws, i);
        lemma_widths_sum_take_le(ws, i + 1);
    }
}

/// Replacing one element moves the sum by the difference.
pub proof fn lemma_widths_sum_update(ws: Seq<usize>, i: int, v: usize)
    requires
        0 <= i < ws.len(),
    ensures
        widths_sum(ws.update(i, v)) == widths_sum(ws) - ws[i] + v,
    decreases ws.len(),
{
    if i == ws.len() - 1 {
        assert(ws.update(i, v).drop_last() =~= ws.drop_last());
    } else {
        assert(ws.update(i, v).drop_last() =~= ws.drop_last().update(i, v));
        lemma_widths_sum_update(ws.drop_last(), i, v);
    }
}

/// No element exceeds the maximum.
pub proof fn lemma_widths_max_ge(ws: Seq<usize>, i: int)
    requires
        0 <= i < ws.len(),
    ensures
        ws[i] <= widths_max(ws),
    decreases ws.len(),
{
    if i < ws.len() - 1 {
        lemma_widths_max_ge(ws.drop_last(), i);
    }
}

/// With every width zero, the sum is zero.
pub proof fn lemma_widths_max_zero(ws: Seq<usize>)
    requires
        widths_max(ws) == 0,
    ensures
        widths_sum(ws) == 0,
    decreases ws.len(),
{
    if ws.len() > 0 {
        lemma_widths_max_zero(ws.drop_last());
    }
}

/// Extending by one element takes the larger of maximum and newcomer.
pub proof fn lemma_widths_max_take_succ(ws: Seq<usize>, i: int)
    requires
        0 <= i < ws.len(),
    ensures
        widths_max(ws.take(i + 1)) == if ws[i] >= widths_max(ws.take(i)) {
            ws[i]
        } else {
            widths_max(ws.take(i))
        },
{
    assert(ws.take(i + 1).drop_last() =~= ws.take(i));
}

/// Where the rightmost widest column stands, what it holds, and that every
/// column to its right is strictly narrower.
pub proof fn lemma_rightmost_max_props(ws: Seq<usize>)
    requires
        ws.len() > 0,
    ensures
        0 <= rightmost_max(ws) < ws.len(),
        ws[rightmost_max(ws)] == widths_max(ws),
        forall|j: int| rightmost_max(ws) < j < ws.len() ==> ws[j] < widths_max(ws),
    decreases ws.len(),
{
    if ws.last() == widths_max(ws) {
    } else {
        assert(ws.len() > 1) by {
            if ws.len() == 1 {
                assert(ws.drop_last() =~= Seq::<usize>::empty());
                assert(widths_max(Seq::<usize>::empty()) == 0);
                assert(widths_max(ws) == ws.last());
            }
        }
        assert(widths_max(ws.drop_last()) == widths_max(ws));
        lemma_rightmost_max_props(ws.drop_last());
        lemma_widths_max_ge(ws, ws.len() - 1);
        assert(forall|j: int|
            rightmost_max(ws) < j < ws.len() - 1 ==> ws.drop_last()[j] == ws[j]);
    }
}

/// The width list after the shrink pass: while the widths plus the frame
/// overflow the budget and some width is positive, the rightmost widest
/// column loses one character.
pub open spec fn spec_shrink(ws: Seq<usize>, mw: usize) -> Seq<usize>
    decreases widths_sum(ws) as nat when widths_sum(ws) >= 0 via spec_shrink_decreases
{
    if ws.len() > 0 && widths_sum(ws) + spec_frame_padding(ws.len() as nat) > mw && widths_max(ws)
        > 0 {
        let r = rightmost_max(ws);
        spec_shrink(ws.update(r, (ws[r] - 1) as usize), mw)
    } else {
        ws
    }
}

#[via_fn]
proof fn spec_shrink_decreases(ws: Seq<usize>, mw: usize) {
    lemma_widths_sum_nonneg(ws);
    if ws.len() > 0 && widths_sum(ws) + spec_frame_padding(ws.len() as nat) > mw && widths_max(ws)
        > 0 {
        let r = rightmost_max(ws);
        lemma_rightmost_max_props(ws);
        lemma_widths_sum_update(ws, r, (ws[r] - 1) as usize);
        lemma_widths_sum_nonneg(ws.update(r, (ws[r] - 1) as usize));
    }
}

/// The shrink pass never changes how many columns there are.
pub proof fn lemma_shrink_len(ws: Seq<usize>, mw: usize)
    ensures
        spec_shrink(ws, mw).len() == ws.len(),
    decreases widths_sum(ws) as nat,
{
    lemma_widths_sum_nonneg(ws);
    if ws.len() > 0 && widths_sum(ws) + spec_frame_padding(ws.len() as nat) > mw && widths_max(ws)
        > 0 {
        let r = rightmost_max(ws);
        lemma_rightmost_max_props(ws);
        lemma_widths_sum_update(ws, r, (ws[r] - 1) as usize);
        lemma_widths_sum_nonneg(ws.update(r, (ws[r] - 1) as usize));
        lemma_shrink_len(ws.update(r, (ws[r] - 1) as usize), mw);
    }
}

/// After the shrink pass a table whose frame alone fits the budget fits it
/// entirely: the widths plus the frame stay within `mw`.
pub proof fn lemma_shrink_fits(ws: Seq<usize>, mw: usize)
    requires
        ws.len() > 0,
        spec_frame_padding(ws.len() as nat) <= mw,
    ensures
        widths_sum(spec_shrink(ws, mw)) + spec_frame_padding(ws.len() as nat) <= mw,
    decreases widths_sum(ws) as nat,
{
    lemma_widths_sum_nonneg(ws);
    if widths_sum(ws) + spec_frame_padding(ws.len() as nat) > mw {
        if widths_max(ws) == 0 {
            lemma_widths_max_zero(ws);
        } else {
            let r = rightmost_max(ws);
            lemma_rightmost_max_props(ws);
            lemma_widths_sum_update(ws, r, (ws[r] - 1) as usize);
            lemma_widths_sum_nonneg(ws.update(r, (ws[r] - 1) as usize));
            lemma_shrink_fits(ws.update(r, (ws[r] - 1) as usize), mw);
            lemma_shrink_len(ws.update(r, (ws[r] - 1) as usize), mw);
        }
    }
}

/// Whether the widths plus a frame cost exceed the budget, computed without
/// overflowing even when the widths sum past the machine word.
pub fn widths_over_budget(ws: &Vec<usize>, mw: usize, pad: usize) -> (r: bool)
    requires
        pad <= mw,
    ensures
        r == (widths_sum(ws@) + pad > mw),
{
    let ghost m = ws@;
    let mut acc: usize = 0;
    let mut i: usize = 0;
    while i < ws.len()
        invariant
            i <= ws.len(),
            m == ws@,
            pad <= mw,
            acc == widths_sum(m.take(i as int)),
        decreases ws.len() - i,
    {
        proof {
            lemma_widths_sum_take_succ(m, i as int);
        }
        if ws[i] > usize::MAX - acc {
            proof {
                lemma_widths_sum_take_le(m, i + 1);
            }
            return true;
        }
        acc = acc + ws[i];
        i = i + 1;
    }
    proof {
        assert(m.take(ws.len() as int) =~= m);
    }
    acc > mw - pad
}

/// The largest width in the list.
pub fn widest(ws: &Vec<usize>) -> (r: usize)
    requires
        ws@.len() > 0,
    ensures
        r == widths_max(ws@),
{
    let ghost m = ws@;
    let mut best: usize = 0;
    let mut i: usize = 0;
    while i < ws.len()
        invariant
            i <= ws.len(),
            m == ws@,
            best == widths_max(m.take(i as int)),
        decreases ws.len() - i,
    {
        proof {
            lemma_widths_max_take_succ(m, i as int);
        }
        if ws[i] >= best {
            best = ws[i];
        }
        i = i + 1;
    }
    proof {
        assert(m.take(ws.len() as int) =~= m);
    }
    best
}

/// The highest index holding the largest width.
pub fn widest_rightmost(ws: &Vec<usize>, m: usize) -> (r: usize)
    requires
        ws@.len() > 0,
        m == widths_max(ws@),
    ensures
        r == rightmost_max(ws@),
        r < ws@.len(),
        ws@[r as int] == m,
{
    let ghost model = ws@;
    proof {
        lemma_rightmost_max_props(model);
    }
    let mut j: usize = ws.len();
    while j > 0 && ws[j - 1] != m
        invariant
            j <= ws.len(),
            model == ws@,
            m == widths_max(model),
            rightmost_max(model) < j,
            forall|t: int| j <= t < model.len() ==> model[t] != m,
        decreases j,
    {
        proof {
            lemma_rightmost_max_props(model);
        }
        j = j - 1;
    }
    proof {
        lemma_rightmost_max_props(model);
        assert(j > 0);
        assert(model[j - 1] == m);
        assert(j - 1 == rightmost_max(model)) by {
            if rightmost_max(model) < j - 1 {
                assert(model[j - 1] < widths_max(model));
            }
        }
    }
    j - 1
}

} // verus!
