//! Assembling one output line from rendered cells, a head, a separator
//! between cells, a tail, and a terminating newline.

use vstd::prelude::*;

use crate::text::{flat, Seg, SmartString};

verus! {

/// The cells joined with the separator between consecutive cells.
pub open spec fn join(cells: Seq<Seq<char>>, delim: Seq<char>) -> Seq<char>
    decreases cells.len(),
{
    if cells.len() == 0 {
        Seq::empty()
    } else if cells.len() == 1 {
        cells[0]
    } else {
        join(cells.drop_last(), delim) + delim + cells.last()
    }
}

/// One output line: head, joined cells, tail, newline.
pub open spec fn spec_line(
    cells: Seq<Seq<char>>,
    head: Seq<char>,
    delim: Seq<char>,
    tail: Seq<char>,
) -> Seq<char> {
    head + join(cells, delim) + tail + seq!['\n']
}

/// The printed text of each cell of a row.
pub open spec fn flats(row: Seq<SmartString>) -> Seq<Seq<char>> {
    row.map_values(|c: SmartString| flat(c@))
}

/// The combined length of all cells.
pub open spec fn cells_len(cells: Seq<Seq<char>>) -> int
    decreases cells.len(),
{
    if cells.len() == 0 {
        0
    } else {
        cells_len(cells.drop_last()) + cells.last().len()
    }
}

/// How long a joined row is: every cell plus one separator per gap.
pub proof fn lemma_join_len(cells: Seq<Seq<char>>, delim: Seq<char>)
    requires
        cells.len() >= 1,
    ensures
        join(cells, delim).len() == cells_len(cells) + (cells.len() - 1) * delim.len(),
    decreases cells.len(),
{
    if cells.len() == 1 {
        assert(cells.drop_last() =~= Seq::<Seq<char>>::empty());
        assert(cells_len(Seq::<Seq<char>>::empty()) == 0);
        assert(cells_len(cells) == cells[0].len());
    } else {
        lemma_join_len(cells.drop_last(), delim);
        assert((cells.len() - 2) * delim.len() + delim.len() == (cells.len() - 1) * delim.len())
            by (nonlinear_arith);
    }
}

/// With each cell as long as its column is wide, the cells together are as
/// long as the widths sum.
pub proof fn lemma_cells_len_pointwise(cells: Seq<Seq<char>>, ws: Seq<usize>)
    requires
        cells.len() == ws.len(),
        forall|c: int| 0 <= c < cells.len() ==> (#[trigger] cells[c]).len() == ws[c],
    ensures
        cells_len(cells) == crate::layout::widths_sum(ws),
    decreases cells.len(),
{
    if cells.len() > 0 {
        assert(forall|c: int|
            0 <= c < cells.len() - 1 ==> (#[trigger] cells.drop_last()[c]).len()
                == ws.drop_last()[c]);
        lemma_cells_len_pointwise(cells.drop_last(), ws.drop_last());
    }
}

/// Relies on String::push: appends the given character to the end of the
/// string, leaving everything before it unchanged.
#[verifier::external_body]
pub(crate) fn push_char(out: &mut String, ch: char)
    ensures
        final(out)@ == old(out)@.push(ch),
{
    out.push(ch);
}

impl SmartString {
    /// Write every run, visible and invisible alike, onto the end of `out`,
    /// in order and verbatim.
    pub fn append_to(&self, out: &mut String)
        ensures
            final(out)@ == old(out)@ + flat(self@),
    {
        let ghost base = old(out)@;
        let ghost m = self@;
        let mut i: usize = 0;
        proof {
            assert(m.take(0) =~= Seq::<Seg>::empty());
            assert(base + flat(m.take(0)) =~= base);
        }
        while i < self.fragments.len()
            invariant
                i <= self.fragments.len(),
                m == self@,
                out@ == base + flat(m.take(i as int)),
            decreases self.fragments.len() - i,
        {
            let frag = &self.fragments[i];
            let ghost mid = out@;
            let mut j: usize = 0;
            proof {
                assert(frag.text@.take(0) =~= Seq::<char>::empty());
                assert(mid + frag.text@.take(0) =~= mid);
            }
            while j < frag.text.len()
                invariant
                    j <= frag.text.len(),
                    out@ == mid + frag.text@.take(j as int),
                decreases frag.text.len() - j,
            {
                push_char(out, frag.text[j]);
                proof {
                    assert(mid + frag.text@.take(j as int).push(frag.text@[j as int]) =~= mid
                        + frag.text@.take(j + 1));
                }
                j = j + 1;
            }
            proof {
                assert(frag.text@.take(frag.text.len() as int) =~= frag.text@);
                assert(m.take(i + 1).drop_last() =~= m.take(i as int));
                assert(m.take(i + 1).last() == m[i as int]);
                assert(m[i as int].txt == frag.text@);
                assert(base + flat(m.take(i as int)) + frag.text@ =~= base + flat(m.take(i + 1)));
            }
            i = i + 1;
        }
        proof {
            assert(m.take(self.fragments.len() as int) =~= m);
        }
    }
}

} // verus!
