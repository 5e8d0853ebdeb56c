//! Table-level guarantees: the fitted widths honour the budget, lines come
//! out exactly as wide as the layout says, and the shrink pass trims columns
//! in one fixed order.

use vstd::prelude::*;

use crate::cell::{repeat_char, spec_cell};
use crate::frame::{cells_len, join, lemma_cells_len_pointwise, lemma_join_len, spec_line};
use crate::layout::{
    lemma_rightmost_max_props, lemma_shrink_fits, lemma_shrink_len, lemma_widths_sum_nonneg,
    lemma_widths_sum_update, rightmost_max, spec_frame_padding, spec_shrink, widths_max,
    widths_sum,
};
use crate::text::{
    flat, invis_parts, lemma_flat_is_vis_without_invis, scan, vis_len, vis_text, Seg,
};
use crate::cell::lemma_cell_parts;
use crate::{cell_at, max_row_len, Align, AsciiTable};

verus! {

/// For every table that can be laid out at all, the fitted column widths
/// together with the frame stay within the width budget.
pub proof fn lemma_width_budget(t: &AsciiTable, sg: Seq<Seq<Seq<Seg>>>)
    requires
        t.spec_valid_dims(sg.len(), max_row_len(sg)),
    ensures
        t.spec_widths(sg).len() == max_row_len(sg),
        widths_sum(t.spec_widths(sg)) + spec_frame_padding(max_row_len(sg)) <= t.max_width,
{
    let raw = t.spec_raw_widths(sg);
    lemma_shrink_len(raw, t.max_width);
    lemma_shrink_fits(raw, t.max_width);
}

/// Every border and divider line is exactly the widths sum plus the frame
/// cost, with its newline on top.
pub proof fn lemma_border_line_len(ws: Seq<usize>, l: char, m: char, r: char)
    requires
        ws.len() >= 1,
    ensures
        AsciiTable::spec_border(ws, l, m, r).len() == widths_sum(ws) + spec_frame_padding(
            ws.len() as nat,
        ) + 1,
{
    let cells = Seq::new(ws.len(), |c: int| repeat_char('─', ws[c] as nat));
    assert(forall|c: int| 0 <= c < cells.len() ==> (#[trigger] cells[c]).len() == ws[c]);
    lemma_cells_len_pointwise(cells, ws);
    lemma_join_len(cells, seq!['─', m, '─']);
    assert(seq!['─', m, '─'].len() == 3);
    assert(join(cells, seq!['─', m, '─']).len() == widths_sum(ws) + (ws.len() - 1) * 3);
    assert(AsciiTable::spec_border(ws, l, m, r) == seq![l, '─'] + join(cells, seq!['─', m, '─'])
        + seq!['─', r] + seq!['\n']);
}

/// A data line whose source cells are free of control sequences is exactly
/// as long as a border line: the widths sum, the frame cost, the newline.
pub proof fn lemma_row_line_len(t: &AsciiTable, sg: Seq<Seq<Seq<Seg>>>, r: int, ws: Seq<usize>)
    requires
        ws.len() >= 1,
        forall|c: int| 0 <= c < ws.len() ==> invis_parts(cell_at(sg, r, c)).len() == 0,
    ensures
        t.spec_row_line(sg, r, ws).len() == widths_sum(ws) + spec_frame_padding(ws.len() as nat)
            + 1,
{
    let cells = Seq::new(
        ws.len(),
        |c: int| flat(spec_cell(cell_at(sg, r, c), ws[c] as nat, ' ', t.spec_col_align(c))),
    );
    assert forall|c: int| 0 <= c < cells.len() implies (#[trigger] cells[c]).len() == ws[c] by {
        let rendered = spec_cell(cell_at(sg, r, c), ws[c] as nat, ' ', t.spec_col_align(c));
        lemma_cell_parts(cell_at(sg, r, c), ws[c] as nat, ' ', t.spec_col_align(c));
        lemma_flat_is_vis_without_invis(rendered);
    }
    lemma_cells_len_pointwise(cells, ws);
    lemma_join_len(cells, seq![' ', '│', ' ']);
    assert(seq![' ', '│', ' '].len() == 3);
    assert(join(cells, seq![' ', '│', ' ']).len() == widths_sum(ws) + (ws.len() - 1) * 3);
    assert(t.spec_row_line(sg, r, ws) == seq!['│', ' '] + join(cells, seq![' ', '│', ' '])
        + seq![' ', '│'] + seq!['\n']);
}

/// The shrink pass is deterministic in which column it trims: whenever the
/// widths and frame overflow the budget and a positive width remains, the
/// one column trimmed is the rightmost one holding the maximum width, and
/// every column right of it is strictly narrower.
pub proof fn lemma_shrink_deterministic(ws: Seq<usize>, mw: usize)
    requires
        ws.len() > 0,
        widths_sum(ws) + spec_frame_padding(ws.len() as nat) > mw,
        widths_max(ws) > 0,
    ensures
        ws[rightmost_max(ws)] == widths_max(ws),
        forall|j: int| rightmost_max(ws) < j < ws.len() ==> ws[j] < widths_max(ws),
        spec_shrink(ws, mw) == spec_shrink(
            ws.update(rightmost_max(ws), (ws[rightmost_max(ws)] - 1) as usize),
            mw,
        ),
{
    lemma_widths_sum_nonneg(ws);
    lemma_rightmost_max_props(ws);
    let trimmed = ws.update(rightmost_max(ws), (ws[rightmost_max(ws)] - 1) as usize);
    lemma_widths_sum_update(ws, rightmost_max(ws), (ws[rightmost_max(ws)] - 1) as usize);
    lemma_widths_sum_nonneg(trimmed);
}

/// Two configurations with the same budget, default alignment and column
/// settings render every row of a grid to the same lines.
pub proof fn lemma_rows_agree(
    t1: &AsciiTable,
    t2: &AsciiTable,
    sg: Seq<Seq<Seq<Seg>>>,
    ws: Seq<usize>,
    upto: int,
)
    requires
        t1.default_align == t2.default_align,
        t1.columns@ == t2.columns@,
    ensures
        t1.spec_rows(sg, ws, upto) == t2.spec_rows(sg, ws, upto),
    decreases upto,
{
    if upto > 0 {
        lemma_rows_agree(t1, t2, sg, ws, upto - 1);
        assert(Seq::new(
            ws.len(),
            |c: int|
                flat(
                    spec_cell(cell_at(sg, upto - 1, c), ws[c] as nat, ' ', t1.spec_col_align(c)),
                ),
        ) =~= Seq::new(
            ws.len(),
            |c: int|
                flat(
                    spec_cell(cell_at(sg, upto - 1, c), ws[c] as nat, ' ', t2.spec_col_align(c)),
                ),
        ));
    }
}

/// Rendering reads nothing but the configuration's content: two values with
/// the same budget, the same default alignment and the same column settings
/// render any grid to the same text, however each was built up.
pub proof fn lemma_render_depends_on_content(
    t1: &AsciiTable,
    t2: &AsciiTable,
    sg: Seq<Seq<Seq<Seg>>>,
)
    requires
        t1.max_width == t2.max_width,
        t1.default_align == t2.default_align,
        t1.columns@ == t2.columns@,
    ensures
        t1.spec_table(sg) == t2.spec_table(sg),
{
    if t1.spec_valid_dims(sg.len(), max_row_len(sg)) {
        assert(t1.spec_raw_widths(sg) =~= t2.spec_raw_widths(sg));
        let ws = t1.spec_widths(sg);
        assert(t2.spec_widths(sg) == ws);
        assert(t1.spec_has_header(ws.len() as nat) == t2.spec_has_header(ws.len() as nat)) by {
            if t1.spec_has_header(ws.len() as nat) {
                let c = choose|c: int|
                    0 <= c < ws.len() && vis_len(scan(t1.spec_header_chars(c))) > 0;
                assert(vis_len(scan(t2.spec_header_chars(c))) > 0);
            }
            if t2.spec_has_header(ws.len() as nat) {
                let c = choose|c: int|
                    0 <= c < ws.len() && vis_len(scan(t2.spec_header_chars(c))) > 0;
                assert(vis_len(scan(t1.spec_header_chars(c))) > 0);
            }
        }
        assert(Seq::new(
            ws.len(),
            |c: int|
                flat(spec_cell(scan(t1.spec_header_chars(c)), ws[c] as nat, ' ', Align::Left)),
        ) =~= Seq::new(
            ws.len(),
            |c: int|
                flat(spec_cell(scan(t2.spec_header_chars(c)), ws[c] as nat, ' ', Align::Left)),
        ));
        lemma_rows_agree(t1, t2, sg, ws, sg.len() as int);
    }
}

} // verus!
