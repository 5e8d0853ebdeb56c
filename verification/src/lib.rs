//! Render tabular data as a bordered, fixed-width text block for a terminal.
//!
//! Cell text may carry embedded ANSI escape sequences; the engine measures,
//! pads and truncates only the visible characters and reproduces the escape
//! bytes verbatim in the output.

use vstd::prelude::*;

pub mod cell;
pub mod config;
pub mod frame;
pub mod laws;
pub mod layout;
pub mod text;

use std::collections::BTreeMap;

use crate::cell::{rep_center, rep_lpush, rep_pop, rep_push, repeat_char, spec_cell};
use crate::frame::{flats, join, push_char, spec_line};
use crate::layout::{
    lemma_rightmost_max_props, lemma_shrink_len, lemma_widths_sum_nonneg, lemma_widths_sum_update,
    spec_frame_padding, spec_shrink, widest, widest_rightmost, widths_over_budget, widths_sum,
};
use crate::text::{
    flat, lemma_flat_singleton, lemma_lpushed_parts, lemma_popped_parts, lemma_pushed_parts,
    lpushed, popped, pushed, scan, vis_len, Seg, SmartString,
};

use vstd::string::StringExecFns;

verus! {

/// How a data cell is placed inside its column.
#[derive(Clone, Copy, Debug, Eq, PartialEq, Hash, Ord, PartialOrd)]
pub enum Align {
    Left,
    Center,
    Right,
}

impl Default for Align {
    fn default() -> (r: Self)
        ensures
            r == Align::Left,
    {
        Align::Left
    }
}

/// Per-column settings: a header text, an alignment for the data cells, and
/// a cap on the rendered width.
#[derive(Clone, Debug, Eq, PartialEq)]
pub struct Column {
    pub header: String,
    pub align: Align,
    pub max_width: usize,
}

impl Column {
    pub fn with_header(header: &str) -> (r: Self)
        ensures
            r.header@ == header@,
            r.align == Align::Left,
            r.max_width == usize::MAX,
    {
        Column { header: header.to_owned(), align: Align::Left, max_width: usize::MAX }
    }
}

impl Default for Column {
    fn default() -> (r: Self)
        ensures
            r.header@ == Seq::<char>::empty(),
            r.align == Align::Left,
            r.max_width == usize::MAX,
    {
        Column { header: String::new(), align: Align::Left, max_width: usize::MAX }
    }
}

/// The table configuration: an overall width budget, a default alignment,
/// and settings for individual columns, keyed sparsely by column index.
#[derive(Clone, Debug, Eq, PartialEq)]
pub struct AsciiTable {
    pub max_width: usize,
    pub default_align: Align,
    pub columns: BTreeMap<usize, Column>,
}

impl Default for AsciiTable {
    fn default() -> (r: Self)
        ensures
            r.max_width == 80,
            r.default_align == Align::Left,
            r.columns@ == Map::<usize, Column>::empty(),
    {
        AsciiTable { max_width: 80, default_align: Align::Left, columns: BTreeMap::new() }
    }
}

impl AsciiTable {
    pub fn new(cell_align: Align, max_width: usize) -> (r: Self)
        ensures
            r.max_width == max_width,
            r.default_align == cell_align,
            r.columns@ == Map::<usize, Column>::empty(),
    {
        AsciiTable { max_width, default_align: cell_align, columns: BTreeMap::new() }
    }
}

impl AsciiTable {
    /// The character cost of the frame for this many columns.
    fn smallest_width(num_cols: usize) -> (r: usize)
        requires
            num_cols >= 1,
            spec_frame_padding(num_cols as nat) <= usize::MAX,
        ensures
            r == spec_frame_padding(num_cols as nat),
    {
        ((num_cols - 1) * 3) + 4
    }

    /// Whether the rows and derived column count can be laid out within the
    /// configured width budget.
    fn valid(&self, data: &Vec<Vec<SmartString>>, num_cols: usize) -> (r: bool)
        ensures
            r == self.spec_valid_dims(data@.len(), num_cols as nat),
    {
        if data.len() == 0 {
            false
        } else if num_cols == 0 {
            false
        } else {
            let need: u128 = ((num_cols - 1) as u128) * 3 + 4;
            (self.max_width as u128) >= need
        }
    }

    /// Scan every source string of the grid into a cell.
    fn stringify(&self, data: &Vec<Vec<String>>) -> (r: Vec<Vec<SmartString>>)
        ensures
            r@.len() == data@.len(),
            forall|t: int| 0 <= t < r@.len() ==> (#[trigger] r@[t])@.len() == data@[t]@.len(),
            forall|t: int, c: int|
                0 <= t < r@.len() && 0 <= c < r@[t]@.len() ==> (#[trigger] r@[t]@[c])@ == scan(
                    data@[t]@[c]@,
                ) && vis_len(r@[t]@[c]@) <= usize::MAX,
    {
        let mut result: Vec<Vec<SmartString>> = Vec::new();
        let mut t: usize = 0;
        while t < data.len()
            invariant
                t <= data.len(),
                scanned_rows_match(result@, data@, t as int),
            decreases data.len() - t,
        {
            let src = &data[t];
            let mut row: Vec<SmartString> = Vec::new();
            let mut c: usize = 0;
            while c < src.len()
                invariant
                    c <= src.len(),
                    row@.len() == c,
                    forall|j: int|
                        0 <= j < c ==> (#[trigger] row@[j])@ == scan(src@[j]@) && vis_len(
                            row@[j]@,
                        ) <= usize::MAX,
                decreases src.len() - c,
            {
                row.push(SmartString::from(src[c].as_str()));
                c = c + 1;
            }
            result.push(row);
            t = t + 1;
        }
        result
    }

    /// The headers of the first `num_cols` columns, each scanned, an empty
    /// cell where no header is configured.
    fn stringify_header(&self, num_cols: usize) -> (r: Vec<SmartString>)
        ensures
            r@.len() == num_cols,
            forall|c: int|
                0 <= c < num_cols ==> (#[trigger] r@[c])@ == scan(self.spec_header_chars(c))
                    && vis_len(r@[c]@) <= usize::MAX,
    {
        let mut result: Vec<SmartString> = Vec::new();
        let mut c: usize = 0;
        while c < num_cols
            invariant
                c <= num_cols,
                result@.len() == c,
                forall|j: int|
                    0 <= j < c ==> (#[trigger] result@[j])@ == scan(self.spec_header_chars(j))
                        && vis_len(result@[j]@) <= usize::MAX,
            decreases num_cols - c,
        {
            let cell = match self.columns.get(&c) {
                Some(conf) => SmartString::from(conf.header.as_str()),
                None => SmartString::from(""),
            };
            proof {
                broadcast use vstd::laws_cmp::group_laws_cmp;

                reveal_strlit("");
                assert(""@ =~= Seq::<char>::empty());
            }
            result.push(cell);
            c = c + 1;
        }
        result
    }

    /// Append empty cells to every short row, up to the column count.
    fn square_data(&self, data: Vec<Vec<SmartString>>, num_cols: usize) -> (r: Vec<
        Vec<SmartString>,
    >)
        requires
            forall|t: int| 0 <= t < data@.len() ==> (#[trigger] data@[t])@.len() <= num_cols,
        ensures
            r@.len() == data@.len(),
            forall|t: int| 0 <= t < r@.len() ==> (#[trigger] r@[t])@.len() == num_cols,
            forall|t: int, c: int|
                0 <= t < r@.len() && 0 <= c < num_cols ==> (#[trigger] r@[t]@[c])@ == (if c
                    < data@[t]@.len() {
                    data@[t]@[c]@
                } else {
                    Seq::<Seg>::empty()
                }),
    {
        let ghost orig = data@;
        let mut data = data;
        let n0 = data.len();
        proof {
            assert(orig.len() == n0);
        }
        let mut result: Vec<Vec<SmartString>> = Vec::new();
        let mut t: usize = 0;
        while data.len() > 0
            invariant
                orig.len() <= usize::MAX,
                t + data.len() == orig.len(),
                forall|u: int| 0 <= u < data@.len() ==> data@[u] == orig[t + u],
                forall|u: int| 0 <= u < orig.len() ==> (#[trigger] orig[u])@.len() <= num_cols,
                result@.len() == t,
                forall|u: int| 0 <= u < t ==> (#[trigger] result@[u])@.len() == num_cols,
                forall|u: int, c: int|
                    0 <= u < t && 0 <= c < num_cols ==> (#[trigger] result@[u]@[c])@ == (if c
                        < orig[u]@.len() {
                        orig[u]@[c]@
                    } else {
                        Seq::<Seg>::empty()
                    }),
            decreases data.len(),
        {
            let mut row = data.remove(0);
            let ghost rowm = row@;
            proof {
                assert(rowm == orig[t as int]@);
            }
            while row.len() < num_cols
                invariant
                    rowm.len() <= num_cols,
                    rowm.len() <= row@.len() <= num_cols,
                    row@.take(rowm.len() as int) == rowm,
                    forall|c: int|
                        rowm.len() <= c < row@.len() ==> (#[trigger] row@[c])@ == Seq::<
                            Seg,
                        >::empty(),
                decreases num_cols - row.len(),
            {
                row.push(SmartString::new());
                proof {
                    assert(row@.take(rowm.len() as int) =~= rowm);
                }
            }
            proof {
                assert(forall|c: int|
                    0 <= c < rowm.len() ==> row@.take(rowm.len() as int)[c] == #[trigger] row@[c]);
            }
            result.push(row);
            t = t + 1;
        }
        result
    }
}

impl AsciiTable {
    /// The column count the table is laid out with: the longest row.
    fn num_columns(data: &Vec<Vec<SmartString>>) -> (r: usize)
        ensures
            r == max_row_len(grid_model(data@)),
    {
        let ghost g = grid_model(data@);
        let mut best: usize = 0;
        let mut t: usize = 0;
        proof {
            assert(g.take(0) =~= Seq::<Seq<Seq<Seg>>>::empty());
        }
        while t < data.len()
            invariant
                t <= data.len(),
                g == grid_model(data@),
                g.len() == data@.len(),
                best == max_row_len(g.take(t as int)),
            decreases data.len() - t,
        {
            proof {
                assert(g.take(t + 1).drop_last() =~= g.take(t as int));
                assert(g.take(t + 1).last() == g[t as int]);
                assert(g[t as int].len() == data@[t as int]@.len());
            }
            if data[t].len() >= best {
                best = data[t].len();
            }
            t = t + 1;
        }
        proof {
            assert(g.take(data.len() as int) =~= g);
        }
        best
    }

    /// One width per column: the widest cell or header, clipped by the
    /// column's cap, then the shrink pass to meet the width budget.
    fn column_widths(
        &self,
        header: &Vec<SmartString>,
        data: &Vec<Vec<SmartString>>,
        num_cols: usize,
        Ghost(sg): Ghost<Seq<Seq<Seq<Seg>>>>,
    ) -> (r: Vec<usize>)
        requires
            num_cols >= 1,
            num_cols == max_row_len(sg),
            spec_frame_padding(num_cols as nat) <= self.max_width,
            header@.len() == num_cols,
            forall|c: int|
                0 <= c < num_cols ==> (#[trigger] header@[c])@ == scan(self.spec_header_chars(c))
                    && vis_len(header@[c]@) <= usize::MAX,
            data@.len() >= 1,
            data@.len() == sg.len(),
            forall|t: int| 0 <= t < data@.len() ==> (#[trigger] data@[t])@.len() == num_cols,
            forall|t: int, c: int|
                0 <= t < data@.len() && 0 <= c < num_cols ==> (#[trigger] data@[t]@[c])@ == cell_at(
                    sg,
                    t,
                    c,
                ) && vis_len(data@[t]@[c]@) <= usize::MAX,
        ensures
            r@ == self.spec_widths(sg),
    {
        let mut widths: Vec<usize> = Vec::new();
        let mut c: usize = 0;
        while c < num_cols
            invariant
                c <= num_cols,
                widths@.len() == c,
                forall|j: int| 0 <= j < c ==> widths@[j] == self.spec_raw_width(sg, j),
                num_cols == max_row_len(sg),
                header@.len() == num_cols,
                forall|j: int|
                    0 <= j < num_cols ==> (#[trigger] header@[j])@ == scan(
                        self.spec_header_chars(j),
                    ) && vis_len(header@[j]@) <= usize::MAX,
                data@.len() >= 1,
                data@.len() == sg.len(),
                forall|t: int| 0 <= t < data@.len() ==> (#[trigger] data@[t])@.len() == num_cols,
                forall|t: int, j: int|
                    0 <= t < data@.len() && 0 <= j < num_cols ==> (#[trigger] data@[t]@[j])@
                        == cell_at(sg, t, j) && vis_len(data@[t]@[j]@) <= usize::MAX,
            decreases num_cols - c,
        {
            let mut content: usize = 0;
            let mut t: usize = 0;
            proof {
                assert(sg.take(0) =~= Seq::<Seq<Seq<Seg>>>::empty());
            }
            while t < data.len()
                invariant
                    t <= data.len(),
                    c < num_cols,
                    data@.len() == sg.len(),
                    forall|u: int| 0 <= u < data@.len() ==> (#[trigger] data@[u])@.len()
                        == num_cols,
                    forall|u: int, j: int|
                        0 <= u < data@.len() && 0 <= j < num_cols ==> (#[trigger] data@[u]@[j])@
                            == cell_at(sg, u, j) && vis_len(data@[u]@[j]@) <= usize::MAX,
                    content == Self::spec_col_content_max(sg.take(t as int), c as int),
                decreases data.len() - t,
            {
                proof {
                    assert(sg.take(t + 1).drop_last() =~= sg.take(t as int));
                    assert(sg.take(t + 1).last() == sg[t as int]);
                }
                let w = data[t][c].char_len();
                if w >= content {
                    content = w;
                }
                t = t + 1;
            }
            proof {
                assert(sg.take(sg.len() as int) =~= sg);
            }
            let header_width = header[c].char_len();
            let w = if content >= header_width {
                content
            } else {
                header_width
            };
            let cap = match self.columns.get(&c) {
                Some(conf) => conf.max_width,
                None => usize::MAX,
            };
            proof {
                broadcast use vstd::laws_cmp::group_laws_cmp;

            }
            let width = if w >= cap {
                cap
            } else {
                w
            };
            widths.push(width);
            c = c + 1;
        }
        proof {
            assert(widths@ =~= self.spec_raw_widths(sg));
        }
        self.truncate_widths(widths, Ghost(sg))
    }

    /// The shrink pass: while the widths and the frame overflow the budget
    /// and a positive width remains, trim the rightmost widest column by one.
    fn truncate_widths(&self, widths: Vec<usize>, Ghost(sg): Ghost<Seq<Seq<Seq<Seg>>>>) -> (r: Vec<
        usize,
    >)
        requires
            widths@.len() >= 1,
            spec_frame_padding(widths@.len() as nat) <= self.max_width,
        ensures
            r@ == spec_shrink(widths@, self.max_width),
    {
        let ghost orig = widths@;
        let table_padding = Self::smallest_width(widths.len());
        let mut widths = widths;
        while widths_over_budget(&widths, self.max_width, table_padding) && widest(&widths) > 0
            invariant
                widths@.len() == orig.len() >= 1,
                table_padding == spec_frame_padding(orig.len() as nat),
                table_padding <= self.max_width,
                spec_shrink(widths@, self.max_width) == spec_shrink(orig, self.max_width),
            decreases widths_sum(widths@) as nat,
        {
            let m = widest(&widths);
            let idx = widest_rightmost(&widths, m);
            let ghost before = widths@;
            proof {
                lemma_widths_sum_nonneg(before);
                lemma_rightmost_max_props(before);
                lemma_widths_sum_update(before, idx as int, (before[idx as int] - 1) as usize);
                lemma_widths_sum_nonneg(
                    before.update(idx as int, (before[idx as int] - 1) as usize),
                );
            }
            let trimmed = widths[idx] - 1;
            widths.set(idx, trimmed);
            proof {
                assert(widths@ == before.update(idx as int, (before[idx as int] - 1) as usize));
            }
        }
        proof {
            lemma_widths_sum_nonneg(widths@);
            assert(spec_shrink(widths@, self.max_width) == widths@);
        }
        widths
    }
}

impl AsciiTable {
    /// Render one cell to exactly `len` visible characters: truncate with a
    /// `'+'` marker, or pad under the given alignment.
    fn format_cell(&self, text: &SmartString, len: usize, pad: char, align: Align) -> (r:
        SmartString)
        requires
            vis_len(text@) <= usize::MAX,
        ensures
            r@ == spec_cell(text@, len as nat, pad, align),
    {
        let ghost m = text@;
        if text.char_len() > len {
            let ghost total = (vis_len(m) - len) as nat;
            let mut result = text.duplicate();
            while result.char_len() > len
                invariant
                    len <= vis_len(result@) <= usize::MAX,
                    rep_pop(m, total) == rep_pop(result@, (vis_len(result@) - len) as nat),
                    total == (vis_len(m) - len) as nat,
                    vis_len(m) >= len,
                decreases vis_len(result@),
            {
                let ghost pre = result@;
                let ghost k = (vis_len(pre) - len) as nat;
                proof {
                    lemma_popped_parts(pre);
                    assert(rep_pop(pre, k) == rep_pop(popped(pre), (k - 1) as nat));
                }
                result.pop();
            }
            proof {
                assert(vis_len(result@) == len);
                assert(rep_pop(result@, 0) == result@);
                assert(result@ == rep_pop(m, total));
                lemma_popped_parts(result@);
            }
            let marked = result.pop();
            if marked.is_some() {
                result.push_visible('+');
            }
            result
        } else {
            let mut result = text.duplicate();
            match align {
                Align::Left => {
                    let ghost total = (len - vis_len(m)) as nat;
                    while result.char_len() < len
                        invariant
                            vis_len(result@) <= len,
                            len <= usize::MAX,
                            rep_push(m, pad, total) == rep_push(
                                result@,
                                pad,
                                (len - vis_len(result@)) as nat,
                            ),
                        decreases len - vis_len(result@),
                    {
                        let ghost pre = result@;
                        let ghost k = (len - vis_len(pre)) as nat;
                        proof {
                            lemma_pushed_parts(pre, pad);
                            assert(rep_push(pre, pad, k) == rep_push(
                                pushed(pre, pad),
                                pad,
                                (k - 1) as nat,
                            ));
                        }
                        result.push_visible(pad);
                    }
                    proof {
                        assert(rep_push(result@, pad, 0) == result@);
                    }
                },
                Align::Right => {
                    let ghost total = (len - vis_len(m)) as nat;
                    while result.char_len() < len
                        invariant
                            vis_len(result@) <= len,
                            len <= usize::MAX,
                            rep_lpush(m, pad, total) == rep_lpush(
                                result@,
                                pad,
                                (len - vis_len(result@)) as nat,
                            ),
                        decreases len - vis_len(result@),
                    {
                        let ghost pre = result@;
                        let ghost k = (len - vis_len(pre)) as nat;
                        proof {
                            lemma_lpushed_parts(pre, pad);
                            assert(rep_lpush(pre, pad, k) == rep_lpush(
                                lpushed(pre, pad),
                                pad,
                                (k - 1) as nat,
                            ));
                        }
                        result.lpush_visible(pad);
                    }
                    proof {
                        assert(rep_lpush(result@, pad, 0) == result@);
                    }
                },
                Align::Center => {
                    let ghost total = (len - vis_len(m)) as nat;
                    while result.char_len() < len
                        invariant
                            vis_len(result@) <= len,
                            len <= usize::MAX,
                            rep_center(m, pad, total) == rep_center(
                                result@,
                                pad,
                                (len - vis_len(result@)) as nat,
                            ),
                        decreases len - vis_len(result@),
                    {
                        let ghost pre = result@;
                        let ghost k = (len - vis_len(pre)) as nat;
                        proof {
                            lemma_pushed_parts(pre, pad);
                        }
                        result.push_visible(pad);
                        if result.char_len() < len {
                            proof {
                                lemma_lpushed_parts(result@, pad);
                                assert(rep_center(pre, pad, k) == rep_center(
                                    lpushed(pushed(pre, pad), pad),
                                    pad,
                                    (k - 2) as nat,
                                ));
                            }
                            result.lpush_visible(pad);
                        } else {
                            proof {
                                assert(k == 1);
                                assert(rep_center(pre, pad, k) == pushed(pre, pad));
                            }
                        }
                    }
                    proof {
                        assert(rep_center(result@, pad, 0) == result@);
                    }
                },
            }
            result
        }
    }
}

impl AsciiTable {
    /// One output line: the head, the printed cells joined by the separator,
    /// the tail, and a newline.
    fn format_line(&self, row: &Vec<SmartString>, head: &str, delim: &str, tail: &str) -> (r:
        String)
        requires
            row@.len() >= 1,
        ensures
            r@ == spec_line(flats(row@), head@, delim@, tail@),
    {
        let ghost fl = flats(row@);
        let mut out = String::new();
        out.append(head);
        row[0].append_to(&mut out);
        proof {
            assert(fl.take(1) =~= seq![fl[0]]);
            assert(join(fl.take(1), delim@) == fl[0]);
            assert(fl[0] == flat(row@[0]@));
        }
        let mut i: usize = 1;
        while i < row.len()
            invariant
                1 <= i <= row@.len(),
                fl == flats(row@),
                fl.len() == row@.len(),
                out@ == head@ + join(fl.take(i as int), delim@),
            decreases row.len() - i,
        {
            out.append(delim);
            row[i].append_to(&mut out);
            proof {
                assert(fl.take(i + 1).drop_last() =~= fl.take(i as int));
                assert(fl.take(i + 1).last() == fl[i as int]);
                assert(fl[i as int] == flat(row@[i as int]@));
                assert(head@ + join(fl.take(i as int), delim@) + delim@ + flat(row@[i as int]@)
                    =~= head@ + join(fl.take(i + 1), delim@));
            }
            i = i + 1;
        }
        proof {
            assert(fl.take(row@.len() as int) =~= fl);
        }
        out.append(tail);
        push_char(&mut out, '\n');
        proof {
            assert(head@ + join(fl, delim@) + tail@ + seq!['\n'] =~= (head@ + join(fl, delim@)
                + tail@).push('\n'));
        }
        out
    }

    /// One horizontal bar per column, as wide as the column.
    fn bars_row(widths: &Vec<usize>) -> (r: Vec<SmartString>)
        ensures
            r@.len() == widths@.len(),
            forall|c: int|
                0 <= c < r@.len() ==> flat((#[trigger] r@[c])@) == repeat_char(
                    '─',
                    widths@[c] as nat,
                ),
    {
        let mut row: Vec<SmartString> = Vec::new();
        let mut c: usize = 0;
        while c < widths.len()
            invariant
                c <= widths@.len(),
                row@.len() == c,
                forall|j: int|
                    0 <= j < c ==> flat((#[trigger] row@[j])@) == repeat_char(
                        '─',
                        widths@[j] as nat,
                    ),
            decreases widths.len() - c,
        {
            let w = widths[c];
            let mut text: Vec<char> = Vec::new();
            let mut j: usize = 0;
            while j < w
                invariant
                    j <= w,
                    text@ == repeat_char('─', j as nat),
                decreases w - j,
            {
                text.push('─');
                proof {
                    assert(repeat_char('─', j as nat).push('─') =~= repeat_char('─', (j + 1) as nat));
                }
                j = j + 1;
            }
            let bar = SmartString::from_visible(text);
            proof {
                lemma_flat_singleton(bar@.last());
                assert(bar@.last().txt == repeat_char('─', w as nat));
                assert(bar@ =~= seq![bar@.last()]);
            }
            row.push(bar);
            c = c + 1;
        }
        row
    }

    /// The top border.
    fn format_first(&self, widths: &Vec<usize>) -> (r: String)
        requires
            widths@.len() >= 1,
        ensures
            r@ == Self::spec_border(widths@, '┌', '┬', '┐'),
    {
        let row = Self::bars_row(widths);
        let r = self.format_line(&row, "┌─", "─┬─", "─┐");
        proof {
            reveal_strlit("┌─");
            reveal_strlit("─┬─");
            reveal_strlit("─┐");
            assert("┌─"@ =~= seq!['┌', '─']);
            assert("─┬─"@ =~= seq!['─', '┬', '─']);
            assert("─┐"@ =~= seq!['─', '┐']);
            assert(flats(row@) =~= Seq::new(
                widths@.len(),
                |c: int| repeat_char('─', widths@[c] as nat),
            ));
        }
        r
    }

    /// The divider between the header and the data rows.
    fn format_middle(&self, widths: &Vec<usize>) -> (r: String)
        requires
            widths@.len() >= 1,
        ensures
            r@ == Self::spec_border(widths@, '├', '┼', '┤'),
    {
        let row = Self::bars_row(widths);
        let r = self.format_line(&row, "├─", "─┼─", "─┤");
        proof {
            reveal_strlit("├─");
            reveal_strlit("─┼─");
            reveal_strlit("─┤");
            assert("├─"@ =~= seq!['├', '─']);
            assert("─┼─"@ =~= seq!['─', '┼', '─']);
            assert("─┤"@ =~= seq!['─', '┤']);
            assert(flats(row@) =~= Seq::new(
                widths@.len(),
                |c: int| repeat_char('─', widths@[c] as nat),
            ));
        }
        r
    }

    /// The bottom border.
    fn format_last(&self, widths: &Vec<usize>) -> (r: String)
        requires
            widths@.len() >= 1,
        ensures
            r@ == Self::spec_border(widths@, '└', '┴', '┘'),
    {
        let row = Self::bars_row(widths);
        let r = self.format_line(&row, "└─", "─┴─", "─┘");
        proof {
            reveal_strlit("└─");
            reveal_strlit("─┴─");
            reveal_strlit("─┘");
            assert("└─"@ =~= seq!['└', '─']);
            assert("─┴─"@ =~= seq!['─', '┴', '─']);
            assert("─┘"@ =~= seq!['─', '┘']);
            assert(flats(row@) =~= Seq::new(
                widths@.len(),
                |c: int| repeat_char('─', widths@[c] as nat),
            ));
        }
        r
    }

    /// One data line: each cell rendered to its column's width under the
    /// column's alignment.
    fn format_row(&self, row: &Vec<SmartString>, widths: &Vec<usize>) -> (r: String)
        requires
            widths@.len() >= 1,
            row@.len() == widths@.len(),
            forall|c: int| 0 <= c < row@.len() ==> vis_len((#[trigger] row@[c])@) <= usize::MAX,
        ensures
            r@ == spec_line(
                Seq::new(
                    widths@.len(),
                    |c: int|
                        flat(
                            spec_cell(
                                row@[c]@,
                                widths@[c] as nat,
                                ' ',
                                self.spec_col_align(c),
                            ),
                        ),
                ),
                seq!['│', ' '],
                seq![' ', '│', ' '],
                seq![' ', '│'],
            ),
    {
        let mut rendered: Vec<SmartString> = Vec::new();
        let mut c: usize = 0;
        while c < widths.len()
            invariant
                c <= widths@.len(),
                row@.len() == widths@.len(),
                forall|j: int| 0 <= j < row@.len() ==> vis_len((#[trigger] row@[j])@)
                    <= usize::MAX,
                rendered@.len() == c,
                forall|j: int|
                    0 <= j < c ==> (#[trigger] rendered@[j])@ == spec_cell(
                        row@[j]@,
                        widths@[j] as nat,
                        ' ',
                        self.spec_col_align(j),
                    ),
            decreases widths.len() - c,
        {
            let align = match self.columns.get(&c) {
                Some(conf) => conf.align,
                None => self.default_align,
            };
            proof {
                broadcast use vstd::laws_cmp::group_laws_cmp;

                assert(align == self.spec_col_align(c as int));
            }
            let cell = self.format_cell(&row[c], widths[c], ' ', align);
            rendered.push(cell);
            c = c + 1;
        }
        let r = self.format_line(&rendered, "│ ", " │ ", " │");
        proof {
            reveal_strlit("│ ");
            reveal_strlit(" │ ");
            reveal_strlit(" │");
            assert("│ "@ =~= seq!['│', ' ']);
            assert(" │ "@ =~= seq![' ', '│', ' ']);
            assert(" │"@ =~= seq![' ', '│']);
            assert(flats(rendered@) =~= Seq::new(
                widths@.len(),
                |c: int|
                    flat(
                        spec_cell(row@[c]@, widths@[c] as nat, ' ', self.spec_col_align(c)),
                    ),
            ));
        }
        r
    }

    /// The header line: every header cell rendered left-aligned.
    fn format_header_row(&self, row: &Vec<SmartString>, widths: &Vec<usize>) -> (r: String)
        requires
            widths@.len() >= 1,
            row@.len() == widths@.len(),
            forall|c: int| 0 <= c < row@.len() ==> vis_len((#[trigger] row@[c])@) <= usize::MAX,
        ensures
            r@ == spec_line(
                Seq::new(
                    widths@.len(),
                    |c: int|
                        flat(spec_cell(row@[c]@, widths@[c] as nat, ' ', Align::Left)),
                ),
                seq!['│', ' '],
                seq![' ', '│', ' '],
                seq![' ', '│'],
            ),
    {
        let mut rendered: Vec<SmartString> = Vec::new();
        let mut c: usize = 0;
        while c < widths.len()
            invariant
                c <= widths@.len(),
                row@.len() == widths@.len(),
                forall|j: int| 0 <= j < row@.len() ==> vis_len((#[trigger] row@[j])@)
                    <= usize::MAX,
                rendered@.len() == c,
                forall|j: int|
                    0 <= j < c ==> (#[trigger] rendered@[j])@ == spec_cell(
                        row@[j]@,
                        widths@[j] as nat,
                        ' ',
                        Align::Left,
                    ),
            decreases widths.len() - c,
        {
            let cell = self.format_cell(&row[c], widths[c], ' ', Align::Left);
            rendered.push(cell);
            c = c + 1;
        }
        let r = self.format_line(&rendered, "│ ", " │ ", " │");
        proof {
            reveal_strlit("│ ");
            reveal_strlit(" │ ");
            reveal_strlit(" │");
            assert("│ "@ =~= seq!['│', ' ']);
            assert(" │ "@ =~= seq![' ', '│', ' ']);
            assert(" │"@ =~= seq![' ', '│']);
            assert(flats(rendered@) =~= Seq::new(
                widths@.len(),
                |c: int| flat(spec_cell(row@[c]@, widths@[c] as nat, ' ', Align::Left)),
            ));
        }
        r
    }

    /// The fixed fallback frame: a two-character-wide frame round one empty
    /// row.
    fn format_empty(&self) -> (r: String)
        ensures
            r@ == Self::spec_empty_frame(),
    {
        let mut widths: Vec<usize> = Vec::new();
        widths.push(0);
        proof {
            assert(widths@ =~= seq![0usize]);
        }
        let mut empty_row: Vec<SmartString> = Vec::new();
        empty_row.push(SmartString::new());
        let mut out = self.format_first(&widths);
        let line = self.format_line(&empty_row, "│ ", " │ ", " │");
        proof {
            reveal_strlit("│ ");
            reveal_strlit(" │ ");
            reveal_strlit(" │");
            assert("│ "@ =~= seq!['│', ' ']);
            assert(" │ "@ =~= seq![' ', '│', ' ']);
            assert(" │"@ =~= seq![' ', '│']);
            assert(flat(empty_row@[0]@) =~= Seq::<char>::empty());
            assert(flats(empty_row@) =~= seq![Seq::<char>::empty()]);
        }
        out.append(line.as_str());
        let last = self.format_last(&widths);
        out.append(last.as_str());
        out
    }
}

/// No row is longer than the longest row.
pub proof fn lemma_max_row_len_ge<T>(g: Seq<Seq<T>>, t: int)
    requires
        0 <= t < g.len(),
    ensures
        g[t].len() <= max_row_len(g),
    decreases g.len(),
{
    if t < g.len() - 1 {
        lemma_max_row_len_ge(g.drop_last(), t);
    }
}

impl AsciiTable {
    /// Render an already scanned grid to the final text block.
    fn format_inner(&self, data: Vec<Vec<SmartString>>) -> (r: String)
        requires
            forall|t: int, c: int|
                0 <= t < data@.len() && 0 <= c < (#[trigger] data@[t])@.len() ==> vis_len(
                    #[trigger] data@[t]@[c]@,
                ) <= usize::MAX,
        ensures
            r@ == self.spec_table(grid_model(data@)),
    {
        let ghost sg = grid_model(data@);
        let num_cols = Self::num_columns(&data);
        if !self.valid(&data, num_cols) {
            proof {
                assert(sg.len() == data@.len());
            }
            return self.format_empty();
        }
        proof {
            assert(sg.len() == data@.len());
            assert(self.spec_valid_dims(sg.len(), max_row_len(sg)));
        }
        let header = self.stringify_header(num_cols);
        proof {
            assert(forall|t: int|
                0 <= t < data@.len() ==> (#[trigger] data@[t])@.len() == sg[t].len());
            assert forall|t: int| 0 <= t < data@.len() implies (#[trigger] data@[t])@.len()
                <= num_cols by {
                lemma_max_row_len_ge(sg, t);
            }
        }
        let data = self.square_data(data, num_cols);
        let ghost squared = data@;
        let mut has_header = false;
        let ghost mut witness: int = 0;
        let mut c: usize = 0;
        while c < header.len()
            invariant
                c <= header@.len(),
                header@.len() == num_cols,
                forall|j: int|
                    0 <= j < num_cols ==> (#[trigger] header@[j])@ == scan(
                        self.spec_header_chars(j),
                    ),
                has_header ==> 0 <= witness < num_cols && vis_len(
                    scan(self.spec_header_chars(witness)),
                ) > 0,
                !has_header ==> forall|j: int|
                    0 <= j < c ==> vis_len(scan(#[trigger] self.spec_header_chars(j))) == 0,
            decreases header.len() - c,
        {
            if !header[c].is_empty() {
                has_header = true;
                proof {
                    witness = c as int;
                }
            }
            c = c + 1;
        }
        proof {
            if has_header {
                assert(self.spec_has_header(num_cols as nat));
            } else {
                assert(!self.spec_has_header(num_cols as nat)) by {
                    if self.spec_has_header(num_cols as nat) {
                        let j = choose|j: int|
                            0 <= j < num_cols && vis_len(scan(self.spec_header_chars(j))) > 0;
                        assert(vis_len(scan(self.spec_header_chars(j))) == 0);
                    }
                }
            }
        }
        let widths = self.column_widths(&header, &data, num_cols, Ghost(sg));
        proof {
            lemma_shrink_len(self.spec_raw_widths(sg), self.max_width);
            assert(widths@.len() == num_cols);
        }
        let mut result = self.format_first(&widths);
        let ghost ws = widths@;
        let ghost pre = if self.spec_has_header(ws.len()) {
            Self::spec_border(ws, '┌', '┬', '┐') + self.spec_header_line(ws) + Self::spec_border(
                ws,
                '├',
                '┼',
                '┤',
            )
        } else {
            Self::spec_border(ws, '┌', '┬', '┐')
        };
        if has_header {
            let h = self.format_header_row(&header, &widths);
            proof {
                assert(Seq::new(
                    ws.len(),
                    |c: int| flat(spec_cell(header@[c]@, ws[c] as nat, ' ', Align::Left)),
                ) =~= Seq::new(
                    ws.len(),
                    |c: int|
                        flat(
                            spec_cell(
                                scan(self.spec_header_chars(c)),
                                ws[c] as nat,
                                ' ',
                                Align::Left,
                            ),
                        ),
                ));
            }
            result.append(h.as_str());
            let mid = self.format_middle(&widths);
            result.append(mid.as_str());
            proof {
                assert(result@ =~= pre);
            }
        }
        proof {
            assert(result@ == pre);
            assert(pre + self.spec_rows(sg, ws, 0) =~= pre);
        }
        let mut t: usize = 0;
        while t < data.len()
            invariant
                t <= data@.len(),
                data@ == squared,
                ws == widths@,
                ws.len() == num_cols >= 1,
                squared.len() == sg.len(),
                forall|u: int| 0 <= u < squared.len() ==> (#[trigger] squared[u])@.len()
                    == num_cols,
                forall|u: int, j: int|
                    0 <= u < squared.len() && 0 <= j < num_cols ==> (
                    #[trigger] squared[u]@[j])@ == cell_at(sg, u, j) && vis_len(squared[u]@[j]@)
                        <= usize::MAX,
                result@ == pre + self.spec_rows(sg, ws, t as int),
            decreases data.len() - t,
        {
            let line = self.format_row(&data[t], &widths);
            proof {
                assert(Seq::new(
                    ws.len(),
                    |c: int|
                        flat(
                            spec_cell(
                                squared[t as int]@[c]@,
                                ws[c] as nat,
                                ' ',
                                self.spec_col_align(c),
                            ),
                        ),
                ) =~= Seq::new(
                    ws.len(),
                    |c: int|
                        flat(
                            spec_cell(
                                cell_at(sg, t as int, c),
                                ws[c] as nat,
                                ' ',
                                self.spec_col_align(c),
                            ),
                        ),
                ));
            }
            result.append(line.as_str());
            proof {
                assert(self.spec_rows(sg, ws, t + 1) == self.spec_rows(sg, ws, t as int)
                    + self.spec_row_line(sg, t as int, ws));
                assert(pre + self.spec_rows(sg, ws, t as int) + self.spec_row_line(
                    sg,
                    t as int,
                    ws,
                ) =~= pre + self.spec_rows(sg, ws, t + 1));
            }
            t = t + 1;
        }
        let bottom = self.format_last(&widths);
        result.append(bottom.as_str());
        proof {
            assert(result@ =~= self.spec_table(sg));
        }
        result
    }

    /// Render a grid of source strings to the final text block: scan every
    /// cell, lay the columns out within the width budget, and assemble the
    /// frame, the optional header, and one line per row.
    pub fn format(&self, data: &Vec<Vec<String>>) -> (r: String)
        ensures
            r@ == self.spec_table(scan_grid(strings_model(data@))),
    {
        let cells = self.stringify(data);
        proof {
            let gm = grid_model(cells@);
            let sm = scan_grid(strings_model(data@));
            assert(gm.len() == sm.len());
            assert forall|t: int| 0 <= t < gm.len() implies gm[t] == sm[t] by {
                assert(gm[t].len() == cells@[t]@.len());
                assert(sm[t].len() == data@[t]@.len());
                assert forall|c: int| 0 <= c < gm[t].len() implies gm[t][c] == sm[t][c] by {
                    assert(gm[t][c] == cells@[t]@[c]@);
                    assert(sm[t][c] == scan(data@[t]@[c]@));
                }
                assert(gm[t] =~= sm[t]);
            }
            assert(gm =~= sm);
        }
        let r = self.format_inner(cells);
        r
    }
}

// Bundles the outer-loop invariant of `stringify`, so that both loops and
// the final postcondition read the same statement.
pub open spec fn scanned_rows_match(r: Seq<Vec<SmartString>>, data: Seq<Vec<String>>, t: int) -> bool {
    &&& r.len() == t
    &&& t <= data.len()
    &&& forall|u: int| 0 <= u < t ==> (#[trigger] r[u])@.len() == data[u]@.len()
    &&& forall|u: int, c: int|
        0 <= u < t && 0 <= c < r[u]@.len() ==> (#[trigger] r[u]@[c])@ == scan(data[u]@[c]@)
            && vis_len(r[u]@[c]@) <= usize::MAX
}

/// The scanned image of a grid of source strings: each cell parsed into its
/// visible and invisible runs.
pub open spec fn scan_grid(g: Seq<Seq<Seq<char>>>) -> Seq<Seq<Seq<Seg>>> {
    g.map_values(|row: Seq<Seq<char>>| row.map_values(|s: Seq<char>| scan(s)))
}

/// The model of a grid of source strings.
pub open spec fn strings_model(data: Seq<Vec<String>>) -> Seq<Seq<Seq<char>>> {
    data.map_values(|row: Vec<String>| row@.map_values(|s: String| s@))
}

/// The model of a grid of scanned cells.
pub open spec fn grid_model(data: Seq<Vec<SmartString>>) -> Seq<Seq<Seq<Seg>>> {
    data.map_values(|row: Vec<SmartString>| row@.map_values(|c: SmartString| c@))
}

/// The longest row: the column count the table is laid out with.
pub open spec fn max_row_len<T>(g: Seq<Seq<T>>) -> nat
    decreases g.len(),
{
    if g.len() == 0 {
        0
    } else {
        let m = max_row_len(g.drop_last());
        if g.last().len() >= m {
            g.last().len()
        } else {
            m
        }
    }
}

/// The cell of row `r` at column `c`, an empty text where the row is short.
pub open spec fn cell_at(sg: Seq<Seq<Seq<Seg>>>, r: int, c: int) -> Seq<Seg> {
    if c < sg[r].len() {
        sg[r][c]
    } else {
        Seq::empty()
    }
}

impl AsciiTable {
    /// The header text configured for column `c`, empty if none is.
    pub open spec fn spec_header_chars(&self, c: int) -> Seq<char> {
        if self.columns@.contains_key(c as usize) {
            self.columns@[c as usize].header@
        } else {
            Seq::empty()
        }
    }

    /// The alignment for the data cells of column `c`.
    pub open spec fn spec_col_align(&self, c: int) -> Align {
        if self.columns@.contains_key(c as usize) {
            self.columns@[c as usize].align
        } else {
            self.default_align
        }
    }

    /// The width cap configured for column `c`, unbounded if none is.
    pub open spec fn spec_col_cap(&self, c: int) -> usize {
        if self.columns@.contains_key(c as usize) {
            self.columns@[c as usize].max_width
        } else {
            usize::MAX
        }
    }

    /// Whether a table of these dimensions can be laid out at all.
    pub open spec fn spec_valid_dims(&self, nrows: nat, ncols: nat) -> bool {
        nrows > 0 && ncols > 0 && self.max_width >= spec_frame_padding(ncols)
    }

    /// The widest content of column `c` over all rows, in visible characters.
    pub open spec fn spec_col_content_max(sg: Seq<Seq<Seq<Seg>>>, c: int) -> nat
        decreases sg.len(),
    {
        if sg.len() == 0 {
            0
        } else {
            let m = Self::spec_col_content_max(sg.drop_last(), c);
            let v = vis_len(
                if c < sg.last().len() {
                    sg.last()[c]
                } else {
                    Seq::empty()
                },
            );
            if v >= m {
                v
            } else {
                m
            }
        }
    }

    /// The width column `c` asks for: its widest cell or header, clipped by
    /// the column's configured cap.
    pub open spec fn spec_raw_width(&self, sg: Seq<Seq<Seq<Seg>>>, c: int) -> usize {
        let hw = vis_len(scan(self.spec_header_chars(c)));
        let cw = Self::spec_col_content_max(sg, c);
        let w = if cw >= hw {
            cw
        } else {
            hw
        };
        let cap = self.spec_col_cap(c);
        if w >= cap {
            cap
        } else {
            w as usize
        }
    }

    /// Every column's requested width, before the shrink pass.
    pub open spec fn spec_raw_widths(&self, sg: Seq<Seq<Seq<Seg>>>) -> Seq<usize> {
        Seq::new(max_row_len(sg), |c: int| self.spec_raw_width(sg, c))
    }

    /// The final column widths: the requested widths after the shrink pass.
    pub open spec fn spec_widths(&self, sg: Seq<Seq<Seq<Seg>>>) -> Seq<usize> {
        spec_shrink(self.spec_raw_widths(sg), self.max_width)
    }

    /// Whether any of the first `n` columns has a visible header.
    pub open spec fn spec_has_header(&self, n: nat) -> bool {
        exists|c: int| 0 <= c < n && vis_len(scan(self.spec_header_chars(c))) > 0
    }

    /// A border or divider line: a run of horizontal bars per column.
    pub open spec fn spec_border(ws: Seq<usize>, l: char, m: char, r: char) -> Seq<char> {
        spec_line(
            Seq::new(ws.len(), |c: int| repeat_char('─', ws[c] as nat)),
            seq![l, '─'],
            seq!['─', m, '─'],
            seq!['─', r],
        )
    }

    /// The header line: every header rendered left-aligned to its column.
    pub open spec fn spec_header_line(&self, ws: Seq<usize>) -> Seq<char> {
        spec_line(
            Seq::new(
                ws.len(),
                |c: int|
                    flat(
                        spec_cell(scan(self.spec_header_chars(c)), ws[c] as nat, ' ', Align::Left),
                    ),
            ),
            seq!['│', ' '],
            seq![' ', '│', ' '],
            seq![' ', '│'],
        )
    }

    /// One data line: row `r` rendered cell by cell to the column widths.
    pub open spec fn spec_row_line(&self, sg: Seq<Seq<Seq<Seg>>>, r: int, ws: Seq<usize>) -> Seq<
        char,
    > {
        spec_line(
            Seq::new(
                ws.len(),
                |c: int|
                    flat(
                        spec_cell(cell_at(sg, r, c), ws[c] as nat, ' ', self.spec_col_align(c)),
                    ),
            ),
            seq!['│', ' '],
            seq![' ', '│', ' '],
            seq![' ', '│'],
        )
    }

    /// The first `upto` data lines, concatenated.
    pub open spec fn spec_rows(&self, sg: Seq<Seq<Seq<Seg>>>, ws: Seq<usize>, upto: int) -> Seq<
        char,
    >
        decreases upto,
    {
        if upto <= 0 {
            Seq::empty()
        } else {
            self.spec_rows(sg, ws, upto - 1) + self.spec_row_line(sg, upto - 1, ws)
        }
    }

    /// The fixed fallback frame for tables that cannot be laid out: a
    /// two-character-wide frame around one empty row.
    pub open spec fn spec_empty_frame() -> Seq<char> {
        Self::spec_border(seq![0usize], '┌', '┬', '┐') + spec_line(
            seq![Seq::<char>::empty()],
            seq!['│', ' '],
            seq![' ', '│', ' '],
            seq![' ', '│'],
        ) + Self::spec_border(seq![0usize], '└', '┴', '┘')
    }

    /// The whole rendered table for a scanned grid: borders, an optional
    /// header with its divider, and one line per row — or the fallback frame
    /// when the input cannot be laid out.
    pub open spec fn spec_table(&self, sg: Seq<Seq<Seq<Seg>>>) -> Seq<char> {
        if !self.spec_valid_dims(sg.len(), max_row_len(sg)) {
            Self::spec_empty_frame()
        } else {
            let ws = self.spec_widths(sg);
            Self::spec_border(ws, '┌', '┬', '┐') + (if self.spec_has_header(ws.len()) {
                self.spec_header_line(ws) + Self::spec_border(ws, '├', '┼', '┤')
            } else {
                Seq::empty()
            }) + self.spec_rows(sg, ws, sg.len() as int) + Self::spec_border(ws, '└', '┴', '┘')
        }
    }
}

} // verus!
