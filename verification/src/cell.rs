//! The mathematical description of rendering one cell to a target width:
//! truncation with a continuation marker, or padding under an alignment.

use vstd::prelude::*;

use crate::Align;
use crate::text::{
    Seg, invis_parts, lpushed, popped, pushed, vis_len, vis_text,
    lemma_popped_parts, lemma_pushed_parts, lemma_lpushed_parts,
};

verus! {

/// `n` copies of one character.
pub open spec fn repeat_char(ch: char, n: nat) -> Seq<char> {
    Seq::new(n, |i: int| ch)
}

/// The value after `n` appends of `ch`.
pub open spec fn rep_push(s: Seq<Seg>, ch: char, n: nat) -> Seq<Seg>
    decreases n,
{
    if n == 0 {
        s
    } else {
        rep_push(pushed(s, ch), ch, (n - 1) as nat)
    }
}

/// The value after `n` front insertions of `ch`.
pub open spec fn rep_lpush(s: Seq<Seg>, ch: char, n: nat) -> Seq<Seg>
    decreases n,
{
    if n == 0 {
        s
    } else {
        rep_lpush(lpushed(s, ch), ch, (n - 1) as nat)
    }
}

/// The value after `n` removals of the last visible character.
pub open spec fn rep_pop(s: Seq<Seg>, n: nat) -> Seq<Seg>
    decreases n,
{
    if n == 0 {
        s
    } else {
        rep_pop(popped(s), (n - 1) as nat)
    }
}

/// The value after `n` alternating pads, appending before inserting, so that
/// an odd leftover falls on the right side.
pub open spec fn rep_center(s: Seq<Seg>, ch: char, n: nat) -> Seq<Seg>
    decreases n,
{
    if n == 0 {
        s
    } else if n == 1 {
        pushed(s, ch)
    } else {
        rep_center(lpushed(pushed(s, ch), ch), ch, (n - 2) as nat)
    }
}

/// One cell rendered to exactly `width` visible characters.
///
/// A cell wider than `width` loses visible characters from the end, and its
/// last surviving visible character becomes `'+'`; at width zero it keeps no
/// visible character at all.  A cell that fits is padded with `pad` on the
/// side the alignment dictates.  Invisible runs are carried through intact
/// either way.
pub open spec fn spec_cell(s: Seq<Seg>, width: nat, pad: char, align: Align) -> Seq<Seg> {
    if vis_len(s) > width {
        let t = rep_pop(s, (vis_len(s) - width) as nat);
        if width == 0 {
            t
        } else {
            pushed(popped(t), '+')
        }
    } else {
        let k = (width - vis_len(s)) as nat;
        match align {
            Align::Left => rep_push(s, pad, k),
            Align::Right => rep_lpush(s, pad, k),
            Align::Center => rep_center(s, pad, k),
        }
    }
}

/// Repeated appends extend the visible text by a run of the pad character.
pub proof fn lemma_rep_push_parts(s: Seq<Seg>, ch: char, n: nat)
    ensures
        vis_text(rep_push(s, ch, n)) == vis_text(s) + repeat_char(ch, n),
        invis_parts(rep_push(s, ch, n)) == invis_parts(s),
    decreases n,
{
    if n == 0 {
        assert(vis_text(s) + repeat_char(ch, 0) =~= vis_text(s));
    } else {
        lemma_pushed_parts(s, ch);
        lemma_rep_push_parts(pushed(s, ch), ch, (n - 1) as nat);
        assert(vis_text(s).push(ch) + repeat_char(ch, (n - 1) as nat) =~= vis_text(s)
            + repeat_char(ch, n));
    }
}

/// Repeated front insertions prepend a run of the pad character.
pub proof fn lemma_rep_lpush_parts(s: Seq<Seg>, ch: char, n: nat)
    ensures
        vis_text(rep_lpush(s, ch, n)) == repeat_char(ch, n) + vis_text(s),
        invis_parts(rep_lpush(s, ch, n)) == invis_parts(s),
    decreases n,
{
    if n == 0 {
        assert(repeat_char(ch, 0) + vis_text(s) =~= vis_text(s));
    } else {
        lemma_lpushed_parts(s, ch);
        lemma_rep_lpush_parts(lpushed(s, ch), ch, (n - 1) as nat);
        assert(repeat_char(ch, (n - 1) as nat) + (seq![ch] + vis_text(s)) =~= repeat_char(ch, n)
            + vis_text(s));
    }
}

/// Repeated removals keep exactly the leading visible characters.
pub proof fn lemma_rep_pop_parts(s: Seq<Seg>, n: nat)
    requires
        n <= vis_len(s),
    ensures
        vis_text(rep_pop(s, n)) == vis_text(s).take(vis_len(s) - n),
        invis_parts(rep_pop(s, n)) == invis_parts(s),
    decreases n,
{
    if n == 0 {
        assert(vis_text(s).take(vis_len(s) as int) =~= vis_text(s));
    } else {
        lemma_popped_parts(s);
        lemma_rep_pop_parts(popped(s), (n - 1) as nat);
        assert(vis_text(s).drop_last() =~= vis_text(s).take(vis_len(s) - 1));
        assert(vis_text(s).take(vis_len(s) - 1).take(vis_len(s) - n) =~= vis_text(s).take(
            vis_len(s) - n,
        ));
    }
}

/// Centering splits the padding, the smaller half on the left.
pub proof fn lemma_rep_center_parts(s: Seq<Seg>, ch: char, n: nat)
    ensures
        vis_text(rep_center(s, ch, n)) == repeat_char(ch, n / 2) + vis_text(s) + repeat_char(
            ch,
            (n - n / 2) as nat,
        ),
        invis_parts(rep_center(s, ch, n)) == invis_parts(s),
    decreases n,
{
    if n == 0 {
        assert(repeat_char(ch, 0) + vis_text(s) + repeat_char(ch, 0) =~= vis_text(s));
    } else if n == 1 {
        lemma_pushed_parts(s, ch);
        assert(repeat_char(ch, 0) + vis_text(s) + repeat_char(ch, 1) =~= vis_text(s).push(ch));
    } else {
        lemma_pushed_parts(s, ch);
        lemma_lpushed_parts(pushed(s, ch), ch);
        let s2 = lpushed(pushed(s, ch), ch);
        lemma_rep_center_parts(s2, ch, (n - 2) as nat);
        let m = (n - 2) as nat;
        assert(m / 2 + 1 == n / 2);
        assert(vis_text(s2) == seq![ch] + vis_text(s).push(ch));
        assert(repeat_char(ch, m / 2) + (seq![ch] + vis_text(s).push(ch)) + repeat_char(
            ch,
            (m - m / 2) as nat,
        ) =~= repeat_char(ch, n / 2) + vis_text(s) + repeat_char(ch, (n - n / 2) as nat));
    }
}

/// What rendering one cell does to its visible text, and that it never
/// touches the invisible runs: the rendered cell is exactly `width` visible
/// characters; a truncated cell ends in the continuation marker; a padded
/// cell keeps its visible text contiguous between the pad runs.
pub proof fn lemma_cell_parts(s: Seq<Seg>, width: nat, pad: char, align: Align)
    ensures
        invis_parts(spec_cell(s, width, pad, align)) == invis_parts(s),
        vis_len(spec_cell(s, width, pad, align)) == width,
        vis_len(s) > width && width > 0 ==> vis_text(spec_cell(s, width, pad, align)) == vis_text(
            s,
        ).take(width - 1).push('+'),
        vis_len(s) <= width && align == Align::Left ==> vis_text(spec_cell(s, width, pad, align))
            == vis_text(s) + repeat_char(pad, (width - vis_len(s)) as nat),
        vis_len(s) <= width && align == Align::Right ==> vis_text(spec_cell(s, width, pad, align))
            == repeat_char(pad, (width - vis_len(s)) as nat) + vis_text(s),
        vis_len(s) <= width && align == Align::Center ==> vis_text(spec_cell(s, width, pad, align))
            == repeat_char(pad, ((width - vis_len(s)) as nat) / 2) + vis_text(s) + repeat_char(
            pad,
            ((width - vis_len(s)) as nat - ((width - vis_len(s)) as nat) / 2) as nat,
        ),
{
    if vis_len(s) > width {
        let t = rep_pop(s, (vis_len(s) - width) as nat);
        lemma_rep_pop_parts(s, (vis_len(s) - width) as nat);
        assert(vis_len(t) == width);
        if width == 0 {
            assert(vis_text(t) =~= Seq::<char>::empty());
        } else {
            lemma_popped_parts(t);
            lemma_pushed_parts(popped(t), '+');
            assert(vis_text(s).take(width as int).drop_last() =~= vis_text(s).take(width - 1));
        }
    } else {
        let k = (width - vis_len(s)) as nat;
        match align {
            Align::Left => {
                lemma_rep_push_parts(s, pad, k);
            },
            Align::Right => {
                lemma_rep_lpush_parts(s, pad, k);
            },
            Align::Center => {
                lemma_rep_center_parts(s, pad, k);
            },
        }
    }
}

/// Removing the pads from a padded cell recovers the original visible text.
pub proof fn lemma_padding_recovers(s: Seq<Seg>, width: nat, pad: char, align: Align)
    requires
        vis_len(s) <= width,
    ensures
        align == Align::Left ==> vis_text(spec_cell(s, width, pad, align)).take(
            vis_len(s) as int,
        ) == vis_text(s),
        align == Align::Right ==> vis_text(spec_cell(s, width, pad, align)).skip(
            width - vis_len(s),
        ) == vis_text(s),
        align == Align::Center ==> vis_text(spec_cell(s, width, pad, align)).subrange(
            ((width - vis_len(s)) as nat / 2) as int,
            (((width - vis_len(s)) as nat / 2) + vis_len(s)) as int,
        ) == vis_text(s),
{
    lemma_cell_parts(s, width, pad, align);
    let k = (width - vis_len(s)) as nat;
    match align {
        Align::Left => {
            assert((vis_text(s) + repeat_char(pad, k)).take(vis_len(s) as int) =~= vis_text(s));
        },
        Align::Right => {
            assert((repeat_char(pad, k) + vis_text(s)).skip(k as int) =~= vis_text(s));
        },
        Align::Center => {
            assert((repeat_char(pad, k / 2) + vis_text(s) + repeat_char(pad, (k - k / 2) as nat))
                .subrange((k / 2) as int, ((k / 2) + vis_len(s)) as int) =~= vis_text(s));
        },
    }
}

} // verus!
