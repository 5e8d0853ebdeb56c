//! A text value made of visible runs and invisible (control) runs.
//!
//! Length, truncation and padding act on the visible characters only, while
//! the invisible runs (ANSI escape sequences) ride along untouched and are
//! reproduced verbatim when the text is written out.

use vstd::prelude::*;

verus! {

/// One run of characters, either printable or part of a control sequence.
pub struct Segment {
    pub visible: bool,
    pub text: Vec<char>,
}

/// Mathematical image of a [`Segment`].
#[verifier::ext_equal]
pub ghost struct Seg {
    pub vis: bool,
    pub txt: Seq<char>,
}

impl View for Segment {
    type V = Seg;

    open spec fn view(&self) -> Seg {
        Seg { vis: self.visible, txt: self.text@ }
    }
}

/// A displayable string, kept as an ordered sequence of tagged runs.
pub struct SmartString {
    pub fragments: Vec<Segment>,
}

impl View for SmartString {
    type V = Seq<Seg>;

    open spec fn view(&self) -> Seq<Seg> {
        self.fragments@.map_values(|s: Segment| s@)
    }
}

/// All characters of all runs, in order: what printing the value emits.
pub open spec fn flat(s: Seq<Seg>) -> Seq<char>
    decreases s.len(),
{
    if s.len() == 0 {
        Seq::empty()
    } else {
        flat(s.drop_last()) + s.last().txt
    }
}

/// The visible characters only, in order.
pub open spec fn vis_text(s: Seq<Seg>) -> Seq<char>
    decreases s.len(),
{
    if s.len() == 0 {
        Seq::empty()
    } else {
        vis_text(s.drop_last()) + if s.last().vis {
            s.last().txt
        } else {
            Seq::empty()
        }
    }
}

/// The number of visible characters: what the value occupies on a terminal.
pub open spec fn vis_len(s: Seq<Seg>) -> nat {
    vis_text(s).len()
}

/// The texts of the invisible runs, in order.
pub open spec fn invis_parts(s: Seq<Seg>) -> Seq<Seq<char>>
    decreases s.len(),
{
    if s.len() == 0 {
        Seq::empty()
    } else {
        invis_parts(s.drop_last()) + if !s.last().vis {
            seq![s.last().txt]
        } else {
            Seq::empty()
        }
    }
}

/// A single run prints exactly its text.
pub proof fn lemma_flat_singleton(g: Seg)
    ensures
        flat(seq![g]) == g.txt,
{
    assert(seq![g].drop_last() =~= Seq::<Seg>::empty());
    assert(flat(Seq::<Seg>::empty()) =~= Seq::<char>::empty());
    assert(Seq::<char>::empty() + g.txt =~= g.txt);
}

/// A flushed pending run prints exactly the pending characters.
proof fn lemma_flat_flush(vis: bool, buf: Seq<char>)
    ensures
        flat(flush(vis, buf)) == buf,
{
    if buf.len() > 0 {
        lemma_flat_singleton(Seg { vis, txt: buf });
    } else {
        assert(flat(Seq::<Seg>::empty()) =~= buf);
    }
}

proof fn lemma_flat_concat(a: Seq<Seg>, b: Seq<Seg>)
    ensures
        flat(a + b) == flat(a) + flat(b),
    decreases b.len(),
{
    if b.len() == 0 {
        assert(a + b =~= a);
        assert(flat(a) + flat(b) =~= flat(a));
    } else {
        lemma_flat_concat(a, b.drop_last());
        assert((a + b).drop_last() =~= a + b.drop_last());
        assert((a + b).last() == b.last());
        assert(flat(a) + flat(b.drop_last()) + b.last().txt =~= flat(a) + flat(b));
    }
}

proof fn lemma_vis_text_concat(a: Seq<Seg>, b: Seq<Seg>)
    ensures
        vis_text(a + b) == vis_text(a) + vis_text(b),
    decreases b.len(),
{
    if b.len() == 0 {
        assert(a + b =~= a);
        assert(vis_text(a) + vis_text(b) =~= vis_text(a));
    } else {
        lemma_vis_text_concat(a, b.drop_last());
        assert((a + b).drop_last() =~= a + b.drop_last());
        let tail = if b.last().vis { b.last().txt } else { Seq::<char>::empty() };
        assert(vis_text(a) + vis_text(b.drop_last()) + tail =~= vis_text(a) + vis_text(b));
    }
}

proof fn lemma_invis_concat(a: Seq<Seg>, b: Seq<Seg>)
    ensures
        invis_parts(a + b) == invis_parts(a) + invis_parts(b),
    decreases b.len(),
{
    if b.len() == 0 {
        assert(a + b =~= a);
        assert(invis_parts(a) + invis_parts(b) =~= invis_parts(a));
    } else {
        lemma_invis_concat(a, b.drop_last());
        assert((a + b).drop_last() =~= a + b.drop_last());
        let tail = if !b.last().vis {
            seq![b.last().txt]
        } else {
            Seq::<Seq<char>>::empty()
        };
        assert(invis_parts(a) + invis_parts(b.drop_last()) + tail
            =~= invis_parts(a) + invis_parts(b));
    }
}

/// A value with no invisible run prints exactly its visible text.
pub proof fn lemma_flat_is_vis_without_invis(s: Seq<Seg>)
    requires
        invis_parts(s).len() == 0,
    ensures
        flat(s) == vis_text(s),
    decreases s.len(),
{
    if s.len() > 0 {
        assert(invis_parts(s) == invis_parts(s.drop_last()) + if !s.last().vis {
            seq![s.last().txt]
        } else {
            Seq::<Seq<char>>::empty()
        });
        lemma_flat_is_vis_without_invis(s.drop_last());
        assert(s.last().vis);
        assert(vis_text(s.drop_last()) + s.last().txt =~= flat(s));
    }
}

/// The visible characters never outnumber all characters.
proof fn lemma_vis_le_flat(s: Seq<Seg>)
    ensures
        vis_text(s).len() <= flat(s).len(),
    decreases s.len(),
{
    if s.len() > 0 {
        lemma_vis_le_flat(s.drop_last());
    }
}

impl SmartString {
    /// A value with no runs at all.
    pub fn new() -> (r: Self)
        ensures
            r@ =~= Seq::<Seg>::empty(),
    {
        SmartString { fragments: Vec::new() }
    }

    /// A single visible run holding the given characters; for text that is
    /// known to carry no control sequences, such as border glyphs.
    pub fn from_visible(text: Vec<char>) -> (r: Self)
        ensures
            r@ =~= seq![Seg { vis: true, txt: text@ }],
    {
        let ghost txt = text@;
        let mut fragments: Vec<Segment> = Vec::new();
        fragments.push(Segment { visible: true, text });
        let r = SmartString { fragments };
        proof {
            assert(r@ =~= seq![Seg { vis: true, txt }]);
        }
        r
    }

    /// The number of visible characters.
    pub fn char_len(&self) -> (r: usize)
        requires
            vis_len(self@) <= usize::MAX,
        ensures
            r == vis_len(self@),
    {
        let ghost model = self@;
        let mut acc: usize = 0;
        let mut i: usize = 0;
        while i < self.fragments.len()
            invariant
                i <= self.fragments.len(),
                model == self@,
                vis_len(model) <= usize::MAX,
                acc == vis_len(model.take(i as int)),
            decreases self.fragments.len() - i,
        {
            proof {
                lemma_vis_take_succ(model, i as int);
                lemma_vis_take_bound(model, i + 1);
            }
            if self.fragments[i].visible {
                acc = acc + self.fragments[i].text.len();
            }
            i = i + 1;
        }
        proof {
            assert(model.take(self.fragments.len() as int) =~= model);
        }
        acc
    }

    /// True when no visible run holds any character.
    pub fn is_empty(&self) -> (r: bool)
        ensures
            r == (vis_len(self@) == 0),
    {
        let ghost model = self@;
        let mut i: usize = 0;
        while i < self.fragments.len()
            invariant
                i <= self.fragments.len(),
                model == self@,
                vis_len(model.take(i as int)) == 0,
            decreases self.fragments.len() - i,
        {
            proof {
                lemma_vis_take_succ(model, i as int);
            }
            if self.fragments[i].visible && self.fragments[i].text.len() > 0 {
                proof {
                    lemma_vis_take_succ(model, i as int);
                    lemma_vis_take_prefix_le(model, i + 1);
                }
                return false;
            }
            i = i + 1;
        }
        proof {
            assert(model.take(self.fragments.len() as int) =~= model);
        }
        true
    }
}

/// The escape character that may open a control sequence.
pub open spec fn esc_char() -> char {
    '\u{1b}'
}

/// Whether a character may continue a control sequence after `ESC [`.
pub open spec fn is_csi_body_char(ch: char) -> bool {
    ch == '[' || ch == ';' || ('0' <= ch && ch <= '9')
}

/// Wraps a pending run as a segment, or as nothing if the run is empty.
pub open spec fn flush(vis: bool, buf: Seq<char>) -> Seq<Seg> {
    if buf.len() > 0 {
        seq![Seg { vis, txt: buf }]
    } else {
        Seq::empty()
    }
}

/// The segments still to be produced by the left-to-right scan, given the
/// remaining input, the current mode and the pending run.
///
/// In visible mode, `ESC` followed by `[` closes the pending visible run and
/// opens an invisible one.  In invisible mode, `m` closes the run; a character
/// that is neither `[`, `;`, a digit nor `m` ends the malformed run and starts
/// a fresh visible run with that character; input that ends mid-sequence
/// leaves the unterminated remainder invisible.
pub open spec fn scan_rem(rem: Seq<char>, vis: bool, buf: Seq<char>) -> Seq<Seg>
    decreases rem.len(),
{
    if rem.len() == 0 {
        flush(vis, buf)
    } else {
        let ch = rem[0];
        if vis {
            if ch == esc_char() && rem.len() >= 2 && rem[1] == '[' {
                flush(true, buf) + scan_rem(rem.drop_first(), false, seq![ch])
            } else {
                scan_rem(rem.drop_first(), true, buf.push(ch))
            }
        } else {
            if ch == 'm' {
                seq![Seg { vis: false, txt: buf.push('m') }] + scan_rem(
                    rem.drop_first(),
                    true,
                    Seq::empty(),
                )
            } else if is_csi_body_char(ch) {
                scan_rem(rem.drop_first(), false, buf.push(ch))
            } else {
                flush(false, buf) + scan_rem(rem.drop_first(), true, seq![ch])
            }
        }
    }
}

/// The segmentation of a source string, scanned from the start in visible
/// mode with nothing pending.
pub open spec fn scan(s: Seq<char>) -> Seq<Seg> {
    scan_rem(s, true, Seq::empty())
}

/// Scanning loses no characters: printing the segments restores the source.
proof fn lemma_scan_rem_flat(rem: Seq<char>, vis: bool, buf: Seq<char>)
    ensures
        flat(scan_rem(rem, vis, buf)) == buf + rem,
    decreases rem.len(),
{
    if rem.len() == 0 {
        lemma_flat_flush(vis, buf);
        assert(buf + rem =~= buf);
    } else {
        let ch = rem[0];
        let tail = rem.drop_first();
        assert(rem =~= seq![ch] + tail);
        if vis {
            if ch == esc_char() && rem.len() >= 2 && rem[1] == '[' {
                lemma_scan_rem_flat(tail, false, seq![ch]);
                lemma_flat_concat(flush(true, buf), scan_rem(tail, false, seq![ch]));
                lemma_flat_flush(true, buf);
                assert(buf + (seq![ch] + tail) =~= buf + rem);
            } else {
                lemma_scan_rem_flat(tail, true, buf.push(ch));
                assert(buf.push(ch) + tail =~= buf + rem);
            }
        } else {
            if ch == 'm' {
                lemma_scan_rem_flat(tail, true, Seq::empty());
                lemma_flat_concat(
                    seq![Seg { vis: false, txt: buf.push('m') }],
                    scan_rem(tail, true, Seq::empty()),
                );
                lemma_flat_singleton(Seg { vis: false, txt: buf.push('m') });
                assert(buf.push('m') + (Seq::<char>::empty() + tail) =~= buf + rem);
            } else if is_csi_body_char(ch) {
                lemma_scan_rem_flat(tail, false, buf.push(ch));
                assert(buf.push(ch) + tail =~= buf + rem);
            } else {
                lemma_scan_rem_flat(tail, true, seq![ch]);
                lemma_flat_concat(flush(false, buf), scan_rem(tail, true, seq![ch]));
                lemma_flat_flush(false, buf);
                assert(buf + (seq![ch] + tail) =~= buf + rem);
            }
        }
    }
}

/// Printing a scanned string emits exactly the source characters.
pub proof fn lemma_scan_flat(s: Seq<char>)
    ensures
        flat(scan(s)) == s,
{
    lemma_scan_rem_flat(s, true, Seq::empty());
    assert(Seq::<char>::empty() + s =~= s);
}

impl SmartString {
    /// Scan a source string into visible and invisible runs.
    pub fn from(source: &str) -> (r: Self)
        ensures
            r@ == scan(source@),
            vis_len(r@) <= usize::MAX,
    {
        let n = source.unicode_len();
        let mut fragments: Vec<Segment> = Vec::new();
        let mut visible = true;
        let mut buf: Vec<char> = Vec::new();
        let mut i: usize = 0;
        proof {
            assert(source@.skip(0) =~= source@);
            assert(fragments@.map_values(|s: Segment| s@) =~= Seq::<Seg>::empty());
            assert(Seq::<Seg>::empty() + scan_rem(source@, true, buf@) =~= scan_rem(
                source@,
                true,
                buf@,
            ));
        }
        while i < n
            invariant
                i <= n,
                n == source@.len(),
                !visible ==> buf@.len() > 0,
                scan(source@) == fragments@.map_values(|s: Segment| s@) + scan_rem(
                    source@.skip(i as int),
                    visible,
                    buf@,
                ),
            decreases n - i,
        {
            let ghost rem = source@.skip(i as int);
            let ghost done = fragments@.map_values(|s: Segment| s@);
            let ghost oldbuf = buf@;
            proof {
                assert(rem.len() == n - i);
                assert(rem[0] == source@[i as int]);
                assert(rem.drop_first() =~= source@.skip(i as int + 1));
            }
            let ch = source.get_char(i);
            if visible {
                let mut esc_next = false;
                if ch == '\u{1b}' && i + 1 < n {
                    proof {
                        assert(rem[1] == source@[i as int + 1]);
                    }
                    esc_next = source.get_char(i + 1) == '[';
                }
                if esc_next {
                    if buf.len() > 0 {
                        let full = buf;
                        buf = Vec::new();
                        fragments.push(Segment { visible: true, text: full });
                    }
                    visible = false;
                    buf.push(ch);
                    proof {
                        assert(fragments@.map_values(|s: Segment| s@) =~= done + flush(
                            true,
                            oldbuf,
                        ));
                        assert(buf@ =~= seq![ch]);
                        assert((done + flush(true, oldbuf)) + scan_rem(
                            rem.drop_first(),
                            false,
                            buf@,
                        ) =~= done + (flush(true, oldbuf) + scan_rem(
                            rem.drop_first(),
                            false,
                            buf@,
                        )));
                    }
                } else {
                    buf.push(ch);
                }
            } else {
                if ch == 'm' {
                    buf.push(ch);
                    let full = buf;
                    buf = Vec::new();
                    fragments.push(Segment { visible: false, text: full });
                    visible = true;
                    proof {
                        assert(fragments@.map_values(|s: Segment| s@) =~= done.push(
                            Seg { vis: false, txt: oldbuf.push('m') },
                        ));
                        assert(done.push(Seg { vis: false, txt: oldbuf.push('m') }) + scan_rem(
                            rem.drop_first(),
                            true,
                            buf@,
                        ) =~= done + (seq![Seg { vis: false, txt: oldbuf.push('m') }] + scan_rem(
                            rem.drop_first(),
                            true,
                            buf@,
                        )));
                    }
                } else if ch != '[' && ch != ';' && !(ch >= '0' && ch <= '9') {
                    let full = buf;
                    buf = Vec::new();
                    fragments.push(Segment { visible: false, text: full });
                    visible = true;
                    buf.push(ch);
                    proof {
                        assert(!is_csi_body_char(rem[0]) && rem[0] != 'm');
                        assert(fragments@.map_values(|s: Segment| s@) =~= done + flush(
                            false,
                            oldbuf,
                        ));
                        assert(buf@ =~= seq![ch]);
                        assert((done + flush(false, oldbuf)) + scan_rem(
                            rem.drop_first(),
                            true,
                            buf@,
                        ) =~= done + (flush(false, oldbuf) + scan_rem(
                            rem.drop_first(),
                            true,
                            buf@,
                        )));
                    }
                } else {
                    buf.push(ch);
                    proof {
                        assert(is_csi_body_char(rem[0]));
                    }
                }
            }
            i = i + 1;
        }
        let ghost done = fragments@.map_values(|s: Segment| s@);
        let ghost lastbuf = buf@;
        if buf.len() > 0 {
            fragments.push(Segment { visible, text: buf });
        }
        let r = SmartString { fragments };
        proof {
            assert(source@.skip(n as int) =~= Seq::<char>::empty());
            assert(r@ =~= done + flush(visible, lastbuf));
            lemma_scan_flat(source@);
            lemma_vis_le_flat(r@);
        }
        r
    }
}

/// A complete control sequence: the escape, the bracket, a body, the `m`.
pub open spec fn csi_seq(body: Seq<char>) -> Seq<char> {
    seq![esc_char(), '['] + body + seq!['m']
}

/// Whether every character may stand in a control sequence's body.
pub open spec fn csi_body_ok(body: Seq<char>) -> bool {
    forall|i: int| 0 <= i < body.len() ==> is_csi_body_char(#[trigger] body[i])
}

/// In invisible mode the scanner consumes an admissible body and its closing
/// `m` into a single invisible run, and goes back to visible mode.
proof fn lemma_scan_invis_run(body: Seq<char>, rest: Seq<char>, pre: Seq<char>)
    requires
        csi_body_ok(body),
    ensures
        scan_rem(body + seq!['m'] + rest, false, pre) == seq![
            Seg { vis: false, txt: pre + body + seq!['m'] },
        ] + scan_rem(rest, true, Seq::empty()),
    decreases body.len(),
{
    let rem = body + seq!['m'] + rest;
    if body.len() == 0 {
        assert(rem[0] == 'm');
        assert(rem.drop_first() =~= rest);
        assert(pre.push('m') =~= pre + body + seq!['m']);
    } else {
        assert(rem[0] == body[0]);
        assert(is_csi_body_char(body[0]));
        assert(body[0] != 'm');
        assert(rem.drop_first() =~= body.drop_first() + seq!['m'] + rest);
        lemma_scan_invis_run(body.drop_first(), rest, pre.push(body[0]));
        assert(pre.push(body[0]) + body.drop_first() + seq!['m'] =~= pre + body + seq!['m']);
    }
}

/// A pending visible run is a prefix of the visible text still to come.
proof fn lemma_buf_prefix(rem: Seq<char>, buf: Seq<char>)
    ensures
        vis_text(scan_rem(rem, true, buf)) == buf + vis_text(scan_rem(rem, true, Seq::empty())),
    decreases rem.len(),
{
    if rem.len() == 0 {
        lemma_vis_flush(true, buf);
        lemma_vis_flush(true, Seq::empty());
        assert(buf + Seq::<char>::empty() =~= buf);
    } else {
        let ch = rem[0];
        let tail = rem.drop_first();
        if ch == esc_char() && rem.len() >= 2 && rem[1] == '[' {
            let inner = scan_rem(tail, false, seq![ch]);
            lemma_vis_text_concat(flush(true, buf), inner);
            lemma_vis_text_concat(flush(true, Seq::empty()), inner);
            lemma_vis_flush(true, buf);
            lemma_vis_flush(true, Seq::empty());
            assert(Seq::<char>::empty() + vis_text(inner) =~= vis_text(inner));
        } else {
            lemma_buf_prefix(tail, buf.push(ch));
            lemma_buf_prefix(tail, seq![ch]);
            let x = vis_text(scan_rem(tail, true, Seq::empty()));
            assert(buf.push(ch) + x =~= buf + (seq![ch] + x));
        }
    }
}

/// What flushing a pending run shows.
proof fn lemma_vis_flush(vis: bool, buf: Seq<char>)
    ensures
        vis_text(flush(vis, buf)) == if vis {
            buf
        } else {
            Seq::<char>::empty()
        },
        invis_parts(flush(vis, buf)) == if !vis && buf.len() > 0 {
            seq![buf]
        } else {
            Seq::<Seq<char>>::empty()
        },
{
    if buf.len() > 0 {
        lemma_vis_singleton(Seg { vis, txt: buf });
    } else {
        assert(vis_text(Seq::<Seg>::empty()) =~= Seq::<char>::empty());
        assert(invis_parts(Seq::<Seg>::empty()) =~= Seq::<Seq<char>>::empty());
    }
}

/// Scanning characters free of the escape character leaves the scanner in
/// visible mode with those characters appended to the pending run.
proof fn lemma_scan_plain(plain: Seq<char>, rest: Seq<char>, buf: Seq<char>)
    requires
        forall|i: int| 0 <= i < plain.len() ==> #[trigger] plain[i] != esc_char(),
    ensures
        scan_rem(plain + rest, true, buf) == scan_rem(rest, true, buf + plain),
    decreases plain.len(),
{
    if plain.len() == 0 {
        assert(plain + rest =~= rest);
        assert(buf + plain =~= buf);
    } else {
        let rem = plain + rest;
        assert(rem[0] == plain[0]);
        assert(rem.drop_first() =~= plain.drop_first() + rest);
        lemma_scan_plain(plain.drop_first(), rest, buf.push(plain[0]));
        assert(buf.push(plain[0]) + plain.drop_first() =~= buf + plain);
    }
}

/// A well-formed escape sequence is captured whole as one invisible run: it
/// adds nothing to the visible text, which is exactly that of the same
/// string without it; it stands among the invisible runs unmodified; and
/// every byte of the input, the sequence included, is reproduced when the
/// scanned value prints.
pub proof fn lemma_escape_invisible(plain: Seq<char>, body: Seq<char>, rest: Seq<char>)
    requires
        forall|i: int| 0 <= i < plain.len() ==> #[trigger] plain[i] != esc_char(),
        csi_body_ok(body),
    ensures
        vis_text(scan(plain + csi_seq(body) + rest)) == vis_text(scan(plain + rest)),
        flat(scan(plain + csi_seq(body) + rest)) == plain + csi_seq(body) + rest,
        invis_parts(scan(plain + csi_seq(body) + rest)).contains(csi_seq(body)),
{
    let e = csi_seq(body);
    let whole = plain + e + rest;
    assert(whole =~= plain + (e + rest));
    lemma_scan_plain(plain, e + rest, Seq::empty());
    assert(Seq::<char>::empty() + plain =~= plain);
    let rem = e + rest;
    assert(rem[0] == esc_char());
    assert(rem.len() >= 2);
    assert(rem[1] == '[');
    assert(rem.drop_first() =~= seq!['['] + (body + seq!['m'] + rest));
    let rem2 = seq!['['] + (body + seq!['m'] + rest);
    assert(rem2[0] == '[');
    assert(is_csi_body_char('['));
    assert(rem2[0] != 'm');
    assert(rem2.drop_first() =~= body + seq!['m'] + rest);
    lemma_scan_invis_run(body, rest, seq![esc_char(), '[']);
    let seg = Seg { vis: false, txt: seq![esc_char(), '['] + body + seq!['m'] };
    assert(seg.txt =~= e);
    let tail_scan = scan_rem(rest, true, Seq::<char>::empty());
    assert(scan_rem(rem, true, plain) == flush(true, plain) + scan_rem(
        rem.drop_first(),
        false,
        seq![esc_char()],
    ));
    assert(scan_rem(rem.drop_first(), false, seq![esc_char()]) == scan_rem(
        rem2,
        false,
        seq![esc_char()],
    ));
    assert(scan_rem(rem2, false, seq![esc_char()]) == scan_rem(
        rem2.drop_first(),
        false,
        seq![esc_char()].push('['),
    ));
    assert(seq![esc_char()].push('[') =~= seq![esc_char(), '[']);
    assert(scan_rem(rem2.drop_first(), false, seq![esc_char(), '[']) == scan_rem(
        body + seq!['m'] + rest,
        false,
        seq![esc_char(), '['],
    ));
    assert(scan_rem(rem, true, plain) == flush(true, plain) + (seq![seg] + tail_scan));
    assert(scan(whole) == flush(true, plain) + (seq![seg] + tail_scan));
    // the visible text on both sides
    lemma_vis_text_concat(flush(true, plain), seq![seg] + tail_scan);
    lemma_vis_text_concat(seq![seg], tail_scan);
    lemma_vis_singleton(seg);
    lemma_vis_flush(true, plain);
    assert(plain + rest =~= plain + (Seq::<char>::empty() + rest));
    lemma_scan_plain(plain, rest, Seq::empty());
    assert(scan(plain + rest) == scan_rem(rest, true, plain));
    lemma_buf_prefix(rest, plain);
    assert(vis_text(scan(whole)) =~= plain + vis_text(tail_scan));
    assert(vis_text(scan(plain + rest)) =~= plain + vis_text(tail_scan));
    // every byte reproduced
    lemma_scan_flat(whole);
    // the sequence stands among the invisible runs
    lemma_invis_concat(flush(true, plain), seq![seg] + tail_scan);
    lemma_invis_concat(seq![seg], tail_scan);
    lemma_vis_flush(true, plain);
    assert(invis_parts(seq![seg])[0] == e);
    assert(invis_parts(scan(whole))[invis_parts(flush(true, plain)).len() as int] == e);
}

/// Each run's text stands contiguous and unmodified in the printed value,
/// right after everything the runs before it print.
pub proof fn lemma_run_in_print(s: Seq<Seg>, i: int)
    requires
        0 <= i < s.len(),
    ensures
        flat(s.take(i)).len() + s[i].txt.len() <= flat(s).len(),
        flat(s).subrange(
            flat(s.take(i)).len() as int,
            (flat(s.take(i)).len() + s[i].txt.len()) as int,
        ) == s[i].txt,
{
    assert(s =~= (s.take(i) + seq![s[i]]) + s.skip(i + 1));
    lemma_flat_concat(s.take(i) + seq![s[i]], s.skip(i + 1));
    lemma_flat_concat(s.take(i), seq![s[i]]);
    lemma_flat_singleton(s[i]);
    let off = flat(s.take(i)).len() as int;
    assert(flat(s).subrange(off, off + s[i].txt.len()) =~= s[i].txt);
}

/// Whether any run is marked visible.
pub open spec fn has_vis(s: Seq<Seg>) -> bool {
    exists|i: int| 0 <= i < s.len() && s[i].vis
}

/// The value after appending one character to the last visible run, or as a
/// new trailing visible run when none exists.
pub open spec fn pushed(s: Seq<Seg>, ch: char) -> Seq<Seg>
    decreases s.len(),
{
    if s.len() == 0 {
        seq![Seg { vis: true, txt: seq![ch] }]
    } else if s.last().vis {
        s.drop_last().push(Seg { vis: true, txt: s.last().txt.push(ch) })
    } else if has_vis(s.drop_last()) {
        pushed(s.drop_last(), ch).push(s.last())
    } else {
        s.push(Seg { vis: true, txt: seq![ch] })
    }
}

/// The value after inserting one character at the start of the first visible
/// run, or as a new leading visible run when none exists.
pub open spec fn lpushed(s: Seq<Seg>, ch: char) -> Seq<Seg>
    decreases s.len(),
{
    if s.len() == 0 {
        seq![Seg { vis: true, txt: seq![ch] }]
    } else if s.first().vis {
        seq![Seg { vis: true, txt: seq![ch] + s.first().txt }] + s.drop_first()
    } else if has_vis(s.drop_first()) {
        seq![s.first()] + lpushed(s.drop_first(), ch)
    } else {
        seq![Seg { vis: true, txt: seq![ch] }] + s
    }
}

/// The value after removing the last character of the last non-empty visible
/// run; unchanged when no visible run has content.
pub open spec fn popped(s: Seq<Seg>) -> Seq<Seg>
    decreases s.len(),
{
    if s.len() == 0 {
        s
    } else if s.last().vis && s.last().txt.len() > 0 {
        s.drop_last().push(Seg { vis: true, txt: s.last().txt.drop_last() })
    } else {
        popped(s.drop_last()).push(s.last())
    }
}

/// The character that removing would yield, if any visible run has content.
pub open spec fn pop_char(s: Seq<Seg>) -> Option<char>
    decreases s.len(),
{
    if s.len() == 0 {
        None
    } else if s.last().vis && s.last().txt.len() > 0 {
        Some(s.last().txt.last())
    } else {
        pop_char(s.drop_last())
    }
}

proof fn lemma_vis_singleton(g: Seg)
    ensures
        vis_text(seq![g]) == if g.vis {
            g.txt
        } else {
            Seq::<char>::empty()
        },
        invis_parts(seq![g]) == if !g.vis {
            seq![g.txt]
        } else {
            Seq::<Seq<char>>::empty()
        },
        flat(seq![g]) == g.txt,
{
    assert(seq![g].drop_last() =~= Seq::<Seg>::empty());
    assert(vis_text(Seq::<Seg>::empty()) =~= Seq::<char>::empty());
    assert(invis_parts(Seq::<Seg>::empty()) =~= Seq::<Seq<char>>::empty());
    if g.vis {
        assert(vis_text(seq![g]) =~= g.txt);
        assert(invis_parts(seq![g]) =~= Seq::<Seq<char>>::empty());
    } else {
        assert(vis_text(seq![g]) =~= Seq::<char>::empty());
        assert(invis_parts(seq![g]) =~= seq![g.txt]);
    }
    lemma_flat_singleton(g);
}

/// Appending a visible character appends it to the visible text and leaves
/// the invisible runs as they were.
pub proof fn lemma_pushed_parts(s: Seq<Seg>, ch: char)
    ensures
        vis_text(pushed(s, ch)) == vis_text(s).push(ch),
        invis_parts(pushed(s, ch)) == invis_parts(s),
    decreases s.len(),
{
    if s.len() == 0 {
        lemma_vis_singleton(Seg { vis: true, txt: seq![ch] });
        assert(vis_text(s).push(ch) =~= seq![ch]);
    } else if s.last().vis {
        let u = Seg { vis: true, txt: s.last().txt.push(ch) };
        let r = s.drop_last().push(u);
        assert(r.drop_last() =~= s.drop_last());
        assert(vis_text(r) == vis_text(s.drop_last()) + s.last().txt.push(ch));
        assert(vis_text(s.drop_last()) + s.last().txt.push(ch) =~= (vis_text(s.drop_last())
            + s.last().txt).push(ch));
        assert(invis_parts(r) =~= invis_parts(s));
    } else if has_vis(s.drop_last()) {
        lemma_pushed_parts(s.drop_last(), ch);
        let r = pushed(s.drop_last(), ch).push(s.last());
        assert(r.drop_last() =~= pushed(s.drop_last(), ch));
        assert(vis_text(r) =~= vis_text(pushed(s.drop_last(), ch)));
        assert(vis_text(s) =~= vis_text(s.drop_last()));
        assert(invis_parts(r) =~= invis_parts(pushed(s.drop_last(), ch)) + seq![s.last().txt]);
        assert(invis_parts(s) =~= invis_parts(s.drop_last()) + seq![s.last().txt]);
    } else {
        let r = s.push(Seg { vis: true, txt: seq![ch] });
        assert(r.drop_last() =~= s);
        assert(vis_text(r) =~= vis_text(s) + seq![ch]);
        assert(vis_text(s) + seq![ch] =~= vis_text(s).push(ch));
        assert(invis_parts(r) =~= invis_parts(s));
    }
}

/// Inserting a visible character at the front prepends it to the visible
/// text and leaves the invisible runs as they were.
pub proof fn lemma_lpushed_parts(s: Seq<Seg>, ch: char)
    ensures
        vis_text(lpushed(s, ch)) == seq![ch] + vis_text(s),
        invis_parts(lpushed(s, ch)) == invis_parts(s),
    decreases s.len(),
{
    if s.len() == 0 {
        lemma_vis_singleton(Seg { vis: true, txt: seq![ch] });
        assert(seq![ch] + vis_text(s) =~= seq![ch]);
    } else if s.first().vis {
        let u = Seg { vis: true, txt: seq![ch] + s.first().txt };
        lemma_vis_text_concat(seq![u], s.drop_first());
        lemma_invis_concat(seq![u], s.drop_first());
        lemma_vis_singleton(u);
        assert(s =~= seq![s.first()] + s.drop_first());
        lemma_vis_text_concat(seq![s.first()], s.drop_first());
        lemma_invis_concat(seq![s.first()], s.drop_first());
        lemma_vis_singleton(s.first());
        assert(vis_text(lpushed(s, ch)) =~= seq![ch] + vis_text(s));
    } else if has_vis(s.drop_first()) {
        lemma_lpushed_parts(s.drop_first(), ch);
        lemma_vis_text_concat(seq![s.first()], lpushed(s.drop_first(), ch));
        lemma_invis_concat(seq![s.first()], lpushed(s.drop_first(), ch));
        lemma_vis_singleton(s.first());
        assert(s =~= seq![s.first()] + s.drop_first());
        lemma_vis_text_concat(seq![s.first()], s.drop_first());
        lemma_invis_concat(seq![s.first()], s.drop_first());
        assert(vis_text(lpushed(s, ch)) =~= seq![ch] + vis_text(s));
        assert(invis_parts(lpushed(s, ch)) =~= invis_parts(s));
    } else {
        let u = Seg { vis: true, txt: seq![ch] };
        lemma_vis_text_concat(seq![u], s);
        lemma_invis_concat(seq![u], s);
        lemma_vis_singleton(u);
        assert(vis_text(lpushed(s, ch)) =~= seq![ch] + vis_text(s));
    }
}

/// With the last visible run located, appending rewrites just that run.
proof fn lemma_pushed_at(s: Seq<Seg>, j: int, ch: char)
    requires
        0 <= j < s.len(),
        s[j].vis,
        forall|t: int| j < t < s.len() ==> !(#[trigger] s[t]).vis,
    ensures
        pushed(s, ch) == s.update(j, Seg { vis: true, txt: s[j].txt.push(ch) }),
    decreases s.len(),
{
    let u = Seg { vis: true, txt: s[j].txt.push(ch) };
    if j == s.len() - 1 {
        assert(s.drop_last().push(Seg { vis: true, txt: s.last().txt.push(ch) }) =~= s.update(
            j,
            u,
        ));
    } else {
        assert(!s.last().vis);
        assert(s.drop_last()[j] == s[j]);
        assert(has_vis(s.drop_last()));
        assert(forall|t: int|
            j < t < s.len() - 1 ==> !(#[trigger] s.drop_last()[t]).vis);
        lemma_pushed_at(s.drop_last(), j, ch);
        assert(pushed(s.drop_last(), ch).push(s.last()) =~= s.update(j, u));
    }
}

/// With no visible run at all, appending adds a new trailing run.
proof fn lemma_pushed_none(s: Seq<Seg>, ch: char)
    requires
        forall|t: int| 0 <= t < s.len() ==> !(#[trigger] s[t]).vis,
    ensures
        pushed(s, ch) == s.push(Seg { vis: true, txt: seq![ch] }),
{
    let u = Seg { vis: true, txt: seq![ch] };
    if s.len() == 0 {
        assert(seq![u] =~= s.push(u));
    } else {
        assert(!s.last().vis);
        assert(!has_vis(s.drop_last())) by {
            if has_vis(s.drop_last()) {
                let i = choose|i: int| 0 <= i < s.drop_last().len() && s.drop_last()[i].vis;
                assert(s[i].vis);
            }
        }
    }
}

/// With the first visible run located, inserting rewrites just that run.
proof fn lemma_lpushed_at(s: Seq<Seg>, j: int, ch: char)
    requires
        0 <= j < s.len(),
        s[j].vis,
        forall|t: int| 0 <= t < j ==> !(#[trigger] s[t]).vis,
    ensures
        lpushed(s, ch) == s.update(j, Seg { vis: true, txt: seq![ch] + s[j].txt }),
    decreases s.len(),
{
    let u = Seg { vis: true, txt: seq![ch] + s[j].txt };
    if j == 0 {
        assert(seq![Seg { vis: true, txt: seq![ch] + s.first().txt }] + s.drop_first() =~= s.update(
            0,
            u,
        ));
    } else {
        assert(!s.first().vis);
        assert(s.drop_first()[j - 1] == s[j]);
        assert(has_vis(s.drop_first()));
        assert(forall|t: int|
            0 <= t < j - 1 ==> !(#[trigger] s.drop_first()[t]).vis);
        lemma_lpushed_at(s.drop_first(), j - 1, ch);
        assert(seq![s.first()] + lpushed(s.drop_first(), ch) =~= s.update(j, u));
    }
}

/// With no visible run at all, inserting adds a new leading run.
proof fn lemma_lpushed_none(s: Seq<Seg>, ch: char)
    requires
        forall|t: int| 0 <= t < s.len() ==> !(#[trigger] s[t]).vis,
    ensures
        lpushed(s, ch) == seq![Seg { vis: true, txt: seq![ch] }] + s,
{
    let u = Seg { vis: true, txt: seq![ch] };
    if s.len() == 0 {
        assert(seq![u] =~= seq![u] + s);
    } else {
        assert(!s.first().vis);
        assert(!has_vis(s.drop_first())) by {
            if has_vis(s.drop_first()) {
                let i = choose|i: int| 0 <= i < s.drop_first().len() && s.drop_first()[i].vis;
                assert(s[i + 1].vis);
            }
        }
    }
}

/// With the last non-empty visible run located, removal rewrites just it.
proof fn lemma_popped_at(s: Seq<Seg>, j: int)
    requires
        0 <= j < s.len(),
        s[j].vis && s[j].txt.len() > 0,
        forall|t: int| j < t < s.len() ==> !((#[trigger] s[t]).vis && s[t].txt.len() > 0),
    ensures
        popped(s) == s.update(j, Seg { vis: true, txt: s[j].txt.drop_last() }),
        pop_char(s) == Some(s[j].txt.last()),
    decreases s.len(),
{
    let u = Seg { vis: true, txt: s[j].txt.drop_last() };
    if j == s.len() - 1 {
        assert(s.drop_last().push(Seg { vis: true, txt: s.last().txt.drop_last() }) =~= s.update(
            j,
            u,
        ));
    } else {
        assert(!(s.last().vis && s.last().txt.len() > 0));
        assert(s.drop_last()[j] == s[j]);
        assert(forall|t: int|
            j < t < s.len() - 1 ==> !((#[trigger] s.drop_last()[t]).vis
                && s.drop_last()[t].txt.len() > 0));
        lemma_popped_at(s.drop_last(), j);
        assert(popped(s.drop_last()).push(s.last()) =~= s.update(j, u));
    }
}

/// With no non-empty visible run, removal finds nothing and changes nothing.
proof fn lemma_popped_none(s: Seq<Seg>)
    requires
        forall|t: int| 0 <= t < s.len() ==> !((#[trigger] s[t]).vis && s[t].txt.len() > 0),
    ensures
        popped(s) == s,
        pop_char(s) is None,
    decreases s.len(),
{
    if s.len() > 0 {
        assert(forall|t: int|
            0 <= t < s.len() - 1 ==> !((#[trigger] s.drop_last()[t]).vis
                && s.drop_last()[t].txt.len() > 0));
        lemma_popped_none(s.drop_last());
        assert(popped(s.drop_last()).push(s.last()) =~= s);
    }
}

impl SmartString {
    /// Append a character to the last visible run, or start a new trailing
    /// visible run when there is none.
    pub fn push_visible(&mut self, ch: char)
        ensures
            final(self)@ == pushed(old(self)@, ch),
    {
        let ghost m = old(self)@;
        let n = self.fragments.len();
        let mut k: usize = n;
        while k > 0 && !self.fragments[k - 1].visible
            invariant
                k <= n,
                n == self.fragments.len(),
                self@ == m,
                m.len() == n,
                forall|t: int| k <= t < n ==> !(#[trigger] m[t]).vis,
            decreases k,
        {
            proof {
                assert(m[k - 1] == self.fragments@[k - 1]@);
            }
            k = k - 1;
        }
        if k > 0 {
            let j = k - 1;
            proof {
                assert(m[j as int] == self.fragments@[j as int]@);
            }
            self.fragments[j].text.push(ch);
            proof {
                lemma_pushed_at(m, j as int, ch);
                assert(self@ =~= m.update(j as int, Seg { vis: true, txt: m[j as int].txt.push(ch) }));
            }
        } else {
            let mut text: Vec<char> = Vec::new();
            text.push(ch);
            self.fragments.push(Segment { visible: true, text });
            proof {
                lemma_pushed_none(m, ch);
                assert(self@ =~= m.push(Seg { vis: true, txt: seq![ch] }));
            }
        }
    }

    /// Insert a character at the start of the first visible run, or start a
    /// new leading visible run when there is none.
    pub fn lpush_visible(&mut self, ch: char)
        ensures
            final(self)@ == lpushed(old(self)@, ch),
    {
        let ghost m = old(self)@;
        let n = self.fragments.len();
        let mut k: usize = 0;
        while k < n && !self.fragments[k].visible
            invariant
                k <= n,
                n == self.fragments.len(),
                self@ == m,
                m.len() == n,
                forall|t: int| 0 <= t < k ==> !(#[trigger] m[t]).vis,
            decreases n - k,
        {
            proof {
                assert(m[k as int] == self.fragments@[k as int]@);
            }
            k = k + 1;
        }
        if k < n {
            proof {
                assert(m[k as int] == self.fragments@[k as int]@);
            }
            self.fragments[k].text.insert(0, ch);
            proof {
                lemma_lpushed_at(m, k as int, ch);
                assert(seq![ch] + m[k as int].txt =~= m[k as int].txt.insert(0, ch));
                assert(self@ =~= m.update(
                    k as int,
                    Seg { vis: true, txt: seq![ch] + m[k as int].txt },
                ));
            }
        } else {
            let mut text: Vec<char> = Vec::new();
            text.push(ch);
            self.fragments.insert(0, Segment { visible: true, text });
            proof {
                lemma_lpushed_none(m, ch);
                assert(self@ =~= seq![Seg { vis: true, txt: seq![ch] }] + m);
            }
        }
    }

    /// Remove and return the last character of the last non-empty visible
    /// run; invisible runs are never touched.
    pub fn pop(&mut self) -> (r: Option<char>)
        ensures
            final(self)@ == popped(old(self)@),
            r == pop_char(old(self)@),
    {
        let ghost m = old(self)@;
        let n = self.fragments.len();
        let mut k: usize = n;
        while k > 0 && !(self.fragments[k - 1].visible && self.fragments[k - 1].text.len() > 0)
            invariant
                k <= n,
                n == self.fragments.len(),
                self@ == m,
                m.len() == n,
                forall|t: int|
                    k <= t < n ==> !((#[trigger] m[t]).vis && m[t].txt.len() > 0),
            decreases k,
        {
            proof {
                assert(m[k - 1] == self.fragments@[k - 1]@);
            }
            k = k - 1;
        }
        if k > 0 {
            let j = k - 1;
            proof {
                assert(m[j as int] == self.fragments@[j as int]@);
            }
            let r = self.fragments[j].text.pop();
            proof {
                lemma_popped_at(m, j as int);
                assert(self@ =~= m.update(
                    j as int,
                    Seg { vis: true, txt: m[j as int].txt.drop_last() },
                ));
            }
            r
        } else {
            proof {
                lemma_popped_none(m);
            }
            None
        }
    }
}

impl SmartString {
    /// An independent copy with the same runs.
    pub fn duplicate(&self) -> (r: Self)
        ensures
            r@ == self@,
    {
        let ghost m = self@;
        let mut fragments: Vec<Segment> = Vec::new();
        let mut i: usize = 0;
        while i < self.fragments.len()
            invariant
                i <= self.fragments.len(),
                m == self@,
                fragments@.map_values(|s: Segment| s@) == m.take(i as int),
            decreases self.fragments.len() - i,
        {
            let src = &self.fragments[i];
            let mut text: Vec<char> = Vec::new();
            let mut j: usize = 0;
            while j < src.text.len()
                invariant
                    j <= src.text.len(),
                    text@ == src.text@.take(j as int),
                decreases src.text.len() - j,
            {
                text.push(src.text[j]);
                proof {
                    assert(src.text@.take(j as int).push(src.text@[j as int]) =~= src.text@.take(
                        j + 1,
                    ));
                }
                j = j + 1;
            }
            proof {
                assert(src.text@.take(src.text.len() as int) =~= src.text@);
            }
            let seg = Segment { visible: src.visible, text };
            let ghost segv = seg@;
            let ghost prev = fragments@;
            fragments.push(seg);
            proof {
                let newm = fragments@.map_values(|s: Segment| s@);
                assert(prev.map_values(|s: Segment| s@).len() == prev.len());
                assert(prev.len() == i as int);
                assert(fragments@ == prev.push(seg));
                assert(fragments@.len() == i + 1);
                assert(newm.len() == i + 1);
                assert(m.len() == self.fragments@.len());
                assert(m[i as int] == self.fragments@[i as int]@);
                assert(segv == m[i as int]);
                assert forall|t: int| 0 <= t < i + 1 implies newm[t] == m.take(i + 1)[t] by {
                    assert(newm[t] == fragments@[t]@);
                    if t < i {
                        assert(fragments@[t] == prev[t]);
                        assert(prev.map_values(|s: Segment| s@)[t] == prev[t]@);
                        assert(prev.map_values(|s: Segment| s@)[t] == m.take(i as int)[t]);
                    } else {
                        assert(fragments@[t]@ == segv);
                    }
                }
                assert(newm =~= m.take(i + 1));
            }
            i = i + 1;
        }
        let r = SmartString { fragments };
        proof {
            assert(m.take(self.fragments.len() as int) =~= m);
        }
        r
    }
}

/// Removing the last visible character drops the last character of the
/// visible text and leaves the invisible runs as they were; with no visible
/// character the value is unchanged and nothing is reported removed.
pub proof fn lemma_popped_parts(s: Seq<Seg>)
    ensures
        vis_len(s) > 0 ==> vis_text(popped(s)) == vis_text(s).drop_last() && pop_char(s) == Some(
            vis_text(s).last(),
        ),
        vis_len(s) == 0 ==> popped(s) == s && pop_char(s) is None,
        invis_parts(popped(s)) == invis_parts(s),
    decreases s.len(),
{
    if s.len() == 0 {
    } else if s.last().vis && s.last().txt.len() > 0 {
        let u = Seg { vis: true, txt: s.last().txt.drop_last() };
        let r = s.drop_last().push(u);
        assert(r.drop_last() =~= s.drop_last());
        assert(vis_text(r) == vis_text(s.drop_last()) + s.last().txt.drop_last());
        assert(vis_text(s) == vis_text(s.drop_last()) + s.last().txt);
        assert(vis_text(s.drop_last()) + s.last().txt.drop_last() =~= (vis_text(s.drop_last())
            + s.last().txt).drop_last());
        assert(vis_text(s).last() == s.last().txt.last());
        assert(invis_parts(r) =~= invis_parts(s));
    } else {
        lemma_popped_parts(s.drop_last());
        let r = popped(s.drop_last()).push(s.last());
        assert(r.drop_last() =~= popped(s.drop_last()));
        if s.last().vis {
            assert(vis_text(s) =~= vis_text(s.drop_last()));
            assert(vis_text(r) =~= vis_text(popped(s.drop_last())));
            assert(invis_parts(r) =~= invis_parts(popped(s.drop_last())));
            assert(invis_parts(s) =~= invis_parts(s.drop_last()));
            if vis_len(s) == 0 {
                assert(popped(s.drop_last()) == s.drop_last());
                assert(r =~= s);
            }
        } else {
            assert(vis_text(s) =~= vis_text(s.drop_last()));
            assert(vis_text(r) =~= vis_text(popped(s.drop_last())));
            assert(invis_parts(r) == invis_parts(popped(s.drop_last())) + seq![s.last().txt]);
            assert(invis_parts(s) == invis_parts(s.drop_last()) + seq![s.last().txt]);
            if vis_len(s) == 0 {
                assert(popped(s.drop_last()) == s.drop_last());
                assert(r =~= s);
            }
        }
    }
}

/// Peeling one more element off the front extends the visible text by that
/// element's contribution.
proof fn lemma_vis_take_succ(s: Seq<Seg>, i: int)
    requires
        0 <= i < s.len(),
    ensures
        vis_text(s.take(i + 1)) == vis_text(s.take(i)) + if s[i].vis {
            s[i].txt
        } else {
            Seq::<char>::empty()
        },
{
    assert(s.take(i + 1).drop_last() =~= s.take(i));
    assert(s.take(i + 1).last() == s[i]);
}

/// The visible text of a prefix is never longer than that of the whole.
proof fn lemma_vis_take_bound(s: Seq<Seg>, i: int)
    requires
        0 <= i <= s.len(),
    ensures
        vis_text(s.take(i)).len() <= vis_text(s).len(),
    decreases s.len() - i,
{
    if i == s.len() {
        assert(s.take(i) =~= s);
    } else {
        lemma_vis_take_succ(s, i);
        lemma_vis_take_bound(s, i + 1);
    }
}

/// A prefix with visible characters leaves the whole with visible characters.
proof fn lemma_vis_take_prefix_le(s: Seq<Seg>, i: int)
    requires
        0 <= i <= s.len(),
        vis_text(s.take(i)).len() > 0,
    ensures
        vis_len(s) > 0,
{
    lemma_vis_take_bound(s, i);
}

} // verus!
