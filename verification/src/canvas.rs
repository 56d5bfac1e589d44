//! A pixel rectangle and its plain-text image serialization.  The text
//! format is three header lines — the magic, the dimensions, the channel
//! maximum — followed by the pixels' byte channels in row order, separated
//! by spaces, with every line held to seventy characters (wrapping happens
//! between values, never inside one) and a newline closing every row and
//! therefore the whole text.

use crate::color::{byte_of, Color3, ColorVal};
use crate::rat::{rat_zero, Rat};
use vstd::arithmetic::div_mod::lemma_fundamental_div_mod_converse;
use vstd::prelude::*;

verus! {

/// The decimal digits of `n`, most significant first.
pub open spec fn dec_rep(n: nat) -> Seq<char>
    decreases n,
{
    if n < 10 {
        seq![digit_char(n)]
    } else {
        dec_rep(n / 10) + seq![digit_char(n % 10)]
    }
}

/// The character of one decimal digit.
pub open spec fn digit_char(d: nat) -> char {
    if d == 0 {
        '0'
    } else if d == 1 {
        '1'
    } else if d == 2 {
        '2'
    } else if d == 3 {
        '3'
    } else if d == 4 {
        '4'
    } else if d == 5 {
        '5'
    } else if d == 6 {
        '6'
    } else if d == 7 {
        '7'
    } else if d == 8 {
        '8'
    } else {
        '9'
    }
}

/// The length of the run of characters since the last newline.
pub open spec fn tail_run(s: Seq<char>) -> int
    decreases s.len(),
{
    if s.len() == 0 {
        0
    } else if s[s.len() - 1] == '\n' {
        0
    } else {
        tail_run(s.drop_last()) + 1
    }
}

/// The 71-character window starting at `i` contains a newline.
pub open spec fn window_has_newline(s: Seq<char>, i: int) -> bool {
    exists|k: int| i <= k <= i + 70 && #[trigger] s[k] == '\n'
}

/// Every line of the text is at most seventy characters wide: every
/// 71-character window contains a newline.
pub open spec fn wrapped70(s: Seq<char>) -> bool {
    forall|i: int| 0 <= i && i + 70 < s.len() ==> #[trigger] window_has_newline(s, i)
}

/// The header of the serialized text.
pub open spec fn ppm_header(w: nat, h: nat) -> Seq<char> {
    "P3\n"@ + dec_rep(w) + " "@ + dec_rep(h) + "\n255\n"@
}

/// One channel of a color by position: red, green, blue.
pub open spec fn channel_at(c: ColorVal, k: int) -> Rat {
    if k == 0 {
        c.r
    } else if k == 1 {
        c.g
    } else {
        c.b
    }
}

/// The byte values of one canvas row, three per pixel in red-green-blue
/// order.
pub open spec fn row_bytes(pix: Seq<ColorVal>, w: int, y: int) -> Seq<int> {
    Seq::new((3 * w) as nat, |k: int| byte_of(channel_at(pix[y * w + k / 3], k % 3)))
}

/// The text one value adds to a line of the given length: a wrap to a fresh
/// line when the value (and its separating space) would not fit, otherwise a
/// separating space unless the line is empty, then the decimal digits.  A
/// break therefore falls only between values, never inside one.
pub open spec fn value_chunk(v: int, line: int) -> Seq<char> {
    let s = dec_rep(v as nat);
    let sep: int = if line == 0 {
        0int
    } else {
        1int
    };
    if line + sep + s.len() > 70 {
        seq!['\n'] + s
    } else if line == 0 {
        s
    } else {
        seq![' '] + s
    }
}

/// The line length after the value.
pub open spec fn value_next(v: int, line: int) -> int {
    let s = dec_rep(v as nat);
    let sep: int = if line == 0 {
        0int
    } else {
        1int
    };
    if line + sep + s.len() > 70 {
        s.len() as int
    } else {
        line + sep + s.len()
    }
}

/// The text of the values from position `k` on, with the current line
/// already `line` characters long.
pub open spec fn values_text(vals: Seq<int>, k: int, line: int) -> Seq<char>
    decreases vals.len() - k,
{
    if k < 0 || k >= vals.len() {
        Seq::empty()
    } else {
        value_chunk(vals[k], line) + values_text(vals, k + 1, value_next(vals[k], line))
    }
}

/// The text of the canvas rows from `y` down: each row's values start on a
/// fresh line, and a newline closes every row.
pub open spec fn rows_text(pix: Seq<ColorVal>, w: int, h: int, y: int) -> Seq<char>
    decreases h - y,
{
    if y < 0 || y >= h {
        Seq::empty()
    } else {
        values_text(row_bytes(pix, w, y), 0, 0) + (seq!['\n'] + rows_text(pix, w, h, y + 1))
    }
}

/// The full serialized text of a canvas, character for character.
pub open spec fn ppm_text(w: int, h: int, pix: Seq<ColorVal>) -> Seq<char> {
    ppm_header(w as nat, h as nat) + rows_text(pix, w, h, 0)
}

/// Basic shape of the run counter.
proof fn lemma_tail_run_facts(s: Seq<char>)
    ensures
        0 <= tail_run(s) <= s.len(),
        tail_run(s) < s.len() ==> s[s.len() - tail_run(s) - 1] == '\n',
    decreases s.len(),
{
    if s.len() > 0 && s[s.len() - 1] != '\n' {
        lemma_tail_run_facts(s.drop_last());
    }
}

/// Appending one character preserves the line-width bound as long as the
/// current run stays within it.
proof fn lemma_push_char(s: Seq<char>, c: char)
    requires
        wrapped70(s),
        c != '\n' ==> tail_run(s) + 1 <= 70,
    ensures
        wrapped70(s + seq![c]),
        tail_run(s + seq![c]) == (if c == '\n' {
            0int
        } else {
            tail_run(s) + 1
        }),
{
    let t = s + seq![c];
    assert(t.len() == s.len() + 1);
    assert(t[t.len() - 1] == c);
    assert(t.drop_last() =~= s);
    lemma_tail_run_facts(t);
    lemma_tail_run_facts(s);
    assert forall|i: int| 0 <= i && i + 70 < t.len() implies #[trigger] window_has_newline(t, i) by {
        if i + 70 < s.len() {
            assert(window_has_newline(s, i));
            let k = choose|k: int| i <= k <= i + 70 && #[trigger] s[k] == '\n';
            assert(t[k] == '\n');
        } else {
            // The window ends at the appended character; the run counter
            // locates a newline inside it.
            let tr = tail_run(t);
            assert(tr <= 70);
            let k = t.len() - tr - 1;
            assert(tr < t.len());
            assert(t[k] == '\n');
            assert(i <= k <= i + 70);
        }
    }
}

/// Appends one decimal digit.
fn push_digit(out: &mut String, d: u8)
    requires
        d < 10,
        wrapped70(old(out)@),
        tail_run(old(out)@) + 1 <= 70,
    ensures
        final(out)@ == old(out)@ + seq![digit_char(d as nat)],
        wrapped70(final(out)@),
        tail_run(final(out)@) == tail_run(old(out)@) + 1,
{
    let ghost base = out@;
    let piece: &'static str = if d == 0 {
        "0"
    } else if d == 1 {
        "1"
    } else if d == 2 {
        "2"
    } else if d == 3 {
        "3"
    } else if d == 4 {
        "4"
    } else if d == 5 {
        "5"
    } else if d == 6 {
        "6"
    } else if d == 7 {
        "7"
    } else if d == 8 {
        "8"
    } else {
        "9"
    };
    proof {
        reveal_strlit("0");
        reveal_strlit("1");
        reveal_strlit("2");
        reveal_strlit("3");
        reveal_strlit("4");
        reveal_strlit("5");
        reveal_strlit("6");
        reveal_strlit("7");
        reveal_strlit("8");
        reveal_strlit("9");
    }
    out.append(piece);
    proof {
        assert(piece@ =~= seq![digit_char(d as nat)]);
        assert(out@ == base + seq![digit_char(d as nat)]);
        lemma_push_char(base, digit_char(d as nat));
        assert(digit_char(d as nat) != '\n');
    }
}

/// Appends the decimal digits of `n`.
fn push_dec(out: &mut String, n: usize)
    requires
        n <= 99999,
        wrapped70(old(out)@),
        tail_run(old(out)@) + dec_rep(n as nat).len() <= 70,
    ensures
        final(out)@ == old(out)@ + dec_rep(n as nat),
        wrapped70(final(out)@),
        tail_run(final(out)@) == tail_run(old(out)@) + dec_rep(n as nat).len(),
    decreases n,
{
    proof {
        lemma_dec_rep_len(n as nat);
    }
    if n >= 10 {
        let ghost base = out@;
        proof {
            lemma_dec_rep_len((n / 10) as nat);
        }
        push_dec(out, n / 10);
        push_digit(out, (n % 10) as u8);
        proof {
            assert(out@ =~= base + dec_rep(n as nat));
        }
    } else {
        push_digit(out, n as u8);
    }
}

/// A decimal representation is short: five digits up to 99999, three up to
/// 255, and never empty.
proof fn lemma_dec_rep_len(n: nat)
    ensures
        1 <= dec_rep(n).len(),
        n < 10 ==> dec_rep(n).len() == 1,
        n < 100 ==> dec_rep(n).len() <= 2,
        n < 1000 ==> dec_rep(n).len() <= 3,
        n < 10000 ==> dec_rep(n).len() <= 4,
        n < 100000 ==> dec_rep(n).len() <= 5,
        n >= 10 ==> dec_rep(n).len() == dec_rep(n / 10).len() + 1,
    decreases n,
{
    if n >= 10 {
        lemma_dec_rep_len(n / 10);
    }
}

/// Appends a newline.
fn push_newline(out: &mut String)
    requires
        wrapped70(old(out)@),
    ensures
        final(out)@ == old(out)@ + seq!['\n'],
        wrapped70(final(out)@),
        tail_run(final(out)@) == 0,
{
    let ghost base = out@;
    proof {
        reveal_strlit("\n");
    }
    out.append("\n");
    proof {
        assert(out@ =~= base + seq!['\n']);
        lemma_push_char(base, '\n');
    }
}

/// Appends a space.
fn push_space(out: &mut String)
    requires
        wrapped70(old(out)@),
        tail_run(old(out)@) + 1 <= 70,
    ensures
        final(out)@ == old(out)@ + seq![' '],
        wrapped70(final(out)@),
        tail_run(final(out)@) == tail_run(old(out)@) + 1,
{
    let ghost base = out@;
    proof {
        reveal_strlit(" ");
    }
    out.append(" ");
    proof {
        assert(out@ =~= base + seq![' ']);
        lemma_push_char(base, ' ');
        assert(' ' != '\n');
    }
}

/// A rectangle of pixels.
#[derive(Debug)]
pub struct Canvas {
    width: usize,
    height: usize,
    pixels: Vec<Color3>,
}

impl Canvas {
    /// One color per cell; the dimensions are small enough that row-major
    /// indexing cannot overflow.  Constructors establish this and every
    /// method preserves it.
    pub closed spec fn wf(self) -> bool {
        self.pixels@.len() == self.width * self.height && self.width <= 0xffff && self.height
            <= 0xffff
    }

    /// The stored width.
    pub closed spec fn spec_width(self) -> int {
        self.width as int
    }

    /// The stored height.
    pub closed spec fn spec_height(self) -> int {
        self.height as int
    }

    /// The pixel values in row order.
    pub closed spec fn spec_pixels(self) -> Seq<crate::color::ColorVal> {
        self.pixels@.map_values(|c: Color3| c@)
    }

    /// A canvas of the given size with every pixel black.
    pub fn new(width: usize, height: usize) -> (r: Canvas)
        requires
            width <= 0xffff,
            height <= 0xffff,
        ensures
            r.wf(),
            r.spec_width() == width,
            r.spec_height() == height,
            r.spec_pixels().len() == width * height,
            forall|k: int|
                0 <= k < width * height ==> #[trigger] r.spec_pixels()[k] == (
                crate::color::ColorVal { r: rat_zero(), g: rat_zero(), b: rat_zero() }),
    {
        let black = Color3::black();
        let mut pixels: Vec<Color3> = Vec::new();
        proof {
            assert(width * height <= 0xffff * 0xffff) by (nonlinear_arith)
                requires
                    width <= 0xffff,
                    height <= 0xffff,
            ;
        }
        let total = width * height;
        let mut k: usize = 0;
        while k < total
            invariant
                black@ == (crate::color::ColorVal { r: rat_zero(), g: rat_zero(), b: rat_zero() }),
                k <= total,
                pixels@.len() == k,
                forall|a: int| 0 <= a < k ==> #[trigger] pixels@[a]@ == black@,
            decreases total - k,
        {
            pixels.push(black);
            k = k + 1;
        }
        let c = Canvas { width, height, pixels };
        proof {
            assert(forall|a: int|
                0 <= a < width * height ==> #[trigger] c.spec_pixels()[a] == black@);
        }
        c
    }

    /// Whether the canvas is well formed: one pixel per cell and bounded
    /// dimensions.  Every canvas the constructors build is; unverified
    /// callers can test it before serializing.
    pub fn is_well_formed(&self) -> (r: bool)
        ensures
            r == self.wf(),
    {
        if self.width > 0xffff || self.height > 0xffff {
            return false;
        }
        proof {
            assert(self.width * self.height <= 0xffff * 0xffff) by (nonlinear_arith)
                requires
                    self.width <= 0xffff,
                    self.height <= 0xffff,
            ;
        }
        self.pixels.len() == self.width * self.height
    }

    /// The canvas width.
    pub fn width(&self) -> (r: usize)
        ensures
            r as int == self.spec_width(),
    {
        self.width
    }

    /// The canvas height.
    pub fn height(&self) -> (r: usize)
        ensures
            r as int == self.spec_height(),
    {
        self.height
    }

    /// The pixel at column `x` of row `y`.
    pub fn pixel_at(&self, x: usize, y: usize) -> (r: Color3)
        requires
            self.wf(),
            x < self.spec_width(),
            y < self.spec_height(),
        ensures
            r@ == self.spec_pixels()[y * self.spec_width() + x],
    {
        proof {
            assert(y * self.width + x < self.width * self.height && self.width * self.height
                <= 0xffff * 0xffff) by (nonlinear_arith)
                requires
                    x < self.width,
                    y < self.height,
                    self.width <= 0xffff,
                    self.height <= 0xffff,
            ;
        }
        self.pixels[y * self.width + x]
    }

    /// Writes one pixel; every other pixel keeps its value.
    pub fn write_pixel(&mut self, x: usize, y: usize, color: Color3)
        requires
            old(self).wf(),
            x < old(self).spec_width(),
            y < old(self).spec_height(),
        ensures
            final(self).wf(),
            final(self).spec_width() == old(self).spec_width(),
            final(self).spec_height() == old(self).spec_height(),
            final(self).spec_pixels().len() == old(self).spec_pixels().len(),
            final(self).spec_pixels()[y * old(self).spec_width() + x] == color@,
            forall|k: int|
                0 <= k < old(self).spec_pixels().len() && k != y * old(self).spec_width() + x
                    ==> #[trigger] final(self).spec_pixels()[k] == old(self).spec_pixels()[k],
    {
        proof {
            assert(y * self.width + x < self.width * self.height && self.width * self.height
                <= 0xffff * 0xffff) by (nonlinear_arith)
                requires
                    x < self.width,
                    y < self.height,
                    self.width <= 0xffff,
                    self.height <= 0xffff,
            ;
        }
        let idx = y * self.width + x;
        self.pixels.set(idx, color);
        proof {
            assert(final(self).spec_pixels() =~= old(self).spec_pixels().update(
                idx as int,
                color@,
            ));
        }
    }

    /// Serializes the canvas to the plain-text image format, character for
    /// character: the header, then every pixel's three byte channels in row
    /// order, space-separated, wrapped before seventy-one characters with
    /// breaks only between values, each row starting a fresh line and closed
    /// by a newline.  The remaining clauses are corollaries callers reach
    /// for most: the line bound, the trailing newline, the header prefix.
    pub fn to_ppm(&self) -> (r: String)
        requires
            self.wf(),
        ensures
            r@ == ppm_text(self.spec_width(), self.spec_height(), self.spec_pixels()),
            wrapped70(r@),
            r@.len() > 0,
            r@[r@.len() - 1] == '\n',
            ppm_header(self.spec_width() as nat, self.spec_height() as nat).is_prefix_of(r@),
    {
        let mut out = String::new();
        let ghost hdr = ppm_header(self.width as nat, self.height as nat);
        proof {
            reveal_strlit("P3\n");
            reveal_strlit("P");
            reveal_strlit("3");
            reveal_strlit(" ");
            reveal_strlit("\n255\n");
            lemma_dec_rep_len(self.width as nat);
            lemma_dec_rep_len(self.height as nat);
            assert("P"@ =~= seq!['P']);
            assert("3"@ =~= seq!['3']);
        }
        push_any(&mut out, Ghost('P'), "P");
        push_any(&mut out, Ghost('3'), "3");
        push_newline(&mut out);
        push_dec(&mut out, self.width);
        push_space(&mut out);
        push_dec(&mut out, self.height);
        push_newline(&mut out);
        push_digit(&mut out, 2);
        push_digit(&mut out, 5);
        push_digit(&mut out, 5);
        push_newline(&mut out);
        let ghost pix = self.spec_pixels();
        let ghost w = self.spec_width();
        let ghost h = self.spec_height();
        let ghost full = ppm_text(w, h, pix);
        proof {
            assert(out@ =~= hdr);
            assert(hdr.is_prefix_of(out@));
            assert(full == out@ + rows_text(pix, w, h, 0));
        }
        let mut y: usize = 0;
        while y < self.height
            invariant
                self.wf(),
                y <= self.height,
                wrapped70(out@),
                hdr.is_prefix_of(out@),
                out@.len() > 0,
                out@[out@.len() - 1] == '\n',
                tail_run(out@) == 0,
                pix == self.spec_pixels(),
                w == self.spec_width(),
                h == self.spec_height(),
                full == ppm_text(w, h, pix),
                full == out@ + rows_text(pix, w, h, y as int),
            decreases self.height - y,
        {
            let ghost rowvals = row_bytes(pix, w, y as int);
            proof {
                assert(rows_text(pix, w, h, y as int) == values_text(rowvals, 0, 0) + (
                seq!['\n'] + rows_text(pix, w, h, y as int + 1)));
            }
            let mut x: usize = 0;
            let mut line_len: usize = 0;
            while x < self.width
                invariant
                    self.wf(),
                    y < self.height,
                    x <= self.width,
                    wrapped70(out@),
                    hdr.is_prefix_of(out@),
                    out@.len() > 0,
                    line_len <= 70,
                    line_len as int == tail_run(out@),
                    pix == self.spec_pixels(),
                    w == self.spec_width(),
                    h == self.spec_height(),
                    rowvals == row_bytes(pix, w, y as int),
                    full == out@ + (values_text(rowvals, 3 * x as int, line_len as int) + (
                    seq!['\n'] + rows_text(pix, w, h, y as int + 1))),
                decreases self.width - x,
            {
                let ghost obase = out@;
                let px = self.pixel_at(x, y);
                let (cr, cg, cb) = px.to_bytes();
                proof {
                    lemma_row_values(pix, w, y as int, x as int, px@);
                }
                let ghost tail = seq!['\n'] + rows_text(pix, w, h, y as int + 1);
                proof {
                    lemma_values_step(
                        rowvals,
                        3 * x as int,
                        line_len as int,
                        out@,
                        tail,
                        full,
                    );
                }
                line_len = push_component(&mut out, cr, line_len);
                proof {
                    lemma_values_step(
                        rowvals,
                        3 * x as int + 1,
                        line_len as int,
                        out@,
                        tail,
                        full,
                    );
                }
                line_len = push_component(&mut out, cg, line_len);
                proof {
                    lemma_values_step(
                        rowvals,
                        3 * x as int + 2,
                        line_len as int,
                        out@,
                        tail,
                        full,
                    );
                }
                line_len = push_component(&mut out, cb, line_len);
                proof {
                    lemma_prefix_trans(hdr, obase, out@);
                }
                x = x + 1;
            }
            let ghost obase2 = out@;
            push_newline(&mut out);
            proof {
                lemma_append_prefix(obase2, seq!['\n']);
                lemma_prefix_trans(hdr, obase2, out@);
                assert(out@[out@.len() - 1] == '\n');
                assert(values_text(rowvals, 3 * (self.width as int), 0) =~= Seq::<
                    char,
                >::empty());
                assert(full == obase2 + (values_text(rowvals, 3 * (self.width as int), 0) + (
                seq!['\n'] + rows_text(pix, w, h, y as int + 1))));
                assert(obase2 + (values_text(rowvals, 3 * (self.width as int), 0) + (seq!['\n']
                    + rows_text(pix, w, h, y as int + 1))) =~= (obase2 + seq!['\n']) + rows_text(
                    pix,
                    w,
                    h,
                    y as int + 1,
                ));
            }
            y = y + 1;
        }
        proof {
            assert(rows_text(pix, w, h, self.height as int) == Seq::<char>::empty());
            assert(out@ + rows_text(pix, w, h, self.height as int) =~= out@);
        }
        out
    }
}

/// Prefixes chain: a prefix of a prefix is a prefix.
proof fn lemma_prefix_trans(p: Seq<char>, s: Seq<char>, t: Seq<char>)
    requires
        p.is_prefix_of(s),
        s.is_prefix_of(t),
    ensures
        p.is_prefix_of(t),
{
    assert(t.subrange(0, p.len() as int) =~= s.subrange(0, p.len() as int));
}

/// A text is a prefix of itself with anything appended.
proof fn lemma_append_prefix(s: Seq<char>, x: Seq<char>)
    ensures
        s.is_prefix_of(s + x),
{
    assert((s + x).subrange(0, s.len() as int) =~= s);
}

/// Appends one known character.
fn push_any(out: &mut String, c: Ghost<char>, lit: &'static str)
    requires
        lit@ == seq![c@],
        c@ != '\n',
        wrapped70(old(out)@),
        tail_run(old(out)@) + 1 <= 70,
    ensures
        final(out)@ == old(out)@ + seq![c@],
        wrapped70(final(out)@),
        tail_run(final(out)@) == tail_run(old(out)@) + 1,
{
    let ghost base = out@;
    out.append(lit);
    proof {
        assert(out@ =~= base + seq![c@]);
        lemma_push_char(base, c@);
    }
}

/// Appends one byte value, preceded by a space unless the line is empty,
/// wrapping to a fresh line when the value would push the line past seventy
/// characters.  Returns the new line length.
fn push_component(out: &mut String, v: u8, line_len: usize) -> (r: usize)
    requires
        wrapped70(old(out)@),
        line_len <= 70,
        line_len as int == tail_run(old(out)@),
    ensures
        wrapped70(final(out)@),
        r <= 70,
        r as int == tail_run(final(out)@),
        final(out)@.len() > old(out)@.len(),
        old(out)@.is_prefix_of(final(out)@),
        final(out)@ == old(out)@ + value_chunk(v as int, line_len as int),
        r as int == value_next(v as int, line_len as int),
    {
        let ghost base = out@;
        proof {
            lemma_dec_rep_len(v as nat);
        }
        let sep: usize = if line_len == 0 {
            0
        } else {
            1
        };
        let digits: usize = if v >= 100 {
            3
        } else if v >= 10 {
            2
        } else {
            1
        };
        proof {
            lemma_dec_digits(v as nat);
        }
        let mut cur = line_len;
        if cur + sep + digits > 70 {
            push_newline(out);
            cur = 0;
            proof {
                lemma_append_prefix(base, seq!['\n']);
            }
        } else if sep == 1 {
            push_space(out);
            cur = cur + 1;
            proof {
                lemma_append_prefix(base, seq![' ']);
            }
        }
        let ghost mid = out@;
        push_dec(out, v as usize);
        proof {
            lemma_append_prefix(mid, dec_rep(v as nat));
            if mid.len() > base.len() {
                lemma_prefix_trans(base, mid, out@);
            } else {
                assert(mid == base);
                assert(base.is_prefix_of(out@));
            }
            // The text grew by exactly the chunk the specification names.
            if line_len as int + (if line_len == 0 { 0int } else { 1int }) + dec_rep(
                v as nat,
            ).len() > 70 {
                assert(out@ =~= base + value_chunk(v as int, line_len as int));
            } else if line_len == 0 {
                assert(out@ =~= base + value_chunk(v as int, line_len as int));
            } else {
                assert(out@ =~= base + value_chunk(v as int, line_len as int));
            }
        }
        cur + digits
    }

/// The byte values a pixel contributes to its row's value list.
proof fn lemma_row_values(pix: Seq<ColorVal>, w: int, y: int, x: int, c: ColorVal)
    requires
        0 <= x < w,
        0 <= y,
        c == pix[y * w + x],
    ensures
        0 <= 3 * x && 3 * x + 2 < row_bytes(pix, w, y).len(),
        row_bytes(pix, w, y)[3 * x] == byte_of(c.r),
        row_bytes(pix, w, y)[3 * x + 1] == byte_of(c.g),
        row_bytes(pix, w, y)[3 * x + 2] == byte_of(c.b),
{
    lemma_fundamental_div_mod_converse(3 * x, 3, x, 0);
    lemma_fundamental_div_mod_converse(3 * x + 1, 3, x, 1);
    lemma_fundamental_div_mod_converse(3 * x + 2, 3, x, 2);
}

/// Peels one value off the remaining-text equation: what is left to emit
/// shrinks by exactly the value's chunk.
proof fn lemma_values_step(
    vals: Seq<int>,
    k: int,
    line: int,
    out: Seq<char>,
    tail: Seq<char>,
    full: Seq<char>,
)
    requires
        0 <= k < vals.len(),
        full == out + (values_text(vals, k, line) + tail),
    ensures
        full == (out + value_chunk(vals[k], line)) + (values_text(
            vals,
            k + 1,
            value_next(vals[k], line),
        ) + tail),
{
    let chunk = value_chunk(vals[k], line);
    let rest = values_text(vals, k + 1, value_next(vals[k], line));
    assert(values_text(vals, k, line) == chunk + rest);
    assert(out + ((chunk + rest) + tail) =~= (out + chunk) + (rest + tail));
}

/// A value's digit count matches its size.
proof fn lemma_dec_digits(n: nat)
    ensures
        n < 10 ==> dec_rep(n).len() == 1,
        10 <= n < 100 ==> dec_rep(n).len() == 2,
        100 <= n < 1000 ==> dec_rep(n).len() == 3,
    decreases n,
{
    if n >= 10 {
        lemma_dec_digits(n / 10);
        if n >= 100 {
            lemma_dec_digits(n / 10 / 10);
        }
    }
}


} // verus!
