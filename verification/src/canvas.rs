//! A buffer of pixels, and the text of a plain PPM image.
//!
//! The buffer holds colours of any kind; the text is made from samples
//! between 0 and 255, three for each pixel.

use vstd::prelude::*;

verus! {

/// A pixel of an image with its colour.
#[derive(Copy, Clone, Debug)]
pub struct Pixel<C> {
    pub x: u32,
    pub y: u32,
    pub p: C,
}

/// A buffer of `width` times `height` pixels.
#[derive(Debug)]
pub struct PPMCanvas<C> {
    pub pixels: Vec<Pixel<C>>,
    pub height: u32,
    pub width: u32,
}

/// The longest line that the text of an image may have.
pub const LINE_LIMIT: u8 = 70;

/// The character that ends a line.
pub const NEWLINE: u8 = 10;

/// The character between two samples of a line.
pub const SPACE: u8 = 32;

/// The character of a decimal digit.
pub open spec fn digit(d: int) -> u8 {
    (48 + d) as u8
}

/// A number in decimal digits, without leading zeros.
pub open spec fn decimal(n: nat) -> Seq<u8>
    decreases n,
{
    if n < 10 {
        seq![digit(n as int)]
    } else {
        decimal(n / 10).push(digit((n % 10) as int))
    }
}

/// Whether there is no end of line among the characters of `s` from `i`
/// up to `j`.
pub open spec fn newline_free(s: Seq<u8>, i: int, j: int) -> bool {
    forall|k: int| i <= k < j ==> s[k] != NEWLINE
}

/// Whether no line of `s` is longer than `limit`.
pub open spec fn no_long_line(s: Seq<u8>, limit: int) -> bool {
    forall|i: int, j: int|
        0 <= i <= j <= s.len() && #[trigger] newline_free(s, i, j) ==> j - i <= limit
}

/// The text and the state of the writer after the first `n` samples:
/// the text so far, the length of its last line, and the number of
/// samples since the last end of a row of pixels.
///
/// A sample is put behind a space on the line, or on a new line where it
/// would make the line longer than the limit. After the last sample of a
/// row of pixels the line ends.
pub open spec fn body_state(samples: Seq<u8>, width: u32, n: int) -> (Seq<u8>, int, int)
    decreases n,
{
    if n <= 0 {
        (Seq::empty(), 0, 0)
    } else {
        let (out, chars, ints) = body_state(samples, width, n - 1);
        let text = decimal(samples[n - 1] as nat);
        let (out1, chars1) = if chars + text.len() + 1 > LINE_LIMIT {
            (out.push(NEWLINE), 0)
        } else if chars != 0 {
            (out.push(SPACE), chars + 1)
        } else {
            (out, chars)
        };
        let out2 = out1 + text;
        if (ints + 1) / 3 == width {
            (out2.push(NEWLINE), 0, 0)
        } else {
            (out2, chars1 + text.len(), ints + 1)
        }
    }
}

/// The samples of an image as text: every sample in decimal digits, a
/// line for each row of pixels, long rows broken, and an end of line
/// after the last sample.
pub open spec fn spec_ppm_body(samples: Seq<u8>, width: u32) -> Seq<u8> {
    body_state(samples, width, samples.len() as int).0.push(NEWLINE)
}

/// The first lines of the text of an image: the mark of the format, the
/// width and the height, and the greatest sample.
pub open spec fn spec_ppm_header(width: u32, height: u32) -> Seq<u8> {
    seq![80u8, 51u8, NEWLINE] + decimal(width as nat) + seq![SPACE] + decimal(height as nat) + seq![
        NEWLINE,
        50u8,
        53u8,
        53u8,
        NEWLINE,
    ]
}

proof fn lemma_decimal(n: nat)
    ensures
        decimal(n).len() >= 1,
        n < 256 ==> decimal(n).len() <= 3,
        forall|k: int| 0 <= k < decimal(n).len() ==> 48 <= #[trigger] decimal(n)[k] <= 57,
    decreases n,
{
    if n >= 10 {
        lemma_decimal(n / 10);
        if n < 256 {
            assert(n / 10 < 26);
            lemma_decimal(n / 10 / 10);
            assert(decimal(n / 10).len() <= 2) by {
                if n / 10 >= 10 {
                    assert(n / 10 / 10 < 10);
                    assert(decimal(n / 10 / 10).len() == 1);
                }
            }
        }
    }
}

fn push_decimal(out: &mut Vec<u8>, n: u32)
    ensures
        final(out)@ == old(out)@ + decimal(n as nat),
    decreases n,
{
    if n >= 10 {
        push_decimal(out, n / 10);
    }
    let d: u8 = (n % 10) as u8;
    out.push(48 + d);
    proof {
        if n >= 10 {
            assert(final(out)@ =~= old(out)@ + decimal(n as nat)) by {
                assert(48 + d == digit((n % 10) as int));
            }
        } else {
            assert(final(out)@ =~= old(out)@ + decimal(n as nat));
        }
    }
}

/// The first lines of the text of an image.
pub fn ppm_header(width: u32, height: u32) -> (out: Vec<u8>)
    ensures
        out@ == spec_ppm_header(width, height),
{
    let mut out: Vec<u8> = Vec::new();
    out.push(80);
    out.push(51);
    out.push(NEWLINE);
    assert(out@ =~= seq![80u8, 51u8, NEWLINE]);
    push_decimal(&mut out, width);
    out.push(SPACE);
    push_decimal(&mut out, height);
    out.push(NEWLINE);
    out.push(50);
    out.push(53);
    out.push(53);
    out.push(NEWLINE);
    assert(out@ =~= spec_ppm_header(width, height));
    out
}

/// The samples of an image as text: no line of it is longer than the
/// limit, and the numbers that stand in it are the samples.
pub fn ppm_body(samples: &Vec<u8>, width: u32) -> (out: Vec<u8>)
    ensures
        out@ == spec_ppm_body(samples@, width),
        no_long_line(out@, LINE_LIMIT as int),
        numbers_of(out@) == values(samples@, samples.len() as int),
{
    proof {
        lemma_ppm_body_holds_the_samples(samples@, width);
    }
    let mut out: Vec<u8> = Vec::new();
    let mut chars: u8 = 0;
    let mut ints: usize = 0;
    let mut i: usize = 0;
    let ghost mut start: int = 0;
    assert(no_long_line(out@, LINE_LIMIT as int));
    while i < samples.len()
        invariant
            i <= samples.len(),
            ints <= i,
            (out@, chars as int, ints as int) == body_state(samples@, width, i as int),
            0 <= start <= out.len(),
            out.len() - start == chars,
            chars <= LINE_LIMIT,
            newline_free(out@, start, out.len() as int),
            start == 0 || out[start - 1] == NEWLINE,
            no_long_line(out@, LINE_LIMIT as int),
        decreases samples.len() - i,
    {
        let num = samples[i];
        let ghost text = decimal(num as nat);
        let ghost before = out@;
        proof {
            lemma_decimal(num as nat);
        }
        let l: u8 = if num < 10 {
            1
        } else if num < 100 {
            2
        } else {
            3
        };
        assert(l == text.len()) by {
            lemma_decimal((num / 10) as nat);
            if num >= 100 {
                lemma_decimal((num / 10 / 10) as nat);
                assert(decimal((num / 10 / 10) as nat).len() == 1);
                assert(decimal((num / 10) as nat).len() == 2);
            } else if num >= 10 {
                assert(decimal((num / 10) as nat).len() == 1);
            }
        }
        if chars + l + 1 > LINE_LIMIT {
            chars = 0;
            out.push(NEWLINE);
            proof {
                lemma_push_newline(before, start);
                start = out.len() as int;
            }
        } else if chars != 0 {
            out.push(SPACE);
            chars += 1;
            proof {
                lemma_push_text(before, start, seq![SPACE]);
                assert(out@ =~= before + seq![SPACE]);
            }
        }
        let ghost spaced = out@;
        push_decimal(&mut out, num as u32);
        chars += l;
        ints += 1;
        proof {
            lemma_push_text(spaced, start, text);
        }
        if ints / 3 == width as usize {
            let ghost written = out@;
            ints = 0;
            chars = 0;
            out.push(NEWLINE);
            proof {
                lemma_push_newline(written, start);
                start = out.len() as int;
            }
        }
        i += 1;
    }
    let ghost body = out@;
    out.push(NEWLINE);
    proof {
        lemma_push_newline(body, start);
    }
    out
}

proof fn lemma_push_text(s: Seq<u8>, start: int, text: Seq<u8>)
    requires
        0 <= start <= s.len(),
        newline_free(s, start, s.len() as int),
        start == 0 || s[start - 1] == NEWLINE,
        no_long_line(s, LINE_LIMIT as int),
        s.len() - start + text.len() <= LINE_LIMIT,
        forall|k: int| 0 <= k < text.len() ==> text[k] != NEWLINE,
    ensures
        newline_free(s + text, start, (s + text).len() as int),
        start == 0 || (s + text)[start - 1] == NEWLINE,
        no_long_line(s + text, LINE_LIMIT as int),
{
    let r = s + text;
    assert forall|i: int, j: int|
        0 <= i <= j <= r.len() && #[trigger] newline_free(r, i, j) implies j - i
        <= LINE_LIMIT by {
        if j <= s.len() {
            assert(newline_free(s, i, j)) by {
                assert forall|k: int| i <= k < j implies s[k] != NEWLINE by {
                    assert(r[k] == s[k]);
                }
            }
        } else if i < start {
            assert(r[start - 1] == NEWLINE);
        }
    }
}

proof fn lemma_push_newline(s: Seq<u8>, start: int)
    requires
        0 <= start <= s.len(),
        s.len() - start <= LINE_LIMIT,
        start == 0 || s[start - 1] == NEWLINE,
        no_long_line(s, LINE_LIMIT as int),
    ensures
        newline_free(s.push(NEWLINE), (s.len() + 1) as int, (s.len() + 1) as int),
        s.push(NEWLINE)[s.len() as int] == NEWLINE,
        no_long_line(s.push(NEWLINE), LINE_LIMIT as int),
{
    let r = s.push(NEWLINE);
    assert forall|i: int, j: int|
        0 <= i <= j <= r.len() && #[trigger] newline_free(r, i, j) implies j - i
        <= LINE_LIMIT by {
        if j <= s.len() {
            assert(newline_free(s, i, j)) by {
                assert forall|k: int| i <= k < j implies s[k] != NEWLINE by {
                    assert(r[k] == s[k]);
                }
            }
        } else if i <= s.len() {
            assert(r[s.len() as int] == NEWLINE);
        }
    }
}

/// The sample that a whole number stands for: the number itself where it
/// lies between 0 and 255, and else the nearer of the two.
pub fn scale(n: i16) -> (s: u8)
    ensures
        s == if n > 255 {
            255
        } else if n < 0 {
            0
        } else {
            n as int
        },
{
    if n > 255 {
        return 255;
    }
    if n < 0 {
        return 0;
    }
    n as u8
}

/// Whether a character is a decimal digit.
pub open spec fn is_digit(b: u8) -> bool {
    48 <= b <= 57
}

/// A reader of numbers after one more character: a digit goes on with the
/// number that is being read or begins one, and any other character ends
/// it. The reader holds the numbers that were read and the one that is
/// being read.
pub open spec fn scan_step(state: (Seq<nat>, Option<nat>), b: u8) -> (Seq<nat>, Option<nat>) {
    if is_digit(b) {
        (
            state.0,
            Some(
                match state.1 {
                    Some(v) => v * 10 + (b - 48) as nat,
                    None => (b - 48) as nat,
                },
            ),
        )
    } else {
        match state.1 {
            Some(v) => (state.0.push(v), None),
            None => state,
        }
    }
}

/// A reader of numbers after a text.
pub open spec fn scan(state: (Seq<nat>, Option<nat>), text: Seq<u8>) -> (Seq<nat>, Option<nat>)
    decreases text.len(),
{
    if text.len() == 0 {
        state
    } else {
        scan_step(scan(state, text.drop_last()), text.last())
    }
}

/// The numbers that stand in a text, in their order.
pub open spec fn numbers_of(text: Seq<u8>) -> Seq<nat> {
    let state = scan((Seq::empty(), None), text);
    match state.1 {
        Some(v) => state.0.push(v),
        None => state.0,
    }
}

/// The first `n` samples as numbers.
pub open spec fn values(samples: Seq<u8>, n: int) -> Seq<nat> {
    Seq::new(n as nat, |i: int| samples[i] as nat)
}

proof fn lemma_scan_concat(state: (Seq<nat>, Option<nat>), a: Seq<u8>, b: Seq<u8>)
    ensures
        scan(state, a + b) == scan(scan(state, a), b),
    decreases b.len(),
{
    if b.len() == 0 {
        assert(a + b =~= a);
    } else {
        lemma_scan_concat(state, a, b.drop_last());
        assert((a + b).drop_last() =~= a + b.drop_last());
    }
}

proof fn lemma_scan_push(state: (Seq<nat>, Option<nat>), a: Seq<u8>, b: u8)
    ensures
        scan(state, a.push(b)) == scan_step(scan(state, a), b),
{
    assert(a.push(b).drop_last() =~= a);
}

proof fn lemma_scan_decimal(done: Seq<nat>, n: nat)
    ensures
        scan((done, None), decimal(n)) == (done, Some(n)),
    decreases n,
{
    if n < 10 {
        lemma_scan_push((done, None), Seq::empty(), digit(n as int));
        assert(Seq::<u8>::empty().push(digit(n as int)) =~= decimal(n));
    } else {
        lemma_scan_decimal(done, n / 10);
        lemma_scan_push((done, None), decimal(n / 10), digit((n % 10) as int));
    }
}

proof fn lemma_body_scan(samples: Seq<u8>, width: u32, n: int)
    requires
        0 <= n <= samples.len(),
    ensures
        ({
            let (out, chars, ints) = body_state(samples, width, n);
            &&& chars >= 0
            &&& chars == 0 ==> scan((Seq::empty(), None), out) == (
                values(samples, n),
                None::<nat>,
            )
            &&& chars > 0 ==> n > 0 && scan((Seq::empty(), None), out) == (
                values(samples, n - 1),
                Some(samples[n - 1] as nat),
            )
        }),
    decreases n,
{
    let start = (Seq::<nat>::empty(), None::<nat>);
    if n <= 0 {
        assert(values(samples, 0) =~= Seq::<nat>::empty());
    } else {
        lemma_body_scan(samples, width, n - 1);
        let (out, chars, ints) = body_state(samples, width, n - 1);
        let text = decimal(samples[n - 1] as nat);
        lemma_decimal(samples[n - 1] as nat);
        let (out1, chars1) = if chars + text.len() + 1 > LINE_LIMIT {
            (out.push(NEWLINE), 0)
        } else if chars != 0 {
            (out.push(SPACE), chars + 1)
        } else {
            (out, chars)
        };
        let done = values(samples, n - 1);
        assert(scan(start, out1) == (done, None::<nat>)) by {
            if chars > 0 {
                assert(values(samples, n - 2).push(samples[n - 2] as nat) =~= done);
                if chars + text.len() + 1 > LINE_LIMIT {
                    lemma_scan_push(start, out, NEWLINE);
                } else {
                    lemma_scan_push(start, out, SPACE);
                }
            } else if chars + text.len() + 1 > LINE_LIMIT {
                lemma_scan_push(start, out, NEWLINE);
            }
        }
        let out2 = out1 + text;
        lemma_scan_concat(start, out1, text);
        lemma_scan_decimal(done, samples[n - 1] as nat);
        assert(scan(start, out2) == (done, Some(samples[n - 1] as nat)));
        if (ints + 1) / 3 == width {
            lemma_scan_push(start, out2, NEWLINE);
            assert(done.push(samples[n - 1] as nat) =~= values(samples, n));
        }
    }
}

/// The text of an image holds its samples: read back number by number,
/// it gives every sample, in order, and nothing else.
pub proof fn lemma_ppm_body_holds_the_samples(samples: Seq<u8>, width: u32)
    ensures
        numbers_of(spec_ppm_body(samples, width)) == values(samples, samples.len() as int),
{
    let n = samples.len() as int;
    let start = (Seq::<nat>::empty(), None::<nat>);
    let (out, chars, ints) = body_state(samples, width, n);
    lemma_body_scan(samples, width, n);
    lemma_scan_push(start, out, NEWLINE);
    if chars > 0 {
        assert(values(samples, n - 1).push(samples[n - 1] as nat) =~= values(samples, n));
    }
}

impl<C: Copy> PPMCanvas<C> {
    /// Whether the buffer holds one pixel for each place of the image.
    pub open spec fn wf(&self) -> bool {
        self.pixels.len() == self.width * self.height
    }

    /// The place of the pixel in column `x` of row `y` in the buffer.
    pub open spec fn spec_offset(&self, x: u32, y: u32) -> int {
        y * self.width + x
    }

    /// A buffer of `width` times `height` pixels of one colour. The
    /// pixels are marked with places column by column: a mark is where
    /// its pixel is only when the pixel is written.
    pub fn new(height: u32, width: u32, fill: C) -> (c: PPMCanvas<C>)
        ensures
            c.wf(),
            c.height == height,
            c.width == width,
            forall|k: int|
                0 <= k < c.pixels.len() ==> #[trigger] c.pixels[k] == (Pixel {
                    x: (k / (height as int)) as u32,
                    y: (k % (height as int)) as u32,
                    p: fill,
                }),
    {
        let mut pixels: Vec<Pixel<C>> = Vec::new();
        let mut x: u32 = 0;
        while x < width
            invariant
                x <= width,
                pixels.len() == x * height,
                forall|k: int|
                    0 <= k < pixels.len() ==> #[trigger] pixels[k] == (Pixel {
                        x: (k / (height as int)) as u32,
                        y: (k % (height as int)) as u32,
                        p: fill,
                    }),
            decreases width - x,
        {
            let mut y: u32 = 0;
            while y < height
                invariant
                    x < width,
                    y <= height,
                    pixels.len() == x * height + y,
                    forall|k: int|
                        0 <= k < pixels.len() ==> #[trigger] pixels[k] == (Pixel {
                            x: (k / (height as int)) as u32,
                            y: (k % (height as int)) as u32,
                            p: fill,
                        }),
                decreases height - y,
            {
                proof {
                    vstd::arithmetic::div_mod::lemma_fundamental_div_mod_converse(
                        x * height + y,
                        height as int,
                        x as int,
                        y as int,
                    );
                }
                pixels.push(Pixel { x, y, p: fill });
                y += 1;
            }
            assert((x + 1) * height == x * height + height) by (nonlinear_arith);
            x += 1;
        }
        assert(width * height == height * width) by (nonlinear_arith);
        PPMCanvas { pixels, height, width }
    }

    /// Whether the buffer has a place for column `x` of row `y`.
    pub fn holds(&self, x: u32, y: u32) -> (b: bool)
        ensures
            b == (self.spec_offset(x, y) < self.pixels.len()),
    {
        assert(0 <= y * self.width <= 0xffff_ffff * 0xffff_ffff) by (nonlinear_arith)
            requires
                0 <= y <= 0xffff_ffff,
                0 <= self.width <= 0xffff_ffff,
        ;
        let offset: u64 = (y as u64) * (self.width as u64) + (x as u64);
        offset < self.pixels.len() as u64
    }

    /// Whether the buffer holds one pixel for each place of the image:
    /// see [`PPMCanvas::wf`].
    pub fn is_whole(&self) -> (b: bool)
        ensures
            b == self.wf(),
    {
        assert(0 <= self.width * self.height <= 0xffff_ffff * 0xffff_ffff) by (nonlinear_arith)
            requires
                0 <= self.width <= 0xffff_ffff,
                0 <= self.height <= 0xffff_ffff,
        ;
        self.pixels.len() as u64 == (self.width as u64) * (self.height as u64)
    }

    /// Puts a colour at column `x` of row `y`. A place behind the end of
    /// the buffer is not written, and the buffer stays as it is. A column
    /// beyond the right edge is a place at the start of a later row.
    pub fn write_pixel(&mut self, x: u32, y: u32, color: C)
        requires
            old(self).wf(),
        ensures
            final(self).wf(),
            final(self).width == old(self).width,
            final(self).height == old(self).height,
            final(self).pixels@ == if old(self).spec_offset(x, y) < old(self).pixels.len() {
                old(self).pixels@.update(old(self).spec_offset(x, y), Pixel { x, y, p: color })
            } else {
                old(self).pixels@
            },
    {
        assert(0 <= y * self.width <= 0xffff_ffff * 0xffff_ffff) by (nonlinear_arith)
            requires
                0 <= y <= 0xffff_ffff,
                0 <= self.width <= 0xffff_ffff,
        ;
        let offset: u64 = (y as u64) * (self.width as u64) + (x as u64);
        if offset >= self.pixels.len() as u64 {
            return;
        }
        self.pixels[offset as usize] = Pixel { x, y, p: color };
    }

    /// The colour at column `x` of row `y`.
    pub fn pixel_at(&self, x: u32, y: u32) -> (c: C)
        requires
            self.spec_offset(x, y) < self.pixels.len(),
        ensures
            c == self.pixels[self.spec_offset(x, y)].p,
    {
        assert(0 <= y * self.width <= 0xffff_ffff * 0xffff_ffff) by (nonlinear_arith)
            requires
                0 <= y <= 0xffff_ffff,
                0 <= self.width <= 0xffff_ffff,
        ;
        let offset: u64 = (y as u64) * (self.width as u64) + (x as u64);
        self.pixels[offset as usize].p
    }

    /// The text of the image as a plain PPM file, from the samples of
    /// its pixels.
    pub fn ppm_stdout(&self, samples: &Vec<u8>) -> (out: Vec<u8>)
        ensures
            out@ == spec_ppm_header(self.width, self.height) + spec_ppm_body(samples@, self.width),
    {
        let mut out = ppm_header(self.width, self.height);
        let mut body = ppm_body(samples, self.width);
        out.append(&mut body);
        out
    }
}

} // verus!
