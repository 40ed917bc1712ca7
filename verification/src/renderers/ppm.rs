//! Plain-text PPM: a header with the magic token, the dimensions and the
//! largest channel value, then one line per row of pixels, each channel
//! written in decimal and followed by a space.

use super::{Color, Image};
use vstd::prelude::*;

verus! {

/// The plain-text PPM encoder.
#[derive(Default)]
pub struct PPM {}

/// ASCII `0`.
pub const DIGIT_ZERO: u8 = 0x30;

/// ASCII `9`.
pub const DIGIT_NINE: u8 = 0x39;

/// ASCII `P`, which opens the magic token.
pub const LETTER_P: u8 = 0x50;

/// ASCII space.
pub const SPACE: u8 = 0x20;

/// ASCII line feed.
pub const LINE_FEED: u8 = 0x0a;

/// The number in the magic token: 3 marks a pixmap written as text.
pub const PLAIN_PIXMAP: usize = 3;

/// The largest value of a channel, as the header announces it.
pub const MAX_CHANNEL: usize = 255;

/// `b` is an ASCII digit.
pub open spec fn is_digit(b: u8) -> bool {
    DIGIT_ZERO <= b <= DIGIT_NINE
}

/// `s` is not empty and does not end in a digit, so that a number written
/// after it begins where `s` ends.
pub open spec fn ends_plain(s: Seq<u8>) -> bool {
    s.len() > 0 && !is_digit(s.last())
}

/// `n` in decimal, most significant digit first, without leading zeros.
pub open spec fn decimal(n: nat) -> Seq<u8>
    decreases n,
{
    if n < 10 {
        seq![(DIGIT_ZERO + n) as u8]
    } else {
        decimal(n / 10).push((DIGIT_ZERO + n % 10) as u8)
    }
}

/// The number that a sequence of decimal digits stands for.
pub open spec fn decimal_value(digits: Seq<u8>) -> nat
    decreases digits.len(),
{
    if digits.len() == 0 {
        0
    } else {
        (decimal_value(digits.drop_last()) * 10 + (digits.last() - DIGIT_ZERO)) as nat
    }
}

/// One pixel: its three channels, each followed by a space.
pub open spec fn pixel_text(c: Color) -> Seq<u8> {
    decimal(c.r as nat).push(SPACE) + decimal(c.g as nat).push(SPACE) + decimal(c.b as nat).push(
        SPACE,
    )
}

/// The pixels of one row, left to right.
pub open spec fn row_text(row: Seq<Color>) -> Seq<u8>
    decreases row.len(),
{
    if row.len() == 0 {
        Seq::empty()
    } else {
        row_text(row.drop_last()) + pixel_text(row.last())
    }
}

/// The rows from the top, each closed by a line feed.
pub open spec fn rows_text(rows: Seq<Seq<Color>>) -> Seq<u8>
    decreases rows.len(),
{
    if rows.len() == 0 {
        Seq::empty()
    } else {
        rows_text(rows.drop_last()) + row_text(rows.last()).push(LINE_FEED)
    }
}

/// The magic token, the width and the height, and the largest channel value,
/// on three lines.
pub open spec fn header_text(width: nat, height: nat) -> Seq<u8> {
    seq![LETTER_P] + decimal(PLAIN_PIXMAP as nat).push(LINE_FEED) + decimal(width).push(SPACE)
        + decimal(height).push(LINE_FEED) + decimal(MAX_CHANNEL as nat).push(LINE_FEED)
}

/// The whole file for an image.
pub open spec fn ppm_text(image: Image) -> Seq<u8> {
    header_text(image.spec_width() as nat, image.spec_height() as nat) + rows_text(image@)
}

/// Appends `n` in decimal to `out`.
fn push_decimal(out: &mut Vec<u8>, n: usize)
    ensures
        final(out)@ == old(out)@ + decimal(n as nat),
    decreases n,
{
    if n >= 10 {
        push_decimal(out, n / 10);
    }
    let digit: u8 = (n % 10) as u8;
    out.push(DIGIT_ZERO + digit);
    proof {
        if n >= 10 {
            assert(old(out)@ + decimal(n as nat) =~= (old(out)@ + decimal((n / 10) as nat)).push(
                (DIGIT_ZERO + n % 10) as u8,
            ));
        } else {
            assert(old(out)@ + decimal(n as nat) =~= old(out)@.push((DIGIT_ZERO + n) as u8));
        }
    }
}

/// Appends one pixel to `out`.
fn push_pixel(out: &mut Vec<u8>, c: &Color)
    ensures
        final(out)@ == old(out)@ + pixel_text(*c),
{
    push_decimal(out, c.r as usize);
    out.push(SPACE);
    push_decimal(out, c.g as usize);
    out.push(SPACE);
    push_decimal(out, c.b as usize);
    out.push(SPACE);
    assert(out@ =~= old(out)@ + pixel_text(*c));
}

impl PPM {
    pub fn new() -> Self {
        PPM {  }
    }

    /// Writes `image` out as plain-text PPM.
    pub fn encode(&self, image: &Image) -> (out: Vec<u8>)
        requires
            image.wf(),
        ensures
            out@ == ppm_text(*image),
    {
        let mut out: Vec<u8> = Vec::new();
        out.push(LETTER_P);
        push_decimal(&mut out, PLAIN_PIXMAP);
        out.push(LINE_FEED);
        push_decimal(&mut out, image.width());
        out.push(SPACE);
        push_decimal(&mut out, image.height());
        out.push(LINE_FEED);
        push_decimal(&mut out, MAX_CHANNEL);
        out.push(LINE_FEED);
        let ghost header = header_text(image.spec_width() as nat, image.spec_height() as nat);
        assert(out@ =~= header);
        let mut y: usize = 0;
        while y < image.height()
            invariant
                image.wf(),
                y <= image.spec_height(),
                out@ == header + rows_text(image@.take(y as int)),
            decreases image.spec_height() - y,
        {
            let ghost done = out@;
            let mut x: usize = 0;
            while x < image.width()
                invariant
                    image.wf(),
                    y < image.spec_height(),
                    x <= image.spec_width(),
                    out@ == done + row_text(image@[y as int].take(x as int)),
                decreases image.spec_width() - x,
            {
                let c = image.get_pixel(x, y);
                push_pixel(&mut out, c);
                proof {
                    let row = image@[y as int];
                    assert(row.take(x + 1).drop_last() =~= row.take(x as int));
                    assert(row.take(x + 1).last() == row[x as int]);
                    assert(out@ =~= done + row_text(row.take(x + 1)));
                }
                x += 1;
            }
            out.push(LINE_FEED);
            proof {
                let rows = image@;
                assert(rows[y as int].take(x as int) =~= rows[y as int]);
                assert(rows.take(y + 1).drop_last() =~= rows.take(y as int));
                assert(rows.take(y + 1).last() == rows[y as int]);
                assert(out@ =~= header + rows_text(rows.take(y + 1)));
            }
            y += 1;
        }
        assert(image@.take(y as int) =~= image@);
        out
    }
}

/// Every byte of `decimal(n)` is an ASCII digit, a leading zero appears only
/// for zero itself, and reading the digits back gives `n`: two different
/// numbers are never written the same way.
pub proof fn lemma_decimal_round_trip(n: nat)
    ensures
        decimal(n).len() >= 1,
        forall|i: int| 0 <= i < decimal(n).len() ==> is_digit(#[trigger] decimal(n)[i]),
        decimal(n)[0] == DIGIT_ZERO ==> n == 0,
        decimal_value(decimal(n)) == n,
    decreases n,
{
    if n < 10 {
        assert(decimal(n).drop_last() =~= Seq::<u8>::empty());
        assert(decimal_value(decimal(n).drop_last()) == 0);
    } else {
        lemma_decimal_round_trip(n / 10);
        assert(decimal(n).drop_last() =~= decimal(n / 10));
    }
}

/// A number written at the end of a text, after something that is no digit,
/// can be read off it again: the number and what stands before it are both
/// determined by the whole.
proof fn lemma_number_at_end(p: Seq<u8>, m: nat, q: Seq<u8>, n: nat)
    requires
        ends_plain(p),
        ends_plain(q),
        p + decimal(m) == q + decimal(n),
    ensures
        p == q,
        m == n,
{
    let s = p + decimal(m);
    let t = q + decimal(n);
    lemma_decimal_round_trip(m);
    lemma_decimal_round_trip(n);
    assert(s.len() == p.len() + decimal(m).len());
    assert(t.len() == q.len() + decimal(n).len());
    if p.len() > q.len() {
        let i = p.len() - 1;
        assert(s[i] == p.last());
        assert(t[i] == decimal(n)[i - q.len()]);
    }
    if q.len() > p.len() {
        let i = q.len() - 1;
        assert(t[i] == q.last());
        assert(s[i] == decimal(m)[i - p.len()]);
    }
    assert(p =~= s.subrange(0, p.len() as int));
    assert(q =~= t.subrange(0, q.len() as int));
    assert(decimal(m) =~= s.subrange(p.len() as int, s.len() as int));
    assert(decimal(n) =~= t.subrange(q.len() as int, t.len() as int));
}

/// A number written at the start of a text, before something that is no
/// digit, can be read off it again, and so can what follows it.
proof fn lemma_number_at_start(m: nat, a: Seq<u8>, n: nat, b: Seq<u8>)
    requires
        a.len() > 0,
        !is_digit(a[0]),
        b.len() > 0,
        !is_digit(b[0]),
        decimal(m) + a == decimal(n) + b,
    ensures
        m == n,
        a == b,
{
    let s = decimal(m) + a;
    let t = decimal(n) + b;
    lemma_decimal_round_trip(m);
    lemma_decimal_round_trip(n);
    let lm = decimal(m).len() as int;
    let ln = decimal(n).len() as int;
    if lm < ln {
        assert(s[lm] == a[0]);
        assert(t[lm] == decimal(n)[lm]);
    }
    if ln < lm {
        assert(t[ln] == b[0]);
        assert(s[ln] == decimal(m)[ln]);
    }
    assert(decimal(m) =~= s.subrange(0, lm));
    assert(decimal(n) =~= t.subrange(0, ln));
    assert(a =~= s.subrange(lm, s.len() as int));
    assert(b =~= t.subrange(ln, t.len() as int));
}

/// Two texts that agree after the same byte was appended to each agree
/// without it.
proof fn lemma_strip_last(p: Seq<u8>, q: Seq<u8>, b: u8)
    requires
        p.push(b) == q.push(b),
    ensures
        p == q,
{
    assert(p =~= p.push(b).drop_last());
    assert(q =~= q.push(b).drop_last());
}

/// The text of a row is empty or ends in the space that closes a pixel.
proof fn lemma_row_text_end(row: Seq<Color>)
    ensures
        row.len() == 0 ==> row_text(row) == Seq::<u8>::empty(),
        row.len() > 0 ==> row_text(row).len() > 0 && row_text(row).last() == SPACE,
{
}

/// The text of some rows is empty or ends in the line feed that closes a row.
proof fn lemma_rows_text_end(rows: Seq<Seq<Color>>)
    ensures
        rows.len() == 0 ==> rows_text(rows) == Seq::<u8>::empty(),
        rows.len() > 0 ==> rows_text(rows).len() > 0 && rows_text(rows).last() == LINE_FEED,
{
}

/// Three texts, each closed by `s`, appended to `p` in one piece or one
/// after the other.
proof fn lemma_regroup_three(p: Seq<u8>, x: Seq<u8>, y: Seq<u8>, z: Seq<u8>, s: u8)
    ensures
        p + (x.push(s) + y.push(s) + z.push(s)) == (((p + x).push(s) + y).push(s) + z).push(s),
{
    assert(p + (x.push(s) + y.push(s) + z.push(s)) =~= (((p + x).push(s) + y).push(s) + z).push(
        s,
    ));
}

/// A number and the space that closes it, written at the end of a text after
/// something that is no digit, determine the number and what stands before.
proof fn lemma_channel_at_end(p: Seq<u8>, m: nat, q: Seq<u8>, n: nat)
    requires
        ends_plain(p),
        ends_plain(q),
        (p + decimal(m)).push(SPACE) == (q + decimal(n)).push(SPACE),
    ensures
        p == q,
        m == n,
        ends_plain((p + decimal(m)).push(SPACE)),
{
    lemma_strip_last(p + decimal(m), q + decimal(n), SPACE);
    lemma_number_at_end(p, m, q, n);
}

/// Pixels that are written the same, each after something that is no digit,
/// are the same pixel, written after the same text.
proof fn lemma_pixel_determined(p: Seq<u8>, a: Color, q: Seq<u8>, b: Color)
    requires
        ends_plain(p),
        ends_plain(q),
        p + pixel_text(a) == q + pixel_text(b),
    ensures
        p == q,
        a == b,
{
    let p_r = (p + decimal(a.r as nat)).push(SPACE);
    let q_r = (q + decimal(b.r as nat)).push(SPACE);
    let p_g = (p_r + decimal(a.g as nat)).push(SPACE);
    let q_g = (q_r + decimal(b.g as nat)).push(SPACE);
    lemma_regroup_three(p, decimal(a.r as nat), decimal(a.g as nat), decimal(a.b as nat), SPACE);
    lemma_regroup_three(q, decimal(b.r as nat), decimal(b.g as nat), decimal(b.b as nat), SPACE);
    assert(ends_plain(p_r));
    assert(ends_plain(q_r));
    assert(ends_plain(p_g));
    assert(ends_plain(q_g));
    lemma_channel_at_end(p_g, a.b as nat, q_g, b.b as nat);
    lemma_channel_at_end(p_r, a.g as nat, q_r, b.g as nat);
    lemma_channel_at_end(p, a.r as nat, q, b.r as nat);
}

/// Appending to `p` what was appended to `x` before.
proof fn lemma_regroup(p: Seq<u8>, x: Seq<u8>, y: Seq<u8>)
    ensures
        p + (x + y) == (p + x) + y,
{
    assert(p + (x + y) =~= (p + x) + y);
}

/// Rows of one length that are written the same, each after something that
/// is no digit, are the same row, written after the same text.
proof fn lemma_row_determined(p: Seq<u8>, a: Seq<Color>, q: Seq<u8>, b: Seq<Color>)
    requires
        ends_plain(p),
        ends_plain(q),
        a.len() == b.len(),
        p + row_text(a) == q + row_text(b),
    ensures
        p == q,
        a == b,
    decreases a.len(),
{
    if a.len() == 0 {
        assert(p + row_text(a) =~= p);
        assert(q + row_text(b) =~= q);
        assert(a =~= b);
    } else {
        let pa = p + row_text(a.drop_last());
        let qb = q + row_text(b.drop_last());
        lemma_row_text_end(a.drop_last());
        lemma_row_text_end(b.drop_last());
        assert(ends_plain(pa));
        assert(ends_plain(qb));
        lemma_regroup(p, row_text(a.drop_last()), pixel_text(a.last()));
        lemma_regroup(q, row_text(b.drop_last()), pixel_text(b.last()));
        lemma_pixel_determined(pa, a.last(), qb, b.last());
        lemma_row_determined(p, a.drop_last(), q, b.drop_last());
        assert(a =~= a.drop_last().push(a.last()));
        assert(b =~= b.drop_last().push(b.last()));
    }
}

/// Equally many rows of one length that are written the same, each after
/// something that is no digit, hold the same pixels.
proof fn lemma_rows_determined(
    p: Seq<u8>,
    a: Seq<Seq<Color>>,
    q: Seq<u8>,
    b: Seq<Seq<Color>>,
    width: nat,
)
    requires
        ends_plain(p),
        ends_plain(q),
        a.len() == b.len(),
        forall|y: int| 0 <= y < a.len() ==> (#[trigger] a[y]).len() == width,
        forall|y: int| 0 <= y < b.len() ==> (#[trigger] b[y]).len() == width,
        p + rows_text(a) == q + rows_text(b),
    ensures
        p == q,
        a == b,
    decreases a.len(),
{
    if a.len() == 0 {
        assert(p + rows_text(a) =~= p);
        assert(q + rows_text(b) =~= q);
        assert(a =~= b);
    } else {
        let pa = p + rows_text(a.drop_last());
        let qb = q + rows_text(b.drop_last());
        lemma_rows_text_end(a.drop_last());
        lemma_rows_text_end(b.drop_last());
        assert(ends_plain(pa));
        assert(ends_plain(qb));
        assert(p + rows_text(a) =~= (pa + row_text(a.last())).push(LINE_FEED));
        assert(q + rows_text(b) =~= (qb + row_text(b.last())).push(LINE_FEED));
        lemma_strip_last(pa + row_text(a.last()), qb + row_text(b.last()), LINE_FEED);
        lemma_row_determined(pa, a.last(), qb, b.last());
        lemma_rows_determined(p, a.drop_last(), q, b.drop_last(), width);
        assert(a =~= a.drop_last().push(a.last()));
        assert(b =~= b.drop_last().push(b.last()));
    }
}

/// The pieces of a header and what follows it, appended from the left or
/// nested from the right.
proof fn lemma_regroup_header(
    magic: Seq<u8>,
    w: Seq<u8>,
    h: Seq<u8>,
    depth: Seq<u8>,
    body: Seq<u8>,
)
    ensures
        magic + w.push(SPACE) + h.push(LINE_FEED) + depth + body == magic + (w + (seq![SPACE] + (h
            + (seq![LINE_FEED] + (depth + body))))),
        (seq![SPACE] + (h + (seq![LINE_FEED] + (depth + body))))[0] == SPACE,
        (seq![LINE_FEED] + (depth + body))[0] == LINE_FEED,
{
    assert(magic + w.push(SPACE) + h.push(LINE_FEED) + depth + body =~= magic + (w + (seq![SPACE]
        + (h + (seq![LINE_FEED] + (depth + body))))));
}

/// Two texts that agree after the same text was put before each agree
/// without it.
proof fn lemma_strip_front(p: Seq<u8>, x: Seq<u8>, y: Seq<u8>)
    requires
        p + x == p + y,
    ensures
        x == y,
{
    assert(x =~= (p + x).subrange(p.len() as int, (p + x).len() as int));
    assert(y =~= (p + y).subrange(p.len() as int, (p + y).len() as int));
}

/// A text that closes with `c` ends in `c`, whatever stands before.
proof fn lemma_closed_by(x: Seq<u8>, y: Seq<u8>, c: u8)
    ensures
        (x + y.push(c)).len() > 0,
        (x + y.push(c)).last() == c,
{
}

/// The text loses nothing: two images that are written the same have the
/// same width, the same height and the same pixels.
pub proof fn lemma_text_determines_image(a: Image, b: Image)
    requires
        a.wf(),
        b.wf(),
        ppm_text(a) == ppm_text(b),
    ensures
        a.spec_width() == b.spec_width(),
        a.spec_height() == b.spec_height(),
        a@ == b@,
{
    let magic = seq![LETTER_P] + decimal(PLAIN_PIXMAP as nat).push(LINE_FEED);
    let depth = decimal(MAX_CHANNEL as nat).push(LINE_FEED);
    let wa = a.spec_width() as nat;
    let wb = b.spec_width() as nat;
    let ha = a.spec_height() as nat;
    let hb = b.spec_height() as nat;
    // What follows the height, and what follows the width.
    let after_ha = seq![LINE_FEED] + (depth + rows_text(a@));
    let after_hb = seq![LINE_FEED] + (depth + rows_text(b@));
    let after_wa = seq![SPACE] + (decimal(ha) + after_ha);
    let after_wb = seq![SPACE] + (decimal(hb) + after_hb);
    lemma_regroup_header(magic, decimal(wa), decimal(ha), depth, rows_text(a@));
    lemma_regroup_header(magic, decimal(wb), decimal(hb), depth, rows_text(b@));
    lemma_strip_front(magic, decimal(wa) + after_wa, decimal(wb) + after_wb);
    lemma_number_at_start(wa, after_wa, wb, after_wb);
    lemma_strip_front(seq![SPACE], decimal(ha) + after_ha, decimal(hb) + after_hb);
    lemma_number_at_start(ha, after_ha, hb, after_hb);
    let header = header_text(wa, ha);
    lemma_closed_by(
        magic + decimal(wa).push(SPACE) + decimal(ha).push(LINE_FEED),
        decimal(MAX_CHANNEL as nat),
        LINE_FEED,
    );
    lemma_rows_determined(header, a@, header, b@, wa);
}

} // verus!
