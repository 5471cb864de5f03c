//! The plain-text full-colour image format: one header, then one line of three
//! base-10 integers per pixel, in row-major order from the top row.

use vstd::prelude::*;

verus! {

/// ASCII digits of `n` in base 10, most significant first, without leading zeros.
pub open spec fn digits(n: nat) -> Seq<u8>
    decreases n,
{
    if n < 10 {
        seq![(n + 48) as u8]
    } else {
        digits(n / 10).push((n % 10 + 48) as u8)
    }
}

/// ASCII base-10 text of `n`, with a leading `-` when it is negative.
pub open spec fn decimal(n: int) -> Seq<u8> {
    if n < 0 {
        seq![45u8] + digits((-n) as nat)
    } else {
        digits(n as nat)
    }
}

/// One pixel record: the three channel values separated by single spaces,
/// followed by a line feed.
pub open spec fn pixel_text(r: int, g: int, b: int) -> Seq<u8> {
    decimal(r) + seq![32u8] + decimal(g) + seq![32u8] + decimal(b) + seq![10u8]
}

/// The header of a plain-text full-colour image: the `P3` token, the width
/// and height, and the largest channel value 255, one per line.
pub open spec fn header_text(width: int, height: int) -> Seq<u8> {
    seq![80u8, 51u8, 10u8] + decimal(width) + seq![32u8] + decimal(height) + seq![
        10u8,
        50u8,
        53u8,
        53u8,
        10u8,
    ]
}

/// The pixel records of `pixels`, one line each, in order.
pub open spec fn pixels_text(pixels: Seq<(i32, i32, i32)>) -> Seq<u8>
    decreases pixels.len(),
{
    if pixels.len() == 0 {
        Seq::empty()
    } else {
        let p = pixels.last();
        pixels_text(pixels.drop_last()) + pixel_text(p.0 as int, p.1 as int, p.2 as int)
    }
}

/// A whole image: the header followed by every pixel record in row-major order.
pub open spec fn image_text(width: int, height: int, pixels: Seq<(i32, i32, i32)>) -> Seq<u8> {
    header_text(width, height) + pixels_text(pixels)
}

/// The number of line feeds in `s`, that is the number of lines it ends.
pub open spec fn line_count(s: Seq<u8>) -> nat
    decreases s.len(),
{
    if s.len() == 0 {
        0
    } else {
        line_count(s.drop_last()) + if s.last() == 10 {
            1nat
        } else {
            0nat
        }
    }
}

proof fn lemma_line_count_add(a: Seq<u8>, b: Seq<u8>)
    ensures
        line_count(a + b) == line_count(a) + line_count(b),
    decreases b.len(),
{
    if b.len() > 0 {
        assert((a + b).drop_last() =~= a + b.drop_last());
        lemma_line_count_add(a, b.drop_last());
    } else {
        assert(a + b =~= a);
    }
}

proof fn lemma_line_count_single(c: u8)
    ensures
        line_count(seq![c]) == if c == 10 {
            1nat
        } else {
            0nat
        },
{
    assert(seq![c].drop_last() =~= Seq::<u8>::empty());
    assert(line_count(Seq::<u8>::empty()) == 0);
}

proof fn lemma_decimal_line_count(n: int)
    ensures
        line_count(decimal(n)) == 0,
{
    if n < 0 {
        lemma_digits_line_count((-n) as nat);
        lemma_line_count_add(seq![45u8], digits((-n) as nat));
        lemma_line_count_single(45);
    } else {
        lemma_digits_line_count(n as nat);
    }
}

proof fn lemma_digits_line_count(n: nat)
    ensures
        line_count(digits(n)) == 0,
    decreases n,
{
    let d = digits(n);
    if n < 10 {
        assert(d.drop_last() =~= Seq::<u8>::empty());
        assert(line_count(d.drop_last()) == 0);
    } else {
        lemma_digits_line_count(n / 10);
        assert(d.drop_last() =~= digits(n / 10));
    }
    assert(48 <= d.last() <= 57);
}

proof fn lemma_pixel_line_count(r: int, g: int, b: int)
    ensures
        line_count(pixel_text(r, g, b)) == 1,
{
    let sp = seq![32u8];
    let lf = seq![10u8];
    lemma_line_count_single(32);
    lemma_line_count_single(10);
    lemma_decimal_line_count(r);
    lemma_decimal_line_count(g);
    lemma_decimal_line_count(b);
    lemma_line_count_add(decimal(r), sp);
    lemma_line_count_add(decimal(r) + sp, decimal(g));
    lemma_line_count_add(decimal(r) + sp + decimal(g), sp);
    lemma_line_count_add(decimal(r) + sp + decimal(g) + sp, decimal(b));
    lemma_line_count_add(decimal(r) + sp + decimal(g) + sp + decimal(b), lf);
}

proof fn lemma_header_line_count(width: int, height: int)
    ensures
        line_count(header_text(width, height)) == 3,
{
    let magic = seq![80u8, 51u8, 10u8];
    let sp = seq![32u8];
    let tail = seq![10u8, 50u8, 53u8, 53u8, 10u8];
    reveal_with_fuel(line_count, 6);
    assert(magic.drop_last() =~= seq![80u8, 51u8]);
    assert(seq![80u8, 51u8].drop_last() =~= seq![80u8]);
    assert(seq![80u8].drop_last() =~= Seq::<u8>::empty());
    assert(sp.drop_last() =~= Seq::<u8>::empty());
    assert(tail.drop_last() =~= seq![10u8, 50u8, 53u8, 53u8]);
    assert(seq![10u8, 50u8, 53u8, 53u8].drop_last() =~= seq![10u8, 50u8, 53u8]);
    assert(seq![10u8, 50u8, 53u8].drop_last() =~= seq![10u8, 50u8]);
    assert(seq![10u8, 50u8].drop_last() =~= seq![10u8]);
    assert(seq![10u8].drop_last() =~= Seq::<u8>::empty());
    lemma_decimal_line_count(width);
    lemma_decimal_line_count(height);
    lemma_line_count_add(magic, decimal(width));
    lemma_line_count_add(magic + decimal(width), sp);
    lemma_line_count_add(magic + decimal(width) + sp, decimal(height));
    lemma_line_count_add(magic + decimal(width) + sp + decimal(height), tail);
}

proof fn lemma_pixels_line_count(pixels: Seq<(i32, i32, i32)>)
    ensures
        line_count(pixels_text(pixels)) == pixels.len(),
    decreases pixels.len(),
{
    if pixels.len() > 0 {
        let p = pixels.last();
        lemma_pixels_line_count(pixels.drop_last());
        lemma_pixel_line_count(p.0 as int, p.1 as int, p.2 as int);
        lemma_line_count_add(
            pixels_text(pixels.drop_last()),
            pixel_text(p.0 as int, p.1 as int, p.2 as int),
        );
    }
}

/// An image of `width` by `height` pixels is made of exactly
/// `3 + width * height` lines: three of header, then one per pixel.
pub proof fn lemma_image_line_count(width: int, height: int, pixels: Seq<(i32, i32, i32)>)
    requires
        pixels.len() == width * height,
    ensures
        line_count(image_text(width, height, pixels)) == 3 + width * height,
{
    lemma_header_line_count(width, height);
    lemma_pixels_line_count(pixels);
    lemma_line_count_add(header_text(width, height), pixels_text(pixels));
}

/// Appends the digits of `m` to `out`.
fn push_digits(out: &mut Vec<u8>, m: u32)
    ensures
        final(out)@ == old(out)@ + digits(m as nat),
    decreases m,
{
    if m >= 10 {
        push_digits(out, m / 10);
    }
    out.push((m % 10) as u8 + 48);
    assert(final(out)@ =~= old(out)@ + digits(m as nat));
}

/// Appends the base-10 text of `n` to `out`.
fn push_decimal(out: &mut Vec<u8>, n: i32)
    ensures
        final(out)@ == old(out)@ + decimal(n as int),
{
    let ghost start = out@;
    if n < 0 {
        out.push(45);
        let m: u32 = (0i64 - n as i64) as u32;
        push_digits(out, m);
        assert(out@ =~= start + decimal(n as int));
    } else {
        push_digits(out, n as u32);
    }
}

/// Appends the base-10 text of `n` to `out`.
fn push_decimal_u32(out: &mut Vec<u8>, n: u32)
    ensures
        final(out)@ == old(out)@ + decimal(n as int),
{
    push_digits(out, n);
}

/// The text record of one pixel whose channels are already quantised.
pub fn encode_pixel(r: i32, g: i32, b: i32) -> (t: Vec<u8>)
    ensures
        t@ == pixel_text(r as int, g as int, b as int),
{
    let mut t: Vec<u8> = Vec::new();
    push_pixel(&mut t, r, g, b);
    t
}

/// Appends the record of one pixel to `out`.
fn push_pixel(out: &mut Vec<u8>, r: i32, g: i32, b: i32)
    ensures
        final(out)@ == old(out)@ + pixel_text(r as int, g as int, b as int),
{
    let ghost start = out@;
    push_decimal(out, r);
    out.push(32);
    push_decimal(out, g);
    out.push(32);
    push_decimal(out, b);
    out.push(10);
    assert(out@ =~= start + pixel_text(r as int, g as int, b as int));
}

/// The header of an image of `width` by `height` pixels.
pub fn encode_header(width: u32, height: u32) -> (t: Vec<u8>)
    ensures
        t@ == header_text(width as int, height as int),
{
    let mut t: Vec<u8> = Vec::new();
    t.push(80);
    t.push(51);
    t.push(10);
    push_decimal_u32(&mut t, width);
    t.push(32);
    push_decimal_u32(&mut t, height);
    t.push(10);
    t.push(50);
    t.push(53);
    t.push(53);
    t.push(10);
    assert(t@ =~= header_text(width as int, height as int));
    t
}

/// The full text of an image of `width` by `height` pixels whose quantised
/// colours are `pixels`, row by row from the top. There must be exactly one
/// colour per pixel; otherwise there is no image.
pub fn encode_image(width: u32, height: u32, pixels: &Vec<(i32, i32, i32)>) -> (r: Option<Vec<u8>>)
    ensures
        r.is_some() <==> pixels@.len() == width * height,
        r matches Some(t) ==> t@ == image_text(width as int, height as int, pixels@),
{
    proof {
        let (w, h) = (width as int, height as int);
        assert(0 <= w * h <= 0xffff_ffff * 0xffff_ffff) by (nonlinear_arith)
            requires
                0 <= w <= 0xffff_ffff,
                0 <= h <= 0xffff_ffff,
        ;
    }
    let count: u64 = width as u64 * height as u64;
    if pixels.len() as u64 != count {
        return None;
    }
    let mut t = encode_header(width, height);
    let mut i: usize = 0;
    while i < pixels.len()
        invariant
            i <= pixels@.len(),
            t@ == header_text(width as int, height as int) + pixels_text(pixels@.subrange(0, i as int)),
        decreases pixels@.len() - i,
    {
        let (r, g, b) = pixels[i];
        push_pixel(&mut t, r, g, b);
        proof {
            let s = pixels@.subrange(0, i + 1);
            assert(s.drop_last() =~= pixels@.subrange(0, i as int));
        }
        i += 1;
    }
    assert(pixels@.subrange(0, pixels@.len() as int) =~= pixels@);
    Some(t)
}

} // verus!
