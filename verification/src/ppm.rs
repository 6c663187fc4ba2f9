//! The plain-text PPM format for 8-bit colour images.
//!
//! A file is the header `P3\n<width> <height>\n255\n`, followed by one line
//! `<r> <g> <b> \n` for every pixel in row-major order. [`encoding`] writes
//! that down as a function from rasters to bytes, and [`decoding`] is its
//! inverse. [`decode_header`] and [`decode`] compute the inverse.

use crate::decimal::{
    decimal, is_digit, lemma_decimal_is_numeral, lemma_numeral_at_unique, numeral_at, push_decimal,
    read_decimal,
};
use crate::image::{Image, Raster};
use vstd::prelude::*;

verus! {

/// A pixel of three 8-bit channels: red, green, blue.
pub type Rgb8 = (u8, u8, u8);

/// The byte for a space.
pub const SPACE: u8 = 32;

/// The byte for a line feed.
pub const NEWLINE: u8 = 10;

/// The first line of every file: `P3\n`.
pub open spec fn magic() -> Seq<u8> {
    seq![80u8, 51u8, NEWLINE]
}

/// The line that gives the largest channel value: `255\n`.
pub open spec fn maxval_line() -> Seq<u8> {
    seq![50u8, 53u8, 53u8, NEWLINE]
}

/// The numeral of `n` followed by the byte `delim`.
pub open spec fn field(n: nat, delim: u8) -> Seq<u8> {
    decimal(n).push(delim)
}

/// The header of a `width` by `height` image.
pub open spec fn header(width: nat, height: nat) -> Seq<u8> {
    magic() + field(width, SPACE) + field(height, NEWLINE) + maxval_line()
}

/// The line of one pixel.
pub open spec fn pixel_line(p: Rgb8) -> Seq<u8> {
    field(p.0 as nat, SPACE) + field(p.1 as nat, SPACE) + field(p.2 as nat, SPACE) + seq![NEWLINE]
}

/// The lines of all pixels, in order.
pub open spec fn body(pixels: Seq<Rgb8>) -> Seq<u8>
    decreases pixels.len(),
{
    if pixels.len() == 0 {
        Seq::empty()
    } else {
        body(pixels.drop_last()) + pixel_line(pixels.last())
    }
}

/// The file of a raster: its header, then its pixels.
pub open spec fn encoding(r: Raster<Rgb8>) -> Seq<u8> {
    header(r.width, r.height) + body(r.pixels)
}

/// The dimensions in the header that `s` starts with, if it starts with one.
pub open spec fn header_of(s: Seq<u8>) -> Option<(nat, nat)> {
    if exists|d: (nat, nat)| header(d.0, d.1).is_prefix_of(s) {
        Some(choose|d: (nat, nat)| header(d.0, d.1).is_prefix_of(s))
    } else {
        None
    }
}

/// The well-formed raster of which `s` is the file, if there is one.
pub open spec fn decoding(s: Seq<u8>) -> Option<Raster<Rgb8>> {
    if exists|r: Raster<Rgb8>| r.well_formed() && encoding(r) == s {
        Some(choose|r: Raster<Rgb8>| r.well_formed() && encoding(r) == s)
    } else {
        None
    }
}

/// A string starts with `a + b` exactly if it starts with `a` and goes on
/// with `b`.
proof fn lemma_prefix_split(a: Seq<u8>, b: Seq<u8>, s: Seq<u8>)
    ensures
        (a + b).is_prefix_of(s) <==> a.is_prefix_of(s) && b.is_prefix_of(s.skip(a.len() as int)),
{
    if (a + b).is_prefix_of(s) {
        assert(a =~= s.subrange(0, a.len() as int)) by {
            assert forall|k: int| 0 <= k < a.len() implies a[k] == s[k] by {
                assert((a + b)[k] == a[k]);
            }
        }
        assert(b =~= s.skip(a.len() as int).subrange(0, b.len() as int)) by {
            assert forall|k: int| 0 <= k < b.len() implies b[k] == s[a.len() + k] by {
                assert((a + b)[a.len() + k] == b[k]);
            }
        }
    }
    if a.is_prefix_of(s) && b.is_prefix_of(s.skip(a.len() as int)) {
        assert((a + b) =~= s.subrange(0, (a + b).len() as int)) by {
            assert forall|k: int| 0 <= k < (a + b).len() implies (a + b)[k] == s[k] by {
                if k < a.len() {
                    assert(a[k] == s.subrange(0, a.len() as int)[k]);
                } else {
                    assert(b[k - a.len()] == s.skip(a.len() as int).subrange(0, b.len() as int)[k
                        - a.len()]);
                }
            }
        }
    }
}

/// Where a field stands, a numeral stands, and the delimiter follows it.
proof fn lemma_field_prefix(s: Seq<u8>, pos: int, n: nat, delim: u8)
    requires
        0 <= pos <= s.len(),
        !is_digit(delim),
        field(n, delim).is_prefix_of(s.skip(pos)),
    ensures
        pos + decimal(n).len() < s.len(),
        numeral_at(s, pos, pos + decimal(n).len(), n),
        s[pos + decimal(n).len()] == delim,
{
    let f = field(n, delim);
    let m = decimal(n).len() as int;
    let t = s.skip(pos);
    assert(f.len() == m + 1);
    assert(f =~= t.subrange(0, m + 1));
    assert(t.subrange(0, m + 1)[m] == s[pos + m]);
    assert(f[m] == delim);
    assert(s.subrange(pos, pos + m) =~= decimal(n)) by {
        assert forall|k: int| 0 <= k < m implies s.subrange(pos, pos + m)[k] == decimal(n)[k] by {
            assert(t.subrange(0, m + 1)[k] == s[pos + k]);
            assert(f[k] == decimal(n)[k]);
        }
    }
    lemma_decimal_is_numeral(n);
}

/// A string starts with at most one field.
proof fn lemma_field_unique(s: Seq<u8>, pos: int, n1: nat, d1: u8, n2: nat, d2: u8)
    requires
        0 <= pos <= s.len(),
        !is_digit(d1),
        !is_digit(d2),
        field(n1, d1).is_prefix_of(s.skip(pos)),
        field(n2, d2).is_prefix_of(s.skip(pos)),
    ensures
        n1 == n2,
        d1 == d2,
{
    lemma_field_prefix(s, pos, n1, d1);
    lemma_field_prefix(s, pos, n2, d2);
    lemma_numeral_at_unique(
        s,
        pos,
        pos + decimal(n1).len(),
        n1,
        pos + decimal(n2).len(),
        n2,
    );
}

/// A piece of a string is what the rest of the string starts with.
proof fn lemma_piece_is_prefix(s: Seq<u8>, pos: int, end: int)
    requires
        0 <= pos <= end <= s.len(),
    ensures
        s.subrange(pos, end).is_prefix_of(s.skip(pos)),
        s.skip(pos).skip(end - pos) == s.skip(end),
{
    assert(s.subrange(pos, end) =~= s.skip(pos).subrange(0, end - pos));
    assert(s.skip(pos).skip(end - pos) =~= s.skip(end));
}

/// What the rest of a string starts with is a piece of the string.
proof fn lemma_prefix_is_piece(s: Seq<u8>, pos: int, t: Seq<u8>)
    requires
        0 <= pos <= s.len(),
        t.is_prefix_of(s.skip(pos)),
    ensures
        pos + t.len() <= s.len(),
        s.subrange(pos, pos + t.len()) == t,
        s.skip(pos).skip(t.len() as int) == s.skip(pos + t.len()),
{
    assert(s.subrange(pos, pos + t.len()) =~= s.skip(pos).subrange(0, t.len() as int));
    assert(s.skip(pos).skip(t.len() as int) =~= s.skip(pos + t.len()));
}

/// A string starts with a header exactly if it holds the four parts of one,
/// each where the one before it ends.
proof fn lemma_header_parts(s: Seq<u8>, w: nat, h: nat)
    ensures
        header(w, h).is_prefix_of(s) <==> {
            &&& magic().is_prefix_of(s)
            &&& field(w, SPACE).is_prefix_of(s.skip(3))
            &&& field(h, NEWLINE).is_prefix_of(s.skip(3int + field(w, SPACE).len()))
            &&& maxval_line().is_prefix_of(
                s.skip(3int + field(w, SPACE).len() + field(h, NEWLINE).len()),
            )
        },
        header(w, h).len() == 3 + field(w, SPACE).len() + field(h, NEWLINE).len() + 4,
{
    let fw = field(w, SPACE);
    let fh = field(h, NEWLINE);
    let a = magic() + fw;
    let b = a + fh;
    lemma_prefix_split(b, maxval_line(), s);
    lemma_prefix_split(a, fh, s);
    lemma_prefix_split(magic(), fw, s);
    if magic().is_prefix_of(s) && fw.is_prefix_of(s.skip(3)) {
        lemma_prefix_is_piece(s, 3, fw);
    }
}

/// A string goes on with a pixel line exactly if it holds the three fields
/// and the line feed of one, each where the one before it ends.
proof fn lemma_pixel_line_parts(s: Seq<u8>, pos: int, p: Rgb8)
    requires
        0 <= pos <= s.len(),
    ensures
        pixel_line(p).is_prefix_of(s.skip(pos)) <==> {
            &&& field(p.0 as nat, SPACE).is_prefix_of(s.skip(pos))
            &&& field(p.1 as nat, SPACE).is_prefix_of(s.skip(pos + field(p.0 as nat, SPACE).len()))
            &&& field(p.2 as nat, SPACE).is_prefix_of(
                s.skip(pos + field(p.0 as nat, SPACE).len() + field(p.1 as nat, SPACE).len()),
            )
            &&& pos + pixel_line(p).len() <= s.len()
            &&& s[pos + pixel_line(p).len() - 1] == NEWLINE
        },
        pixel_line(p).len() == field(p.0 as nat, SPACE).len() + field(p.1 as nat, SPACE).len()
            + field(p.2 as nat, SPACE).len() + 1,
{
    let f0 = field(p.0 as nat, SPACE);
    let f1 = field(p.1 as nat, SPACE);
    let f2 = field(p.2 as nat, SPACE);
    let nl = seq![NEWLINE];
    let t = s.skip(pos);
    let a = f0 + f1;
    let b = a + f2;
    lemma_prefix_split(b, nl, t);
    lemma_prefix_split(a, f2, t);
    lemma_prefix_split(f0, f1, t);
    if f0.is_prefix_of(t) {
        lemma_prefix_is_piece(s, pos, f0);
        if f1.is_prefix_of(t.skip(f0.len() as int)) {
            lemma_prefix_is_piece(s, pos + f0.len(), f1);
            assert(t.skip(a.len() as int) =~= s.skip(pos + f0.len() + f1.len()));
            if f2.is_prefix_of(t.skip(a.len() as int)) {
                lemma_prefix_is_piece(s, pos + f0.len() + f1.len(), f2);
                let q = pos + f0.len() + f1.len() + f2.len();
                assert(t.skip(b.len() as int) =~= s.skip(q));
                if nl.is_prefix_of(s.skip(q)) {
                    assert(nl[0] == s.skip(q).subrange(0, 1)[0]);
                }
                if q < s.len() && s[q] == NEWLINE {
                    assert(nl =~= s.skip(q).subrange(0, 1));
                }
            }
        }
    }
}

/// A string starts with at most one header.
pub proof fn lemma_header_unique(s: Seq<u8>, w1: nat, h1: nat, w2: nat, h2: nat)
    requires
        header(w1, h1).is_prefix_of(s),
        header(w2, h2).is_prefix_of(s),
    ensures
        w1 == w2,
        h1 == h2,
{
    lemma_header_parts(s, w1, h1);
    lemma_header_parts(s, w2, h2);
    lemma_field_unique(s, 3, w1, SPACE, w2, SPACE);
    lemma_field_unique(s, 3int + field(w1, SPACE).len(), h1, NEWLINE, h2, NEWLINE);
}

/// At one place a string goes on with at most one pixel line.
pub proof fn lemma_pixel_line_unique(s: Seq<u8>, pos: int, a: Rgb8, b: Rgb8)
    requires
        0 <= pos <= s.len(),
        pixel_line(a).is_prefix_of(s.skip(pos)),
        pixel_line(b).is_prefix_of(s.skip(pos)),
    ensures
        a == b,
{
    lemma_pixel_line_parts(s, pos, a);
    lemma_pixel_line_parts(s, pos, b);
    lemma_field_unique(s, pos, a.0 as nat, SPACE, b.0 as nat, SPACE);
    let second = pos + field(a.0 as nat, SPACE).len();
    lemma_prefix_is_piece(s, pos, field(a.0 as nat, SPACE));
    lemma_field_unique(s, second, a.1 as nat, SPACE, b.1 as nat, SPACE);
    let third = second + field(a.1 as nat, SPACE).len();
    lemma_prefix_is_piece(s, second, field(a.1 as nat, SPACE));
    lemma_field_unique(s, third, a.2 as nat, SPACE, b.2 as nat, SPACE);
}

/// The header that a string starts with is the one that [`header_of`] finds.
pub proof fn lemma_header_of(s: Seq<u8>, w: nat, h: nat)
    requires
        header(w, h).is_prefix_of(s),
    ensures
        header_of(s) == Some((w, h)),
{
    let d = (w, h);
    assert(header(d.0, d.1).is_prefix_of(s));
    let c = choose|d: (nat, nat)| header(d.0, d.1).is_prefix_of(s);
    lemma_header_unique(s, w, h, c.0, c.1);
}

/// The lines of two runs of pixels, one after the other, are the lines of
/// the first followed by the lines of the second.
pub proof fn lemma_body_concat(a: Seq<Rgb8>, b: Seq<Rgb8>)
    ensures
        body(a + b) == body(a) + body(b),
    decreases b.len(),
{
    if b.len() == 0 {
        assert(a + b =~= a);
        assert(body(a) + body(b) =~= body(a));
    } else {
        lemma_body_concat(a, b.drop_last());
        assert((a + b).drop_last() =~= a + b.drop_last());
        assert((a + b).last() == b.last());
        assert(body(a + b) =~= body(a) + body(b));
    }
}

/// The lines of pixels begin with the line of the first pixel.
proof fn lemma_body_front(p: Seq<Rgb8>)
    requires
        p.len() > 0,
    ensures
        body(p) == pixel_line(p[0]) + body(p.skip(1)),
{
    let f = seq![p[0]];
    assert(f.drop_last() =~= Seq::<Rgb8>::empty());
    assert(body(Seq::<Rgb8>::empty()) =~= Seq::<u8>::empty());
    assert(f.last() == p[0]);
    assert(body(f) =~= pixel_line(p[0]));
    assert(f + p.skip(1) =~= p);
    lemma_body_concat(f, p.skip(1));
}

/// If a string goes on with the lines of `a` and also with the lines of `b`,
/// the shorter run of pixels is the beginning of the longer.
proof fn lemma_body_prefix(s: Seq<u8>, pos: int, a: Seq<Rgb8>, b: Seq<Rgb8>)
    requires
        0 <= pos <= s.len(),
        body(a).is_prefix_of(s.skip(pos)),
        body(b).is_prefix_of(s.skip(pos)),
        a.len() <= b.len(),
    ensures
        a == b.take(a.len() as int),
    decreases a.len(),
{
    if a.len() == 0 {
        assert(a =~= b.take(0));
    } else {
        lemma_body_front(a);
        lemma_body_front(b);
        let t = s.skip(pos);
        lemma_prefix_split(pixel_line(a[0]), body(a.skip(1)), t);
        lemma_prefix_split(pixel_line(b[0]), body(b.skip(1)), t);
        lemma_pixel_line_unique(s, pos, a[0], b[0]);
        let n = pixel_line(a[0]).len() as int;
        lemma_prefix_is_piece(s, pos, pixel_line(a[0]));
        lemma_body_prefix(s, pos + n, a.skip(1), b.skip(1));
        assert(a =~= b.take(a.len() as int)) by {
            assert forall|k: int| 0 <= k < a.len() implies a[k] == b[k] by {
                if k > 0 {
                    assert(a.skip(1)[k - 1] == b.skip(1).take(a.len() - 1)[k - 1]);
                }
            }
        }
    }
}

/// Two rasters with the same file are the same raster.
pub proof fn lemma_encoding_injective(x: Raster<Rgb8>, y: Raster<Rgb8>)
    requires
        encoding(x) == encoding(y),
    ensures
        x == y,
{
    let s = encoding(x);
    let hx = header(x.width, x.height);
    let hy = header(y.width, y.height);
    lemma_prefix_split(hx, body(x.pixels), s);
    lemma_prefix_split(hy, body(y.pixels), s);
    assert(s.is_prefix_of(s));
    lemma_header_unique(s, x.width, x.height, y.width, y.height);
    let n = hx.len() as int;
    if x.pixels.len() <= y.pixels.len() {
        lemma_body_prefix(s, n, x.pixels, y.pixels);
        lemma_body_concat(x.pixels, y.pixels.skip(x.pixels.len() as int));
        assert(x.pixels + y.pixels.skip(x.pixels.len() as int) =~= y.pixels);
        lemma_body_nonempty(y.pixels.skip(x.pixels.len() as int));
        assert(x.pixels =~= y.pixels);
    } else {
        lemma_body_prefix(s, n, y.pixels, x.pixels);
        lemma_body_concat(y.pixels, x.pixels.skip(y.pixels.len() as int));
        assert(y.pixels + x.pixels.skip(y.pixels.len() as int) =~= x.pixels);
        lemma_body_nonempty(x.pixels.skip(y.pixels.len() as int));
        assert(x.pixels =~= y.pixels);
    }
}

/// Every pixel takes at least one byte, so only no pixels take none.
proof fn lemma_body_nonempty(p: Seq<Rgb8>)
    ensures
        body(p).len() >= p.len(),
    decreases p.len(),
{
    if p.len() > 0 {
        lemma_body_nonempty(p.drop_last());
    }
}

/// Decoding the file of a raster gives the raster back.
pub proof fn lemma_decoding_of_encoding(x: Raster<Rgb8>)
    requires
        x.well_formed(),
    ensures
        decoding(encoding(x)) == Some(x),
{
    let s = encoding(x);
    let c = choose|r: Raster<Rgb8>| r.well_formed() && encoding(r) == s;
    lemma_encoding_injective(x, c);
}

/// What decoding finds is a well-formed raster whose file is what was
/// decoded.
pub proof fn lemma_encoding_of_decoding(s: Seq<u8>)
    ensures
        decoding(s) matches Some(x) ==> x.well_formed() && encoding(x) == s,
{
}

/// The header of a file gives the dimensions of the raster.
pub proof fn lemma_header_of_encoding(x: Raster<Rgb8>)
    ensures
        header_of(encoding(x)) == Some((x.width, x.height)),
{
    let s = encoding(x);
    lemma_prefix_split(header(x.width, x.height), body(x.pixels), s);
    assert(s.is_prefix_of(s));
    lemma_header_of(s, x.width, x.height);
}

/// Appends the numeral of `n` and the byte `delim`.
fn push_field(out: &mut Vec<u8>, n: usize, delim: u8)
    ensures
        final(out)@ == old(out)@ + field(n as nat, delim),
{
    push_decimal(out, n);
    out.push(delim);
    assert(final(out)@ =~= old(out)@ + field(n as nat, delim));
}

/// Appends the header of a `width` by `height` image.
pub fn push_header(out: &mut Vec<u8>, width: usize, height: usize)
    ensures
        final(out)@ == old(out)@ + header(width as nat, height as nat),
{
    out.push(80);
    out.push(51);
    out.push(NEWLINE);
    push_field(out, width, SPACE);
    push_field(out, height, NEWLINE);
    out.push(50);
    out.push(53);
    out.push(53);
    out.push(NEWLINE);
    assert(final(out)@ =~= old(out)@ + header(width as nat, height as nat));
}

/// Appends the line of the pixel `p`.
pub fn push_pixel_line(out: &mut Vec<u8>, p: Rgb8)
    ensures
        final(out)@ == old(out)@ + pixel_line(p),
{
    push_field(out, p.0 as usize, SPACE);
    push_field(out, p.1 as usize, SPACE);
    push_field(out, p.2 as usize, SPACE);
    out.push(NEWLINE);
    assert(final(out)@ =~= old(out)@ + pixel_line(p));
}

/// Reads the field that starts at `pos`, if there is one with the
/// delimiter `delim` whose number is no more than `limit`. Returns the
/// number and the place behind the delimiter.
fn read_field(bytes: &[u8], pos: usize, limit: usize, delim: u8) -> (r: Option<(usize, usize)>)
    requires
        pos <= bytes@.len(),
        !is_digit(delim),
    ensures
        r matches Some((n, end)) ==> {
            &&& n <= limit
            &&& pos < end <= bytes@.len()
            &&& bytes@.subrange(pos as int, end as int) == field(n as nat, delim)
        },
        r is None ==> forall|n: nat|
            n <= limit ==> !(#[trigger] field(n, delim)).is_prefix_of(bytes@.skip(pos as int)),
{
    match read_decimal(bytes, pos, limit) {
        Some((n, end)) => {
            if end < bytes.len() && bytes[end] == delim {
                assert(bytes@.subrange(pos as int, end + 1) =~= field(n as nat, delim));
                Some((n, end + 1))
            } else {
                proof {
                    assert forall|m: nat| m <= limit implies !(#[trigger] field(
                        m,
                        delim,
                    )).is_prefix_of(bytes@.skip(pos as int)) by {
                        if field(m, delim).is_prefix_of(bytes@.skip(pos as int)) {
                            lemma_field_prefix(bytes@, pos as int, m, delim);
                            lemma_numeral_at_unique(
                                bytes@,
                                pos as int,
                                end as int,
                                n as nat,
                                pos + decimal(m).len(),
                                m,
                            );
                        }
                    }
                }
                None
            }
        },
        None => {
            proof {
                assert forall|m: nat| m <= limit implies !(#[trigger] field(
                    m,
                    delim,
                )).is_prefix_of(bytes@.skip(pos as int)) by {
                    if field(m, delim).is_prefix_of(bytes@.skip(pos as int)) {
                        lemma_field_prefix(bytes@, pos as int, m, delim);
                    }
                }
            }
            None
        },
    }
}

/// Reads the pixel line that starts at `pos`, if there is one. Returns the
/// pixel and the place behind the line.
fn read_pixel(bytes: &[u8], pos: usize) -> (r: Option<(Rgb8, usize)>)
    requires
        pos <= bytes@.len(),
    ensures
        r matches Some((p, end)) ==> {
            &&& pos < end <= bytes@.len()
            &&& bytes@.subrange(pos as int, end as int) == pixel_line(p)
        },
        r is None ==> forall|p: Rgb8|
            !(#[trigger] pixel_line(p)).is_prefix_of(bytes@.skip(pos as int)),
{
    let ghost s = bytes@;
    let Some((red, e1)) = read_field(bytes, pos, 255, SPACE) else {
        proof {
            assert forall|p: Rgb8| !(#[trigger] pixel_line(p)).is_prefix_of(
                s.skip(pos as int),
            ) by {
                lemma_pixel_line_parts(s, pos as int, p);
                assert(p.0 as nat <= 255);
            }
        }
        return None;
    };
    proof {
        lemma_piece_is_prefix(s, pos as int, e1 as int);
    }
    let Some((green, e2)) = read_field(bytes, e1, 255, SPACE) else {
        proof {
            assert forall|p: Rgb8| !(#[trigger] pixel_line(p)).is_prefix_of(
                s.skip(pos as int),
            ) by {
                lemma_pixel_line_parts(s, pos as int, p);
                if pixel_line(p).is_prefix_of(s.skip(pos as int)) {
                    lemma_field_unique(s, pos as int, red as nat, SPACE, p.0 as nat, SPACE);
                    assert(p.1 as nat <= 255);
                }
            }
        }
        return None;
    };
    proof {
        lemma_piece_is_prefix(s, e1 as int, e2 as int);
    }
    let Some((blue, e3)) = read_field(bytes, e2, 255, SPACE) else {
        proof {
            assert forall|p: Rgb8| !(#[trigger] pixel_line(p)).is_prefix_of(
                s.skip(pos as int),
            ) by {
                lemma_pixel_line_parts(s, pos as int, p);
                if pixel_line(p).is_prefix_of(s.skip(pos as int)) {
                    lemma_field_unique(s, pos as int, red as nat, SPACE, p.0 as nat, SPACE);
                    lemma_field_unique(s, e1 as int, green as nat, SPACE, p.1 as nat, SPACE);
                    assert(p.2 as nat <= 255);
                }
            }
        }
        return None;
    };
    proof {
        lemma_piece_is_prefix(s, e2 as int, e3 as int);
    }
    let p: Rgb8 = (red as u8, green as u8, blue as u8);
    if e3 < bytes.len() && bytes[e3] == NEWLINE {
        proof {
            lemma_pixel_line_parts(s, pos as int, p);
            lemma_prefix_is_piece(s, pos as int, pixel_line(p));
        }
        Some((p, e3 + 1))
    } else {
        proof {
            assert forall|q: Rgb8| !(#[trigger] pixel_line(q)).is_prefix_of(
                s.skip(pos as int),
            ) by {
                lemma_pixel_line_parts(s, pos as int, q);
                if pixel_line(q).is_prefix_of(s.skip(pos as int)) {
                    lemma_field_unique(s, pos as int, red as nat, SPACE, q.0 as nat, SPACE);
                    lemma_field_unique(s, e1 as int, green as nat, SPACE, q.1 as nat, SPACE);
                    lemma_field_unique(s, e2 as int, blue as nat, SPACE, q.2 as nat, SPACE);
                }
            }
        }
        None
    }
}

/// The header that [`header_of`] finds is one that the string starts with.
proof fn lemma_header_of_is_prefix(s: Seq<u8>)
    ensures
        header_of(s) matches Some(d) ==> header(d.0, d.1).is_prefix_of(s),
{
}

/// After the lines of the pixels `a`, a string that holds the lines of the
/// longer run `b` goes on with the line of the next pixel of `b`.
proof fn lemma_next_pixel(s: Seq<u8>, start: int, pos: int, a: Seq<Rgb8>, b: Seq<Rgb8>)
    requires
        0 <= start <= pos <= s.len(),
        s.subrange(start, pos) == body(a),
        body(b).is_prefix_of(s.skip(start)),
        a.len() < b.len(),
    ensures
        pixel_line(b[a.len() as int]).is_prefix_of(s.skip(pos)),
{
    let k = a.len() as int;
    let rest = b.skip(k);
    lemma_piece_is_prefix(s, start, pos);
    lemma_body_prefix(s, start, a, b);
    assert(a + rest =~= b);
    lemma_body_concat(a, rest);
    lemma_body_front(rest);
    lemma_prefix_split(body(a), body(rest), s.skip(start));
    lemma_prefix_split(pixel_line(rest[0]), body(rest.skip(1)), s.skip(pos));
}

/// When as many pixels were read as a string holds lines for, the lines
/// that were read end where the lines that the string holds end.
proof fn lemma_last_pixel(s: Seq<u8>, start: int, pos: int, a: Seq<Rgb8>, b: Seq<Rgb8>)
    requires
        0 <= start <= pos <= s.len(),
        s.subrange(start, pos) == body(a),
        body(b) == s.skip(start),
        a.len() == b.len(),
    ensures
        pos == s.len(),
{
    lemma_piece_is_prefix(s, start, pos);
    assert(body(b).is_prefix_of(s.skip(start)));
    lemma_body_prefix(s, start, a, b);
    assert(b.take(a.len() as int) =~= b);
}

/// What the header of a file says: the dimensions of the image, and how many
/// bytes the header takes.
#[derive(Clone, Copy, Debug, PartialEq, Eq)]
pub struct PpmHeader {
    pub width: usize,
    pub height: usize,
    pub length: usize,
}

/// Reads the header that `bytes` starts with. Fails if `bytes` does not
/// start with a header, or if a dimension in it does not fit in a `usize`.
pub fn decode_header(bytes: &[u8]) -> (r: Option<PpmHeader>)
    ensures
        match r {
            Some(hd) => {
                &&& header_of(bytes@) == Some((hd.width as nat, hd.height as nat))
                &&& hd.length == header(hd.width as nat, hd.height as nat).len()
                &&& hd.length <= bytes@.len()
            },
            None => header_of(bytes@) matches Some(d) ==> d.0 > usize::MAX || d.1 > usize::MAX,
        },
{
    let ghost s = bytes@;
    proof {
        lemma_header_of_is_prefix(s);
        if header_of(s) is Some {
            let d = header_of(s)->0;
            lemma_header_parts(s, d.0, d.1);
        }
    }
    if bytes.len() < 3 || bytes[0] != 80 || bytes[1] != 51 || bytes[2] != NEWLINE {
        proof {
            if magic().is_prefix_of(s) {
                assert(magic()[0] == s.subrange(0, 3)[0]);
                assert(magic()[1] == s.subrange(0, 3)[1]);
                assert(magic()[2] == s.subrange(0, 3)[2]);
            }
        }
        return None;
    }
    let Some((width, e1)) = read_field(bytes, 3, usize::MAX, SPACE) else {
        return None;
    };
    proof {
        lemma_piece_is_prefix(s, 3, e1 as int);
        if header_of(s) is Some {
            let d = header_of(s)->0;
            lemma_field_unique(s, 3, width as nat, SPACE, d.0, SPACE);
        }
    }
    let Some((height, e2)) = read_field(bytes, e1, usize::MAX, NEWLINE) else {
        return None;
    };
    proof {
        lemma_piece_is_prefix(s, e1 as int, e2 as int);
        if header_of(s) is Some {
            let d = header_of(s)->0;
            lemma_field_unique(s, e1 as int, height as nat, NEWLINE, d.1, NEWLINE);
        }
    }
    if bytes.len() - e2 < 4 || bytes[e2] != 50 || bytes[e2 + 1] != 53 || bytes[e2 + 2] != 53
        || bytes[e2 + 3] != NEWLINE {
        proof {
            let t = s.skip(e2 as int);
            if maxval_line().is_prefix_of(t) {
                assert(maxval_line()[0] == t.subrange(0, 4)[0]);
                assert(maxval_line()[1] == t.subrange(0, 4)[1]);
                assert(maxval_line()[2] == t.subrange(0, 4)[2]);
                assert(maxval_line()[3] == t.subrange(0, 4)[3]);
            }
        }
        return None;
    }
    proof {
        assert(magic() =~= s.subrange(0, 3));
        assert(maxval_line() =~= s.skip(e2 as int).subrange(0, 4));
        lemma_header_parts(s, width as nat, height as nat);
        lemma_header_of(s, width as nat, height as nat);
    }
    Some(PpmHeader { width, height, length: e2 + 4 })
}

/// Reads the image of which `bytes` is the file. Fails if `bytes` is not the
/// file of any image, or if the image is too large for this machine.
pub fn decode(bytes: &[u8]) -> (r: Option<Image<Rgb8>>)
    ensures
        match r {
            Some(img) => img.wf() && decoding(bytes@) == Some(img@),
            None => decoding(bytes@) matches Some(x) ==> !x.representable(),
        },
{
    let ghost s = bytes@;
    proof {
        lemma_encoding_of_decoding(s);
        if decoding(s) is Some {
            let x = decoding(s)->0;
            lemma_header_of_encoding(x);
            lemma_prefix_split(header(x.width, x.height), body(x.pixels), s);
            assert(s.is_prefix_of(s));
        }
    }
    let Some(hd) = decode_header(bytes) else {
        return None;
    };
    let Some(count) = hd.width.checked_mul(hd.height) else {
        return None;
    };
    let start = hd.length;
    let mut pixels: Vec<Rgb8> = Vec::new();
    let mut pos: usize = start;
    proof {
        assert(body(pixels@) =~= s.subrange(start as int, pos as int));
    }
    while pixels.len() < count
        invariant
            s == bytes@,
            start <= pos <= s.len(),
            s.subrange(start as int, pos as int) == body(pixels@),
            pixels@.len() <= count,
            decoding(s) matches Some(x) ==> x.representable() ==> {
                &&& x.pixels.len() == count
                &&& body(x.pixels).is_prefix_of(s.skip(start as int))
            },
        decreases s.len() - pos,
    {
        let Some((p, end)) = read_pixel(bytes, pos) else {
            proof {
                if decoding(s) is Some && decoding(s)->0.representable() {
                    let x = decoding(s)->0;
                    lemma_next_pixel(s, start as int, pos as int, pixels@, x.pixels);
                }
            }
            return None;
        };
        proof {
            let a = pixels@.push(p);
            assert(a.drop_last() =~= pixels@);
            assert(a.last() == p);
            assert(s.subrange(start as int, end as int) =~= s.subrange(start as int, pos as int)
                + s.subrange(pos as int, end as int));
        }
        pixels.push(p);
        pos = end;
    }
    if pos != bytes.len() {
        proof {
            if decoding(s) is Some && decoding(s)->0.representable() {
                let x = decoding(s)->0;
                lemma_prefix_is_piece(s, start as int, body(x.pixels));
                assert(s.skip(start as int) =~= body(x.pixels));
                lemma_last_pixel(s, start as int, pos as int, pixels@, x.pixels);
            }
        }
        return None;
    }
    let ghost found = Raster::<Rgb8> {
        width: hd.width as nat,
        height: hd.height as nat,
        pixels: pixels@,
    };
    proof {
        lemma_header_of_is_prefix(s);
        assert(encoding(found) =~= s) by {
            assert(s.subrange(0, start as int) =~= header(found.width, found.height));
            assert(s =~= s.subrange(0, start as int) + s.subrange(start as int, pos as int));
        }
        lemma_decoding_of_encoding(found);
    }
    Image::from_pixels(hd.width, hd.height, pixels)
}

} // verus!
