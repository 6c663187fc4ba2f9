//! A dense, row-major pixel buffer.
//!
//! An [`Image`] stores `width * height` pixels of any type `P`, one row after
//! the other. A pixel is addressed by its column and row; column `i` of row
//! `j` sits at offset `i + j * width` of the underlying storage.

use rayon::iter::{IndexedParallelIterator, IntoParallelRefMutIterator, ParallelIterator};
use vstd::prelude::*;
use vstd::std_specs::iter::IteratorSpec;
use vstd::std_specs::slice::into_iter_elts;

verus! {

/// The mathematical content of an image: its dimensions and its pixels in
/// row-major order.
pub ghost struct Raster<P> {
    pub width: nat,
    pub height: nat,
    pub pixels: Seq<P>,
}

impl<P> Raster<P> {
    /// There is exactly one pixel for every position of the grid.
    pub open spec fn well_formed(self) -> bool {
        self.pixels.len() == self.width * self.height
    }

    /// Column `i` of row `j` lies inside the grid.
    pub open spec fn contains(self, i: int, j: int) -> bool {
        0 <= i < self.width && 0 <= j < self.height
    }

    /// Where column `i` of row `j` is stored.
    pub open spec fn offset(self, i: int, j: int) -> int {
        i + j * self.width
    }

    /// The column of the pixel stored at offset `k`.
    pub open spec fn column_of(self, k: int) -> int {
        k % (self.width as int)
    }

    /// The row of the pixel stored at offset `k`.
    pub open spec fn row_of(self, k: int) -> int {
        k / (self.width as int)
    }

    /// The pixel in column `i` of row `j`.
    pub open spec fn at(self, i: int, j: int) -> P {
        self.pixels[self.offset(i, j)]
    }

    /// A well-formed raster that a machine with this word size can hold.
    pub open spec fn representable(self) -> bool {
        &&& self.well_formed()
        &&& self.width <= usize::MAX
        &&& self.height <= usize::MAX
        &&& self.pixels.len() <= usize::MAX
    }
}

/// `p` is a value that `P::default()` may return.
pub open spec fn is_default<P: Default>(p: P) -> bool {
    call_ensures(P::default, (), p)
}

/// Every position of the grid has an offset inside the storage.
pub proof fn lemma_offset_in_range(width: nat, height: nat, i: int, j: int)
    requires
        0 <= i < width,
        0 <= j < height,
    ensures
        0 <= i + j * width < width * height,
        j * width <= i + j * width,
{
    assert(0 <= j * width) by (nonlinear_arith)
        requires
            0 <= j,
            0 <= width,
    ;
    assert((j + 1) * width <= height * width) by (nonlinear_arith)
        requires
            j + 1 <= height,
            0 <= width,
    ;
    assert((j + 1) * width == j * width + width) by (nonlinear_arith);
    assert(height * width == width * height) by (nonlinear_arith);
}

/// Column and row are recovered from an offset by remainder and quotient.
pub proof fn lemma_offset_splits(width: nat, i: int, j: int)
    requires
        0 <= i < width,
        0 <= j,
    ensures
        (i + j * width) % (width as int) == i,
        (i + j * width) / (width as int) == j,
{
    let w = width as int;
    vstd::arithmetic::div_mod::lemma_fundamental_div_mod_converse(i + j * w, w, j, i);
}

/// An offset inside the storage belongs to exactly one position of the grid.
pub proof fn lemma_offset_joins(width: nat, height: nat, k: int)
    requires
        0 <= k < width * height,
    ensures
        0 <= k % (width as int) < width,
        0 <= k / (width as int) < height,
        k % (width as int) + (k / (width as int)) * width == k,
{
    let w = width as int;
    assert(w > 0) by (nonlinear_arith)
        requires
            0 <= k < w * height,
            w >= 0,
            height >= 0,
    ;
    vstd::arithmetic::div_mod::lemma_fundamental_div_mod(k, w);
    vstd::arithmetic::div_mod::lemma_mod_bound(k, w);
    vstd::arithmetic::div_mod::lemma_div_pos_is_pos(k, w);
    let q = k / w;
    assert(w * q == q * w) by (nonlinear_arith);
    if q >= height {
        assert(q * w >= height * w) by (nonlinear_arith)
            requires
                q >= height,
                w > 0,
        ;
        assert(height * w == w * height) by (nonlinear_arith);
    }
}

/// Two positions of the grid with the same offset are the same position.
pub proof fn lemma_offset_injective(width: nat, i1: int, j1: int, i2: int, j2: int)
    requires
        0 <= i1 < width,
        0 <= i2 < width,
        0 <= j1,
        0 <= j2,
        i1 + j1 * width == i2 + j2 * width,
    ensures
        i1 == i2,
        j1 == j2,
{
    lemma_offset_splits(width, i1, j1);
    lemma_offset_splits(width, i2, j2);
}

/// The column and the row of the pixel that an image `width` pixels wide
/// stores at offset `k`.
pub fn coordinates(width: usize, k: usize) -> (at: (usize, usize))
    requires
        width > 0,
    ensures
        at == place(width, k as int),
        at.0 == (k as int) % (width as int),
        at.1 == (k as int) / (width as int),
        at.0 < width,
        at.0 + at.1 * width == k,
{
    proof {
        let w = width as int;
        let q = (k as int) / w;
        vstd::arithmetic::div_mod::lemma_fundamental_div_mod(k as int, w);
        assert(w * q == q * w) by (nonlinear_arith);
    }
    (k % width, k / width)
}

/// The column and the row of the pixel that an image `width` pixels wide
/// stores at offset `k`.
pub open spec fn place(width: usize, k: int) -> (usize, usize) {
    ((k % (width as int)) as usize, (k / (width as int)) as usize)
}

/// Every pixel of `raster` is a value that `shade` may return for the column
/// and the row of that pixel.
pub open spec fn shaded_by<P, F: Fn(usize, usize) -> P>(raster: Raster<P>, shade: F) -> bool {
    forall|i: usize, j: usize|
        raster.contains(i as int, j as int) ==> call_ensures(
            shade,
            (i, j),
            #[trigger] raster.at(i as int, j as int),
        )
}

/// For each column and row there is one value only that `shade` may return.
pub open spec fn single_valued<P, F: Fn(usize, usize) -> P>(shade: F) -> bool {
    forall|i: usize, j: usize, a: P, b: P|
        #[trigger] call_ensures(shade, (i, j), a) && #[trigger] call_ensures(shade, (i, j), b)
            ==> a == b
}

/// Filling two images of the same dimensions with the same single-valued
/// shading gives the same image twice.
pub proof fn lemma_fill_repeats<P, F: Fn(usize, usize) -> P>(
    shade: F,
    first: Raster<P>,
    second: Raster<P>,
)
    requires
        first.representable(),
        second.representable(),
        first.width == second.width,
        first.height == second.height,
        shaded_by(first, shade),
        shaded_by(second, shade),
        single_valued(shade),
    ensures
        first == second,
{
    assert(first.pixels.len() == second.pixels.len());
    assert forall|k: int| 0 <= k < first.pixels.len() implies first.pixels[k]
        == second.pixels[k] by {
        lemma_offset_joins(first.width, first.height, k);
        let i = (k % (first.width as int)) as usize;
        let j = (k / (first.width as int)) as usize;
        assert(first.contains(i as int, j as int));
        assert(first.offset(i as int, j as int) == k);
        assert(call_ensures(shade, (i, j), first.at(i as int, j as int)));
        assert(call_ensures(shade, (i, j), second.at(i as int, j as int)));
    }
    assert(first.pixels =~= second.pixels);
}

/// Gives the pixel stored at offset `k` of an image `width` pixels wide the
/// value that `shade` computes from its column and row.
fn shade_at<P, F: Fn(usize, usize) -> P>(shade: &F, width: usize, k: usize, slot: &mut P)
    requires
        width > 0,
        call_requires(*shade, place(width, k as int)),
    ensures
        call_ensures(*shade, place(width, k as int), *final(slot)),
{
    let (i, j) = coordinates(width, k);
    *slot = shade(i, j);
}

/// Runs [`shade_at`] on every pixel of `pixels`, spread over the threads of
/// rayon's pool.
///
/// This is `par_iter_mut`, `enumerate` and `for_each` of the crate rayon, and
/// their contract is taken on trust: every element of the slice is handed to
/// the closure exactly once, together with its index, and the call returns
/// when all of them are done. So afterwards every pixel holds what `shade`
/// returned for its own column and row, and there are as many pixels as
/// before.
#[verifier::external_body]
fn par_shade<P: Send, F: Fn(usize, usize) -> P + Sync>(pixels: &mut [P], width: usize, shade: &F)
    requires
        width > 0,
        forall|k: int|
            0 <= k < old(pixels)@.len() ==> call_requires(*shade, #[trigger] place(width, k)),
    ensures
        final(pixels)@.len() == old(pixels)@.len(),
        forall|k: int|
            0 <= k < old(pixels)@.len() ==> call_ensures(
                *shade,
                place(width, k),
                #[trigger] final(pixels)@[k],
            ),
{
    pixels.par_iter_mut().enumerate().for_each(|(k, slot)| shade_at(shade, width, k, slot));
}

/// A `width` by `height` grid of pixels, stored row by row.
#[derive(Debug)]
pub struct Image<P> {
    width: usize,
    height: usize,
    data: Vec<P>,
}

impl<P> View for Image<P> {
    type V = Raster<P>;

    closed spec fn view(&self) -> Raster<P> {
        Raster { width: self.width as nat, height: self.height as nat, pixels: self.data@ }
    }
}

impl<P> Image<P> {
    /// The storage holds exactly one pixel per position. Every constructor
    /// establishes this and every method keeps it.
    pub open spec fn wf(&self) -> bool {
        self@.representable()
    }

    /// A `width` by `height` image in which every pixel is the default value
    /// of `P`.
    pub fn new(width: usize, height: usize) -> (img: Self) where P: Default + Copy
        requires
            width * height <= usize::MAX,
        ensures
            img.wf(),
            img@.width == width,
            img@.height == height,
            forall|k: int| 0 <= k < img@.pixels.len() ==> is_default(#[trigger] img@.pixels[k]),
            forall|k: int, l: int|
                0 <= k < img@.pixels.len() && 0 <= l < img@.pixels.len() ==> img@.pixels[k]
                    == img@.pixels[l],
    {
        let n: usize = width * height;
        let fill = P::default();
        let mut data: Vec<P> = Vec::with_capacity(n);
        let mut k: usize = 0;
        while k < n
            invariant
                k <= n,
                data@.len() == k,
                forall|j: int| 0 <= j < k ==> data@[j] == fill,
            decreases n - k,
        {
            data.push(fill);
            k += 1;
        }
        Image { width, height, data }
    }

    /// An image over the given pixels, if there is exactly one per position.
    pub fn from_pixels(width: usize, height: usize, pixels: Vec<P>) -> (r: Option<Self>)
        ensures
            r is Some <==> pixels@.len() == width * height,
            r matches Some(img) ==> img.wf() && img@ == (Raster {
                width: width as nat,
                height: height as nat,
                pixels: pixels@,
            }),
    {
        let len = pixels.len();
        match width.checked_mul(height) {
            Some(n) => {
                if len == n {
                    Some(Image { width, height, data: pixels })
                } else {
                    None
                }
            },
            None => None,
        }
    }

    /// The number of columns.
    pub fn width(&self) -> (w: usize)
        ensures
            w == self@.width,
    {
        self.width
    }

    /// The number of rows.
    pub fn height(&self) -> (h: usize)
        ensures
            h == self@.height,
    {
        self.height
    }

    /// The offset in the storage of column `i` of row `j`.
    pub fn get_index(&self, i: usize, j: usize) -> (k: usize)
        requires
            self.wf(),
            self@.contains(i as int, j as int),
        ensures
            k == self@.offset(i as int, j as int),
            k < self@.pixels.len(),
            self@.column_of(k as int) == i,
            self@.row_of(k as int) == j,
    {
        proof {
            lemma_offset_in_range(self@.width, self@.height, i as int, j as int);
            lemma_offset_splits(self@.width, i as int, j as int);
        }
        i + (j * self.width)
    }

    /// Walks over all pixels in row-major order.
    pub fn iter(&self) -> (it: core::slice::Iter<'_, P>)
        ensures
            into_iter_elts(it) == self@.pixels,
            IteratorSpec::remaining(&it).unref() == self@.pixels,
            IteratorSpec::decrease(&it) is Some,
            IteratorSpec::initial_value_relation(&it, &it),
    {
        self.data.iter()
    }

    /// The pixels in row-major order.
    pub fn as_slice(&self) -> (s: &[P])
        ensures
            s@ == self@.pixels,
    {
        self.data.as_slice()
    }

    /// The pixels in row-major order, open to change. The dimensions stay as
    /// they are; the image takes over whatever the slice holds when the
    /// borrow ends.
    pub fn as_mut_slice(&mut self) -> (s: &mut [P])
        requires
            old(self).wf(),
        ensures
            s@ == old(self)@.pixels,
            final(self)@ == (Raster { pixels: final(s)@, ..old(self)@ }),
            final(s)@.len() == s@.len() ==> final(self).wf(),
    {
        self.data.as_mut_slice()
    }

    /// Gives every pixel the value that `shade` computes from its column and
    /// its row. The pixels are computed in parallel and in no set order; each
    /// is computed once.
    pub fn par_fill<F>(&mut self, shade: F) where P: Send, F: Fn(usize, usize) -> P + Sync
        requires
            old(self).wf(),
            forall|i: usize, j: usize|
                old(self)@.contains(i as int, j as int) ==> call_requires(shade, (i, j)),
        ensures
            final(self).wf(),
            final(self)@.width == old(self)@.width,
            final(self)@.height == old(self)@.height,
            shaded_by(final(self)@, shade),
    {
        let width = self.width;
        if width > 0 {
            proof {
                assert forall|k: int| 0 <= k < self.data@.len() implies call_requires(
                    shade,
                    #[trigger] place(width, k),
                ) by {
                    lemma_offset_joins(self@.width, self@.height, k);
                    let at = place(width, k);
                    assert(old(self)@.contains(at.0 as int, at.1 as int));
                }
            }
            par_shade(self.data.as_mut_slice(), width, &shade);
            proof {
                assert forall|i: usize, j: usize|
                    self@.contains(i as int, j as int) implies call_ensures(
                    shade,
                    (i, j),
                    #[trigger] self@.at(i as int, j as int),
                ) by {
                    lemma_offset_in_range(self@.width, self@.height, i as int, j as int);
                    lemma_offset_splits(self@.width, i as int, j as int);
                    assert(place(width, self@.offset(i as int, j as int)) == (i, j));
                }
            }
        }
    }

    /// The pixel in column `at.0` of row `at.1`, open to change.
    pub fn index_mut(&mut self, at: (usize, usize)) -> (p: &mut P)
        requires
            old(self).wf(),
            old(self)@.contains(at.0 as int, at.1 as int),
        ensures
            *p == old(self)@.at(at.0 as int, at.1 as int),
            final(self).wf(),
            final(self)@ == (Raster {
                pixels: old(self)@.pixels.update(
                    old(self)@.offset(at.0 as int, at.1 as int),
                    *final(p),
                ),
                ..old(self)@
            }),
    {
        proof {
            lemma_offset_in_range(self@.width, self@.height, at.0 as int, at.1 as int);
        }
        let k: usize = at.0 + at.1 * self.width;
        &mut self.data[k]
    }
}

impl<P> core::ops::Index<(usize, usize)> for Image<P> {
    type Output = P;

    /// The pixel in column `at.0` of row `at.1`.
    fn index(&self, at: (usize, usize)) -> (p: &P)
        ensures
            *p == self@.at(at.0 as int, at.1 as int),
    {
        proof {
            lemma_offset_in_range(self@.width, self@.height, at.0 as int, at.1 as int);
        }
        &self.data[at.0 + at.1 * self.width]
    }
}

impl<P> vstd::std_specs::core::IndexSpecImpl<(usize, usize)> for Image<P> {
    open spec fn index_req(&self, at: &(usize, usize)) -> bool {
        self.wf() && self@.contains(at.0 as int, at.1 as int)
    }
}

} // verus!
