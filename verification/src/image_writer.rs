//! Writers that turn an image into a file format.
//!
//! [`ImageWriter`] is what every writer offers. [`PpmWriter`] is the writer
//! for plain-text PPM: it appends the file of an image to a byte buffer.

use crate::image::Image;
use crate::ppm::{body, encoding, header, push_header, push_pixel_line, Rgb8};
use core::convert::Infallible;
use vstd::prelude::*;

verus! {

/// Something that images with pixels of type `P` can be written to.
pub trait ImageWriter<P> {
    /// Why writing can fail.
    type Error;

    /// Writes `image` out.
    fn write(&mut self, image: &Image<P>) -> Result<(), Self::Error>;
}

/// Writes images as plain-text PPM into a byte buffer.
pub struct PpmWriter {
    writer: Vec<u8>,
}

impl View for PpmWriter {
    type V = Seq<u8>;

    /// The bytes in the buffer.
    closed spec fn view(&self) -> Seq<u8> {
        self.writer@
    }
}

impl PpmWriter {
    /// A writer that appends to `writer`.
    pub fn new(writer: Vec<u8>) -> (w: Self)
        ensures
            w@ == writer@,
    {
        Self { writer }
    }

    /// Appends the file of `image` to the buffer: the header with the
    /// dimensions, then one line for every pixel in row-major order.
    pub fn write_impl(&mut self, image: &Image<Rgb8>)
        ensures
            final(self)@ == old(self)@ + encoding(image@),
    {
        push_header(&mut self.writer, image.width(), image.height());
        let ghost head = self.writer@;
        proof {
            assert(body(image@.pixels.take(0)) =~= Seq::<u8>::empty());
            assert(head + body(image@.pixels.take(0)) =~= head);
        }
        for p in it: image.iter()
            invariant
                it.seq().len() == image@.pixels.len(),
                forall|k: int| 0 <= k < it.seq().len() ==> *it.seq()[k] == image@.pixels[k],
                head == old(self)@ + header(image@.width, image@.height),
                self.writer@ == head + body(image@.pixels.take(it.index() as int)),
        {
            proof {
                let k = it.index() as int;
                let next = image@.pixels.take(k + 1);
                assert(next.drop_last() =~= image@.pixels.take(k));
                assert(next.last() == *p);
            }
            push_pixel_line(&mut self.writer, *p);
            proof {
                let k = it.index() as int;
                assert(self.writer@ =~= head + body(image@.pixels.take(k + 1)));
            }
        }
        proof {
            assert(image@.pixels.take(image@.pixels.len() as int) =~= image@.pixels);
            assert(self.writer@ =~= old(self)@ + encoding(image@));
        }
    }

    /// Hands the buffer back.
    pub fn into_inner(self) -> (bytes: Vec<u8>)
        ensures
            bytes@ == self@,
    {
        self.writer
    }
}

impl ImageWriter<Rgb8> for PpmWriter {
    type Error = Infallible;

    /// Appends the file of `image` to the buffer. This cannot fail.
    fn write(&mut self, image: &Image<Rgb8>) -> (r: Result<(), Infallible>)
        ensures
            r is Ok,
            final(self)@ == old(self)@ + encoding(image@),
    {
        self.write_impl(image);
        Ok(())
    }
}

} // verus!
