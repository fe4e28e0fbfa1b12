//! The binary Portable PixMap (`P6`) image buffer.

use vstd::prelude::*;

verus! {

/// The decimal digits of `n`, most significant first, as ASCII bytes.
pub open spec fn decimal(n: nat) -> Seq<u8>
    decreases n,
{
    if n < 10 {
        seq![(48 + n) as u8]
    } else {
        decimal(n / 10).push((48 + n % 10) as u8)
    }
}

/// The header `P6\n<width> <height>\n255\n`.
pub open spec fn ppm_header(width: u32, height: u32) -> Seq<u8> {
    // 'P' '6' '\n'
    seq![80u8, 54u8, 10u8] + decimal(width as nat) + seq![32u8] + decimal(height as nat)
    // '\n' '2' '5' '5' '\n'
        + seq![10u8, 50u8, 53u8, 53u8, 10u8]
}

/// `std::io::Error`, declared so that `write_color` keeps the signature of an
/// image writer; nothing is assumed of its values.
#[verifier::external_type_specification]
#[verifier::external_body]
pub struct ExIoError(std::io::Error);

/// An image encoded as a binary PPM: the header followed by one RGB byte
/// triple per pixel, row by row.
pub struct PPMImage {
    buffer: Vec<u8>,
}

impl View for PPMImage {
    type V = Seq<u8>;

    /// The bytes encoded so far.
    closed spec fn view(&self) -> Seq<u8> {
        self.buffer@
    }
}

fn push_decimal(buffer: &mut Vec<u8>, n: u32)
    ensures
        final(buffer)@ == old(buffer)@ + decimal(n as nat),
    decreases n,
{
    if n >= 10 {
        push_decimal(buffer, n / 10);
    }
    buffer.push(48 + (n % 10) as u8);
    proof {
        assert(decimal(n as nat) == if n < 10 {
            seq![(48 + n) as u8]
        } else {
            decimal((n / 10) as nat).push((48 + n % 10) as u8)
        });
    }
}

impl PPMImage {
    /// An image of `width` by `height` pixels whose buffer holds the header.
    pub fn new(width: u32, height: u32) -> (r: PPMImage)
        ensures
            r@ == ppm_header(width, height),
    {
        let mut buffer: Vec<u8> = Vec::new();
        buffer.push(80);
        buffer.push(54);
        buffer.push(10);
        push_decimal(&mut buffer, width);
        buffer.push(32);
        push_decimal(&mut buffer, height);
        buffer.push(10);
        buffer.push(50);
        buffer.push(53);
        buffer.push(53);
        buffer.push(10);
        let r = PPMImage { buffer };
        assert(r@ =~= ppm_header(width, height));
        r
    }

    /// Appends one pixel. Appending to a buffer never fails.
    pub fn write_color(&mut self, r: u8, g: u8, b: u8) -> (res: Result<(), std::io::Error>)
        ensures
            res is Ok,
            final(self)@ == old(self)@ + seq![r, g, b],
    {
        self.buffer.push(r);
        self.buffer.push(g);
        self.buffer.push(b);
        assert(self@ =~= old(self)@ + seq![r, g, b]);
        Ok(())
    }

    /// The encoded bytes.
    pub fn bytes(&self) -> (r: &Vec<u8>)
        ensures
            r@ == self@,
    {
        &self.buffer
    }
}

} // verus!
