//! The finished frame as a byte stream: a short text header, then three bytes
//! for each pixel in raster order.

use vstd::prelude::*;

verus! {

/// One pixel, each channel already brought into the range of a byte.
#[derive(Clone, Copy, Debug, PartialEq, Eq, Structural)]
pub struct Rgb {
    pub r: u8,
    pub g: u8,
    pub b: u8,
}

/// The decimal digits of `n` as text, most significant first.
pub open spec fn decimal(n: nat) -> Seq<u8>
    decreases n,
{
    if n < 10 {
        seq![(48 + n) as u8]
    } else {
        decimal(n / 10).push((48 + n % 10) as u8)
    }
}

/// The number that a run of decimal digits stands for.
pub open spec fn decimal_value(digits: Seq<u8>) -> nat
    decreases digits.len(),
{
    if digits.len() == 0 {
        0
    } else {
        (10 * decimal_value(digits.drop_last()) + (digits.last() - 48)) as nat
    }
}

/// The header of a frame: the magic word, width, height and the largest
/// channel value, each followed by one blank.
pub open spec fn header_bytes(width: nat, height: nat) -> Seq<u8> {
    seq![80u8, 54u8, 32u8] + decimal(width) + seq![32u8] + decimal(height) + seq![
        32u8,
        50u8,
        53u8,
        53u8,
        32u8,
    ]
}

/// Channel `i` of a pixel: red, green, blue.
pub open spec fn channel(pixel: Rgb, i: int) -> u8 {
    if i == 0 {
        pixel.r
    } else if i == 1 {
        pixel.g
    } else {
        pixel.b
    }
}

/// The pixels as bytes, three for each, in the order given.
pub open spec fn pixel_bytes(pixels: Seq<Rgb>) -> Seq<u8> {
    Seq::new(3 * pixels.len(), |i: int| channel(pixels[i / 3], i % 3))
}

/// Appends the decimal digits of `n`.
pub fn push_decimal(out: &mut Vec<u8>, n: usize)
    ensures
        final(out)@ == old(out)@ + decimal(n as nat),
    decreases n,
{
    if n >= 10 {
        push_decimal(out, n / 10);
    }
    out.push(48 + (n % 10) as u8);
    assert(out@ =~= old(out)@ + decimal(n as nat));
}

/// The header for a frame of the given size.
pub fn header(width: usize, height: usize) -> (bytes: Vec<u8>)
    ensures
        bytes@ == header_bytes(width as nat, height as nat),
{
    let mut bytes: Vec<u8> = Vec::new();
    bytes.push(80);
    bytes.push(54);
    bytes.push(32);
    push_decimal(&mut bytes, width);
    bytes.push(32);
    push_decimal(&mut bytes, height);
    bytes.push(32);
    bytes.push(50);
    bytes.push(53);
    bytes.push(53);
    bytes.push(32);
    assert(bytes@ =~= header_bytes(width as nat, height as nat));
    bytes
}

/// Lays a frame out as bytes: the header, then every pixel in the order
/// given. `None` where the number of pixels is not `width * height`.
pub fn encode(width: usize, height: usize, pixels: &Vec<Rgb>) -> (stream: Option<Vec<u8>>)
    ensures
        stream.is_some() <==> pixels.len() == width * height,
        stream matches Some(s) ==> {
            &&& s@ == header_bytes(width as nat, height as nat) + pixel_bytes(pixels@)
            &&& s@.len() == header_bytes(width as nat, height as nat).len() + 3 * (width * height)
        },
{
    match width.checked_mul(height) {
        Some(count) => {
            if count != pixels.len() {
                return None;
            }
        },
        None => {
            return None;
        },
    }
    let mut stream = header(width, height);
    let ghost head = stream@;
    let mut i: usize = 0;
    while i < pixels.len()
        invariant
            i <= pixels.len(),
            stream@ == head + pixel_bytes(pixels@.take(i as int)),
        decreases pixels.len() - i,
    {
        let pixel = pixels[i];
        let ghost before = pixels@.take(i as int);
        stream.push(pixel.r);
        stream.push(pixel.g);
        stream.push(pixel.b);
        proof {
            let after = pixels@.take(i + 1);
            assert(after =~= before.push(pixel));
            assert(pixel_bytes(after) =~= pixel_bytes(before).push(pixel.r).push(pixel.g).push(
                pixel.b,
            ));
            assert(stream@ =~= head + pixel_bytes(after));
        }
        i += 1;
    }
    assert(pixels@.take(pixels.len() as int) =~= pixels@);
    Some(stream)
}

/// The digits written for `n` are digits, none is a needless leading zero,
/// and read back they give `n`.
pub proof fn lemma_decimal_reads_back(n: nat)
    ensures
        decimal(n).len() >= 1,
        forall|i: int| 0 <= i < decimal(n).len() ==> 48 <= #[trigger] decimal(n)[i] <= 57,
        n > 0 ==> decimal(n)[0] != 48,
        decimal_value(decimal(n)) == n,
    decreases n,
{
    if n < 10 {
        assert(decimal(n).drop_last() =~= Seq::<u8>::empty());
        assert(decimal_value(decimal(n).drop_last()) == 0);
    } else {
        lemma_decimal_reads_back(n / 10);
        let head = decimal(n / 10);
        assert(decimal(n).drop_last() =~= head);
        assert(decimal(n)[0] == head[0]);
    }
}

} // verus!
