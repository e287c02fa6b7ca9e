//! Rendering of the two memory-image text files in the Logisim
//! `v3.0 hex words addressed` format: the literal header line, then one
//! line per 16 bytes, each `HHHH: ` (lowercase hex address) followed by 16
//! space-separated two-digit lowercase hex bytes and a newline.  Bytes
//! beyond the populated prefix are zero.
//!
//! The data file covers the constant pool (`0x00..0x40`) then the data
//! section (`0x40..0x80`); the text file covers the encoded instructions,
//! with its line addresses re-based to start at zero.

use vstd::prelude::*;

verus! {

/// The lowercase hex digit for a value below 16.
pub open spec fn hex_digit(n: int) -> u8 {
    if n < 10 {
        (0x30 + n) as u8
    } else {
        (0x57 + n) as u8
    }
}

/// Two lowercase hex digits of a byte.
pub open spec fn hex2(b: u8) -> Seq<u8> {
    seq![hex_digit((b / 16) as int), hex_digit((b % 16) as int)]
}

/// Four lowercase hex digits of an address below `0x10000`.
pub open spec fn hex4(v: int) -> Seq<u8> {
    seq![
        hex_digit(v / 4096 % 16),
        hex_digit(v / 256 % 16),
        hex_digit(v / 16 % 16),
        hex_digit(v % 16),
    ]
}

/// The byte at `k`, zero beyond the populated prefix.
pub open spec fn image_byte(bytes: Seq<u8>, k: int) -> u8 {
    if 0 <= k < bytes.len() {
        bytes[k]
    } else {
        0
    }
}

/// The text emitted for byte `k` of a region: an address prefix `HHHH: ` at
/// the start of each 16-byte line, the byte in hex, then a space, or a
/// newline at the end of the line.
pub open spec fn image_cell(bytes: Seq<u8>, k: int) -> Seq<u8> {
    (if k % 16 == 0 {
        hex4(k) + seq![0x3Au8, 0x20u8]
    } else {
        Seq::<u8>::empty()
    }) + hex2(image_byte(bytes, k)) + (if k % 16 == 15 {
        seq![0x0Au8]
    } else {
        seq![0x20u8]
    })
}

/// The text of the first `upto` byte cells of a region.
pub open spec fn image_cells(bytes: Seq<u8>, upto: int) -> Seq<u8>
    decreases upto,
{
    if upto <= 0 {
        Seq::empty()
    } else {
        image_cells(bytes, upto - 1) + image_cell(bytes, upto - 1)
    }
}

/// The literal header line `v3.0 hex words addressed\n`.
pub open spec fn header_bytes() -> Seq<u8> {
    seq![
        0x76u8, 0x33u8, 0x2Eu8, 0x30u8, 0x20u8, 0x68u8, 0x65u8, 0x78u8, 0x20u8, 0x77u8, 0x6Fu8,
        0x72u8, 0x64u8, 0x73u8, 0x20u8, 0x61u8, 0x64u8, 0x64u8, 0x72u8, 0x65u8, 0x73u8, 0x73u8,
        0x65u8, 0x64u8, 0x0Au8,
    ]
}

/// The 128 bytes the data file covers: the constant pool region then the
/// data region, each zero-padded to `0x40` bytes (and truncated past it).
pub open spec fn data_region(pool: Seq<u8>, data: Seq<u8>) -> Seq<u8> {
    Seq::new(128, |i: int| if i < 0x40 {
        image_byte(pool, i)
    } else {
        image_byte(data, i - 0x40)
    })
}

/// The 128 bytes the text file covers: the encoded instruction stream,
/// zero-padded (and truncated past `0x80` bytes).
pub open spec fn text_region(code: Seq<u8>) -> Seq<u8> {
    Seq::new(128, |i: int| image_byte(code, i))
}

/// The full text of one image file over a 128-byte region.
pub open spec fn image_text(region: Seq<u8>) -> Seq<u8> {
    header_bytes() + image_cells(region, 128)
}

/// The data-image file text for a constant pool and a data section.
pub open spec fn data_image(pool: Seq<u8>, data: Seq<u8>) -> Seq<u8> {
    image_text(data_region(pool, data))
}

/// The text-image file text for an encoded instruction stream.
pub open spec fn text_image(code: Seq<u8>) -> Seq<u8> {
    image_text(text_region(code))
}

/// Appends the hex digit of a value below 16.
fn push_hex_digit(out: &mut Vec<u8>, n: u8)
    requires
        n < 16,
    ensures
        final(out)@ == old(out)@.push(hex_digit(n as int)),
{
    if n < 10 {
        out.push(0x30 + n);
    } else {
        out.push(0x57 + n);
    }
}

/// Appends the two hex digits of a byte.
fn push_hex2(out: &mut Vec<u8>, b: u8)
    ensures
        final(out)@ == old(out)@ + hex2(b),
{
    push_hex_digit(out, b / 16);
    push_hex_digit(out, b % 16);
    proof {
        assert(final(out)@ =~= old(out)@ + hex2(b));
    }
}

/// Appends the four hex digits of an address below `0x10000`.
fn push_hex4(out: &mut Vec<u8>, v: usize)
    requires
        v < 0x10000,
    ensures
        final(out)@ == old(out)@ + hex4(v as int),
{
    push_hex_digit(out, ((v / 4096) % 16) as u8);
    push_hex_digit(out, ((v / 256) % 16) as u8);
    push_hex_digit(out, ((v / 16) % 16) as u8);
    push_hex_digit(out, (v % 16) as u8);
    proof {
        assert(final(out)@ =~= old(out)@ + hex4(v as int));
    }
}

/// Appends the header line.
fn push_header(out: &mut Vec<u8>)
    ensures
        final(out)@ == old(out)@ + header_bytes(),
{
    out.push(0x76);
    out.push(0x33);
    out.push(0x2E);
    out.push(0x30);
    out.push(0x20);
    out.push(0x68);
    out.push(0x65);
    out.push(0x78);
    out.push(0x20);
    out.push(0x77);
    out.push(0x6F);
    out.push(0x72);
    out.push(0x64);
    out.push(0x73);
    out.push(0x20);
    out.push(0x61);
    out.push(0x64);
    out.push(0x64);
    out.push(0x72);
    out.push(0x65);
    out.push(0x73);
    out.push(0x73);
    out.push(0x65);
    out.push(0x64);
    out.push(0x0A);
    proof {
        assert(final(out)@ =~= old(out)@ + header_bytes());
    }
}

/// The byte of a buffer at `k`, zero past its end.
fn byte_at(buf: &Vec<u8>, k: usize) -> (b: u8)
    ensures
        b == image_byte(buf@, k as int),
{
    if k < buf.len() {
        buf[k]
    } else {
        0
    }
}

/// Renders the 128 cells of a region whose byte `k` is given by
/// `region_spec[k]`, after the header already in `out`.
fn render_cells(out: &mut Vec<u8>, pool: &Vec<u8>, data: &Vec<u8>, text_mode: bool, code: &Vec<u8>)
    ensures
        !text_mode ==> final(out)@ == old(out)@ + image_cells(data_region(pool@, data@), 128),
        text_mode ==> final(out)@ == old(out)@ + image_cells(text_region(code@), 128),
{
    let ghost region: Seq<u8> = if text_mode {
        text_region(code@)
    } else {
        data_region(pool@, data@)
    };
    let mut k: usize = 0;
    proof {
        assert(old(out)@ + image_cells(region, 0) =~= old(out)@);
    }
    while k < 128
        invariant
            k <= 128,
            region == (if text_mode {
                text_region(code@)
            } else {
                data_region(pool@, data@)
            }),
            out@ == old(out)@ + image_cells(region, k as int),
        decreases 128 - k,
    {
        let ghost pre = out@;
        if k % 16 == 0 {
            push_hex4(out, k);
            out.push(0x3A);
            out.push(0x20);
        }
        let b = if text_mode {
            byte_at(code, k)
        } else {
            if k < 0x40 {
                byte_at(pool, k)
            } else {
                byte_at(data, k - 0x40)
            }
        };
        proof {
            assert(b == region[k as int]);
            assert(image_byte(region, k as int) == region[k as int]);
        }
        push_hex2(out, b);
        if k % 16 == 15 {
            out.push(0x0A);
        } else {
            out.push(0x20);
        }
        proof {
            assert(out@ =~= pre + image_cell(region, k as int));
            assert(out@ =~= old(out)@ + image_cells(region, k + 1));
        }
        k = k + 1;
    }
}

/// The data-image file: constant pool then data section, padded to their
/// fixed regions.
pub fn render_data_image(constant_pool: &Vec<u8>, data: &Vec<u8>) -> (r: Vec<u8>)
    ensures
        r@ == data_image(constant_pool@, data@),
{
    let mut out: Vec<u8> = Vec::new();
    push_header(&mut out);
    let empty: Vec<u8> = Vec::new();
    render_cells(&mut out, constant_pool, data, false, &empty);
    proof {
        assert(out@ =~= data_image(constant_pool@, data@));
    }
    out
}

/// The text-image file: the encoded instruction stream, padded to its
/// fixed region and re-based to address zero.
pub fn render_text_image(code: &Vec<u8>) -> (r: Vec<u8>)
    ensures
        r@ == text_image(code@),
{
    let mut out: Vec<u8> = Vec::new();
    push_header(&mut out);
    let empty: Vec<u8> = Vec::new();
    render_cells(&mut out, &empty, &empty, true, code);
    proof {
        assert(out@ =~= text_image(code@));
    }
    out
}

} // verus!
