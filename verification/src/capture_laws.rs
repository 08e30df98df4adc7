//! What stands where in the bytes that a camera driver exchanges.
use crate::capture::{
    first_zero, format_bytes, format_fields, interval_ms, samples_of, V4L2_PIX_FMT_GREY,
    V4L2_PIX_FMT_Y16, V4L2_PIX_FMT_YUYV,
};
use crate::codec::{u32_at, u32_bytes, written_u32_reads_back};
use crate::diag::fourcc_text;
use vstd::arithmetic::div_mod::*;
use vstd::prelude::*;

verus! {

/// Each luma byte becomes one sample, in order: every byte of `GREY`, every other byte of `YUYV`,
/// from black to white over the whole 16-bit range. Each pair of bytes of `Y16` is one sample,
/// low byte first.
pub proof fn samples_come_from_their_bytes(bytes: Seq<u8>, i: int)
    ensures
        samples_of(V4L2_PIX_FMT_GREY, bytes).len() == bytes.len(),
        bytes.len() <= 2 * samples_of(V4L2_PIX_FMT_YUYV, bytes).len() <= bytes.len() + 1,
        bytes.len() - 1 <= 2 * samples_of(V4L2_PIX_FMT_Y16, bytes).len() <= bytes.len(),
        0 <= i < bytes.len() ==> 255 * samples_of(V4L2_PIX_FMT_GREY, bytes)[i] == 65535 * bytes[i],
        0 <= 2 * i < bytes.len() ==> 255 * samples_of(V4L2_PIX_FMT_YUYV, bytes)[i] == 65535
            * bytes[2 * i],
        0 <= 2 * i < bytes.len() - 1 ==> {
            let sample = samples_of(V4L2_PIX_FMT_Y16, bytes)[i] as int;
            sample % 256 == bytes[2 * i] && sample / 256 == bytes[2 * i + 1]
        },
{
}

/// Frames can be converted in pieces of whole pixels: the samples of two pieces, one after the
/// other, are the samples of both.
pub proof fn pieces_convert_alike(pixelformat: u32, first: Seq<u8>, second: Seq<u8>)
    requires
        first.len() % 2 == 0,
    ensures
        samples_of(pixelformat, first + second) == samples_of(pixelformat, first) + samples_of(
            pixelformat,
            second,
        ),
{
    let bytes = first + second;
    let h = first.len() as int / 2;
    assert(bytes.len() == 2 * h + second.len());
    if pixelformat == V4L2_PIX_FMT_YUYV || pixelformat == V4L2_PIX_FMT_Y16 {
        assert forall|i: int| 0 <= i < samples_of(pixelformat, bytes).len() implies samples_of(
            pixelformat,
            bytes,
        )[i] == (samples_of(pixelformat, first) + samples_of(pixelformat, second))[i] by {
            if i < h {
                assert(bytes[2 * i] == first[2 * i] && bytes[2 * i + 1] == first[2 * i + 1]);
            } else {
                assert(bytes[2 * i] == second[2 * (i - h)]);
                if 2 * i + 1 < bytes.len() {
                    assert(bytes[2 * i + 1] == second[2 * (i - h) + 1]);
                }
            }
        }
    }
    assert(samples_of(pixelformat, bytes) =~= samples_of(pixelformat, first) + samples_of(
        pixelformat,
        second,
    ));
}

/// A format block has 208 bytes. The type stands at its start, width, height and pixel format
/// from byte 8 on, each with the lowest byte first, and all other bytes are zero.
pub proof fn format_blocks_are_laid_out(type_: u32, width: u32, height: u32, pixelformat: u32)
    ensures
        ({
            let b = format_bytes(type_, width, height, pixelformat);
            &&& b.len() == 208
            &&& b[0] + 0x100 * b[1] + 0x1_0000 * b[2] + 0x100_0000 * b[3] == type_
            &&& b[8] + 0x100 * b[9] + 0x1_0000 * b[10] + 0x100_0000 * b[11] == width
            &&& b[12] + 0x100 * b[13] + 0x1_0000 * b[14] + 0x100_0000 * b[15] == height
            &&& b[16] + 0x100 * b[17] + 0x1_0000 * b[18] + 0x100_0000 * b[19] == pixelformat
            &&& forall|i: int| 4 <= i < 8 || 20 <= i < 208 ==> #[trigger] b[i] == 0
        }),
{
    let b = format_bytes(type_, width, height, pixelformat);
    assert(b.subrange(0, 4) =~= u32_bytes(type_));
    written_u32_reads_back(b, 0, type_);
    crate::capture::formats_read_back(type_, width, height, pixelformat);
    assert(format_fields(b) == (width, height, pixelformat));
    assert(b.subrange(4, 8) =~= u32_bytes(0));
    assert forall|i: int| 4 <= i < 8 || 20 <= i < 208 implies #[trigger] b[i] == 0 by {
        if i < 8 {
            assert(b[i] == b.subrange(4, 8)[i - 4]);
        }
    }
}

/// The fields of a format block are read from bytes 8 to 19, four bytes each.
pub proof fn format_fields_are_read_in_place(b: Seq<u8>)
    requires
        b.len() >= 20,
    ensures
        format_fields(b).0 == b[8] + 0x100 * b[9] + 0x1_0000 * b[10] + 0x100_0000 * b[11],
        format_fields(b).1 == b[12] + 0x100 * b[13] + 0x1_0000 * b[14] + 0x100_0000 * b[15],
        format_fields(b).2 == b[16] + 0x100 * b[17] + 0x1_0000 * b[18] + 0x100_0000 * b[19],
{
}

/// The frame interval is the whole part, in milliseconds, of a fraction of a second: numerator in
/// bytes 8 to 11 and denominator in bytes 12 to 15. There is none where the driver does not set
/// its bit in the second byte, or where the denominator is zero.
pub proof fn intervals_are_fractions_of_a_second(b: Seq<u8>)
    requires
        b.len() >= 16,
    ensures
        ({
            let numerator = b[8] + 0x100 * b[9] + 0x1_0000 * b[10] + 0x100_0000 * b[11];
            let denominator = b[12] + 0x100 * b[13] + 0x1_0000 * b[14] + 0x100_0000 * b[15];
            &&& interval_ms(b) is None <==> (b[1] as int / 16) % 2 == 0 || denominator == 0
            &&& interval_ms(b) matches Some(ms) ==> ms * denominator <= 1000 * numerator < (ms + 1)
                * denominator
        }),
{
    let capability = u32_at(b, 0) as int;
    let numerator = u32_at(b, 8) as int;
    let denominator = u32_at(b, 12) as int;
    assert(capability == b[0] + 0x100 * b[1] + 0x1_0000 * b[2] + 0x100_0000 * b[3]);
    assert((capability / 0x1000) % 2 == (b[1] as int / 16) % 2);
    if denominator > 0 {
        let x = numerator * 1000;
        lemma_fundamental_div_mod(x, denominator);
        lemma_mod_bound(x, denominator);
        let q = x / denominator;
        lemma_div_is_ordered_by_denominator(x, 1, denominator);
        lemma_div_pos_is_pos(x, denominator);
        assert(x / 1 == x);
        assert(q * denominator <= x < (q + 1) * denominator) by (nonlinear_arith)
            requires
                x == denominator * q + x % denominator,
                0 <= x % denominator < denominator,
        ;
    }
}

/// A text field ends at its first zero byte, or with its last byte where it has none.
pub proof fn fields_end_at_the_first_zero(bytes: Seq<u8>)
    ensures
        0 <= first_zero(bytes, 0) <= bytes.len(),
        forall|i: int| 0 <= i < first_zero(bytes, 0) ==> #[trigger] bytes[i] != 0,
        first_zero(bytes, 0) < bytes.len() ==> bytes[first_zero(bytes, 0)] == 0,
{
    lemma_first_zero(bytes, 0);
}

proof fn lemma_first_zero(bytes: Seq<u8>, from: int)
    requires
        0 <= from <= bytes.len(),
    ensures
        from <= first_zero(bytes, from) <= bytes.len(),
        forall|i: int| from <= i < first_zero(bytes, from) ==> #[trigger] bytes[i] != 0,
        first_zero(bytes, from) < bytes.len() ==> bytes[first_zero(bytes, from)] == 0,
    decreases bytes.len() - from,
{
    if from < bytes.len() && bytes[from] != 0 {
        lemma_first_zero(bytes, from + 1);
    }
}

/// A pixel format's code is shown byte by byte, lowest first: a letter, digit or sign as it is,
/// and anything else as a question mark.
pub proof fn codes_are_shown_byte_by_byte(fourcc: u32)
    ensures
        ({
            let code = fourcc_text(fourcc);
            let b = u32_bytes(fourcc);
            &&& code.len() == 4
            &&& b[0] + 0x100 * b[1] + 0x1_0000 * b[2] + 0x100_0000 * b[3] == fourcc
            &&& forall|i: int|
                0 <= i < 4 ==> if 0x20 <= b[i] <= 0x7e {
                    #[trigger] code[i] as int == b[i]
                } else {
                    code[i] == '?'
                }
        }),
{
    let b = u32_bytes(fourcc);
    assert(b.subrange(0, 4) =~= b);
    written_u32_reads_back(b, 0, fourcc);
}

} // verus!
