//! Frames and how they come out of a V4L2 camera.
//!
//! Requests and replies of the kernel are byte blocks with the layout that it has on x86_64,
//! lowest byte first.
pub use crate::camera::{capture_ir_frame, Camera};
pub use crate::devices::{
    detect_ir_camera, device_bus_path, device_capture_index, list_video_devices, usb_ids,
};
use crate::codec::{u32_at, u32_bytes, written_u32_reads_back};
use crate::text::{from_utf8_lossy, lossy_text};
use vstd::prelude::*;

verus! {

/// One infrared frame: `width * height` samples, row by row, each over the full 16-bit range.
pub struct IrFrame {
    pub data: Vec<u16>,
    pub width: u32,
    pub height: u32,
}

impl IrFrame {
    /// Every pixel has a sample, and pixel positions fit in 32 bits.
    pub open spec fn complete(&self) -> bool {
        &&& self.width * self.height <= self.data@.len()
        &&& self.width * self.height <= u32::MAX
    }

    /// Same dimensions and same samples.
    pub open spec fn same(&self, other: &IrFrame) -> bool {
        &&& self.width == other.width
        &&& self.height == other.height
        &&& self.data@ == other.data@
    }
}

impl Clone for IrFrame {
    fn clone(&self) -> (r: IrFrame)
        ensures
            r.same(self),
    {
        let data = self.data.clone();
        assert(data@ =~= self.data@);
        IrFrame { data, width: self.width, height: self.height }
    }
}

/// `V4L2_CAP_TIMEPERFRAME`
pub const V4L2_CAP_TIMEPERFRAME: u32 = 0x1000;

/// `V4L2_BUF_TYPE_VIDEO_CAPTURE`
pub const V4L2_BUF_TYPE_VIDEO_CAPTURE: u32 = 1;

/// `V4L2_MEMORY_MMAP`
pub const V4L2_MEMORY_MMAP: u32 = 1;

/// 8-bit gray.
pub const V4L2_PIX_FMT_GREY: u32 = 0x5945_5247;

/// Luma at even offsets, color at odd ones.
pub const V4L2_PIX_FMT_YUYV: u32 = 0x5659_5559;

/// 16-bit gray.
pub const V4L2_PIX_FMT_Y16: u32 = 0x2036_3159;

/// How many buffers are requested. A running stream needs spare ones to fill while others are
/// being read.
pub const BUFFER_COUNT: u32 = 4;

/// What a camera says of itself.
pub struct CameraCaps {
    pub driver: String,
    pub card: String,
}

/// Where the first zero byte stands, or the end.
pub open spec fn first_zero(bytes: Seq<u8>, from: int) -> int
    decreases bytes.len() - from,
{
    if from >= bytes.len() {
        bytes.len() as int
    } else if bytes[from] == 0 {
        from
    } else {
        first_zero(bytes, from + 1)
    }
}

/// The text in a field that a zero byte may end.
pub open spec fn field_text(bytes: Seq<u8>) -> Seq<char> {
    lossy_text(bytes.take(first_zero(bytes, 0)))
}

/// The bytes up to the first zero byte.
pub fn until_zero(bytes: &Vec<u8>) -> (r: Vec<u8>)
    ensures
        r@ == bytes@.take(first_zero(bytes@, 0)),
{
    let mut head: Vec<u8> = Vec::new();
    let mut i: usize = 0;
    while i < bytes.len() && bytes[i] != 0
        invariant
            i <= bytes@.len(),
            head@ == bytes@.take(i as int),
            first_zero(bytes@, 0) == first_zero(bytes@, i as int),
        decreases bytes@.len() - i,
    {
        head.push(bytes[i]);
        i = i + 1;
        assert(head@ =~= bytes@.take(i as int));
    }
    head
}

/// The text in a field that a zero byte may end.
pub fn cstr_to_string(bytes: &Vec<u8>) -> (r: String)
    ensures
        r@ == field_text(bytes@),
{
    from_utf8_lossy(&until_zero(bytes))
}

/// A part of a byte block.
fn slice(bytes: &Vec<u8>, from: usize, to: usize) -> (r: Vec<u8>)
    requires
        from <= to <= bytes@.len(),
    ensures
        r@ == bytes@.subrange(from as int, to as int),
{
    let mut part: Vec<u8> = Vec::new();
    let mut i: usize = from;
    while i < to
        invariant
            from <= i <= to <= bytes@.len(),
            part@ == bytes@.subrange(from as int, i as int),
        decreases to - i,
    {
        part.push(bytes[i]);
        i = i + 1;
        assert(part@ =~= bytes@.subrange(from as int, i as int));
    }
    part
}

/// Driver and card name in the kernel's `v4l2_capability`: 16 bytes, then 32.
pub fn query_caps(capability: &Vec<u8>) -> (r: CameraCaps)
    requires
        capability@.len() >= 48,
    ensures
        r.driver@ == field_text(capability@.subrange(0, 16)),
        r.card@ == field_text(capability@.subrange(16, 48)),
{
    let driver = slice(capability, 0, 16);
    let card = slice(capability, 16, 48);
    CameraCaps { driver: cstr_to_string(&driver), card: cstr_to_string(&card) }
}

/// The number at `at`, lowest byte first.
fn word_at(bytes: &Vec<u8>, at: usize) -> (r: u32)
    requires
        at + 4 <= bytes@.len(),
    ensures
        r == u32_at(bytes@, at as int),
{
    proof {
        assert(bytes.len() <= usize::MAX);
    }
    bytes[at] as u32 + 0x100 * bytes[at + 1] as u32 + 0x1_0000 * bytes[at + 2] as u32
        + 0x100_0000 * bytes[at + 3] as u32
}

/// Appends a number, lowest byte first.
fn push_word(out: &mut Vec<u8>, x: u32)
    ensures
        final(out)@ == old(out)@ + u32_bytes(x),
{
    let ghost before = out@;
    out.push((x % 0x100) as u8);
    out.push((x / 0x100 % 0x100) as u8);
    out.push((x / 0x1_0000 % 0x100) as u8);
    out.push((x / 0x100_0000) as u8);
    assert(out@ =~= before + u32_bytes(x));
}

/// The kernel's `v4l2_format`: the type, four bytes of padding, and 200 bytes that begin with
/// width, height and pixel format.
pub open spec fn format_bytes(type_: u32, width: u32, height: u32, pixelformat: u32) -> Seq<u8> {
    u32_bytes(type_) + u32_bytes(0) + u32_bytes(width) + u32_bytes(height) + u32_bytes(
        pixelformat,
    ) + Seq::new(188, |i: int| 0u8)
}

/// A `v4l2_format` with the given fields and zero elsewhere.
pub fn make_v4l2_format(type_: u32, width: u32, height: u32, pixelformat: u32) -> (r: Vec<u8>)
    ensures
        r@ == format_bytes(type_, width, height, pixelformat),
        r@.len() == 208,
{
    let mut fmt: Vec<u8> = Vec::new();
    push_word(&mut fmt, type_);
    push_word(&mut fmt, 0);
    push_word(&mut fmt, width);
    push_word(&mut fmt, height);
    push_word(&mut fmt, pixelformat);
    let ghost head = fmt@;
    let mut i: usize = 0;
    while i < 188
        invariant
            i <= 188,
            head.len() == 20,
            fmt@ == head + Seq::new(i as nat, |i: int| 0u8),
        decreases 188 - i,
    {
        fmt.push(0);
        i = i + 1;
        assert(fmt@ =~= head + Seq::new(i as nat, |i: int| 0u8));
    }
    fmt
}

/// Width, height and pixel format in a `v4l2_format`.
pub open spec fn format_fields(fmt: Seq<u8>) -> (u32, u32, u32) {
    (u32_at(fmt, 8), u32_at(fmt, 12), u32_at(fmt, 16))
}

/// Width, height and pixel format in the kernel's `v4l2_format`.
pub fn query_format(fmt: &Vec<u8>) -> (r: (u32, u32, u32))
    requires
        fmt@.len() >= 20,
    ensures
        r == format_fields(fmt@),
{
    (word_at(fmt, 8), word_at(fmt, 12), word_at(fmt, 16))
}

/// The fields that a `v4l2_format` was made with are read from it.
pub proof fn formats_read_back(type_: u32, width: u32, height: u32, pixelformat: u32)
    ensures
        format_fields(format_bytes(type_, width, height, pixelformat)) == (
            width,
            height,
            pixelformat,
        ),
{
    let fmt = format_bytes(type_, width, height, pixelformat);
    assert(fmt.subrange(8, 12) =~= u32_bytes(width));
    assert(fmt.subrange(12, 16) =~= u32_bytes(height));
    assert(fmt.subrange(16, 20) =~= u32_bytes(pixelformat));
    written_u32_reads_back(fmt, 8, width);
    written_u32_reads_back(fmt, 12, height);
    written_u32_reads_back(fmt, 16, pixelformat);
}

/// A byte of a pixel format's code as a character: what cannot be shown is a question mark.
pub open spec fn shown(b: u8) -> char {
    if 0x20 <= b <= 0x7e {
        b as char
    } else {
        '?'
    }
}

fn show(b: u8) -> (r: char)
    ensures
        r == shown(b),
{
    if 0x20 <= b && b <= 0x7e {
        b as char
    } else {
        '?'
    }
}

/// A pixel format's code as four characters, such as `GREY` or `YUYV`.
pub fn fourcc_to_string(fourcc: u32) -> (r: String)
    ensures
        r@ == Seq::new(4, |i: int| shown(u32_bytes(fourcc)[i])),
{
    let mut s = String::new();
    s.push(show((fourcc % 0x100) as u8));
    s.push(show((fourcc / 0x100 % 0x100) as u8));
    s.push(show((fourcc / 0x1_0000 % 0x100) as u8));
    s.push(show((fourcc / 0x100_0000) as u8));
    assert(s@ =~= Seq::new(4, |i: int| shown(u32_bytes(fourcc)[i])));
    s
}

/// Whether frames of a pixel format can be converted.
pub open spec fn convertible(pixelformat: u32) -> bool {
    pixelformat == V4L2_PIX_FMT_GREY || pixelformat == V4L2_PIX_FMT_YUYV || pixelformat
        == V4L2_PIX_FMT_Y16
}

/// The samples in the bytes of a frame. 8-bit luma is spread over the 16-bit range by 257; in
/// YUYV it stands at even offsets; 16-bit gray has its low byte first, and a last odd byte
/// does not count.
pub open spec fn samples_of(pixelformat: u32, bytes: Seq<u8>) -> Seq<u16> {
    if pixelformat == V4L2_PIX_FMT_YUYV {
        Seq::new(((bytes.len() + 1) / 2) as nat, |i: int| (bytes[2 * i] * 257) as u16)
    } else if pixelformat == V4L2_PIX_FMT_Y16 {
        Seq::new(
            (bytes.len() / 2) as nat,
            |i: int| (bytes[2 * i] + 256 * bytes[2 * i + 1]) as u16,
        )
    } else {
        Seq::new(bytes.len(), |i: int| (bytes[i] * 257) as u16)
    }
}

/// Converts the bytes of a frame to samples over the 16-bit range.
pub fn convert_frame_bytes(pixelformat: u32, bytes: &Vec<u8>) -> (r: Vec<u16>)
    ensures
        r@ == samples_of(pixelformat, bytes@),
{
    let mut samples: Vec<u16> = Vec::new();
    let mut i: usize = 0;
    let n = bytes.len();
    if pixelformat == V4L2_PIX_FMT_YUYV {
        while i < n / 2 + n % 2
            invariant
                i <= n / 2 + n % 2,
                n == bytes@.len(),
                pixelformat == V4L2_PIX_FMT_YUYV,
                samples@ == samples_of(pixelformat, bytes@).take(i as int),
            decreases n - i,
        {
            samples.push(bytes[2 * i] as u16 * 257);
            i = i + 1;
            assert(samples@ =~= samples_of(pixelformat, bytes@).take(i as int));
        }
    } else if pixelformat == V4L2_PIX_FMT_Y16 {
        while i < n / 2
            invariant
                i <= n / 2,
                n == bytes@.len(),
                pixelformat == V4L2_PIX_FMT_Y16,
                samples@ == samples_of(pixelformat, bytes@).take(i as int),
            decreases n - i,
        {
            samples.push(bytes[2 * i] as u16 + 256 * bytes[2 * i + 1] as u16);
            i = i + 1;
            assert(samples@ =~= samples_of(pixelformat, bytes@).take(i as int));
        }
    } else {
        while i < n
            invariant
                i <= n,
                n == bytes@.len(),
                pixelformat != V4L2_PIX_FMT_YUYV,
                pixelformat != V4L2_PIX_FMT_Y16,
                samples@ == samples_of(pixelformat, bytes@).take(i as int),
            decreases n - i,
        {
            samples.push(bytes[i] as u16 * 257);
            i = i + 1;
            assert(samples@ =~= samples_of(pixelformat, bytes@).take(i as int));
        }
    }
    assert(samples@ =~= samples_of(pixelformat, bytes@));
    samples
}

/// The frame interval in the 200 bytes of the kernel's `v4l2_streamparm`: nothing where the
/// driver does not report one.
pub open spec fn interval_ms(parm: Seq<u8>) -> Option<u64> {
    let numerator = u32_at(parm, 8);
    let denominator = u32_at(parm, 12);
    if (u32_at(parm, 0) as int / 0x1000) % 2 == 0 || denominator == 0 {
        None
    } else {
        Some((numerator * 1000 / denominator as int) as u64)
    }
}

/// The camera's native frame interval in milliseconds, from the 200 bytes of the kernel's
/// `v4l2_streamparm`. Nothing where the driver does not report one.
pub fn query_frame_interval_ms(parm: &Vec<u8>) -> (r: Option<u64>)
    requires
        parm@.len() >= 16,
    ensures
        r == interval_ms(parm@),
{
    let capability: u32 = word_at(parm, 0);
    assert(capability & 0x1000 == 0 <==> (capability / 0x1000) % 2 == 0) by (bit_vector);
    if capability & V4L2_CAP_TIMEPERFRAME == 0 {
        return None;
    }
    let numerator: u32 = word_at(parm, 8);
    let denominator: u32 = word_at(parm, 12);
    if denominator == 0 {
        return None;
    }
    Some((numerator as u64 * 1000) / denominator as u64)
}

} // verus!
