//! Reports for people: a line per camera, a frame as an image file, a similarity verdict.
use crate::capture::{fourcc_to_string, shown, CameraCaps, IrFrame};
use crate::codec::u32_bytes;
use crate::devices::{looks_infrared, says_infrared};
use crate::float32::Float32;
use crate::text::{append_padded, decimal, decimal_text, lowercase, padded};
use crate::verify::passes;
use vstd::prelude::*;
use vstd::utf8::encode_utf8;

verus! {

/// A line of the camera list: five columns of fixed width and a last one.
pub open spec fn row(
    device: Seq<char>,
    driver: Seq<char>,
    card: Seq<char>,
    ids: Seq<char>,
    format: Seq<char>,
    guess: Seq<char>,
) -> Seq<char> {
    padded(device, 14) + " "@ + padded(driver, 10) + " "@ + padded(card, 24) + " "@ + padded(
        ids,
        10,
    ) + " "@ + padded(format, 12) + " "@ + guess
}

/// A line of the camera list.
pub fn device_row(
    device: &str,
    driver: &str,
    card: &str,
    ids: &str,
    format: &str,
    guess: &str,
) -> (r: String)
    ensures
        r@ == row(device@, driver@, card@, ids@, format@, guess@),
{
    let mut line = String::new();
    append_padded(&mut line, device, 14);
    line.append(" ");
    append_padded(&mut line, driver, 10);
    line.append(" ");
    append_padded(&mut line, card, 24);
    line.append(" ");
    append_padded(&mut line, ids, 10);
    line.append(" ");
    append_padded(&mut line, format, 12);
    line.append(" ");
    line.append(guess);
    assert(line@ =~= row(device@, driver@, card@, ids@, format@, guess@));
    line
}

/// The head of the camera list.
pub fn header_row() -> (r: String)
    ensures
        r@ == row("DEVICE"@, "DRIVER"@, "CARD"@, "VID:PID"@, "FORMAT"@, "IR GUESS"@),
{
    device_row("DEVICE", "DRIVER", "CARD", "VID:PID", "FORMAT", "IR GUESS")
}

/// A pixel format's code as four characters.
pub open spec fn fourcc_text(fourcc: u32) -> Seq<char> {
    Seq::new(4, |i: int| shown(u32_bytes(fourcc)[i]))
}

/// The format column: size and pixel format, or a dash.
pub open spec fn format_text(format: Option<(u32, u32, u32)>) -> Seq<char> {
    match format {
        Some((w, h, fourcc)) => decimal(w as nat) + "x"@ + decimal(h as nat) + " "@ + fourcc_text(
            fourcc,
        ),
        None => "-"@,
    }
}

fn format_column(format: Option<(u32, u32, u32)>) -> (r: String)
    ensures
        r@ == format_text(format),
{
    match format {
        Some((w, h, fourcc)) => {
            let mut s = decimal_text(w as u64);
            s.append("x");
            s.append(decimal_text(h as u64).as_str());
            s.append(" ");
            s.append(fourcc_to_string(fourcc).as_str());
            s
        },
        None => "-".to_owned(),
    }
}

/// The driver and card columns: what the camera says of itself, or why it does not.
pub open spec fn name_columns(caps: Result<CameraCaps, String>) -> (Seq<char>, Seq<char>) {
    match caps {
        Ok(c) => (c.driver@, c.card@),
        Err(e) => ("?"@, "<unavailable: "@ + e@ + ">"@),
    }
}

/// The ids column: vendor and product, or a dash.
pub open spec fn ids_text(ids: Option<(String, String)>) -> Seq<char> {
    match ids {
        Some((vid, pid)) => vid@ + ":"@ + pid@,
        None => "-"@,
    }
}

/// The last column: a guess from the card's name.
pub open spec fn guess_text(card: Seq<char>) -> Seq<char> {
    if says_infrared(lowercase(card)) {
        "likely"@
    } else {
        ""@
    }
}

/// The line for a camera.
pub fn describe_device(
    device: &str,
    caps: &Result<CameraCaps, String>,
    ids: &Option<(String, String)>,
    format: Option<(u32, u32, u32)>,
) -> (r: String)
    ensures
        ({
            let (driver, card) = name_columns(*caps);
            r@ == row(
                device@,
                driver,
                card,
                ids_text(*ids),
                format_text(format),
                guess_text(card),
            )
        }),
{
    let (driver, card): (String, String) = match caps {
        Ok(c) => (c.driver.clone(), c.card.clone()),
        Err(e) => {
            let mut s = "<unavailable: ".to_owned();
            s.append(e.as_str());
            s.append(">");
            ("?".to_owned(), s)
        },
    };
    let ids_column: String = match ids {
        Some((vid, pid)) => {
            let mut s = vid.clone();
            s.append(":");
            s.append(pid.as_str());
            s
        },
        None => "-".to_owned(),
    };
    let guess = if looks_infrared(card.as_str()) {
        "likely"
    } else {
        ""
    };
    device_row(
        device,
        driver.as_str(),
        card.as_str(),
        ids_column.as_str(),
        format_column(format).as_str(),
        guess,
    )
}

/// The first `n` samples, high byte first.
pub open spec fn big_endian(data: Seq<u16>, n: int) -> Seq<u8>
    decreases n,
{
    if n <= 0 {
        Seq::empty()
    } else {
        big_endian(data, n - 1).push((data[n - 1] as int / 256) as u8).push(
            (data[n - 1] as int % 256) as u8,
        )
    }
}

/// The head of a gray image file.
pub open spec fn pgm_head(width: u32, height: u32) -> Seq<char> {
    "P5\n"@ + decimal(width as nat) + " "@ + decimal(height as nat) + "\n65535\n"@
}

/// A frame as a 16-bit PGM file.
pub fn dump_frame(frame: &IrFrame) -> (r: Vec<u8>)
    ensures
        r@ == encode_utf8(pgm_head(frame.width, frame.height)) + big_endian(
            frame.data@,
            frame.data@.len() as int,
        ),
{
    let mut head = "P5\n".to_owned();
    head.append(decimal_text(frame.width as u64).as_str());
    head.append(" ");
    head.append(decimal_text(frame.height as u64).as_str());
    head.append("\n65535\n");
    let text = head.as_str().as_bytes();
    let mut file: Vec<u8> = Vec::new();
    let mut i: usize = 0;
    while i < text.len()
        invariant
            i <= text@.len(),
            file@ == text@.take(i as int),
        decreases text@.len() - i,
    {
        file.push(text[i]);
        i = i + 1;
        assert(file@ =~= text@.take(i as int));
    }
    assert(text@.take(i as int) =~= text@);
    let ghost start = file@;
    let mut i: usize = 0;
    assert(file@ =~= start + big_endian(frame.data@, 0));
    while i < frame.data.len()
        invariant
            i <= frame.data@.len(),
            file@ == start + big_endian(frame.data@, i as int),
        decreases frame.data@.len() - i,
    {
        let sample: u16 = frame.data[i];
        file.push((sample / 256) as u8);
        file.push((sample % 256) as u8);
        i = i + 1;
        assert(file@ =~= start + big_endian(frame.data@, i as int));
    }
    file
}

/// A frame made of 8-bit gray pixels, spread over the 16-bit range the way a camera's bytes
/// are.
pub fn frame_from_luma(luma: &Vec<u8>, width: u32, height: u32) -> (r: IrFrame)
    ensures
        r.width == width,
        r.height == height,
        r.data@ == Seq::new(luma@.len(), |i: int| (luma@[i] * 257) as u16),
{
    let data = crate::capture::convert_frame_bytes(crate::capture::V4L2_PIX_FMT_GREY, luma);
    assert(data@ =~= Seq::new(luma@.len(), |i: int| (luma@[i] * 257) as u16));
    IrFrame { data, width, height }
}

/// Whether a photo with the given similarity would pass.
pub fn verdict(score: Float32, threshold: Float32) -> (r: String)
    ensures
        r@ == if threshold.spec_le(score) {
            "PASS (would match)"@
        } else {
            "fail (would not match)"@
        },
{
    if passes(score, threshold) {
        "PASS (would match)".to_owned()
    } else {
        "fail (would not match)".to_owned()
    }
}

} // verus!
