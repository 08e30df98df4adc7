//! What the camera list and the image files show.
use crate::devices::{
    device_number, first_infrared, infrared_device, lemma_place, place_for, says_infrared,
    sorted_devices, VideoEntry,
};
use crate::diag::{big_endian, row};
use crate::text::{contains, decimal, stands_at, without_prefixes};
use crate::text_laws::{decimals_read_back, other_texts_are_no_numbers, padding_keeps_the_text};
use vstd::prelude::*;

verus! {

/// The device with number `n` is sorted by that number, so that `video2` comes before `video10`.
pub proof fn devices_are_sorted_by_number(n: u32)
    ensures
        device_number("/dev/video"@ + decimal(n as nat)) == n,
{
    reveal_strlit("/dev/video");
    let prefix = "/dev/video"@;
    let digits = decimal(n as nat);
    let path = prefix + digits;
    decimals_read_back(n as nat);
    assert(path.subrange(0, prefix.len() as int) =~= prefix);
    assert(path.skip(prefix.len() as int) =~= digits);
    assert(!stands_at(digits, prefix, 0)) by {
        if stands_at(digits, prefix, 0) {
            assert(digits.subrange(0, prefix.len() as int)[0] == prefix[0]);
            assert(digits[0] == '/');
            other_texts_are_no_numbers(digits, 0);
        }
    }
    assert(stands_at(path, prefix, 0));
    assert(without_prefixes(digits, prefix) == digits);
    assert(without_prefixes(path, prefix) == digits);
}

/// The camera that is found is an infrared one, and no entry before it is; none is found only if
/// none is there.
pub proof fn the_first_infrared_camera_is_found(entries: Seq<VideoEntry>) -> (k: int)
    ensures
        0 <= k <= entries.len(),
        forall|i: int| 0 <= i < k ==> infrared_device(#[trigger] entries[i]) is None,
        k < entries.len() ==> infrared_device(entries[k]) is Some && first_infrared(entries, 0)
            == infrared_device(entries[k]),
        k == entries.len() ==> first_infrared(entries, 0) is None,
{
    lemma_first_infrared(entries, 0)
}

proof fn lemma_first_infrared(entries: Seq<VideoEntry>, from: int) -> (k: int)
    requires
        0 <= from <= entries.len(),
    ensures
        from <= k <= entries.len(),
        forall|i: int| from <= i < k ==> infrared_device(#[trigger] entries[i]) is None,
        k < entries.len() ==> infrared_device(entries[k]) is Some && first_infrared(entries, from)
            == infrared_device(entries[k]),
        k == entries.len() ==> first_infrared(entries, from) is None,
    decreases entries.len() - from,
{
    if from >= entries.len() {
        from
    } else if infrared_device(entries[from]) is Some {
        from
    } else {
        lemma_first_infrared(entries, from + 1)
    }
}

/// A name says infrared wherever in it the word or its abbreviation stands.
pub proof fn infrared_may_stand_anywhere(before: Seq<char>, after: Seq<char>)
    ensures
        says_infrared(before + "ir"@ + after),
        says_infrared(before + "infrared"@ + after),
{
    let at = before.len() as int;
    let short = before + "ir"@ + after;
    let long = before + "infrared"@ + after;
    assert(short.subrange(at, at + "ir"@.len()) =~= "ir"@);
    assert(long.subrange(at, at + "infrared"@.len()) =~= "infrared"@);
    assert(stands_at(short, "ir"@, at));
    assert(stands_at(long, "infrared"@, at));
}

/// A name that has no `i` before an `r` and no `i` before an `n` is not that of an infrared
/// camera.
pub proof fn other_names_are_not_infrared(name: Seq<char>)
    requires
        forall|i: int|
            0 <= i < name.len() - 1 ==> !(#[trigger] name[i] == 'i' && (name[i + 1] == 'r' || name[i
                + 1] == 'n')),
    ensures
        !says_infrared(name),
{
    reveal_strlit("ir");
    reveal_strlit("infrared");
    if contains(name, "ir"@) {
        let at = choose|at: int| stands_at(name, "ir"@, at);
        let s = name.subrange(at, at + "ir"@.len());
        assert(s[0] == name[at] && s[1] == name[at + 1]);
    }
    if contains(name, "infrared"@) {
        let at = choose|at: int| stands_at(name, "infrared"@, at);
        let s = name.subrange(at, at + "infrared"@.len());
        assert(s[0] == name[at] && s[1] == name[at + 1]);
    }
}

/// The columns of the camera list line up: as long as the texts fit, each column begins at the
/// same place in every line, with nothing but spaces between them.
pub proof fn columns_line_up(
    device: Seq<char>,
    driver: Seq<char>,
    card: Seq<char>,
    ids: Seq<char>,
    format: Seq<char>,
    guess: Seq<char>,
)
    requires
        device.len() <= 14,
        driver.len() <= 10,
        card.len() <= 24,
        ids.len() <= 10,
        format.len() <= 12,
    ensures
        ({
            let line = row(device, driver, card, ids, format, guess);
            &&& line.len() == 75 + guess.len()
            &&& line.subrange(0, device.len() as int) == device
            &&& line.subrange(15, 15 + driver.len() as int) == driver
            &&& line.subrange(26, 26 + card.len() as int) == card
            &&& line.subrange(51, 51 + ids.len() as int) == ids
            &&& line.subrange(62, 62 + format.len() as int) == format
            &&& line.skip(75) == guess
            &&& line[14] == ' ' && line[25] == ' ' && line[50] == ' ' && line[61] == ' '
                && line[74] == ' '
        }),
{
    reveal_strlit(" ");
    let line = row(device, driver, card, ids, format, guess);
    padding_keeps_the_text(device, 14);
    padding_keeps_the_text(driver, 10);
    padding_keeps_the_text(card, 24);
    padding_keeps_the_text(ids, 10);
    padding_keeps_the_text(format, 12);
    assert(line.subrange(0, device.len() as int) =~= device);
    assert(line.subrange(15, 15 + driver.len() as int) =~= driver);
    assert(line.subrange(26, 26 + card.len() as int) =~= card);
    assert(line.subrange(51, 51 + ids.len() as int) =~= ids);
    assert(line.subrange(62, 62 + format.len() as int) =~= format);
    assert(line.skip(75) =~= guess);
}

/// An image file holds two bytes for each sample, the high one first.
pub proof fn image_files_hold_every_sample(data: Seq<u16>, n: int, i: int)
    requires
        0 <= i < n <= data.len(),
    ensures
        big_endian(data, n).len() == 2 * n,
        0x100 * big_endian(data, n)[2 * i] + big_endian(data, n)[2 * i + 1] == data[i],
    decreases n,
{
    lemma_big_endian_len(data, n - 1);
    if i < n - 1 {
        image_files_hold_every_sample(data, n - 1, i);
    }
}

proof fn lemma_big_endian_len(data: Seq<u16>, n: int)
    requires
        0 <= n,
    ensures
        big_endian(data, n).len() == 2 * n,
    decreases n,
{
    if n > 0 {
        lemma_big_endian_len(data, n - 1);
    }
}

/// The devices of number `n` among some, in their order.
pub open spec fn numbered(paths: Seq<Seq<char>>, n: u32) -> Seq<Seq<char>>
    decreases paths.len(),
{
    if paths.len() == 0 {
        Seq::empty()
    } else {
        let before = numbered(paths.drop_last(), n);
        if device_number(paths.last()) == n {
            before.push(paths.last())
        } else {
            before
        }
    }
}

proof fn lemma_numbered_add(a: Seq<Seq<char>>, b: Seq<Seq<char>>, n: u32)
    ensures
        numbered(a + b, n) == numbered(a, n) + numbered(b, n),
    decreases b.len(),
{
    if b.len() == 0 {
        assert(a + b =~= a);
        assert(numbered(a, n) + numbered(b, n) =~= numbered(a, n));
    } else {
        lemma_numbered_add(a, b.drop_last(), n);
        assert((a + b).drop_last() =~= a + b.drop_last());
        assert((a + b).last() == b.last());
        assert(numbered(a + b, n) =~= numbered(a, n) + numbered(b, n));
    }
}

proof fn lemma_none_numbered(a: Seq<Seq<char>>, n: u32)
    requires
        forall|i: int| 0 <= i < a.len() ==> device_number(#[trigger] a[i]) != n,
    ensures
        numbered(a, n) == Seq::<Seq<char>>::empty(),
    decreases a.len(),
{
    if a.len() > 0 {
        lemma_none_numbered(a.drop_last(), n);
    }
}

/// Devices with the same number, such as all those without one, stay in the order in which they
/// were found.
pub proof fn equal_devices_keep_their_order(names: Seq<Seq<char>>, n: u32)
    ensures
        numbered(sorted_devices(names), n) == numbered(
            Seq::new(names.len(), |i: int| "/dev/"@ + names[i]),
            n,
        ),
    decreases names.len(),
{
    let paths = Seq::new(names.len(), |i: int| "/dev/"@ + names[i]);
    if names.len() > 0 {
        let fewer = names.drop_last();
        let shorter = Seq::new(fewer.len(), |i: int| "/dev/"@ + fewer[i]);
        equal_devices_keep_their_order(fewer, n);
        let before = sorted_devices(fewer);
        let path = "/dev/"@ + names.last();
        let k = place_for(before, before.len() as int, path);
        lemma_place(before, before.len() as int, path);
        let (low, high) = (before.take(k), before.skip(k));
        let one = seq![path];
        assert(before =~= low + high);
        assert(before.insert(k, path) =~= low + one + high);
        lemma_numbered_add(low, high, n);
        lemma_numbered_add(low + one, high, n);
        lemma_numbered_add(low, one, n);
        assert(paths =~= shorter + one);
        lemma_numbered_add(shorter, one, n);
        if device_number(path) == n {
            lemma_none_numbered(high, n);
        } else {
            assert(one[0] == path);
            lemma_none_numbered(one, n);
        }
        assert(numbered(low, n) + numbered(one, n) + numbered(high, n) =~= numbered(low, n)
            + numbered(high, n) + numbered(one, n));
    } else {
        assert(paths =~= sorted_devices(names));
    }
}

} // verus!
