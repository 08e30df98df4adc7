//! Finding cameras: what sysfs says of the video devices.
use crate::paths::{file_name, join_path, joined, name_of, parent, parent_of, resolved};
use crate::text::{
    contains, contains_text, lowercase, number_in, parse_u32, strip_prefixes, to_lowercase, trim,
    trimmed, without_prefixes,
};
use vstd::prelude::*;

verus! {

/// The text of several parts.
fn concat3(a: &str, b: &str, c: &str) -> (r: String)
    ensures
        r@ == a@ + b@ + c@,
{
    let mut s = a.to_owned();
    s.append(b);
    s.append(c);
    s
}

/// The kernel's name of a video device, such as `video2`: the last component of the resolved
/// path. None where there is no such component.
pub fn video_kernel_name(real_path: &str) -> (r: Option<String>)
    ensures
        match r {
            Some(name) => name_of(real_path@) == Some(name@),
            None => name_of(real_path@) is None,
        },
{
    file_name(real_path)
}

/// The link in sysfs that leads to the bus segment a device is attached to. None where the
/// resolved path of the device has no file name.
pub fn device_link_path(real_path: &str) -> (r: Option<String>)
    ensures
        match name_of(real_path@) {
            Some(name) => r matches Some(link) && link@ == "/sys/class/video4linux/"@ + name
                + "/device"@,
            None => r is None,
        },
{
    match video_kernel_name(real_path) {
        Some(name) => Some(concat3("/sys/class/video4linux/", name.as_str(), "/device")),
        None => None,
    }
}

/// What is known of where a device is attached.
pub enum BusSearch {
    /// The device's path, as configured.
    Device(String),
    /// What the device's path resolves to.
    Node(String),
    /// What the device's link in sysfs resolves to.
    Link(String),
}

/// What to do next to find out where a device is attached.
#[derive(Debug)]
pub enum BusStep {
    /// Resolve the device's path.
    ResolveDevice(String),
    /// Resolve the device's link in sysfs.
    ResolveLink(String),
    /// The bus segment that the device is attached to.
    Found(String),
    /// The resolved path has no file name.
    NoName(String),
}

/// Finds the bus segment that a device is attached to: the identity that a device cannot fake by
/// claiming another one's vendor and product. It is what the device's link in sysfs leads to.
/// Says what to do next, given what is known.
pub fn device_bus_path(search: BusSearch) -> (r: BusStep)
    ensures
        match search {
            BusSearch::Device(path) => r matches BusStep::ResolveDevice(p) && p@ == path@,
            BusSearch::Node(node) => match name_of(node@) {
                Some(name) => r matches BusStep::ResolveLink(link) && link@
                    == "/sys/class/video4linux/"@ + name + "/device"@,
                None => r matches BusStep::NoName(p) && p@ == node@,
            },
            BusSearch::Link(bus) => r matches BusStep::Found(p) && p@ == bus@,
        },
{
    match search {
        BusSearch::Device(path) => BusStep::ResolveDevice(path),
        BusSearch::Node(node) => match device_link_path(node.as_str()) {
            Some(link) => BusStep::ResolveLink(link),
            None => BusStep::NoName(node),
        },
        BusSearch::Link(bus) => BusStep::Found(bus),
    }
}

/// The file in sysfs that holds a device's function index.
pub fn device_index_path(real_path: &str) -> (r: Option<String>)
    ensures
        match name_of(real_path@) {
            Some(name) => r matches Some(file) && file@ == "/sys/class/video4linux/"@ + name
                + "/index"@,
            None => r is None,
        },
{
    match video_kernel_name(real_path) {
        Some(name) => Some(concat3("/sys/class/video4linux/", name.as_str(), "/index")),
        None => None,
    }
}

/// The function index in the file that `device_index_path` names. It tells apart the nodes that
/// share one physical interface. None where the file does not hold a number.
pub fn device_capture_index(raw: &str) -> (r: Option<u32>)
    ensures
        r == number_in(trimmed(raw@)),
{
    parse_u32(trim(raw).as_str())
}

/// What to do next to find a device's USB ids.
#[derive(Debug)]
pub enum UsbStep {
    /// Read the two files.
    Read { vendor: String, product: String },
    /// Look in the directory above.
    LookIn(String),
    /// There is no directory above: the device is not on USB.
    NotFound,
}

/// The files that hold the vendor and the product of a USB device.
pub fn usb_id_files(dir: &str) -> (r: (String, String))
    ensures
        r.0@ == joined(dir@, "idVendor"@),
        r.1@ == joined(dir@, "idProduct"@),
{
    (join_path(dir, "idVendor"), join_path(dir, "idProduct"))
}

/// Walks up from a device's bus path to the first directory that has both id files. `present`
/// says whether `dir` has them.
pub fn usb_ids(dir: &str, present: bool) -> (r: UsbStep)
    requires
        resolved(dir@),
    ensures
        match r {
            UsbStep::Read { vendor, product } => present && vendor@ == joined(dir@, "idVendor"@)
                && product@ == joined(dir@, "idProduct"@),
            UsbStep::LookIn(up) => !present && parent_of(dir@) == Some(up@) && resolved(up@)
                && up@.len() < dir@.len(),
            UsbStep::NotFound => !present && parent_of(dir@) is None,
        },
{
    if present {
        let (vendor, product) = usb_id_files(dir);
        return UsbStep::Read { vendor, product };
    }
    match parent(dir) {
        Some(up) => UsbStep::LookIn(up),
        None => UsbStep::NotFound,
    }
}

/// The texts of a list.
pub open spec fn texts(v: Seq<String>) -> Seq<Seq<char>> {
    Seq::new(v.len(), |i: int| v[i]@)
}

/// By which number a device is sorted: what follows `/dev/video`, or the highest number where
/// that is none.
pub open spec fn device_number(path: Seq<char>) -> u32 {
    match number_in(without_prefixes(path, "/dev/video"@)) {
        Some(n) => n,
        None => u32::MAX,
    }
}

fn number_of(path: &str) -> (r: u32)
    ensures
        r == device_number(path@),
{
    proof {
        reveal_strlit("/dev/video");
    }
    match parse_u32(strip_prefixes(path, "/dev/video").as_str()) {
        Some(n) => n,
        None => u32::MAX,
    }
}

/// Where a device belongs among the first `n` of a sorted list: after all whose number is not
/// higher.
pub open spec fn place_for(sorted: Seq<Seq<char>>, n: int, path: Seq<char>) -> int
    decreases n,
{
    if n <= 0 {
        0
    } else if device_number(sorted[n - 1]) <= device_number(path) {
        n
    } else {
        place_for(sorted, n - 1, path)
    }
}

/// The devices with the given names, each put in its place in turn, so that equal numbers keep
/// their order.
pub open spec fn sorted_devices(names: Seq<Seq<char>>) -> Seq<Seq<char>>
    decreases names.len(),
{
    if names.len() == 0 {
        Seq::empty()
    } else {
        let before = sorted_devices(names.drop_last());
        let path = "/dev/"@ + names.last();
        before.insert(place_for(before, before.len() as int, path), path)
    }
}

pub proof fn lemma_place(sorted: Seq<Seq<char>>, n: int, path: Seq<char>)
    requires
        0 <= n <= sorted.len(),
    ensures
        0 <= place_for(sorted, n, path) <= n,
        forall|i: int|
            place_for(sorted, n, path) <= i < n ==> device_number(path) < device_number(
                #[trigger] sorted[i],
            ),
        place_for(sorted, n, path) > 0 ==> device_number(
            sorted[place_for(sorted, n, path) - 1],
        ) <= device_number(path),
    decreases n,
{
    if n > 0 {
        lemma_place(sorted, n - 1, path);
    }
}

/// The device paths for the names under sysfs's video class, in ascending order of their
/// number.
pub fn list_video_devices(names: &Vec<String>) -> (r: Vec<String>)
    ensures
        texts(r@) == sorted_devices(texts(names@)),
{
    let mut devices: Vec<String> = Vec::new();
    let mut i: usize = 0;
    assert(texts(names@).take(0) =~= Seq::<Seq<char>>::empty());
    assert(texts(devices@) =~= Seq::<Seq<char>>::empty());
    while i < names.len()
        invariant
            i <= names@.len(),
            texts(devices@) == sorted_devices(texts(names@).take(i as int)),
        decreases names@.len() - i,
    {
        let path = dev_path(names[i].as_str());
        let number: u32 = number_of(path.as_str());
        let mut k: usize = devices.len();
        while k > 0 && number < number_of(devices[k - 1].as_str())
            invariant
                k <= devices@.len(),
                number == device_number(path@),
                place_for(texts(devices@), devices@.len() as int, path@) == place_for(
                    texts(devices@),
                    k as int,
                    path@,
                ),
            decreases k,
        {
            k = k - 1;
        }
        let ghost before = texts(devices@);
        devices.insert(k, path);
        i = i + 1;
        proof {
            assert(texts(names@).take(i as int).drop_last() =~= texts(names@).take(i - 1));
            assert(texts(devices@) =~= before.insert(k as int, path@));
        }
    }
    assert(texts(names@).take(i as int) =~= texts(names@));
    devices
}

/// The path of the device with a kernel name.
fn dev_path(name: &str) -> (r: String)
    ensures
        r@ == "/dev/"@ + name@,
{
    let mut path = "/dev/".to_owned();
    path.append(name);
    path
}

/// The list of devices ascends by number.
pub proof fn devices_ascend(names: Seq<Seq<char>>, i: int, j: int)
    requires
        0 <= i < j < names.len(),
    ensures
        sorted_devices(names).len() == names.len(),
        device_number(sorted_devices(names)[i]) <= device_number(sorted_devices(names)[j]),
{
    lemma_ascending(names);
}

proof fn lemma_ascending(names: Seq<Seq<char>>)
    ensures
        sorted_devices(names).len() == names.len(),
        forall|i: int, j: int|
            0 <= i < j < names.len() ==> device_number(#[trigger] sorted_devices(names)[i])
                <= device_number(#[trigger] sorted_devices(names)[j]),
    decreases names.len(),
{
    if names.len() > 0 {
        let before = sorted_devices(names.drop_last());
        let path = "/dev/"@ + names.last();
        lemma_ascending(names.drop_last());
        let k = place_for(before, before.len() as int, path);
        lemma_place(before, before.len() as int, path);
        let all = before.insert(k, path);
        assert forall|i: int, j: int| 0 <= i < j < names.len() implies device_number(
            #[trigger] all[i],
        ) <= device_number(#[trigger] all[j]) by {
            let a = if i < k {
                i
            } else {
                i - 1
            };
            let b = if j < k {
                j
            } else {
                j - 1
            };
            if i != k && j != k {
                assert(all[i] == before[a] && all[j] == before[b]);
                if a < b {
                    assert(device_number(before[a]) <= device_number(before[b]));
                }
            } else if j == k {
                assert(all[i] == before[i]);
                if i < k - 1 {
                    assert(device_number(before[i]) <= device_number(before[k - 1]));
                }
            } else {
                assert(all[j] == before[j - 1]);
            }
        }
    }
}

/// The list holds exactly one path for each name.
pub proof fn every_device_is_listed(names: Seq<Seq<char>>)
    ensures
        sorted_devices(names).to_multiset() == Seq::new(
            names.len(),
            |i: int| "/dev/"@ + names[i],
        ).to_multiset(),
    decreases names.len(),
{
    let paths = Seq::new(names.len(), |i: int| "/dev/"@ + names[i]);
    if names.len() > 0 {
        let shorter = Seq::new(
            names.drop_last().len(),
            |i: int| "/dev/"@ + names.drop_last()[i],
        );
        every_device_is_listed(names.drop_last());
        let before = sorted_devices(names.drop_last());
        let path = "/dev/"@ + names.last();
        lemma_place(before, before.len() as int, path);
        assert(paths =~= shorter.push(path));
        vstd::seq_lib::to_multiset_insert(
            before,
            place_for(before, before.len() as int, path),
            path,
        );
        shorter.to_multiset_ensures();
    } else {
        assert(paths =~= Seq::<Seq<char>>::empty());
    }
}

/// Whether a name in lower case is that of an infrared camera: it says so, or `ir`.
pub open spec fn says_infrared(lowered: Seq<char>) -> bool {
    contains(lowered, "ir"@) || contains(lowered, "infrared"@)
}

/// Whether a name in lower case is that of an infrared camera.
pub fn is_infrared(lowered: &str) -> (r: bool)
    ensures
        r == says_infrared(lowered@),
{
    contains_text(lowered, "ir") || contains_text(lowered, "infrared")
}

/// Whether a camera's name is that of an infrared camera, in whatever case.
pub fn looks_infrared(name: &str) -> (r: bool)
    ensures
        r == says_infrared(lowercase(name@)),
{
    is_infrared(to_lowercase(name).as_str())
}

/// A video device in sysfs.
pub struct VideoEntry {
    /// The kernel's name, where it is text.
    pub device: Option<String>,
    /// The camera's name, where it can be read.
    pub name: Option<String>,
}

/// The device of an entry that is an infrared camera.
pub open spec fn infrared_device(entry: VideoEntry) -> Option<Seq<char>> {
    match (entry.device, entry.name) {
        (Some(device), Some(name)) if says_infrared(lowercase(name@)) => Some(
            "/dev/"@ + device@,
        ),
        _ => None,
    }
}

/// The first infrared camera from entry `i` on.
pub open spec fn first_infrared(entries: Seq<VideoEntry>, i: int) -> Option<Seq<char>>
    decreases entries.len() - i,
{
    if i >= entries.len() {
        None
    } else if infrared_device(entries[i]) is Some {
        infrared_device(entries[i])
    } else {
        first_infrared(entries, i + 1)
    }
}

/// The first device whose camera says that it is an infrared one.
pub fn detect_ir_camera(entries: &Vec<VideoEntry>) -> (r: Option<String>)
    ensures
        match r {
            Some(path) => first_infrared(entries@, 0) == Some(path@),
            None => first_infrared(entries@, 0) is None,
        },
{
    let mut i: usize = 0;
    while i < entries.len()
        invariant
            i <= entries@.len(),
            first_infrared(entries@, 0) == first_infrared(entries@, i as int),
        decreases entries@.len() - i,
    {
        let entry = &entries[i];
        match &entry.name {
            Some(name) => {
                if looks_infrared(name.as_str()) {
                    match &entry.device {
                        Some(device) => {
                            return Some(dev_path(device.as_str()));
                        },
                        None => {},
                    }
                }
            },
            None => {},
        }
        i = i + 1;
    }
    None
}

} // verus!
