use face_auth_core::devices::{
    detect_ir_camera, device_bus_path, device_capture_index, device_index_path, device_link_path,
    is_infrared, list_video_devices, looks_infrared, usb_ids, video_kernel_name, BusSearch,
    BusStep, UsbStep, VideoEntry,
};
use face_auth_core::paths::{file_name, join_path, parent};
use face_auth_core::text::{
    contains_text, decimal_text, parse_u32, same_text, strip_prefixes, trim,
};

#[test]
fn joining_agrees_with_std() {
    for base in ["", "/", "/a", "/a/", "a/b", "."] {
        for part in ["", "x", "/x", "x/y", "..", "./x"] {
            let expected = std::path::Path::new(base).join(part);
            assert_eq!(join_path(base, part), expected.to_str().unwrap());
        }
    }
}

#[test]
fn parents_of_resolved_paths_agree_with_std() {
    for path in ["/", "/a", "/a/b", "/sys/devices/pci0000:00/usb3/3-7/3-7:1.2", "/.x/y"] {
        let expected = std::path::Path::new(path).parent().map(|p| p.to_str().unwrap().to_string());
        assert_eq!(parent(path), expected);
    }
}

#[test]
fn file_names_agree_with_std() {
    for path in ["", "/", "a", "a/", "a/.", "a/..", "../a", "/dev/video2", "//x//", ".", "..", "a/b/.."] {
        let expected =
            std::path::Path::new(path).file_name().map(|n| n.to_str().unwrap().to_string());
        assert_eq!(file_name(path), expected, "{}", path);
    }
}

#[test]
fn sysfs_paths_follow_the_kernel_name() {
    assert_eq!(video_kernel_name("/dev/video2").as_deref(), Some("video2"));
    assert_eq!(
        device_link_path("/dev/video2").as_deref(),
        Some("/sys/class/video4linux/video2/device")
    );
    assert_eq!(
        device_index_path("/dev/video2").as_deref(),
        Some("/sys/class/video4linux/video2/index")
    );
    assert_eq!(device_link_path("/"), None);
    assert_eq!(device_index_path("/.."), None);
}

#[test]
fn the_bus_path_is_where_the_link_leads() {
    let bus = "/sys/devices/pci0000:00/0000:00:14.0/usb3/3-7/3-7:1.2";
    let mut search = BusSearch::Device("/dev/face-auth-ir".to_string());
    let found = loop {
        search = match device_bus_path(search) {
            BusStep::ResolveDevice(path) => {
                assert_eq!(path, "/dev/face-auth-ir");
                BusSearch::Node("/dev/video2".to_string())
            }
            BusStep::ResolveLink(link) => {
                assert_eq!(link, "/sys/class/video4linux/video2/device");
                BusSearch::Link(bus.to_string())
            }
            BusStep::Found(path) => break path,
            BusStep::NoName(_) => panic!("no name"),
        };
    };
    assert_eq!(found, bus);
    assert!(matches!(
        device_bus_path(BusSearch::Node("/".to_string())),
        BusStep::NoName(path) if path == "/"
    ));
}

#[test]
fn capture_indexes_are_trimmed_numbers() {
    assert_eq!(device_capture_index("0\n"), Some(0));
    assert_eq!(device_capture_index(" \t12\r\n"), Some(12));
    assert_eq!(device_capture_index("\u{2003}+7\u{a0}"), Some(7));
    assert_eq!(device_capture_index("4294967295"), Some(u32::MAX));
    assert_eq!(device_capture_index("4294967296"), None);
    assert_eq!(device_capture_index("-1"), None);
    assert_eq!(device_capture_index("1 2"), None);
    assert_eq!(device_capture_index(""), None);
}

#[test]
fn parsing_agrees_with_std() {
    for s in ["", "+", "-", "0", "+0", "-0", "007", "4294967295", "4294967296", "99999999999999999999",
        "1a", "a1", " 1", "++1", "+12", "\u{661}"] {
        assert_eq!(parse_u32(s), s.parse::<u32>().ok(), "{}", s);
    }
}

#[test]
fn trimming_agrees_with_std() {
    for s in ["", " ", "a", " a ", "\t\u{b}\u{c}a b\r\n", "\u{85}x\u{1680}", "\u{200b}x\u{200b}",
        "\u{3000}\u{2028}y\u{2029}\u{205f}\u{202f}", "\u{feff}z", "\u{1c}q\u{1f}", "\u{180e}w"] {
        assert_eq!(trim(s), s.trim(), "{:?}", s);
    }
}

#[test]
fn text_helpers_agree_with_std() {
    for s in ["", "ir", "mirror", "infrare", "infrared", "xinfraredx", "rired", "aab", "aaab"] {
        for n in ["", "ir", "infrared", "aab", "b"] {
            assert_eq!(contains_text(s, n), s.contains(n), "{} {}", s, n);
            assert_eq!(same_text(s, n), s == n);
        }
    }
    for s in ["/dev/video3", "/dev/video/dev/video4", "video5", "/dev/vide", ""] {
        assert_eq!(strip_prefixes(s, "/dev/video"), s.trim_start_matches("/dev/video"));
    }
    for n in [0u64, 9, 10, 65535, 4294967295, u64::MAX] {
        assert_eq!(decimal_text(n), n.to_string());
    }
}

#[test]
fn usb_ids_are_looked_up_in_the_directories_above() {
    let mut dir = "/sys/devices/usb3/3-7/3-7:1.2".to_string();
    let mut seen = Vec::new();
    loop {
        seen.push(dir.clone());
        match usb_ids(&dir, dir == "/sys/devices/usb3/3-7") {
            UsbStep::Read { vendor, product } => {
                assert_eq!(vendor, "/sys/devices/usb3/3-7/idVendor");
                assert_eq!(product, "/sys/devices/usb3/3-7/idProduct");
                break;
            }
            UsbStep::LookIn(up) => dir = up,
            UsbStep::NotFound => panic!(),
        }
    }
    assert_eq!(seen, vec!["/sys/devices/usb3/3-7/3-7:1.2", "/sys/devices/usb3/3-7"]);
    assert!(matches!(usb_ids("/", false), UsbStep::NotFound));
    assert!(matches!(usb_ids("/a", false), UsbStep::LookIn(up) if up == "/"));
}

#[test]
fn devices_are_listed_in_order() {
    let names: Vec<String> = ["video10", "video2", "foo", "video0", "bar", "video1"]
        .iter()
        .map(|s| s.to_string())
        .collect();
    let mut expected: Vec<String> = names.iter().map(|s| format!("/dev/{}", s)).collect();
    expected.sort_by_key(|path| {
        path.trim_start_matches("/dev/video").parse::<u32>().unwrap_or(u32::MAX)
    });
    let listed = list_video_devices(&names);
    assert_eq!(listed, expected);
    assert_eq!(
        listed,
        vec!["/dev/video0", "/dev/video1", "/dev/video2", "/dev/video10", "/dev/foo", "/dev/bar"]
    );
    assert!(list_video_devices(&vec![]).is_empty());
}

#[test]
fn infrared_names_are_recognized() {
    assert!(looks_infrared("Integrated_Webcam_FHD_IR"));
    assert!(looks_infrared("INFRARED sensor"));
    assert!(looks_infrared("Mirror"));
    assert!(!looks_infrared("Integrated_Webcam_FHD"));
    assert!(!looks_infrared(""));
    assert!(!is_infrared("IR"));
    assert!(is_infrared("ir"));
    assert!(looks_infrared("Caméra IR"));
}

fn entry(device: Option<&str>, name: Option<&str>) -> VideoEntry {
    VideoEntry { device: device.map(|s| s.to_string()), name: name.map(|s| s.to_string()) }
}

#[test]
fn the_first_infrared_camera_is_found() {
    let entries = vec![
        entry(Some("video0"), Some("Webcam")),
        entry(Some("video1"), None),
        entry(None, Some("IR camera")),
        entry(Some("video2"), Some("IR camera\n")),
        entry(Some("video3"), Some("IR camera\n")),
    ];
    assert_eq!(detect_ir_camera(&entries).as_deref(), Some("/dev/video2"));
    assert_eq!(detect_ir_camera(&entries[..3].iter().map(|e| VideoEntry {
        device: e.device.clone(),
        name: e.name.clone(),
    }).collect()), None);
    assert_eq!(detect_ir_camera(&vec![]), None);
}
