//! Sizes in words, colours, and the output of `df`.

use diskscour::util::{dark_text_on, disk_usage, hue_of, human, total};

#[test]
fn human_sizes() {
    assert_eq!(human(0), "0 B");
    assert_eq!(human(512), "512 B");
    assert_eq!(human(1024), "1.0 KB");
    assert_eq!(human(1536), "1.5 KB");
    assert_eq!(human(1024 * 1024), "1.0 MB");
    assert_eq!(human(3 * 1024 * 1024 * 1024), "3.0 GB");
}

fn by_floats(bytes: u64) -> String {
    let units = ["B", "KB", "MB", "GB", "TB", "PB"];
    if bytes < 1024 {
        return format!("{bytes} B");
    }
    let mut v = bytes as f64;
    let mut i = 0usize;
    while v >= 1024.0 && i < units.len() - 1 {
        v /= 1024.0;
        i += 1;
    }
    format!("{v:.1} {}", units[i])
}

#[test]
fn sizes_are_rounded_as_floating_point_rounds_them() {
    let mut x: u64 = 88172645463325252;
    for _ in 0..200_000 {
        x ^= x << 13;
        x ^= x >> 7;
        x ^= x << 17;
        let n = x >> (x % 64);
        assert_eq!(human(n), by_floats(n), "{n}");
    }
    for k in 0..64 {
        for d in 0..8u64 {
            let n = (1u64 << k).wrapping_add(d).wrapping_sub(4);
            assert_eq!(human(n), by_floats(n), "{n}");
        }
    }
    assert_eq!(human(u64::MAX), by_floats(u64::MAX));
    // Exactly between two tenths.
    assert_eq!(human(1024 + 256 + 51), by_floats(1024 + 256 + 51));
    assert_eq!(human(1280), "1.2 KB");
    assert_eq!(human(1792), "1.8 KB");
}

#[test]
fn sums_wrap() {
    assert_eq!(total(&vec![]), 0);
    assert_eq!(total(&vec![1, 2, 3]), 6);
    assert_eq!(total(&vec![u64::MAX, 2]), 1);
}

#[test]
fn hues_come_from_the_name() {
    // FNV-1a of nothing, modulo 360.
    assert_eq!(hue_of(""), 2166136261u32 % 360);
    assert_eq!(hue_of("a"), 0xe40c292cu32 % 360);
}

#[test]
fn text_is_dark_on_light_ground() {
    assert!(dark_text_on(255, 255, 255));
    assert!(!dark_text_on(0, 0, 0));
    assert!(!dark_text_on(127, 127, 126));
    assert!(dark_text_on(127, 127, 127));
}

#[test]
fn disk_usage_is_read_from_df() {
    let out = "Filesystem 1024-blocks Used Available Capacity Mounted on\n\
               /dev/disk1s1 1000 400 600 40% /\n";
    assert_eq!(disk_usage(out), Some((1_024_000, 614_400)));
    assert_eq!(disk_usage("Filesystem\n"), None);
    assert_eq!(disk_usage("h\nx y z\n"), None);
    assert_eq!(disk_usage("h\nx 10 z -\n"), None);
    assert_eq!(disk_usage("h\nx 10 z 1\n"), Some((10240, 1024)));
}
