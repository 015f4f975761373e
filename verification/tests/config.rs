use metric_gauge::config::{
    host_label, next_tls_seed, parse_hex_digit, parse_rotation_config, parse_setting_line, seed_of,
    setting, DisplayRotation,
};

#[test]
fn hex_digits() {
    assert_eq!(parse_hex_digit(b'0'), Some(0));
    assert_eq!(parse_hex_digit(b'9'), Some(9));
    assert_eq!(parse_hex_digit(b'a'), Some(10));
    assert_eq!(parse_hex_digit(b'F'), Some(15));
    assert_eq!(parse_hex_digit(b'g'), None);
    assert_eq!(parse_hex_digit(b'/'), None);
    assert_eq!(parse_hex_digit(b':'), None);
    for c in 0u8..=255 {
        assert_eq!(parse_hex_digit(c), (c as char).to_digit(16).map(|d| d as u8));
    }
}

#[test]
fn rotations_by_angle_and_name() {
    assert_eq!(parse_rotation_config("0"), (DisplayRotation::Rotate0, 0x18));
    assert_eq!(parse_rotation_config("90"), (DisplayRotation::Rotate90, 0x78));
    assert_eq!(parse_rotation_config("180"), (DisplayRotation::Rotate180, 0xd8));
    assert_eq!(parse_rotation_config("270"), (DisplayRotation::Rotate270, 0xb8));
    assert_eq!(parse_rotation_config("Rotate0"), (DisplayRotation::Rotate0, 0x18));
    assert_eq!(parse_rotation_config("Rotate90"), (DisplayRotation::Rotate90, 0x78));
    assert_eq!(parse_rotation_config("Rotate180"), (DisplayRotation::Rotate180, 0xd8));
    assert_eq!(parse_rotation_config("Rotate270"), (DisplayRotation::Rotate270, 0xb8));
    assert_eq!(parse_rotation_config(""), (DisplayRotation::Rotate0, 0x18));
    assert_eq!(parse_rotation_config(" 90"), (DisplayRotation::Rotate0, 0x18));
}

#[test]
fn rotations_by_register_value() {
    assert_eq!(parse_rotation_config("0x18"), (DisplayRotation::Rotate0, 0x18));
    assert_eq!(parse_rotation_config("0X68"), (DisplayRotation::Rotate90, 0x68));
    assert_eq!(parse_rotation_config("0x28"), (DisplayRotation::Rotate90, 0x28));
    assert_eq!(parse_rotation_config("0xC8"), (DisplayRotation::Rotate180, 0xc8));
    assert_eq!(parse_rotation_config("0xa8"), (DisplayRotation::Rotate270, 0xa8));
    assert_eq!(parse_rotation_config("0x88"), (DisplayRotation::Rotate270, 0x88));
    // The digits end at the first other character, and only the low byte counts.
    assert_eq!(parse_rotation_config("0x7z8"), (DisplayRotation::Rotate0, 0x07));
    assert_eq!(parse_rotation_config("0x178"), (DisplayRotation::Rotate90, 0x78));
    assert_eq!(parse_rotation_config("0xz"), (DisplayRotation::Rotate0, 0x00));
    // Nothing behind the prefix is no register value.
    assert_eq!(parse_rotation_config("0x"), (DisplayRotation::Rotate0, 0x18));
}

#[test]
fn labels_are_the_first_part_of_the_host() {
    assert_eq!(host_label("https://node1.homin.dev/metrics"), "node1");
    assert_eq!(host_label("http://node2.homin.dev/metrics"), "node2");
    assert_eq!(host_label("https://node1/metrics.txt"), "node1");
    assert_eq!(host_label("https://node1"), "node1");
    assert_eq!(host_label("node3.lan/metrics"), "node3");
    assert_eq!(host_label("https://"), "");
    assert_eq!(host_label(""), "");
    assert_eq!(host_label("http://node1:9100/metrics"), "node1");
    assert_eq!(host_label("https://node1.homin.dev:8443/metrics"), "node1");
    assert_eq!(host_label("node3:9100"), "node3");
    assert_eq!(host_label("http://https://x"), "https");
}

#[test]
fn settings_fall_back_on_their_alias() {
    assert_eq!(setting(Some("a"), Some("b")), "a");
    assert_eq!(setting(Some(""), Some("b")), "b");
    assert_eq!(setting(None, Some("b")), "b");
    assert_eq!(setting(Some("a"), None), "a");
    assert_eq!(setting(Some(""), Some("")), "");
    assert_eq!(setting(None, None), "");
}

#[test]
fn setting_lines() {
    assert_eq!(parse_setting_line("SSID=home"), Some(("SSID", "home")));
    assert_eq!(parse_setting_line("  PASS = \"a b\"  "), Some(("PASS", "a b")));
    assert_eq!(parse_setting_line("K='v'"), Some(("K", "v")));
    assert_eq!(parse_setting_line("K=\"'v'\""), Some(("K", "v")));
    assert_eq!(parse_setting_line("K='\"v\"'"), Some(("K", "\"v\"")));
    assert_eq!(parse_setting_line("U=http://h/?a=b"), Some(("U", "http://h/?a=b")));
    assert_eq!(parse_setting_line("K="), Some(("K", "")));
    assert_eq!(parse_setting_line("=v"), Some(("", "v")));
    assert_eq!(parse_setting_line(""), None);
    assert_eq!(parse_setting_line("   "), None);
    assert_eq!(parse_setting_line("# K=v"), None);
    assert_eq!(parse_setting_line("no equals sign"), None);
}

#[test]
fn seeds() {
    assert_eq!(seed_of(1, 2), 0x0000_0002_0000_0001);
    assert_eq!(seed_of(0xffff_ffff, 0x8000_0000), 0x8000_0000_ffff_ffff);
    assert_eq!(next_tls_seed(0), 0x9e37_79b9_7f4a_7c15);
    assert_eq!(next_tls_seed(u64::MAX), 0x9e37_79b9_7f4a_7c14);
}
