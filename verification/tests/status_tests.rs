use sysstatus::status::{
    aur_helper_command, battery_line, count_lines, count_output_lines, disk_line, eth_line, is_charging, parse_capacity,
    parse_meminfo, ram_line, updates_line, MemInfo,
};

const MEMINFO: &str = "MemTotal:       16303424 kB\nMemFree:         1234567 kB\nMemAvailable:    8151712 kB\nBuffers:          100 kB\n";

#[test]
fn meminfo_values_in_bytes() {
    match parse_meminfo(MEMINFO) {
        MemInfo::Values { total, available } => {
            assert_eq!(total, 16303424 * 1024);
            assert_eq!(available, 8151712 * 1024);
        }
        _ => panic!("expected values"),
    }
}

#[test]
fn meminfo_missing_available() {
    assert!(matches!(parse_meminfo("MemTotal: 10 kB\nMemFree: 5 kB\n"), MemInfo::Missing));
    assert!(matches!(parse_meminfo(""), MemInfo::Missing));
}

#[test]
fn meminfo_skips_bad_lines() {
    let text = "MemTotal:\n\nMemTotal: x kB\nMemTotal: 4 kB\nMemAvailable: 2 kB\n";
    match parse_meminfo(text) {
        MemInfo::Values { total, available } => {
            assert_eq!(total, 4096);
            assert_eq!(available, 2048);
        }
        _ => panic!("expected values"),
    }
}

#[test]
fn meminfo_overflow() {
    assert!(matches!(parse_meminfo("MemTotal: 18014398509481984 kB\nMemAvailable: 1 kB\n"), MemInfo::Overflow));
    assert!(matches!(parse_meminfo("MemTotal: 18014398509481983 kB\nMemAvailable: 1 kB\n"), MemInfo::Values { .. }));
}

#[test]
fn ram_line_fills_values() {
    let line = ram_line(4 * 1024 * 1024 * 1024, 1024 * 1024 * 1024, "75.00".to_string(), "RAM %u/%t (%p%) free %a".to_string());
    assert_eq!(line, "RAM 3.00G/4.00G (75.00%) free 1.00G");
}

#[test]
fn disk_line_fills_used_space() {
    // 3072 of 4096 blocks of 4 KiB are in use: 12 MiB.
    assert_eq!(disk_line(4096, 1024, 4096, "DISK %u".to_string()), "DISK 12.00M");
    assert_eq!(disk_line(100, 100, 4096, "DISK %u".to_string()), "DISK 0.00B");
}

#[test]
fn output_lines_of_bytes() {
    assert_eq!(count_output_lines(b""), 0);
    assert_eq!(count_output_lines(b"a\nb\n"), 2);
    // invalid UTF-8 is replaced, not dropped: the lines stay
    assert_eq!(count_output_lines(b"a\n\xff\xfe\nb"), 3);
    assert_eq!(count_output_lines(b"\xff"), 1);
}

#[test]
fn eth_line_up_and_down() {
    assert_eq!(eth_line(Some("enp3s0".to_string()), "ETH %i".to_string(), "ETH DOWN".to_string()), "ETH enp3s0");
    assert_eq!(eth_line(None, "ETH %i".to_string(), "ETH DOWN".to_string()), "ETH DOWN");
}

#[test]
fn battery_line_cases() {
    let f = || ("BAT %p%".to_string(), "BAT CHR %p%".to_string(), "NO BAT".to_string());
    let (a, b, c) = f();
    assert_eq!(battery_line(Some(("57\n".to_string(), "Discharging\n".to_string())), a, b, c), "BAT 57%");
    let (a, b, c) = f();
    assert_eq!(battery_line(Some(("57\n".to_string(), "Charging\n".to_string())), a, b, c), "BAT CHR 57%");
    let (a, b, c) = f();
    assert_eq!(battery_line(None, a, b, c), "NO BAT");
}

#[test]
fn charging_status() {
    assert!(is_charging("Charging\n"));
    assert!(!is_charging("Not charging\n"));
    assert!(!is_charging("Full"));
}

#[test]
fn capacity_parsing() {
    assert_eq!(parse_capacity("85\n"), Some(85));
    assert_eq!(parse_capacity(" 100 "), Some(100));
    assert_eq!(parse_capacity("300"), None);
    assert_eq!(parse_capacity("n/a"), None);
}

#[test]
fn line_counts() {
    assert_eq!(count_lines(""), 0);
    assert_eq!(count_lines("linux 6.1 -> 6.2\n"), 1);
    assert_eq!(count_lines("a\nb\nc"), 3);
    assert_eq!(count_lines("a\n\nb\n"), 3);
}

#[test]
fn aur_helper_choice() {
    assert_eq!(aur_helper_command(true), "paru");
    assert_eq!(aur_helper_command(false), "yay");
}

#[test]
fn updates_line_counts() {
    assert_eq!(updates_line(12, 3, "%p/%y (%t)".to_string()), "12/3 (15)");
}
