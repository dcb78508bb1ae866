use sysstatus::format::{format_bytes, format_list_text, format_output};

/// The byte formatting done with floating point, as the status tools have
/// always done it.
fn float_format_bytes(bytes: u64) -> String {
    let suffixes = ["B", "K", "M", "G", "T", "P", "E"];
    let mut converted = bytes as f64;
    let mut counter = 0;
    while converted >= 1024.0 {
        converted /= 1024.0;
        counter += 1;
    }
    format!("{:.2}{}", converted, suffixes[counter])
}

fn pairs(list: &[(&str, &str)]) -> Vec<(String, String)> {
    list.iter().map(|(k, v)| (k.to_string(), v.to_string())).collect()
}

#[test]
fn format_bytes_small_counts() {
    assert_eq!(format_bytes(0), "0.00B");
    assert_eq!(format_bytes(1), "1.00B");
    assert_eq!(format_bytes(1023), "1023.00B");
}

#[test]
fn format_bytes_units() {
    assert_eq!(format_bytes(1024), "1.00K");
    assert_eq!(format_bytes(1536), "1.50K");
    assert_eq!(format_bytes(1024 * 1024), "1.00M");
    assert_eq!(format_bytes(5 * 1024 * 1024 * 1024), "5.00G");
    assert_eq!(format_bytes(1u64 << 40), "1.00T");
    assert_eq!(format_bytes(1u64 << 50), "1.00P");
    assert_eq!(format_bytes(1u64 << 60), "1.00E");
}

#[test]
fn format_bytes_rounds_to_hundredths() {
    // 1.125K lies halfway between 1.12K and 1.13K: ties go to the even digit.
    assert_eq!(format_bytes(1152), "1.12K");
    // 1.375K: the tie goes up to 1.38K.
    assert_eq!(format_bytes(1408), "1.38K");
    // 1023.999K rounds up to 1024.00K without changing the unit.
    assert_eq!(format_bytes(1024 * 1024 - 1), "1024.00K");
}

#[test]
fn format_bytes_largest_count() {
    // u64::MAX becomes 2^64 as a float: 16 exbibytes.
    assert_eq!(format_bytes(u64::MAX), "16.00E");
}

#[test]
fn format_bytes_agrees_with_float_formatting() {
    let mut values: Vec<u64> = vec![
        0, 1, 9, 10, 99, 100, 1000, 1023, 1024, 1025, 1152, 1408, 2047, 2048, 10_000, 123_456,
        1_048_575, 1_048_576, 1_073_741_824, 4_294_967_295, 4_294_967_296,
        (1u64 << 53) - 1, 1u64 << 53, (1u64 << 53) + 1, (1u64 << 53) + 3, (1u64 << 54) + 2,
        u64::MAX - 1, u64::MAX, 1u64 << 63, (1u64 << 63) + 1024,
    ];
    let mut x: u64 = 0x9E37_79B9_7F4A_7C15;
    for _ in 0..20000 {
        x ^= x << 13;
        x ^= x >> 7;
        x ^= x << 17;
        let shift = (x % 64) as u32;
        values.push(x >> shift);
    }
    for k in 1..7u32 {
        let unit = 1u64 << (10 * k);
        for frac in 0..400u64 {
            // multiples of 1/256 of a unit hit the rounding ties
            values.push(unit + frac * (unit / 256));
            values.push(3 * unit + frac * (unit / 1024));
        }
    }
    for v in values {
        assert_eq!(format_bytes(v), float_format_bytes(v), "bytes = {}", v);
    }
}

#[test]
fn format_output_replaces_placeholders() {
    let out = format_output(pairs(&[("%u", "1.00G"), ("%t", "4.00G")]), "RAM %u/%t".to_string());
    assert_eq!(out, "RAM 1.00G/4.00G");
}

#[test]
fn format_output_replaces_every_occurrence() {
    let out = format_output(pairs(&[("%p", "42")]), "%p and %p%%p".to_string());
    assert_eq!(out, "42 and 42%42");
}

#[test]
fn format_output_without_data_keeps_format() {
    assert_eq!(format_output(vec![], "CPU %p%".to_string()), "CPU %p%");
}

#[test]
fn format_output_unknown_placeholder_kept() {
    let out = format_output(pairs(&[("%x", "1")]), "BAT %p%".to_string());
    assert_eq!(out, "BAT %p%");
}

#[test]
fn format_output_follows_order_of_data() {
    // A value that holds a later placeholder is filled in again.
    let out = format_output(pairs(&[("%a", "%b"), ("%b", "2")]), "%a %b".to_string());
    assert_eq!(out, "2 2");
    let out = format_output(pairs(&[("%b", "2"), ("%a", "%b")]), "%a %b".to_string());
    assert_eq!(out, "%b 2");
}

#[test]
fn format_output_empty_placeholder() {
    let out = format_output(pairs(&[("", "-")]), "ab".to_string());
    assert_eq!(out, "ab".replace("", "-"));
    assert_eq!(out, "-a-b-");
}

#[test]
fn format_output_non_overlapping_left_to_right() {
    let out = format_output(pairs(&[("aa", "b")]), "aaa".to_string());
    assert_eq!(out, "ba");
}

#[test]
fn format_output_placeholder_by_itself() {
    let out = format_output(pairs(&[("%p", "%p")]), "x %p y".to_string());
    assert_eq!(out, "x %p y");
}

#[test]
fn format_list_text_lists_values() {
    let text = format_list_text(&pairs(&[("%p", "pacman updates number"), ("%y", "aur updates number")]));
    assert_eq!(
        text,
        "Supported format values\n\t%p -> pacman updates number\n\t%y -> aur updates number\n"
    );
}

#[test]
fn format_list_text_empty_list() {
    assert_eq!(format_list_text(&vec![]), "Supported format values\n");
}
