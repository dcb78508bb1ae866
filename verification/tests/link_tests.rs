use sysstatus::wifi::{scan_iw_link, scan_iw_output, strength_percentage, wifi_line, IwLink};

const IW: &str = "Connected to 00:11:22:33:44:55 (on wlan0)\n\tSSID: HomeNet\n\tfreq: 5180\n\tRX: 1 bytes\n\tsignal: -61 dBm\n\ttx bitrate: 1 MBit/s\n";

#[test]
fn strength_bounds() {
    assert_eq!(strength_percentage(-30), 100);
    assert_eq!(strength_percentage(-50), 100);
    assert_eq!(strength_percentage(-49), 100);
    assert_eq!(strength_percentage(-61), 78);
    assert_eq!(strength_percentage(-100), 0);
    assert_eq!(strength_percentage(-101), 0);
    assert_eq!(strength_percentage(i32::MIN), 0);
    assert_eq!(strength_percentage(i32::MAX), 100);
}

#[test]
fn strength_monotonic_on_samples() {
    let mut last = 0;
    for dbm in -120..0 {
        let p = strength_percentage(dbm);
        assert!(p >= last);
        last = p;
    }
}

#[test]
fn iw_connected() {
    match scan_iw_link(IW) {
        IwLink::Connected { ssid, dbm } => {
            assert_eq!(ssid, "HomeNet");
            assert_eq!(dbm, -61);
        }
        _ => panic!("expected a link"),
    }
}

#[test]
fn iw_not_connected() {
    assert!(matches!(scan_iw_link("Not connected.\n"), IwLink::NotConnected));
    assert!(matches!(scan_iw_link(""), IwLink::NotConnected));
    // signal before SSID
    assert!(matches!(scan_iw_link("signal: -40 dBm\nSSID: x\n"), IwLink::NotConnected));
    // signal that does not parse
    assert!(matches!(scan_iw_link("SSID: x\nsignal: loud\n"), IwLink::NotConnected));
}

#[test]
fn iw_blank_line_is_malformed() {
    assert!(matches!(scan_iw_link("SSID: x\n\nsignal: -40 dBm\n"), IwLink::Malformed));
    // a blank line after the signal line is never read
    assert!(matches!(scan_iw_link("SSID: x\nsignal: -40 dBm\n\n"), IwLink::Connected { .. }));
}

#[test]
fn wifi_lines() {
    let up = "%i %s %p%".to_string();
    let down = "WIFI DOWN".to_string();
    let link = IwLink::Connected { ssid: "HomeNet".to_string(), dbm: -61 };
    assert_eq!(wifi_line(Some("wlan0".to_string()), link, up.clone(), down.clone()), "wlan0 HomeNet 78%");
    assert_eq!(wifi_line(Some("wlan0".to_string()), IwLink::NotConnected, up.clone(), down.clone()), "%i %s %p%");
    assert_eq!(wifi_line(None, IwLink::NotConnected, up, down), "WIFI DOWN");
}

#[test]
fn iw_raw_output() {
    match scan_iw_output(IW.as_bytes().to_vec()) {
        IwLink::Connected { ssid, dbm } => {
            assert_eq!(ssid, "HomeNet");
            assert_eq!(dbm, -61);
        }
        _ => panic!("expected a link"),
    }
    let mut bad = IW.as_bytes().to_vec();
    bad.push(0xff);
    assert!(matches!(scan_iw_output(bad), IwLink::NotConnected));
    let accented = "SSID: Caf\u{e9}\nsignal: -50 dBm\n".as_bytes().to_vec();
    match scan_iw_output(accented) {
        IwLink::Connected { ssid, dbm } => {
            assert_eq!(ssid, "Caf\u{e9}");
            assert_eq!(dbm, -50);
        }
        _ => panic!("expected a link"),
    }
}
