use sysstatus::notifier::{body, summary, Notice, Notifier};
use sysstatus::vpn::{cache_action, find_hostname, mullvad_line, proton_line, CacheAction, ConcreteServerData, LogicalServer};

fn server(exit: &str) -> ConcreteServerData {
    ConcreteServerData {
        entry_IP: "1.1.1.1".to_string(),
        exit_IP: exit.to_string(),
        domain: "d".to_string(),
        ID: "id".to_string(),
        label: "0".to_string(),
        x25519_public_key: None,
        generation: 0,
        status: 1,
        services_down: 0,
        services_down_reason: None,
    }
}

fn logical(name: &str, exits: &[&str]) -> LogicalServer {
    LogicalServer { name: name.to_string(), servers: exits.iter().map(|e| server(e)).collect() }
}

#[test]
fn hostname_lookup() {
    let servers = vec![logical("CH#1", &["10.0.0.1", "10.0.0.2"]), logical("SE#4", &["10.0.0.3"]), logical("SE#5", &["10.0.0.3"])];
    assert_eq!(find_hostname(&"10.0.0.2".to_string(), &servers), Some("CH#1".to_string()));
    assert_eq!(find_hostname(&"10.0.0.3".to_string(), &servers), Some("SE#4".to_string()));
    assert_eq!(find_hostname(&"10.0.0.9".to_string(), &servers), None);
    assert_eq!(find_hostname(&"10.0.0.1".to_string(), &vec![]), None);
}

#[test]
fn mullvad_lines() {
    assert_eq!(
        mullvad_line("Sweden".to_string(), true, Some("se-got-wg-001".to_string()), "%h".to_string(), "N/C - %c".to_string()),
        "se-got-wg-001"
    );
    assert_eq!(
        mullvad_line("Germany".to_string(), false, None, "%h".to_string(), "N/C - %c".to_string()),
        "N/C - Germany"
    );
}

#[test]
fn proton_lines() {
    assert_eq!(proton_line("CH".to_string(), Some("CH#1".to_string()), "%h (%c)".to_string(), "N/C - %c".to_string()), "CH#1 (CH)");
    assert_eq!(proton_line("CH".to_string(), None, "%h".to_string(), "N/C - %c".to_string()), "N/C - CH");
}

#[test]
fn cache_decisions() {
    assert_eq!(cache_action(None, 100, 10), CacheAction::Download);
    assert_eq!(cache_action(Some(100), 100, 10), CacheAction::UseCached);
    assert_eq!(cache_action(Some(90), 100, 10), CacheAction::UseCached);
    assert_eq!(cache_action(Some(89), 100, 10), CacheAction::Download);
    assert_eq!(cache_action(Some(0), 43200, 43200), CacheAction::UseCached);
    assert_eq!(cache_action(Some(0), 43201, 43200), CacheAction::Download);
}

#[test]
fn notifier_low_once() {
    let mut n = Notifier::new(20, 80);
    assert_eq!(n.observe(15, false), Some(Notice::Low));
    n.record(Notice::Low, true);
    assert_eq!(n.observe(14, false), None);
    assert_eq!(n.observe(14, true), None);
    assert_eq!(n.observe(14, false), Some(Notice::Low));
}

#[test]
fn notifier_failed_notice_retried() {
    let mut n = Notifier::new(20, 80);
    assert_eq!(n.observe(10, false), Some(Notice::Low));
    n.record(Notice::Low, false);
    assert_eq!(n.observe(10, false), Some(Notice::Low));
}

#[test]
fn notifier_high_once() {
    let mut n = Notifier::new(20, 80);
    assert_eq!(n.observe(81, false), None);
    assert_eq!(n.observe(81, true), Some(Notice::High));
    n.record(Notice::High, true);
    assert_eq!(n.observe(90, true), None);
    assert_eq!(n.observe(90, false), None);
    assert_eq!(n.observe(90, true), Some(Notice::High));
}

#[test]
fn notifier_thresholds_exclusive() {
    let mut n = Notifier::new(20, 80);
    assert_eq!(n.observe(20, false), None);
    assert_eq!(n.observe(80, true), None);
    assert_eq!(n.observe(50, false), None);
}

#[test]
fn notice_texts() {
    assert_eq!(summary(Notice::Low), "Low battery charge");
    assert_eq!(summary(Notice::High), "High battery charge");
    assert_eq!(body(Notice::Low, 20), "Battery lower than set threshold of 20%");
    assert_eq!(body(Notice::High, 20), "You can remove the charging device in order to preserve battery health");
}

#[test]
fn cache_reused_within_expiry() {
    // downloaded at 1000 without a cache, then reused until 1000 + expiry
    assert_eq!(cache_action(None, 1000, 3600), CacheAction::Download);
    assert_eq!(cache_action(Some(1000), 4600, 3600), CacheAction::UseCached);
    assert_eq!(cache_action(Some(1000), 4601, 3600), CacheAction::Download);
}
