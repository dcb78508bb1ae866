use sysstatus::dirs::{dir_name, next_candidate, first_matching_dir, is_dir_battery, name_has_allowed_prefix, operstate_up};

fn strings(v: &[&str]) -> Vec<String> {
    v.iter().map(|s| s.to_string()).collect()
}

#[test]
fn dir_name_is_last_component() {
    assert_eq!(dir_name("/sys/class/net/wlan0"), "wlan0");
    assert_eq!(dir_name("eth0"), "eth0");
    assert_eq!(dir_name("/sys/class/net/"), "");
}

#[test]
fn prefixes_filter_names() {
    let p = Some(strings(&["wlan", "wlp"]));
    assert!(name_has_allowed_prefix("wlp3s0", &p));
    assert!(!name_has_allowed_prefix("eth0", &p));
    assert!(name_has_allowed_prefix("anything", &None));
    assert!(!name_has_allowed_prefix("wlan0", &Some(vec![])));
}

#[test]
fn first_matching_dir_takes_first_fit() {
    let paths = strings(&["/sys/class/net/lo", "/sys/class/net/wlan0", "/sys/class/net/wlp2s0"]);
    let p = Some(strings(&["wlan", "wlp"]));
    assert_eq!(first_matching_dir(&paths, &p, &vec![true, true, true]), Some("wlan0".to_string()));
    assert_eq!(first_matching_dir(&paths, &p, &vec![true, false, true]), Some("wlp2s0".to_string()));
    assert_eq!(first_matching_dir(&paths, &p, &vec![true, false, false]), None);
    assert_eq!(first_matching_dir(&paths, &None, &vec![false, false, true]), Some("wlp2s0".to_string()));
    assert_eq!(first_matching_dir(&vec![], &None, &vec![]), None);
}

#[test]
fn operstate_up_only_for_up() {
    assert!(operstate_up("up\n"));
    assert!(operstate_up("  up "));
    assert!(!operstate_up("down\n"));
    assert!(!operstate_up("upper"));
    assert!(!operstate_up(""));
}

#[test]
fn battery_needs_type_and_files() {
    assert!(is_dir_battery("Battery\n", true, true));
    assert!(!is_dir_battery("Mains\n", true, true));
    assert!(!is_dir_battery("Battery\n", false, true));
    assert!(!is_dir_battery("Battery\n", true, false));
}

#[test]
fn next_candidate_steps_in_order() {
    let paths = strings(&["/sys/class/net/lo", "/sys/class/net/wlan0", "/sys/class/net/eth0", "/sys/class/net/wlp2s0"]);
    let p = Some(strings(&["wlan", "wlp"]));
    assert_eq!(next_candidate(&paths, &p, 0), Some(1));
    assert_eq!(next_candidate(&paths, &p, 1), Some(1));
    assert_eq!(next_candidate(&paths, &p, 2), Some(3));
    assert_eq!(next_candidate(&paths, &p, 4), None);
    assert_eq!(next_candidate(&paths, &None, 2), Some(2));
    assert_eq!(next_candidate(&paths, &Some(vec![]), 0), None);
}

#[test]
fn lazy_steps_choose_as_first_matching_dir() {
    let paths = strings(&["/sys/class/net/lo", "/sys/class/net/wlan0", "/sys/class/net/eth0", "/sys/class/net/wlp2s0"]);
    let p = Some(strings(&["wlan", "wlp"]));
    let checks = vec![true, false, true, true];
    let mut from = 0;
    let mut chosen = None;
    let mut checked = vec![];
    while let Some(j) = next_candidate(&paths, &p, from) {
        checked.push(j);
        if checks[j] {
            chosen = Some(dir_name(&paths[j]));
            break;
        }
        from = j + 1;
    }
    assert_eq!(checked, vec![1, 3]);
    assert_eq!(chosen, first_matching_dir(&paths, &p, &checks));
    assert_eq!(chosen, Some("wlp2s0".to_string()));
}
