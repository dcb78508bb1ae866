use sysstatus::cpu::{io_error_message, parse_cpu_times, stat_first_line, CpuUsage, Error};

const STAT: &str = "cpu  10 20 30 400 50 6 7 8 0 0\ncpu0 1 2 3 4 5 6 7 8 9 10\nintr 1\n";

fn usage(times: &[u64]) -> CpuUsage {
    CpuUsage::from_times(&times.to_vec()).unwrap()
}

#[test]
fn parse_cpu_times_reads_first_line() {
    assert_eq!(parse_cpu_times(STAT), Some(vec![10, 20, 30, 400, 50, 6, 7, 8, 0, 0]));
}

#[test]
fn parse_cpu_times_needs_eleven_words() {
    assert_eq!(parse_cpu_times("cpu 1 2 3 4 5 6 7 8 9\n"), None);
    assert_eq!(parse_cpu_times("cpu 1 2 3 4 5 6 7 8 9 10 11\n"), None);
    assert_eq!(parse_cpu_times(""), None);
}

#[test]
fn parse_cpu_times_needs_numbers() {
    assert_eq!(parse_cpu_times("cpu 1 2 3 4 5 6 7 8 9 x\n"), None);
    assert_eq!(parse_cpu_times("cpu 1 2 3 4 5 6 7 8 9 -1\n"), None);
}

#[test]
fn parse_cpu_times_without_line_feed() {
    assert_eq!(parse_cpu_times("cpu 1 2 3 4 5 6 7 8 9 10"), Some((1..=10).collect()));
}

#[test]
fn from_times_sums_counters() {
    let c = usage(&[10, 20, 30, 400, 50, 6, 7, 8, 0, 0]);
    assert_eq!(c.user, 10);
    assert_eq!(c.idle, 400);
    assert_eq!(c.guest_nice, 0);
    assert_eq!(c.total, 531);
}

#[test]
fn from_times_overflow() {
    let mut t = vec![0u64; 10];
    t[0] = u64::MAX;
    t[9] = 1;
    assert!(CpuUsage::from_times(&t).is_none());
    t[9] = 0;
    assert_eq!(CpuUsage::from_times(&t).unwrap().total, u64::MAX);
}

#[test]
fn sub_takes_differences() {
    let old = usage(&[1, 2, 3, 4, 5, 6, 7, 8, 9, 10]);
    let new = usage(&[11, 12, 13, 24, 15, 16, 17, 18, 19, 20]);
    assert!(new.covers_exec(&old));
    let d = new.sub(old);
    assert_eq!(d.user, 10);
    assert_eq!(d.idle, 20);
    assert_eq!(d.total, new.total - old.total);
    let sum = d.user + d.nice + d.system + d.idle + d.iowait + d.irq + d.softirq + d.steal + d.guest + d.guest_nice;
    assert_eq!(sum, d.total);
}

#[test]
fn covers_detects_decrease() {
    let old = usage(&[5, 0, 0, 0, 0, 0, 0, 0, 0, 0]);
    let new = usage(&[4, 9, 0, 0, 0, 0, 0, 0, 0, 0]);
    assert!(!new.covers_exec(&old));
}

#[test]
fn get_without_stored_reading() {
    let cur = usage(&[1, 1, 1, 1, 1, 1, 1, 1, 1, 1]);
    let r = CpuUsage::get(None, Ok(cur)).ok().unwrap();
    assert_eq!(r.total, 10);
}

#[test]
fn get_with_stored_reading() {
    let old = usage(&[1, 1, 1, 1, 1, 1, 1, 1, 1, 1]);
    let cur = usage(&[2, 3, 4, 5, 6, 7, 8, 9, 10, 11]);
    let r = CpuUsage::get(Some(Ok(old)), Ok(cur)).ok().unwrap();
    assert_eq!(r.user, 1);
    assert_eq!(r.guest_nice, 10);
    assert_eq!(r.total, 55);
}

#[test]
fn get_reports_stored_error_first() {
    let r = CpuUsage::get(Some(Err(Error::ParseErr)), Err(Error::IOErr(std::io::Error::other("x"))));
    assert!(matches!(r, Err(Error::ParseErr)));
    let r = CpuUsage::get(Some(Ok(usage(&[0; 10]))), Err(Error::IOErr(std::io::Error::other("x"))));
    assert!(matches!(r, Err(Error::IOErr(_))));
    let r = CpuUsage::get(None, Err(Error::ParseErr));
    assert!(matches!(r, Err(Error::ParseErr)));
}

#[test]
fn stat_first_line_is_first_line() {
    assert_eq!(stat_first_line(STAT), "cpu  10 20 30 400 50 6 7 8 0 0");
    assert_eq!(stat_first_line("only"), "only");
    assert_eq!(stat_first_line(""), "");
    assert_eq!(stat_first_line("x\r\ny"), "x\r");
}

#[test]
fn error_messages() {
    assert_eq!(Error::ParseErr.message(), "Could not parse data");
    let m = Error::IOErr(std::io::Error::other("disk gone")).message();
    assert_eq!(m, "An IO error occurred: disk gone");
}

#[test]
fn successive_runs_add_up() {
    let readings = [
        usage(&[10, 0, 5, 100, 1, 0, 0, 0, 0, 0]),
        usage(&[15, 1, 7, 130, 1, 2, 0, 0, 0, 0]),
        usage(&[40, 1, 9, 200, 3, 2, 1, 0, 0, 0]),
    ];
    let first = CpuUsage::get(None, Ok(readings[0])).ok().unwrap();
    assert_eq!(first.total, readings[0].total);
    let mut sum_total = 0;
    let mut sum_user = 0;
    for k in 1..readings.len() {
        let d = CpuUsage::get(Some(Ok(readings[k - 1])), Ok(readings[k])).ok().unwrap();
        sum_total += d.total;
        sum_user += d.user;
    }
    assert_eq!(sum_total, readings[2].total - readings[0].total);
    assert_eq!(sum_user, 30);
}

#[test]
fn io_error_message_joins_text() {
    assert_eq!(io_error_message("No such file or directory (os error 2)"), "An IO error occurred: No such file or directory (os error 2)");
    assert_eq!(io_error_message(""), "An IO error occurred: ");
}
