use tinyticker::sysinfo::{
    battery_of, bytes_per_sec, delta_percent, parse_capacity, parse_cpu_line, parse_meminfo,
    parse_netdev, parse_uptime, Battery, Readings, Sampler, Supply,
};

#[test]
fn cpu_line_sums_only_the_first_eight_fields() {
    let (busy, total) =
        parse_cpu_line("cpu  1000 0 200 7000 300 50 50 0 9 9\ncpu0 1 2 3\n").unwrap();
    assert_eq!(total, 8600);
    assert_eq!(busy, 1300);
}

#[test]
fn cpu_line_tolerates_pre_2_6_11_field_counts() {
    let (busy, total) = parse_cpu_line("cpu 100 10 20 200").unwrap();
    assert_eq!((busy, total), (130, 330));
}

#[test]
fn cpu_line_rejects_garbage() {
    assert!(parse_cpu_line("").is_none());
    assert!(parse_cpu_line("intr 123").is_none());
    assert!(parse_cpu_line("cpu 1 2 x 4").is_none());
    assert!(parse_cpu_line("cpu 1 2 3").is_none());
}

#[test]
fn cpu_delta_clamps_and_handles_restart() {
    assert_eq!(delta_percent((500, 1000), 100, 500), 80);
    assert_eq!(delta_percent((10, 20), 100, 500), 0);
    assert_eq!(delta_percent((900, 1000), 0, 990), 100);
}

#[test]
fn netdev_sums_interfaces_and_skips_loopback() {
    let text = "Inter-|   Receive                                                |  Transmit\n \
face |bytes    packets errs drop fifo frame compressed multicast|bytes    packets errs drop fifo colls carrier compressed\n \
   lo:  111111    890    0    0    0     0          0         0   222222    890    0    0    0     0       0          0\n \
 wlan0: 1000000    890    0    0    0     0          0         0    50000    120    0    0    0     0       0          0\n \
  veth1:  250000    100    0    0    0     0          0         0    10000    100    0    0    0     0       0          0\n";
    assert_eq!(parse_netdev(text), Some((1_250_000, 60_000)));
    assert_eq!(
        parse_netdev("    lo: 1 1 1 1 1 1 1 1 1 1 1 1 1 1 1 1\n"),
        None
    );
    assert_eq!(parse_netdev(""), None);
    assert_eq!(parse_netdev("  eth0: 1 2 3\n"), None);
    assert_eq!(
        parse_netdev(" eth0: bytes packets errs drop fifo frame compressed multicast bytes\n"),
        None
    );
}

#[test]
fn net_rate_uses_the_real_interval() {
    assert_eq!(bytes_per_sec(1000, 0, 1000), 1000);
    assert_eq!(
        bytes_per_sec(500, 0, 500),
        1000,
        "半秒读到 500B 该报 1000B/s"
    );
    assert_eq!(bytes_per_sec(0, 5000, 1000), 0);
    assert_eq!(
        bytes_per_sec(100, 0, 0),
        100_000,
        "间隔下限取 1ms，不许除零"
    );
}

#[test]
fn meminfo_uses_mem_available() {
    let text =
        "MemTotal:       16384000 kB\nMemFree:   1024000 kB\nMemAvailable:   4096000 kB\n";
    assert_eq!(parse_meminfo(text), Some(75));
}

#[test]
fn meminfo_needs_both_fields() {
    assert!(parse_meminfo("MemTotal: 100 kB\n").is_none());
    assert!(parse_meminfo("MemTotal: 100 kB\nMemAvailable: 200 kB\n").is_none());
    assert!(parse_meminfo("MemTotal: 0 kB\nMemAvailable: 0 kB\n").is_none());
}

#[test]
fn capacity_is_bounded() {
    assert_eq!(parse_capacity("87\n"), Some(87));
    assert_eq!(parse_capacity("101"), None);
    assert_eq!(parse_capacity("abc"), None);
}

#[test]
fn uptime_is_whole_seconds() {
    assert_eq!(parse_uptime("12345.67 54321.00\n"), Some(12345));
    assert_eq!(parse_uptime("7"), Some(7));
    assert_eq!(parse_uptime(""), None);
    assert_eq!(parse_uptime("x.1"), None);
}

fn supply(kind: &str, capacity: Option<&str>, status: &str) -> Supply {
    Supply {
        kind: kind.to_string(),
        capacity: capacity.map(str::to_string),
        status: status.to_string(),
    }
}

#[test]
fn batteries_count_as_one() {
    assert_eq!(battery_of(&[]), None);
    assert_eq!(battery_of(&[supply("Mains\n", None, "")]), None);
    assert_eq!(battery_of(&[supply("Battery", None, "Full")]), None);
    assert_eq!(battery_of(&[supply("Battery", Some("101"), "Full")]), None);
    let two = [
        supply("Battery\n", Some("80\n"), "Discharging\n"),
        supply("Mains", Some("5"), "Charging"),
        supply("BATTERY", Some("45"), " charging "),
    ];
    assert_eq!(battery_of(&two), Some(Battery { percent: 62, charging: true }));
    assert_eq!(battery_of(&two[..2]), Some(Battery { percent: 80, charging: false }));
}

fn readings(now: u64) -> Readings {
    Readings { now, cpu: None, net: None, battery: None, mem: None, uptime: None }
}

#[test]
fn rates_show_between_two_readings() {
    let mut s = Sampler::new(&Readings {
        cpu: Some((100, 500)),
        net: Some((1_000, 100)),
        battery: Some(Battery { percent: 50, charging: false }),
        ..readings(10_000)
    });
    let got = s.sample(&Readings {
        cpu: Some((500, 1000)),
        net: Some((3_000, 400)),
        mem: Some(33),
        uptime: Some(9),
        ..readings(12_000)
    });
    assert_eq!((got.cpu, got.mem, got.uptime_secs), (80, 33, 9));
    assert_eq!((got.net_down, got.net_up), (1_000, 150));
    assert_eq!(got.battery, Some(Battery { percent: 50, charging: false }));
    // what cannot be read stays as it was
    let again = s.sample(&readings(13_000));
    assert_eq!((again.cpu, again.mem, again.net_down, again.uptime_secs), (80, 0, 1_000, 0));
}

#[test]
fn the_battery_is_read_every_half_minute() {
    let b = |percent: u8| Some(Battery { percent, charging: false });
    let mut s = Sampler::new(&Readings { battery: b(50), ..readings(1_000) });
    assert!(!s.battery_due(30_999));
    assert!(s.battery_due(31_000));
    assert!(!s.battery_due(0));
    assert_eq!(s.sample(&Readings { battery: b(49), ..readings(30_999) }).battery, b(50));
    assert_eq!(s.sample(&Readings { battery: b(49), ..readings(31_000) }).battery, b(49));
    assert!(!s.battery_due(40_000));
    assert_eq!(s.sample(&readings(61_000)).battery, None);
}
