//! The merge step, error behaviour, request construction, and the
//! bandwidth wire-format round trip, on concrete values.

use tomato_exporter::bandwidth::{render_netdev, BandwidthClient, BandwidthMeasurement};
use tomato_exporter::coordinator::{merge_scrape_outcomes, ScrapeOutcome};
use tomato_exporter::cpu::CpuClient;
use tomato_exporter::error::{CollectorError, TransportError};
use tomato_exporter::load::LoadClient;
use tomato_exporter::mem::MemClient;
use tomato_exporter::network::NetworkClient;
use tomato_exporter::node::NodeClient;
use tomato_exporter::prometheus::{PromLabel, PromMetric, PromMetricType, PromSample};
use tomato_exporter::time::TimeClient;
use tomato_exporter::transport::{run_command_fields, netdev_fields, TomatoClientInternal};
use tomato_exporter::uname::UnameClient;
use tomato_exporter::value::MetricValue;

#[test]
fn parse_failures_are_reported() {
    assert!(LoadClient::parse_body("not a load line".to_string()).is_err());
    assert!(LoadClient::parse_body("".to_string()).is_err());
    assert!(TimeClient::parse_body("garbage".to_string()).is_err());
    // uptime larger than the timestamp is rejected rather than wrapping
    assert!(TimeClient::parse_body("5\n10.00 1.00".to_string()).is_err());
    assert!(UnameClient::parse_body("Linux karabor".to_string()).is_err());
    assert!(MemClient::parse_body("no meminfo here".to_string()).is_err());
    assert!(CpuClient::parse_body("intr 5 6 7".to_string()).is_err());
    // a line that names a CPU but is malformed fails the whole parse
    assert!(CpuClient::parse_body("cpu0 12 x 14 15".to_string()).is_err());
    assert!(CpuClient::parse_body("cpu0 1 2 3".to_string()).is_err());
    assert!(NetworkClient::parse_body("".to_string()).is_err());
    assert!(BandwidthClient::parse_body("netdev={'eth0':{rx:zz,tx:0x1}};".to_string()).is_err());
    assert!(BandwidthClient::parse_body("not netdev at all".to_string()).is_err());
    assert!(NodeClient::parse_body("no sysinfo block".to_string()).is_err());
    assert!(
        NodeClient::parse_body("sysinfo = { 'uptime': 5 };".to_string()).is_err(),
        "missing figures must not default to zero"
    );
}

#[test]
fn later_lines_override_earlier_ones() {
    let t = MemClient::parse_body("A: 1 kB\nA: 2 kB".to_string()).unwrap();
    assert_eq!(t, vec![("A".to_string(), 2 * 1024)]);
}

#[test]
fn mem_entries_sorted_whatever_the_input_order() {
    let a = MemClient::parse_body("B: 2 kB\nA: 1 kB".to_string()).unwrap();
    let b = MemClient::parse_body("A: 1 kB\nB: 2 kB".to_string()).unwrap();
    assert_eq!(a, b);
    assert_eq!(a, vec![("A".to_string(), 1024), ("B".to_string(), 2 * 1024)]);
}

#[test]
fn bandwidth_round_trip() {
    let table = vec![
        ("br0".to_string(), BandwidthMeasurement { rx: 3604816765, tx: 1113957464 }),
        ("eth0".to_string(), BandwidthMeasurement { rx: 2876663457, tx: 1781272596 }),
        ("vlan1".to_string(), BandwidthMeasurement { rx: 0, tx: 18446744073709551615 }),
    ];
    let wire = render_netdev(&table);
    assert_eq!(
        wire,
        "netdev={'br0':{rx:0xd6dd237d,tx:0x4265a458},'eth0':{rx:0xab7666a1,tx:0x6a2c1014},'vlan1':{rx:0x0,tx:0xffffffffffffffff}};"
    );
    assert_eq!(BandwidthClient::parse_body(wire).unwrap(), table);
}

#[test]
fn merged_document_isolates_a_failing_collector() {
    let load_series = LoadClient::raw_to_prom(
        LoadClient::parse_body("0.01 0.02 0.03 2/38 23618".to_string()).unwrap(),
    );
    let outcomes = vec![
        ScrapeOutcome {
            name: "load".to_string(),
            duration: MetricValue::from_millis(20),
            result: Ok(load_series),
        },
        ScrapeOutcome {
            name: "cpu".to_string(),
            duration: MetricValue::from_millis(1500),
            result: Err(CollectorError::Transport(TransportError {
                message: "connection refused".to_string(),
            })),
        },
    ];
    let doc = merge_scrape_outcomes(outcomes).to_prom();
    assert_eq!(
        doc,
        "# HELP node_load1 1m load average\n# TYPE node_load1 gauge\nnode_load1{} 0.01\n\
         # HELP node_load5 5m load average\n# TYPE node_load5 gauge\nnode_load5{} 0.02\n\
         # HELP node_load15 15m load average\n# TYPE node_load15 gauge\nnode_load15{} 0.03\n\
         # HELP node_processes_pids Number of PIDs\n# TYPE node_processes_pids gauge\nnode_processes_pids{} 38\n\
         # HELP node_scrape_collector_duration_seconds node_exporter: Duration of a collector scrape\n\
         # TYPE node_scrape_collector_duration_seconds gauge\n\
         node_scrape_collector_duration_seconds{collector=\"load\"} 0.02\n\
         node_scrape_collector_duration_seconds{collector=\"cpu\"} 1.5\n\
         # HELP node_scrape_collector_success Whether a collector succeeded\n\
         # TYPE node_scrape_collector_success gauge\n\
         node_scrape_collector_success{collector=\"load\"} 1\n\
         node_scrape_collector_success{collector=\"cpu\"} 0"
    );
}

#[test]
fn merge_of_no_outcomes_still_renders() {
    let doc = merge_scrape_outcomes(Vec::new()).to_prom();
    assert_eq!(
        doc,
        "# HELP node_scrape_collector_duration_seconds node_exporter: Duration of a collector scrape\n\
         # TYPE node_scrape_collector_duration_seconds gauge\n\
         \n\
         # HELP node_scrape_collector_success Whether a collector succeeded\n\
         # TYPE node_scrape_collector_success gauge\n"
    );
}

#[test]
fn request_fields_put_the_token_first() {
    let client = TomatoClientInternal::new(
        "192.168.1.1".to_string(),
        "admin".to_string(),
        "secret".to_string(),
        "TID_X".to_string(),
    );
    assert_eq!(client.hostname, "http://192.168.1.1");
    let fields = client.request_fields(run_command_fields("cat /proc/stat".to_string()));
    assert_eq!(
        fields,
        vec![
            ("_http_id".to_string(), "TID_X".to_string()),
            ("action".to_string(), "execute".to_string()),
            ("nojs".to_string(), "1".to_string()),
            ("working_dir".to_string(), "/www".to_string()),
            ("command".to_string(), "cat /proc/stat".to_string()),
        ]
    );
    assert_eq!(
        client.request_fields(netdev_fields()),
        vec![
            ("_http_id".to_string(), "TID_X".to_string()),
            ("exec".to_string(), "netdev".to_string()),
        ]
    );
}

#[test]
fn family_names_are_stable() {
    let client = TomatoClientInternal::new(
        "10.0.0.1".to_string(),
        "admin".to_string(),
        "pw".to_string(),
        "TID".to_string(),
    );
    assert_eq!(CpuClient::new(client.clone()).get_name(), "cpu");
    assert_eq!(LoadClient::new(client.clone()).get_name(), "load");
    assert_eq!(TimeClient::new(client.clone()).get_name(), "time");
    assert_eq!(UnameClient::new(client.clone()).get_name(), "uname");
    assert_eq!(NetworkClient::new(client).get_name(), "network");
}

#[test]
fn cpu_optional_columns_absent_when_not_reported() {
    let t = CpuClient::parse_body("cpu0 1 2 3 4".to_string()).unwrap();
    assert_eq!(t.len(), 1);
    let stats = t[0].1;
    assert_eq!(stats.iowait, None);
    assert_eq!(stats.irq, None);
    assert_eq!(stats.softirq, None);
    assert_eq!(stats.steal, None);
    let t6 = CpuClient::parse_body("cpu0 1 2 3 4 5 6".to_string()).unwrap();
    assert_eq!(t6[0].1.iowait, Some(5));
    assert_eq!(t6[0].1.irq, Some(6));
    assert_eq!(t6[0].1.softirq, None);
    let samples_4 = CpuClient::raw_to_prom(t);
    assert_eq!(samples_4[0].samples.len(), 4);
    let samples_6 = CpuClient::raw_to_prom(t6);
    assert_eq!(samples_6[0].samples.len(), 6);
}

#[test]
fn zero_byte_directions_are_suppressed_only_for_that_direction() {
    let body = "  one:10 0 0 0 0 0 0 0 0 0 0 0 0 0 0 0\n  two:0 0 0 0 0 0 0 0 7 0 0 0 0 0 0 0";
    let metrics = NetworkClient::raw_to_prom(NetworkClient::parse_body(body.to_string()).unwrap());
    assert_eq!(
        metrics[0].samples,
        vec![PromSample::new(
            vec![PromLabel::new("device", "one".to_string())],
            MetricValue::from_int(10),
            None,
        )]
    );
    assert_eq!(
        metrics[1].samples,
        vec![PromSample::new(
            vec![PromLabel::new("device", "two".to_string())],
            MetricValue::from_int(7),
            None,
        )]
    );
    assert_eq!(metrics[0].typ, PromMetricType::Counter);
}

#[test]
fn meminfo_value_overflow_fails_loudly() {
    // 2^64 kilobytes does not fit once scaled to bytes
    let body = "Huge: 18446744073709551615 kB";
    assert!(MemClient::parse_body(body.to_string()).is_err());
}

#[test]
fn document_is_deterministic_for_identical_input() {
    let body = "cpu0 162283 0 230563 168024492 2376 293698 4732481 0".to_string();
    let once = CpuClient::raw_to_prom(CpuClient::parse_body(body.clone()).unwrap());
    let twice = CpuClient::raw_to_prom(CpuClient::parse_body(body).unwrap());
    let a: Vec<String> = once.iter().map(|m| m.to_prom()).collect();
    let b: Vec<String> = twice.iter().map(|m| m.to_prom()).collect();
    assert_eq!(a, b);
}

#[test]
fn uname_info_metric_shape() {
    let u = UnameClient::parse_body(
        "Linux router 2.6.22 #1 SMP extra words mips Tomato".to_string(),
    )
    .unwrap();
    assert_eq!(u.version, "#1 SMP extra words");
    let m: Vec<PromMetric> = UnameClient::raw_to_prom(u);
    assert_eq!(m[0].name, "node_uname_info");
    assert_eq!(m[0].samples[0].value, MetricValue::from_int(1));
}
