//! Projector behaviour on concrete measurements.

use tomato_exporter::bandwidth::{BandwidthClient, BandwidthMeasurement};
use tomato_exporter::cpu::{CpuClient, CpuStats};
use tomato_exporter::load::{LoadClient, LoadInfo};
use tomato_exporter::mem::MemClient;
use tomato_exporter::network::{NetworkClient, NetworkInterface};
use tomato_exporter::prometheus::{PromLabel, PromMetric, PromMetricType, PromSample};
use tomato_exporter::time::{TimeClient, Times};
use tomato_exporter::uname::{Uname, UnameClient};
use tomato_exporter::value::MetricValue;

fn labelled(pairs: &[(&str, &str)], v: MetricValue) -> PromSample {
    PromSample::new(
        pairs.iter().map(|(n, val)| PromLabel::new(n, val.to_string())).collect(),
        v,
        None,
    )
}

fn bare(v: MetricValue) -> PromSample {
    PromSample::new(Vec::new(), v, None)
}

#[test]
fn cpu_test_raw_to_prom() {
    let cpus = vec![(
        0u8,
        CpuStats {
            user: 162283,
            nice: 0,
            system: 230563,
            idle: 168024492,
            iowait: Some(2376),
            irq: Some(293698),
            softirq: Some(4732481),
            steal: Some(0),
        },
    )];
    let modes = [
        ("user", 162283u64),
        ("nice", 0),
        ("system", 230563),
        ("idle", 168024492),
        ("iowait", 2376),
        ("irq", 293698),
        ("softirq", 4732481),
        ("steal", 0),
    ];
    let samples: Vec<PromSample> = modes
        .iter()
        .map(|(mode, j)| labelled(&[("cpu", "0"), ("mode", mode)], MetricValue::from_centi(*j)))
        .collect();
    assert_eq!(
        CpuClient::raw_to_prom(cpus),
        vec![PromMetric::new(
            "node_cpu_seconds_total",
            "Seconds the cpus spent in each mode",
            PromMetricType::Counter,
            samples,
        )]
    )
}

#[test]
fn load_test_raw_to_prom() {
    assert_eq!(
        LoadClient::raw_to_prom(LoadInfo {
            load_1m: MetricValue { units: 0, frac: 1, scale: 2 },
            load_5m: MetricValue { units: 0, frac: 2, scale: 2 },
            load_15m: MetricValue { units: 0, frac: 3, scale: 2 },
            total_procs: 38u32,
        }),
        vec![
            PromMetric::new(
                "node_load1",
                "1m load average",
                PromMetricType::Gauge,
                vec![bare(MetricValue { units: 0, frac: 1, scale: 2 })],
            ),
            PromMetric::new(
                "node_load5",
                "5m load average",
                PromMetricType::Gauge,
                vec![bare(MetricValue { units: 0, frac: 2, scale: 2 })],
            ),
            PromMetric::new(
                "node_load15",
                "15m load average",
                PromMetricType::Gauge,
                vec![bare(MetricValue { units: 0, frac: 3, scale: 2 })],
            ),
            PromMetric::new(
                "node_processes_pids",
                "Number of PIDs",
                PromMetricType::Gauge,
                vec![bare(MetricValue::from_int(38))],
            ),
        ]
    )
}

#[test]
fn mem_test_raw_to_prom() {
    assert_eq!(
        MemClient::raw_to_prom(vec![
            ("Buffers".to_string(), 5312 * 1024),
            ("Cached".to_string(), 15428 * 1024),
            ("MemFree".to_string(), 221240 * 1024),
            ("MemTotal".to_string(), 255700 * 1024),
        ]),
        vec![
            PromMetric::new(
                "node_memory_Buffers_bytes",
                "Memory information field Buffers_bytes",
                PromMetricType::Gauge,
                vec![bare(MetricValue::from_int(5312 * 1024))],
            ),
            PromMetric::new(
                "node_memory_Cached_bytes",
                "Memory information field Cached_bytes",
                PromMetricType::Gauge,
                vec![bare(MetricValue::from_int(15428 * 1024))],
            ),
            PromMetric::new(
                "node_memory_MemFree_bytes",
                "Memory information field MemFree_bytes",
                PromMetricType::Gauge,
                vec![bare(MetricValue::from_int(221240 * 1024))],
            ),
            PromMetric::new(
                "node_memory_MemTotal_bytes",
                "Memory information field MemTotal_bytes",
                PromMetricType::Gauge,
                vec![bare(MetricValue::from_int(255700 * 1024))],
            ),
        ]
    )
}

fn iface(name: &str, rx_bytes: u64, extras: [u64; 7], tx_bytes: u64, tail: [u64; 7]) -> (String, NetworkInterface) {
    (
        name.to_string(),
        NetworkInterface {
            name: name.to_string(),
            rx_bytes,
            rx_packets: extras[0],
            rx_errs: extras[1],
            rx_drop: extras[2],
            rx_fifo: extras[3],
            rx_frame: extras[4],
            rx_compressed: extras[5],
            rx_multicast: extras[6],
            tx_bytes,
            tx_packets: tail[0],
            tx_errs: tail[1],
            tx_drop: tail[2],
            tx_fifo: tail[3],
            tx_colls: tail[4],
            tx_carrier: tail[5],
            tx_compressed: tail[6],
        },
    )
}

#[test]
fn network_test_raw_to_prom() {
    let table = vec![
        iface("br0", 141360332, [899095, 0, 0, 0, 0, 0, 12878], 1303031977, [4051507, 0, 0, 0, 0, 0, 0]),
        iface("eth0", 1369176365, [4125685, 9, 0, 9, 9, 0, 0], 264555112, [996099, 0, 0, 0, 0, 0, 0]),
        iface("eth1", 68892432, [621865, 0, 0, 0, 139217, 0, 0], 1040059644, [3691882, 9, 0, 0, 0, 0, 0]),
        iface("eth2", 52613707, [193305, 0, 0, 0, 148551, 0, 0], 200476396, [281861, 7, 0, 0, 0, 0, 0]),
        iface("imq0", 0, [0, 0, 0, 0, 0, 0, 0], 0, [0, 0, 0, 0, 0, 0, 0]),
        iface("imq1", 0, [0, 0, 0, 0, 0, 0, 0], 0, [0, 0, 0, 0, 0, 0, 0]),
        iface("lo", 20551, [116, 0, 0, 0, 0, 0, 0], 20551, [116, 0, 0, 0, 0, 0, 0]),
        iface("vlan1", 38857540, [128668, 0, 0, 0, 0, 0, 2820], 114501528, [166266, 0, 0, 0, 0, 0, 0]),
        iface("vlan2", 1256056495, [3997017, 0, 0, 0, 0, 0, 3265], 150053584, [829833, 0, 0, 0, 0, 0, 0]),
    ];
    let rx = [
        ("br0", 141360332u64),
        ("eth0", 1369176365),
        ("eth1", 68892432),
        ("eth2", 52613707),
        ("lo", 20551),
        ("vlan1", 38857540),
        ("vlan2", 1256056495),
    ];
    let tx = [
        ("br0", 1303031977u64),
        ("eth0", 264555112),
        ("eth1", 1040059644),
        ("eth2", 200476396),
        ("lo", 20551),
        ("vlan1", 114501528),
        ("vlan2", 150053584),
    ];
    assert_eq!(
        NetworkClient::raw_to_prom(table),
        vec![
            PromMetric::new(
                "node_network_receive_bytes_total",
                "Network device statistic receive_bytes",
                PromMetricType::Counter,
                rx.iter()
                    .map(|(d, v)| labelled(&[("device", d)], MetricValue::from_int(*v)))
                    .collect(),
            ),
            PromMetric::new(
                "node_network_transmit_bytes_total",
                "Network device statistic transmit_bytes",
                PromMetricType::Counter,
                tx.iter()
                    .map(|(d, v)| labelled(&[("device", d)], MetricValue::from_int(*v)))
                    .collect(),
            ),
        ]
    )
}

#[test]
fn time_test_raw_to_prom() {
    assert_eq!(
        TimeClient::raw_to_prom(Times {
            curr_timestamp: 1598394934u64,
            up_timestamp: 1598394934u64 - 1810779u64,
        }),
        vec![
            PromMetric::new(
                "node_time_seconds",
                "System time in seconds since epoch (1970)",
                PromMetricType::Gauge,
                vec![bare(MetricValue::from_int(1598394934))],
            ),
            PromMetric::new(
                "node_boot_time_seconds",
                "Node boot time, in unixtime",
                PromMetricType::Gauge,
                vec![bare(MetricValue::from_int(1598394934 - 1810779))],
            ),
        ]
    )
}

#[test]
fn uname_test_raw_to_prom() {
    assert_eq!(
        UnameClient::raw_to_prom(Uname {
            domainname: "(none)".to_string(),
            machine: "mips".to_string(),
            nodename: "karabor".to_string(),
            release: "2.6.22.19".to_string(),
            sysname: "Linux".to_string(),
            version: "#31 Thu Jul 16 01:30:27 CEST 2020".to_string(),
        }),
        vec![PromMetric::new(
            "node_uname_info",
            "Labeled system information as provided by the uname system call",
            PromMetricType::Gauge,
            vec![labelled(
                &[
                    ("domainname", "(none)"),
                    ("machine", "mips"),
                    ("nodename", "karabor"),
                    ("release", "2.6.22.19"),
                    ("sysname", "Linux"),
                    ("version", "#31 Thu Jul 16 01:30:27 CEST 2020"),
                ],
                MetricValue::from_int(1),
            )],
        )]
    )
}

#[test]
fn bandwidth_test_raw_to_prom() {
    let table = vec![
        ("br0".to_string(), BandwidthMeasurement { rx: 3604816765, tx: 1113957464 }),
        ("eth0".to_string(), BandwidthMeasurement { rx: 2876663457, tx: 1781272596 }),
        ("eth1".to_string(), BandwidthMeasurement { rx: 1091707937, tx: 220676085 }),
        ("eth2".to_string(), BandwidthMeasurement { rx: 1590928778, tx: 3762007838 }),
        ("vlan1".to_string(), BandwidthMeasurement { rx: 1280153509, tx: 2208073017 }),
        ("vlan2".to_string(), BandwidthMeasurement { rx: 590939678, tx: 3868443361 }),
    ];
    let rx = [
        ("br0", 3604816765u64),
        ("eth0", 2876663457),
        ("eth1", 1091707937),
        ("eth2", 1590928778),
        ("vlan1", 1280153509),
        ("vlan2", 590939678),
    ];
    let tx = [
        ("br0", 1113957464u64),
        ("eth0", 1781272596),
        ("eth1", 220676085),
        ("eth2", 3762007838),
        ("vlan1", 2208073017),
        ("vlan2", 3868443361),
    ];
    assert_eq!(
        BandwidthClient::raw_to_prom(table),
        vec![
            PromMetric::new(
                "node_network_receive_bytes_total",
                "Network device statistic receive_bytes",
                PromMetricType::Counter,
                rx.iter()
                    .map(|(d, v)| labelled(&[("device", d)], MetricValue::from_int(*v)))
                    .collect(),
            ),
            PromMetric::new(
                "node_network_transmit_bytes_total",
                "Network device statistic transmit_bytes",
                PromMetricType::Counter,
                tx.iter()
                    .map(|(d, v)| labelled(&[("device", d)], MetricValue::from_int(*v)))
                    .collect(),
            ),
        ]
    )
}
