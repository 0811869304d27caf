//! Parser behaviour on the device's recorded responses.

use tomato_exporter::bandwidth::{BandwidthClient, BandwidthMeasurement};
use tomato_exporter::cpu::{CpuClient, CpuStats};
use tomato_exporter::load::{LoadClient, LoadInfo};
use tomato_exporter::mem::MemClient;
use tomato_exporter::network::{NetworkClient, NetworkInterface};
use tomato_exporter::time::{TimeClient, Times};
use tomato_exporter::uname::{UnameClient, Uname};
use tomato_exporter::value::MetricValue;

#[test]
fn cpu_test_parse_body() {
    assert_eq!(
        CpuClient::parse_body(
            "cpu  162283 0 230563 168024492 2376 293698 4732481 0
cpu0 162283 0 230563 168024492 2376 293698 4732481 0
intr 846816216 0 0 0 203721765 315990752 153649036 8769 173445893 1 0 0 0 0 0 0 0 0 0 0 0 0 0
0 0 0 0 0 0 0 0 0 0 0 0 0 0 0 0 0 0 0 0 0 0 0 0 0 0 0 0 0 0 0 0 0 0 0 0 0 0 0 0 0 0 0 0 0 0 0
0 0 0 0 0 0 0 0 0 0 0 0 0 0 0 0 0 0 0 0 0 0 0 0 0 0 0 0 0 0 0 0 0 0 0 0 0 0 0 0 0 0 0 0 0 0 0
0 0 0 0 0 0 0 0 0 0 0 0
ctxt 15743031
btime 1596584154
processes 391097
procs_running 2
procs_blocked 0"
                .to_string()
        )
        .unwrap(),
        vec![(
            0u8,
            CpuStats {
                user: 162283,
                nice: 0,
                system: 230563,
                idle: 168024492,
                iowait: Some(2376),
                irq: Some(293698),
                softirq: Some(4732481),
                steal: Some(0),
            }
        )]
    )
}

#[test]
fn load_test_parse_body() {
    let body = "0.01 0.02 0.03 2/38 23618";
    assert_eq!(
        LoadClient::parse_body(body.to_string()).unwrap(),
        LoadInfo {
            load_1m: MetricValue { units: 0, frac: 1, scale: 2 },
            load_5m: MetricValue { units: 0, frac: 2, scale: 2 },
            load_15m: MetricValue { units: 0, frac: 3, scale: 2 },
            total_procs: 38u32,
        }
    )
}

#[test]
fn mem_test_parse_body() {
    let body = "MemTotal:       255700 kB
MemFree:        221240 kB
Buffers:          5312 kB
Cached:          15428 kB
SwapCached:          0 kB
Active:           9976 kB
Inactive:        13284 kB
HighTotal:      131072 kB
HighFree:       109608 kB
LowTotal:       124628 kB
LowFree:        111632 kB
SwapTotal:           0 kB
SwapFree:            0 kB
Dirty:               0 kB
Writeback:           0 kB
AnonPages:        2524 kB
Mapped:           1900 kB
Slab:             6464 kB
SReclaimable:      988 kB
SUnreclaim:       5476 kB
PageTables:        296 kB
NFS_Unstable:        0 kB
Bounce:              0 kB
WritebackTmp:        0 kB
CommitLimit:    255700 kB
Committed_AS:     5908 kB
VmallocTotal:  1015800 kB
VmallocUsed:      3944 kB
VmallocChunk:  1008828 kB";
    assert_eq!(
        MemClient::parse_body(body.to_string()).unwrap(),
        vec![
            ("Active".to_string(), 9976 * 1024),
            ("AnonPages".to_string(), 2524 * 1024),
            ("Bounce".to_string(), 0 * 1024),
            ("Buffers".to_string(), 5312 * 1024),
            ("Cached".to_string(), 15428 * 1024),
            ("CommitLimit".to_string(), 255700 * 1024),
            ("Committed_AS".to_string(), 5908 * 1024),
            ("Dirty".to_string(), 0 * 1024),
            ("HighFree".to_string(), 109608 * 1024),
            ("HighTotal".to_string(), 131072 * 1024),
            ("Inactive".to_string(), 13284 * 1024),
            ("LowFree".to_string(), 111632 * 1024),
            ("LowTotal".to_string(), 124628 * 1024),
            ("Mapped".to_string(), 1900 * 1024),
            ("MemFree".to_string(), 221240 * 1024),
            ("MemTotal".to_string(), 255700 * 1024),
            ("NFS_Unstable".to_string(), 0 * 1024),
            ("PageTables".to_string(), 296 * 1024),
            ("SReclaimable".to_string(), 988 * 1024),
            ("SUnreclaim".to_string(), 5476 * 1024),
            ("Slab".to_string(), 6464 * 1024),
            ("SwapCached".to_string(), 0 * 1024),
            ("SwapFree".to_string(), 0 * 1024),
            ("SwapTotal".to_string(), 0 * 1024),
            ("VmallocChunk".to_string(), 1008828 * 1024),
            ("VmallocTotal".to_string(), 1015800 * 1024),
            ("VmallocUsed".to_string(), 3944 * 1024),
            ("Writeback".to_string(), 0 * 1024),
            ("WritebackTmp".to_string(), 0 * 1024),
        ]
    )
}

fn iface(
    name: &str,
    c: [u64; 16],
) -> (String, NetworkInterface) {
    (
        name.to_string(),
        NetworkInterface {
            name: name.to_string(),
            rx_bytes: c[0],
            rx_packets: c[1],
            rx_errs: c[2],
            rx_drop: c[3],
            rx_fifo: c[4],
            rx_frame: c[5],
            rx_compressed: c[6],
            rx_multicast: c[7],
            tx_bytes: c[8],
            tx_packets: c[9],
            tx_errs: c[10],
            tx_drop: c[11],
            tx_fifo: c[12],
            tx_colls: c[13],
            tx_carrier: c[14],
            tx_compressed: c[15],
        },
    )
}

#[test]
fn network_test_parse_body() {
    let body = "Inter-|   Receive                                                |  Transmit
 face |bytes    packets errs drop fifo frame compressed multicast|bytes    packets errs drop  fifo colls carrier compressed
    lo:   20551     116    0    0    0     0          0         0    20551     116    0    0    0     0       0          0
  eth0:1369176365 4125685    9    0    9     9          0         0 264555112  996099    0    0    0     0       0          0
 vlan1:38857540  128668    0    0    0     0          0      2820 114501528  166266    0    0    0     0       0          0
 vlan2:1256056495 3997017    0    0    0     0          0      3265 150053584  829833    0    0    0     0       0          0
  eth1:68892432  621865    0    0    0 139217          0         0 1040059644 3691882    9    0    0     0       0          0
  eth2:52613707  193305    0    0    0 148551          0         0 200476396  281861    7    0 0     0       0          0
   br0:141360332  899095    0    0    0     0          0     12878 1303031977 4051507    0    0    0     0       0          0
  imq0:       0       0    0    0    0     0          0         0        0       0    0    0    0     0       0          0
  imq1:       0       0    0    0    0     0          0         0        0       0    0    0    0     0       0          0";
    assert_eq!(
        NetworkClient::parse_body(body.to_string()).unwrap(),
        vec![
            iface("br0", [141360332, 899095, 0, 0, 0, 0, 0, 12878, 1303031977, 4051507, 0, 0, 0, 0, 0, 0]),
            iface("eth0", [1369176365, 4125685, 9, 0, 9, 9, 0, 0, 264555112, 996099, 0, 0, 0, 0, 0, 0]),
            iface("eth1", [68892432, 621865, 0, 0, 0, 139217, 0, 0, 1040059644, 3691882, 9, 0, 0, 0, 0, 0]),
            iface("eth2", [52613707, 193305, 0, 0, 0, 148551, 0, 0, 200476396, 281861, 7, 0, 0, 0, 0, 0]),
            iface("imq0", [0, 0, 0, 0, 0, 0, 0, 0, 0, 0, 0, 0, 0, 0, 0, 0]),
            iface("imq1", [0, 0, 0, 0, 0, 0, 0, 0, 0, 0, 0, 0, 0, 0, 0, 0]),
            iface("lo", [20551, 116, 0, 0, 0, 0, 0, 0, 20551, 116, 0, 0, 0, 0, 0, 0]),
            iface("vlan1", [38857540, 128668, 0, 0, 0, 0, 0, 2820, 114501528, 166266, 0, 0, 0, 0, 0, 0]),
            iface("vlan2", [1256056495, 3997017, 0, 0, 0, 0, 0, 3265, 150053584, 829833, 0, 0, 0, 0, 0, 0]),
        ]
    )
}

#[test]
fn time_test_parse_body() {
    let body = "1598394934
1810779.30 1804583.20";
    assert_eq!(
        TimeClient::parse_body(body.to_string()).unwrap(),
        Times {
            curr_timestamp: 1598394934u64,
            up_timestamp: 1598394934u64 - 1810779u64,
        }
    )
}

#[test]
fn uname_test_parse_body() {
    assert_eq!(
        UnameClient::parse_body(
            "Linux karabor 2.6.22.19 #31 Thu Jul 16 01:30:27 CEST 2020 mips Tomato".to_string()
        )
        .unwrap(),
        Uname {
            domainname: "(none)".to_string(),
            machine: "mips".to_string(),
            nodename: "karabor".to_string(),
            release: "2.6.22.19".to_string(),
            sysname: "Linux".to_string(),
            version: "#31 Thu Jul 16 01:30:27 CEST 2020".to_string(),
        }
    )
}

#[test]
fn bandwidth_test_parse_body() {
    let body = "netdev={ 'eth0':{rx:0xab7666a1,tx:0x6a2c1014},'vlan1':{rx:0x4c4d97a5,tx:0x839c8539},'vlan2':{rx:0x2339061e,tx:0xe693c2e1},'eth1':{rx:0x41122421,tx:0xd273ff5},'eth2':{rx:0x5ed3a58a,tx:0xe03baf1e},'br0':{rx:0xd6dd237d,tx:0x4265a458}};";
    assert_eq!(
        BandwidthClient::parse_body(body.to_string()).unwrap(),
        vec![
            ("br0".to_string(), BandwidthMeasurement { rx: 3604816765, tx: 1113957464 }),
            ("eth0".to_string(), BandwidthMeasurement { rx: 2876663457, tx: 1781272596 }),
            ("eth1".to_string(), BandwidthMeasurement { rx: 1091707937, tx: 220676085 }),
            ("eth2".to_string(), BandwidthMeasurement { rx: 1590928778, tx: 3762007838 }),
            ("vlan1".to_string(), BandwidthMeasurement { rx: 1280153509, tx: 2208073017 }),
            ("vlan2".to_string(), BandwidthMeasurement { rx: 590939678, tx: 3868443361 }),
        ]
    )
}
