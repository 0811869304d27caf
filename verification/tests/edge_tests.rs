//! Edge cases: duplicate keys, extreme values, and tolerated format
//! variations in the device's quasi-JSON fragment.

use tomato_exporter::bandwidth::{BandwidthClient, BandwidthMeasurement};
use tomato_exporter::cpu::CpuClient;
use tomato_exporter::network::NetworkClient;
use tomato_exporter::time::TimeClient;

#[test]
fn duplicate_cpu_lines_keep_the_last() {
    let t = CpuClient::parse_body("cpu0 1 2 3 4\ncpu0 5 6 7 8".to_string()).unwrap();
    assert_eq!(t.len(), 1);
    assert_eq!(t[0].1.user, 5);
    assert_eq!(t[0].1.idle, 8);
}

#[test]
fn duplicate_bandwidth_entries_keep_the_last() {
    let body = "netdev={'a':{rx:0x1,tx:0x2},'a':{rx:0x3,tx:0x4}};";
    assert_eq!(
        BandwidthClient::parse_body(body.to_string()).unwrap(),
        vec![("a".to_string(), BandwidthMeasurement { rx: 3, tx: 4 })]
    );
}

#[test]
fn largest_counters_survive() {
    let body = "  big:18446744073709551615 0 0 0 0 0 0 0 18446744073709551615 0 0 0 0 0 0 0";
    let t = NetworkClient::parse_body(body.to_string()).unwrap();
    assert_eq!(t[0].1.rx_bytes, u64::MAX);
    assert_eq!(t[0].1.tx_bytes, u64::MAX);
    // one digit beyond the largest counter is a hard failure, not a wrap
    let over = "  big:18446744073709551616 0 0 0 0 0 0 0 1 0 0 0 0 0 0 0";
    assert!(NetworkClient::parse_body(over.to_string()).is_err());
}

#[test]
fn bandwidth_format_variations_decode() {
    // double quotes, quoted field names, quoted hex literals, uppercase
    // digits, spaces between tokens, no assignment prefix
    let body = "{ \"a\" : { \"rx\" : \"0xAB\" , \"tx\" : 0xcd } }";
    assert_eq!(
        BandwidthClient::parse_body(body.to_string()).unwrap(),
        vec![("a".to_string(), BandwidthMeasurement { rx: 0xab, tx: 0xcd })]
    );
}

#[test]
fn bandwidth_zero_direction_suppressed_only_for_that_direction() {
    let body = "netdev={'one':{rx:0xa,tx:0x0},'two':{rx:0x0,tx:0x7}};";
    let metrics =
        BandwidthClient::raw_to_prom(BandwidthClient::parse_body(body.to_string()).unwrap());
    assert_eq!(metrics[0].name, "node_network_receive_bytes_total");
    assert_eq!(metrics[0].samples.len(), 1);
    assert_eq!(metrics[0].samples[0].labels[0].value, "one");
    assert_eq!(metrics[1].name, "node_network_transmit_bytes_total");
    assert_eq!(metrics[1].samples.len(), 1);
    assert_eq!(metrics[1].samples[0].labels[0].value, "two");
}

#[test]
fn bandwidth_hex_overflow_is_rejected() {
    let body = "netdev={'a':{rx:0x10000000000000000,tx:0x1}};";
    assert!(BandwidthClient::parse_body(body.to_string()).is_err());
}

#[test]
fn uptime_fraction_is_discarded_not_rounded() {
    let t = TimeClient::parse_body("100\n1.99 1.00".to_string()).unwrap();
    assert_eq!(t.up_timestamp, 99);
}
