use abyss::address::{decimal, is_private_ip, protocol_code, service_code, split_address};
use abyss::export::{escape_csv, get_database_path};

#[test]
fn private_ranges_are_private() {
    for ip in [
        "10.0.0.1",
        "10.255.255.255",
        "172.16.0.1",
        "172.31.255.1",
        "192.168.1.20",
        "127.0.0.1",
        "0.0.0.0",
        "::1",
        "::",
        "fe80::1",
        "fc00::5",
        "fd12:3456::1",
        "*",
        "::ffff:10.1.2.3",
        "::ffff:192.168.0.9",
        "::ffff:127.0.0.1",
    ] {
        assert!(is_private_ip(ip), "{ip}");
    }
}

#[test]
fn public_addresses_are_not_private() {
    for ip in [
        "8.8.8.8",
        "172.15.0.1",
        "172.32.0.1",
        "192.169.0.1",
        "11.0.0.1",
        "2001:4860:4860::8888",
        "::ffff:8.8.8.8",
        "1.1.1.1",
    ] {
        assert!(!is_private_ip(ip), "{ip}");
    }
}

#[test]
fn second_octet_bounds_of_the_172_range() {
    assert!(is_private_ip("172.16.1.1"));
    assert!(is_private_ip("172.31.1.1"));
    assert!(!is_private_ip("172.300.1.1"));
    assert!(!is_private_ip("172.x.1.1"));
    assert!(!is_private_ip("172."));
}

#[test]
fn split_ipv4_with_port() {
    assert_eq!(split_address("93.184.216.34:443"), ("93.184.216.34".to_string(), 443));
}

#[test]
fn split_bracketed_ipv6() {
    assert_eq!(split_address("[2001:db8::1]:8443"), ("2001:db8::1".to_string(), 8443));
    assert_eq!(split_address("[::1]"), ("[::1]".to_string(), 0));
    assert_eq!(split_address("[::1]:x"), ("[::1]:x".to_string(), 0));
    assert_eq!(split_address("[::1]:"), ("[::1]:".to_string(), 0));
    assert_eq!(split_address("[::1"), ("[::1".to_string(), 0));
}

#[test]
fn split_bare_ipv6() {
    assert_eq!(split_address("2001:db8::1:443"), ("2001:db8::1".to_string(), 443));
    assert_eq!(split_address("2001:db8::zz"), ("2001:db8::zz".to_string(), 0));
    assert_eq!(split_address("2001:db8::99999"), ("2001:db8::99999".to_string(), 0));
}

#[test]
fn split_missing_or_bad_port() {
    assert_eq!(split_address("1.2.3.4"), ("1.2.3.4".to_string(), 0));
    assert_eq!(split_address("1.2.3.4:abc"), ("1.2.3.4:abc".to_string(), 0));
    assert_eq!(split_address("1.2.3.4:70000"), ("1.2.3.4:70000".to_string(), 0));
    assert_eq!(split_address("1.2.3.4:"), ("1.2.3.4:".to_string(), 0));
    assert_eq!(split_address("*:*"), ("*:*".to_string(), 0));
    assert_eq!(split_address(""), ("".to_string(), 0));
}

#[test]
fn split_round_trips_formatted_addresses() {
    for (ip, port) in [("8.8.4.4", 53u16), ("fe80::1", 65535), ("2606:4700::1111", 0)] {
        let bare = format!("{ip}:{port}");
        assert_eq!(split_address(&bare), (ip.to_string(), port));
        let bracketed = format!("[{ip}]:{port}");
        assert_eq!(split_address(&bracketed), (ip.to_string(), port));
    }
}

#[test]
fn protocol_codes() {
    assert_eq!(protocol_code("tcp"), 1);
    assert_eq!(protocol_code("udp"), 2);
    assert_eq!(protocol_code("icmp"), 3);
    assert_eq!(protocol_code("TCP"), 0);
    assert_eq!(protocol_code(""), 0);
}

#[test]
fn service_codes() {
    assert_eq!(service_code(21), Some(1));
    assert_eq!(service_code(443), Some(8));
    assert_eq!(service_code(27017), Some(21));
    assert_eq!(service_code(9090), Some(22));
    assert_eq!(service_code(12345), None);
}

#[test]
fn decimal_text() {
    assert_eq!(decimal(0), "0");
    assert_eq!(decimal(7), "7");
    assert_eq!(decimal(65535), "65535");
    assert_eq!(decimal(1000), "1000");
}

#[test]
fn csv_fields() {
    assert_eq!(escape_csv("plain"), "plain");
    assert_eq!(escape_csv("a,b"), "\"a,b\"");
    assert_eq!(escape_csv("say \"hi\""), "\"say \"\"hi\"\"\"");
    assert_eq!(escape_csv("line\nbreak"), "\"line\nbreak\"");
    assert_eq!(escape_csv(""), "");
}

#[test]
fn database_path_text() {
    assert_eq!(get_database_path("/var/lib/abyss/abyss.db"), "/var/lib/abyss/abyss.db");
}

use abyss::export::downsample_positions;

#[test]
fn downsampling_positions() {
    assert_eq!(downsample_positions(3, 5), vec![0, 1, 2]);
    assert_eq!(downsample_positions(10, 4), vec![0, 2, 5, 7, 9]);
    assert_eq!(downsample_positions(4, 0), vec![3]);
    assert!(downsample_positions(0, 0).is_empty());
}

#[test]
fn whole_link_local_range_is_private() {
    assert!(is_private_ip("fe90::1"));
    assert!(is_private_ip("febf:1::2"));
    assert!(!is_private_ip("fec0::1"));
    assert!(!is_private_ip("fe8::1"));
}

#[test]
fn dotted_quads_private_exactly_on_listed_ranges() {
    for a in 0..=255u16 {
        for b in [0u16, 1, 15, 16, 31, 32, 167, 168, 169, 255] {
            let ip = format!("{a}.{b}.7.9");
            let expected = a == 10 || a == 127 || a == 0 || (a == 172 && (16..=31).contains(&b)) || (a == 192 && b == 168);
            assert_eq!(is_private_ip(&ip), expected, "{ip}");
        }
    }
}
