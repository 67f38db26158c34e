use ipcal::address::{network_mask, IPAddr};
use ipcal::parse::{parse_arg_to_ip, ParseError};

#[test]
fn parse_string_to_ip() {
    let s1 = "192.168.1.0/24";
    let ip1 = IPAddr { addr: [192, 168, 1, 0], prefix: 24 };
    assert_eq!(parse_arg_to_ip(&s1.to_string()), Ok(ip1));

    let s2 = "10.0.1.0/20";
    let ip2 = IPAddr { addr: [10, 0, 1, 0], prefix: 20 };
    assert_eq!(parse_arg_to_ip(&s2.to_string()), Ok(ip2));
}

#[test]
fn generate_ip_string() {
    let ip1 = IPAddr {
        addr: [192, 168, 1, 0],
        prefix: 24,
    };
    assert_eq!(ip1.get_network_addr(), "192.168.1.0");
    assert_eq!(ip1.get_hosts_first_addr(), Some("192.168.1.1".to_string()));
    assert_eq!(ip1.get_hosts_last_addr(), Some("192.168.1.254".to_string()));
    assert_eq!(ip1.get_hosts_addr_num(), 254);

    let ip2 = IPAddr {
        addr: [10, 0, 40, 1],
        prefix: 19,
    };
    assert_eq!(ip2.get_network_addr(), "10.0.32.0");
    assert_eq!(ip2.get_hosts_first_addr(), Some("10.0.32.1".to_string()));
    assert_eq!(ip2.get_hosts_last_addr(), Some("10.0.63.254".to_string()));
    assert_eq!(ip2.get_hosts_addr_num(), 8190);
}

#[test]
fn class_c_block_broadcast() {
    let ip = parse_arg_to_ip(&"192.168.1.0/24".to_string()).unwrap();
    assert_eq!(ip.get_broadcast_addr(), "192.168.1.255");
}

#[test]
fn host_bits_in_input_are_cleared() {
    let ip = parse_arg_to_ip(&"10.0.40.1/19".to_string()).unwrap();
    assert_eq!(ip.get_network_addr(), "10.0.32.0");
    assert_eq!(ip.get_hosts_first_addr(), Some("10.0.32.1".to_string()));
    assert_eq!(ip.get_hosts_last_addr(), Some("10.0.63.254".to_string()));
    assert_eq!(ip.get_broadcast_addr(), "10.0.63.255");
    assert_eq!(ip.get_hosts_addr_num(), 8190);
}

#[test]
fn missing_prefix_is_malformed_input() {
    assert_eq!(parse_arg_to_ip(&"192.168.1.0".to_string()), Err(ParseError::MalformedInput));
}

#[test]
fn two_slashes_are_malformed_input() {
    assert_eq!(parse_arg_to_ip(&"192.168.1.0/24/8".to_string()), Err(ParseError::MalformedInput));
}

#[test]
fn octet_256_is_out_of_range() {
    assert_eq!(parse_arg_to_ip(&"192.168.1.256/24".to_string()), Err(ParseError::OctetOutOfRange));
}

#[test]
fn octet_not_a_number_is_out_of_range() {
    assert_eq!(parse_arg_to_ip(&"192.x.1.2/24".to_string()), Err(ParseError::OctetOutOfRange));
    assert_eq!(parse_arg_to_ip(&"192..1.2/24".to_string()), Err(ParseError::OctetOutOfRange));
}

#[test]
fn octet_255_is_accepted() {
    let ip = parse_arg_to_ip(&"255.255.255.255/32".to_string()).unwrap();
    assert_eq!(ip, IPAddr { addr: [255, 255, 255, 255], prefix: 32 });
}

#[test]
fn prefix_33_is_out_of_range() {
    assert_eq!(parse_arg_to_ip(&"192.168.1.0/33".to_string()), Err(ParseError::PrefixOutOfRange));
}

#[test]
fn prefix_not_a_number_is_out_of_range() {
    assert_eq!(parse_arg_to_ip(&"192.168.1.0/abc".to_string()), Err(ParseError::PrefixOutOfRange));
    assert_eq!(parse_arg_to_ip(&"192.168.1.0/".to_string()), Err(ParseError::PrefixOutOfRange));
    assert_eq!(parse_arg_to_ip(&"192.168.1.0/300".to_string()), Err(ParseError::PrefixOutOfRange));
}

#[test]
fn prefix_checked_before_address() {
    assert_eq!(parse_arg_to_ip(&"1.2.3/40".to_string()), Err(ParseError::PrefixOutOfRange));
}

#[test]
fn three_octets_are_malformed_address() {
    assert_eq!(parse_arg_to_ip(&"192.168.1/24".to_string()), Err(ParseError::MalformedAddress));
    assert_eq!(parse_arg_to_ip(&"1.2.3.4.5/24".to_string()), Err(ParseError::MalformedAddress));
}

#[test]
fn mask_values() {
    assert_eq!(network_mask(0), 0);
    assert_eq!(network_mask(1), 0x8000_0000);
    assert_eq!(network_mask(19), 0xffff_e000);
    assert_eq!(network_mask(24), 0xffff_ff00);
    assert_eq!(network_mask(32), 0xffff_ffff);
}

#[test]
fn compose_is_big_endian() {
    let ip = IPAddr { addr: [10, 20, 30, 40], prefix: 8 };
    assert_eq!(ip.compose(), 0x0a14_1e28);
    assert_eq!(ip.get_humanreadable_addr(ip.compose()), "10.20.30.40");
}

#[test]
fn dotted_quad_round_trip() {
    for text in ["0.0.0.0", "1.22.133.255", "192.168.1.0", "255.255.255.255"] {
        let ip = parse_arg_to_ip(&format!("{}/17", text)).unwrap();
        assert_eq!(ip.get_humanreadable_addr(ip.compose()), text);
    }
}

#[test]
fn network_ignores_host_bits() {
    let a = IPAddr { addr: [172, 16, 5, 9], prefix: 20 };
    let b = IPAddr { addr: [172, 16, 14, 200], prefix: 20 };
    assert_eq!(a.generate_network_addr(), b.generate_network_addr());
    assert_eq!(a.get_network_addr(), "172.16.0.0");
    let n = a.generate_network_addr().to_be_bytes();
    let c = IPAddr { addr: n, prefix: 20 };
    assert_eq!(c.generate_network_addr(), a.generate_network_addr());
}

#[test]
fn block_is_ordered() {
    let ip = IPAddr { addr: [10, 1, 2, 3], prefix: 22 };
    let network = ip.generate_network_addr();
    assert_eq!(ip.get_hosts_first_addr(), Some(ip.get_humanreadable_addr(network + 1)));
    let count = ip.get_hosts_addr_num();
    assert_eq!(count, 1022);
    assert_eq!(ip.get_hosts_last_addr(), Some(ip.get_humanreadable_addr(network + count)));
    assert_eq!(ip.get_broadcast_addr(), ip.get_humanreadable_addr(network + count + 1));
}

#[test]
fn prefix_zero_covers_everything() {
    let ip = IPAddr { addr: [8, 8, 8, 8], prefix: 0 };
    assert_eq!(ip.get_network_addr(), "0.0.0.0");
    assert_eq!(ip.get_hosts_first_addr(), Some("0.0.0.1".to_string()));
    assert_eq!(ip.get_hosts_last_addr(), Some("255.255.255.254".to_string()));
    assert_eq!(ip.get_broadcast_addr(), "255.255.255.255");
    assert_eq!(ip.get_hosts_addr_num(), 4294967294);
}

#[test]
fn prefix_thirty_has_two_hosts() {
    let ip = IPAddr { addr: [10, 0, 0, 7], prefix: 30 };
    assert_eq!(ip.get_network_addr(), "10.0.0.4");
    assert_eq!(ip.get_hosts_first_addr(), Some("10.0.0.5".to_string()));
    assert_eq!(ip.get_hosts_last_addr(), Some("10.0.0.6".to_string()));
    assert_eq!(ip.get_broadcast_addr(), "10.0.0.7");
    assert_eq!(ip.get_hosts_addr_num(), 2);
}

#[test]
fn prefix_thirty_one_has_no_hosts() {
    let ip = IPAddr { addr: [10, 0, 0, 7], prefix: 31 };
    assert_eq!(ip.get_network_addr(), "10.0.0.6");
    assert_eq!(ip.get_hosts_first_addr(), None);
    assert_eq!(ip.get_hosts_last_addr(), None);
    assert_eq!(ip.get_broadcast_addr(), "10.0.0.7");
    assert_eq!(ip.get_hosts_addr_num(), 0);
}

#[test]
fn prefix_thirty_two_is_one_address() {
    let ip = IPAddr { addr: [255, 255, 255, 255], prefix: 32 };
    assert_eq!(ip.get_network_addr(), "255.255.255.255");
    assert_eq!(ip.get_hosts_first_addr(), None);
    assert_eq!(ip.get_hosts_last_addr(), None);
    assert_eq!(ip.get_broadcast_addr(), "255.255.255.255");
    assert_eq!(ip.get_hosts_addr_num(), 0);
}
