use gaffer::endpoint::{Address, Endpoint};

fn v6(groups: [u128; 8]) -> Address {
    let mut bits: u128 = 0;
    for group in groups {
        bits = bits << 16 | group;
    }
    Address::V6(bits)
}

#[test]
fn ipv4_is_four_decimal_octets() {
    assert_eq!(Address::V4(0).to_text(), "0.0.0.0");
    assert_eq!(Address::V4(0xC0A8_013F).to_text(), "192.168.1.63");
    assert_eq!(Address::V4(u32::MAX).to_text(), "255.255.255.255");
}

#[test]
fn ipv6_compresses_its_first_longest_run_of_zeros() {
    assert_eq!(Address::V6(0).to_text(), "::");
    assert_eq!(Address::V6(1).to_text(), "::1");
    assert_eq!(v6([0xfe80, 0, 0, 0, 0, 0, 0, 0]).to_text(), "fe80::");
    assert_eq!(v6([0x2001, 0xdb8, 0, 0, 1, 0, 0, 1]).to_text(), "2001:db8::1:0:0:1");
    assert_eq!(v6([0x2001, 0, 0, 1, 0, 0, 0, 1]).to_text(), "2001:0:0:1::1");
    assert_eq!(v6([1, 0, 2, 3, 4, 5, 6, 7]).to_text(), "1:0:2:3:4:5:6:7");
    assert_eq!(v6([0xABCD, 1, 2, 3, 4, 5, 6, 0xEF01]).to_text(), "abcd:1:2:3:4:5:6:ef01");
}

#[test]
fn an_ipv4_mapped_address_shows_its_octets() {
    assert_eq!(v6([0, 0, 0, 0, 0, 0xffff, 0xC000, 0x020A]).to_text(), "::ffff:192.0.2.10");
}

#[test]
fn addresses_read_as_the_standard_library_writes_them() {
    let samples: [u128; 9] = [
        0,
        1,
        0xffff_0000_0000,
        0xffff_c000_020a,
        u128::MAX,
        0x2001_0db8_0000_0000_0000_0000_0000_0001,
        0xfe80_0000_0000_0000_0000_0000_0000_0000,
        0x0001_0000_0000_0002_0000_0000_0000_0003,
        0x0000_0000_0000_0001_0000_0000_0000_0000,
    ];
    for bits in samples {
        assert_eq!(Address::V6(bits).to_text(), core::net::Ipv6Addr::from(bits).to_string());
    }
    for bits in [0u32, 1, 0x0102_0304, u32::MAX] {
        assert_eq!(Address::V4(bits).to_text(), core::net::Ipv4Addr::from(bits).to_string());
    }
}

#[test]
fn ipv4_sorts_before_ipv6_and_each_by_value() {
    assert!(Address::V4(u32::MAX).is_before(Address::V6(0)));
    assert!(!Address::V6(0).is_before(Address::V4(u32::MAX)));
    assert!(Address::V4(1).is_before(Address::V4(2)));
    assert!(!Address::V4(2).is_before(Address::V4(2)));
    assert!(Address::V6(1).is_before(Address::V6(2)));
}

#[test]
fn a_url_ends_in_the_port() {
    let endpoint = Endpoint { addr: Address::V4(0x7F00_0001), port: 65535 };
    assert_eq!(endpoint.base_url(), "http://127.0.0.1:65535");
    let zero = Endpoint { addr: Address::V6(1), port: 0 };
    assert_eq!(zero.base_url(), "http://[::1]:0");
}
