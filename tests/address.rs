use netscan::address::{InputError, IpAddr};

fn parse(s: &str) -> Result<IpAddr, InputError> {
    IpAddr::from(s.to_string())
}

#[test]
fn single_address_value() {
    let ip = parse("10.0.0.1").unwrap();
    assert_eq!(ip.addr, 167772161);
    assert_eq!(ip.mask, None);
}

#[test]
fn explicit_mask() {
    let ip = parse("10.0.0.0/24").unwrap();
    assert_eq!(ip.addr, 167772160);
    assert_eq!(ip.mask, Some(24));
}

#[test]
fn implicit_mask_from_omitted_octets() {
    let ip = parse("10.0").unwrap_err();
    assert_eq!(ip, InputError::FieldCount);
    let ip = parse("10.0..").unwrap();
    assert_eq!(ip.mask, Some(16));
    assert_eq!(ip.addr, 10 << 24);
}

#[test]
fn first_omission_wins() {
    let ip = parse("10...").unwrap();
    assert_eq!(ip.mask, Some(8));
    let ip = parse(".1.2.3").unwrap();
    assert_eq!(ip.mask, Some(0));
    assert_eq!(ip.addr, 0x00010203);
    let ip = parse("1.2.3.").unwrap();
    assert_eq!(ip.mask, Some(24));
}

#[test]
fn explicit_mask_wins_over_implicit() {
    let ip = parse("10.0../30").unwrap();
    assert_eq!(ip.mask, Some(30));
}

#[test]
fn multiple_masks_rejected() {
    assert_eq!(parse("1.2.3.4/5/6"), Err(InputError::MultipleMasks));
}

#[test]
fn wrong_field_count_rejected() {
    assert_eq!(parse("1.2.3"), Err(InputError::FieldCount));
    assert_eq!(parse("1.2.3.4.5"), Err(InputError::FieldCount));
    assert_eq!(parse(""), Err(InputError::FieldCount));
}

#[test]
fn bad_masks_rejected() {
    assert_eq!(parse("1.2.3.4/x"), Err(InputError::InvalidMask));
    assert_eq!(parse("1.2.3.4/33"), Err(InputError::InvalidMask));
    assert_eq!(parse("1.2.3.4/"), Err(InputError::InvalidMask));
    assert_eq!(parse("1.2.3.4/300"), Err(InputError::InvalidMask));
    assert_eq!(parse("1.2.3.4/+8").unwrap().mask, Some(8));
    assert_eq!(parse("1.2.3.4/0").unwrap().mask, Some(0));
    assert_eq!(parse("1.2.3.4/32").unwrap().mask, Some(32));
}

#[test]
fn malformed_octets_read_as_zero() {
    let ip = parse("1.x.256.4").unwrap();
    assert_eq!(ip.addr, 0x01000004);
    assert_eq!(ip.mask, None);
    let ip = parse("001.+2.255.0").unwrap();
    assert_eq!(ip.addr, 0x0102ff00);
}

#[test]
fn format_octets() {
    assert_eq!(IpAddr::new(167772161).to_string(), "10.0.0.1");
    assert_eq!(IpAddr::new(0).to_string(), "0.0.0.0");
    assert_eq!(IpAddr::new(u32::MAX).to_string(), "255.255.255.255");
    assert_eq!(IpAddr::new(0xc0a8010a).to_string(), "192.168.1.10");
}

#[test]
fn new_has_no_mask() {
    let ip = IpAddr::new(5);
    assert_eq!(ip.addr, 5);
    assert_eq!(ip.mask, None);
}

#[test]
fn round_trip_dotted_quad() {
    for text in ["10.0.0.1", "0.0.0.0", "255.255.255.255", "192.168.100.7", "1.22.133.4"] {
        let ip = parse(text).unwrap();
        assert_eq!(ip.mask, None);
        assert_eq!(ip.to_string(), text);
    }
}
