use subnetcalc::IpAddressBlock;

#[test]
fn lib_correctly_parse_address() {
    assert_eq!(
        "192.168.0.3/24".parse::<IpAddressBlock>().unwrap(),
        IpAddressBlock::new([192, 168, 0, 3], 24)
    );

    assert_eq!(
        "21.123.1.3/32".parse::<IpAddressBlock>().unwrap(),
        IpAddressBlock::new([21, 123, 1, 3], 32)
    );

    assert_eq!(
        "255.255.255.255/09".parse::<IpAddressBlock>().unwrap(),
        IpAddressBlock::new([255, 255, 255, 255], 9)
    );

    assert_eq!(
        "0.0.0.0/0".parse::<IpAddressBlock>().unwrap(),
        IpAddressBlock::new([0, 0, 0, 0], 0)
    );
}

#[test]
fn lib_incorrectly_ip() {
    assert!("21.123.1./32".parse::<IpAddressBlock>().is_err());
    assert!("21/32".parse::<IpAddressBlock>().is_err());
    assert!("300.23.1.23/32".parse::<IpAddressBlock>().is_err());
    assert!("23.23.1.23/40".parse::<IpAddressBlock>().is_err());
    assert!("23.../23".parse::<IpAddressBlock>().is_err());
    assert!("23.13".parse::<IpAddressBlock>().is_err());
    assert!("23.13..13/23".parse::<IpAddressBlock>().is_err());
    assert!("123.+23.1.23/32".parse::<IpAddressBlock>().is_err());
    assert!("213.-23.1.23/32".parse::<IpAddressBlock>().is_err());
}

#[test]
fn subnetting_correctly_parse_address() {
    assert_eq!(
        "192.168.0.3/24".parse::<IpAddressBlock>().unwrap(),
        IpAddressBlock::new([192, 168, 0, 3], 24)
    );

    assert_eq!(
        "21.123.1.3/32".parse::<IpAddressBlock>().unwrap(),
        IpAddressBlock::new([21, 123, 1, 3], 32)
    );

    assert_eq!(
        "255.255.255.255/09".parse::<IpAddressBlock>().unwrap(),
        IpAddressBlock::new([255, 255, 255, 255], 9)
    );

    assert_eq!(
        "0.0.0.0/0".parse::<IpAddressBlock>().unwrap(),
        IpAddressBlock::new([0, 0, 0, 0], 0)
    );
}

#[test]
fn subnetting_incorrectly_ip() {
    assert!("21.123.1./32".parse::<IpAddressBlock>().is_err());
    assert!("21/32".parse::<IpAddressBlock>().is_err());
    assert!("300.23.1.23/32".parse::<IpAddressBlock>().is_err());
    assert!("23.23.1.23/40".parse::<IpAddressBlock>().is_err());
    assert!("23.../23".parse::<IpAddressBlock>().is_err());
    assert!("23.13".parse::<IpAddressBlock>().is_err());
    assert!("23.13..13/23".parse::<IpAddressBlock>().is_err());
    assert!("123.+23.1.23/32".parse::<IpAddressBlock>().is_err());
    assert!("213.-23.1.23/32".parse::<IpAddressBlock>().is_err());
}

#[test]
fn parse_block_matches_from_str() {
    assert_eq!(
        IpAddressBlock::parse_block("10.0.0.0/8").unwrap(),
        IpAddressBlock::new([10, 0, 0, 0], 8)
    );
    assert!(IpAddressBlock::parse_block("10.0.0/8").is_err());
}

#[test]
fn mask_grammar_details() {
    // std's u8 grammar for the mask: a leading '+' and leading zeros pass
    assert_eq!(
        "1.2.3.4/+09".parse::<IpAddressBlock>().unwrap(),
        IpAddressBlock::new([1, 2, 3, 4], 9)
    );
    // a '-' never parses as an unsigned number
    assert!("1.2.3.4/-0".parse::<IpAddressBlock>().is_err());
    // anything past a second '/' is ignored
    assert_eq!(
        "1.2.3.4/24/9".parse::<IpAddressBlock>().unwrap(),
        IpAddressBlock::new([1, 2, 3, 4], 24)
    );
    // an empty mask field is refused
    assert!("1.2.3.4/".parse::<IpAddressBlock>().is_err());
}

#[test]
fn empty_fields_are_refused() {
    assert!("...".parse::<IpAddressBlock>().is_err());
    assert!(".1.2.3/4".parse::<IpAddressBlock>().is_err());
    assert!("".parse::<IpAddressBlock>().is_err());
}
