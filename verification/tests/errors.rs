use subnetcalc::IpAddressBlock;
use subnetcalc::IpAddressErrorKind;

#[test]
fn error_kind_incorrect_format() {
    let e = "21/32".parse::<IpAddressBlock>().unwrap_err();
    assert!(matches!(e.kind(), IpAddressErrorKind::IncorrectFormat));
    let e = "123.+23.1.23/32".parse::<IpAddressBlock>().unwrap_err();
    assert!(matches!(e.kind(), IpAddressErrorKind::IncorrectFormat));
}

#[test]
fn error_kind_missing_mask() {
    let e = "1.2.3.4".parse::<IpAddressBlock>().unwrap_err();
    assert!(matches!(e.kind(), IpAddressErrorKind::MissingMask));
}

#[test]
fn error_kind_octet_out_of_range() {
    let e = "300.23.1.23/32".parse::<IpAddressBlock>().unwrap_err();
    match e.kind() {
        IpAddressErrorKind::OctetOutOfRange(t) => assert_eq!(t, "300"),
        other => panic!("unexpected kind: {:?}", other),
    }
    let e = "21.123.1./32".parse::<IpAddressBlock>().unwrap_err();
    match e.kind() {
        IpAddressErrorKind::OctetOutOfRange(t) => assert_eq!(t, ""),
        other => panic!("unexpected kind: {:?}", other),
    }
}

#[test]
fn error_kind_mask_out_of_range() {
    // a mask that parses but exceeds 32 is reported by its decimal value
    let e = "23.23.1.23/040".parse::<IpAddressBlock>().unwrap_err();
    match e.kind() {
        IpAddressErrorKind::MaskOutOfRange(t) => assert_eq!(t, "40"),
        other => panic!("unexpected kind: {:?}", other),
    }
    // a three-digit mask value is rendered back in full
    let e = "1.2.3.4/200".parse::<IpAddressBlock>().unwrap_err();
    match e.kind() {
        IpAddressErrorKind::MaskOutOfRange(t) => assert_eq!(t, "200"),
        other => panic!("unexpected kind: {:?}", other),
    }
    // a non-numeric mask is reported by its text as given
    let e = "1.2.3.4/xy".parse::<IpAddressBlock>().unwrap_err();
    match e.kind() {
        IpAddressErrorKind::MaskOutOfRange(t) => assert_eq!(t, "xy"),
        other => panic!("unexpected kind: {:?}", other),
    }
}

#[test]
fn error_messages() {
    let e = "21/32".parse::<IpAddressBlock>().unwrap_err();
    assert_eq!(e.message(), "the string is not in a correct format");
    let e = "1.2.3.4".parse::<IpAddressBlock>().unwrap_err();
    assert_eq!(e.message(), "the mask is missing");
    let e = "300.23.1.23/32".parse::<IpAddressBlock>().unwrap_err();
    assert_eq!(e.message(), "'300' is not a valid octet");
    let e = "1.2.3.4/99".parse::<IpAddressBlock>().unwrap_err();
    assert_eq!(e.message(), "'99' is not a valid mask");
}
