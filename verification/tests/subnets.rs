use subnetcalc::IpAddressBlock;
use subnetcalc::NetworkHosts;

#[test]
fn lib_correctly_creates_address_from_u32() {
    let addr = "201.70.64.0/24".parse::<IpAddressBlock>().unwrap();
    let as_u32 = addr
        .address
        .into_iter()
        .fold(0_u32, |acc, octet| (acc << 8) + octet as u32);

    assert_eq!(addr, IpAddressBlock::from_u32_address(as_u32, 24));
}

#[test]
fn subnetting_correctly_creates_address_from_u32() {
    let addr = "201.70.64.0/24".parse::<IpAddressBlock>().unwrap();
    let as_u32 = addr
        .address
        .into_iter()
        .fold(0_u32, |acc, octet| (acc << 8) + octet as u32);

    assert_eq!(addr, IpAddressBlock::from_u32_address(as_u32, 24));
}

#[test]
fn lib_subnets_flsm_correctly() {
    let addr = "201.70.64.0/24".parse::<IpAddressBlock>().unwrap();
    let expected = vec![
        "201.70.64.0/27".parse::<IpAddressBlock>().unwrap(),
        "201.70.64.32/27".parse::<IpAddressBlock>().unwrap(),
        "201.70.64.64/27".parse::<IpAddressBlock>().unwrap(),
        "201.70.64.96/27".parse::<IpAddressBlock>().unwrap(),
        "201.70.64.128/27".parse::<IpAddressBlock>().unwrap(),
        "201.70.64.160/27".parse::<IpAddressBlock>().unwrap(),
    ];
    assert_eq!(addr.subnet_flsm(6).unwrap(), expected);

    let addr = "198.150.74.0/23".parse::<IpAddressBlock>().unwrap();
    let expected = vec![
        "198.150.74.0/25".parse::<IpAddressBlock>().unwrap(),
        "198.150.74.128/25".parse::<IpAddressBlock>().unwrap(),
        "198.150.75.0/25".parse::<IpAddressBlock>().unwrap(),
        "198.150.75.128/25".parse::<IpAddressBlock>().unwrap(),
    ];
    assert_eq!(addr.subnet_flsm(4).unwrap(), expected);

    let addr = "181.56.0.0/16".parse::<IpAddressBlock>().unwrap();
    let mut it = addr.subnet_flsm(1000).unwrap().into_iter().rev();

    assert_eq!(
        it.next().unwrap(),
        "181.56.249.192/26".parse::<IpAddressBlock>().unwrap()
    );
    assert_eq!(
        it.next().unwrap(),
        "181.56.249.128/26".parse::<IpAddressBlock>().unwrap()
    );
}

#[test]
fn subnetting_subnets_flsm_correctly() {
    let addr = "201.70.64.0/24".parse::<IpAddressBlock>().unwrap();
    let expected = vec![
        "201.70.64.0/27".parse::<IpAddressBlock>().unwrap(),
        "201.70.64.32/27".parse::<IpAddressBlock>().unwrap(),
        "201.70.64.64/27".parse::<IpAddressBlock>().unwrap(),
        "201.70.64.96/27".parse::<IpAddressBlock>().unwrap(),
        "201.70.64.128/27".parse::<IpAddressBlock>().unwrap(),
        "201.70.64.160/27".parse::<IpAddressBlock>().unwrap(),
    ];
    assert_eq!(addr.subnet_flsm(6).unwrap(), expected);

    let addr = "198.150.74.0/23".parse::<IpAddressBlock>().unwrap();
    let expected = vec![
        "198.150.74.0/25".parse::<IpAddressBlock>().unwrap(),
        "198.150.74.128/25".parse::<IpAddressBlock>().unwrap(),
        "198.150.75.0/25".parse::<IpAddressBlock>().unwrap(),
        "198.150.75.128/25".parse::<IpAddressBlock>().unwrap(),
    ];
    assert_eq!(addr.subnet_flsm(4).unwrap(), expected);

    let addr = "181.56.0.0/16".parse::<IpAddressBlock>().unwrap();
    let mut it = addr.subnet_flsm(1000).unwrap().into_iter().rev();

    assert_eq!(
        it.next().unwrap(),
        "181.56.249.192/26".parse::<IpAddressBlock>().unwrap()
    );
    assert_eq!(
        it.next().unwrap(),
        "181.56.249.128/26".parse::<IpAddressBlock>().unwrap()
    );
}

#[test]
fn required_mask_for_hosts() {
    assert_eq!(NetworkHosts::new(30000).required_mask(), 17);
    assert_eq!(NetworkHosts::new(16383).required_mask(), 17);
    assert_eq!(NetworkHosts::new(16381).required_mask(), 18);
    assert_eq!(NetworkHosts::new(8000).required_mask(), 19);
    assert_eq!(NetworkHosts::new(2).required_mask(), 30);
    assert_eq!(NetworkHosts::new(1).required_mask(), 30);
}

#[test]
fn subnets_vlsm_correctly() {
    let addr = "20.30.0.0/18".parse::<IpAddressBlock>().unwrap();

    let nets = vec![
        NetworkHosts::new(1000),
        NetworkHosts::new(5000),
        NetworkHosts::new(2000),
        NetworkHosts::new(1000),
    ];
    let expected = vec![
        (
            NetworkHosts::new(5000),
            "20.30.0.0/19".parse::<IpAddressBlock>().unwrap(),
        ),
        (
            NetworkHosts::new(2000),
            "20.30.32.0/21".parse::<IpAddressBlock>().unwrap(),
        ),
        (
            NetworkHosts::new(1000),
            "20.30.40.0/22".parse::<IpAddressBlock>().unwrap(),
        ),
        (
            NetworkHosts::new(1000),
            "20.30.44.0/22".parse::<IpAddressBlock>().unwrap(),
        ),
    ];

    assert_eq!(addr.subnet_vlsm(nets).unwrap(), expected);

    let addr = "192.168.0.0/24".parse::<IpAddressBlock>().unwrap();
    let nets = vec![
        NetworkHosts::new(20),
        NetworkHosts::new(80),
        NetworkHosts::new(20),
        NetworkHosts::new(2),
        NetworkHosts::new(2),
        NetworkHosts::new(2),
    ];

    let expected = vec![
        (
            NetworkHosts::new(80),
            "192.168.0.0/25".parse::<IpAddressBlock>().unwrap(),
        ),
        (
            NetworkHosts::new(20),
            "192.168.0.128/27".parse::<IpAddressBlock>().unwrap(),
        ),
        (
            NetworkHosts::new(20),
            "192.168.0.160/27".parse::<IpAddressBlock>().unwrap(),
        ),
        (
            NetworkHosts::new(2),
            "192.168.0.192/30".parse::<IpAddressBlock>().unwrap(),
        ),
        (
            NetworkHosts::new(2),
            "192.168.0.196/30".parse::<IpAddressBlock>().unwrap(),
        ),
        (
            NetworkHosts::new(2),
            "192.168.0.200/30".parse::<IpAddressBlock>().unwrap(),
        ),
    ];
    assert_eq!(addr.subnet_vlsm(nets).unwrap(), expected);
}

#[test]
fn flsm_infeasible_cases() {
    let addr = "201.70.64.0/24".parse::<IpAddressBlock>().unwrap();
    assert!(addr.subnet_flsm(0).is_none());
    // 24 + ceil(log2(1000)) = 34 bits of prefix would be needed
    assert!(addr.subnet_flsm(1000).is_none());
    // exactly at the boundary: 24 + 8 = 32 still works
    assert_eq!(addr.subnet_flsm(256).unwrap().len(), 256);
}

#[test]
fn vlsm_over_capacity() {
    let addr = "192.168.0.0/24".parse::<IpAddressBlock>().unwrap();
    // the /24 offers 254 usable hosts
    assert!(addr.subnet_vlsm(vec![NetworkHosts::new(255)]).is_none());
    assert!(addr
        .subnet_vlsm(vec![NetworkHosts::new(200), NetworkHosts::new(55)])
        .is_none());
    assert!(addr
        .subnet_vlsm(vec![NetworkHosts::new(200), NetworkHosts::new(54)])
        .is_some());
}

#[test]
fn vlsm_no_requirements() {
    let addr = "192.168.0.0/24".parse::<IpAddressBlock>().unwrap();
    assert_eq!(addr.subnet_vlsm(vec![]).unwrap(), vec![]);
}

#[test]
fn address_round_trip() {
    let b = IpAddressBlock::new([1, 2, 3, 4], 16);
    assert_eq!(b.address_as_u32(), 0x0102_0304);
    assert_eq!(IpAddressBlock::from_u32_address(b.address_as_u32(), b.mask), b);

    let top = IpAddressBlock::new([255, 255, 255, 255], 32);
    assert_eq!(top.address_as_u32(), u32::MAX);
    assert_eq!(IpAddressBlock::from_u32_address(u32::MAX, 32), top);
}

#[test]
fn available_hosts_values() {
    let b = IpAddressBlock::new([10, 0, 0, 0], 24);
    assert_eq!(b.available_hosts(), 254);
    let b = IpAddressBlock::new([10, 0, 0, 0], 31);
    assert_eq!(b.available_hosts(), 0);
    let b = IpAddressBlock::new([10, 0, 0, 0], 1);
    assert_eq!(b.available_hosts(), 0x7FFF_FFFE);
}

#[test]
fn boundary_blocks() {
    // splitting the whole address space
    let all = "0.0.0.0/0".parse::<IpAddressBlock>().unwrap();
    let halves = all.subnet_flsm(2).unwrap();
    assert_eq!(
        halves,
        vec![
            "0.0.0.0/1".parse::<IpAddressBlock>().unwrap(),
            "128.0.0.0/1".parse::<IpAddressBlock>().unwrap(),
        ]
    );
    // a single "split" of a point block is the block itself
    let point = "9.8.7.6/32".parse::<IpAddressBlock>().unwrap();
    assert_eq!(point.subnet_flsm(1).unwrap(), vec![
        "9.8.7.6/32".parse::<IpAddressBlock>().unwrap()
    ]);
    // one huge requirement takes half the whole space
    let huge = NetworkHosts::new(0x7FFF_FFFE);
    assert_eq!(huge.required_mask(), 1);
    assert_eq!(
        all.subnet_vlsm(vec![huge]).unwrap(),
        vec![(huge, "0.0.0.0/1".parse::<IpAddressBlock>().unwrap())]
    );
}

#[test]
fn minimum_bits_values() {
    assert_eq!(subnetcalc::bits::minimum_bits_needed(1), 0);
    assert_eq!(subnetcalc::bits::minimum_bits_needed(2), 1);
    assert_eq!(subnetcalc::bits::minimum_bits_needed(6), 3);
    assert_eq!(subnetcalc::bits::minimum_bits_needed(256), 8);
    assert_eq!(subnetcalc::bits::minimum_bits_needed(257), 9);
    assert_eq!(subnetcalc::bits::minimum_bits_needed(1000), 10);
}
