use netscan::address::InputError;
use netscan::expand::{expand_all, expand_blocks, expand_block, expand_interval, parse_arg, parse_range, parse_simple};

#[test]
fn block_of_24() {
    let v = parse_arg("10.0.0.0/24".to_string()).unwrap();
    assert_eq!(v.len(), 256);
    assert_eq!(v[0], 167772160);
    assert_eq!(v[255], 167772160 + 255);
    for (i, a) in v.iter().enumerate() {
        assert_eq!(*a, 167772160 + i as u32);
    }
}

#[test]
fn block_is_masked_and_sized() {
    for m in 1u8..32 {
        if m < 12 {
            continue;
        }
        let v = parse_simple(format!("10.1.2.3/{}", m)).unwrap();
        let size = 1u64 << (32 - m);
        assert_eq!(v.len() as u64, size);
        let base = (0x0a010203u64 / size) * size;
        for a in &v {
            assert!(*a as u64 >= base && (*a as u64) < base + size);
        }
    }
}

#[test]
fn block_of_32_and_31() {
    assert_eq!(parse_simple("1.2.3.4/32".to_string()).unwrap(), vec![0x01020304]);
    assert_eq!(parse_simple("1.2.3.5/31".to_string()).unwrap(), vec![0x01020304, 0x01020305]);
}

#[test]
fn top_block_reaches_broadcast() {
    let v = expand_block(u32::MAX, 24);
    assert_eq!(v.len(), 256);
    assert_eq!(*v.last().unwrap(), u32::MAX);
}

#[test]
fn implicit_block() {
    let v = parse_arg("192.168.1.".to_string()).unwrap();
    assert_eq!(v.len(), 256);
    assert_eq!(v[0], 0xc0a80100);
}

#[test]
fn single_address() {
    assert_eq!(parse_arg("10.0.0.1".to_string()).unwrap(), vec![167772161]);
}

#[test]
fn empty_argument() {
    assert_eq!(parse_simple(String::new()), Err(InputError::EmptyArgument));
    assert_eq!(parse_arg(String::new()), Err(InputError::EmptyArgument));
}

#[test]
fn ranges() {
    let v = parse_arg("10.0.0.250-10.0.1.2".to_string()).unwrap();
    assert_eq!(v.len(), 9);
    assert_eq!(v[0], 0x0a0000fa);
    assert_eq!(v[8], 0x0a000102);
    let v = parse_range("10.0.0.5-10.0.0.5".to_string()).unwrap();
    assert_eq!(v, vec![0x0a000005]);
    let v = parse_range("10.0.0.6-10.0.0.5".to_string()).unwrap();
    assert!(v.is_empty());
    let v = parse_range("10.0.0.1/8-10.0.0.3/30".to_string()).unwrap();
    assert_eq!(v, vec![0x0a000001, 0x0a000002, 0x0a000003]);
}

#[test]
fn range_errors() {
    assert_eq!(parse_arg("1.2.3-1.2.3.4".to_string()), Err(InputError::FieldCount));
    assert_eq!(parse_arg("1.2.3.4-1.2.3.5-1.2.3.6".to_string()), Err(InputError::FieldCount));
    assert_eq!(parse_arg("1.2.3.4/1/2-1.2.3.5".to_string()), Err(InputError::MultipleMasks));
}

#[test]
fn interval_bounds() {
    assert_eq!(expand_interval(u32::MAX - 1, u32::MAX), vec![u32::MAX - 1, u32::MAX]);
    assert!(expand_interval(3, 2).is_empty());
}

#[test]
fn all_arguments_in_order_with_duplicates() {
    let args = vec!["10.0.0.2".to_string(), "10.0.0.1-10.0.0.2".to_string(), "10.0.0.2".to_string()];
    assert_eq!(expand_all(&args).unwrap(), vec![0x0a000002, 0x0a000001, 0x0a000002, 0x0a000002]);
}

#[test]
fn first_error_wins() {
    let args = vec!["10.0.0.2".to_string(), "1.2.3".to_string(), "1/2/3".to_string()];
    assert_eq!(expand_all(&args), Err(InputError::FieldCount));
    assert_eq!(expand_all(&Vec::new()), Ok(vec![]));
}

#[test]
fn interface_blocks() {
    let specs = vec!["192.168.1.7/30".to_string(), "10.0.0.9/32".to_string()];
    assert_eq!(
        expand_blocks(&specs).unwrap(),
        vec![0xc0a80104, 0xc0a80105, 0xc0a80106, 0xc0a80107, 0x0a000009]
    );
    assert_eq!(expand_blocks(&vec!["1-2".to_string()]), Err(InputError::FieldCount));
}
