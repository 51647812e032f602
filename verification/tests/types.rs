use l1x_sdk::types::{Address, I128, I64, U128, U64};

#[test]
fn test_u128() {
    let values: Vec<u128> = vec![0, 1, 123, 10u128.pow(18), 2u128.pow(100), u128::MAX];
    for a in values {
        let str_a: U128 = a.into();
        let b: u128 = str_a.into();
        assert_eq!(a, b);

        let text: String = str_a.to_json();
        assert_eq!(text, serde_json::to_string(&a.to_string()).unwrap());
        let deser_a: U128 = U128::from_json(&text).unwrap();
        assert_eq!(a, deser_a.0);
    }
}

#[test]
fn test_u64() {
    let values: Vec<u64> = vec![0, 1, 123, 10u64.pow(18), 2u64.pow(60), u64::MAX];
    for a in values {
        let str_a: U64 = a.into();
        let b: u64 = str_a.into();
        assert_eq!(a, b);

        let text: String = str_a.to_json();
        assert_eq!(text, serde_json::to_string(&a.to_string()).unwrap());
        let deser_a: U64 = U64::from_json(&text).unwrap();
        assert_eq!(a, deser_a.0);
    }
}

#[test]
fn test_i128() {
    let values: Vec<i128> = vec![
        0,
        1,
        -1,
        123,
        10i128.pow(18),
        2i128.pow(100),
        -(2i128.pow(100)),
        i128::MAX,
        i128::MIN,
    ];
    for a in values {
        let str_a: I128 = a.into();
        let b: i128 = str_a.into();
        assert_eq!(a, b);

        let text: String = str_a.to_json();
        assert_eq!(text, serde_json::to_string(&a.to_string()).unwrap());
        let deser_a: I128 = I128::from_json(&text).unwrap();
        assert_eq!(a, deser_a.0);
    }
}

#[test]
fn test_i64() {
    let values: Vec<i64> = vec![
        0,
        1,
        -1,
        123,
        10i64.pow(18),
        2i64.pow(60),
        -(2i64.pow(60)),
        i64::MAX,
        i64::MIN,
    ];
    for a in values {
        let str_a: I64 = a.into();
        let b: i64 = str_a.into();
        assert_eq!(a, b);

        let text: String = str_a.to_json();
        assert_eq!(text, serde_json::to_string(&a.to_string()).unwrap());
        let deser_a: I64 = I64::from_json(&text).unwrap();
        assert_eq!(a, deser_a.0);
    }
}

#[test]
fn test_json_rejects_malformed() {
    assert!(U128::from_json("123").is_none());
    assert!(U128::from_json("\"\"").is_none());
    assert!(U128::from_json("\"12a\"").is_none());
    assert!(U128::from_json("\"340282366920938463463374607431768211456\"").is_none());
    assert!(U64::from_json("\"18446744073709551616\"").is_none());
    assert!(I128::from_json("\"-\"").is_none());
    assert!(I128::from_json("\"170141183460469231731687303715884105728\"").is_none());
    assert!(I128::from_json("\"-170141183460469231731687303715884105729\"").is_none());
    assert!(I64::from_json("\"9223372036854775808\"").is_none());
}

#[test]
pub fn address_try_from() {
    let addr_vec: Vec<u8> = vec![
        0x11, 0x22, 0x33, 0x44, 0x55, 0x66, 0x77, 0x88, 0x99, 0xaa, 0xbb, 0xcc, 0xdd, 0xee, 0xff,
        0x00, 0x11, 0x22, 0x33, 0x44,
    ];
    let addr_str = hex::encode(addr_vec.clone());
    let addr_0x_str = "0x".to_string() + &addr_str;
    let test_addr = Address::test_create_address(&addr_vec);

    assert_eq!(Address::try_from_str(&addr_str), Some(test_addr));
    assert_eq!(Address::try_from_str(addr_str.as_str()), Some(test_addr));
    assert_eq!(Address::try_from_str(&addr_0x_str), Some(test_addr));
    assert_eq!(Address::try_from_str(addr_0x_str.as_str()), Some(test_addr));
    assert_eq!(Address::try_from_bytes(&addr_vec), Some(test_addr));
    assert_eq!(Address::try_from_bytes(addr_vec.as_slice()), Some(test_addr));
}

#[test]
pub fn address_try_from_incorrect() {
    let addr_vec_too_short: Vec<u8> = vec![
        0x11, 0x22, 0x33, 0x44, 0x55, 0x66, 0x77, 0x88, 0x99, 0xaa, 0xbb, 0xcc, 0xdd, 0xee, 0xff,
        0x00, 0x11, 0x22, 0x33,
    ];
    let addr_vec_too_long: Vec<u8> = vec![
        0x11, 0x22, 0x33, 0x44, 0x55, 0x66, 0x77, 0x88, 0x99, 0xaa, 0xbb, 0xcc, 0xdd, 0xee, 0xff,
        0x00, 0x11, 0x22, 0x33, 0x44, 0xff,
    ];
    let addr_str_short = hex::encode(addr_vec_too_short.clone());
    let addr_str_long = hex::encode(addr_vec_too_long.clone());
    let addr_0x_str_short = "0x".to_string() + &addr_str_short;
    let addr_0x_str_long = "0x".to_string() + &addr_str_long;

    assert!(Address::try_from_bytes(&addr_vec_too_short).is_none());
    assert!(Address::try_from_bytes(&addr_vec_too_long).is_none());

    assert!(Address::try_from_str(&addr_str_short).is_none());
    assert!(Address::try_from_str(&addr_str_long).is_none());

    assert!(Address::try_from_str(addr_0x_str_short.as_str()).is_none());
    assert!(Address::try_from_str(addr_0x_str_long.as_str()).is_none());

    let addr_vec_empty: Vec<u8> = vec![];
    let addr_str_empty = "".to_string();
    let addr_0x_str_empty = "0x".to_string();

    assert!(Address::try_from_bytes(&addr_vec_empty).is_none());
    assert!(Address::try_from_str(addr_str_empty.as_str()).is_none());
    assert!(Address::try_from_str(addr_0x_str_empty.as_str()).is_none());
}

#[test]
pub fn address_from_array() {
    let addr_arr: [u8; 20] = [
        0x11, 0x22, 0x33, 0x44, 0x55, 0x66, 0x77, 0x88, 0x99, 0xaa, 0xbb, 0xcc, 0xdd, 0xee, 0xff,
        0x00, 0x11, 0x22, 0x33, 0x44,
    ];

    let test_addr = Address::test_create_address(&addr_arr.to_vec());

    assert_eq!(Address::from(addr_arr), test_addr);
    assert_eq!(Address::from(&addr_arr), test_addr);
}

#[test]
pub fn address_to_string_vec() {
    let addr_vec: Vec<u8> = vec![
        0x11, 0x22, 0x33, 0x44, 0x55, 0x66, 0x77, 0x88, 0x99, 0xaa, 0xbb, 0xcc, 0xdd, 0xee, 0xff,
        0x00, 0x11, 0x22, 0x33, 0x44,
    ];
    let address = Address::test_create_address(&addr_vec);

    assert_eq!(
        address.to_string(),
        "112233445566778899aabbccddeeff0011223344"
    );
    assert_eq!(address.to_vec(), addr_vec);
}

#[test]
pub fn address_display() {
    let addr_vec: Vec<u8> = vec![
        0x11, 0x22, 0x33, 0x44, 0x55, 0x66, 0x77, 0x88, 0x99, 0xaa, 0xbb, 0xcc, 0xdd, 0xee, 0xff,
        0x00, 0x11, 0x22, 0x33, 0x44,
    ];
    let address = Address::test_create_address(&addr_vec);

    assert_eq!(
        address.to_string(),
        "112233445566778899aabbccddeeff0011223344"
    );
    assert_eq!(
        hex::encode(address.as_bytes()),
        "112233445566778899aabbccddeeff0011223344"
    );
}
