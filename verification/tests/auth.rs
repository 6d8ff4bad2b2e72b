use oms::auth::{
    cluster_key, decode_hex_key, monitoring_key, sign, sign_monitoring, sign_with, verify,
    verify_monitoring, verify_with, witness_key, KeyError, HMAC_TAG_LEN, LEN_PREFIX,
};
use oms::environment::{Environment, Fixed};

const HEX: &str = "000102030405060708090a0b0c0d0e0f101112131415161718191a1b1c1d1e1f";

fn env(vars: &[(&str, &str)]) -> Environment {
    Environment { vars: vars.iter().map(|(k, v)| (k.to_string(), v.to_string())).collect() }
}

fn hex(bytes: &[u8]) -> String {
    bytes.iter().map(|b| format!("{b:02x}")).collect()
}

#[test]
fn tag_is_hmac_sha256() {
    let payload = b"what do ya want for nothing?";
    let frame = sign_with(payload, b"Jefe");
    assert_eq!(frame[..4], [0, 0, 0, 28]);
    assert_eq!(frame[4..32], payload[..]);
    assert_eq!(
        hex(&frame[32..]),
        "5bdcc146bf60754e6a042426089575c75a003f089d2739839dec58b964ec3843"
    );
    assert_eq!(frame.len(), LEN_PREFIX + 28 + HMAC_TAG_LEN);
}

#[test]
fn signed_payload_verifies_under_its_key_only() {
    let frame = sign_with(b"payload", b"key");
    assert_eq!(verify_with(&frame, b"key"), Some(&b"payload"[..]));
    assert_eq!(verify_with(&frame, b"other"), None);
    let empty = sign_with(b"", b"key");
    assert_eq!(verify_with(&empty, b"key"), Some(&b""[..]));
}

#[test]
fn changed_frames_do_not_verify() {
    let frame = sign_with(b"payload", b"key");
    for at in 0..frame.len() {
        let mut changed = frame.clone();
        changed[at] ^= 1;
        assert_eq!(verify_with(&changed, b"key"), None);
    }
    for len in 0..frame.len() {
        assert_eq!(verify_with(&frame[..len], b"key"), None);
    }
    let mut longer = frame.clone();
    longer.push(0);
    assert_eq!(verify_with(&longer, b"key"), Some(&b"payload"[..]));
    assert_eq!(verify_with(&[255; 64], b"key"), None);
}

#[test]
fn key_is_decoded_from_hexadecimal() {
    assert_eq!(decode_hex_key(HEX, "K").unwrap(), (0u8..32).collect::<Vec<u8>>());
    assert_eq!(decode_hex_key(&HEX[..32], "K").unwrap(), (0u8..16).collect::<Vec<u8>>());
    let upper = decode_hex_key("ABCDEFabcdef0123456789ABCDEFabcd", "K").unwrap();
    assert_eq!(upper[..3], [0xab, 0xcd, 0xef]);
}

#[test]
fn keys_that_cannot_be_had() {
    match decode_hex_key("00ff", "K") {
        Err(KeyError::TooShort { name, len }) => assert_eq!((name.as_str(), len), ("K", 4)),
        other => panic!("{other:?}"),
    }
    match decode_hex_key("0001020304050607zz090a0b0c0d0e0f", "K") {
        Err(KeyError::NotHex { name, position }) => assert_eq!((name.as_str(), position), ("K", 16)),
        other => panic!("{other:?}"),
    }
    match decode_hex_key("0001020304050607+f090a0b0c0d0e0f", "K") {
        Err(KeyError::NotHex { name, position }) => assert_eq!((name.as_str(), position), ("K", 16)),
        other => panic!("{other:?}"),
    }
    match decode_hex_key("000102030405060708090a0b0c0d0e0f1", "K") {
        Err(KeyError::Unpaired { name }) => assert_eq!(name, "K"),
        other => panic!("{other:?}"),
    }
    match cluster_key(&mut Fixed::new(), &env(&[])) {
        Err(KeyError::NotSet { name }) => assert_eq!(name, "CLUSTER_HMAC_KEY"),
        _ => panic!(),
    }
    match monitoring_key(&mut Fixed::new(), &env(&[("CLUSTER_HMAC_KEY", HEX)])) {
        Err(KeyError::NotSet { name }) => assert_eq!(name, "monitoring_HMAC_KEY"),
        _ => panic!(),
    }
    match witness_key(&mut Fixed::new(), &env(&[])) {
        Err(KeyError::NotSet { name }) => assert_eq!(name, "WITNESS_HMAC_KEY"),
        _ => panic!(),
    }
    let short = env(&[
        ("CLUSTER_HMAC_KEY", &HEX[..32]),
        ("monitoring_HMAC_KEY", &HEX[..62]),
        ("WITNESS_HMAC_KEY", &HEX[..63]),
    ]);
    match cluster_key(&mut Fixed::new(), &short) {
        Err(KeyError::TooShort { name, len }) => {
            assert_eq!((name.as_str(), len), ("CLUSTER_HMAC_KEY", 32))
        }
        _ => panic!(),
    }
    match monitoring_key(&mut Fixed::new(), &short) {
        Err(KeyError::TooShort { len, .. }) => assert_eq!(len, 62),
        _ => panic!(),
    }
    match witness_key(&mut Fixed::new(), &short) {
        Err(KeyError::TooShort { len, .. }) => assert_eq!(len, 63),
        _ => panic!(),
    }
}

#[test]
fn cluster_and_monitoring_keys_are_separate() {
    let other = "ff0102030405060708090a0b0c0d0e0f101112131415161718191a1b1c1d1e1f";
    let env = env(&[
        ("CLUSTER_HMAC_KEY", HEX),
        ("monitoring_HMAC_KEY", other),
        ("WITNESS_HMAC_KEY", other),
    ]);
    let (mut first, mut second, mut third) = (Fixed::new(), Fixed::new(), Fixed::new());
    let cluster = cluster_key(&mut first, &env).unwrap();
    let monitoring = monitoring_key(&mut second, &env).unwrap();
    let witness = witness_key(&mut third, &env).unwrap();
    let frame = sign(b"order", cluster);
    assert_eq!(verify(&frame, cluster), Some(&b"order"[..]));
    assert_eq!(verify_monitoring(&frame, monitoring), None);
    let frame = sign_monitoring(b"question", monitoring);
    assert_eq!(verify_monitoring(&frame, witness), Some(&b"question"[..]));
    assert_eq!(verify(&frame, cluster), None);
}

#[test]
fn first_key_stays() {
    let later = env(&[("CLUSTER_HMAC_KEY", &HEX.replace("00", "ff"))]);
    let mut cell = Fixed::new();
    assert!(cluster_key(&mut cell, &env(&[])).is_err());
    assert!(!cell.is_set());
    let frame = {
        let key = cluster_key(&mut cell, &env(&[("CLUSTER_HMAC_KEY", HEX)])).unwrap();
        sign(b"order", key)
    };
    let key = cluster_key(&mut cell, &later).unwrap();
    assert_eq!(verify(&frame, key), Some(&b"order"[..]));
    let key = cluster_key(&mut cell, &env(&[])).unwrap();
    assert_eq!(verify(&frame, key), Some(&b"order"[..]));
    let mut other = Fixed::new();
    assert_eq!(verify(&frame, cluster_key(&mut other, &later).unwrap()), None);
}
