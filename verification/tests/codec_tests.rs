use haruki_sekai::codec::{pkcs7_pad, pkcs7_unpad, SekaiCryptor};
use haruki_sekai::trusted::{msgpack_decode, msgpack_encode};
use haruki_sekai::errors::AppError;
use haruki_sekai::value::{JsonVal, MsgVal};
use haruki_sekai::version::compare_version;

#[test]
fn test_pkcs7_padding() {
    let data = b"hello";
    let padded = pkcs7_pad(data);
    assert_eq!(padded.len(), 16);
    assert_eq!(padded[5..], [11u8; 11]);
    let unpadded = pkcs7_unpad(&padded).unwrap();
    assert_eq!(unpadded, data.to_vec());
}

#[test]
fn test_pkcs7_rejects_bad_padding() {
    // Trailing byte zero.
    let mut block = vec![7u8; 16];
    block[15] = 0;
    assert!(pkcs7_unpad(&block).is_none());
    // Trailing byte above 16.
    block[15] = 17;
    assert!(pkcs7_unpad(&block).is_none());
    // Run longer than the data.
    let short = vec![3u8, 4];
    assert!(pkcs7_unpad(&short).is_none());
    // Non-uniform run.
    let mut mixed = vec![1u8; 16];
    mixed[15] = 3;
    mixed[14] = 3;
    mixed[13] = 9;
    assert!(pkcs7_unpad(&mixed).is_none());
    // Empty input.
    assert!(pkcs7_unpad(&[]).is_none());
}

fn test_cryptor() -> SekaiCryptor {
    SekaiCryptor::from_hex(
        "00112233445566778899aabbccddeeff",
        "ffeeddccbbaa99887766554433221100",
    )
    .unwrap()
}

#[test]
fn test_cryptor_roundtrip() {
    let cryptor = test_cryptor();
    let original = MsgVal::MapV(vec![
        (MsgVal::Str("test".to_owned()), MsgVal::Str("value".to_owned())),
        (MsgVal::Str("number".to_owned()), MsgVal::Int(42)),
    ]);
    let packed = cryptor.pack(&original).unwrap();
    let unpacked: MsgVal = cryptor.unpack(&packed).unwrap();
    assert_eq!(original, unpacked);
}

#[test]
fn test_cryptor_roundtrip_rich_values() {
    let cryptor = test_cryptor();
    let original = MsgVal::Arr(vec![
        MsgVal::Null,
        MsgVal::Bool(true),
        MsgVal::Int(-7),
        MsgVal::UInt(u64::MAX),
        MsgVal::Str("text".to_owned()),
        MsgVal::Bin(vec![0, 1, 2, 255]),
        MsgVal::Ext(4, vec![9, 9]),
        MsgVal::MapV(vec![(MsgVal::Int(5), MsgVal::Str("five".to_owned()))]),
    ]);
    let packed = cryptor.pack(&original).unwrap();
    let unpacked: MsgVal = cryptor.unpack(&packed).unwrap();
    assert_eq!(original, unpacked);
}

#[test]
fn test_unpack_rejects_bad_lengths() {
    let cryptor = test_cryptor();
    match cryptor.unpack(&[]) {
        Err(AppError::CryptoError(_)) => {}
        other => panic!("expected CryptoError, got {:?}", other),
    }
    match cryptor.unpack(&[1, 2, 3]) {
        Err(AppError::CryptoError(_)) => {}
        other => panic!("expected CryptoError, got {:?}", other),
    }
}

#[test]
fn test_pack_bytes_rejects_empty() {
    let cryptor = test_cryptor();
    match cryptor.pack_bytes(&[]) {
        Err(AppError::CryptoError(_)) => {}
        other => panic!("expected CryptoError, got {:?}", other),
    }
}

#[test]
fn test_unpack_ordered_preserves_key_order() {
    let cryptor = test_cryptor();
    let original = MsgVal::MapV(vec![
        (MsgVal::Str("a".to_owned()), MsgVal::Int(1)),
        (MsgVal::Str("c".to_owned()), MsgVal::Int(2)),
        (MsgVal::Str("b".to_owned()), MsgVal::Int(3)),
    ]);
    let packed = cryptor.pack(&original).unwrap();
    let map = cryptor.unpack_ordered(&packed).unwrap();
    let keys: Vec<&str> = map.entries.iter().map(|p| p.0.as_str()).collect();
    assert_eq!(keys, vec!["a", "c", "b"]);
}

#[test]
fn test_unpack_ordered_rejects_non_map() {
    let cryptor = test_cryptor();
    let packed = cryptor.pack(&MsgVal::Int(7)).unwrap();
    match cryptor.unpack_ordered(&packed) {
        Err(AppError::CryptoError(msg)) => assert_eq!(msg, "Expected object at top level"),
        other => panic!("expected CryptoError, got {:?}", other),
    }
}

#[test]
fn test_unpack_ordered_integer_keys_and_binary() {
    let cryptor = test_cryptor();
    let original = MsgVal::MapV(vec![
        (MsgVal::Int(12), MsgVal::Bin(vec![1, 2, 3])),
        (MsgVal::Int(-4), MsgVal::Null),
    ]);
    let packed = cryptor.pack(&original).unwrap();
    let map = cryptor.unpack_ordered(&packed).unwrap();
    // Integer keys become decimal strings; binary becomes padded base64.
    assert_eq!(map.get("12"), Some(&JsonVal::Str("AQID".to_owned())));
    assert_eq!(map.get("-4"), Some(&JsonVal::Null));
}

#[test]
fn test_from_hex_rejects_bad_keys() {
    assert!(matches!(
        SekaiCryptor::from_hex("zz", "ffeeddccbbaa99887766554433221100"),
        Err(AppError::CryptoError(_))
    ));
    assert!(matches!(
        SekaiCryptor::from_hex("0011", "ffeeddccbbaa99887766554433221100"),
        Err(AppError::CryptoError(_))
    ));
}

#[test]
fn test_compare_version() {
    assert_eq!(compare_version("1.2.3", "1.2").unwrap(), true);
    assert_eq!(compare_version("1.2", "1.2").unwrap(), false);
    assert_eq!(compare_version("1.2.0", "1.2").unwrap(), false);
    assert_eq!(compare_version("0.9", "1.0").unwrap(), false);
}

#[test]
fn test_compare_version_rejects_bad_segment() {
    assert!(matches!(
        compare_version("1.x", "1.0"),
        Err(AppError::ParseError(_))
    ));
}

#[test]
fn test_ciphertext_differs_from_plaintext() {
    let cryptor = test_cryptor();
    let v = MsgVal::Str("plaintext marker".to_owned());
    let encoded = msgpack_encode(&v).unwrap();
    let padded = pkcs7_pad(&encoded);
    let packed = cryptor.pack(&v).unwrap();
    assert_eq!(packed.len(), padded.len());
    assert_ne!(packed, padded);
}

#[test]
fn test_msgpack_decode_known_bytes() {
    // A one-entry fixmap {"a": 1} in MessagePack.
    let bytes = [0x81u8, 0xA1, b'a', 0x01];
    let v = msgpack_decode(&bytes).unwrap();
    assert_eq!(
        v,
        MsgVal::MapV(vec![(MsgVal::Str("a".to_owned()), MsgVal::Int(1))])
    );
}

#[test]
fn test_unpack_value_non_map_top_level() {
    let cryptor = test_cryptor();
    let packed = cryptor.pack(&MsgVal::Int(7)).unwrap();
    assert_eq!(cryptor.unpack_value(&packed).unwrap(), JsonVal::Int(7));
}
