use zkitap::v3::create_key;

#[test]
fn test_create_key() {
    let keystr = "1l0O1l0O1l0O1l0O1l0O1l0O1l0O1l0O"; // 32 bytes
    let key = create_key("7_14_22", keystr);
    assert_eq!(key.len(), 32);

    let key = create_key("modelegitim", keystr);
    assert_eq!(key.len(), 32);
    assert_eq!(&key[..11], b"modelegitim");
    assert_eq!(&key[11..32], &keystr.as_bytes()[..21]);
}
