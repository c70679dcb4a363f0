use pfs_archive::codec::get_path_str;
use pfs_archive::codec::to_host_separators;
use pfs_archive::codec::to_wire_separators;
use pfs_archive::codec::xor_crypt;
use pfs_archive::utf8check::validate_utf8;

#[test]
fn xor_crypt_is_involutive() {
    let original: Vec<u8> = vec![0x00, 0x01, 0xfe, 0xff, 0x55, 0xaa, 0x13];
    let key: Vec<u8> = vec![0x9c, 0x3e, 0x01];
    let mut data = original.clone();
    xor_crypt(&mut data, &key);
    assert_ne!(data, original);
    xor_crypt(&mut data, &key);
    assert_eq!(data, original);
}

#[test]
fn xor_crypt_empty_key_is_noop() {
    let mut data: Vec<u8> = vec![1, 2, 3];
    let key: Vec<u8> = Vec::new();
    xor_crypt(&mut data, &key);
    assert_eq!(data, vec![1, 2, 3]);
}

#[test]
fn xor_crypt_wraps_key() {
    let mut data: Vec<u8> = vec![0x10, 0x20, 0x30];
    let key: Vec<u8> = vec![0x01, 0x02];
    xor_crypt(&mut data, &key);
    assert_eq!(data, vec![0x11, 0x22, 0x31]);
}

#[test]
fn get_path_str_swaps_separators() {
    assert_eq!(get_path_str("dir/sub/file.txt"), "dir\\sub\\file.txt");
    assert_eq!(get_path_str("plain.txt"), "plain.txt");
    assert_eq!(get_path_str(""), "");
}

#[test]
fn byte_separator_round_trip() {
    let host: Vec<u8> = b"dir/sub/file.txt".to_vec();
    let wire = to_wire_separators(&host);
    assert_eq!(wire, b"dir\\sub\\file.txt".to_vec());
    assert_eq!(to_host_separators(&wire), host);
}

#[test]
fn utf8_validation_accepts_and_rejects() {
    assert!(validate_utf8(&b"plain ascii".to_vec()));
    // Two-, three- and four-byte scalars.
    assert!(validate_utf8(&vec![0xc3, 0xa9]));
    assert!(validate_utf8(&vec![0xe2, 0x82, 0xac]));
    assert!(validate_utf8(&vec![0xf0, 0x9f, 0x92, 0xbe]));
    // A lone continuation byte, a truncated scalar, an overlong form,
    // a surrogate, and a value beyond the last scalar.
    assert!(!validate_utf8(&vec![0x80]));
    assert!(!validate_utf8(&vec![0xc3]));
    assert!(!validate_utf8(&vec![0xc0, 0x80]));
    assert!(!validate_utf8(&vec![0xed, 0xa0, 0x80]));
    assert!(!validate_utf8(&vec![0xf5, 0x80, 0x80, 0x80]));
}
