use pakserve::PakErrorKind;
use pakserve::pak::{EncryptedPak, PakFile, build_pak};

fn fixture_files() -> Vec<PakFile> {
    vec![
        PakFile { path: b"readme.txt".to_vec(), data: b"hello world".to_vec() },
        PakFile { path: b"data/level.bin".to_vec(), data: vec![0, 1, 2, 3, 255] },
    ]
}

fn fixture_payload(key: &[u8]) -> Vec<u8> {
    build_pak(&b"/game".to_vec(), &fixture_files(), &key.to_vec())
}

fn xor_with(data: &[u8], key: &[u8]) -> Vec<u8> {
    data.iter().enumerate().map(|(i, b)| b ^ key[i % key.len()]).collect()
}

fn seal(plain: &[u8], key: &[u8]) -> Vec<u8> {
    let sum: u32 = plain.iter().fold(0u32, |a, b| a.wrapping_add(*b as u32));
    let mut full = plain.to_vec();
    full.extend_from_slice(&sum.to_le_bytes());
    xor_with(&full, key)
}

#[test]
fn decrypt_with_correct_key_succeeds() {
    let payload = fixture_payload(b"secret");
    let mut pak = EncryptedPak::new(b"base.pak".to_vec(), payload);
    assert!(!pak.consumed());
    let reader = pak.decrypt(&b"secret".to_vec()).unwrap();
    assert!(pak.consumed());
    assert_eq!(reader.mount_point(), b"/game".to_vec());
    assert_eq!(
        reader.list_files(),
        vec![b"readme.txt".to_vec(), b"data/level.bin".to_vec()]
    );
    assert_eq!(
        reader.get_file_data(&b"readme.txt".to_vec()).unwrap(),
        b"hello world".to_vec()
    );
}

#[test]
fn decrypt_is_deterministic_on_equal_payloads() {
    let p1 = fixture_payload(b"secret");
    let p2 = fixture_payload(b"secret");
    assert_eq!(p1, p2);
    let r1 = EncryptedPak::new(b"x".to_vec(), p1).decrypt(&b"secret".to_vec()).unwrap();
    let r2 = EncryptedPak::new(b"x".to_vec(), p2).decrypt(&b"secret".to_vec()).unwrap();
    assert_eq!(r1.list_files(), r2.list_files());
    assert_eq!(
        r1.get_file_data(&b"readme.txt".to_vec()).unwrap(),
        r2.get_file_data(&b"readme.txt".to_vec()).unwrap()
    );
}

#[test]
fn decrypt_with_wrong_key_fails() {
    let payload = fixture_payload(b"secret");
    let mut pak = EncryptedPak::new(b"base.pak".to_vec(), payload);
    assert_eq!(pak.decrypt(&b"wrong!".to_vec()).err().unwrap().kind, PakErrorKind::DecryptFailed);
    assert!(pak.consumed());
}

#[test]
fn decrypt_with_empty_key_fails() {
    let payload = fixture_payload(b"secret");
    let mut pak = EncryptedPak::new(b"base.pak".to_vec(), payload);
    assert_eq!(pak.decrypt(&Vec::new()).err().unwrap().kind, PakErrorKind::DecryptFailed);
    assert!(pak.consumed());
}

#[test]
fn second_decrypt_after_success_is_already_consumed() {
    let payload = fixture_payload(b"secret");
    let mut pak = EncryptedPak::new(b"base.pak".to_vec(), payload);
    assert!(pak.decrypt(&b"secret".to_vec()).is_ok());
    let err = pak.decrypt(&b"secret".to_vec()).err().unwrap();
    assert_eq!(err.kind, PakErrorKind::AlreadyConsumed);
    assert_eq!(err.resource, b"base.pak".to_vec());
}

#[test]
fn second_decrypt_after_failure_is_already_consumed() {
    let payload = fixture_payload(b"secret");
    let mut pak = EncryptedPak::new(b"base.pak".to_vec(), payload);
    assert_eq!(pak.decrypt(&b"wrong!".to_vec()).err().unwrap().kind, PakErrorKind::DecryptFailed);
    let err = pak.decrypt(&b"secret".to_vec()).err().unwrap();
    assert_eq!(err.kind, PakErrorKind::AlreadyConsumed);
    assert_eq!(err.resource, b"base.pak".to_vec());
}

#[test]
fn repeated_decrypts_fail_every_time_after_the_first() {
    let payload = fixture_payload(b"secret");
    let mut pak = EncryptedPak::new(b"base.pak".to_vec(), payload);
    assert!(pak.decrypt(&b"secret".to_vec()).is_ok());
    for _ in 0..100 {
        assert_eq!(
            pak.decrypt(&b"secret".to_vec()).err().unwrap().kind,
            PakErrorKind::AlreadyConsumed
        );
    }
}

#[test]
fn accepted_but_malformed_payload_is_corrupt_package() {
    let mut plain = b"PAK1".to_vec();
    plain.extend_from_slice(&[9, 9, 9, 9, 1, 2, 3]);
    let payload = seal(&plain, b"secret");
    let mut pak = EncryptedPak::new(b"base.pak".to_vec(), payload);
    assert_eq!(
        pak.decrypt(&b"secret".to_vec()).err().unwrap().kind,
        PakErrorKind::CorruptPackage
    );
}

#[test]
fn accepted_payload_without_marker_is_corrupt_package() {
    let payload = seal(b"not a package image", b"secret");
    let mut pak = EncryptedPak::new(b"base.pak".to_vec(), payload);
    assert_eq!(
        pak.decrypt(&b"secret".to_vec()).err().unwrap().kind,
        PakErrorKind::CorruptPackage
    );
}

#[test]
fn trailing_bytes_after_image_is_corrupt_package() {
    let mut plain = build_pak(&b"/m".to_vec(), &fixture_files(), &b"k".to_vec());
    // undo the cipher to recover the plain image, then re-seal it with junk appended
    plain = xor_with(&plain, b"k");
    plain.truncate(plain.len() - 4);
    plain.push(0x7f);
    let payload = seal(&plain, b"k");
    let mut pak = EncryptedPak::new(b"base.pak".to_vec(), payload);
    assert_eq!(
        pak.decrypt(&b"k".to_vec()).err().unwrap().kind,
        PakErrorKind::CorruptPackage
    );
}

#[test]
fn corrupted_payload_is_indistinguishable_from_wrong_key() {
    // a flipped ciphertext byte and a wrong key both fail the decryption
    // primitive and surface as the same kind
    let mut corrupted = fixture_payload(b"secret");
    corrupted[10] ^= 0x01;
    let mut pak1 = EncryptedPak::new(b"base.pak".to_vec(), corrupted);
    let e1 = pak1.decrypt(&b"secret".to_vec()).err().unwrap();

    let mut pak2 = EncryptedPak::new(b"base.pak".to_vec(), fixture_payload(b"secret"));
    let e2 = pak2.decrypt(&b"wrong!".to_vec()).err().unwrap();
    assert_eq!(e1.kind, PakErrorKind::DecryptFailed);
    assert_eq!(e2.kind, PakErrorKind::DecryptFailed);
}

#[test]
fn truncated_mid_payload_is_decrypt_failed() {
    let payload = fixture_payload(b"secret");
    let cut = payload.len() / 2;
    let mut pak = EncryptedPak::new(b"base.pak".to_vec(), payload[..cut].to_vec());
    assert_eq!(
        pak.decrypt(&b"secret".to_vec()).err().unwrap().kind,
        PakErrorKind::DecryptFailed
    );
}

#[test]
fn truncated_payload_is_decrypt_failed() {
    let payload = fixture_payload(b"secret");
    let mut pak = EncryptedPak::new(b"base.pak".to_vec(), payload[..3].to_vec());
    assert_eq!(
        pak.decrypt(&b"secret".to_vec()).err().unwrap().kind,
        PakErrorKind::DecryptFailed
    );
}

#[test]
fn get_file_data_unknown_path_is_not_found() {
    let payload = fixture_payload(b"secret");
    let mut pak = EncryptedPak::new(b"base.pak".to_vec(), payload);
    let reader = pak.decrypt(&b"secret".to_vec()).unwrap();
    let err = reader.get_file_data(&b"nope.txt".to_vec()).err().unwrap();
    assert_eq!(err.kind, PakErrorKind::NotFound);
    assert_eq!(err.resource, b"nope.txt".to_vec());
    assert_eq!(
        reader.get_file_data(&b"readme.txt".to_vec()).unwrap(),
        b"hello world".to_vec()
    );
}

#[test]
fn get_file_data_is_stable_across_repeated_calls() {
    let payload = fixture_payload(b"secret");
    let mut pak = EncryptedPak::new(b"base.pak".to_vec(), payload);
    let reader = pak.decrypt(&b"secret".to_vec()).unwrap();
    let first = reader.get_file_data(&b"data/level.bin".to_vec()).unwrap();
    for _ in 0..10 {
        assert_eq!(reader.get_file_data(&b"data/level.bin".to_vec()).unwrap(), first);
    }
}

#[test]
fn duplicate_paths_keep_table_order_and_first_match_wins() {
    let files = vec![
        PakFile { path: b"a.txt".to_vec(), data: b"first".to_vec() },
        PakFile { path: b"a.txt".to_vec(), data: b"second".to_vec() },
    ];
    let payload = build_pak(&b"/m".to_vec(), &files, &b"key".to_vec());
    let mut pak = EncryptedPak::new(b"p".to_vec(), payload);
    let reader = pak.decrypt(&b"key".to_vec()).unwrap();
    assert_eq!(reader.list_files(), vec![b"a.txt".to_vec(), b"a.txt".to_vec()]);
    assert_eq!(reader.get_file_data(&b"a.txt".to_vec()).unwrap(), b"first".to_vec());
}

#[test]
fn empty_package_image_round_trips() {
    let payload = build_pak(&Vec::new(), &Vec::new(), &b"key".to_vec());
    let mut pak = EncryptedPak::new(b"p".to_vec(), payload);
    let reader = pak.decrypt(&b"key".to_vec()).unwrap();
    assert!(reader.mount_point().is_empty());
    assert!(reader.list_files().is_empty());
}
