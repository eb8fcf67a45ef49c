use mailman::json::{parse_json, Json};
use mailman::models::{EncryptedBlob, SharedWorkspaceBundleFile};
use mailman::security::{
    check_bundle_password, check_payload_version, create_security_metadata, decrypt_bytes,
    deserialize_workspace_bundle, encrypt_bytes, encrypt_with_nonce, serialize_workspace_bundle,
    verify_password, workspace_bundle_with, MAX_PLAINTEXT, REFUSED_PLAINTEXT,
};

#[test]
fn encryption_roundtrip_works() {
    let key = [7_u8; 32];
    let payload = b"hello world";

    let encrypted = encrypt_bytes(&key, payload).expect("encryption should succeed");
    let decrypted = decrypt_bytes(&key, &encrypted).expect("decryption should succeed");

    assert_eq!(decrypted, payload);
}

fn copy(bundle: &SharedWorkspaceBundleFile) -> SharedWorkspaceBundleFile {
    SharedWorkspaceBundleFile {
        version: bundle.version,
        salt_b64: bundle.salt_b64.clone(),
        encrypted: EncryptedBlob {
            version: bundle.encrypted.version,
            nonce_b64: bundle.encrypted.nonce_b64.clone(),
            ciphertext_b64: bundle.encrypted.ciphertext_b64.clone(),
        },
    }
}

fn text_at<'a>(value: &'a Json, path: &[&str]) -> &'a str {
    let mut current = value;
    for step in path {
        current = match current {
            Json::Record(fields) => {
                &fields.iter().find(|(key, _)| key == step).expect("has the field").1
            }
            Json::List(items) => &items[step.parse::<usize>().expect("is a number")],
            _ => panic!("no step {step}"),
        };
    }
    match current {
        Json::Text(content) => content,
        _ => panic!("no text"),
    }
}

fn count_at(value: &Json, key: &str) -> usize {
    match value {
        Json::Record(fields) => match &fields.iter().find(|(k, _)| k == key).expect("field").1 {
            Json::List(items) => items.len(),
            _ => panic!("no list"),
        },
        _ => panic!("no record"),
    }
}

#[test]
fn workspace_bundle_roundtrip_preserves_requests_and_environments() {
    let payload = r#"{
        "version": 1,
        "endpoints": [{
            "id": "ep-share",
            "source_request_id": "",
            "source_collection_id": "",
            "source_folder_id": "",
            "name": "Health",
            "collection": "General",
            "folder_path": "",
            "method": "GET",
            "url": "https://example.com/health",
            "query_params": [],
            "headers": [],
            "body_mode": "none",
            "body": "",
            "scripts": []
        }],
        "environments": [{
            "name": "dev",
            "variables": [{ "key": "api_host", "value": "localhost:8080" }]
        }]
    }"#;

    let encoded = serialize_workspace_bundle(payload.as_bytes(), "super-secret")
        .expect("bundle should encode");
    let decoded =
        deserialize_workspace_bundle(&encoded, "super-secret").expect("bundle should decode");
    assert_eq!(decoded, payload.as_bytes());

    let decoded = parse_json(&String::from_utf8(decoded).expect("is text")).expect("is JSON");
    assert_eq!(count_at(&decoded, "endpoints"), 1);
    assert_eq!(text_at(&decoded, &["endpoints", "0", "url"]), "https://example.com/health");
    assert_eq!(count_at(&decoded, "environments"), 1);
    assert_eq!(text_at(&decoded, &["environments", "0", "name"]), "dev");
    assert_eq!(
        text_at(&decoded, &["environments", "0", "variables", "0", "key"]),
        "api_host"
    );
}

#[test]
fn workspace_bundle_rejects_wrong_password() {
    let payload = r#"{"version":1,"endpoints":[],"environments":[]}"#;

    let encoded = serialize_workspace_bundle(payload.as_bytes(), "correct-horse")
        .expect("bundle should encode");
    let err = deserialize_workspace_bundle(&encoded, "wrong-password")
        .expect_err("wrong password should fail");

    assert!(
        err.contains("decryption failed") || err.contains("password"),
        "unexpected error: {err}"
    );
}

#[test]
fn blobs_name_what_is_wrong_with_them() {
    let key = [1_u8; 32];
    let blob = encrypt_with_nonce(&key, &[2_u8; 24], b"content").expect("can be encrypted");
    assert_eq!(blob.version, 1);
    assert_eq!(blob.nonce_b64, "AgICAgICAgICAgICAgICAgICAgICAgIC");
    assert_ne!(blob.ciphertext_b64, "Y29udGVudA==");
    assert_eq!(decrypt_bytes(&key, &blob), Ok(b"content".to_vec()));
    assert_eq!(
        decrypt_bytes(&[9_u8; 32], &blob),
        Err("decryption failed: aead::Error".to_owned())
    );

    let wrong = |nonce: &str, ciphertext: &str| {
        decrypt_bytes(
            &key,
            &EncryptedBlob {
                version: 1,
                nonce_b64: nonce.to_owned(),
                ciphertext_b64: ciphertext.to_owned(),
            },
        )
        .expect_err("is refused")
    };
    assert!(wrong("*", "").starts_with("invalid nonce encoding: "));
    assert_eq!(wrong("AAAA", ""), "invalid nonce length");
    assert!(wrong(&blob.nonce_b64, "*").starts_with("invalid ciphertext encoding: "));
    assert_eq!(wrong(&blob.nonce_b64, "AAAA"), "decryption failed: aead::Error");
}

#[test]
fn ciphertexts_are_counted_in_blocks() {
    let blocks = u64::from(u32::MAX) - 1;
    assert_eq!(MAX_PLAINTEXT, blocks * 64 + 1);
    assert_eq!(REFUSED_PLAINTEXT, (blocks + 1) * 64);
    let key = [1_u8; 32];
    for length in [0_usize, 1, 63, 64, 65, 1000] {
        let plaintext = vec![7_u8; length];
        let blob = encrypt_with_nonce(&key, &[2_u8; 24], &plaintext).expect("can be encrypted");
        assert_eq!(blob.ciphertext_b64.len(), (length + 16).div_ceil(3) * 4);
        assert_eq!(decrypt_bytes(&key, &blob), Ok(plaintext));
    }
}

#[test]
fn encryption_under_the_same_nonce_is_the_same() {
    let key = [3_u8; 32];
    let one = encrypt_with_nonce(&key, &[4_u8; 24], b"x").expect("can be encrypted");
    let two = encrypt_with_nonce(&key, &[4_u8; 24], b"x").expect("can be encrypted");
    assert_eq!(one.ciphertext_b64, two.ciphertext_b64);
    let fresh = encrypt_bytes(&key, b"x").expect("can be encrypted");
    let other = encrypt_bytes(&key, b"x").expect("can be encrypted");
    assert_ne!(fresh.nonce_b64, other.nonce_b64);
}

#[test]
fn password_unlocks_what_was_made_from_it() {
    let (mut metadata, key) = create_security_metadata("twelve chars").expect("can be set");
    assert_eq!(metadata.version, 1);
    assert_eq!(verify_password("twelve chars", &metadata), Ok(key));
    assert_eq!(
        verify_password("other chars!", &metadata),
        Err("decryption failed: aead::Error".to_owned())
    );
    metadata.verifier = encrypt_bytes(&key, b"something else").expect("can be encrypted");
    assert_eq!(
        verify_password("twelve chars", &metadata),
        Err("password verification failed".to_owned())
    );
    metadata.salt_b64 = "*".to_owned();
    let err = verify_password("twelve chars", &metadata).expect_err("has no salt");
    assert!(err.starts_with("invalid metadata salt: "), "{err}");
    metadata.salt_b64 = "AAAA".to_owned();
    assert_eq!(
        verify_password("twelve chars", &metadata),
        Err("salt is too short".to_owned())
    );
}

#[test]
fn bundles_name_what_is_wrong_with_them() {
    assert_eq!(
        check_bundle_password("  "),
        Err("Bundle password is required.".to_owned())
    );
    assert_eq!(check_bundle_password("x"), Ok(()));
    assert_eq!(
        serialize_workspace_bundle(b"{}", " ").err(),
        Some("Bundle password is required.".to_owned())
    );

    let bundle = workspace_bundle_with(b"{}", "password", &[5_u8; 16], &[6_u8; 24])
        .expect("bundle should encode");
    assert_eq!(bundle.salt_b64, "BQUFBQUFBQUFBQUFBQUFBQ==");
    assert_eq!(deserialize_workspace_bundle(&bundle, "password"), Ok(b"{}".to_vec()));
    assert_eq!(
        deserialize_workspace_bundle(&bundle, ""),
        Err("Bundle password is required.".to_owned())
    );

    let mut changed = copy(&bundle);
    changed.version = 2;
    assert_eq!(
        deserialize_workspace_bundle(&changed, "password"),
        Err("Unsupported bundle version: 2".to_owned())
    );
    let mut changed = copy(&bundle);
    changed.salt_b64 = "*".to_owned();
    let err = deserialize_workspace_bundle(&changed, "password").expect_err("has no salt");
    assert!(err.starts_with("Invalid bundle salt: "), "{err}");

    assert_eq!(check_payload_version(1), Ok(()));
    assert_eq!(
        check_payload_version(7),
        Err("Unsupported payload version: 7".to_owned())
    );
}
