use adb_fastboot::base64_text::base64_decode;
use adb_fastboot::auth::{
    default_key_label, encode_adb_public_key_string, get_vendor_keys, key_file_contents, parse_adb_public_key_string,
    AdbAuth, AuthResponder,
};
use adb_fastboot::constants::{A_AUTH, A_AUTH_RSAKEY, A_AUTH_SIGNATURE};
use adb_fastboot::header::AuthType;
use adb_fastboot::key_files::{
    adb_auth_get_userkey_path, adb_get_android_dir_path, load_all_keys, load_userkey, load_vendor_keys_only,
    public_key_path,
};
use adb_fastboot::keys::{
    export_private_key_to_pem, key_can_sign, load_private_key_from_pem, sign_token, verify_token_signature,
    AuthError, PrivateKey, PublicKey, ANDROID_PUBKEY_ENCODED_SIZE,
};
use adb_fastboot::pubkey::{decode_android_pubkey_binary, encode_android_pubkey_binary};
use adb_fastboot::tls::{generate_self_signed_cert, TlsError};
use rsa::pkcs8::EncodePrivateKey;
use rsa::{BigUint, RsaPrivateKey};

/// A key of the given primes, so that none has to be searched for.
fn key_of(p: &str, q: &str) -> PrivateKey {
    let number = |s: &str| BigUint::parse_bytes(s.as_bytes(), 16).unwrap();
    let key = RsaPrivateKey::from_p_q(number(p), number(q), BigUint::from(65537u32)).unwrap();
    PrivateKey::from_pkcs8_der(key.to_pkcs8_der().unwrap().as_bytes()).unwrap()
}

fn first_key() -> PrivateKey {
    key_of(
        "d2a2542aaff1922e6f5057948a9121247872b3e4c9af71d8e2082583b0566dc7\
         e9bfb905ebd2e0ea34d730d2715399d04e82ec29dca039e40c7488cd710f19b3\
         64d6f92d28c9fcb52c184189205c5e16cd56cd7e717cb147446bc2ee675d6764\
         89f3534630ec84f397c5d565ded8f363c1747eccf85a018ce8a01cf76e1b8f57",
        "f92a1f0c5bdb72311460d3cc2f554440f1539bb04e31c8485ae5ebc37669b35e\
         931ea92eb5c83d94359bc09293b8f3fe1a7ba3403488f8da907e1f5f952e5bf6\
         210bfb7821ab15371f848e0c9cf37de26f27569a7a9e8eaa4b1b304563b8e72d\
         148cd5ce2162d86a80555f0874d6663d4585ad086406f599576992c758e34749",
    )
}

fn second_key() -> PrivateKey {
    key_of(
        "ebd5355c07548403c61d784185c6ef5488f0fee86ec9171fdc2249c52e8b4600\
         1b71e6c1b2075b54c6640d024f0d61800ac66429695e0344fa3898fc3b278e43\
         a450988b9447191d6a1f33af5734aaadce09b6967fe9166ac968e66f57887e72\
         2dcda166ee687b6efb882530b466ced7c6e2c630749a932bd65f6935428b7275",
        "ef300f420a354a86c15784de16e9030ff8bb057cb7253585d03c0d0a6a64ceee\
         6c09c82739cc286e12017f533aa44856bd066d48dba20203a689816877af3960\
         e5c722fcf365ac96f3e57de5d4f8dde17bf5dbe74762039039fe2b70000754f6\
         5ac25e07df57e4ad1d1156e946af4457a65781561d1b1638d716ade9be0cbbe3",
    )
}

#[test]
fn test_rsa_key_generation_and_sign_verify() {
    let auth = AdbAuth::generate("testuser@testhost").unwrap();
    let token = b"12345678901234567890"; // 20-byte token

    let signature = auth.build_signature_payload(token).unwrap();
    assert_eq!(signature.len(), 256); // 2048-bit RSA = 256 bytes

    let valid = verify_token_signature(auth.public_key(), token, &signature).unwrap();
    assert!(valid);
}

#[test]
fn test_android_pubkey_encode_decode_roundtrip() {
    let auth = AdbAuth::new(first_key(), "user@hostname");
    let binary = encode_android_pubkey_binary(auth.public_key()).unwrap();
    assert_eq!(binary.len(), ANDROID_PUBKEY_ENCODED_SIZE);

    let decoded_key = decode_android_pubkey_binary(&binary).unwrap();
    assert_eq!(decoded_key, *auth.public_key());
}

#[test]
fn test_adb_public_key_string_format_and_parse() {
    let auth = AdbAuth::new(first_key(), "alice@myhost");
    let formatted_bytes = auth.build_rsakey_payload().unwrap();

    // Ensure ends with '\0'
    assert_eq!(*formatted_bytes.last().unwrap(), 0);

    let key_str = String::from_utf8(formatted_bytes).unwrap();
    assert!(key_str.contains("alice@myhost"));

    let (parsed_key, parsed_label) = parse_adb_public_key_string(&key_str).unwrap();
    assert_eq!(parsed_key, *auth.public_key());
    assert_eq!(parsed_label, "alice@myhost");
}

#[test]
fn test_encode_adb_public_key_string_label_sanitization() {
    let auth = AdbAuth::new(first_key(), "placeholder");
    let dirty_label = " \t  bob@host.local \r\n\0  ";
    let formatted_bytes = encode_adb_public_key_string(auth.public_key(), dirty_label).unwrap();

    assert_eq!(*formatted_bytes.last().unwrap(), 0);
    let key_str = String::from_utf8(formatted_bytes).unwrap();
    assert!(key_str.ends_with(" bob@host.local\0"));

    let (parsed_key, parsed_label) = parse_adb_public_key_string(&key_str).unwrap();
    assert_eq!(parsed_key, *auth.public_key());
    assert_eq!(parsed_label, "bob@host.local");
}

#[test]
fn test_pem_file_trailing_newline_roundtrip() {
    let k = first_key();
    let pem = export_private_key_to_pem(&k).unwrap();
    // PEM files end with a newline.
    let read_back = format!("{pem}\n");
    let re = load_private_key_from_pem(&read_back).expect("PEM with trailing newline must parse");
    assert_eq!(re, k);
}

#[test]
fn test_pem_export_import_roundtrip() {
    let auth = AdbAuth::new(first_key(), "testuser@testhost");
    let pem = export_private_key_to_pem(auth.private_key()).unwrap();
    assert!(pem.contains("BEGIN PRIVATE KEY"));
    let loaded = load_private_key_from_pem(&pem).unwrap();
    assert_eq!(loaded, *auth.private_key());
}

#[test]
fn test_make_auth_messages() {
    let auth = AdbAuth::new(first_key(), "user@host");
    let token = b"sample_token_20_bytes";

    let (sig_hdr, sig_payload) = auth.make_signature_message(token).unwrap();
    assert_eq!(sig_hdr.command, A_AUTH);
    assert_eq!(sig_hdr.arg0, A_AUTH_SIGNATURE);
    assert_eq!(sig_hdr.data_length as usize, sig_payload.len());
    assert_eq!(sig_hdr.auth_type(), Some(AuthType::Signature));

    let (key_hdr, key_payload) = auth.make_rsakey_message().unwrap();
    assert_eq!(key_hdr.command, A_AUTH);
    assert_eq!(key_hdr.arg0, A_AUTH_RSAKEY);
    assert_eq!(key_hdr.data_length as usize, key_payload.len());
    assert_eq!(key_hdr.auth_type(), Some(AuthType::RsaKey));
    assert_eq!(*key_payload.last().unwrap(), 0); // Null byte suffix
}

#[test]
fn test_vendor_keys_split_and_load_order() {
    let user = first_key();
    let k1 = AdbAuth::new(first_key(), "vendor1@host");
    let k2 = AdbAuth::new(second_key(), "vendor2@host");
    let user_pem = export_private_key_to_pem(&user).unwrap();
    let vendor = vec![
        export_private_key_to_pem(k1.private_key()).unwrap(),
        "no key at all".to_string(),
        export_private_key_to_pem(k2.private_key()).unwrap(),
    ];
    let label = default_key_label(Some("me"), None, Some("box"));

    let keys = load_all_keys(&user_pem, &vendor, &label).unwrap();
    assert_eq!(keys.len(), 3, "user key + both vendor keys");
    // Order: user key first, then vendor keys.
    assert_eq!(keys[0].label(), label);
    assert_eq!(*keys[0].private_key(), user);
    assert_eq!(*keys[1].private_key(), *k1.private_key());
    assert_eq!(*keys[2].private_key(), *k2.private_key());

    let token = b"vendor_keys_token20b";
    for k in &keys[1..] {
        let sig = k.build_signature_payload(token).unwrap();
        assert!(verify_token_signature(k.public_key(), token, &sig).unwrap());
        assert!(sign_token(k.private_key(), token).is_ok());
    }
    assert_eq!(load_vendor_keys_only(&vendor, &label).len(), 2);

    // Empty entries are dropped.
    let parsed = get_vendor_keys(Some(":/a/path:"));
    assert_eq!(parsed.len(), 1);
    assert_eq!(get_vendor_keys(None).len(), 0);
}

#[test]
fn test_auth_responder_rotation_and_pubkey_fallback() {
    let k1 = AdbAuth::new(first_key(), "k1@host");
    let k2 = AdbAuth::new(second_key(), "k2@host");
    let token = b"auth_responder_token!";

    let mut responder = AuthResponder::from_key_list(vec![k1.clone(), k2.clone()]);
    assert_eq!(responder.key_count(), 2);

    // 1st TOKEN → SIGNATURE from k1
    let (hdr1, p1) = responder.respond_to_token(token).unwrap().unwrap();
    assert_eq!(hdr1.arg0, A_AUTH_SIGNATURE);
    assert!(verify_token_signature(k1.public_key(), token, &p1).unwrap());

    // 2nd TOKEN → SIGNATURE from k2
    let (hdr2, p2) = responder.respond_to_token(token).unwrap().unwrap();
    assert_eq!(hdr2.arg0, A_AUTH_SIGNATURE);
    assert!(verify_token_signature(k2.public_key(), token, &p2).unwrap());

    // 3rd TOKEN → keys exhausted → RSAPUBLICKEY (k1's)
    let (hdr3, p3) = responder.respond_to_token(token).unwrap().unwrap();
    assert_eq!(hdr3.arg0, A_AUTH_RSAKEY);
    assert!(responder.pubkey_sent());
    let expected_pub = String::from_utf8(k1.make_rsakey_message().unwrap().1).unwrap();
    assert_eq!(p3, expected_pub.into_bytes());

    // Further TOKENs restart the rotation.
    let (hdr4, _) = responder.respond_to_token(token).unwrap().unwrap();
    assert_eq!(hdr4.arg0, A_AUTH_SIGNATURE);
    assert!(!responder.pubkey_sent());
}

#[test]
fn single_responder_answers_with_its_key() {
    let key = AdbAuth::new(first_key(), "one@host");
    let mut responder = AuthResponder::single(key.clone());
    assert_eq!(responder.key_count(), 1);
    let (header, payload) = responder.respond_to_token(b"12345678901234567890").unwrap().unwrap();
    assert_eq!(header.arg0, A_AUTH_SIGNATURE);
    assert!(verify_token_signature(key.public_key(), b"12345678901234567890", &payload).unwrap());
    assert!(!verify_token_signature(key.public_key(), b"12345678901234567891", &payload).unwrap());
}

#[test]
fn key_files_hold_both_keys() {
    let key = first_key();
    let (private_text, public_text) = key_file_contents(&key, "me@box").unwrap();
    assert!(private_text.ends_with('\n'));
    assert_eq!(load_private_key_from_pem(&private_text).unwrap(), key);
    assert!(public_text.ends_with('\n'));
    let (public, label) = parse_adb_public_key_string(&public_text).unwrap();
    assert_eq!(public, key.to_public_key());
    assert_eq!(label, "me@box");
}

#[test]
fn persistent_key_is_reused() {
    let key = first_key();
    let (private_text, _) = key_file_contents(&key, "me@box").unwrap();
    let token = b"01234567890123456789";
    let first = load_userkey(&private_text, "me@box").unwrap();
    let second = load_userkey(&private_text, "me@box").unwrap();
    assert_eq!(first.build_signature_payload(token).unwrap(), second.build_signature_payload(token).unwrap());
    assert_eq!(
        load_userkey("nothing", "me@box").err(),
        Some(AuthError::InvalidPublicKeyFormat("Failed to parse RSA private key PEM".to_string()))
    );
}

#[test]
fn key_paths() {
    assert_eq!(adb_get_android_dir_path(Some("/home/me")).unwrap(), "/home/me/.android");
    assert_eq!(adb_auth_get_userkey_path(Some("/home/me")).unwrap(), "/home/me/.android/adbkey");
    assert_eq!(adb_auth_get_userkey_path(Some("/")).unwrap(), "/.android/adbkey");
    assert_eq!(adb_auth_get_userkey_path(Some("")).unwrap(), ".android/adbkey");
    assert!(adb_auth_get_userkey_path(None).is_err());
    assert_eq!(public_key_path("/home/me/.android/adbkey"), "/home/me/.android/adbkey.pub");
}

#[test]
fn labels_come_from_the_environment() {
    assert_eq!(default_key_label(Some("a"), Some("b"), Some("c")), "a@c");
    assert_eq!(default_key_label(None, Some("b"), None), "b@localhost");
    assert_eq!(default_key_label(None, None, None), "unknown@localhost");
}

#[test]
fn der_goes_there_and_back() {
    let key = first_key();
    assert_eq!(PrivateKey::from_pkcs8_der(key.as_der()), Some(key));
    assert_eq!(PrivateKey::from_pkcs8_der(b"junk"), None);
}

#[test]
fn odd_keys_are_refused() {
    let even = PublicKey { n: vec![0, 1], e: vec![1, 0, 1] };
    assert!(matches!(encode_android_pubkey_binary(&even), Err(AuthError::InvalidPublicKeyFormat(_))));
    let long = PublicKey { n: vec![1; 257], e: vec![1, 0, 1] };
    assert!(matches!(encode_android_pubkey_binary(&long), Err(AuthError::InvalidPublicKeyFormat(_))));
    assert!(decode_android_pubkey_binary(&[0; 10]).is_err());
    assert!(matches!(parse_adb_public_key_string("??? me"), Err(AuthError::Base64(_))));
}

#[test]
fn public_key_binary_holds_the_montgomery_numbers() {
    // n = 2^2048 - 1: n0inv = -1/n mod 2^32 = 1, and 2^4096 mod n = 1.
    let key = PublicKey { n: vec![0xff; 256], e: vec![1, 0, 1] };
    let bytes = encode_android_pubkey_binary(&key).unwrap();
    assert_eq!(&bytes[0..4], &64u32.to_le_bytes());
    assert_eq!(&bytes[4..8], &1u32.to_le_bytes());
    assert_eq!(&bytes[8..264], &[0xff; 256]);
    assert_eq!(bytes[264], 1);
    assert!(bytes[265..520].iter().all(|b| *b == 0));
    assert_eq!(&bytes[520..524], &65537u32.to_le_bytes());
}

#[test]
fn auth_errors_have_texts() {
    assert_eq!(AuthError::NotAuthMessage.message(), "Not an AUTH message");
    assert_eq!(
        AuthError::InvalidTokenLength { expected: 20, got: 3 }.message(),
        "Invalid token length: expected 20, got 3"
    );
}

#[test]
fn test_generate_self_signed_cert() {
    let pem = export_private_key_to_pem(&first_key()).unwrap();
    let (cert_der, key_der) = generate_self_signed_cert(&pem, 1_700_000_000).unwrap();

    assert!(!cert_der.is_empty(), "cert DER should not be empty");
    assert!(!key_der.is_empty(), "key DER should not be empty");
    assert_eq!(cert_der[0], 0x30, "cert DER should start with SEQUENCE tag");
    assert_eq!(key_der[0], 0x30, "key DER should start with SEQUENCE tag");
    assert!(cert_der.len() > 400, "cert DER too small: {}", cert_der.len());
    assert!(key_der.len() > 200, "key DER too small: {}", key_der.len());
}

#[test]
fn test_invalid_pem_error() {
    let result = generate_self_signed_cert("not a valid PEM", 1_700_000_000);
    assert!(result.is_err(), "should return an error for invalid PEM");
    match result {
        Err(TlsError::InvalidPrivateKey(msg)) => {
            assert!(!msg.is_empty(), "error message should not be empty");
        }
        other => panic!("expected InvalidPrivateKey, got: {other:?}"),
    }
}

#[test]
fn certificate_is_that_of_the_key_and_the_time() {
    let key = first_key();
    let pem = export_private_key_to_pem(&key).unwrap();
    let (first, key_der) = generate_self_signed_cert(&pem, 1_700_000_000).unwrap();
    let (again, _) = generate_self_signed_cert(&pem, 1_700_000_000).unwrap();
    let (later, _) = generate_self_signed_cert(&pem, 1_800_000_000).unwrap();
    assert_eq!(first, again);
    assert_ne!(first, later);
    assert_eq!(key_der, key.as_der());
    // The name, and the first and the last day of ten years.
    let has = |cert: &[u8], text: &[u8]| cert.windows(text.len()).any(|w| w == text);
    assert!(has(&first, b"adb"));
    assert!(has(&first, b"231114221320Z"));
    assert!(has(&first, b"331111221320Z"));
    assert_eq!(TlsError::Handshake("x".to_string()).message(), "TLS handshake error: x");
}

#[test]
fn keys_whose_primes_are_far_apart_do_not_sign() {
    let lopsided = key_of(
        "b",
        "d2a2542aaff1922e6f5057948a9121247872b3e4c9af71d8e2082583b0566dc7\
         e9bfb905ebd2e0ea34d730d2715399d04e82ec29dca039e40c7488cd710f19b3\
         64d6f92d28c9fcb52c184189205c5e16cd56cd7e717cb147446bc2ee675d6764\
         89f3534630ec84f397c5d565ded8f363c1747eccf85a018ce8a01cf76e1b8f57",
    );
    assert!(!key_can_sign(&lopsided));
    assert_eq!(
        sign_token(&lopsided, b"12345678901234567890"),
        Err(AuthError::Rsa("the primes of the key are too far apart".to_string()))
    );
    assert!(key_can_sign(&first_key()));
    assert_eq!(sign_token(&first_key(), b"12345678901234567890").unwrap().len(), 256);
}

#[test]
fn base64_texts() {
    let bytes = |s: &str| base64_decode(s);
    assert_eq!(bytes(""), Ok(vec![]));
    assert_eq!(bytes("AP8="), Ok(vec![0, 255]));
    assert_eq!(bytes("+/+/"), Ok(vec![0xfb, 0xff, 0xbf]));
    assert_eq!(bytes("Zm9vYmE="), Ok(b"fooba".to_vec()));
    for odd in ["AP8", "AP9=", "A", "====", "AP8=AP8=", "A P8", "\u{e9}AAA"] {
        assert!(bytes(odd).is_err(), "{odd}");
    }
}
