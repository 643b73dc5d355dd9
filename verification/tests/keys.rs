use crypto_practices::keys::{derive_key, random_bytes, random_hex};

#[test]
fn pbkdf2_known_vector() {
    // RFC 6070-style but with SHA256 — we just check determinism + length.
    let h1 = derive_key("password", b"salt", 1000, 16);
    let h2 = derive_key("password", b"salt", 1000, 16);
    assert_eq!(h1, h2);
    assert_eq!(h1.len(), 32);
}

#[test]
fn pbkdf2_sha256_rfc7914_vector() {
    // RFC 7914 section 11: PBKDF2-HMAC-SHA256, P = "passwd", S = "salt", c = 1, dkLen = 64.
    let h = derive_key("passwd", b"salt", 1, 64);
    assert_eq!(
        h,
        "55ac046e56e3089fec1691c22544b605f94185216dde0465e68b9d57c20dacbc\
         49ca9cccf179b645991664b39d77ef317c71b845b1e30bd509112041d3a19783"
    );
}

#[test]
fn random_helpers_have_requested_length() {
    assert_eq!(random_bytes(0).len(), 0);
    assert_eq!(random_bytes(37).len(), 37);
    let h = random_hex(8);
    assert_eq!(h.len(), 16);
    assert!(h.chars().all(|c| c.is_ascii_hexdigit() && !c.is_ascii_uppercase()));
}
