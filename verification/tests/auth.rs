use core::time::Duration;

use packable::auth::jwt::{Claims, Error};
use packable::auth::password::{generate_salt, password_hash, password_verify};

#[test]
fn claims_new_is_issued_now() {
    let claims = Claims::new("issuer", "subject", "audience").unwrap();
    assert_eq!(claims.issuer(), "issuer");
    assert_eq!(claims.subject(), "subject");
    assert_eq!(claims.audience(), "audience");
    assert_eq!(claims.expiry(), None);
    assert_eq!(claims.not_before(), claims.issued_at());
    assert!(claims.issued_at() > 1_600_000_000);
}

#[test]
fn claims_expiry() {
    let claims = Claims::issued("i", "s", "a", 1000);
    assert_eq!(claims.issued_at(), 1000);
    let claims = claims.expires_after(1000).unwrap();
    assert_eq!(claims.expiry(), Some(1000));
    let claims = claims.expires_after(2000).unwrap();
    assert_eq!(claims.expiry(), Some(2000));
    assert_eq!(
        claims.expires_after(999).unwrap_err(),
        Error::InvalidExpiry { issued_at: 1000, expiry: 999 }
    );
}

#[test]
fn claims_expiry_after_duration() {
    let claims = Claims::issued("i", "s", "a", 1000)
        .expires_after_duration(Duration::from_millis(2500).as_secs())
        .unwrap();
    assert_eq!(claims.expiry(), Some(1002));
    let claims = Claims::issued("i", "s", "a", 1000).expires_after_duration(5).unwrap();
    assert_eq!(claims.expiry(), Some(1005));
    assert_eq!(
        Claims::issued("i", "s", "a", 1000)
            .expires_after_duration(Duration::from_secs(u64::MAX).as_secs())
            .unwrap_err(),
        Error::InvalidExpiry { issued_at: 1000, expiry: 999 }
    );
}

#[test]
fn claims_not_before() {
    let claims = Claims::issued("i", "s", "a", 1000).valid_after(1500).unwrap();
    assert_eq!(claims.not_before(), 1500);
    assert_eq!(claims.issued_at(), 1000);
    assert_eq!(
        Claims::issued("i", "s", "a", 1000).valid_after(1).unwrap_err(),
        Error::InvalidNbf { issued_at: 1000, nbf: 1 }
    );
    let claims = Claims::issued("i", "s", "a", 1000)
        .valid_after_duration(Duration::from_secs(60).as_secs())
        .unwrap();
    assert_eq!(claims.not_before(), 1060);
    assert_eq!(
        Claims::issued("i", "s", "a", 2)
            .valid_after_duration(u64::MAX)
            .unwrap_err(),
        Error::InvalidNbf { issued_at: 2, nbf: 1 }
    );
}

#[test]
fn password_hash_and_verify() {
    let salt = generate_salt();
    assert_ne!(salt, generate_salt());
    let hash = password_hash(b"password", &salt).unwrap();
    assert_eq!(hash.len(), 32);
    assert_ne!(hash.as_slice(), b"password".as_slice());
    assert_eq!(hash, password_hash(b"password", &salt).unwrap());
    assert!(password_verify(b"password", &salt, &hash).unwrap());
    assert!(!password_verify(b"Password", &salt, &hash).unwrap());
    assert!(!password_verify(b"password", &salt, &hash[..31]).unwrap());
}

#[test]
fn password_hash_known_value() {
    let hash = password_hash(b"password", b"somesalt").unwrap();
    assert_eq!(hash, password_hash(b"password", b"somesalt").unwrap());
    assert_ne!(hash, password_hash(b"password", b"othersalt").unwrap());
}

#[test]
fn password_hash_refuses_a_short_salt() {
    assert!(password_hash(b"password", b"salt").is_err());
    assert!(password_verify(b"password", b"salt", &[0; 32]).is_err());
}
