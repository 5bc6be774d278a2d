use save::digest::{decimal_digits, hash_commit, hash_object, signed_decimal_digits, Oid};
use sha1::{Digest, Sha1};

fn hex(id: &Oid) -> String {
    let mut out = String::new();
    for byte in id.bytes {
        out += &format!("{byte:02x}");
    }
    out
}

#[test]
fn decimal_digits_of_known_numbers() {
    assert_eq!(decimal_digits(0), b"0".to_vec());
    assert_eq!(decimal_digits(7), b"7".to_vec());
    assert_eq!(decimal_digits(10), b"10".to_vec());
    assert_eq!(decimal_digits(12345), b"12345".to_vec());
    assert_eq!(decimal_digits(1641915519), b"1641915519".to_vec());
    assert_eq!(decimal_digits(u64::MAX), b"18446744073709551615".to_vec());
}

#[test]
fn signed_decimal_digits_of_known_numbers() {
    assert_eq!(signed_decimal_digits(0), b"0".to_vec());
    assert_eq!(signed_decimal_digits(42), b"42".to_vec());
    assert_eq!(signed_decimal_digits(-42), b"-42".to_vec());
    assert_eq!(signed_decimal_digits(i64::MAX), b"9223372036854775807".to_vec());
    assert_eq!(signed_decimal_digits(i64::MIN), b"-9223372036854775808".to_vec());
}

#[test]
fn object_ids_of_known_objects() {
    assert_eq!(
        hex(&Oid::for_object("blob", b"")),
        "e69de29bb2d1d6434b8b29ae775ad8c2e48c5391"
    );
    assert_eq!(
        hex(&Oid::for_object("blob", b"hello world\n")),
        "3b18e512dba79e4c8300dd08aeb37f8e728b8dad"
    );
    assert_eq!(
        hex(&Oid::for_object("blob", b"test content\n")),
        "d670460b4b4aece5915caf5c68d12f560a9fe3e4"
    );
    assert_eq!(
        hex(&Oid::for_object("tree", b"")),
        "4b825dc642cb6eb9a060e54bf8d69288fbee4904"
    );
}

#[test]
fn object_id_is_the_digest_of_header_and_body() {
    let body = b"tree 4b825dc642cb6eb9a060e54bf8d69288fbee4904\n\nmessage\n";
    let mut whole = format!("commit {}\0", body.len()).into_bytes();
    whole.extend_from_slice(body);
    let expected: [u8; 20] = Sha1::digest(&whole).into();
    assert_eq!(hash_commit(body).bytes, expected);
    assert_eq!(hash_object(b"commit", body).bytes, expected);
    assert_eq!(Oid::for_object("commit", body).bytes, expected);
    assert_ne!(hash_commit(body).bytes, hash_commit(&whole).bytes);
}

#[test]
fn digest_is_deterministic() {
    let body = b"some body of an object".to_vec();
    let first = Oid::for_object("blob", &body);
    let second = Oid::for_object("blob", &body);
    assert_eq!(first, second);
    assert!(first.same(&second));
}

#[test]
fn digest_changes_with_one_byte() {
    let body = b"some body of an object".to_vec();
    let id = Oid::for_object("blob", &body);
    for i in 0..body.len() {
        let mut other = body.clone();
        other[i] ^= 1;
        let changed = Oid::for_object("blob", &other);
        assert_ne!(id, changed);
        assert!(!id.same(&changed));
    }
    assert_ne!(id, Oid::for_object("tree", &body));
}

#[test]
fn oid_from_array_keeps_the_bytes() {
    let mut bytes = [0_u8; 20];
    for (i, byte) in bytes.iter_mut().enumerate() {
        *byte = i as u8 * 3;
    }
    assert_eq!(Oid::from_array(bytes).bytes, bytes);
}
