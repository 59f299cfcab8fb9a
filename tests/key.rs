use surrealdb::error::AddressError;
use surrealdb::id::Id;
use surrealdb::key::{new, Thing};

#[test]
fn key() {
    let val = Thing::new(
        "test".to_string(),
        "test".to_string(),
        "test".to_string(),
        Id::String("test".to_string()),
    );
    let enc = Thing::encode(&val).unwrap();
    let dec = Thing::decode(&enc).unwrap();
    assert_eq!(val, dec);
}

#[test]
fn key_bytes_of_text_id() {
    let enc = new("a", "b", "c", "d").encode().unwrap();
    assert_eq!(
        enc,
        vec![0x2f, 0x2a, b'a', 0, 1, 0x2a, b'b', 0, 1, 0x2a, b'c', 0, 1, 0x2a, 0x02, b'd', 0, 1]
    );
}

#[test]
fn key_bytes_of_number_id() {
    let t = Thing::new("a".to_string(), "b".to_string(), "c".to_string(), Id::Number(1));
    let enc = t.encode().unwrap();
    assert_eq!(
        enc,
        vec![0x2f, 0x2a, b'a', 0, 1, 0x2a, b'b', 0, 1, 0x2a, b'c', 0, 1, 0x2a, 0x01, 0x80, 0, 0, 0, 0, 0, 0, 1]
    );
    let t = Thing::new("a".to_string(), "b".to_string(), "c".to_string(), Id::Number(-1));
    let enc = t.encode().unwrap();
    assert_eq!(&enc[15..], &[0x7f, 0xff, 0xff, 0xff, 0xff, 0xff, 0xff, 0xff]);
}

#[test]
fn round_trip_number_and_unicode() {
    for id in [Id::Number(i64::MIN), Id::Number(0), Id::Number(i64::MAX), Id::String("ünï".to_string())] {
        let t = Thing::new("ns".to_string(), "日本".to_string(), "tb".to_string(), id);
        let enc = t.encode().unwrap();
        assert_eq!(Thing::decode(&enc).unwrap(), t);
    }
}

#[test]
fn order_is_kept() {
    let things = vec![
        Thing::new("a".to_string(), "a".to_string(), "a".to_string(), Id::Number(-5)),
        Thing::new("a".to_string(), "a".to_string(), "a".to_string(), Id::Number(3)),
        Thing::new("a".to_string(), "a".to_string(), "a".to_string(), Id::String("".to_string())),
        Thing::new("a".to_string(), "a".to_string(), "a".to_string(), Id::String("z".to_string())),
        Thing::new("a".to_string(), "a".to_string(), "ab".to_string(), Id::Number(0)),
        Thing::new("a".to_string(), "b".to_string(), "a".to_string(), Id::Number(0)),
        Thing::new("ab".to_string(), "a".to_string(), "a".to_string(), Id::Number(0)),
        Thing::new("b".to_string(), "a".to_string(), "a".to_string(), Id::Number(0)),
    ];
    for w in things.windows(2) {
        assert!(w[0] < w[1]);
        assert!(w[0].encode().unwrap() < w[1].encode().unwrap());
    }
}

#[test]
fn distinct_things_have_distinct_keys() {
    let a = new("ns", "db", "tb", "x").encode().unwrap();
    let b = new("ns", "db", "tb", "y").encode().unwrap();
    assert_ne!(a, b);
}

#[test]
fn truncated_key_is_corrupt() {
    let enc = new("ns", "db", "tb", "id").encode().unwrap();
    for n in 0..enc.len() {
        assert_eq!(Thing::decode(&enc[..n]), Err(AddressError::CorruptKey));
    }
}

#[test]
fn flipped_marker_is_corrupt() {
    let enc = new("ns", "db", "tb", "id").encode().unwrap();
    for i in [0usize, 1, 6, 11, 16] {
        let mut bad = enc.clone();
        bad[i] ^= 0xff;
        assert_eq!(Thing::decode(&bad), Err(AddressError::CorruptKey));
    }
}

#[test]
fn trailing_bytes_are_corrupt() {
    let mut enc = new("ns", "db", "tb", "id").encode().unwrap();
    enc.push(0);
    assert_eq!(Thing::decode(&enc), Err(AddressError::CorruptKey));
}

#[test]
fn invalid_things_are_not_encoded() {
    assert_eq!(new("", "db", "tb", "id").encode(), Err(AddressError::InvalidThing));
    assert_eq!(new("n:s", "db", "tb", "id").encode(), Err(AddressError::InvalidThing));
    assert!(new("ns", "db", "tb", "").encode().is_ok());
}

#[test]
fn key_with_colon_name_is_corrupt() {
    let bytes = vec![0x2f, 0x2a, b'a', b':', 0, 1, 0x2a, b'b', 0, 1, 0x2a, b'c', 0, 1, 0x2a, 0x02, b'd', 0, 1];
    assert_eq!(Thing::decode(&bytes), Err(AddressError::CorruptKey));
    let bytes = vec![0x2f, 0x2a, b'a', 0, 1, 0x2a, b'b', 0, 1, 0x2a, b'c', 0, 1, 0x2a, 0x02, 0xff, 0, 1];
    assert_eq!(Thing::decode(&bytes), Err(AddressError::CorruptKey));
}

#[test]
fn nul_characters_are_escaped() {
    let t = new("\0", "d\0b", "tb", "i\0");
    let enc = t.encode().unwrap();
    assert_eq!(&enc[..6], &[0x2f, 0x2a, 0, 0xff, 0, 1]);
    assert_eq!(Thing::decode(&enc).unwrap(), t);
    assert_ne!(enc, new("\0", "d\0b", "tb", "i").encode().unwrap());
}

#[test]
fn nul_characters_keep_order() {
    let names = ["a", "a\0", "a\0b", "a\u{1}", "ab"];
    for w in names.windows(2) {
        let x = new(w[0], "db", "tb", w[0]).encode().unwrap();
        let y = new(w[1], "db", "tb", w[1]).encode().unwrap();
        assert!(w[0] < w[1]);
        assert!(x < y);
    }
    let x = new("ns", "db", "tb", "").encode().unwrap();
    let y = new("ns", "db", "tb", "\0").encode().unwrap();
    assert!(x < y);
    assert_eq!(Thing::decode(&y[..y.len() - 2]), Err(AddressError::CorruptKey));
}
