use user_registry::codec::{decode_user, encode_user};
use user_registry::user::{Identity, User};
use user_registry::uuid::Uuid;
use user_registry::Error;

#[test]
fn encode_then_decode_reproduces_every_field() {
    let u = User {
        principal: Identity::from_bytes(vec![9, 8, 7, 6]).unwrap(),
        username: Some("grüße".to_string()),
        logo_url: None,
        neuron_id: Some(u64::MAX),
        followed_topics: vec!["topic-1".to_string(), "töpic-2".to_string()],
        created_at: 123456789,
        updated_at: 987654321,
    };
    let bytes = encode_user(&u).unwrap();
    let d = decode_user(&bytes).unwrap();
    assert_eq!(d.principal.as_bytes(), u.principal.as_bytes());
    assert_eq!(d.username, u.username);
    assert_eq!(d.logo_url, u.logo_url);
    assert_eq!(d.neuron_id, u.neuron_id);
    assert_eq!(d.followed_topics, u.followed_topics);
    assert_eq!(d.created_at, u.created_at);
    assert_eq!(d.updated_at, u.updated_at);
}

#[test]
fn decode_rejects_corrupt_truncated_and_padded_input() {
    let u = User {
        principal: Identity::from_bytes(vec![1]).unwrap(),
        username: Some("a".to_string()),
        logo_url: None,
        neuron_id: None,
        followed_topics: vec![],
        created_at: 1,
        updated_at: 2,
    };
    let bytes = encode_user(&u).unwrap();
    let truncated = bytes[..bytes.len() - 1].to_vec();
    assert!(decode_user(&truncated).is_none());
    let mut padded = bytes.clone();
    padded.push(0);
    assert!(decode_user(&padded).is_none());
    let mut corrupt = bytes.clone();
    corrupt[2] = 7;
    assert!(decode_user(&corrupt).is_none());
    assert!(decode_user(&Vec::new()).is_none());
}

#[test]
fn encode_refuses_oversized_records() {
    let u = User {
        principal: Identity::from_bytes(vec![1]).unwrap(),
        username: Some("y".repeat(2100)),
        logo_url: None,
        neuron_id: None,
        followed_topics: vec![],
        created_at: 0,
        updated_at: 0,
    };
    assert!(encode_user(&u).is_none());
}

#[test]
fn distinct_bytes_give_distinct_identifiers_that_round_trip() {
    let a = Uuid::from_random_bytes([
        0x01, 0x23, 0x45, 0x67, 0x89, 0xab, 0xcd, 0xef, 0x01, 0x23, 0x45, 0x67, 0x89, 0xab, 0xcd,
        0xef,
    ]);
    let b = Uuid::from_random_bytes([
        0xfe, 0xdc, 0xba, 0x98, 0x76, 0x54, 0x32, 0x10, 0xfe, 0xdc, 0xba, 0x98, 0x76, 0x54, 0x32,
        0x10,
    ]);
    let ta = a.to_text();
    let tb = b.to_text();
    assert_ne!(ta, tb);
    assert_eq!(ta, "01234567-89ab-cdef-0123-456789abcdef");
    let pa = Uuid::parse(&ta).unwrap();
    assert_eq!(pa, a);
    assert_eq!(pa.to_text(), ta);
    let pb = Uuid::parse(&tb).unwrap();
    assert_eq!(pb.to_text(), tb);
}

#[test]
fn parse_rejects_non_canonical_text() {
    assert_eq!(Uuid::parse("not-a-uuid").unwrap_err(), Error::InvalidFormat);
    assert_eq!(Uuid::parse("").unwrap_err(), Error::InvalidFormat);
    assert_eq!(
        Uuid::parse("01234567-89AB-cdef-0123-456789abcdef").unwrap_err(),
        Error::InvalidFormat
    );
    assert_eq!(
        Uuid::parse("0123456789abcdef0123456789abcdef").unwrap_err(),
        Error::InvalidFormat
    );
    assert_eq!(
        Uuid::parse("{01234567-89ab-cdef-0123-456789abcdef}").unwrap_err(),
        Error::InvalidFormat
    );
    assert_eq!(
        Uuid::parse("01234567-89ab-cdef-0123-456789abcdeg").unwrap_err(),
        Error::InvalidFormat
    );
}

#[test]
fn min_and_max_render_as_their_sentinels() {
    assert_eq!(Uuid::min().to_text(), "00000000-0000-0000-0000-000000000000");
    assert_eq!(Uuid::max().to_text(), "ffffffff-ffff-ffff-ffff-ffffffffffff");
    let m = Uuid::parse("00000000-0000-0000-0000-000000000000").unwrap();
    assert_eq!(m, Uuid::min());
}
