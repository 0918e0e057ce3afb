use cardstore::card::{Card, CardId};
use cardstore::codec::{decode_cards, encode_cards};

fn sample_card() -> Card {
    Card {
        id: CardId { bits: 5 },
        title: b"ab".to_vec(),
        tags: vec![b"x".to_vec(), b"yz".to_vec()],
        content: b"c".to_vec(),
        created_at: 1000,
        updated_at: 2000,
    }
}

#[test]
fn encode_empty_list_is_zero_count() {
    let bytes = encode_cards(&vec![]);
    assert_eq!(bytes, vec![0u8; 8]);
}

#[test]
fn encode_one_card_has_exact_layout() {
    let bytes = encode_cards(&vec![sample_card()]);
    let mut expected: Vec<u8> = Vec::new();
    expected.extend_from_slice(&1u64.to_le_bytes()); // card count
    expected.extend_from_slice(&5u128.to_le_bytes()); // identifier
    expected.extend_from_slice(&2u64.to_le_bytes()); // title length
    expected.extend_from_slice(b"ab");
    expected.extend_from_slice(&2u64.to_le_bytes()); // tag count
    expected.extend_from_slice(&1u64.to_le_bytes()); // first tag length
    expected.extend_from_slice(b"x");
    expected.extend_from_slice(&2u64.to_le_bytes()); // second tag length
    expected.extend_from_slice(b"yz");
    expected.extend_from_slice(&1u64.to_le_bytes()); // content length
    expected.extend_from_slice(b"c");
    expected.extend_from_slice(&1000u64.to_le_bytes()); // created_at
    expected.extend_from_slice(&2000u64.to_le_bytes()); // updated_at
    assert_eq!(bytes, expected);
}

#[test]
fn decode_inverts_encode() {
    let cards = vec![
        sample_card(),
        Card {
            id: CardId { bits: u128::MAX },
            title: vec![],
            tags: vec![],
            content: vec![0, 255, 7],
            created_at: -12345, // a time before the epoch survives the trip
            updated_at: i64::MAX,
        },
    ];
    let bytes = encode_cards(&cards);
    let back = decode_cards(&bytes).expect("an encoding must decode");
    assert_eq!(back.len(), 2);
    for (a, b) in cards.iter().zip(back.iter()) {
        assert_eq!(a.id, b.id);
        assert_eq!(a.title, b.title);
        assert_eq!(a.tags, b.tags);
        assert_eq!(a.content, b.content);
        assert_eq!(a.created_at, b.created_at);
        assert_eq!(a.updated_at, b.updated_at);
    }
}

#[test]
fn decode_rejects_truncation_anywhere() {
    let bytes = encode_cards(&vec![sample_card()]);
    for cut in 0..bytes.len() {
        assert!(decode_cards(&bytes[..cut].to_vec()).is_none());
    }
}

#[test]
fn decode_rejects_trailing_garbage() {
    let mut bytes = encode_cards(&vec![sample_card()]);
    bytes.push(0);
    assert!(decode_cards(&bytes).is_none());
}

#[test]
fn decode_rejects_overlong_length_prefix() {
    let mut bytes: Vec<u8> = Vec::new();
    bytes.extend_from_slice(&1u64.to_le_bytes());
    bytes.extend_from_slice(&7u128.to_le_bytes());
    bytes.extend_from_slice(&u64::MAX.to_le_bytes()); // impossible title length
    bytes.extend_from_slice(b"ab");
    assert!(decode_cards(&bytes).is_none());
}
