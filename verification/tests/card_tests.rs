use cardstore::card::{Card, CardId, RepoError};

#[test]
fn creation_sets_equal_timestamps() {
    let c = Card::new(b"Title".to_vec(), vec![b"x".to_vec()], b"body".to_vec());
    assert_eq!(c.created_at, c.updated_at);
}

#[test]
fn creation_id_has_version_four_nibble() {
    let c = Card::new(b"t".to_vec(), vec![], b"c".to_vec());
    assert_eq!((c.id.bits >> 76) & 0xf, 4);
}

#[test]
fn ids_unique_across_creations() {
    let mut ids = Vec::new();
    for _ in 0..16 {
        let c = Card::new(b"t".to_vec(), vec![], b"c".to_vec());
        assert!(!ids.contains(&c.id.bits));
        ids.push(c.id.bits);
    }
}

#[test]
fn creation_keeps_fields() {
    let c = Card::new(
        b"Title A".to_vec(),
        vec![b"x".to_vec(), b"y".to_vec()],
        b"body".to_vec(),
    );
    assert_eq!(c.title, b"Title A".to_vec());
    assert_eq!(c.content, b"body".to_vec());
    assert_eq!(c.tags, vec![b"x".to_vec(), b"y".to_vec()]);
}

#[test]
fn creation_deduplicates_tags_keeping_first_occurrence() {
    let c = Card::new(
        b"t".to_vec(),
        vec![b"x".to_vec(), b"y".to_vec(), b"x".to_vec(), b"z".to_vec(), b"y".to_vec()],
        b"c".to_vec(),
    );
    assert_eq!(c.tags, vec![b"x".to_vec(), b"y".to_vec(), b"z".to_vec()]);
}

#[test]
fn update_title_changes_only_title_and_timestamp() {
    let mut c = Card::new(b"old".to_vec(), vec![b"x".to_vec()], b"body".to_vec());
    let created = c.created_at;
    let updated_before = c.updated_at;
    let id = c.id;
    c.update_title(b"new".to_vec());
    assert_eq!(c.title, b"new".to_vec());
    assert_eq!(c.tags, vec![b"x".to_vec()]);
    assert_eq!(c.content, b"body".to_vec());
    assert_eq!(c.created_at, created);
    assert_eq!(c.id, id);
    assert!(c.updated_at >= updated_before);
    assert!(c.updated_at >= c.created_at);
}

#[test]
fn update_tags_replaces_wholesale_and_dedups() {
    let mut c = Card::new(b"t".to_vec(), vec![b"a".to_vec()], b"c".to_vec());
    c.update_tags(vec![b"m".to_vec(), b"n".to_vec(), b"m".to_vec()]);
    assert_eq!(c.tags, vec![b"m".to_vec(), b"n".to_vec()]);
    assert!(c.updated_at >= c.created_at);
}

#[test]
fn update_content_changes_only_content_and_timestamp() {
    let mut c = Card::new(b"t".to_vec(), vec![b"a".to_vec()], b"old".to_vec());
    let created = c.created_at;
    c.update_content(b"new body".to_vec());
    assert_eq!(c.content, b"new body".to_vec());
    assert_eq!(c.title, b"t".to_vec());
    assert_eq!(c.tags, vec![b"a".to_vec()]);
    assert_eq!(c.created_at, created);
    assert!(c.updated_at >= c.created_at);
}

#[test]
fn clone_copies_every_field() {
    let c = Card::new(b"t".to_vec(), vec![b"a".to_vec(), b"b".to_vec()], b"c".to_vec());
    let d = c.clone();
    assert_eq!(c.id, d.id);
    assert_eq!(c.title, d.title);
    assert_eq!(c.tags, d.tags);
    assert_eq!(c.content, d.content);
    assert_eq!(c.created_at, d.created_at);
    assert_eq!(c.updated_at, d.updated_at);
}

#[test]
fn parse_canonical_identifier_string() {
    let r = CardId::parse("00000000-0000-0000-0000-000000000001");
    assert_eq!(r, Ok(CardId { bits: 1 }));
    let r2 = CardId::parse("67e55044-10b1-426f-9247-bb680e5fe0c8");
    assert_eq!(r2, Ok(CardId { bits: 0x67e5504410b1426f9247bb680e5fe0c8 }));
}

#[test]
fn parse_malformed_identifier_fails() {
    assert_eq!(CardId::parse("not-an-identifier"), Err(RepoError::IdentifierParse));
    assert_eq!(CardId::parse(""), Err(RepoError::IdentifierParse));
    assert!(CardId::parse("00000000-0000-0000-0000-00000000000") .is_err());
}

#[test]
fn error_messages_distinguish_variants() {
    assert_ne!(RepoError::Decode.message(), RepoError::IdentifierParse.message());
}
