use cardstore::card::{Card, CardId, RepoError};
use cardstore::repository::Repository;

fn fresh_repo() -> Repository {
    let (repo, init) = Repository::new("default".to_string(), None).unwrap();
    assert!(init.is_some());
    repo
}

#[test]
fn open_fresh_yields_empty_mapping_and_initial_image() {
    let (repo, init) = Repository::new("default".to_string(), None).unwrap();
    assert_eq!(repo.get_all_cards().len(), 0);
    // An empty mapping encodes as a zero card count: eight zero bytes.
    assert_eq!(init.unwrap(), vec![0u8; 8]);
}

#[test]
fn reopening_initial_image_yields_empty_mapping() {
    let (_, init) = Repository::new("default".to_string(), None).unwrap();
    let (reopened, none_init) =
        Repository::new("default".to_string(), Some(init.unwrap())).unwrap();
    assert!(none_init.is_none());
    assert_eq!(reopened.get_all_cards().len(), 0);
}

#[test]
fn add_card_returns_card_and_lists_it() {
    let mut repo = fresh_repo();
    let (card, _image) = repo.add_card(
        b"Title A".to_vec(),
        vec![b"x".to_vec(), b"y".to_vec()],
        b"body".to_vec(),
    );
    assert_ne!(card.id.bits, 0);
    assert_eq!(card.title, b"Title A".to_vec());
    assert_eq!(card.tags, vec![b"x".to_vec(), b"y".to_vec()]);
    assert_eq!(card.content, b"body".to_vec());
    let all = repo.get_all_cards();
    assert_eq!(all.len(), 1);
    assert_eq!(all[0].id, card.id);
    assert_eq!(all[0].title, card.title);
    assert_eq!(all[0].tags, card.tags);
    assert_eq!(all[0].content, card.content);
    assert_eq!(all[0].created_at, card.created_at);
    assert_eq!(all[0].updated_at, card.updated_at);
}

#[test]
fn get_card_finds_by_identifier() {
    let mut repo = fresh_repo();
    let (card, _) = repo.add_card(b"t".to_vec(), vec![], b"c".to_vec());
    let found = repo.get_card(&card.id).expect("card should be present");
    assert_eq!(found.title, b"t".to_vec());
    let absent = CardId { bits: card.id.bits.wrapping_add(1) };
    assert!(repo.get_card(&absent).is_none());
}

#[test]
fn save_then_open_round_trips_every_field() {
    let mut repo = fresh_repo();
    let (c1, _) = repo.add_card(
        b"First".to_vec(),
        vec![b"alpha".to_vec(), b"beta".to_vec()],
        b"one".to_vec(),
    );
    let (c2, _) = repo.add_card(b"Second".to_vec(), vec![], b"two".to_vec());
    let image = repo.save();
    let (reopened, _) = Repository::new("default".to_string(), Some(image)).unwrap();
    let mut all = reopened.get_all_cards();
    assert_eq!(all.len(), 2);
    all.sort_by_key(|c| c.title.clone());
    assert_eq!(all[0].id, c1.id);
    assert_eq!(all[0].title, c1.title);
    assert_eq!(all[0].tags, c1.tags);
    assert_eq!(all[0].content, c1.content);
    assert_eq!(all[0].created_at, c1.created_at);
    assert_eq!(all[0].updated_at, c1.updated_at);
    assert_eq!(all[1].id, c2.id);
    assert_eq!(all[1].title, c2.title);
    assert_eq!(all[1].tags, c2.tags);
    assert_eq!(all[1].content, c2.content);
}

#[test]
fn update_title_hits_and_advances_timestamp() {
    let mut repo = fresh_repo();
    let (card, _) = repo.add_card(b"Old".to_vec(), vec![], b"c".to_vec());
    let before = card.updated_at;
    let (hit, image) = repo.update_card_title(&card.id, b"New".to_vec());
    assert!(hit);
    assert!(image.is_some());
    let found = repo.get_card(&card.id).unwrap();
    assert_eq!(found.title, b"New".to_vec());
    assert!(found.updated_at >= before);
    assert_eq!(found.created_at, card.created_at);
}

#[test]
fn update_tags_replaces_set() {
    let mut repo = fresh_repo();
    let (card, _) = repo.add_card(b"t".to_vec(), vec![b"a".to_vec()], b"c".to_vec());
    let (hit, image) = repo.update_card_tags(&card.id, vec![b"m".to_vec(), b"m".to_vec()]);
    assert!(hit);
    assert!(image.is_some());
    assert_eq!(repo.get_card(&card.id).unwrap().tags, vec![b"m".to_vec()]);
}

#[test]
fn update_content_replaces_body() {
    let mut repo = fresh_repo();
    let (card, _) = repo.add_card(b"t".to_vec(), vec![], b"old".to_vec());
    let (hit, image) = repo.update_card_content(&card.id, b"new".to_vec());
    assert!(hit);
    assert!(image.is_some());
    assert_eq!(repo.get_card(&card.id).unwrap().content, b"new".to_vec());
}

#[test]
fn update_miss_returns_false_without_image() {
    let mut repo = fresh_repo();
    let (card, _) = repo.add_card(b"t".to_vec(), vec![], b"c".to_vec());
    let absent = CardId { bits: card.id.bits.wrapping_add(1) };
    let (hit, image) = repo.update_card_title(&absent, b"x".to_vec());
    assert!(!hit);
    assert!(image.is_none());
    let (hit2, image2) = repo.update_card_tags(&absent, vec![b"x".to_vec()]);
    assert!(!hit2);
    assert!(image2.is_none());
    let (hit3, image3) = repo.update_card_content(&absent, b"x".to_vec());
    assert!(!hit3);
    assert!(image3.is_none());
    // The mapping is untouched.
    let all = repo.get_all_cards();
    assert_eq!(all.len(), 1);
    assert_eq!(all[0].title, b"t".to_vec());
}

#[test]
fn delete_hits_then_misses() {
    let mut repo = fresh_repo();
    let (card, _) = repo.add_card(b"t".to_vec(), vec![], b"c".to_vec());
    let (existed, image) = repo.delete_card(&card.id);
    assert!(existed);
    assert!(image.is_some());
    assert!(repo.get_card(&card.id).is_none());
    let (again, image2) = repo.delete_card(&card.id);
    assert!(!again);
    assert!(image2.is_none());
}

#[test]
fn delete_missing_twice_returns_false_without_image() {
    let mut repo = fresh_repo();
    let absent = CardId { bits: 42 };
    let saved = repo.save();
    let (a, ia) = repo.delete_card(&absent);
    let (b, ib) = repo.delete_card(&absent);
    assert!(!a && !b);
    assert!(ia.is_none() && ib.is_none());
    // No spurious save: the image of the mapping is unchanged.
    assert_eq!(repo.save(), saved);
}

#[test]
fn corrupt_bytes_fail_with_decode_error() {
    let r = Repository::new("default".to_string(), Some(vec![1, 2, 3]));
    assert_eq!(r.err(), Some(RepoError::Decode));
    let r2 = Repository::new("default".to_string(), Some(vec![0xff; 64]));
    assert!(matches!(r2, Err(RepoError::Decode)));
}

#[test]
fn trailing_bytes_fail_with_decode_error() {
    let mut image = vec![0u8; 8];
    image.push(7);
    let r = Repository::new("default".to_string(), Some(image));
    assert_eq!(r.err(), Some(RepoError::Decode));
}

#[test]
fn duplicate_identifiers_in_image_fail_with_decode_error() {
    let mk = |bits: u128| Card {
        id: CardId { bits },
        title: b"t".to_vec(),
        tags: vec![],
        content: b"c".to_vec(),
        created_at: 10,
        updated_at: 20,
    };
    let image = cardstore::codec::encode_cards(&vec![mk(9), mk(9)]);
    let r = Repository::new("default".to_string(), Some(image));
    assert_eq!(r.err(), Some(RepoError::Decode));
}

#[test]
fn two_sequential_writers_both_reach_the_image() {
    let mut repo = fresh_repo();
    let (c1, first_image) = repo.add_card(b"one".to_vec(), vec![], b"1".to_vec());
    let (c2, second_image) = repo.add_card(b"two".to_vec(), vec![], b"2".to_vec());
    // The image after the first mutation holds only the first card.
    let (after_first, _) = Repository::new("default".to_string(), Some(first_image)).unwrap();
    assert_eq!(after_first.get_all_cards().len(), 1);
    assert!(after_first.get_card(&c1.id).is_some());
    // The image after the second holds both, in issuance order.
    let (after_second, _) = Repository::new("default".to_string(), Some(second_image)).unwrap();
    assert_eq!(after_second.get_all_cards().len(), 2);
    assert!(after_second.get_card(&c1.id).is_some());
    assert!(after_second.get_card(&c2.id).is_some());
}

#[test]
fn mutation_image_matches_save() {
    let mut repo = fresh_repo();
    let (_, image) = repo.add_card(b"t".to_vec(), vec![b"x".to_vec()], b"c".to_vec());
    assert_eq!(image, repo.save());
}
