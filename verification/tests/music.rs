use musidex_daemon::entity::{Music, MusicID, Tag, TagKey, User, UserID};
use musidex_daemon::music::{delete_music, DeleteOutcome, MoveDirection};
use musidex_daemon::store::Store;
use musidex_daemon::sync::fetch_metadata;

#[test]
fn test_mk_music() {
    let mut c = Store::new();
    let v = Music::mk(&mut c).unwrap();
    assert!(v.0 == 0 || v.0 == 1);
}

#[test]
fn test_merge_music() {
    let mut c = Store::new();
    User::create(&mut c, "toto".to_string()).unwrap();
    let v = Music::mk(&mut c).unwrap();
    let v2 = Music::mk(&mut c).unwrap();

    Tag::insert(&mut c, Tag::new_integer(v, TagKey::UserLibrary("0".to_string()), 1)).unwrap();
    Tag::insert(&mut c, Tag::new_integer(v2, TagKey::UserLibrary("1".to_string()), 2)).unwrap();

    Tag::insert(&mut c, Tag::new_text(v, TagKey::Artist, "a".to_string())).unwrap();
    Tag::insert(&mut c, Tag::new_text(v2, TagKey::Artist, "b".to_string())).unwrap();

    Music::merge(&mut c, v, v2).unwrap();

    let meta = fetch_metadata(&c);

    assert_eq!(meta.musics.len(), 1);
    assert_eq!(meta.users.len(), 1);
    assert_eq!(meta.tags.as_ref().unwrap().len(), 3);

    assert!(meta
        .tags
        .as_ref()
        .unwrap()
        .iter()
        .any(|x| x.key == TagKey::Artist && x.text == Some("a".to_string())));
}

fn sortkey_of(c: &Store, key: &TagKey, id: MusicID) -> Option<i32> {
    Tag::by_id_key(c, id, key).and_then(|t| t.integer)
}

#[test]
fn test_update_cascade() {
    let mut c = Store::new();
    let id1 = Music::mk(&mut c).unwrap();
    let key = TagKey::UserLibrary("1".to_string());
    Tag::insert(&mut c, Tag::new_integer(id1, key.clone(), 10)).unwrap();

    let id2 = Music::mk(&mut c).unwrap();
    Tag::insert(&mut c, Tag::new_integer(id2, key.clone(), 11)).unwrap();

    let id3 = Music::mk(&mut c).unwrap();
    Tag::insert(&mut c, Tag::new_integer(id3, key.clone(), 12)).unwrap();

    let id4 = Music::mk(&mut c).unwrap();
    Tag::insert(&mut c, Tag::new_integer(id4, key.clone(), 20)).unwrap();

    let id5 = Music::mk(&mut c).unwrap();
    Tag::insert(&mut c, Tag::new_integer(id5, key.clone(), 21)).unwrap();

    let id6 = Music::mk(&mut c).unwrap();
    Tag::insert(&mut c, Tag::new_integer(id6, key.clone(), 19)).unwrap();

    assert!(Music::move_(&mut c, &key, id1, id4, MoveDirection::Above).unwrap());
    assert!(Music::move_(&mut c, &key, id1, id6, MoveDirection::Below).unwrap());
    assert!(!Music::move_(&mut c, &key, MusicID(-1), id1, MoveDirection::Below).unwrap());

    let meta = fetch_metadata(&c);
    for tag in meta.tags.unwrap() {
        if tag.key == key {
            match tag.music_id.0 {
                1 => assert_eq!(tag.integer, Some(10)),
                2 => assert_eq!(tag.integer, Some(12)),
                3 => assert_eq!(tag.integer, Some(13)),
                4 => assert_eq!(tag.integer, Some(11)),
                5 => assert_eq!(tag.integer, Some(21)),
                6 => assert_eq!(tag.integer, Some(9)),
                _ => unreachable!(),
            }
        }
    }

    // after the two moves every member still holds a distinct sortkey
    let ids = [id1, id2, id3, id4, id5, id6];
    for a in 0..ids.len() {
        for b in 0..a {
            assert_ne!(sortkey_of(&c, &key, ids[a]), sortkey_of(&c, &key, ids[b]));
        }
    }
}

#[test]
fn test_delete_cascade() {
    let mut c = Store::new();
    User::create(&mut c, "toto".to_string()).unwrap();
    let id = Music::mk(&mut c).unwrap();
    Tag::insert(&mut c, Tag::new_text(id, TagKey::Duration, "v".to_string())).unwrap();

    Music::delete(&mut c, id).unwrap();
    let meta = fetch_metadata(&c);

    assert_eq!(meta.musics.len(), 0);
    assert_eq!(meta.tags.unwrap().len(), 0);
    assert_eq!(meta.users.len(), 1);
}

#[test]
fn test_delete_request_zero_user() {
    let mut c = Store::new();
    let v = Music::mk(&mut c).unwrap();

    let meta = fetch_metadata(&c);
    assert_eq!(meta.musics.len(), 1);

    // a music nobody owns is deleted outright, whoever asks
    assert_eq!(delete_music(&mut c, UserID(0), v), Ok(DeleteOutcome::Done));

    let meta = fetch_metadata(&c);
    assert_eq!(meta.musics.len(), 0);
}

#[test]
fn test_delete_request_one_user() {
    let mut c = Store::new();
    let v = Music::mk(&mut c).unwrap();
    Tag::insert(&mut c, Tag::new_key(v, TagKey::UserLibrary("0".to_string()))).unwrap();

    let meta = fetch_metadata(&c);
    assert_eq!(meta.musics.len(), 1);

    assert_eq!(delete_music(&mut c, UserID(0), v), Ok(DeleteOutcome::Done));

    let meta = fetch_metadata(&c);
    assert_eq!(meta.musics.len(), 0);
}

#[test]
fn test_delete_request_one_user_wrong_user() {
    let mut c = Store::new();
    let v = Music::mk(&mut c).unwrap();
    Tag::insert(&mut c, Tag::new_key(v, TagKey::UserLibrary("0".to_string()))).unwrap();

    let meta = fetch_metadata(&c);
    assert_eq!(meta.musics.len(), 1);

    assert_eq!(delete_music(&mut c, UserID(-1), v), Ok(DeleteOutcome::Forbidden));

    let meta = fetch_metadata(&c);
    assert_eq!(meta.musics.len(), 1);
    assert_eq!(meta.tags.unwrap().len(), 1);
}

#[test]
fn test_delete_request_two_user() {
    let mut c = Store::new();
    let v = Music::mk(&mut c).unwrap();
    Tag::insert(&mut c, Tag::new_key(v, TagKey::UserLibrary("0".to_string()))).unwrap();
    Tag::insert(&mut c, Tag::new_key(v, TagKey::UserLibrary("1".to_string()))).unwrap();

    let meta = fetch_metadata(&c);
    assert_eq!(meta.musics.len(), 1);

    assert_eq!(delete_music(&mut c, UserID(0), v), Ok(DeleteOutcome::Done));

    let meta = fetch_metadata(&c);
    assert_eq!(meta.musics.len(), 1);
    assert_eq!(meta.tags.unwrap().len(), 1);

    assert_eq!(delete_music(&mut c, UserID(1), v), Ok(DeleteOutcome::Done));

    let meta = fetch_metadata(&c);
    assert_eq!(meta.musics.len(), 0);
    assert_eq!(meta.tags.unwrap().len(), 0);
}

#[test]
fn test_merge_keeps_other_musics() {
    let mut c = Store::new();
    let a = Music::mk(&mut c).unwrap();
    let b = Music::mk(&mut c).unwrap();
    let other = Music::mk(&mut c).unwrap();
    Tag::insert(&mut c, Tag::new_text(b, TagKey::Title, "only b".to_string())).unwrap();
    Tag::insert(&mut c, Tag::new_text(other, TagKey::Title, "other".to_string())).unwrap();

    Music::merge(&mut c, a, b).unwrap();

    // the key only b held now answers under a
    let moved = Tag::by_id_key(&c, a, &TagKey::Title).unwrap();
    assert_eq!(moved.text.as_deref(), Some("only b"));
    // b answers no query at all
    assert!(Tag::by_id(&c, b).is_empty());
    assert!(Tag::by_id_key(&c, b, &TagKey::Title).is_none());
    // an unrelated music is untouched
    let untouched = Tag::by_id_key(&c, other, &TagKey::Title).unwrap();
    assert_eq!(untouched.text.as_deref(), Some("other"));
}
