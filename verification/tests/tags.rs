use musidex_daemon::entity::{Music, MusicID, Tag, TagKey};
use musidex_daemon::store::{clean, Store, StoreError};
use musidex_daemon::sync::fetch_metadata;

#[test]
fn tags_test_insert_tag() {
    let mut c = Store::new();
    let music = Music::mk(&mut c).unwrap();
    let tag = Tag::new_text(music, TagKey::Duration, "value".to_string());
    Tag::insert(&mut c, tag.clone()).unwrap();

    let metadata = fetch_metadata(&c);
    assert_eq!(metadata.musics[0], music);
    assert_eq!(metadata.tags.unwrap()[0], tag);
}

#[test]
fn test_remove_tag() {
    let mut c = Store::new();
    let music = Music::mk(&mut c).unwrap();
    let tag = Tag::new_text(music, TagKey::Duration, "value".to_string());
    Tag::insert(&mut c, tag.clone()).unwrap();

    let metadata = fetch_metadata(&c);
    assert_eq!(metadata.musics[0], music);
    assert_eq!(metadata.tags.unwrap()[0], tag);

    Tag::remove(&mut c, tag.music_id, &tag.key).unwrap();

    let metadata = fetch_metadata(&c);
    assert_eq!(metadata.tags.unwrap().len(), 0);

    // removing an absent tag is a harmless success
    Tag::remove(&mut c, tag.music_id, &tag.key).unwrap();
}

#[test]
fn test_update_tag() {
    let mut c = Store::new();
    let music = Music::mk(&mut c).unwrap();
    let tag = Tag::new_text(music, TagKey::Duration, "123".to_string());
    Tag::insert(&mut c, tag).unwrap();

    let tag2 = Tag::new_text(music, TagKey::Duration, "456".to_string());
    Tag::insert(&mut c, tag2.clone()).unwrap();

    let metadata = fetch_metadata(&c);
    assert_eq!(metadata.musics[0], music);
    let tags = metadata.tags.unwrap();
    assert_eq!(tags.len(), 1);
    assert_eq!(tags[0], tag2);
}

#[test]
fn test_nested_tagkey_roundtrip() {
    let mut c = Store::new();
    let music = Music::mk(&mut c).unwrap();
    let tag = Tag::new_key(music, TagKey::UserLibrary(":test:test".to_string()));
    Tag::insert(&mut c, tag.clone()).unwrap();

    let s: String = tag.key.encode();
    assert_eq!(s, "user_library::test:test".to_string());
    assert_eq!(TagKey::decode(&s), tag.key);

    let metadata = fetch_metadata(&c);
    assert_eq!(metadata.musics[0], music);
    assert_eq!(metadata.tags.unwrap()[0], tag);
}

#[test]
fn test_tags_by_text() {
    let mut c = Store::new();
    let music = Music::mk(&mut c).unwrap();
    let tag = Tag::new_text(music, TagKey::Duration, "value".to_string());
    Tag::insert(&mut c, tag.clone()).unwrap();

    let tags = Tag::by_text(&c, "value");
    assert_eq!(tags[0], tag);
}

#[test]
fn test_tags_by_key_text() {
    let mut c = Store::new();
    let music = Music::mk(&mut c).unwrap();
    let tag = Tag::new_text(music, TagKey::Duration, "value".to_string());
    Tag::insert(&mut c, tag.clone()).unwrap();
    let tag = Tag::new_text(music, TagKey::YoutubeDLOriginalTitle, "value".to_string());
    Tag::insert(&mut c, tag.clone()).unwrap();

    let tags = Tag::by_key_text(&c, &TagKey::YoutubeDLOriginalTitle, "value");
    assert_eq!(tags[0], tag);
    assert_eq!(1, tags.len());
}

#[test]
fn test_max_by_key() {
    let mut c = Store::new();

    let v = Tag::max_integer_by_key(&c, &TagKey::Duration);
    assert_eq!(v, None);

    let music = Music::mk(&mut c).unwrap();
    let tag = Tag::new_integer(music, TagKey::Duration, 3);
    Tag::insert(&mut c, tag.clone()).unwrap();

    let music = Music::mk(&mut c).unwrap();
    let tag = Tag::new_integer(music, TagKey::Duration, 1);
    Tag::insert(&mut c, tag.clone()).unwrap();

    let v = Tag::max_integer_by_key(&c, &TagKey::Duration);
    assert_eq!(v, Some(3));

    let v = Tag::max_integer_by_key(&c, &TagKey::YoutubeDLVideoID);
    assert_eq!(v, None);
}

#[test]
fn test_insert_needs_music() {
    let mut c = Store::new();
    let tag = Tag::new_text(MusicID(7), TagKey::Title, "x".to_string());
    assert_eq!(Tag::insert(&mut c, tag), Err(StoreError::ForeignKey));
}

#[test]
fn test_new_parse_year() {
    let mut c = Store::new();
    let music = Music::mk(&mut c).unwrap();
    let tag = Tag::new_parse(music, TagKey::Duration, "1994".to_string());
    assert_eq!(tag.integer, Some(1994));
    assert_eq!(tag.date.as_deref(), Some("1994-01-02T00:00:00+00:00"));
    assert_eq!(tag.text.as_deref(), Some("1994"));

    let tag = Tag::new_parse(music, TagKey::Duration, "not a number".to_string());
    assert_eq!(tag.integer, None);
}

#[test]
fn test_default_sortkey() {
    let mut c = Store::new();
    let m1 = Music::mk(&mut c).unwrap();
    let m2 = Music::mk(&mut c).unwrap();
    let lib = TagKey::UserLibrary("1".to_string());

    // first member of an empty library lands at 100
    let t = Tag::with_default_sortkey(&c, Tag::new_key(m1, lib.clone()));
    assert_eq!(t.integer, Some(100));
    Tag::insert(&mut c, t).unwrap();

    // the next lands one hundred past the largest
    let t = Tag::with_default_sortkey(&c, Tag::new_key(m2, lib.clone()));
    assert_eq!(t.integer, Some(200));

    // a brought position is kept, and other keys are left alone
    let t = Tag::with_default_sortkey(&c, Tag::new_integer(m2, lib.clone(), 7));
    assert_eq!(t.integer, Some(7));
    let t = Tag::with_default_sortkey(&c, Tag::new_key(m2, TagKey::Title));
    assert_eq!(t.integer, None);
}

#[test]
fn test_clean_removes_orphans() {
    let mut c = Store::new();
    let owned = Music::mk(&mut c).unwrap();
    let orphan = Music::mk(&mut c).unwrap();
    Tag::insert(&mut c, Tag::new_key(owned, TagKey::UserLibrary("1".to_string()))).unwrap();
    Tag::insert(&mut c, Tag::new_text(owned, TagKey::Title, "keep".to_string())).unwrap();
    Tag::insert(&mut c, Tag::new_text(orphan, TagKey::Title, "drop".to_string())).unwrap();

    clean(&mut c).unwrap();

    let meta = fetch_metadata(&c);
    assert_eq!(meta.musics, vec![owned]);
    assert_eq!(meta.tags.unwrap().len(), 2);
}
