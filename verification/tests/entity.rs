use musidex_daemon::entity::{parse_split, reconstruct, TagKey};

fn assert_key_roundtrip(k: TagKey) {
    let encoded = k.encode();
    assert_eq!(TagKey::decode(&encoded), k, "key was: {}", encoded);
}

#[test]
fn test_tagkey_roundtrip_every_variant() {
    assert_key_roundtrip(TagKey::LocalMP3);
    assert_key_roundtrip(TagKey::LocalWEBM);
    assert_key_roundtrip(TagKey::LocalM4A);
    assert_key_roundtrip(TagKey::LocalOGG);
    assert_key_roundtrip(TagKey::YoutubeDLURL);
    assert_key_roundtrip(TagKey::YoutubeDLVideoID);
    assert_key_roundtrip(TagKey::YoutubeDLWorkerTreated);
    assert_key_roundtrip(TagKey::YoutubeDLOriginalTitle);
    assert_key_roundtrip(TagKey::YoutubeDLPlaylist);
    assert_key_roundtrip(TagKey::Title);
    assert_key_roundtrip(TagKey::Artist);
    assert_key_roundtrip(TagKey::CompressedThumbnail);
    assert_key_roundtrip(TagKey::Thumbnail);
    assert_key_roundtrip(TagKey::Duration);
    assert_key_roundtrip(TagKey::Embedding);
    assert_key_roundtrip(TagKey::FullEmbedding);
    assert_key_roundtrip(TagKey::UserLibrary(String::new()));
    assert_key_roundtrip(TagKey::UserLibrary(":aa11--".to_string()));
    assert_key_roundtrip(TagKey::UserLibrary("a:b:c".to_string()));
    assert_key_roundtrip(TagKey::Other("something_else".to_string()));
}

#[test]
fn test_decode_falls_back_to_other() {
    assert_eq!(
        TagKey::decode("mystery"),
        TagKey::Other("mystery".to_string())
    );
    assert_eq!(
        TagKey::decode("prefix:value"),
        TagKey::Other("prefix:value".to_string())
    );
    assert_eq!(
        TagKey::decode("user_library:42"),
        TagKey::UserLibrary("42".to_string())
    );
    assert_eq!(TagKey::decode("title"), TagKey::Title);
}

#[test]
fn test_parse_split_first_colon() {
    assert_eq!(parse_split("a:b:c"), Some(("a", "b:c")));
    assert_eq!(parse_split(":x"), Some(("", "x")));
    assert_eq!(parse_split("none"), None);
}

#[test]
fn test_reconstruct_vector() {
    let v = reconstruct(vec![1, 0, 0, 0, 0, 2, 0, 0]).unwrap();
    assert_eq!(v.0, vec![1, 0x200]);
    assert!(reconstruct(vec![1, 2, 3]).is_none());
    assert_eq!(reconstruct(vec![]).unwrap().0.len(), 0);
}
