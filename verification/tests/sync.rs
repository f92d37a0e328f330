use musidex_daemon::entity::{Music, Tag, TagKey, User};
use musidex_daemon::store::Store;
use musidex_daemon::sync::{
    compress_meta, fetch_metadata, handle_ws_frame, mk_patches, mk_tag_map, SyncBroadcast,
    WsAction, WsFrame,
};

#[test]
fn test_mk_tag_map_dedupes() {
    let mut c = Store::new();
    let m = Music::mk(&mut c).unwrap();
    Tag::insert(&mut c, Tag::new_text(m, TagKey::Title, "a".to_string())).unwrap();
    Tag::insert(&mut c, Tag::new_text(m, TagKey::Artist, "b".to_string())).unwrap();
    let meta = fetch_metadata(&c);
    let map = mk_tag_map(&meta);
    assert_eq!(map.len(), 2);
}

/// Applies one patch envelope to a client's keyed map, the way a
/// subscriber rebuilds its view.
fn apply_patches(client: &mut Vec<Tag>, patches: &[musidex_daemon::entity::Patch]) {
    for p in patches {
        let pos = client
            .iter()
            .position(|t| t.music_id == p.tag.music_id && t.key == p.tag.key);
        if p.kind == "remove" {
            if let Some(i) = pos {
                client.remove(i);
            }
        } else {
            match pos {
                Some(i) => client[i] = p.tag.clone(),
                None => client.push(p.tag.clone()),
            }
        }
    }
}

fn same_pairs(a: &[Tag], b: &[Tag]) -> bool {
    a.len() == b.len()
        && a.iter().all(|t| {
            b.iter()
                .any(|u| u.music_id == t.music_id && u.key == t.key && u == t)
        })
}

#[test]
fn test_broadcast_convergence_scenario() {
    let mut c = Store::new();
    let mut b = SyncBroadcast::new();

    let m1 = Music::mk(&mut c).unwrap();
    Tag::insert(&mut c, Tag::new_text(m1, TagKey::Title, "one".to_string())).unwrap();

    // first publish: the subscriber starts from the full snapshot
    let (full, patch) = b.step(fetch_metadata(&c)).expect("changed");
    assert!(patch.is_none());
    let mut client = mk_tag_map(&full);

    // an unchanged cycle publishes nothing
    assert!(b.step(fetch_metadata(&c)).is_none());

    // now mutate: update one tag, add one music, remove nothing
    Tag::insert(&mut c, Tag::new_text(m1, TagKey::Title, "two".to_string())).unwrap();
    let m2 = Music::mk(&mut c).unwrap();
    Tag::insert(&mut c, Tag::new_text(m2, TagKey::Artist, "x".to_string())).unwrap();

    let (full2, patch2) = b.step(fetch_metadata(&c)).expect("changed");
    let envelope = patch2.expect("had a previous snapshot");
    apply_patches(&mut client, envelope.patches.as_ref().unwrap());
    assert!(same_pairs(&client, &mk_tag_map(&full2)));

    // and a removal converges too
    Tag::remove(&mut c, m1, &TagKey::Title).unwrap();
    let (full3, patch3) = b.step(fetch_metadata(&c)).expect("changed");
    let envelope = patch3.expect("had a previous snapshot");
    let kinds: Vec<&str> = envelope
        .patches
        .as_ref()
        .unwrap()
        .iter()
        .map(|p| p.kind.as_str())
        .collect();
    assert!(kinds.contains(&"remove"));
    apply_patches(&mut client, envelope.patches.as_ref().unwrap());
    assert!(same_pairs(&client, &mk_tag_map(&full3)));
}

#[test]
fn test_patch_kinds() {
    let mut c = Store::new();
    let m1 = Music::mk(&mut c).unwrap();
    Tag::insert(&mut c, Tag::new_text(m1, TagKey::Title, "one".to_string())).unwrap();
    Tag::insert(&mut c, Tag::new_text(m1, TagKey::Artist, "a".to_string())).unwrap();
    let before = fetch_metadata(&c);
    let (last_map, none) = mk_patches(&None, &before);
    assert!(none.is_none());

    Tag::insert(&mut c, Tag::new_text(m1, TagKey::Title, "two".to_string())).unwrap();
    Tag::remove(&mut c, m1, &TagKey::Artist).unwrap();
    Tag::insert(&mut c, Tag::new_text(m1, TagKey::Thumbnail, "t.jpg".to_string())).unwrap();
    let after = fetch_metadata(&c);

    let (_, envelope) = mk_patches(&Some(last_map), &after);
    let envelope = envelope.unwrap();
    assert!(envelope.tags.is_none());
    let patches = envelope.patches.unwrap();
    let mut kinds: Vec<String> = patches.iter().map(|p| p.kind.clone()).collect();
    kinds.sort();
    assert_eq!(kinds, vec!["add", "remove", "update"]);
}

#[test]
fn test_compress_meta_roundtrip() {
    let payload: Vec<u8> = br#"{"musics":[1,2,3],"tags":[]}"#.to_vec();
    let compressed = compress_meta(&payload);
    assert_ne!(compressed, payload);
    let back = miniz_oxide::inflate::decompress_to_vec(&compressed).unwrap();
    assert_eq!(back, payload);
}

#[test]
fn test_ws_frames() {
    assert!(matches!(handle_ws_frame(WsFrame::Close), WsAction::EndSession));
    assert!(matches!(
        handle_ws_frame(WsFrame::Text("refresh".to_string())),
        WsAction::Refresh
    ));
    assert!(matches!(
        handle_ws_frame(WsFrame::Text("other".to_string())),
        WsAction::Ignore
    ));
    assert!(matches!(
        handle_ws_frame(WsFrame::Binary(vec![1, 2])),
        WsAction::Ignore
    ));
    assert!(matches!(handle_ws_frame(WsFrame::Pong(vec![])), WsAction::Ignore));
    match handle_ws_frame(WsFrame::Ping(vec![9, 9])) {
        WsAction::SendPong(v) => assert_eq!(v, vec![9, 9]),
        _ => panic!("ping must be answered with a pong"),
    }
}

#[test]
fn test_fetch_metadata_sorts_users() {
    let mut c = Store::new();
    User::create(&mut c, "zed".to_string()).unwrap();
    User::create(&mut c, "amy".to_string()).unwrap();
    let meta = fetch_metadata(&c);
    assert_eq!(meta.users[0].name, "amy");
    assert_eq!(meta.users[1].name, "zed");
}
