use musidex_daemon::entity::{Music, Tag, TagKey, User, UserID};
use musidex_daemon::store::Store;
use musidex_daemon::sync::fetch_metadata;

#[test]
fn test_crd_user() {
    let mut c = Store::new();

    let u = User::create(&mut c, "toto".to_string()).unwrap();

    let users = User::list(&c);
    let user = users.get(0).expect("no user");
    assert_eq!(user.name, "toto".to_string());
    assert_eq!(user.id, u);
    assert_eq!(User::n_users(&c), 1);
    User::delete(&mut c, user.id).unwrap();

    let users = User::list(&c);
    assert_eq!(users.len(), 0);
}

#[test]
fn test_update_user() {
    let mut c = Store::new();

    let u = User::create(&mut c, "toto".to_string()).unwrap();

    User::rename(&mut c, u, "tata".to_string()).unwrap();

    let users = User::list(&c);
    let user = users.get(0).expect("no user");
    assert_eq!(user.name, "tata".to_string(), "user name is different");
}

#[test]
fn test_delete_userlibrary() {
    let mut c = Store::new();

    let music = Music::mk(&mut c).unwrap();

    let u = User::create(&mut c, "toto".to_string()).unwrap();
    let k = TagKey::UserLibrary(u.to_string());
    Tag::insert(&mut c, Tag::new_key(music, k.clone())).unwrap();

    User::delete(&mut c, u).unwrap();

    assert!(Tag::by_key(&c, &k).is_empty());
}

#[test]
fn test_sorted_users() {
    let mut c = Store::new();

    let u1 = User::create(&mut c, "c".to_string()).unwrap();
    let u2 = User::create(&mut c, "a".to_string()).unwrap();
    let u3 = User::create(&mut c, "b".to_string()).unwrap();

    let meta = fetch_metadata(&c);

    assert_eq!(
        meta.users.iter().map(|x| x.id).collect::<Vec<_>>(),
        vec![u2, u3, u1]
    );
}

#[test]
fn test_rename_missing_user() {
    let mut c = Store::new();
    assert!(User::rename(&mut c, UserID(4), "x".to_string()).is_err());
}

#[test]
fn test_last_user_not_deleted() {
    let mut c = Store::new();
    let u = User::create(&mut c, "only".to_string()).unwrap();
    assert_eq!(User::delete_checked(&mut c, u), Ok(false));
    assert_eq!(User::list(&c).len(), 1);

    let u2 = User::create(&mut c, "second".to_string()).unwrap();
    assert_eq!(User::delete_checked(&mut c, u2), Ok(true));
    assert_eq!(User::list(&c).len(), 1);
}
