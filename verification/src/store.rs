//! The backing store: musics, tags, users and settings, with the upsert and
//! cascade rules the rest of the system builds on.
//!
//! The store is an in-memory table set. Its well-formedness invariant
//! (`SpecStore::wf`) carries what the schema enforced elsewhere: one tag per
//! `(music_id, key)`, every tag attached to an existing music, unique ids,
//! and ids below the allocation counters so a fresh id is never reused.

use vstd::prelude::*;

use crate::entity::{MusicID, SpecKey, SpecTag, SpecUser, Tag, TagKey, User};

verus! {

/// Why a store operation was refused.
#[derive(Clone, Copy, Debug, PartialEq, Eq, Structural)]
pub enum StoreError {
    /// A write referenced a music row that does not exist.
    ForeignKey,
    /// An id counter is exhausted.
    Full,
}

/// The store: four tables and two id counters.
pub struct Store {
    musics: Vec<MusicID>,
    tags: Vec<Tag>,
    users: Vec<User>,
    settings: Vec<(String, String)>,
    next_music_id: i32,
    next_user_id: i32,
}

/// Mathematical value of a `Store`.
pub struct SpecStore {
    pub musics: Seq<int>,
    pub tags: Seq<SpecTag>,
    pub users: Seq<SpecUser>,
    pub settings: Seq<(Seq<char>, Seq<char>)>,
    pub next_music_id: int,
    pub next_user_id: int,
}

impl View for Store {
    type V = SpecStore;

    closed spec fn view(&self) -> SpecStore {
        SpecStore {
            musics: crate::entity::view_music_seq(self.musics@),
            tags: crate::entity::view_tag_seq(self.tags@),
            users: crate::entity::view_user_seq(self.users@),
            settings: crate::entity::view_setting_seq(self.settings@),
            next_music_id: self.next_music_id as int,
            next_user_id: self.next_user_id as int,
        }
    }
}

/// Index of the first tag for `(mid, k)` at or after `i`, or -1.
pub open spec fn tag_idx_from(tags: Seq<SpecTag>, mid: int, k: SpecKey, i: int) -> int
    decreases tags.len() - i,
{
    if i < 0 || i >= tags.len() {
        -1
    } else if tags[i].music_id == mid && tags[i].key == k {
        i
    } else {
        tag_idx_from(tags, mid, k, i + 1)
    }
}

/// Index of the tag for `(mid, k)`, or -1 when there is none.
pub open spec fn tag_idx(tags: Seq<SpecTag>, mid: int, k: SpecKey) -> int {
    tag_idx_from(tags, mid, k, 0)
}

pub proof fn lemma_tag_idx_bounds(tags: Seq<SpecTag>, mid: int, k: SpecKey, i: int)
    requires
        0 <= i <= tags.len(),
    ensures
        tag_idx_from(tags, mid, k, i) == -1 || (i <= tag_idx_from(tags, mid, k, i) < tags.len()
            && tags[tag_idx_from(tags, mid, k, i)].music_id == mid && tags[tag_idx_from(
            tags,
            mid,
            k,
            i,
        )].key == k),
        tag_idx_from(tags, mid, k, i) == -1 ==> forall|j: int|
            i <= j < tags.len() ==> !(tags[j].music_id == mid && tags[j].key == k),
        forall|j: int|
            i <= j < tag_idx_from(tags, mid, k, i) ==> !(tags[j].music_id == mid && tags[j].key
                == k),
    decreases tags.len() - i,
{
    if i < tags.len() && !(tags[i].music_id == mid && tags[i].key == k) {
        lemma_tag_idx_bounds(tags, mid, k, i + 1);
    }
}

pub proof fn lemma_tag_idx_at(tags: Seq<SpecTag>, mid: int, k: SpecKey, i: int, j: int)
    requires
        0 <= i <= j < tags.len(),
        tags[j].music_id == mid && tags[j].key == k,
        forall|l: int| i <= l < j ==> !(tags[l].music_id == mid && tags[l].key == k),
    ensures
        tag_idx_from(tags, mid, k, i) == j,
    decreases j - i,
{
    if i < j {
        lemma_tag_idx_at(tags, mid, k, i + 1, j);
    }
}

/// In a table that is unique per `(music_id, key)`, a row that matches is
/// the row the index search finds.
pub proof fn lemma_tag_idx_of_unique(tags: Seq<SpecTag>, w: int)
    requires
        forall|i: int, j: int|
            0 <= i < j < tags.len() ==> !(tags[i].music_id == tags[j].music_id && tags[i].key
                == tags[j].key),
        0 <= w < tags.len(),
    ensures
        tag_idx(tags, tags[w].music_id, tags[w].key) == w,
{
    let mid = tags[w].music_id;
    let k = tags[w].key;
    assert forall|l: int| 0 <= l < w implies !(tags[l].music_id == mid && tags[l].key == k) by {
        assert(!(tags[l].music_id == tags[w].music_id && tags[l].key == tags[w].key));
    }
    lemma_tag_idx_at(tags, mid, k, 0, w);
}

/// The tags after an upsert of `t`: the row for `(t.music_id, t.key)` is
/// replaced if present, appended otherwise.
pub open spec fn spec_upsert(tags: Seq<SpecTag>, t: SpecTag) -> Seq<SpecTag> {
    let i = tag_idx(tags, t.music_id, t.key);
    if i >= 0 {
        tags.update(i, t)
    } else {
        tags.push(t)
    }
}

/// The tags after removing the row for `(mid, k)`, if any.
pub open spec fn spec_remove_tag(tags: Seq<SpecTag>, mid: int, k: SpecKey) -> Seq<SpecTag> {
    let i = tag_idx(tags, mid, k);
    if i >= 0 {
        tags.remove(i)
    } else {
        tags
    }
}

/// The tags of one music, in store order.
pub open spec fn spec_music_tags(tags: Seq<SpecTag>, mid: int) -> Seq<SpecTag> {
    tags.filter(|t: SpecTag| t.music_id == mid)
}

/// The tags that survive deleting one music row (the cascade).
pub open spec fn spec_cascade(tags: Seq<SpecTag>, mid: int) -> Seq<SpecTag> {
    tags.filter(|t: SpecTag| t.music_id != mid)
}

/// The tags holding one key, in store order.
pub open spec fn spec_key_tags(tags: Seq<SpecTag>, k: SpecKey) -> Seq<SpecTag> {
    tags.filter(|t: SpecTag| t.key == k)
}

/// The tags holding one text, in store order.
pub open spec fn spec_text_tags(tags: Seq<SpecTag>, text: Seq<char>) -> Seq<SpecTag> {
    tags.filter(|t: SpecTag| t.text == Some(text))
}

impl SpecStore {
    /// No two tag rows share `(music_id, key)`.
    pub open spec fn tags_unique(self) -> bool {
        forall|i: int, j: int|
            0 <= i < j < self.tags.len() ==> !(self.tags[i].music_id == self.tags[j].music_id
                && self.tags[i].key == self.tags[j].key)
    }

    /// Every tag hangs off an existing music row.
    pub open spec fn tags_attached(self) -> bool {
        forall|i: int| 0 <= i < self.tags.len() ==> self.musics.contains(#[trigger] self.tags[i].music_id)
    }

    /// Well-formedness: what the schema and the id allocator guarantee.
    pub open spec fn wf(self) -> bool {
        &&& self.tags_unique()
        &&& self.tags_attached()
        &&& forall|i: int, j: int|
            0 <= i < j < self.musics.len() ==> self.musics[i] != self.musics[j]
        &&& forall|i: int, j: int|
            0 <= i < j < self.users.len() ==> self.users[i].id != self.users[j].id
        &&& forall|i: int, j: int|
            0 <= i < j < self.settings.len() ==> self.settings[i].0 != self.settings[j].0
        &&& forall|i: int| 0 <= i < self.musics.len() ==> 1 <= #[trigger] self.musics[i] < self.next_music_id
        &&& forall|i: int| 0 <= i < self.users.len() ==> 1 <= #[trigger] self.users[i].id < self.next_user_id
        &&& 1 <= self.next_music_id <= i32::MAX
        &&& 1 <= self.next_user_id <= i32::MAX
    }
}

impl Store {
    /// An empty store, as a fresh database file starts out.
    pub fn new() -> (s: Store)
        ensures
            s@.wf(),
            s@.musics == Seq::<int>::empty(),
            s@.tags == Seq::<SpecTag>::empty(),
            s@.users == Seq::<SpecUser>::empty(),
            s@.settings == Seq::<(Seq<char>, Seq<char>)>::empty(),
    {
        let s = Store {
            musics: Vec::new(),
            tags: Vec::new(),
            users: Vec::new(),
            settings: Vec::new(),
            next_music_id: 1,
            next_user_id: 1,
        };
        proof {
            assert(s@.musics =~= Seq::<int>::empty());
            assert(s@.tags =~= Seq::<SpecTag>::empty());
            assert(s@.users =~= Seq::<SpecUser>::empty());
            assert(s@.settings =~= Seq::<(Seq<char>, Seq<char>)>::empty());
        }
        s
    }

    /// Position of the tag row for `(mid, key)`, if one exists.
    fn find_tag(&self, mid: MusicID, key: &TagKey) -> (r: Option<usize>)
        ensures
            match r {
                Some(i) => {
                    &&& 0 <= i < self@.tags.len()
                    &&& tag_idx(self@.tags, mid.0 as int, key@) == i
                },
                None => tag_idx(self@.tags, mid.0 as int, key@) == -1,
            },
    {
        let ghost tags = self@.tags;
        let mut i: usize = 0;
        while i < self.tags.len()
            invariant
                0 <= i <= self.tags.len(),
                tags == self@.tags,
                tags.len() == self.tags@.len(),
                forall|j: int|
                    0 <= j < i ==> !(tags[j].music_id == mid.0 as int && tags[j].key == key@),
            decreases self.tags@.len() - i,
        {
            let t = &self.tags[i];
            proof {
                assert(tags[i as int] == self.tags@[i as int]@);
            }
            if t.music_id == mid && t.key == *key {
                proof {
                    lemma_tag_idx_at(tags, mid.0 as int, key@, 0, i as int);
                }
                return Some(i);
            }
            i = i + 1;
        }
        proof {
            lemma_tag_idx_bounds(tags, mid.0 as int, key@, 0);
            if tag_idx(tags, mid.0 as int, key@) != -1 {
                let j = tag_idx(tags, mid.0 as int, key@);
                assert(!(tags[j].music_id == mid.0 as int && tags[j].key == key@));
            }
        }
        None
    }

    /// Does this music row exist?
    pub fn has_music(&self, id: MusicID) -> (r: bool)
        ensures
            r == self@.musics.contains(id.0 as int),
    {
        let ghost musics = self@.musics;
        let mut i: usize = 0;
        while i < self.musics.len()
            invariant
                0 <= i <= self.musics.len(),
                musics == self@.musics,
                musics.len() == self.musics@.len(),
                forall|j: int| 0 <= j < i ==> musics[j] != id.0 as int,
            decreases self.musics@.len() - i,
        {
            proof {
                assert(musics[i as int] == self.musics@[i as int].0 as int);
            }
            if self.musics[i] == id {
                return true;
            }
            i = i + 1;
        }
        proof {
            if musics.contains(id.0 as int) {
                let j = choose|j: int| 0 <= j < musics.len() && musics[j] == id.0 as int;
                assert(musics[j] != id.0 as int);
            }
        }
        false
    }
}

} // verus!

verus! {

impl SpecStore {
    /// The store with another tag table, everything else unchanged.
    pub open spec fn with_tags(self, tags: Seq<SpecTag>) -> SpecStore {
        SpecStore {
            musics: self.musics,
            tags,
            users: self.users,
            settings: self.settings,
            next_music_id: self.next_music_id,
            next_user_id: self.next_user_id,
        }
    }
}

impl Tag {
    /// Upsert by `(music_id, key)`: replaces every field of an existing row,
    /// inserts a new row otherwise. Refused only when the music row is
    /// missing, as the schema's foreign key would refuse it.
    pub fn insert(c: &mut Store, tag: Tag) -> (r: Result<(), StoreError>)
        requires
            old(c)@.wf(),
        ensures
            final(c)@.wf(),
            r is Ok <==> old(c)@.musics.contains(tag.music_id.0 as int),
            r is Ok ==> final(c)@ == old(c)@.with_tags(spec_upsert(old(c)@.tags, tag@)),
            r is Err ==> final(c)@ == old(c)@,
    {
        Tag::insert_silent(c, tag)
    }

    /// The same upsert as `insert`, for call sites that say nothing about
    /// it on the log.
    pub fn insert_silent(c: &mut Store, tag: Tag) -> (r: Result<(), StoreError>)
        requires
            old(c)@.wf(),
        ensures
            final(c)@.wf(),
            r is Ok <==> old(c)@.musics.contains(tag.music_id.0 as int),
            r is Ok ==> final(c)@ == old(c)@.with_tags(spec_upsert(old(c)@.tags, tag@)),
            r is Err ==> final(c)@ == old(c)@,
    {
        if !c.has_music(tag.music_id) {
            return Err(StoreError::ForeignKey);
        }
        let ghost old_store = c@;
        let ghost mid = tag.music_id.0 as int;
        let ghost k = tag.key@;
        proof {
            lemma_tag_idx_bounds(old_store.tags, mid, k, 0);
        }
        match c.find_tag(tag.music_id, &tag.key) {
            Some(i) => {
                let ghost t = tag@;
                c.tags[i] = tag;
                proof {
                    assert(c@.tags =~= old_store.tags.update(i as int, t));
                    assert(c@ == old_store.with_tags(spec_upsert(old_store.tags, t)));
                    assert forall|x: int, y: int| 0 <= x < y < c@.tags.len() implies !(
                    c@.tags[x].music_id == c@.tags[y].music_id && c@.tags[x].key
                        == c@.tags[y].key) by {
                        assert(old_store.tags[i as int].music_id == mid);
                        assert(old_store.tags[i as int].key == k);
                    }
                }
            },
            None => {
                let ghost t = tag@;
                c.tags.push(tag);
                proof {
                    assert(c@.tags =~= old_store.tags.push(t));
                    assert(c@ == old_store.with_tags(spec_upsert(old_store.tags, t)));
                    lemma_tag_idx_bounds(old_store.tags, mid, k, 0);
                    assert forall|x: int, y: int| 0 <= x < y < c@.tags.len() implies !(
                    c@.tags[x].music_id == c@.tags[y].music_id && c@.tags[x].key
                        == c@.tags[y].key) by {
                        if y == c@.tags.len() - 1 {
                            assert(!(old_store.tags[x].music_id == mid && old_store.tags[x].key
                                == k));
                        }
                    }
                }
            },
        }
        Ok(())
    }

    /// Deletes the row for `(id, key)`. Removing a row that is not there is
    /// harmless and still succeeds: removal races with itself benignly.
    pub fn remove(c: &mut Store, id: MusicID, key: &TagKey) -> (r: Result<(), StoreError>)
        requires
            old(c)@.wf(),
        ensures
            final(c)@.wf(),
            r is Ok,
            final(c)@ == old(c)@.with_tags(spec_remove_tag(old(c)@.tags, id.0 as int, key@)),
    {
        let ghost old_store = c@;
        match c.find_tag(id, key) {
            Some(i) => {
                c.tags.remove(i);
                proof {
                    assert(c@.tags =~= old_store.tags.remove(i as int));
                    assert(c@ == old_store.with_tags(
                        spec_remove_tag(old_store.tags, id.0 as int, key@),
                    ));
                    let new_tags = c@.tags;
                    assert forall|x: int, y: int| 0 <= x < y < new_tags.len() implies !(
                    new_tags[x].music_id == new_tags[y].music_id && new_tags[x].key
                        == new_tags[y].key) by {
                        let ox = if x < i { x } else { x + 1 };
                        let oy = if y < i { y } else { y + 1 };
                        assert(new_tags[x] == old_store.tags[ox]);
                        assert(new_tags[y] == old_store.tags[oy]);
                    }
                    assert forall|x: int| 0 <= x < new_tags.len() implies c@.musics.contains(
                        #[trigger] new_tags[x].music_id,
                    ) by {
                        let ox = if x < i { x } else { x + 1 };
                        assert(new_tags[x] == old_store.tags[ox]);
                    }
                }
            },
            None => {
            },
        }
        Ok(())
    }

    /// The tag for `(id, key)`, if one exists.
    pub fn by_id_key(c: &Store, id: MusicID, key: &TagKey) -> (r: Option<Tag>)
        ensures
            match r {
                Some(t) => {
                    &&& tag_idx(c@.tags, id.0 as int, key@) >= 0
                    &&& t@ == c@.tags[tag_idx(c@.tags, id.0 as int, key@)]
                },
                None => tag_idx(c@.tags, id.0 as int, key@) == -1,
            },
    {
        match c.find_tag(id, key) {
            Some(i) => Some(c.tags[i].clone()),
            None => None,
        }
    }

    /// Does `(id, key)` carry a tag?
    pub fn has(c: &Store, id: MusicID, key: &TagKey) -> (r: bool)
        ensures
            r == (tag_idx(c@.tags, id.0 as int, key@) >= 0),
    {
        match c.find_tag(id, key) {
            Some(_) => true,
            None => false,
        }
    }
}

} // verus!

verus! {

use crate::entity::view_tag_seq;
use crate::strutil::str_eq;
use vstd::string::StringExecFns;

/// Every element of a filtered sequence occurs in the original.
pub proof fn lemma_filter_subset<A>(s: Seq<A>, pred: spec_fn(A) -> bool)
    ensures
        forall|i: int|
            0 <= i < s.filter(pred).len() ==> s.contains(#[trigger] s.filter(pred)[i]),
    decreases s.len(),
{
    reveal(Seq::filter);
    if s.len() > 0 {
        let d = s.drop_last();
        lemma_filter_subset(d, pred);
        assert forall|i: int|
            0 <= i < s.filter(pred).len() implies s.contains(#[trigger] s.filter(pred)[i]) by {
            if i < d.filter(pred).len() {
                assert(s.filter(pred)[i] == d.filter(pred)[i]);
                let j = choose|j: int| 0 <= j < d.len() && d[j] == d.filter(pred)[i];
                assert(s[j] == s.filter(pred)[i]);
            } else {
                assert(s.filter(pred)[i] == s.last());
                assert(s[s.len() - 1] == s.last());
            }
        }
    }
}

/// Pairwise `(music_id, key)` uniqueness survives filtering.
proof fn lemma_filter_tags_unique(s: Seq<SpecTag>, pred: spec_fn(SpecTag) -> bool)
    requires
        forall|i: int, j: int|
            0 <= i < j < s.len() ==> !(s[i].music_id == s[j].music_id && s[i].key == s[j].key),
    ensures
        forall|i: int, j: int|
            0 <= i < j < s.filter(pred).len() ==> !(s.filter(pred)[i].music_id == s.filter(
                pred,
            )[j].music_id && s.filter(pred)[i].key == s.filter(pred)[j].key),
    decreases s.len(),
{
    reveal(Seq::filter);
    if s.len() > 0 {
        let d = s.drop_last();
        lemma_filter_tags_unique(d, pred);
        lemma_filter_subset(d, pred);
        let out = s.filter(pred);
        assert forall|i: int, j: int|
            0 <= i < j < out.len() implies !(out[i].music_id == out[j].music_id && out[i].key
            == out[j].key) by {
            if j < d.filter(pred).len() {
                assert(out[i] == d.filter(pred)[i]);
                assert(out[j] == d.filter(pred)[j]);
            } else if pred(s.last()) && j == out.len() - 1 && out.len() == d.filter(pred).len()
                + 1 {
                assert(out[i] == d.filter(pred)[i]);
                assert(out[j] == s.last());
                let x = choose|x: int| 0 <= x < d.len() && d[x] == d.filter(pred)[i];
                assert(s[x] == out[i]);
                assert(s[s.len() - 1] == s.last());
                assert(!(s[x].music_id == s[s.len() - 1].music_id && s[x].key == s[s.len()
                    - 1].key));
            }
        }
    }
}

/// Pairwise distinctness of plain values survives filtering.
proof fn lemma_filter_distinct<A>(s: Seq<A>, pred: spec_fn(A) -> bool)
    requires
        forall|i: int, j: int| 0 <= i < j < s.len() ==> s[i] != s[j],
    ensures
        forall|i: int, j: int|
            0 <= i < j < s.filter(pred).len() ==> s.filter(pred)[i] != s.filter(pred)[j],
    decreases s.len(),
{
    reveal(Seq::filter);
    if s.len() > 0 {
        let d = s.drop_last();
        lemma_filter_distinct(d, pred);
        lemma_filter_subset(d, pred);
        let out = s.filter(pred);
        assert forall|i: int, j: int| 0 <= i < j < out.len() implies out[i] != out[j] by {
            if j < d.filter(pred).len() {
                assert(out[i] == d.filter(pred)[i]);
                assert(out[j] == d.filter(pred)[j]);
            } else if pred(s.last()) && j == out.len() - 1 && out.len() == d.filter(pred).len()
                + 1 {
                assert(out[i] == d.filter(pred)[i]);
                assert(out[j] == s.last());
                let x = choose|x: int| 0 <= x < d.len() && d[x] == d.filter(pred)[i];
                assert(s[x] == out[i]);
                assert(s[s.len() - 1] == s.last());
            }
        }
    }
}

impl Tag {
    /// All tags of one music, in store order.
    pub fn by_id(c: &Store, id: MusicID) -> (r: Vec<Tag>)
        ensures
            view_tag_seq(r@) == spec_music_tags(c@.tags, id.0 as int),
    {
        let ghost tags = c@.tags;
        let mut r: Vec<Tag> = Vec::new();
        let mut i: usize = 0;
        proof {
            assert(tags.subrange(0, 0) =~= Seq::<SpecTag>::empty());
            reveal(Seq::filter);
        }
        while i < c.tags.len()
            invariant
                0 <= i <= c.tags.len(),
                tags == c@.tags,
                tags.len() == c.tags@.len(),
                view_tag_seq(r@) == spec_music_tags(tags.subrange(0, i as int), id.0 as int),
            decreases c.tags@.len() - i,
        {
            let ghost pre = tags.subrange(0, i as int);
            let ghost cur = tags.subrange(0, i + 1);
            proof {
                reveal(Seq::filter);
                assert(cur.drop_last() =~= pre);
                assert(cur.last() == tags[i as int]);
                assert(tags[i as int] == c.tags@[i as int]@);
            }
            let t = &c.tags[i];
            if t.music_id == id {
                let ghost old_r = view_tag_seq(r@);
                r.push(t.clone());
                proof {
                    assert(view_tag_seq(r@) =~= old_r.push(tags[i as int]));
                }
            }
            i = i + 1;
        }
        proof {
            assert(tags.subrange(0, tags.len() as int) =~= tags);
        }
        r
    }

    /// All tags holding this exact text, in store order.
    pub fn by_text(c: &Store, text: &str) -> (r: Vec<Tag>)
        ensures
            view_tag_seq(r@) == spec_text_tags(c@.tags, text@),
    {
        let ghost tags = c@.tags;
        let mut r: Vec<Tag> = Vec::new();
        let mut i: usize = 0;
        proof {
            assert(tags.subrange(0, 0) =~= Seq::<SpecTag>::empty());
            reveal(Seq::filter);
        }
        while i < c.tags.len()
            invariant
                0 <= i <= c.tags.len(),
                tags == c@.tags,
                tags.len() == c.tags@.len(),
                view_tag_seq(r@) == spec_text_tags(tags.subrange(0, i as int), text@),
            decreases c.tags@.len() - i,
        {
            let ghost pre = tags.subrange(0, i as int);
            let ghost cur = tags.subrange(0, i + 1);
            proof {
                reveal(Seq::filter);
                assert(cur.drop_last() =~= pre);
                assert(cur.last() == tags[i as int]);
                assert(tags[i as int] == c.tags@[i as int]@);
            }
            let t = &c.tags[i];
            let matches_text = match &t.text {
                Some(s) => str_eq(s.as_str(), text),
                None => false,
            };
            if matches_text {
                let ghost old_r = view_tag_seq(r@);
                r.push(t.clone());
                proof {
                    assert(view_tag_seq(r@) =~= old_r.push(tags[i as int]));
                }
            }
            i = i + 1;
        }
        proof {
            assert(tags.subrange(0, tags.len() as int) =~= tags);
        }
        r
    }

    /// All tags holding one key, ordered by music id descending.
    pub fn by_key(c: &Store, key: &TagKey) -> (r: Vec<Tag>)
        ensures
            view_tag_seq(r@).to_multiset() == spec_key_tags(c@.tags, key@).to_multiset(),
            forall|x: int, y: int|
                0 <= x < y < r@.len() ==> view_tag_seq(r@)[x].music_id >= view_tag_seq(
                    r@,
                )[y].music_id,
            forall|x: int| 0 <= x < r@.len() ==> (#[trigger] view_tag_seq(r@)[x]).key == key@,
    {
        let ghost tags = c@.tags;
        let mut picked: Vec<Tag> = Vec::new();
        let mut i: usize = 0;
        proof {
            assert(tags.subrange(0, 0) =~= Seq::<SpecTag>::empty());
            reveal(Seq::filter);
        }
        while i < c.tags.len()
            invariant
                0 <= i <= c.tags.len(),
                tags == c@.tags,
                tags.len() == c.tags@.len(),
                view_tag_seq(picked@) == spec_key_tags(tags.subrange(0, i as int), key@),
            decreases c.tags@.len() - i,
        {
            let ghost pre = tags.subrange(0, i as int);
            let ghost cur = tags.subrange(0, i + 1);
            proof {
                reveal(Seq::filter);
                assert(cur.drop_last() =~= pre);
                assert(cur.last() == tags[i as int]);
                assert(tags[i as int] == c.tags@[i as int]@);
            }
            let t = &c.tags[i];
            if t.key == *key {
                let ghost old_picked = view_tag_seq(picked@);
                picked.push(t.clone());
                proof {
                    assert(view_tag_seq(picked@) =~= old_picked.push(tags[i as int]));
                }
            }
            i = i + 1;
        }
        proof {
            assert(tags.subrange(0, tags.len() as int) =~= tags);
        }
        let r = sort_tags_desc(picked);
        proof {
            broadcast use vstd::seq_lib::group_to_multiset_ensures;

            let rv = view_tag_seq(r@);
            let fv = spec_key_tags(tags, key@);
            assert forall|x: int| 0 <= x < rv.len() implies (#[trigger] rv[x]).key == key@ by {
                assert(rv.to_multiset().count(rv[x]) > 0);
                assert(fv.to_multiset().count(rv[x]) > 0);
                assert(fv.contains(rv[x]));
                let j = choose|j: int| 0 <= j < fv.len() && fv[j] == rv[x];
                tags.lemma_filter_pred(|t: SpecTag| t.key == key@, j);
            }
        }
        r
    }
}

/// Stable insertion sort, music id descending.
fn sort_tags_desc(v: Vec<Tag>) -> (r: Vec<Tag>)
    ensures
        view_tag_seq(r@).to_multiset() == view_tag_seq(v@).to_multiset(),
        forall|x: int, y: int|
            0 <= x < y < r@.len() ==> view_tag_seq(r@)[x].music_id >= view_tag_seq(
                r@,
            )[y].music_id,
{
    let ghost mv = view_tag_seq(v@);
    let mut r: Vec<Tag> = Vec::new();
    let mut i: usize = 0;
    proof {
        broadcast use vstd::seq_lib::group_to_multiset_ensures;

        assert(view_tag_seq(r@) =~= Seq::<SpecTag>::empty());
        assert(mv.subrange(0, 0) =~= Seq::<SpecTag>::empty());
        assert(Seq::<SpecTag>::empty().to_multiset() =~= view_tag_seq(r@).to_multiset());
    }
    while i < v.len()
        invariant
            0 <= i <= v.len(),
            mv == view_tag_seq(v@),
            mv.len() == v.len(),
            view_tag_seq(r@).to_multiset() == mv.subrange(0, i as int).to_multiset(),
            forall|x: int, y: int|
                0 <= x < y < r@.len() ==> view_tag_seq(r@)[x].music_id >= view_tag_seq(
                    r@,
                )[y].music_id,
        decreases v@.len() - i,
    {
        proof {
            assert(mv[i as int] == v@[i as int]@);
        }
        let t = v[i].clone();
        let ghost tv = mv[i as int];
        let mut p: usize = 0;
        while p < r.len() && r[p].music_id.0 >= t.music_id.0
            invariant
                0 <= p <= r.len(),
                tv.music_id == t@.music_id,
                forall|x: int|
                    0 <= x < p ==> view_tag_seq(r@)[x].music_id >= tv.music_id,
            decreases r@.len() - p,
        {
            proof {
                assert(view_tag_seq(r@)[p as int] == r@[p as int]@);
            }
            p = p + 1;
        }
        proof {
            assert(p < r@.len() ==> view_tag_seq(r@)[p as int].music_id < tv.music_id);
        }
        let ghost old_rv = view_tag_seq(r@);
        r.insert(p, t);
        proof {
            broadcast use vstd::seq_lib::group_to_multiset_ensures;
            broadcast use vstd::seq_lib::to_multiset_insert;

            assert(view_tag_seq(r@) =~= old_rv.insert(p as int, tv));
            assert(mv.subrange(0, i + 1).drop_last() =~= mv.subrange(0, i as int));
            assert(mv.subrange(0, i + 1) =~= mv.subrange(0, i as int).push(mv[i as int]));
            let new_rv = view_tag_seq(r@);
            assert forall|x: int, y: int|
                0 <= x < y < new_rv.len() implies new_rv[x].music_id >= new_rv[y].music_id by {
                if x < p && y == p {
                } else if x == p && y > p {
                    assert(new_rv[y] == old_rv[y - 1]);
                    assert(old_rv[p as int].music_id < tv.music_id || p >= old_rv.len());
                    if p < old_rv.len() {
                        assert(old_rv[p as int].music_id >= old_rv[y - 1].music_id || p == y - 1);
                    }
                } else if x < p && y > p {
                    assert(new_rv[x] == old_rv[x]);
                    assert(new_rv[y] == old_rv[y - 1]);
                } else if x > p && y > p {
                    assert(new_rv[x] == old_rv[x - 1]);
                    assert(new_rv[y] == old_rv[y - 1]);
                } else if x < p && y < p {
                    assert(new_rv[x] == old_rv[x]);
                    assert(new_rv[y] == old_rv[y]);
                }
            }
        }
        i = i + 1;
    }
    proof {
        assert(mv.subrange(0, mv.len() as int) =~= mv);
    }
    r
}

} // verus!

verus! {

use crate::entity::Music;

impl Music {
    /// Creates an empty music row and hands back its fresh id. Ids grow
    /// monotonically, so an id is never reused after a deletion.
    pub fn mk(c: &mut Store) -> (r: Result<MusicID, StoreError>)
        requires
            old(c)@.wf(),
        ensures
            final(c)@.wf(),
            r is Ok <==> old(c)@.next_music_id < i32::MAX,
            match r {
                Ok(id) => {
                    &&& id.0 as int == old(c)@.next_music_id
                    &&& final(c)@ == (SpecStore {
                        musics: old(c)@.musics.push(id.0 as int),
                        next_music_id: old(c)@.next_music_id + 1,
                        ..old(c)@
                    })
                },
                Err(_) => final(c)@ == old(c)@,
            },
    {
        if c.next_music_id == i32::MAX {
            return Err(StoreError::Full);
        }
        let ghost old_store = c@;
        let id = MusicID(c.next_music_id);
        c.next_music_id = c.next_music_id + 1;
        c.musics.push(id);
        proof {
            assert(c@.musics =~= old_store.musics.push(id.0 as int));
            assert forall|x: int| 0 <= x < c@.tags.len() implies c@.musics.contains(
                #[trigger] c@.tags[x].music_id,
            ) by {
                assert(old_store.musics.contains(old_store.tags[x].music_id));
                let j = choose|j: int|
                    0 <= j < old_store.musics.len() && old_store.musics[j]
                        == old_store.tags[x].music_id;
                assert(c@.musics[j] == old_store.tags[x].music_id);
            }
        }
        Ok(id)
    }

    /// Hard-deletes the music row and every tag attached to it (the
    /// cascade); reports whether a row existed.
    pub fn delete(c: &mut Store, id: MusicID) -> (r: Result<bool, StoreError>)
        requires
            old(c)@.wf(),
        ensures
            final(c)@.wf(),
            r == Ok::<bool, StoreError>(old(c)@.musics.contains(id.0 as int)),
            final(c)@ == (SpecStore {
                musics: old(c)@.musics.filter(|m: int| m != id.0 as int),
                tags: spec_cascade(old(c)@.tags, id.0 as int),
                ..old(c)@
            }),
    {
        let ghost old_store = c@;
        let existed = c.has_music(id);

        let ghost old_musics = c@.musics;
        let mut kept_musics: Vec<MusicID> = Vec::new();
        let mut i: usize = 0;
        proof {
            reveal(Seq::filter);
            assert(old_musics.subrange(0, 0) =~= Seq::<int>::empty());
            assert(crate::entity::view_music_seq(kept_musics@) =~= Seq::<int>::empty());
        }
        while i < c.musics.len()
            invariant
                0 <= i <= c.musics.len(),
                old_musics == c@.musics,
                old_musics.len() == c.musics@.len(),
                crate::entity::view_music_seq(kept_musics@) == old_musics.subrange(
                    0,
                    i as int,
                ).filter(|m: int| m != id.0 as int),
            decreases c.musics@.len() - i,
        {
            let ghost pre = old_musics.subrange(0, i as int);
            let ghost cur = old_musics.subrange(0, i + 1);
            proof {
                reveal(Seq::filter);
                assert(cur.drop_last() =~= pre);
                assert(cur.last() == old_musics[i as int]);
                assert(old_musics[i as int] == c.musics@[i as int].0 as int);
            }
            let m = c.musics[i];
            if m != id {
                let ghost old_kept = crate::entity::view_music_seq(kept_musics@);
                kept_musics.push(m);
                proof {
                    assert(crate::entity::view_music_seq(kept_musics@) =~= old_kept.push(
                        old_musics[i as int],
                    ));
                }
            }
            i = i + 1;
        }
        proof {
            assert(old_musics.subrange(0, old_musics.len() as int) =~= old_musics);
        }

        let ghost old_tags = c@.tags;
        let mut kept_tags: Vec<Tag> = Vec::new();
        let mut j: usize = 0;
        proof {
            reveal(Seq::filter);
            assert(old_tags.subrange(0, 0) =~= Seq::<SpecTag>::empty());
            assert(view_tag_seq(kept_tags@) =~= Seq::<SpecTag>::empty());
        }
        while j < c.tags.len()
            invariant
                0 <= j <= c.tags.len(),
                old_tags == c@.tags,
                old_tags.len() == c.tags@.len(),
                view_tag_seq(kept_tags@) == old_tags.subrange(0, j as int).filter(
                    |t: SpecTag| t.music_id != id.0 as int,
                ),
            decreases c.tags@.len() - j,
        {
            let ghost pre = old_tags.subrange(0, j as int);
            let ghost cur = old_tags.subrange(0, j + 1);
            proof {
                reveal(Seq::filter);
                assert(cur.drop_last() =~= pre);
                assert(cur.last() == old_tags[j as int]);
                assert(old_tags[j as int] == c.tags@[j as int]@);
            }
            let t = &c.tags[j];
            if t.music_id != id {
                let ghost old_kept = view_tag_seq(kept_tags@);
                kept_tags.push(t.clone());
                proof {
                    assert(view_tag_seq(kept_tags@) =~= old_kept.push(old_tags[j as int]));
                }
            }
            j = j + 1;
        }
        proof {
            assert(old_tags.subrange(0, old_tags.len() as int) =~= old_tags);
        }

        c.musics = kept_musics;
        c.tags = kept_tags;
        proof {
            let mpred = |m: int| m != id.0 as int;
            let tpred = |t: SpecTag| t.music_id != id.0 as int;
            lemma_filter_distinct(old_musics, mpred);
            lemma_filter_tags_unique(old_tags, tpred);
            lemma_filter_subset(old_musics, mpred);
            lemma_filter_subset(old_tags, tpred);
            let new_musics = old_musics.filter(mpred);
            let new_tags = old_tags.filter(tpred);
            assert forall|x: int| 0 <= x < new_musics.len() implies 1 <= #[trigger] new_musics[x]
                < old_store.next_music_id by {
                assert(old_musics.contains(new_musics[x]));
                let y = choose|y: int| 0 <= y < old_musics.len() && old_musics[y] == new_musics[x];
            }
            assert forall|x: int| 0 <= x < new_tags.len() implies new_musics.contains(
                #[trigger] new_tags[x].music_id,
            ) by {
                assert(old_tags.contains(new_tags[x]));
                let y = choose|y: int| 0 <= y < old_tags.len() && old_tags[y] == new_tags[x];
                assert(old_store.musics.contains(old_tags[y].music_id));
                let z = choose|z: int|
                    0 <= z < old_musics.len() && old_musics[z] == new_tags[x].music_id;
                old_musics.lemma_filter_contains(mpred, z);
            }
        }
        Ok(existed)
    }
}

impl Tag {
    /// The largest `integer` payload among the tags holding this key, if
    /// any of them carries one.
    pub fn max_integer_by_key(c: &Store, key: &TagKey) -> (r: Option<i32>)
        ensures
            match r {
                Some(v) => {
                    &&& exists|i: int|
                        0 <= i < c@.tags.len() && (#[trigger] c@.tags[i]).key == key@
                            && c@.tags[i].integer == Some(v as int)
                    &&& forall|i: int|
                        0 <= i < c@.tags.len() && (#[trigger] c@.tags[i]).key == key@ ==> (match c@.tags[i].integer {
                            Some(w) => w <= v as int,
                            None => true,
                        })
                },
                None => forall|i: int|
                    0 <= i < c@.tags.len() ==> !((#[trigger] c@.tags[i]).key == key@
                        && c@.tags[i].integer is Some),
            },
    {
        let ghost tags = c@.tags;
        let mut best: Option<i32> = None;
        let mut i: usize = 0;
        while i < c.tags.len()
            invariant
                0 <= i <= c.tags.len(),
                tags == c@.tags,
                tags.len() == c.tags@.len(),
                match best {
                    Some(v) => {
                        &&& exists|j: int|
                            0 <= j < i && (#[trigger] tags[j]).key == key@ && tags[j].integer
                                == Some(v as int)
                        &&& forall|j: int|
                            0 <= j < i && (#[trigger] tags[j]).key == key@ ==> (match tags[j].integer {
                                Some(w) => w <= v as int,
                                None => true,
                            })
                    },
                    None => forall|j: int|
                        0 <= j < i ==> !((#[trigger] tags[j]).key == key@ && tags[j].integer
                            is Some),
                },
            decreases c.tags@.len() - i,
        {
            proof {
                assert(tags[i as int] == c.tags@[i as int]@);
            }
            let t = &c.tags[i];
            if t.key == *key {
                if let Some(v) = t.integer {
                    let take = match best {
                        Some(b) => v > b,
                        None => true,
                    };
                    if take {
                        best = Some(v);
                    }
                }
            }
            i = i + 1;
        }
        best
    }
}

} // verus!

verus! {

use crate::entity::UserID;
use crate::strutil::{i32_to_string, spec_int_str};

/// Index of the first user with this id at or after `i`, or -1.
pub open spec fn user_idx_from(users: Seq<SpecUser>, id: int, i: int) -> int
    decreases users.len() - i,
{
    if i < 0 || i >= users.len() {
        -1
    } else if users[i].id == id {
        i
    } else {
        user_idx_from(users, id, i + 1)
    }
}

/// Index of the user with this id, or -1.
pub open spec fn user_idx(users: Seq<SpecUser>, id: int) -> int {
    user_idx_from(users, id, 0)
}

pub proof fn lemma_user_idx_bounds(users: Seq<SpecUser>, id: int, i: int)
    requires
        0 <= i <= users.len(),
    ensures
        user_idx_from(users, id, i) == -1 || (i <= user_idx_from(users, id, i) < users.len()
            && users[user_idx_from(users, id, i)].id == id),
        user_idx_from(users, id, i) == -1 ==> forall|j: int|
            i <= j < users.len() ==> users[j].id != id,
        forall|j: int| i <= j < user_idx_from(users, id, i) ==> users[j].id != id,
    decreases users.len() - i,
{
    if i < users.len() && users[i].id != id {
        lemma_user_idx_bounds(users, id, i + 1);
    }
}

pub proof fn lemma_user_idx_at(users: Seq<SpecUser>, id: int, i: int, j: int)
    requires
        0 <= i <= j < users.len(),
        users[j].id == id,
        forall|l: int| i <= l < j ==> users[l].id != id,
    ensures
        user_idx_from(users, id, i) == j,
    decreases j - i,
{
    if i < j {
        lemma_user_idx_at(users, id, i + 1, j);
    }
}

impl Store {
    /// Position of the user row with this id, if one exists.
    fn find_user(&self, id: UserID) -> (r: Option<usize>)
        ensures
            match r {
                Some(i) => {
                    &&& 0 <= i < self@.users.len()
                    &&& user_idx(self@.users, id.0 as int) == i
                },
                None => user_idx(self@.users, id.0 as int) == -1,
            },
    {
        let ghost users = self@.users;
        let mut i: usize = 0;
        while i < self.users.len()
            invariant
                0 <= i <= self.users.len(),
                users == self@.users,
                users.len() == self.users@.len(),
                forall|j: int| 0 <= j < i ==> users[j].id != id.0 as int,
            decreases self.users@.len() - i,
        {
            proof {
                assert(users[i as int] == self.users@[i as int]@);
            }
            if self.users[i].id == id {
                proof {
                    lemma_user_idx_at(users, id.0 as int, 0, i as int);
                }
                return Some(i);
            }
            i = i + 1;
        }
        proof {
            lemma_user_idx_bounds(users, id.0 as int, 0);
            if user_idx(users, id.0 as int) != -1 {
                let j = user_idx(users, id.0 as int);
                assert(users[j].id != id.0 as int);
            }
        }
        None
    }

    /// All music ids, in creation order.
    pub fn all_musics(&self) -> (r: Vec<MusicID>)
        ensures
            crate::entity::view_music_seq(r@) == self@.musics,
    {
        let mut r: Vec<MusicID> = Vec::new();
        let mut i: usize = 0;
        while i < self.musics.len()
            invariant
                0 <= i <= self.musics.len(),
                crate::entity::view_music_seq(r@) == self@.musics.subrange(0, i as int),
            decreases self.musics@.len() - i,
        {
            let ghost old_r = crate::entity::view_music_seq(r@);
            r.push(self.musics[i]);
            proof {
                assert(crate::entity::view_music_seq(r@) =~= old_r.push(self@.musics[i as int]));
                assert(self@.musics.subrange(0, i + 1) =~= self@.musics.subrange(
                    0,
                    i as int,
                ).push(self@.musics[i as int]));
            }
            i = i + 1;
        }
        proof {
            assert(self@.musics.subrange(0, self@.musics.len() as int) =~= self@.musics);
        }
        r
    }

    /// All tag rows, in store order.
    pub fn all_tags(&self) -> (r: Vec<Tag>)
        ensures
            view_tag_seq(r@) == self@.tags,
    {
        let mut r: Vec<Tag> = Vec::new();
        let mut i: usize = 0;
        while i < self.tags.len()
            invariant
                0 <= i <= self.tags.len(),
                view_tag_seq(r@) == self@.tags.subrange(0, i as int),
            decreases self.tags@.len() - i,
        {
            let ghost old_r = view_tag_seq(r@);
            r.push(self.tags[i].clone());
            proof {
                assert(view_tag_seq(r@) =~= old_r.push(self@.tags[i as int]));
                assert(self@.tags.subrange(0, i + 1) =~= self@.tags.subrange(0, i as int).push(
                    self@.tags[i as int],
                ));
            }
            i = i + 1;
        }
        proof {
            assert(self@.tags.subrange(0, self@.tags.len() as int) =~= self@.tags);
        }
        r
    }
}

impl User {
    /// All user rows, in creation order.
    pub fn list(c: &Store) -> (r: Vec<User>)
        ensures
            crate::entity::view_user_seq(r@) == c@.users,
    {
        let mut r: Vec<User> = Vec::new();
        let mut i: usize = 0;
        while i < c.users.len()
            invariant
                0 <= i <= c.users.len(),
                crate::entity::view_user_seq(r@) == c@.users.subrange(0, i as int),
            decreases c.users@.len() - i,
        {
            let ghost old_r = crate::entity::view_user_seq(r@);
            r.push(c.users[i].clone());
            proof {
                assert(crate::entity::view_user_seq(r@) =~= old_r.push(c@.users[i as int]));
                assert(c@.users.subrange(0, i + 1) =~= c@.users.subrange(0, i as int).push(
                    c@.users[i as int],
                ));
            }
            i = i + 1;
        }
        proof {
            assert(c@.users.subrange(0, c@.users.len() as int) =~= c@.users);
        }
        r
    }

    /// How many users there are.
    pub fn n_users(c: &Store) -> (r: i32)
        requires
            c@.users.len() <= i32::MAX,
        ensures
            r == c@.users.len(),
    {
        c.users.len() as i32
    }

    /// Creates a user with a fresh id.
    pub fn create(c: &mut Store, name: String) -> (r: Result<UserID, StoreError>)
        requires
            old(c)@.wf(),
        ensures
            final(c)@.wf(),
            r is Ok <==> old(c)@.next_user_id < i32::MAX,
            match r {
                Ok(id) => {
                    &&& id.0 as int == old(c)@.next_user_id
                    &&& final(c)@ == (SpecStore {
                        users: old(c)@.users.push(SpecUser { id: id.0 as int, name: name@ }),
                        next_user_id: old(c)@.next_user_id + 1,
                        ..old(c)@
                    })
                },
                Err(_) => final(c)@ == old(c)@,
            },
    {
        if c.next_user_id == i32::MAX {
            return Err(StoreError::Full);
        }
        let ghost old_store = c@;
        let id = UserID(c.next_user_id);
        c.next_user_id = c.next_user_id + 1;
        let ghost nv = name@;
        c.users.push(User { id, name });
        proof {
            assert(c@.users =~= old_store.users.push(SpecUser { id: id.0 as int, name: nv }));
        }
        Ok(id)
    }

    /// Renames a user; fails when no user has this id.
    pub fn rename(c: &mut Store, id: UserID, name: String) -> (r: Result<(), StoreError>)
        requires
            old(c)@.wf(),
        ensures
            final(c)@.wf(),
            r is Ok <==> user_idx(old(c)@.users, id.0 as int) >= 0,
            r is Ok ==> final(c)@ == (SpecStore {
                users: old(c)@.users.update(
                    user_idx(old(c)@.users, id.0 as int),
                    SpecUser { id: id.0 as int, name: name@ },
                ),
                ..old(c)@
            }),
            r is Err ==> final(c)@ == old(c)@,
    {
        let ghost old_store = c@;
        match c.find_user(id) {
            Some(i) => {
                let ghost nv = name@;
                proof {
                    lemma_user_idx_bounds(old_store.users, id.0 as int, 0);
                }
                c.users[i] = User { id, name };
                proof {
                    assert(c@.users =~= old_store.users.update(
                        i as int,
                        SpecUser { id: id.0 as int, name: nv },
                    ));
                    assert(old_store.users[i as int].id == id.0 as int);
                }
                Ok(())
            },
            None => Err(StoreError::ForeignKey),
        }
    }

    /// Removes the user row, and every ownership tag of that user's
    /// library, whichever musics they hang on.
    pub fn delete(c: &mut Store, id: UserID) -> (r: Result<(), StoreError>)
        requires
            old(c)@.wf(),
        ensures
            final(c)@.wf(),
            r is Ok,
            final(c)@ == (SpecStore {
                users: old(c)@.users.filter(|u: SpecUser| u.id != id.0 as int),
                tags: old(c)@.tags.filter(
                    |t: SpecTag| t.key != SpecKey::UserLibrary(spec_int_str(id.0 as int)),
                ),
                ..old(c)@
            }),
    {
        let ghost old_store = c@;
        let lib_key = TagKey::UserLibrary(i32_to_string(id.0));

        let ghost old_users = c@.users;
        let mut kept_users: Vec<User> = Vec::new();
        let mut i: usize = 0;
        proof {
            reveal(Seq::filter);
            assert(old_users.subrange(0, 0) =~= Seq::<SpecUser>::empty());
            assert(crate::entity::view_user_seq(kept_users@) =~= Seq::<SpecUser>::empty());
        }
        while i < c.users.len()
            invariant
                0 <= i <= c.users.len(),
                old_users == c@.users,
                old_users.len() == c.users@.len(),
                crate::entity::view_user_seq(kept_users@) == old_users.subrange(
                    0,
                    i as int,
                ).filter(|u: SpecUser| u.id != id.0 as int),
            decreases c.users@.len() - i,
        {
            let ghost pre = old_users.subrange(0, i as int);
            let ghost cur = old_users.subrange(0, i + 1);
            proof {
                reveal(Seq::filter);
                assert(cur.drop_last() =~= pre);
                assert(cur.last() == old_users[i as int]);
                assert(old_users[i as int] == c.users@[i as int]@);
            }
            let u = &c.users[i];
            if u.id != id {
                let ghost old_kept = crate::entity::view_user_seq(kept_users@);
                kept_users.push(u.clone());
                proof {
                    assert(crate::entity::view_user_seq(kept_users@) =~= old_kept.push(
                        old_users[i as int],
                    ));
                }
            }
            i = i + 1;
        }
        proof {
            assert(old_users.subrange(0, old_users.len() as int) =~= old_users);
        }

        let ghost old_tags = c@.tags;
        let ghost kpred = |t: SpecTag| t.key != SpecKey::UserLibrary(spec_int_str(id.0 as int));
        let mut kept_tags: Vec<Tag> = Vec::new();
        let mut j: usize = 0;
        proof {
            reveal(Seq::filter);
            assert(old_tags.subrange(0, 0) =~= Seq::<SpecTag>::empty());
            assert(view_tag_seq(kept_tags@) =~= Seq::<SpecTag>::empty());
        }
        while j < c.tags.len()
            invariant
                0 <= j <= c.tags.len(),
                old_tags == c@.tags,
                old_tags.len() == c.tags@.len(),
                lib_key@ == SpecKey::UserLibrary(spec_int_str(id.0 as int)),
                kpred == (|t: SpecTag| t.key != SpecKey::UserLibrary(spec_int_str(id.0 as int))),
                view_tag_seq(kept_tags@) == old_tags.subrange(0, j as int).filter(kpred),
            decreases c.tags@.len() - j,
        {
            let ghost pre = old_tags.subrange(0, j as int);
            let ghost cur = old_tags.subrange(0, j + 1);
            proof {
                reveal(Seq::filter);
                assert(cur.drop_last() =~= pre);
                assert(cur.last() == old_tags[j as int]);
                assert(old_tags[j as int] == c.tags@[j as int]@);
            }
            let t = &c.tags[j];
            if !(t.key == lib_key) {
                let ghost old_kept = view_tag_seq(kept_tags@);
                kept_tags.push(t.clone());
                proof {
                    assert(view_tag_seq(kept_tags@) =~= old_kept.push(old_tags[j as int]));
                }
            }
            j = j + 1;
        }
        proof {
            assert(old_tags.subrange(0, old_tags.len() as int) =~= old_tags);
        }

        c.users = kept_users;
        c.tags = kept_tags;
        proof {
            let upred = |u: SpecUser| u.id != id.0 as int;
            lemma_filter_tags_unique(old_tags, kpred);
            lemma_filter_subset(old_tags, kpred);
            lemma_filter_subset(old_users, upred);
            let new_users = old_users.filter(upred);
            let new_tags = old_tags.filter(kpred);
            assert forall|x: int, y: int| 0 <= x < y < new_users.len() implies new_users[x].id
                != new_users[y].id by {
                assert(old_users.contains(new_users[x]));
                assert(old_users.contains(new_users[y]));
                let ox = choose|o: int| 0 <= o < old_users.len() && old_users[o] == new_users[x];
                let oy = choose|o: int| 0 <= o < old_users.len() && old_users[o] == new_users[y];
                if new_users[x].id == new_users[y].id && new_users[x] != new_users[y] {
                    assert(old_users[ox].id == old_users[oy].id);
                    assert(ox != oy);
                }
                if new_users[x] == new_users[y] {
                    lemma_filter_users_distinct_here(old_users, upred, x, y);
                }
            }
            assert forall|x: int| 0 <= x < new_users.len() implies 1 <= #[trigger] new_users[x].id
                < old_store.next_user_id by {
                assert(old_users.contains(new_users[x]));
                let o = choose|o: int| 0 <= o < old_users.len() && old_users[o] == new_users[x];
            }
            assert forall|x: int| 0 <= x < new_tags.len() implies old_store.musics.contains(
                #[trigger] new_tags[x].music_id,
            ) by {
                assert(old_tags.contains(new_tags[x]));
                let o = choose|o: int| 0 <= o < old_tags.len() && old_tags[o] == new_tags[x];
            }
        }
        Ok(())
    }
}

/// Users with equal rows at two filtered positions would need two equal
/// rows in the original, which distinct ids rule out.
proof fn lemma_filter_users_distinct_here(
    s: Seq<SpecUser>,
    pred: spec_fn(SpecUser) -> bool,
    x: int,
    y: int,
)
    requires
        forall|i: int, j: int| 0 <= i < j < s.len() ==> s[i].id != s[j].id,
        0 <= x < y < s.filter(pred).len(),
    ensures
        s.filter(pred)[x] != s.filter(pred)[y],
    decreases s.len(),
{
    reveal(Seq::filter);
    if s.len() > 0 {
        let d = s.drop_last();
        lemma_filter_subset(d, pred);
        if y < d.filter(pred).len() {
            lemma_filter_users_distinct_here(d, pred, x, y);
            assert(s.filter(pred)[x] == d.filter(pred)[x]);
            assert(s.filter(pred)[y] == d.filter(pred)[y]);
        } else {
            assert(pred(s.last()) && y == s.filter(pred).len() - 1 && s.filter(pred).len()
                == d.filter(pred).len() + 1);
            assert(s.filter(pred)[x] == d.filter(pred)[x]);
            assert(s.filter(pred)[y] == s.last());
            let o = choose|o: int| 0 <= o < d.len() && d[o] == d.filter(pred)[x];
            assert(s[o] == s.filter(pred)[x]);
            assert(s[s.len() - 1] == s.last());
            assert(s[o].id != s[s.len() - 1].id);
        }
    }
}

} // verus!

verus! {

/// Index of the first setting with this key at or after `i`, or -1.
pub open spec fn setting_idx_from(settings: Seq<(Seq<char>, Seq<char>)>, key: Seq<char>, i: int) -> int
    decreases settings.len() - i,
{
    if i < 0 || i >= settings.len() {
        -1
    } else if settings[i].0 == key {
        i
    } else {
        setting_idx_from(settings, key, i + 1)
    }
}

/// Index of the setting with this key, or -1.
pub open spec fn setting_idx(settings: Seq<(Seq<char>, Seq<char>)>, key: Seq<char>) -> int {
    setting_idx_from(settings, key, 0)
}

pub proof fn lemma_setting_idx_bounds(settings: Seq<(Seq<char>, Seq<char>)>, key: Seq<char>, i: int)
    requires
        0 <= i <= settings.len(),
    ensures
        setting_idx_from(settings, key, i) == -1 || (i <= setting_idx_from(settings, key, i)
            < settings.len() && settings[setting_idx_from(settings, key, i)].0 == key),
        setting_idx_from(settings, key, i) == -1 ==> forall|j: int|
            i <= j < settings.len() ==> settings[j].0 != key,
        forall|j: int| i <= j < setting_idx_from(settings, key, i) ==> settings[j].0 != key,
    decreases settings.len() - i,
{
    if i < settings.len() && settings[i].0 != key {
        lemma_setting_idx_bounds(settings, key, i + 1);
    }
}

pub proof fn lemma_setting_idx_at(
    settings: Seq<(Seq<char>, Seq<char>)>,
    key: Seq<char>,
    i: int,
    j: int,
)
    requires
        0 <= i <= j < settings.len(),
        settings[j].0 == key,
        forall|l: int| i <= l < j ==> settings[l].0 != key,
    ensures
        setting_idx_from(settings, key, i) == j,
    decreases j - i,
{
    if i < j {
        lemma_setting_idx_at(settings, key, i + 1, j);
    }
}

impl Store {
    /// Position of the setting with this key, if present.
    fn find_setting(&self, key: &str) -> (r: Option<usize>)
        ensures
            match r {
                Some(i) => {
                    &&& 0 <= i < self@.settings.len()
                    &&& setting_idx(self@.settings, key@) == i
                },
                None => setting_idx(self@.settings, key@) == -1,
            },
    {
        let ghost settings = self@.settings;
        let mut i: usize = 0;
        while i < self.settings.len()
            invariant
                0 <= i <= self.settings.len(),
                settings == self@.settings,
                settings.len() == self.settings@.len(),
                forall|j: int| 0 <= j < i ==> settings[j].0 != key@,
            decreases self.settings@.len() - i,
        {
            proof {
                assert(settings[i as int] == (self.settings@[i as int].0@, self.settings@[i as int].1@));
            }
            if crate::strutil::str_eq(self.settings[i].0.as_str(), key) {
                proof {
                    lemma_setting_idx_at(settings, key@, 0, i as int);
                }
                return Some(i);
            }
            i = i + 1;
        }
        proof {
            lemma_setting_idx_bounds(settings, key@, 0);
            if setting_idx(settings, key@) != -1 {
                let j = setting_idx(settings, key@);
                assert(settings[j].0 != key@);
            }
        }
        None
    }

    /// Rewrites the value of an existing configuration key; a key that is
    /// not there is left alone, as an UPDATE that matches no row.
    pub fn update_setting(&mut self, key: &str, value: &str) -> (r: Result<(), StoreError>)
        requires
            old(self)@.wf(),
        ensures
            final(self)@.wf(),
            r is Ok,
            final(self)@ == (SpecStore {
                settings: if setting_idx(old(self)@.settings, key@) >= 0 {
                    old(self)@.settings.update(
                        setting_idx(old(self)@.settings, key@),
                        (key@, value@),
                    )
                } else {
                    old(self)@.settings
                },
                ..old(self)@
            }),
    {
        let ghost old_store = self@;
        match self.find_setting(key) {
            Some(i) => {
                proof {
                    lemma_setting_idx_bounds(old_store.settings, key@, 0);
                }
                self.settings[i] = (String::from_str(key), String::from_str(value));
                proof {
                    assert(self@.settings =~= old_store.settings.update(i as int, (key@, value@)));
                    assert(old_store.settings[i as int].0 == key@);
                }
            },
            None => {
            },
        }
        Ok(())
    }

    /// Adds a configuration key with a default value unless it already
    /// exists; an existing value is never overwritten.
    pub fn ensure_setting(&mut self, key: &str, value: &str) -> (r: Result<(), StoreError>)
        requires
            old(self)@.wf(),
        ensures
            final(self)@.wf(),
            r is Ok,
            final(self)@ == (SpecStore {
                settings: if setting_idx(old(self)@.settings, key@) >= 0 {
                    old(self)@.settings
                } else {
                    old(self)@.settings.push((key@, value@))
                },
                ..old(self)@
            }),
    {
        let ghost old_store = self@;
        match self.find_setting(key) {
            Some(_) => {
            },
            None => {
                proof {
                    lemma_setting_idx_bounds(old_store.settings, key@, 0);
                }
                self.settings.push((String::from_str(key), String::from_str(value)));
                proof {
                    assert(self@.settings =~= old_store.settings.push((key@, value@)));
                    assert forall|x: int, y: int|
                        0 <= x < y < self@.settings.len() implies self@.settings[x].0
                        != self@.settings[y].0 by {
                        if y == self@.settings.len() - 1 {
                            assert(old_store.settings[x].0 != key@);
                        }
                    }
                }
            },
        }
        Ok(())
    }

    /// The value stored for a configuration key.
    pub fn get_setting(&self, key: &str) -> (r: Option<String>)
        ensures
            match r {
                Some(v) => {
                    &&& setting_idx(self@.settings, key@) >= 0
                    &&& v@ == self@.settings[setting_idx(self@.settings, key@)].1
                },
                None => setting_idx(self@.settings, key@) == -1,
            },
    {
        match self.find_setting(key) {
            Some(i) => Some(self.settings[i].1.clone()),
            None => None,
        }
    }

    /// Every configuration pair, in insertion order.
    pub fn all_settings(&self) -> (r: Vec<(String, String)>)
        ensures
            crate::entity::view_setting_seq(r@) == self@.settings,
    {
        let mut r: Vec<(String, String)> = Vec::new();
        let mut i: usize = 0;
        while i < self.settings.len()
            invariant
                0 <= i <= self.settings.len(),
                crate::entity::view_setting_seq(r@) == self@.settings.subrange(0, i as int),
            decreases self.settings@.len() - i,
        {
            let ghost old_r = crate::entity::view_setting_seq(r@);
            let p = &self.settings[i];
            r.push((p.0.clone(), p.1.clone()));
            proof {
                assert(crate::entity::view_setting_seq(r@) =~= old_r.push(
                    self@.settings[i as int],
                ));
                assert(self@.settings.subrange(0, i + 1) =~= self@.settings.subrange(
                    0,
                    i as int,
                ).push(self@.settings[i as int]));
            }
            i = i + 1;
        }
        proof {
            assert(self@.settings.subrange(0, self@.settings.len() as int) =~= self@.settings);
        }
        r
    }

    /// Seeds the default configuration rows of a fresh database, leaving
    /// any existing value in place.
    pub fn init_settings(&mut self) -> (r: Result<(), StoreError>)
        requires
            old(self)@.wf(),
        ensures
            final(self)@.wf(),
            r is Ok,
            final(self)@ == (SpecStore {
                settings: if setting_idx(old(self)@.settings, "config_test"@) >= 0 {
                    old(self)@.settings
                } else {
                    old(self)@.settings.push(("config_test"@, "1"@))
                },
                ..old(self)@
            }),
    {
        self.ensure_setting("config_test", "1")
    }
}

} // verus!

verus! {

/// A tag of the merged-away music, rewritten to the surviving one.
pub open spec fn spec_retag(t: SpecTag, a: int) -> SpecTag {
    SpecTag {
        music_id: a,
        key: t.key,
        text: t.text,
        integer: t.integer,
        date: t.date,
        vector: t.vector,
    }
}

/// Does merging `b` into `a` move at least one tag?
pub open spec fn spec_merge_moves(tags: Seq<SpecTag>, a: int, b: int) -> bool {
    exists|i: int|
        0 <= i < tags.len() && (#[trigger] tags[i]).music_id == b && tag_idx(tags, a, tags[i].key)
            == -1
}

/// Tag rows after rewriting `b`'s rows to `a` where `a` has no row with
/// that key, then dropping what still belongs to `b`.
pub open spec fn spec_merge_mapped(tags: Seq<SpecTag>, a: int, b: int) -> Seq<SpecTag> {
    Seq::new(
        tags.len(),
        |i: int|
            if tags[i].music_id == b && tag_idx(tags, a, tags[i].key) == -1 {
                spec_retag(tags[i], a)
            } else {
                tags[i]
            },
    )
}

/// The tag table after `merge(a, b)`.
pub open spec fn spec_merge_tags(tags: Seq<SpecTag>, a: int, b: int) -> Seq<SpecTag> {
    spec_merge_mapped(tags, a, b).filter(|t: SpecTag| t.music_id != b)
}

impl Music {
    /// Merges `id2` into `id1`: every tag of `id2` moves to `id1` unless
    /// `id1` already holds that key (then `id1`'s row wins and `id2`'s is
    /// discarded), and `id2`'s row disappears.
    #[verifier::rlimit(80)]
    pub fn merge(c: &mut Store, id1: MusicID, id2: MusicID) -> (r: Result<(), StoreError>)
        requires
            old(c)@.wf(),
            id1.0 != id2.0,
        ensures
            final(c)@.wf(),
            r is Ok <==> (old(c)@.musics.contains(id1.0 as int) || !spec_merge_moves(
                old(c)@.tags,
                id1.0 as int,
                id2.0 as int,
            )),
            r is Ok ==> final(c)@ == (SpecStore {
                musics: old(c)@.musics.filter(|m: int| m != id2.0 as int),
                tags: spec_merge_tags(old(c)@.tags, id1.0 as int, id2.0 as int),
                ..old(c)@
            }),
            r is Err ==> final(c)@ == old(c)@,
    {
        let ghost old_store = c@;
        let ghost a = id1.0 as int;
        let ghost b = id2.0 as int;
        let ghost s = old_store.tags;
        let ghost mapped = spec_merge_mapped(s, a, b);
        let ghost bpred = |t: SpecTag| t.music_id != id2.0 as int;

        // A tag about to move needs the surviving row to exist, as the
        // schema's foreign key would demand.
        if !c.has_music(id1) {
            let mut j: usize = 0;
            while j < c.tags.len()
                invariant
                    0 <= j <= c.tags.len(),
                    a == id1.0 as int,
                    b == id2.0 as int,
                    c@ == old(c)@,
                    old(c)@.wf(),
                    !old(c)@.musics.contains(id1.0 as int),
                    s == c@.tags,
                    s.len() == c.tags@.len(),
                    forall|i: int|
                        0 <= i < j ==> !((#[trigger] s[i]).music_id == b && tag_idx(s, a, s[i].key)
                            == -1),
                decreases c.tags@.len() - j,
            {
                proof {
                    assert(s[j as int] == c.tags@[j as int]@);
                }
                let t = &c.tags[j];
                if t.music_id == id2 {
                    match c.find_tag(id1, &t.key) {
                        Some(_) => {
                        },
                        None => {
                            proof {
                                assert(s[j as int].music_id == b && tag_idx(
                                    s,
                                    a,
                                    s[j as int].key,
                                ) == -1);
                                assert(spec_merge_moves(s, a, b));
                            }
                            return Err(StoreError::ForeignKey);
                        },
                    }
                }
                j = j + 1;
            }
            proof {
                assert(!spec_merge_moves(s, a, b));
            }
        }

        let mut kept_tags: Vec<Tag> = Vec::new();
        let mut i: usize = 0;
        proof {
            reveal(Seq::filter);
            assert(mapped.subrange(0, 0) =~= Seq::<SpecTag>::empty());
            assert(view_tag_seq(kept_tags@) =~= Seq::<SpecTag>::empty());
        }
        while i < c.tags.len()
            invariant
                0 <= i <= c.tags.len(),
                a == id1.0 as int,
                b == id2.0 as int,
                id1.0 != id2.0,
                s == c@.tags,
                s.len() == c.tags@.len(),
                mapped == spec_merge_mapped(s, a, b),
                mapped.len() == s.len(),
                bpred == (|t: SpecTag| t.music_id != id2.0 as int),
                view_tag_seq(kept_tags@) == mapped.subrange(0, i as int).filter(bpred),
            decreases c.tags@.len() - i,
        {
            let ghost pre = mapped.subrange(0, i as int);
            let ghost cur = mapped.subrange(0, i + 1);
            proof {
                reveal(Seq::filter);
                assert(cur.drop_last() =~= pre);
                assert(cur.last() == mapped[i as int]);
                assert(s[i as int] == c.tags@[i as int]@);
            }
            let t = &c.tags[i];
            if t.music_id == id2 {
                match c.find_tag(id1, &t.key) {
                    Some(_) => {
                        // key collision: the surviving music keeps its own
                        // row, this one is discarded
                        proof {
                            reveal(Seq::filter);
                            assert(mapped[i as int] == s[i as int]);
                            assert(!bpred(mapped[i as int]));
                            assert(cur.filter(bpred) == pre.filter(bpred));
                        }
                    },
                    None => {
                        let ghost old_kept = view_tag_seq(kept_tags@);
                        let moved_tag = Tag {
                            music_id: id1,
                            key: t.key.clone(),
                            text: crate::entity::clone_opt_string(&t.text),
                            integer: t.integer,
                            date: crate::entity::clone_opt_string(&t.date),
                            vector: match &t.vector {
                                Some(v) => Some(v.clone()),
                                None => None,
                            },
                        };
                        proof {
                            assert(moved_tag@ == spec_retag(s[i as int], a));
                        }
                        kept_tags.push(moved_tag);
                        proof {
                            reveal(Seq::filter);
                            assert(mapped[i as int] == spec_retag(s[i as int], a));
                            assert(view_tag_seq(kept_tags@) =~= old_kept.push(mapped[i as int]));
                            assert(bpred(mapped[i as int]));
                            assert(cur.filter(bpred) == pre.filter(bpred).push(mapped[i as int]));
                        }
                    },
                }
            } else {
                let ghost old_kept = view_tag_seq(kept_tags@);
                kept_tags.push(t.clone());
                proof {
                    reveal(Seq::filter);
                    assert(mapped[i as int] == s[i as int]);
                    assert(view_tag_seq(kept_tags@) =~= old_kept.push(mapped[i as int]));
                    assert(bpred(mapped[i as int]));
                    assert(cur.filter(bpred) == pre.filter(bpred).push(mapped[i as int]));
                }
            }
            i = i + 1;
        }
        proof {
            assert(mapped.subrange(0, mapped.len() as int) =~= mapped);
        }

        let ghost old_musics = c@.musics;
        let mut kept_musics: Vec<MusicID> = Vec::new();
        let mut m: usize = 0;
        proof {
            reveal(Seq::filter);
            assert(old_musics.subrange(0, 0) =~= Seq::<int>::empty());
            assert(crate::entity::view_music_seq(kept_musics@) =~= Seq::<int>::empty());
        }
        while m < c.musics.len()
            invariant
                0 <= m <= c.musics.len(),
                old_musics == c@.musics,
                old_musics.len() == c.musics@.len(),
                crate::entity::view_music_seq(kept_musics@) == old_musics.subrange(
                    0,
                    m as int,
                ).filter(|x: int| x != id2.0 as int),
            decreases c.musics@.len() - m,
        {
            let ghost pre = old_musics.subrange(0, m as int);
            let ghost cur = old_musics.subrange(0, m + 1);
            proof {
                reveal(Seq::filter);
                assert(cur.drop_last() =~= pre);
                assert(cur.last() == old_musics[m as int]);
                assert(old_musics[m as int] == c.musics@[m as int].0 as int);
            }
            let mid = c.musics[m];
            if mid != id2 {
                let ghost old_kept = crate::entity::view_music_seq(kept_musics@);
                kept_musics.push(mid);
                proof {
                    assert(crate::entity::view_music_seq(kept_musics@) =~= old_kept.push(
                        old_musics[m as int],
                    ));
                }
            }
            m = m + 1;
        }
        proof {
            assert(old_musics.subrange(0, old_musics.len() as int) =~= old_musics);
        }

        c.tags = kept_tags;
        c.musics = kept_musics;
        proof {
            let mpred = |x: int| x != id2.0 as int;
            // the mapped table is still unique per (music_id, key)
            assert forall|x: int, y: int| 0 <= x < y < mapped.len() implies !(
            mapped[x].music_id == mapped[y].music_id && mapped[x].key == mapped[y].key) by {
                if s[x].music_id == b && tag_idx(s, a, s[x].key) == -1 {
                    if s[y].music_id == b && tag_idx(s, a, s[y].key) == -1 {
                    } else {
                        if mapped[y].music_id == a && mapped[y].key == s[x].key {
                            lemma_tag_idx_bounds(s, a, s[x].key, 0);
                            assert(s[y].music_id == a && s[y].key == s[x].key);
                            assert(false);
                        }
                    }
                } else {
                    if s[y].music_id == b && tag_idx(s, a, s[y].key) == -1 {
                        if mapped[x].music_id == a && mapped[x].key == s[y].key {
                            lemma_tag_idx_bounds(s, a, s[y].key, 0);
                            assert(s[x].music_id == a && s[x].key == s[y].key);
                            assert(false);
                        }
                    }
                }
            }
            lemma_filter_tags_unique(mapped, bpred);
            lemma_filter_subset(mapped, bpred);
            lemma_filter_subset(old_musics, mpred);
            let new_tags = mapped.filter(bpred);
            let new_musics = old_musics.filter(mpred);
            lemma_filter_distinct(old_musics, mpred);
            assert forall|x: int| 0 <= x < new_musics.len() implies 1 <= #[trigger] new_musics[x]
                < old_store.next_music_id by {
                assert(old_musics.contains(new_musics[x]));
                let o = choose|o: int| 0 <= o < old_musics.len() && old_musics[o] == new_musics[x];
            }
            assert forall|x: int| 0 <= x < new_tags.len() implies new_musics.contains(
                #[trigger] new_tags[x].music_id,
            ) by {
                assert(mapped.contains(new_tags[x]));
                let o = choose|o: int| 0 <= o < mapped.len() && mapped[o] == new_tags[x];
                let src_mid = new_tags[x].music_id;
                assert(src_mid == a || src_mid == s[o].music_id);
                assert(src_mid != b);
                assert(old_store.musics.contains(src_mid));
                let z = choose|z: int| 0 <= z < old_musics.len() && old_musics[z] == src_mid;
                old_musics.lemma_filter_contains(mpred, z);
            }
        }
        Ok(())
    }
}

} // verus!

verus! {

/// Upserting preserves the one-row-per-`(music_id, key)` shape.
pub proof fn lemma_upsert_keeps_unique(tags: Seq<SpecTag>, t: SpecTag)
    requires
        forall|i: int, j: int|
            0 <= i < j < tags.len() ==> !(tags[i].music_id == tags[j].music_id && tags[i].key
                == tags[j].key),
    ensures
        forall|i: int, j: int|
            0 <= i < j < spec_upsert(tags, t).len() ==> !(spec_upsert(tags, t)[i].music_id
                == spec_upsert(tags, t)[j].music_id && spec_upsert(tags, t)[i].key == spec_upsert(
                tags,
                t,
            )[j].key),
{
    let w = tag_idx(tags, t.music_id, t.key);
    lemma_tag_idx_bounds(tags, t.music_id, t.key, 0);
    let out = spec_upsert(tags, t);
    assert forall|i: int, j: int| 0 <= i < j < out.len() implies !(out[i].music_id
        == out[j].music_id && out[i].key == out[j].key) by {
        if w >= 0 {
            assert(tags[w].music_id == t.music_id && tags[w].key == t.key);
        } else {
            if j == out.len() - 1 {
                assert(!(tags[i].music_id == t.music_id && tags[i].key == t.key));
            }
        }
    }
}

/// Law: upserting two tags for the same `(music_id, key)` leaves exactly
/// one row for that pair, and it holds the second payload.
pub proof fn lemma_upsert_idempotent(tags: Seq<SpecTag>, t1: SpecTag, t2: SpecTag)
    requires
        forall|i: int, j: int|
            0 <= i < j < tags.len() ==> !(tags[i].music_id == tags[j].music_id && tags[i].key
                == tags[j].key),
        t1.music_id == t2.music_id,
        t1.key == t2.key,
    ensures
        ({
            let after = spec_upsert(spec_upsert(tags, t1), t2);
            exists|i: int|
                0 <= i < after.len() && #[trigger] after[i] == t2 && forall|j: int|
                    0 <= j < after.len() && j != i ==> !(after[j].music_id == t2.music_id
                        && after[j].key == t2.key)
        }),
{
    let mid = spec_upsert(tags, t1);
    lemma_upsert_keeps_unique(tags, t1);
    lemma_upsert_keeps_unique(mid, t2);
    let w = tag_idx(tags, t1.music_id, t1.key);
    lemma_tag_idx_bounds(tags, t1.music_id, t1.key, 0);
    let after = spec_upsert(mid, t2);
    if w >= 0 {
        assert(mid == tags.update(w, t1));
        lemma_tag_idx_of_unique(mid, w);
        assert(tag_idx(mid, t2.music_id, t2.key) == w);
        assert(after == mid.update(w, t2));
        assert(after[w] == t2);
        assert forall|j: int|
            0 <= j < after.len() && j != w implies !(after[j].music_id == t2.music_id
            && after[j].key == t2.key) by {
            if j < w {
                assert(!(after[j].music_id == after[w].music_id && after[j].key == after[w].key));
            } else {
                assert(!(after[w].music_id == after[j].music_id && after[w].key == after[j].key));
            }
        }
    } else {
        assert(mid == tags.push(t1));
        let w2 = mid.len() - 1;
        assert(mid[w2].music_id == t2.music_id && mid[w2].key == t2.key);
        lemma_tag_idx_of_unique(mid, w2);
        assert(after == mid.update(w2, t2));
        assert(after[w2] == t2);
        assert forall|j: int|
            0 <= j < after.len() && j != w2 implies !(after[j].music_id == t2.music_id
            && after[j].key == t2.key) by {
            assert(!(after[j].music_id == after[w2].music_id && after[j].key == after[w2].key));
        }
    }
}

} // verus!

verus! {

/// The merged table still has one row per `(music_id, key)`.
pub proof fn lemma_merge_mapped_unique(tags: Seq<SpecTag>, a: int, b: int)
    requires
        forall|i: int, j: int|
            0 <= i < j < tags.len() ==> !(tags[i].music_id == tags[j].music_id && tags[i].key
                == tags[j].key),
        a != b,
    ensures
        forall|i: int, j: int|
            0 <= i < j < spec_merge_mapped(tags, a, b).len() ==> !(spec_merge_mapped(
                tags,
                a,
                b,
            )[i].music_id == spec_merge_mapped(tags, a, b)[j].music_id && spec_merge_mapped(
                tags,
                a,
                b,
            )[i].key == spec_merge_mapped(tags, a, b)[j].key),
{
    let mapped = spec_merge_mapped(tags, a, b);
    assert forall|x: int, y: int| 0 <= x < y < mapped.len() implies !(mapped[x].music_id
        == mapped[y].music_id && mapped[x].key == mapped[y].key) by {
        if tags[x].music_id == b && tag_idx(tags, a, tags[x].key) == -1 {
            if tags[y].music_id == b && tag_idx(tags, a, tags[y].key) == -1 {
            } else {
                if mapped[y].music_id == a && mapped[y].key == tags[x].key {
                    lemma_tag_idx_bounds(tags, a, tags[x].key, 0);
                    assert(tags[y].music_id == a && tags[y].key == tags[x].key);
                    assert(false);
                }
            }
        } else {
            if tags[y].music_id == b && tag_idx(tags, a, tags[y].key) == -1 {
                if mapped[x].music_id == a && mapped[x].key == tags[y].key {
                    lemma_tag_idx_bounds(tags, a, tags[y].key, 0);
                    assert(tags[x].music_id == a && tags[x].key == tags[y].key);
                    assert(false);
                }
            }
        }
    }
}

/// Law (merge): after merging `b` into `a`, `b` answers no query at all;
/// a key `a` already held keeps `a`'s own row; a key only `b` held now
/// answers under `a` with `b`'s payload; everything else is untouched.
pub proof fn lemma_merge_invariant(tags: Seq<SpecTag>, a: int, b: int, mid: int, k: SpecKey)
    requires
        forall|i: int, j: int|
            0 <= i < j < tags.len() ==> !(tags[i].music_id == tags[j].music_id && tags[i].key
                == tags[j].key),
        a != b,
    ensures
        crate::sync::spec_lookup(spec_merge_tags(tags, a, b), mid, k) == (if mid == b {
            None
        } else if mid == a {
            if tag_idx(tags, a, k) >= 0 {
                Some(tags[tag_idx(tags, a, k)])
            } else if tag_idx(tags, b, k) >= 0 {
                Some(spec_retag(tags[tag_idx(tags, b, k)], a))
            } else {
                None
            }
        } else {
            crate::sync::spec_lookup(tags, mid, k)
        }),
{
    let mapped = spec_merge_mapped(tags, a, b);
    let bpred = |t: SpecTag| t.music_id != b;
    let merged = spec_merge_tags(tags, a, b);
    lemma_merge_mapped_unique(tags, a, b);
    lemma_filter_tags_unique(mapped, bpred);
    lemma_filter_subset(mapped, bpred);
    lemma_tag_idx_bounds(tags, a, k, 0);
    lemma_tag_idx_bounds(tags, b, k, 0);
    lemma_tag_idx_bounds(tags, mid, k, 0);
    lemma_tag_idx_bounds(merged, mid, k, 0);

    // what row, if any, the merged table is expected to hold for (mid, k)
    let expected: Option<SpecTag> = if mid == b {
        None
    } else if mid == a {
        if tag_idx(tags, a, k) >= 0 {
            Some(tags[tag_idx(tags, a, k)])
        } else if tag_idx(tags, b, k) >= 0 {
            Some(spec_retag(tags[tag_idx(tags, b, k)], a))
        } else {
            None
        }
    } else {
        if tag_idx(tags, mid, k) >= 0 {
            Some(tags[tag_idx(tags, mid, k)])
        } else {
            None
        }
    };

    match expected {
        Some(v) => {
            // the expected row is in the merged table
            let src = if mid == a && tag_idx(tags, a, k) == -1 {
                tag_idx(tags, b, k)
            } else if mid == a {
                tag_idx(tags, a, k)
            } else {
                tag_idx(tags, mid, k)
            };
            assert(0 <= src < tags.len());
            assert(mapped[src] == v);
            assert(bpred(v));
            mapped.lemma_filter_contains(bpred, src);
            let w = choose|w: int| 0 <= w < merged.len() && merged[w] == v;
            assert(merged[w].music_id == mid && merged[w].key == k);
            if tag_idx(merged, mid, k) == -1 {
                assert(false);
            }
            let j = tag_idx(merged, mid, k);
            assert(merged[j].music_id == mid && merged[j].key == k);
            if j != w {
                if j < w {
                    assert(!(merged[j].music_id == merged[w].music_id && merged[j].key
                        == merged[w].key));
                } else {
                    assert(!(merged[w].music_id == merged[j].music_id && merged[w].key
                        == merged[j].key));
                }
                assert(false);
            }
            assert(crate::sync::spec_lookup(merged, mid, k) == Some(v));
        },
        None => {
            if tag_idx(merged, mid, k) >= 0 {
                let j = tag_idx(merged, mid, k);
                assert(mapped.contains(merged[j]));
                let o = choose|o: int| 0 <= o < mapped.len() && mapped[o] == merged[j];
                assert(merged[j].music_id == mid && merged[j].key == k);
                assert(bpred(merged[j]));
                if tags[o].music_id == b && tag_idx(tags, a, tags[o].key) == -1 {
                    // a retagged row: only possible when a lacked the key
                    assert(mapped[o] == spec_retag(tags[o], a));
                    assert(mid == a && tags[o].key == k);
                    assert(tag_idx(tags, a, k) == -1);
                    assert(tags[o].music_id == b && tags[o].key == k);
                    if tag_idx(tags, b, k) == -1 {
                        assert(false);
                    }
                    assert(false);
                } else {
                    assert(mapped[o] == tags[o]);
                    assert(tags[o].music_id == mid && tags[o].key == k);
                    if mid == a {
                        assert(tag_idx(tags, a, k) != -1);
                        assert(false);
                    } else if mid == b {
                        assert(!bpred(merged[j]));
                        assert(false);
                    } else {
                        assert(tag_idx(tags, mid, k) != -1);
                        assert(false);
                    }
                }
            }
            assert(crate::sync::spec_lookup(merged, mid, k) is None);
        },
    }
}

} // verus!

verus! {

/// The tags holding one key and one exact text, in store order.
pub open spec fn spec_key_text_tags(tags: Seq<SpecTag>, k: SpecKey, text: Seq<char>) -> Seq<
    SpecTag,
> {
    tags.filter(|t: SpecTag| t.key == k && t.text == Some(text))
}

impl Tag {
    /// All tags holding this key and this exact text, in store order.
    pub fn by_key_text(c: &Store, key: &TagKey, text: &str) -> (r: Vec<Tag>)
        ensures
            view_tag_seq(r@) == spec_key_text_tags(c@.tags, key@, text@),
    {
        let ghost tags = c@.tags;
        let ghost pred = |t: SpecTag| t.key == key@ && t.text == Some(text@);
        let mut r: Vec<Tag> = Vec::new();
        let mut i: usize = 0;
        proof {
            assert(tags.subrange(0, 0) =~= Seq::<SpecTag>::empty());
            reveal(Seq::filter);
        }
        while i < c.tags.len()
            invariant
                0 <= i <= c.tags.len(),
                tags == c@.tags,
                tags.len() == c.tags@.len(),
                pred == (|t: SpecTag| t.key == key@ && t.text == Some(text@)),
                view_tag_seq(r@) == tags.subrange(0, i as int).filter(pred),
            decreases c.tags@.len() - i,
        {
            let ghost pre = tags.subrange(0, i as int);
            let ghost cur = tags.subrange(0, i + 1);
            proof {
                reveal(Seq::filter);
                assert(cur.drop_last() =~= pre);
                assert(cur.last() == tags[i as int]);
                assert(tags[i as int] == c.tags@[i as int]@);
            }
            let t = &c.tags[i];
            let matches_text = match &t.text {
                Some(s) => str_eq(s.as_str(), text),
                None => false,
            };
            if t.key == *key && matches_text {
                let ghost old_r = view_tag_seq(r@);
                r.push(t.clone());
                proof {
                    assert(view_tag_seq(r@) =~= old_r.push(tags[i as int]));
                }
            }
            i = i + 1;
        }
        proof {
            assert(tags.subrange(0, tags.len() as int) =~= tags);
        }
        r
    }
}

} // verus!

verus! {

/// Does this music have an owner: any ownership tag pointing at it?
pub open spec fn spec_has_owner(tags: Seq<SpecTag>, mid: int) -> bool {
    exists|i: int|
        0 <= i < tags.len() && (#[trigger] tags[i]).music_id == mid && tags[i].key
            is UserLibrary
}

impl Store {
    /// Does any ownership tag point at this music?
    fn has_owner(&self, mid: MusicID) -> (r: bool)
        ensures
            r == spec_has_owner(self@.tags, mid.0 as int),
    {
        let ghost s = self@.tags;
        let mut owned = false;
        let mut j: usize = 0;
        while j < self.tags.len()
            invariant
                0 <= j <= self.tags.len(),
                s == self@.tags,
                s.len() == self.tags@.len(),
                owned == exists|l: int|
                    0 <= l < j && (#[trigger] s[l]).music_id == mid.0 as int && s[l].key
                        is UserLibrary,
            decreases self.tags@.len() - j,
        {
            proof {
                assert(s[j as int] == self.tags@[j as int]@);
            }
            let t = &self.tags[j];
            if t.music_id == mid {
                match &t.key {
                    TagKey::UserLibrary(_) => {
                        owned = true;
                    },
                    _ => {
                    },
                }
            }
            j = j + 1;
        }
        owned
    }
}

/// Deletes every orphaned music: one without a single ownership tag. The
/// orphans' remaining tags go with them, everything owned stays whole.
pub fn clean(c: &mut Store) -> (r: Result<(), StoreError>)
    requires
        old(c)@.wf(),
    ensures
        final(c)@.wf(),
        r is Ok,
        final(c)@ == (SpecStore {
            musics: old(c)@.musics.filter(|m: int| spec_has_owner(old(c)@.tags, m)),
            tags: old(c)@.tags.filter(
                |t: SpecTag| spec_has_owner(old(c)@.tags, t.music_id),
            ),
            ..old(c)@
        }),
{
    let ghost old_store = c@;
    let ghost s = old_store.tags;
    let ghost mpred = |m: int| spec_has_owner(s, m);
    let ghost tpred = |t: SpecTag| spec_has_owner(s, t.music_id);

    let mut kept_musics: Vec<MusicID> = Vec::new();
    let ghost old_musics = c@.musics;
    let mut i: usize = 0;
    proof {
        reveal(Seq::filter);
        assert(old_musics.subrange(0, 0) =~= Seq::<int>::empty());
        assert(crate::entity::view_music_seq(kept_musics@) =~= Seq::<int>::empty());
    }
    while i < c.musics.len()
        invariant
            0 <= i <= c.musics.len(),
            s == c@.tags,
            old_musics == c@.musics,
            old_musics.len() == c.musics@.len(),
            mpred == (|m: int| spec_has_owner(s, m)),
            crate::entity::view_music_seq(kept_musics@) == old_musics.subrange(
                0,
                i as int,
            ).filter(mpred),
        decreases c.musics@.len() - i,
    {
        let ghost pre = old_musics.subrange(0, i as int);
        let ghost cur = old_musics.subrange(0, i + 1);
        proof {
            reveal(Seq::filter);
            assert(cur.drop_last() =~= pre);
            assert(cur.last() == old_musics[i as int]);
            assert(old_musics[i as int] == c.musics@[i as int].0 as int);
        }
        let mid = c.musics[i];
        let owned = c.has_owner(mid);
        if owned {
            let ghost old_kept = crate::entity::view_music_seq(kept_musics@);
            kept_musics.push(mid);
            proof {
                assert(crate::entity::view_music_seq(kept_musics@) =~= old_kept.push(
                    old_musics[i as int],
                ));
            }
        }
        i = i + 1;
    }
    proof {
        assert(old_musics.subrange(0, old_musics.len() as int) =~= old_musics);
    }

    let mut kept_tags: Vec<Tag> = Vec::new();
    let mut k: usize = 0;
    proof {
        reveal(Seq::filter);
        assert(s.subrange(0, 0) =~= Seq::<SpecTag>::empty());
        assert(view_tag_seq(kept_tags@) =~= Seq::<SpecTag>::empty());
    }
    while k < c.tags.len()
        invariant
            0 <= k <= c.tags.len(),
            s == c@.tags,
            s.len() == c.tags@.len(),
            tpred == (|t: SpecTag| spec_has_owner(s, t.music_id)),
            view_tag_seq(kept_tags@) == s.subrange(0, k as int).filter(tpred),
        decreases c.tags@.len() - k,
    {
        let ghost pre = s.subrange(0, k as int);
        let ghost cur = s.subrange(0, k + 1);
        proof {
            reveal(Seq::filter);
            assert(cur.drop_last() =~= pre);
            assert(cur.last() == s[k as int]);
            assert(s[k as int] == c.tags@[k as int]@);
        }
        let mid = c.tags[k].music_id;
        let owned = c.has_owner(mid);
        if owned {
            let ghost old_kept = view_tag_seq(kept_tags@);
            let t = c.tags[k].clone();
            kept_tags.push(t);
            proof {
                assert(view_tag_seq(kept_tags@) =~= old_kept.push(s[k as int]));
            }
        }
        k = k + 1;
    }
    proof {
        assert(s.subrange(0, s.len() as int) =~= s);
    }

    c.musics = kept_musics;
    c.tags = kept_tags;
    proof {
        lemma_filter_distinct(old_musics, mpred);
        lemma_filter_tags_unique(s, tpred);
        lemma_filter_subset(old_musics, mpred);
        lemma_filter_subset(s, tpred);
        let new_musics = old_musics.filter(mpred);
        let new_tags = s.filter(tpred);
        assert forall|x: int| 0 <= x < new_musics.len() implies 1 <= #[trigger] new_musics[x]
            < old_store.next_music_id by {
            assert(old_musics.contains(new_musics[x]));
            let o = choose|o: int| 0 <= o < old_musics.len() && old_musics[o] == new_musics[x];
        }
        assert forall|x: int| 0 <= x < new_tags.len() implies new_musics.contains(
            #[trigger] new_tags[x].music_id,
        ) by {
            assert(s.contains(new_tags[x]));
            let o = choose|o: int| 0 <= o < s.len() && s[o] == new_tags[x];
            assert(old_store.musics.contains(s[o].music_id));
            let z = choose|z: int| 0 <= z < old_musics.len() && old_musics[z] == new_tags[x].music_id;
            assert(mpred(old_musics[z]));
            old_musics.lemma_filter_contains(mpred, z);
        }
    }
    Ok(())
}

impl User {
    /// Deletes a user unless it is the last one left: the calling layer's
    /// rule that the last account may not disappear. Reports whether the
    /// deletion happened.
    pub fn delete_checked(c: &mut Store, id: UserID) -> (r: Result<bool, StoreError>)
        requires
            old(c)@.wf(),
            old(c)@.users.len() <= i32::MAX,
        ensures
            final(c)@.wf(),
            r == Ok::<bool, StoreError>(old(c)@.users.len() != 1),
            old(c)@.users.len() == 1 ==> final(c)@ == old(c)@,
            old(c)@.users.len() != 1 ==> final(c)@ == (SpecStore {
                users: old(c)@.users.filter(|u: SpecUser| u.id != id.0 as int),
                tags: old(c)@.tags.filter(
                    |t: SpecTag| t.key != SpecKey::UserLibrary(spec_int_str(id.0 as int)),
                ),
                ..old(c)@
            }),
    {
        if User::n_users(c) == 1 {
            return Ok(false);
        }
        match User::delete(c, id) {
            Ok(_) => Ok(true),
            Err(e) => Err(e),
        }
    }
}

} // verus!
