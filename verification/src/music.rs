//! Library ordering and ownership rules: the cascading move that keeps one
//! sortkey per member, the owner-gated deletion, and the merge entry points
//! built on the store's contracts.

use vstd::prelude::*;

use crate::entity::{MusicID, SpecKey, SpecTag, Tag, TagKey, UserID};
use crate::store::{
    lemma_filter_subset, lemma_tag_idx_bounds, spec_cascade, spec_music_tags, spec_remove_tag,
    tag_idx, SpecStore, Store, StoreError,
};
use crate::strutil::{i32_to_string, spec_int_str, str_eq};

verus! {

/// Which side of the base item the moved item lands on.
#[derive(Clone, Copy, Debug, PartialEq, Eq, Structural)]
pub enum MoveDirection {
    Above,
    Below,
}

/// The slot step a direction takes: up for `Above`, down for `Below`.
pub open spec fn spec_offset(d: MoveDirection) -> int {
    match d {
        MoveDirection::Above => 1,
        MoveDirection::Below => -1,
    }
}

impl MoveDirection {
    /// The signed step this direction moves by.
    pub fn offset(&self) -> (r: i64)
        ensures
            r == spec_offset(*self),
    {
        match self {
            MoveDirection::Above => 1,
            MoveDirection::Below => -1,
        }
    }
}

/// What an ownership-gated deletion decided.
#[derive(Clone, Copy, Debug, PartialEq, Eq, Structural)]
pub enum DeleteOutcome {
    /// The deletion took effect.
    Done,
    /// The requesting user does not own the music while somebody else does.
    Forbidden,
}

/// The ownership tags of one music, in store order.
pub open spec fn spec_owner_tags(tags: Seq<SpecTag>, mid: int) -> Seq<SpecTag> {
    spec_music_tags(tags, mid).filter(|t: SpecTag| t.key is UserLibrary)
}

/// Deletes a music on behalf of a user. A non-owner is refused whenever the
/// music has any owner at all. With at most one owner the row and all its
/// tags disappear; with several, only the requesting user's ownership tag
/// does.
pub fn delete_music(c: &mut Store, uid: UserID, id: MusicID) -> (r: Result<
    DeleteOutcome,
    StoreError,
>)
    requires
        old(c)@.wf(),
    ensures
        final(c)@.wf(),
        r is Ok,
        ({
            let owners = spec_owner_tags(old(c)@.tags, id.0 as int);
            let ukey = SpecKey::UserLibrary(spec_int_str(uid.0 as int));
            let owned = tag_idx(old(c)@.tags, id.0 as int, ukey) >= 0;
            if owners.len() > 0 && !owned {
                r == Ok::<DeleteOutcome, StoreError>(DeleteOutcome::Forbidden) && final(c)@ == old(
                    c,
                )@
            } else if owners.len() <= 1 {
                r == Ok::<DeleteOutcome, StoreError>(DeleteOutcome::Done) && final(c)@
                    == (SpecStore {
                    musics: old(c)@.musics.filter(|m: int| m != id.0 as int),
                    tags: spec_cascade(old(c)@.tags, id.0 as int),
                    ..old(c)@
                })
            } else {
                r == Ok::<DeleteOutcome, StoreError>(DeleteOutcome::Done) && final(c)@ == old(
                    c,
                )@.with_tags(spec_remove_tag(old(c)@.tags, id.0 as int, ukey))
            }
        }),
{
    let ghost s = c@.tags;
    let ghost mid = id.0 as int;
    let ghost ukey = SpecKey::UserLibrary(spec_int_str(uid.0 as int));
    let ghost ulpred = |t: SpecTag| t.key is UserLibrary;

    let uid_s = i32_to_string(uid.0);
    let tags = Tag::by_id(c, id);
    let ghost mt = spec_music_tags(s, mid);

    let mut owners: usize = 0;
    let mut owned = false;
    let mut i: usize = 0;
    proof {
        reveal(Seq::filter);
        assert(mt.subrange(0, 0) =~= Seq::<SpecTag>::empty());
    }
    while i < tags.len()
        invariant
            0 <= i <= tags.len(),
            mid == id.0 as int,
            ukey == SpecKey::UserLibrary(spec_int_str(uid.0 as int)),
            ulpred == (|t: SpecTag| t.key is UserLibrary),
            uid_s@ == spec_int_str(uid.0 as int),
            mt == crate::entity::view_tag_seq(tags@),
            mt.len() == tags@.len(),
            owners == mt.subrange(0, i as int).filter(ulpred).len(),
            owners <= i,
            owned == exists|j: int| 0 <= j < i && (#[trigger] mt[j]).key == ukey,
        decreases tags@.len() - i,
    {
        let ghost pre = mt.subrange(0, i as int);
        let ghost cur = mt.subrange(0, i + 1);
        proof {
            reveal(Seq::filter);
            assert(cur.drop_last() =~= pre);
            assert(cur.last() == mt[i as int]);
            assert(mt[i as int] == tags@[i as int]@);
            pre.lemma_filter_len(ulpred);
        }
        let t = &tags[i];
        match &t.key {
            TagKey::UserLibrary(p) => {
                owners = owners + 1;
                if str_eq(p.as_str(), uid_s.as_str()) {
                    owned = true;
                    proof {
                        assert(mt[i as int].key == ukey);
                    }
                }
            },
            _ => {
                proof {
                    assert(!ulpred(mt[i as int]));
                    assert(!(mt[i as int].key == ukey));
                }
            },
        }
        proof {
            if mt[i as int].key is UserLibrary && !(mt[i as int].key == ukey) {
                assert(!owned ==> forall|j: int|
                    0 <= j < i + 1 ==> !((#[trigger] mt[j]).key == ukey));
            }
        }
        i = i + 1;
    }
    proof {
        assert(mt.subrange(0, mt.len() as int) =~= mt);
    }

    // Tie the scan down to the store: the ownership count is the owner-tag
    // count, and a matching scan hit is exactly an ownership row.
    proof {
        lemma_tag_idx_bounds(s, mid, ukey, 0);
        if owned {
            let j = choose|j: int| 0 <= j < mt.len() && (#[trigger] mt[j]).key == ukey;
            s.lemma_filter_pred(|t: SpecTag| t.music_id == mid, j);
            lemma_filter_subset(s, |t: SpecTag| t.music_id == mid);
            let o = choose|o: int| 0 <= o < s.len() && s[o] == mt[j];
            assert(s[o].music_id == mid && s[o].key == ukey);
            if tag_idx(s, mid, ukey) == -1 {
                assert(!(s[o].music_id == mid && s[o].key == ukey));
            }
        } else {
            if tag_idx(s, mid, ukey) >= 0 {
                lemma_tag_idx_bounds(s, mid, ukey, 0);
                let o = tag_idx(s, mid, ukey);
                s.lemma_filter_contains(|t: SpecTag| t.music_id == mid, o);
                let j = choose|j: int| 0 <= j < mt.len() && mt[j] == s[o];
                assert(mt[j].key == ukey);
            }
        }
    }

    proof {
        assert(owners as int == spec_owner_tags(s, mid).len());
        assert(owned == (tag_idx(s, mid, ukey) >= 0));
        assert(s == old(c)@.tags);
    }
    if owners > 0 && !owned {
        return Ok(DeleteOutcome::Forbidden);
    }
    if owners <= 1 {
        match crate::entity::Music::delete(c, id) {
            Ok(_) => {
            },
            Err(e) => {
                return Err(e);
            },
        }
        return Ok(DeleteOutcome::Done);
    }
    match Tag::remove(c, id, &TagKey::UserLibrary(uid_s)) {
        Ok(_) => {
        },
        Err(e) => {
            return Err(e);
        },
    }
    Ok(DeleteOutcome::Done)
}

} // verus!

verus! {

use crate::entity::view_tag_seq;
use crate::store::{lemma_tag_idx_of_unique, spec_upsert};
use vstd::set_lib::{lemma_int_range, lemma_len_subset};

/// The sortkey a member occupies: its integer payload, or 0 when it
/// carries none.
pub open spec fn eff_key(t: SpecTag) -> int {
    match t.integer {
        Some(v) => v,
        None => 0,
    }
}

/// Some member other than the moved one sits at this slot.
pub open spec fn slot_occupied(tags: Seq<SpecTag>, lib: SpecKey, slot: int, moved: int) -> bool {
    exists|i: int|
        0 <= i < tags.len() && (#[trigger] tags[i]).key == lib && tags[i].music_id != moved
            && eff_key(tags[i]) == slot
}

/// The first `n` slots on the `d` side of `b` are all occupied by members
/// other than the moved one.
pub open spec fn run_occupied(
    tags: Seq<SpecTag>,
    lib: SpecKey,
    b: int,
    d: int,
    moved: int,
    n: int,
) -> bool {
    forall|m: int| 1 <= m <= n ==> #[trigger] slot_occupied(tags, lib, b + m * d, moved)
}

/// Is `s` among the first `n` slots on the `d` side of `b`?
pub open spec fn slot_in_run(b: int, d: int, n: int, s: int) -> bool {
    exists|m: int| 1 <= m <= n && s == b + #[trigger] (m * d)
}

/// A slot whose whole run back to the base is occupied by other members:
/// the cascade pushes its occupant one slot further out.
pub open spec fn displaced_slot(
    tags: Seq<SpecTag>,
    lib: SpecKey,
    b: int,
    d: int,
    moved: int,
    s: int,
) -> bool {
    exists|n: int| 1 <= n && s == b + n * d && run_occupied(tags, lib, b, d, moved, n)
}

/// A bare ordering tag, as the cascade writes them.
pub open spec fn int_tag(mid: int, lib: SpecKey, v: int) -> SpecTag {
    SpecTag { music_id: mid, key: lib, text: None, integer: Some(v), date: None, vector: None }
}

/// One row of the table after the whole move.
pub open spec fn spec_move_one(
    tags: Seq<SpecTag>,
    lib: SpecKey,
    b: int,
    d: int,
    moved: int,
    i: int,
) -> SpecTag {
    if tags[i].music_id == moved && tags[i].key == lib {
        int_tag(moved, lib, b + d)
    } else if tags[i].key == lib && tags[i].music_id != moved && displaced_slot(
        tags,
        lib,
        b,
        d,
        moved,
        eff_key(tags[i]),
    ) {
        int_tag(tags[i].music_id, lib, eff_key(tags[i]) + d)
    } else {
        tags[i]
    }
}

/// The table after the move: the contiguous run beside the base is pushed
/// one slot outward, and the moved member lands right beside the base.
pub open spec fn spec_move_tags(
    tags: Seq<SpecTag>,
    lib: SpecKey,
    b: int,
    d: int,
    moved: int,
) -> Seq<SpecTag> {
    let mapped = Seq::new(tags.len(), |i: int| spec_move_one(tags, lib, b, d, moved, i));
    if tag_idx(tags, moved, lib) >= 0 {
        mapped
    } else {
        mapped.push(int_tag(moved, lib, b + d))
    }
}

/// The table while the cascade has displaced the first `n` slots.
spec fn spec_move_partial(
    tags: Seq<SpecTag>,
    lib: SpecKey,
    b: int,
    d: int,
    moved: int,
    n: int,
) -> Seq<SpecTag> {
    Seq::new(
        tags.len(),
        |i: int|
            if tags[i].key == lib && tags[i].music_id != moved && slot_in_run(
                b,
                d,
                n,
                eff_key(tags[i]),
            ) {
                int_tag(tags[i].music_id, lib, eff_key(tags[i]) + d)
            } else {
                tags[i]
            },
    )
}

/// The sortkeys of one library's members are pairwise distinct: the map
/// from sortkey to member is injective.
pub open spec fn lib_keys_distinct(tags: Seq<SpecTag>, lib: SpecKey) -> bool {
    forall|i: int, j: int|
        0 <= i < j < tags.len() && (#[trigger] tags[i]).key == lib && (#[trigger] tags[j]).key
            == lib ==> eff_key(tags[i]) != eff_key(tags[j])
}

/// Sortkeys stay off the extremes of the machine range, so a displaced
/// member's next slot still fits its column.
pub open spec fn lib_keys_in_range(tags: Seq<SpecTag>, lib: SpecKey) -> bool {
    forall|i: int|
        0 <= i < tags.len() && (#[trigger] tags[i]).key == lib ==> i32::MIN < eff_key(tags[i])
            < i32::MAX
}

/// Two different steps from the base land on two different slots.
proof fn lemma_run_slots_distinct(b: int, d: int, m1: int, m2: int)
    requires
        d == 1 || d == -1,
        m1 != m2,
    ensures
        b + m1 * d != b + m2 * d,
{
    assert(m1 * d != m2 * d) by (nonlinear_arith)
        requires
            d == 1 || d == -1,
            m1 != m2,
    ;
}

/// The sortkey of a tag row, as the snapshot map reads it.
fn eff_of(t: &Tag) -> (r: i64)
    ensures
        r == eff_key(t@),
{
    match t.integer {
        Some(v) => v as i64,
        None => 0,
    }
}

/// The member (other than the moved one) sitting at `slot` in the
/// snapshot, if that slot is taken.
fn occupant(snap: &Vec<Tag>, key: &TagKey, slot: i64, moved: MusicID) -> (r: Option<MusicID>)
    ensures
        match r {
            Some(m) => m.0 != moved.0 && exists|i: int|
                0 <= i < view_tag_seq(snap@).len() && (#[trigger] view_tag_seq(snap@)[i]).key
                    == key@ && view_tag_seq(snap@)[i].music_id == m.0 as int && eff_key(
                    view_tag_seq(snap@)[i],
                ) == slot,
            None => !slot_occupied(view_tag_seq(snap@), key@, slot as int, moved.0 as int),
        },
{
    let ghost s = view_tag_seq(snap@);
    let mut i: usize = 0;
    while i < snap.len()
        invariant
            0 <= i <= snap.len(),
            s == view_tag_seq(snap@),
            s.len() == snap@.len(),
            forall|j: int|
                0 <= j < i ==> !((#[trigger] s[j]).key == key@ && s[j].music_id != moved.0 as int
                    && eff_key(s[j]) == slot),
        decreases snap@.len() - i,
    {
        proof {
            assert(s[i as int] == snap@[i as int]@);
        }
        let t = &snap[i];
        if t.music_id != moved && t.key == *key && eff_of(t) == slot {
            return Some(t.music_id);
        }
        i = i + 1;
    }
    None
}

impl crate::entity::Music {
    /// The cascading move. Displaces the contiguous run of members beside
    /// the base one slot outward (reading occupancy from a snapshot taken
    /// once), then writes the moved member right beside the base. A base
    /// that is not a member makes the call a no-op that reports `false`.
    #[verifier::rlimit(100)]
    pub fn move_(
        c: &mut Store,
        library: &TagKey,
        id_base: MusicID,
        id_to_move: MusicID,
        direction: MoveDirection,
    ) -> (r: Result<bool, StoreError>)
        requires
            old(c)@.wf(),
            lib_keys_distinct(old(c)@.tags, library@),
            lib_keys_in_range(old(c)@.tags, library@),
        ensures
            final(c)@.wf(),
            ({
                let s = old(c)@.tags;
                let lib = library@;
                let bi = tag_idx(s, id_base.0 as int, lib);
                let d = spec_offset(direction);
                if bi < 0 || !(s[bi].integer is Some) {
                    r == Ok::<bool, StoreError>(false) && final(c)@ == old(c)@
                } else if !old(c)@.musics.contains(id_to_move.0 as int) {
                    r is Err && final(c)@ == old(c)@
                } else {
                    r == Ok::<bool, StoreError>(true) && final(c)@ == old(c)@.with_tags(
                        spec_move_tags(s, lib, eff_key(s[bi]), d, id_to_move.0 as int),
                    )
                }
            }),
    {
        let ghost s = c@.tags;
        let ghost lib = library@;
        let ghost moved = id_to_move.0 as int;

        let base_tag = match Tag::by_id_key(c, id_base, library) {
            Some(t) => t,
            None => {
                return Ok(false);
            },
        };
        let order_base = match base_tag.integer {
            Some(v) => v,
            None => {
                return Ok(false);
            },
        };
        let ghost bi = tag_idx(s, id_base.0 as int, lib);
        let ghost b = order_base as int;
        proof {
            lemma_tag_idx_bounds(s, id_base.0 as int, lib, 0);
            assert(0 <= bi < s.len() && s[bi].key == lib);
            assert(s[bi].integer == Some(b));
            assert(eff_key(s[bi]) == b);
        }

        if !c.has_music(id_to_move) {
            return Err(StoreError::ForeignKey);
        }

        let d = direction.offset();
        let snap = c.all_tags();
        let mut cur: i64 = order_base as i64 + d;
        let ghost mut n: int = 0;
        let ghost mut used: Set<int> = Set::empty();

        proof {
            assert(spec_move_partial(s, lib, b, d as int, moved, 0) =~= s);
            assert(lib_keys_in_range(s, lib));
            assert(i32::MIN < b < i32::MAX);
        }

        loop
            invariant
                s == old(c)@.tags,
                lib == library@,
                moved == id_to_move.0 as int,
                b == eff_key(s[bi]),
                bi == tag_idx(s, id_base.0 as int, lib),
                0 <= bi < s.len(),
                s[bi].key == lib,
                i32::MIN < b < i32::MAX,
                d == spec_offset(direction),
                d == 1 || d == -1,
                view_tag_seq(snap@) == s,
                old(c)@.wf(),
                lib_keys_distinct(s, lib),
                lib_keys_in_range(s, lib),
                old(c)@.musics.contains(moved),
                0 <= n <= s.len(),
                cur == b + (n + 1) * d,
                i64::MIN < cur < i64::MAX,
                used.finite(),
                used.len() == n,
                forall|i: int|
                    #[trigger] used.contains(i) ==> 0 <= i < s.len() && s[i].key == lib
                        && s[i].music_id != moved && slot_in_run(b, d as int, n, eff_key(s[i])),
                run_occupied(s, lib, b, d as int, moved, n),
                c@ == old(c)@.with_tags(spec_move_partial(s, lib, b, d as int, moved, n)),
                c@.wf(),
            ensures
                !slot_occupied(s, lib, b + (n + 1) * d, moved),
                c@ == old(c)@.with_tags(spec_move_partial(s, lib, b, d as int, moved, n)),
                run_occupied(s, lib, b, d as int, moved, n),
                c@.wf(),
                cur == b + (n + 1) * d,
            decreases s.len() - n,
        {
            let mid = match occupant(&snap, library, cur, id_to_move) {
                Some(m) => m,
                None => {
                    break ;
                },
            };
            let ghost w = choose|i: int|
                0 <= i < s.len() && (#[trigger] s[i]).key == lib && s[i].music_id == mid.0 as int
                    && eff_key(s[i]) == cur;
            proof {
                // this slot is fresh: its occupant was not displaced yet
                assert forall|m: int| 1 <= m <= n implies b + #[trigger] (m * d) != cur by {
                    lemma_run_slots_distinct(b, d as int, m, n + 1);
                }
                assert(!slot_in_run(b, d as int, n, eff_key(s[w])));
                assert(!used.contains(w));
                // the occupant's row is unchanged in the partial table
                let part = spec_move_partial(s, lib, b, d as int, moved, n);
                assert(part[w] == s[w]);
                lemma_tag_idx_of_unique(part, w);
                assert(i32::MIN < cur < i32::MAX);
            }
            let new_tag = Tag {
                music_id: mid,
                key: library.clone(),
                text: None,
                integer: Some((cur + d) as i32),
                date: None,
                vector: None,
            };
            proof {
                assert(new_tag@ == int_tag(mid.0 as int, lib, cur + d));
            }
            let ghost before = c@.tags;
            match Tag::insert_silent(c, new_tag) {
                Ok(_) => {
                },
                Err(e) => {
                    proof {
                        assert(c@.musics.contains(s[w].music_id));
                        assert(false);
                    }
                    return Err(e);
                },
            }
            proof {
                let part = spec_move_partial(s, lib, b, d as int, moved, n);
                let next = spec_move_partial(s, lib, b, d as int, moved, n + 1);
                assert(c@.tags == spec_upsert(part, int_tag(mid.0 as int, lib, cur + d)));
                assert(c@.tags == part.update(w, int_tag(mid.0 as int, lib, cur + d)));
                assert forall|i: int| 0 <= i < s.len() implies c@.tags[i] == next[i] by {
                    if i == w {
                        assert(slot_in_run(b, d as int, n + 1, cur as int));
                    } else if s[i].key == lib && s[i].music_id != moved {
                        if slot_in_run(b, d as int, n + 1, eff_key(s[i])) && !slot_in_run(
                            b,
                            d as int,
                            n,
                            eff_key(s[i]),
                        ) {
                            // only the current slot is new in the run, and
                            // its occupant is unique
                            let m = choose|m: int|
                                1 <= m <= n + 1 && eff_key(s[i]) == b + #[trigger] (m * d);
                            assert forall|mm: int| 1 <= mm <= n implies b + #[trigger] (mm * d)
                                != b + (n + 1) * d by {
                                lemma_run_slots_distinct(b, d as int, mm, n + 1);
                            }
                            assert(m == n + 1);
                            assert(eff_key(s[i]) == cur);
                            if i < w {
                                assert(eff_key(s[i]) != eff_key(s[w]));
                            } else {
                                assert(eff_key(s[w]) != eff_key(s[i]));
                            }
                            assert(false);
                        }
                    }
                }
                assert(c@.tags =~= next);
                // the new slot really was occupied in the snapshot
                assert(s[w].key == lib && s[w].music_id != moved && eff_key(s[w]) == b + (n + 1)
                    * d);
                assert forall|m: int|
                    1 <= m <= n + 1 implies #[trigger] slot_occupied(s, lib, b + m * d, moved) by {
                    if m <= n {
                    }
                }
                let prev_used = used;
                used = used.insert(w);
                n = n + 1;
                lemma_int_range(0, s.len() as int);
                assert forall|x: int| used.contains(x) implies vstd::set_lib::set_int_range(
                    0,
                    s.len() as int,
                ).contains(x) by {
                    if x != w {
                        assert(prev_used.contains(x));
                        assert(0 <= x < s.len());
                    }
                }
                assert(used.subset_of(vstd::set_lib::set_int_range(0, s.len() as int)));
                lemma_len_subset(used, vstd::set_lib::set_int_range(0, s.len() as int));
            }
            cur = cur + d;
        }

        // the run is over: write the moved member right beside the base
        let ghost part = spec_move_partial(s, lib, b, d as int, moved, n);
        let moved_tag = Tag {
            music_id: id_to_move,
            key: library.clone(),
            text: None,
            integer: Some((order_base as i64 + d) as i32),
            date: None,
            vector: None,
        };
        proof {
            assert(moved_tag@ == int_tag(moved, lib, b + d));
        }
        match Tag::insert_silent(c, moved_tag) {
            Ok(_) => {
            },
            Err(e) => {
                proof {
                    assert(false);
                }
                return Err(e);
            },
        }
        proof {
            let mi = tag_idx(s, moved, lib);
            lemma_tag_idx_bounds(s, moved, lib, 0);
            lemma_tag_idx_bounds(part, moved, lib, 0);
            // where the moved member's row sits in the partial table
            if mi >= 0 {
                assert(part[mi] == s[mi]);
                lemma_tag_idx_of_unique(part, mi);
                assert(tag_idx(part, moved, lib) == mi);
            } else {
                if tag_idx(part, moved, lib) >= 0 {
                    let j = tag_idx(part, moved, lib);
                    assert(part[j].music_id == moved && part[j].key == lib);
                    assert(!(s[j].music_id == moved && s[j].key == lib));
                    assert(false);
                }
            }
            let target = spec_move_tags(s, lib, b, d as int, moved);
            let mapped = Seq::new(
                s.len(),
                |i: int| spec_move_one(s, lib, b, d as int, moved, i),
            );
            // a slot is displaced exactly when it lies in the finished run
            assert forall|i: int|
                0 <= i < s.len() && s[i].key == lib && s[i].music_id != moved implies (
            displaced_slot(s, lib, b, d as int, moved, eff_key(s[i])) <==> slot_in_run(
                b,
                d as int,
                n,
                eff_key(s[i]),
            )) by {
                if displaced_slot(s, lib, b, d as int, moved, eff_key(s[i])) {
                    let nn = choose|nn: int|
                        1 <= nn && eff_key(s[i]) == b + nn * d && run_occupied(
                            s,
                            lib,
                            b,
                            d as int,
                            moved,
                            nn,
                        );
                    if nn > n {
                        assert(slot_occupied(s, lib, b + (n + 1) * d, moved));
                        assert(false);
                    }
                }
                if slot_in_run(b, d as int, n, eff_key(s[i])) {
                    let m = choose|m: int| 1 <= m <= n && eff_key(s[i]) == b + #[trigger] (m * d);
                    assert(run_occupied(s, lib, b, d as int, moved, m));
                }
            }
            if mi >= 0 {
                assert(c@.tags == part.update(mi, int_tag(moved, lib, b + d)));
                assert forall|i: int| 0 <= i < s.len() implies c@.tags[i] == mapped[i] by {
                    if i == mi {
                    } else if s[i].music_id == moved && s[i].key == lib {
                        assert(i == mi);
                    }
                }
                assert(c@.tags =~= target);
            } else {
                assert(c@.tags == part.push(int_tag(moved, lib, b + d)));
                assert forall|i: int| 0 <= i < s.len() implies part[i] == mapped[i] by {
                    if s[i].music_id == moved && s[i].key == lib {
                        assert(tag_idx(s, moved, lib) != -1);
                    }
                }
                assert(part =~= mapped);
                assert(c@.tags =~= target);
            }
        }
        Ok(true)
    }
}

} // verus!

verus! {

/// A step away from the base is a different slot than the base itself.
proof fn lemma_step_leaves_base(b: int, d: int, n: int)
    requires
        d == 1 || d == -1,
        n >= 1,
    ensures
        b + n * d != b,
{
    assert(n * d != 0) by (nonlinear_arith)
        requires
            d == 1 || d == -1,
            n >= 1,
    ;
}

/// Law: a move keeps the member sortkeys of the library pairwise
/// distinct. Starting from an injective sortkey map, any sequence of moves
/// therefore keeps it injective.
pub proof fn lemma_move_keeps_sortkeys_distinct(
    tags: Seq<SpecTag>,
    lib: SpecKey,
    b: int,
    d: int,
    moved: int,
)
    requires
        forall|i: int, j: int|
            0 <= i < j < tags.len() ==> !(tags[i].music_id == tags[j].music_id && tags[i].key
                == tags[j].key),
        lib_keys_distinct(tags, lib),
        d == 1 || d == -1,
    ensures
        lib_keys_distinct(spec_move_tags(tags, lib, b, d, moved), lib),
{
    let out = spec_move_tags(tags, lib, b, d, moved);
    let mapped = Seq::new(tags.len(), |i: int| spec_move_one(tags, lib, b, d, moved, i));
    lemma_tag_idx_bounds(tags, moved, lib, 0);
    assert forall|x: int, y: int|
        0 <= x < y < out.len() && (#[trigger] out[x]).key == lib && (#[trigger] out[y]).key
            == lib implies eff_key(out[x]) != eff_key(out[y]) by {
        lemma_move_entry_effs(tags, lib, b, d, moved, x);
        lemma_move_entry_effs(tags, lib, b, d, moved, y);
        if eff_key(out[x]) == eff_key(out[y]) {
            let ex = eff_key(out[x]);
            // classify both entries and refute each pairing
            if out[x].music_id == moved && out[y].music_id == moved {
                // two rows for the moved member cannot both exist
                if x < tags.len() && y < tags.len() {
                    assert(!(tags[x].music_id == tags[y].music_id && tags[x].key == tags[y].key));
                    assert(false);
                } else {
                    // y is the pushed row, so no original row matched
                    assert(y == tags.len());
                    assert(tag_idx(tags, moved, lib) == -1);
                    assert(x < tags.len());
                    assert(tags[x].music_id == moved && tags[x].key == lib);
                    assert(false);
                }
            } else if out[x].music_id == moved || out[y].music_id == moved {
                // one is the moved member at b + d, the other is not
                let o = if out[x].music_id == moved {
                    y
                } else {
                    x
                };
                assert(o < tags.len());
                assert(ex == b + d);
                if displaced_slot(tags, lib, b, d, moved, eff_key(tags[o])) {
                    // displaced: lands at b + n*d + d for some n >= 1
                    let nn = choose|nn: int|
                        1 <= nn && eff_key(tags[o]) == b + #[trigger] (nn * d) && run_occupied(
                            tags,
                            lib,
                            b,
                            d,
                            moved,
                            nn,
                        );
                    assert(eff_key(out[o]) == b + nn * d + d);
                    assert(b + nn * d + d == b + d);
                    lemma_step_leaves_base(b, d, nn);
                    assert(false);
                } else {
                    // untouched member sitting at b + d would have been
                    // displaced as the first slot of the run
                    assert(eff_key(tags[o]) == b + 1 * d);
                    assert(slot_occupied(tags, lib, b + 1 * d, moved));
                    assert(run_occupied(tags, lib, b, d, moved, 1));
                    assert(displaced_slot(tags, lib, b, d, moved, eff_key(tags[o])));
                    assert(false);
                }
            } else {
                // two ordinary members
                assert(x < tags.len() && y < tags.len());
                let dx = displaced_slot(tags, lib, b, d, moved, eff_key(tags[x]));
                let dy = displaced_slot(tags, lib, b, d, moved, eff_key(tags[y]));
                if dx && dy {
                    assert(eff_key(tags[x]) == eff_key(tags[y]));
                    assert(false);
                } else if dx {
                    // a displaced member landing on an untouched one means
                    // the untouched one was in the run after all
                    let nn = choose|nn: int|
                        1 <= nn && eff_key(tags[x]) == b + #[trigger] (nn * d) && run_occupied(
                            tags,
                            lib,
                            b,
                            d,
                            moved,
                            nn,
                        );
                    assert(eff_key(tags[y]) == b + nn * d + d);
                    assert(eff_key(tags[y]) == b + (nn + 1) * d) by (nonlinear_arith)
                        requires
                            eff_key(tags[y]) == b + nn * d + d,
                    ;
                    assert(slot_occupied(tags, lib, b + (nn + 1) * d, moved));
                    assert forall|m: int|
                        1 <= m <= nn + 1 implies #[trigger] slot_occupied(
                        tags,
                        lib,
                        b + m * d,
                        moved,
                    ) by {
                        if m <= nn {
                        }
                    }
                    assert(run_occupied(tags, lib, b, d, moved, nn + 1));
                    assert(displaced_slot(tags, lib, b, d, moved, eff_key(tags[y])));
                    assert(false);
                } else if dy {
                    let nn = choose|nn: int|
                        1 <= nn && eff_key(tags[y]) == b + #[trigger] (nn * d) && run_occupied(
                            tags,
                            lib,
                            b,
                            d,
                            moved,
                            nn,
                        );
                    assert(eff_key(tags[x]) == b + nn * d + d);
                    assert(eff_key(tags[x]) == b + (nn + 1) * d) by (nonlinear_arith)
                        requires
                            eff_key(tags[x]) == b + nn * d + d,
                    ;
                    assert(slot_occupied(tags, lib, b + (nn + 1) * d, moved));
                    assert forall|m: int|
                        1 <= m <= nn + 1 implies #[trigger] slot_occupied(
                        tags,
                        lib,
                        b + m * d,
                        moved,
                    ) by {
                        if m <= nn {
                        }
                    }
                    assert(run_occupied(tags, lib, b, d, moved, nn + 1));
                    assert(displaced_slot(tags, lib, b, d, moved, eff_key(tags[x])));
                    assert(false);
                } else {
                    assert(eff_key(tags[x]) == eff_key(tags[y]));
                    assert(false);
                }
            }
        }
    }
}

/// What each row of the moved table holds: the moved member beside the
/// base, displaced members one slot out, everything else untouched.
proof fn lemma_move_entry_effs(tags: Seq<SpecTag>, lib: SpecKey, b: int, d: int, moved: int, x: int)
    requires
        0 <= x < spec_move_tags(tags, lib, b, d, moved).len(),
    ensures
        ({
            let out = spec_move_tags(tags, lib, b, d, moved);
            &&& (x >= tags.len() ==> out[x] == int_tag(moved, lib, b + d) && tag_idx(
                tags,
                moved,
                lib,
            ) == -1)
            &&& (x < tags.len() ==> out[x] == spec_move_one(tags, lib, b, d, moved, x))
            &&& out.len() == (if tag_idx(tags, moved, lib) >= 0 {
                tags.len() as int
            } else {
                tags.len() as int + 1
            })
        }),
{
    let out = spec_move_tags(tags, lib, b, d, moved);
    let mapped = Seq::new(tags.len(), |i: int| spec_move_one(tags, lib, b, d, moved, i));
    lemma_tag_idx_bounds(tags, moved, lib, 0);
    if tag_idx(tags, moved, lib) >= 0 {
        assert(out == mapped);
    } else {
        assert(out == mapped.push(int_tag(moved, lib, b + d)));
    }
}

} // verus!

verus! {

/// A move never changes which `(music_id, key)` pairs the table holds,
/// beyond adding the moved member's ownership row when it was absent; in
/// particular one row per pair survives it.
pub proof fn lemma_move_keeps_unique_pairs(
    tags: Seq<SpecTag>,
    lib: SpecKey,
    b: int,
    d: int,
    moved: int,
)
    requires
        forall|i: int, j: int|
            0 <= i < j < tags.len() ==> !(tags[i].music_id == tags[j].music_id && tags[i].key
                == tags[j].key),
    ensures
        forall|i: int, j: int|
            0 <= i < j < spec_move_tags(tags, lib, b, d, moved).len() ==> !(spec_move_tags(
                tags,
                lib,
                b,
                d,
                moved,
            )[i].music_id == spec_move_tags(tags, lib, b, d, moved)[j].music_id && spec_move_tags(
                tags,
                lib,
                b,
                d,
                moved,
            )[i].key == spec_move_tags(tags, lib, b, d, moved)[j].key),
{
    let out = spec_move_tags(tags, lib, b, d, moved);
    let mapped = Seq::new(tags.len(), |i: int| spec_move_one(tags, lib, b, d, moved, i));
    lemma_tag_idx_bounds(tags, moved, lib, 0);
    assert forall|i: int|
        0 <= i < tags.len() implies (#[trigger] mapped[i]).music_id == tags[i].music_id
        && mapped[i].key == tags[i].key by {
    }
    assert forall|x: int, y: int| 0 <= x < y < out.len() implies !(out[x].music_id
        == out[y].music_id && out[x].key == out[y].key) by {
        lemma_move_entry_effs(tags, lib, b, d, moved, x);
        lemma_move_entry_effs(tags, lib, b, d, moved, y);
        if y >= tags.len() {
            // y is the pushed ownership row; no table row matched it
            if out[x].music_id == moved && out[x].key == lib {
                assert(tags[x].music_id == moved && tags[x].key == lib);
                assert(false);
            }
        }
    }
}

/// One move of a fold over a whole call sequence: a base that is not a
/// member leaves the table alone, anything else runs the cascade.
pub open spec fn spec_move_step(
    tags: Seq<SpecTag>,
    lib: SpecKey,
    base: int,
    moved: int,
    d: int,
) -> Seq<SpecTag> {
    let bi = tag_idx(tags, base, lib);
    if bi < 0 || !(tags[bi].integer is Some) {
        tags
    } else {
        spec_move_tags(tags, lib, eff_key(tags[bi]), d, moved)
    }
}

/// The table after a whole sequence of moves on one library, each given
/// as `(base, moved, direction)`.
pub open spec fn spec_apply_moves(
    tags: Seq<SpecTag>,
    lib: SpecKey,
    ms: Seq<(int, int, int)>,
) -> Seq<SpecTag>
    decreases ms.len(),
{
    if ms.len() == 0 {
        tags
    } else {
        let prev = spec_apply_moves(tags, lib, ms.drop_last());
        spec_move_step(prev, lib, ms.last().0, ms.last().1, ms.last().2)
    }
}

/// Law: after any sequence of moves on a library, the member sortkeys
/// are still pairwise distinct, and the table still holds one row per
/// `(music_id, key)`.
pub proof fn lemma_move_sequence_keeps_sortkeys_distinct(
    tags: Seq<SpecTag>,
    lib: SpecKey,
    ms: Seq<(int, int, int)>,
)
    requires
        forall|i: int, j: int|
            0 <= i < j < tags.len() ==> !(tags[i].music_id == tags[j].music_id && tags[i].key
                == tags[j].key),
        lib_keys_distinct(tags, lib),
        forall|i: int| 0 <= i < ms.len() ==> (#[trigger] ms[i]).2 == 1 || ms[i].2 == -1,
    ensures
        lib_keys_distinct(spec_apply_moves(tags, lib, ms), lib),
        forall|i: int, j: int|
            0 <= i < j < spec_apply_moves(tags, lib, ms).len() ==> !(spec_apply_moves(
                tags,
                lib,
                ms,
            )[i].music_id == spec_apply_moves(tags, lib, ms)[j].music_id && spec_apply_moves(
                tags,
                lib,
                ms,
            )[i].key == spec_apply_moves(tags, lib, ms)[j].key),
    decreases ms.len(),
{
    if ms.len() > 0 {
        lemma_move_sequence_keeps_sortkeys_distinct(tags, lib, ms.drop_last());
        let prev = spec_apply_moves(tags, lib, ms.drop_last());
        let step = ms.last();
        assert(step == ms[ms.len() - 1]);
        let bi = tag_idx(prev, step.0, lib);
        if !(bi < 0 || !(prev[bi].integer is Some)) {
            lemma_move_keeps_sortkeys_distinct(prev, lib, eff_key(prev[bi]), step.2, step.1);
            lemma_move_keeps_unique_pairs(prev, lib, eff_key(prev[bi]), step.2, step.1);
        }
    }
}

} // verus!
