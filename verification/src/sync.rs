//! The synchronization engine: keyed tag maps, snapshot diffing into patch
//! sets, the broadcaster's change detection, and the proofs that a
//! subscriber reconstructing from patches converges to the store state.

use vstd::prelude::*;

use crate::entity::{
    MusicID, MusidexMetadata, Patch, SpecKey, SpecMeta, SpecPatch, SpecTag, Tag, TagKey, User,
};
use crate::store::{
    lemma_tag_idx_at, lemma_tag_idx_bounds, lemma_tag_idx_of_unique, lemma_upsert_keeps_unique,
    spec_remove_tag, spec_upsert, tag_idx, tag_idx_from,
};

verus! {

/// One row per `(music_id, key)`.
pub open spec fn tags_unique(ts: Seq<SpecTag>) -> bool {
    forall|i: int, j: int|
        0 <= i < j < ts.len() ==> !(ts[i].music_id == ts[j].music_id && ts[i].key == ts[j].key)
}

/// The value a keyed map holds for `(mid, k)`.
pub open spec fn spec_lookup(ts: Seq<SpecTag>, mid: int, k: SpecKey) -> Option<SpecTag> {
    let i = tag_idx(ts, mid, k);
    if i >= 0 {
        Some(ts[i])
    } else {
        None
    }
}

/// Two keyed maps agree on every pair.
pub open spec fn tagmap_equiv(a: Seq<SpecTag>, b: Seq<SpecTag>) -> bool {
    forall|mid: int, k: SpecKey| #[trigger] spec_lookup(a, mid, k) == spec_lookup(b, mid, k)
}

/// Folding a tag list into a keyed map: a later row for the same pair
/// replaces an earlier one.
pub open spec fn spec_tag_map_of(ts: Seq<SpecTag>) -> Seq<SpecTag>
    decreases ts.len(),
{
    if ts.len() == 0 {
        Seq::empty()
    } else {
        spec_upsert(spec_tag_map_of(ts.drop_last()), ts.last())
    }
}

/// The map built from a list that already has one row per pair is the
/// list itself.
pub proof fn lemma_tag_map_of_unique(ts: Seq<SpecTag>)
    requires
        tags_unique(ts),
    ensures
        spec_tag_map_of(ts) == ts,
    decreases ts.len(),
{
    if ts.len() > 0 {
        let d = ts.drop_last();
        lemma_tag_map_of_unique(d);
        let t = ts.last();
        lemma_tag_idx_bounds(d, t.music_id, t.key, 0);
        if tag_idx(d, t.music_id, t.key) >= 0 {
            let w = tag_idx(d, t.music_id, t.key);
            assert(ts[w] == d[w]);
            assert(!(ts[w].music_id == ts[ts.len() - 1].music_id && ts[w].key == ts[ts.len()
                - 1].key));
            assert(false);
        }
        assert(spec_tag_map_of(ts) == d.push(t));
        assert(d.push(t) =~= ts);
    }
}

/// The map build keeps the one-row-per-pair shape.
pub proof fn lemma_tag_map_of_wf(ts: Seq<SpecTag>)
    ensures
        tags_unique(spec_tag_map_of(ts)),
    decreases ts.len(),
{
    if ts.len() > 0 {
        lemma_tag_map_of_wf(ts.drop_last());
        lemma_upsert_keeps_unique(spec_tag_map_of(ts.drop_last()), ts.last());
    }
}

/// Rows at other positions do not change which index matches a pair.
proof fn lemma_tag_idx_update_other(ts: Seq<SpecTag>, w: int, t: SpecTag, mid: int, k: SpecKey, i: int)
    requires
        0 <= w < ts.len(),
        !(ts[w].music_id == mid && ts[w].key == k),
        !(t.music_id == mid && t.key == k),
        0 <= i <= ts.len(),
    ensures
        tag_idx_from(ts.update(w, t), mid, k, i) == tag_idx_from(ts, mid, k, i),
    decreases ts.len() - i,
{
    if i < ts.len() {
        lemma_tag_idx_update_other(ts, w, t, mid, k, i + 1);
    }
}

/// A pushed row is only found for its own pair, and only when the pair
/// was absent before.
proof fn lemma_tag_idx_push(ts: Seq<SpecTag>, t: SpecTag, mid: int, k: SpecKey, i: int)
    requires
        0 <= i <= ts.len(),
    ensures
        tag_idx_from(ts.push(t), mid, k, i) == (if tag_idx_from(ts, mid, k, i) >= 0 {
            tag_idx_from(ts, mid, k, i)
        } else if t.music_id == mid && t.key == k {
            ts.len() as int
        } else {
            -1
        }),
    decreases ts.len() - i,
{
    if i < ts.len() {
        lemma_tag_idx_push(ts, t, mid, k, i + 1);
    } else {
        assert(ts.push(t)[i] == t);
        if t.music_id == mid && t.key == k {
            assert(tag_idx_from(ts.push(t), mid, k, i) == i);
        } else {
            assert(tag_idx_from(ts.push(t), mid, k, i) == tag_idx_from(ts.push(t), mid, k, i + 1));
            assert(tag_idx_from(ts.push(t), mid, k, i + 1) == -1);
        }
    }
}

/// What an upsert does to every lookup: the written pair now holds the
/// new row, every other pair is untouched.
pub proof fn lemma_lookup_upsert(ts: Seq<SpecTag>, t: SpecTag, mid: int, k: SpecKey)
    requires
        tags_unique(ts),
    ensures
        spec_lookup(spec_upsert(ts, t), mid, k) == (if t.music_id == mid && t.key == k {
            Some(t)
        } else {
            spec_lookup(ts, mid, k)
        }),
{
    let w = tag_idx(ts, t.music_id, t.key);
    lemma_tag_idx_bounds(ts, t.music_id, t.key, 0);
    lemma_upsert_keeps_unique(ts, t);
    let out = spec_upsert(ts, t);
    if t.music_id == mid && t.key == k {
        if w >= 0 {
            assert(out == ts.update(w, t));
            lemma_tag_idx_of_unique(out, w);
        } else {
            assert(out == ts.push(t));
            lemma_tag_idx_of_unique(out, ts.len() as int);
        }
    } else {
        if w >= 0 {
            lemma_tag_idx_update_other(ts, w, t, mid, k, 0);
            lemma_tag_idx_bounds(ts, mid, k, 0);
            let idx = tag_idx(ts, mid, k);
            if idx >= 0 {
                assert(ts[w].music_id == t.music_id && ts[w].key == t.key);
                assert(idx != w);
                assert(out[idx] == ts[idx]);
            }
        } else {
            lemma_tag_idx_push(ts, t, mid, k, 0);
            lemma_tag_idx_bounds(ts, mid, k, 0);
            if tag_idx(ts, mid, k) >= 0 {
                assert(out[tag_idx(ts, mid, k)] == ts[tag_idx(ts, mid, k)]);
            }
        }
    }
}

/// Removing rows at other positions does not change which index matches.
proof fn lemma_tag_idx_remove_other(ts: Seq<SpecTag>, w: int, mid: int, k: SpecKey)
    requires
        0 <= w < ts.len(),
        !(ts[w].music_id == mid && ts[w].key == k),
    ensures
        (tag_idx(ts.remove(w), mid, k) >= 0) == (tag_idx(ts, mid, k) >= 0),
        tag_idx(ts.remove(w), mid, k) >= 0 ==> ts.remove(w)[tag_idx(ts.remove(w), mid, k)]
            == ts[tag_idx(ts, mid, k)],
{
    let out = ts.remove(w);
    lemma_tag_idx_bounds(ts, mid, k, 0);
    lemma_tag_idx_bounds(out, mid, k, 0);
    if tag_idx(ts, mid, k) >= 0 {
        let j = tag_idx(ts, mid, k);
        let j2 = if j < w {
            j
        } else {
            j - 1
        };
        assert(out[j2] == ts[j]);
        if tag_idx(out, mid, k) == -1 {
            assert(!(out[j2].music_id == mid && out[j2].key == k));
        }
    } else {
        if tag_idx(out, mid, k) >= 0 {
            let j2 = tag_idx(out, mid, k);
            let j = if j2 < w {
                j2
            } else {
                j2 + 1
            };
            assert(out[j2] == ts[j]);
            assert(!(ts[j].music_id == mid && ts[j].key == k));
            assert(false);
        }
    }
    if tag_idx(ts, mid, k) >= 0 && tag_idx(out, mid, k) >= 0 {
        let j = tag_idx(ts, mid, k);
        let j2 = tag_idx(out, mid, k);
        let back = if j2 < w {
            j2
        } else {
            j2 + 1
        };
        assert(out[j2] == ts[back]);
        assert(ts[back].music_id == mid && ts[back].key == k);
        if back != j {
            if back < j {
                assert(!(ts[back].music_id == ts[j].music_id && ts[back].key == ts[j].key));
            } else {
                assert(!(ts[j].music_id == ts[back].music_id && ts[j].key == ts[back].key));
            }
        }
    }
}

/// What a keyed removal does to every lookup.
pub proof fn lemma_lookup_remove(ts: Seq<SpecTag>, rmid: int, rk: SpecKey, mid: int, k: SpecKey)
    requires
        tags_unique(ts),
    ensures
        spec_lookup(spec_remove_tag(ts, rmid, rk), mid, k) == (if rmid == mid && rk == k {
            None
        } else {
            spec_lookup(ts, mid, k)
        }),
{
    let w = tag_idx(ts, rmid, rk);
    lemma_tag_idx_bounds(ts, rmid, rk, 0);
    if w >= 0 {
        let out = ts.remove(w);
        if rmid == mid && rk == k {
            lemma_tag_idx_bounds(out, mid, k, 0);
            if tag_idx(out, mid, k) >= 0 {
                let j2 = tag_idx(out, mid, k);
                let j = if j2 < w {
                    j2
                } else {
                    j2 + 1
                };
                assert(out[j2] == ts[j]);
                assert(j != w);
                if j < w {
                    assert(!(ts[j].music_id == ts[w].music_id && ts[j].key == ts[w].key));
                } else {
                    assert(!(ts[w].music_id == ts[j].music_id && ts[w].key == ts[j].key));
                }
                assert(false);
            }
        } else {
            assert(!(ts[w].music_id == mid && ts[w].key == k));
            lemma_tag_idx_remove_other(ts, w, mid, k);
        }
    } else {
        if rmid == mid && rk == k {
            lemma_tag_idx_bounds(ts, mid, k, 0);
        }
    }
}

/// Removal keeps the one-row-per-pair shape.
pub proof fn lemma_remove_keeps_unique(ts: Seq<SpecTag>, rmid: int, rk: SpecKey)
    requires
        tags_unique(ts),
    ensures
        tags_unique(spec_remove_tag(ts, rmid, rk)),
{
    let w = tag_idx(ts, rmid, rk);
    lemma_tag_idx_bounds(ts, rmid, rk, 0);
    if w >= 0 {
        let out = ts.remove(w);
        assert forall|i: int, j: int| 0 <= i < j < out.len() implies !(out[i].music_id
            == out[j].music_id && out[i].key == out[j].key) by {
            let oi = if i < w {
                i
            } else {
                i + 1
            };
            let oj = if j < w {
                j
            } else {
                j + 1
            };
            assert(out[i] == ts[oi]);
            assert(out[j] == ts[oj]);
        }
    }
}

} // verus!

verus! {

/// The key-only tag a removal patch carries.
pub open spec fn spec_key_only(t: SpecTag) -> SpecTag {
    SpecTag {
        music_id: t.music_id,
        key: t.key,
        text: None,
        integer: None,
        date: None,
        vector: None,
    }
}

/// One patch applied to a subscriber's keyed map: `remove` deletes the
/// pair's row, `add` and `update` both upsert the carried tag.
pub open spec fn spec_apply_patch(ts: Seq<SpecTag>, p: SpecPatch) -> Seq<SpecTag> {
    if p.kind == "remove"@ {
        spec_remove_tag(ts, p.tag.music_id, p.tag.key)
    } else {
        spec_upsert(ts, p.tag)
    }
}

/// A whole patch set applied in order.
pub open spec fn spec_apply_patches(ts: Seq<SpecTag>, ps: Seq<SpecPatch>) -> Seq<SpecTag>
    decreases ps.len(),
{
    if ps.len() == 0 {
        ts
    } else {
        spec_apply_patch(spec_apply_patches(ts, ps.drop_last()), ps.last())
    }
}

/// The removal patches a diff emits: one per pair of the old map that the
/// new map no longer has.
pub open spec fn spec_removes(last: Seq<SpecTag>, newm: Seq<SpecTag>) -> Seq<SpecPatch> {
    last.filter(|t: SpecTag| tag_idx(newm, t.music_id, t.key) == -1).map_values(
        |t: SpecTag| SpecPatch { kind: "remove"@, tag: spec_key_only(t) },
    )
}

/// The add/update patches a diff emits: one per row of the new map that
/// the old map does not hold unchanged.
pub open spec fn spec_changes(last: Seq<SpecTag>, newm: Seq<SpecTag>) -> Seq<SpecPatch> {
    newm.filter(|t: SpecTag| spec_lookup(last, t.music_id, t.key) != Some(t)).map_values(
        |t: SpecTag|
            SpecPatch {
                kind: if tag_idx(last, t.music_id, t.key) >= 0 {
                    "update"@
                } else {
                    "add"@
                },
                tag: t,
            },
    )
}

/// Applying any patch set keeps the one-row-per-pair shape.
pub proof fn lemma_apply_patches_unique(ts: Seq<SpecTag>, ps: Seq<SpecPatch>)
    requires
        tags_unique(ts),
    ensures
        tags_unique(spec_apply_patches(ts, ps)),
    decreases ps.len(),
{
    if ps.len() > 0 {
        lemma_apply_patches_unique(ts, ps.drop_last());
        let prev = spec_apply_patches(ts, ps.drop_last());
        let p = ps.last();
        if p.kind == "remove"@ {
            lemma_remove_keeps_unique(prev, p.tag.music_id, p.tag.key);
        } else {
            lemma_upsert_keeps_unique(prev, p.tag);
        }
    }
}

/// What one more patch does to every lookup.
proof fn lemma_lookup_apply_patch(ts: Seq<SpecTag>, p: SpecPatch, mid: int, k: SpecKey)
    requires
        tags_unique(ts),
    ensures
        spec_lookup(spec_apply_patch(ts, p), mid, k) == (if p.tag.music_id == mid && p.tag.key
            == k {
            if p.kind == "remove"@ {
                None
            } else {
                Some(p.tag)
            }
        } else {
            spec_lookup(ts, mid, k)
        }),
{
    if p.kind == "remove"@ {
        lemma_lookup_remove(ts, p.tag.music_id, p.tag.key, mid, k);
    } else {
        lemma_lookup_upsert(ts, p.tag, mid, k);
    }
}

/// Law (full snapshots): the keyed map a fresh subscriber builds from a
/// full snapshot holds exactly the snapshot's rows.
pub proof fn lemma_full_snapshot_rebuilds(ts: Seq<SpecTag>)
    requires
        tags_unique(ts),
    ensures
        spec_tag_map_of(ts) == ts,
        tagmap_equiv(spec_tag_map_of(ts), ts),
{
    lemma_tag_map_of_unique(ts);
}

/// Effect of the removal patches: stale pairs are gone, everything else
/// keeps its row.
proof fn lemma_removes_effect(base: Seq<SpecTag>, scan: Seq<SpecTag>, newm: Seq<SpecTag>)
    requires
        tags_unique(base),
    ensures
        tags_unique(spec_apply_patches(base, spec_removes(scan, newm))),
        forall|mid: int, k: SpecKey|
            #[trigger] spec_lookup(spec_apply_patches(base, spec_removes(scan, newm)), mid, k)
                == (if tag_idx(scan, mid, k) >= 0 && tag_idx(newm, mid, k) == -1 {
                None
            } else {
                spec_lookup(base, mid, k)
            }),
    decreases scan.len(),
{
    reveal(Seq::filter);
    lemma_apply_patches_unique(base, spec_removes(scan, newm));
    if scan.len() == 0 {
        assert(spec_removes(scan, newm).len() == 0);
    } else {
        let d = scan.drop_last();
        let t = scan.last();
        lemma_removes_effect(base, d, newm);
        let rpred = |x: SpecTag| tag_idx(newm, x.music_id, x.key) == -1;
        let to_patch = |x: SpecTag| SpecPatch { kind: "remove"@, tag: spec_key_only(x) };
        let prev = spec_apply_patches(base, spec_removes(d, newm));
        lemma_apply_patches_unique(base, spec_removes(d, newm));
        if rpred(t) {
            assert(scan.filter(rpred) == d.filter(rpred).push(t));
            assert(spec_removes(scan, newm) =~= spec_removes(d, newm).push(to_patch(t)));
            assert(spec_removes(scan, newm).drop_last() =~= spec_removes(d, newm));
            assert(spec_apply_patches(base, spec_removes(scan, newm)) == spec_apply_patch(
                prev,
                to_patch(t),
            ));
            assert forall|mid: int, k: SpecKey|
                #[trigger] spec_lookup(spec_apply_patches(base, spec_removes(scan, newm)), mid, k)
                    == (if tag_idx(scan, mid, k) >= 0 && tag_idx(newm, mid, k) == -1 {
                    None
                } else {
                    spec_lookup(base, mid, k)
                }) by {
                lemma_lookup_apply_patch(prev, to_patch(t), mid, k);
                lemma_tag_idx_push(d, t, mid, k, 0);
                lemma_tag_idx_bounds(d, mid, k, 0);
                lemma_tag_idx_bounds(scan, mid, k, 0);
                assert(scan =~= d.push(t));
            }
        } else {
            assert(scan.filter(rpred) == d.filter(rpred));
            assert(spec_removes(scan, newm) =~= spec_removes(d, newm));
            assert forall|mid: int, k: SpecKey|
                #[trigger] spec_lookup(spec_apply_patches(base, spec_removes(scan, newm)), mid, k)
                    == (if tag_idx(scan, mid, k) >= 0 && tag_idx(newm, mid, k) == -1 {
                    None
                } else {
                    spec_lookup(base, mid, k)
                }) by {
                lemma_tag_idx_push(d, t, mid, k, 0);
                lemma_tag_idx_bounds(d, mid, k, 0);
                lemma_tag_idx_bounds(scan, mid, k, 0);
                assert(scan =~= d.push(t));
            }
        }
    }
}

/// Effect of the add/update patches: every differing row of the new map
/// is written, everything else keeps its row.
proof fn lemma_changes_effect(base: Seq<SpecTag>, scan: Seq<SpecTag>, last: Seq<SpecTag>)
    requires
        tags_unique(base),
        tags_unique(scan),
    ensures
        tags_unique(spec_apply_patches(base, spec_changes(last, scan))),
        forall|mid: int, k: SpecKey|
            #[trigger] spec_lookup(spec_apply_patches(base, spec_changes(last, scan)), mid, k)
                == (if tag_idx(scan, mid, k) >= 0 && spec_lookup(last, mid, k) != Some(
                scan[tag_idx(scan, mid, k)],
            ) {
                Some(scan[tag_idx(scan, mid, k)])
            } else {
                spec_lookup(base, mid, k)
            }),
    decreases scan.len(),
{
    reveal(Seq::filter);
    lemma_apply_patches_unique(base, spec_changes(last, scan));
    if scan.len() == 0 {
        assert(spec_changes(last, scan).len() == 0);
    } else {
        let d = scan.drop_last();
        let t = scan.last();
        lemma_changes_effect(base, d, last);
        let cpred = |x: SpecTag| spec_lookup(last, x.music_id, x.key) != Some(x);
        let to_patch = |x: SpecTag|
            SpecPatch {
                kind: if tag_idx(last, x.music_id, x.key) >= 0 {
                    "update"@
                } else {
                    "add"@
                },
                tag: x,
            };
        let prev = spec_apply_patches(base, spec_changes(last, d));
        lemma_apply_patches_unique(base, spec_changes(last, d));
        reveal_strlit("remove");
        reveal_strlit("update");
        reveal_strlit("add");
        assert("remove"@.len() == 6);
        assert("update"@.len() == 6);
        assert("add"@.len() == 3);
        assert("remove"@[0] == 'r');
        assert("update"@[0] == 'u');
        assert(to_patch(t).kind != "remove"@);
        assert forall|mid: int, k: SpecKey| #[trigger] tag_idx(scan, mid, k) >= 0 implies (
        tag_idx(d, mid, k) >= 0 && scan[tag_idx(scan, mid, k)] == d[tag_idx(d, mid, k)]) || (
        t.music_id == mid && t.key == k && scan[tag_idx(scan, mid, k)] == t) by {
            lemma_tag_idx_push(d, t, mid, k, 0);
            lemma_tag_idx_bounds(d, mid, k, 0);
            assert(scan =~= d.push(t));
        }
        if cpred(t) {
            assert(scan.filter(cpred) == d.filter(cpred).push(t));
            assert(spec_changes(last, scan) =~= spec_changes(last, d).push(to_patch(t)));
            assert(spec_changes(last, scan).drop_last() =~= spec_changes(last, d));
            assert(spec_apply_patches(base, spec_changes(last, scan)) == spec_apply_patch(
                prev,
                to_patch(t),
            ));
            assert forall|mid: int, k: SpecKey|
                #[trigger] spec_lookup(spec_apply_patches(base, spec_changes(last, scan)), mid, k)
                    == (if tag_idx(scan, mid, k) >= 0 && spec_lookup(last, mid, k) != Some(
                    scan[tag_idx(scan, mid, k)],
                ) {
                    Some(scan[tag_idx(scan, mid, k)])
                } else {
                    spec_lookup(base, mid, k)
                }) by {
                lemma_lookup_apply_patch(prev, to_patch(t), mid, k);
                lemma_tag_idx_push(d, t, mid, k, 0);
                lemma_tag_idx_bounds(d, mid, k, 0);
                lemma_tag_idx_bounds(scan, mid, k, 0);
                assert(scan =~= d.push(t));
                if t.music_id == mid && t.key == k {
                    lemma_tag_idx_of_unique(scan, scan.len() - 1);
                }
            }
        } else {
            assert(scan.filter(cpred) == d.filter(cpred));
            assert(spec_changes(last, scan) =~= spec_changes(last, d));
            assert forall|mid: int, k: SpecKey|
                #[trigger] spec_lookup(spec_apply_patches(base, spec_changes(last, scan)), mid, k)
                    == (if tag_idx(scan, mid, k) >= 0 && spec_lookup(last, mid, k) != Some(
                    scan[tag_idx(scan, mid, k)],
                ) {
                    Some(scan[tag_idx(scan, mid, k)])
                } else {
                    spec_lookup(base, mid, k)
                }) by {
                lemma_tag_idx_push(d, t, mid, k, 0);
                lemma_tag_idx_bounds(d, mid, k, 0);
                lemma_tag_idx_bounds(scan, mid, k, 0);
                assert(scan =~= d.push(t));
                if t.music_id == mid && t.key == k {
                    lemma_tag_idx_of_unique(scan, scan.len() - 1);
                }
            }
        }
    }
}

/// Patch sets concatenate by applying one after the other.
proof fn lemma_apply_patches_concat(ts: Seq<SpecTag>, a: Seq<SpecPatch>, b: Seq<SpecPatch>)
    ensures
        spec_apply_patches(ts, a + b) == spec_apply_patches(spec_apply_patches(ts, a), b),
    decreases b.len(),
{
    if b.len() == 0 {
        assert(a + b =~= a);
    } else {
        lemma_apply_patches_concat(ts, a, b.drop_last());
        assert((a + b).drop_last() =~= a + b.drop_last());
        assert((a + b).last() == b.last());
    }
}

/// Law (patch sets): a subscriber holding the previously published state
/// (pair for pair) and applying the diff between that snapshot and the
/// next rebuilds the next one, pair for pair.
pub proof fn lemma_patch_set_rebuilds(cl: Seq<SpecTag>, last: Seq<SpecTag>, newm: Seq<SpecTag>)
    requires
        tags_unique(cl),
        tags_unique(last),
        tags_unique(newm),
        tagmap_equiv(cl, last),
    ensures
        tagmap_equiv(
            spec_apply_patches(cl, spec_removes(last, newm) + spec_changes(last, newm)),
            newm,
        ),
        tags_unique(spec_apply_patches(cl, spec_removes(last, newm) + spec_changes(last, newm))),
{
    let removed = spec_apply_patches(cl, spec_removes(last, newm));
    lemma_removes_effect(cl, last, newm);
    lemma_changes_effect(removed, newm, last);
    lemma_apply_patches_concat(cl, spec_removes(last, newm), spec_changes(last, newm));
    let fin = spec_apply_patches(cl, spec_removes(last, newm) + spec_changes(last, newm));
    lemma_apply_patches_unique(cl, spec_removes(last, newm) + spec_changes(last, newm));
    assert forall|mid: int, k: SpecKey|
        #[trigger] spec_lookup(fin, mid, k) == spec_lookup(newm, mid, k) by {
        lemma_tag_idx_bounds(newm, mid, k, 0);
        lemma_tag_idx_bounds(last, mid, k, 0);
        assert(spec_lookup(cl, mid, k) == spec_lookup(last, mid, k));
        assert(spec_lookup(removed, mid, k) == (if tag_idx(last, mid, k) >= 0 && tag_idx(
            newm,
            mid,
            k,
        ) == -1 {
            None
        } else {
            spec_lookup(cl, mid, k)
        }));
    }
}

/// The keyed map a subscriber holds after the first full snapshot and
/// every following patch set, applied in order.
pub open spec fn spec_replay(snaps: Seq<Seq<SpecTag>>) -> Seq<SpecTag>
    decreases snaps.len(),
{
    if snaps.len() == 0 {
        Seq::empty()
    } else if snaps.len() == 1 {
        spec_tag_map_of(snaps[0])
    } else {
        let prev = snaps[snaps.len() - 2];
        let cur = snaps.last();
        spec_apply_patches(
            spec_replay(snaps.drop_last()),
            spec_removes(prev, cur) + spec_changes(prev, cur),
        )
    }
}

/// Law (broadcast convergence): across any finite run of snapshots, a
/// subscriber that got the first as a full snapshot and every later one
/// as a patch set ends up holding exactly the last snapshot's rows.
pub proof fn lemma_broadcast_convergence(snaps: Seq<Seq<SpecTag>>)
    requires
        snaps.len() >= 1,
        forall|i: int| 0 <= i < snaps.len() ==> tags_unique(#[trigger] snaps[i]),
    ensures
        tags_unique(spec_replay(snaps)),
        tagmap_equiv(spec_replay(snaps), snaps.last()),
    decreases snaps.len(),
{
    if snaps.len() == 1 {
        lemma_full_snapshot_rebuilds(snaps[0]);
    } else {
        let d = snaps.drop_last();
        lemma_broadcast_convergence(d);
        assert(d.last() == snaps[snaps.len() - 2]);
        lemma_patch_set_rebuilds(spec_replay(d), snaps[snaps.len() - 2], snaps.last());
    }
}

} // verus!

verus! {

use crate::entity::{
    view_music_seq, view_patch_seq, view_setting_seq, view_tag_seq, view_user_seq, SpecUser,
};
use crate::store::Store;
use crate::strutil::str_eq;
use vstd::string::StringExecFns;

/// Position of the row for `(mid, key)` in a keyed tag list.
fn find_in(v: &Vec<Tag>, mid: MusicID, key: &TagKey) -> (r: Option<usize>)
    ensures
        match r {
            Some(i) => {
                &&& 0 <= i < view_tag_seq(v@).len()
                &&& tag_idx(view_tag_seq(v@), mid.0 as int, key@) == i
            },
            None => tag_idx(view_tag_seq(v@), mid.0 as int, key@) == -1,
        },
{
    let ghost ts = view_tag_seq(v@);
    let mut i: usize = 0;
    while i < v.len()
        invariant
            0 <= i <= v.len(),
            ts == view_tag_seq(v@),
            ts.len() == v@.len(),
            forall|j: int|
                0 <= j < i ==> !((#[trigger] ts[j]).music_id == mid.0 as int && ts[j].key
                    == key@),
        decreases v@.len() - i,
    {
        proof {
            assert(ts[i as int] == v@[i as int]@);
        }
        let t = &v[i];
        if t.music_id == mid && t.key == *key {
            proof {
                lemma_tag_idx_at(ts, mid.0 as int, key@, 0, i as int);
            }
            return Some(i);
        }
        i = i + 1;
    }
    proof {
        lemma_tag_idx_bounds(ts, mid.0 as int, key@, 0);
        if tag_idx(ts, mid.0 as int, key@) != -1 {
            let j = tag_idx(ts, mid.0 as int, key@);
            assert(!(ts[j].music_id == mid.0 as int && ts[j].key == key@));
        }
    }
    None
}

/// The tag rows a metadata carries, or none.
pub open spec fn spec_meta_tags(m: SpecMeta) -> Seq<SpecTag> {
    match m.tags {
        Some(ts) => ts,
        None => Seq::empty(),
    }
}

/// Builds the keyed map of a snapshot: one row per `(music_id, key)`,
/// later rows replacing earlier ones.
pub fn mk_tag_map(x: &MusidexMetadata) -> (r: Vec<Tag>)
    ensures
        view_tag_seq(r@) == spec_tag_map_of(spec_meta_tags(x@)),
        tags_unique(view_tag_seq(r@)),
{
    proof {
        lemma_tag_map_of_wf(spec_meta_tags(x@));
    }
    match &x.tags {
        None => {
            let r: Vec<Tag> = Vec::new();
            proof {
                assert(view_tag_seq(r@) =~= Seq::<SpecTag>::empty());
                assert(spec_tag_map_of(spec_meta_tags(x@)) =~= Seq::<SpecTag>::empty());
            }
            r
        },
        Some(ts) => {
            let ghost tsv = view_tag_seq(ts@);
            proof {
                assert(tsv == spec_meta_tags(x@));
            }
            let mut r: Vec<Tag> = Vec::new();
            let mut i: usize = 0;
            proof {
                assert(view_tag_seq(r@) =~= Seq::<SpecTag>::empty());
                assert(tsv.subrange(0, 0) =~= Seq::<SpecTag>::empty());
            }
            while i < ts.len()
                invariant
                    0 <= i <= ts.len(),
                    tsv == view_tag_seq(ts@),
                    tsv.len() == ts@.len(),
                    view_tag_seq(r@) == spec_tag_map_of(tsv.subrange(0, i as int)),
                    tags_unique(view_tag_seq(r@)),
                decreases ts@.len() - i,
            {
                proof {
                    assert(tsv[i as int] == ts@[i as int]@);
                    assert(tsv.subrange(0, i + 1).drop_last() =~= tsv.subrange(0, i as int));
                    assert(tsv.subrange(0, i + 1).last() == tsv[i as int]);
                }
                let t = &ts[i];
                let ghost before = view_tag_seq(r@);
                match find_in(&r, t.music_id, &t.key) {
                    Some(w) => {
                        proof {
                            lemma_tag_idx_bounds(before, t@.music_id, t@.key, 0);
                        }
                        r[w] = t.clone();
                        proof {
                            assert(view_tag_seq(r@) =~= before.update(w as int, tsv[i as int]));
                        }
                    },
                    None => {
                        r.push(t.clone());
                        proof {
                            assert(view_tag_seq(r@) =~= before.push(tsv[i as int]));
                        }
                    },
                }
                proof {
                    assert(view_tag_seq(r@) == spec_upsert(before, tsv[i as int]));
                    lemma_upsert_keeps_unique(before, tsv[i as int]);
                }
                i = i + 1;
            }
            proof {
                assert(tsv.subrange(0, tsv.len() as int) =~= tsv);
            }
            r
        },
    }
}

fn clone_music_vec(v: &Vec<MusicID>) -> (r: Vec<MusicID>)
    ensures
        view_music_seq(r@) == view_music_seq(v@),
{
    let mut r: Vec<MusicID> = Vec::new();
    let mut i: usize = 0;
    while i < v.len()
        invariant
            0 <= i <= v.len(),
            view_music_seq(r@) == view_music_seq(v@).subrange(0, i as int),
        decreases v@.len() - i,
    {
        proof {
            assert(view_music_seq(v@)[i as int] == v@[i as int].0 as int);
        }
        let ghost before = view_music_seq(r@);
        r.push(v[i]);
        proof {
            assert(view_music_seq(r@) =~= before.push(view_music_seq(v@)[i as int]));
            assert(view_music_seq(v@).subrange(0, i + 1) =~= view_music_seq(v@).subrange(
                0,
                i as int,
            ).push(view_music_seq(v@)[i as int]));
        }
        i = i + 1;
    }
    proof {
        assert(view_music_seq(v@).subrange(0, view_music_seq(v@).len() as int) =~= view_music_seq(
            v@,
        ));
    }
    r
}

fn clone_user_vec(v: &Vec<User>) -> (r: Vec<User>)
    ensures
        view_user_seq(r@) == view_user_seq(v@),
{
    let mut r: Vec<User> = Vec::new();
    let mut i: usize = 0;
    while i < v.len()
        invariant
            0 <= i <= v.len(),
            view_user_seq(r@) == view_user_seq(v@).subrange(0, i as int),
        decreases v@.len() - i,
    {
        proof {
            assert(view_user_seq(v@)[i as int] == v@[i as int]@);
        }
        let ghost before = view_user_seq(r@);
        r.push(v[i].clone());
        proof {
            assert(view_user_seq(r@) =~= before.push(view_user_seq(v@)[i as int]));
            assert(view_user_seq(v@).subrange(0, i + 1) =~= view_user_seq(v@).subrange(
                0,
                i as int,
            ).push(view_user_seq(v@)[i as int]));
        }
        i = i + 1;
    }
    proof {
        assert(view_user_seq(v@).subrange(0, view_user_seq(v@).len() as int) =~= view_user_seq(
            v@,
        ));
    }
    r
}

fn clone_setting_vec(v: &Vec<(String, String)>) -> (r: Vec<(String, String)>)
    ensures
        view_setting_seq(r@) == view_setting_seq(v@),
{
    let mut r: Vec<(String, String)> = Vec::new();
    let mut i: usize = 0;
    while i < v.len()
        invariant
            0 <= i <= v.len(),
            view_setting_seq(r@) == view_setting_seq(v@).subrange(0, i as int),
        decreases v@.len() - i,
    {
        proof {
            assert(view_setting_seq(v@)[i as int] == (v@[i as int].0@, v@[i as int].1@));
        }
        let ghost before = view_setting_seq(r@);
        let p = &v[i];
        r.push((p.0.clone(), p.1.clone()));
        proof {
            assert(view_setting_seq(r@) =~= before.push(view_setting_seq(v@)[i as int]));
            assert(view_setting_seq(v@).subrange(0, i + 1) =~= view_setting_seq(v@).subrange(
                0,
                i as int,
            ).push(view_setting_seq(v@)[i as int]));
        }
        i = i + 1;
    }
    proof {
        assert(view_setting_seq(v@).subrange(0, view_setting_seq(v@).len() as int)
            =~= view_setting_seq(v@));
    }
    r
}

/// Computes the new keyed map and, when an old map is there to diff
/// against, the patch envelope that carries a subscriber from the old
/// snapshot to the new one.
pub fn mk_patches(last_map: &Option<Vec<Tag>>, new: &MusidexMetadata) -> (r: (
    Vec<Tag>,
    Option<MusidexMetadata>,
))
    ensures
        view_tag_seq(r.0@) == spec_tag_map_of(spec_meta_tags(new@)),
        tags_unique(view_tag_seq(r.0@)),
        match *last_map {
            None => r.1 is None,
            Some(lm) => match r.1 {
                Some(p) => {
                    &&& p@.musics == new@.musics
                    &&& p@.tags is None
                    &&& p@.users == new@.users
                    &&& p@.settings == new@.settings
                    &&& p@.patches == Some(
                        spec_removes(view_tag_seq(lm@), spec_tag_map_of(spec_meta_tags(new@)))
                            + spec_changes(
                            view_tag_seq(lm@),
                            spec_tag_map_of(spec_meta_tags(new@)),
                        ),
                    )
                },
                None => false,
            },
        },
{
    let newmap = mk_tag_map(new);
    let ghost nv = view_tag_seq(newmap@);
    match last_map {
        None => (newmap, None),
        Some(lm) => {
            let ghost lv = view_tag_seq(lm@);
            let mut patches: Vec<Patch> = Vec::new();
            let ghost rpred = |t: SpecTag| tag_idx(nv, t.music_id, t.key) == -1;
            let mut i: usize = 0;
            proof {
                reveal(Seq::filter);
                assert(lv.subrange(0, 0) =~= Seq::<SpecTag>::empty());
                assert(view_patch_seq(patches@) =~= Seq::<SpecPatch>::empty());
                assert(spec_removes(lv.subrange(0, 0), nv) =~= Seq::<SpecPatch>::empty());
            }
            while i < lm.len()
                invariant
                    0 <= i <= lm.len(),
                    lv == view_tag_seq(lm@),
                    lv.len() == lm@.len(),
                    nv == view_tag_seq(newmap@),
                    rpred == (|t: SpecTag| tag_idx(nv, t.music_id, t.key) == -1),
                    view_patch_seq(patches@) == spec_removes(lv.subrange(0, i as int), nv),
                decreases lm@.len() - i,
            {
                let ghost pre = lv.subrange(0, i as int);
                let ghost cur = lv.subrange(0, i + 1);
                proof {
                    reveal(Seq::filter);
                    assert(cur.drop_last() =~= pre);
                    assert(cur.last() == lv[i as int]);
                    assert(lv[i as int] == lm@[i as int]@);
                }
                let t = &lm[i];
                match find_in(&newmap, t.music_id, &t.key) {
                    Some(_) => {
                        proof {
                            assert(!rpred(lv[i as int]));
                            assert(cur.filter(rpred) == pre.filter(rpred));
                            assert(spec_removes(cur, nv) =~= spec_removes(pre, nv));
                        }
                    },
                    None => {
                        let ghost before = view_patch_seq(patches@);
                        patches.push(
                            Patch {
                                kind: String::from_str("remove"),
                                tag: Tag::new_key(t.music_id, t.key.clone()),
                            },
                        );
                        proof {
                            assert(rpred(lv[i as int]));
                            assert(cur.filter(rpred) == pre.filter(rpred).push(lv[i as int]));
                            assert(view_patch_seq(patches@) =~= before.push(
                                SpecPatch { kind: "remove"@, tag: spec_key_only(lv[i as int]) },
                            ));
                            assert(spec_removes(cur, nv) =~= spec_removes(pre, nv).push(
                                SpecPatch { kind: "remove"@, tag: spec_key_only(lv[i as int]) },
                            ));
                        }
                    },
                }
                i = i + 1;
            }
            proof {
                assert(lv.subrange(0, lv.len() as int) =~= lv);
            }

            let ghost cpred = |t: SpecTag| spec_lookup(lv, t.music_id, t.key) != Some(t);
            let ghost removes_all = spec_removes(lv, nv);
            let mut j: usize = 0;
            proof {
                reveal(Seq::filter);
                assert(nv.subrange(0, 0) =~= Seq::<SpecTag>::empty());
                assert(spec_changes(lv, nv.subrange(0, 0)) =~= Seq::<SpecPatch>::empty());
            }
            while j < newmap.len()
                invariant
                    0 <= j <= newmap.len(),
                    lv == view_tag_seq(lm@),
                    nv == view_tag_seq(newmap@),
                    nv.len() == newmap@.len(),
                    cpred == (|t: SpecTag| spec_lookup(lv, t.music_id, t.key) != Some(t)),
                    removes_all == spec_removes(lv, nv),
                    view_patch_seq(patches@) == removes_all + spec_changes(
                        lv,
                        nv.subrange(0, j as int),
                    ),
                decreases newmap@.len() - j,
            {
                let ghost pre = nv.subrange(0, j as int);
                let ghost cur = nv.subrange(0, j + 1);
                proof {
                    reveal(Seq::filter);
                    assert(cur.drop_last() =~= pre);
                    assert(cur.last() == nv[j as int]);
                    assert(nv[j as int] == newmap@[j as int]@);
                }
                let t = &newmap[j];
                let in_last = find_in(lm, t.music_id, &t.key);
                let unchanged = match in_last {
                    Some(w) => lm[w] == *t,
                    None => false,
                };
                proof {
                    lemma_tag_idx_bounds(lv, nv[j as int].music_id, nv[j as int].key, 0);
                    if in_last is Some {
                        assert(lm@[in_last->0 as int]@ == lv[tag_idx(
                            lv,
                            nv[j as int].music_id,
                            nv[j as int].key,
                        )]);
                    }
                }
                if unchanged {
                    proof {
                        assert(!cpred(nv[j as int]));
                        assert(cur.filter(cpred) == pre.filter(cpred));
                        assert(spec_changes(lv, cur) =~= spec_changes(lv, pre));
                        assert(view_patch_seq(patches@) == removes_all + spec_changes(lv, cur));
                    }
                } else {
                    let kind = match in_last {
                        Some(_) => String::from_str("update"),
                        None => String::from_str("add"),
                    };
                    let ghost before = view_patch_seq(patches@);
                    let ghost newpatch = SpecPatch {
                        kind: if tag_idx(lv, nv[j as int].music_id, nv[j as int].key) >= 0 {
                            "update"@
                        } else {
                            "add"@
                        },
                        tag: nv[j as int],
                    };
                    patches.push(Patch { kind, tag: t.clone() });
                    proof {
                        assert(cpred(nv[j as int]));
                        assert(cur.filter(cpred) == pre.filter(cpred).push(nv[j as int]));
                        assert(view_patch_seq(patches@) =~= before.push(newpatch));
                        assert(spec_changes(lv, cur) =~= spec_changes(lv, pre).push(newpatch));
                        assert(view_patch_seq(patches@) =~= removes_all + spec_changes(lv, cur));
                    }
                }
                j = j + 1;
            }
            proof {
                assert(nv.subrange(0, nv.len() as int) =~= nv);
            }

            let envelope = MusidexMetadata {
                musics: clone_music_vec(&new.musics),
                tags: None,
                users: clone_user_vec(&new.users),
                settings: clone_setting_vec(&new.settings),
                patches: Some(patches),
            };
            (newmap, Some(envelope))
        },
    }
}

} // verus!

verus! {

use crate::strutil::{lemma_lex_total, lemma_lex_trans, lex_leq, str_le};

/// Stable insertion sort of users by name, in code-point order.
fn sort_users_by_name(v: Vec<User>) -> (r: Vec<User>)
    ensures
        view_user_seq(r@).to_multiset() == view_user_seq(v@).to_multiset(),
        forall|x: int, y: int|
            0 <= x < y < r@.len() ==> lex_leq(
                view_user_seq(r@)[x].name,
                view_user_seq(r@)[y].name,
            ),
{
    let ghost mv = view_user_seq(v@);
    let mut r: Vec<User> = Vec::new();
    let mut i: usize = 0;
    proof {
        broadcast use vstd::seq_lib::group_to_multiset_ensures;

        assert(view_user_seq(r@) =~= Seq::<SpecUser>::empty());
        assert(mv.subrange(0, 0) =~= Seq::<SpecUser>::empty());
        assert(Seq::<SpecUser>::empty().to_multiset() =~= view_user_seq(r@).to_multiset());
    }
    while i < v.len()
        invariant
            0 <= i <= v.len(),
            mv == view_user_seq(v@),
            mv.len() == v.len(),
            view_user_seq(r@).to_multiset() == mv.subrange(0, i as int).to_multiset(),
            forall|x: int, y: int|
                0 <= x < y < r@.len() ==> lex_leq(
                    view_user_seq(r@)[x].name,
                    view_user_seq(r@)[y].name,
                ),
        decreases v@.len() - i,
    {
        proof {
            assert(mv[i as int] == v@[i as int]@);
        }
        let t = v[i].clone();
        let ghost tv = mv[i as int];
        let mut p: usize = 0;
        while p < r.len() && str_le(r[p].name.as_str(), t.name.as_str())
            invariant
                0 <= p <= r.len(),
                tv.name == t@.name,
                forall|x: int| 0 <= x < p ==> lex_leq(view_user_seq(r@)[x].name, tv.name),
            decreases r@.len() - p,
        {
            proof {
                assert(view_user_seq(r@)[p as int] == r@[p as int]@);
            }
            p = p + 1;
        }
        proof {
            if p < r@.len() {
                assert(view_user_seq(r@)[p as int] == r@[p as int]@);
                assert(!lex_leq(view_user_seq(r@)[p as int].name, tv.name));
                lemma_lex_total(view_user_seq(r@)[p as int].name, tv.name);
                assert(lex_leq(tv.name, view_user_seq(r@)[p as int].name));
            }
        }
        let ghost old_rv = view_user_seq(r@);
        r.insert(p, t);
        proof {
            broadcast use vstd::seq_lib::group_to_multiset_ensures;
            broadcast use vstd::seq_lib::to_multiset_insert;

            assert(view_user_seq(r@) =~= old_rv.insert(p as int, tv));
            assert(mv.subrange(0, i + 1).drop_last() =~= mv.subrange(0, i as int));
            assert(mv.subrange(0, i + 1) =~= mv.subrange(0, i as int).push(mv[i as int]));
            let new_rv = view_user_seq(r@);
            assert forall|x: int, y: int| 0 <= x < y < new_rv.len() implies lex_leq(
                new_rv[x].name,
                new_rv[y].name,
            ) by {
                if x < p && y == p {
                } else if x == p && y > p {
                    assert(new_rv[y] == old_rv[y - 1]);
                    if p < old_rv.len() {
                        assert(lex_leq(tv.name, old_rv[p as int].name));
                        if p == y - 1 {
                        } else {
                            assert(lex_leq(old_rv[p as int].name, old_rv[y - 1].name));
                            lemma_lex_trans(tv.name, old_rv[p as int].name, old_rv[y - 1].name);
                        }
                    }
                } else if x < p && y > p {
                    assert(new_rv[x] == old_rv[x]);
                    assert(new_rv[y] == old_rv[y - 1]);
                    if x == y - 1 {
                        assert(lex_leq(old_rv[x].name, tv.name));
                        assert(false);
                    }
                } else if x > p && y > p {
                    assert(new_rv[x] == old_rv[x - 1]);
                    assert(new_rv[y] == old_rv[y - 1]);
                } else if x < p && y < p {
                    assert(new_rv[x] == old_rv[x]);
                    assert(new_rv[y] == old_rv[y]);
                }
            }
        }
        i = i + 1;
    }
    proof {
        assert(mv.subrange(0, mv.len() as int) =~= mv);
    }
    r
}

/// The full current snapshot: every music, every tag, the users sorted by
/// name, and the settings.
pub fn fetch_metadata(c: &Store) -> (r: MusidexMetadata)
    ensures
        r@.musics == c@.musics,
        r@.tags == Some(c@.tags),
        r@.settings == c@.settings,
        r@.patches is None,
        view_user_seq(r.users@).to_multiset() == c@.users.to_multiset(),
        forall|x: int, y: int|
            0 <= x < y < r@.users.len() ==> lex_leq(r@.users[x].name, r@.users[y].name),
{
    let musics = c.all_musics();
    let tags = c.all_tags();
    let users = sort_users_by_name(crate::entity::User::list(c));
    let settings = c.all_settings();
    MusidexMetadata { musics, tags: Some(tags), users, settings, patches: None }
}

} // verus!

verus! {

fn music_vec_eq(a: &Vec<MusicID>, b: &Vec<MusicID>) -> (r: bool)
    ensures
        r == (view_music_seq(a@) == view_music_seq(b@)),
{
    if a.len() != b.len() {
        proof {
            assert(view_music_seq(a@).len() != view_music_seq(b@).len());
        }
        return false;
    }
    let mut i: usize = 0;
    while i < a.len()
        invariant
            0 <= i <= a.len(),
            a@.len() == b@.len(),
            forall|j: int| 0 <= j < i ==> view_music_seq(a@)[j] == view_music_seq(b@)[j],
        decreases a@.len() - i,
    {
        proof {
            assert(view_music_seq(a@)[i as int] == a@[i as int].0 as int);
            assert(view_music_seq(b@)[i as int] == b@[i as int].0 as int);
        }
        if a[i] != b[i] {
            return false;
        }
        i = i + 1;
    }
    proof {
        assert(view_music_seq(a@) =~= view_music_seq(b@));
    }
    true
}

fn tag_vec_eq(a: &Vec<Tag>, b: &Vec<Tag>) -> (r: bool)
    ensures
        r == (view_tag_seq(a@) == view_tag_seq(b@)),
{
    if a.len() != b.len() {
        proof {
            assert(view_tag_seq(a@).len() != view_tag_seq(b@).len());
        }
        return false;
    }
    let mut i: usize = 0;
    while i < a.len()
        invariant
            0 <= i <= a.len(),
            a@.len() == b@.len(),
            forall|j: int| 0 <= j < i ==> view_tag_seq(a@)[j] == view_tag_seq(b@)[j],
        decreases a@.len() - i,
    {
        proof {
            assert(view_tag_seq(a@)[i as int] == a@[i as int]@);
            assert(view_tag_seq(b@)[i as int] == b@[i as int]@);
        }
        if !(a[i] == b[i]) {
            return false;
        }
        i = i + 1;
    }
    proof {
        assert(view_tag_seq(a@) =~= view_tag_seq(b@));
    }
    true
}

fn user_vec_eq(a: &Vec<User>, b: &Vec<User>) -> (r: bool)
    ensures
        r == (view_user_seq(a@) == view_user_seq(b@)),
{
    if a.len() != b.len() {
        proof {
            assert(view_user_seq(a@).len() != view_user_seq(b@).len());
        }
        return false;
    }
    let mut i: usize = 0;
    while i < a.len()
        invariant
            0 <= i <= a.len(),
            a@.len() == b@.len(),
            forall|j: int| 0 <= j < i ==> view_user_seq(a@)[j] == view_user_seq(b@)[j],
        decreases a@.len() - i,
    {
        proof {
            assert(view_user_seq(a@)[i as int] == a@[i as int]@);
            assert(view_user_seq(b@)[i as int] == b@[i as int]@);
        }
        if !(a[i] == b[i]) {
            return false;
        }
        i = i + 1;
    }
    proof {
        assert(view_user_seq(a@) =~= view_user_seq(b@));
    }
    true
}

fn setting_vec_eq(a: &Vec<(String, String)>, b: &Vec<(String, String)>) -> (r: bool)
    ensures
        r == (view_setting_seq(a@) == view_setting_seq(b@)),
{
    if a.len() != b.len() {
        proof {
            assert(view_setting_seq(a@).len() != view_setting_seq(b@).len());
        }
        return false;
    }
    let mut i: usize = 0;
    while i < a.len()
        invariant
            0 <= i <= a.len(),
            a@.len() == b@.len(),
            forall|j: int| 0 <= j < i ==> view_setting_seq(a@)[j] == view_setting_seq(b@)[j],
        decreases a@.len() - i,
    {
        proof {
            assert(view_setting_seq(a@)[i as int] == (a@[i as int].0@, a@[i as int].1@));
            assert(view_setting_seq(b@)[i as int] == (b@[i as int].0@, b@[i as int].1@));
        }
        let x = &a[i];
        let y = &b[i];
        if !(x.0 == y.0 && x.1 == y.1) {
            return false;
        }
        i = i + 1;
    }
    proof {
        assert(view_setting_seq(a@) =~= view_setting_seq(b@));
    }
    true
}

fn patch_vec_eq(a: &Vec<Patch>, b: &Vec<Patch>) -> (r: bool)
    ensures
        r == (view_patch_seq(a@) == view_patch_seq(b@)),
{
    if a.len() != b.len() {
        proof {
            assert(view_patch_seq(a@).len() != view_patch_seq(b@).len());
        }
        return false;
    }
    let mut i: usize = 0;
    while i < a.len()
        invariant
            0 <= i <= a.len(),
            a@.len() == b@.len(),
            forall|j: int| 0 <= j < i ==> view_patch_seq(a@)[j] == view_patch_seq(b@)[j],
        decreases a@.len() - i,
    {
        proof {
            assert(view_patch_seq(a@)[i as int] == a@[i as int]@);
            assert(view_patch_seq(b@)[i as int] == b@[i as int]@);
        }
        if !(a[i] == b[i]) {
            return false;
        }
        i = i + 1;
    }
    proof {
        assert(view_patch_seq(a@) =~= view_patch_seq(b@));
    }
    true
}

/// Compares two metadata values field for field.
pub fn meta_same(a: &MusidexMetadata, b: &MusidexMetadata) -> (r: bool)
    ensures
        r == (a@ == b@),
{
    let tags_eq = match (&a.tags, &b.tags) {
        (Some(x), Some(y)) => tag_vec_eq(x, y),
        (None, None) => true,
        _ => false,
    };
    let patches_eq = match (&a.patches, &b.patches) {
        (Some(x), Some(y)) => patch_vec_eq(x, y),
        (None, None) => true,
        _ => false,
    };
    music_vec_eq(&a.musics, &b.musics) && tags_eq && user_vec_eq(&a.users, &b.users)
        && setting_vec_eq(&a.settings, &b.settings) && patches_eq
}

/// Mathematical value of the broadcaster's private state.
pub struct SpecBroadcast {
    pub last_map: Option<Seq<SpecTag>>,
    pub last_meta: Option<SpecMeta>,
}

/// The broadcaster: remembers what it last published, skips unchanged
/// cycles, and turns each change into a full snapshot plus a patch set.
pub struct SyncBroadcast {
    last_map: Option<Vec<Tag>>,
    last_meta: Option<MusidexMetadata>,
}

impl View for SyncBroadcast {
    type V = SpecBroadcast;

    closed spec fn view(&self) -> SpecBroadcast {
        SpecBroadcast {
            last_map: match &self.last_map {
                Some(m) => Some(view_tag_seq(m@)),
                None => None,
            },
            last_meta: match &self.last_meta {
                Some(m) => Some(m@),
                None => None,
            },
        }
    }
}

impl SyncBroadcast {
    /// A broadcaster that has not published anything yet.
    pub fn new() -> (s: SyncBroadcast)
        ensures
            s@.last_map is None,
            s@.last_meta is None,
    {
        SyncBroadcast { last_map: None, last_meta: None }
    }

    /// One cycle: compare the fresh snapshot against the last published
    /// one; when nothing changed publish nothing, otherwise hand out the
    /// full snapshot and, when an earlier snapshot was published, the
    /// patch set that carries a subscriber from there to here.
    pub fn step(&mut self, current: MusidexMetadata) -> (r: Option<
        (MusidexMetadata, Option<MusidexMetadata>),
    >)
        ensures
            ({
                if old(self)@.last_meta == Some(current@) {
                    r is None && final(self)@ == old(self)@
                } else {
                    &&& final(self)@.last_map == Some(spec_tag_map_of(spec_meta_tags(current@)))
                    &&& final(self)@.last_meta == Some(current@)
                    &&& match r {
                        Some(pair) => {
                            &&& pair.0@ == current@
                            &&& (match old(self)@.last_map {
                                None => pair.1 is None,
                                Some(lm) => match pair.1 {
                                    Some(p) => {
                                        &&& p@.musics == current@.musics
                                        &&& p@.tags is None
                                        &&& p@.users == current@.users
                                        &&& p@.settings == current@.settings
                                        &&& p@.patches == Some(
                                            spec_removes(
                                                lm,
                                                spec_tag_map_of(spec_meta_tags(current@)),
                                            ) + spec_changes(
                                                lm,
                                                spec_tag_map_of(spec_meta_tags(current@)),
                                            ),
                                        )
                                    },
                                    None => false,
                                },
                            })
                        },
                        None => false,
                    }
                }
            }),
    {
        match &self.last_meta {
            Some(m) => {
                if meta_same(m, &current) {
                    return None;
                }
            },
            None => {
            },
        }
        let (newmap, envelope) = mk_patches(&self.last_map, &current);
        self.last_map = Some(newmap);
        let kept = MusidexMetadata {
            musics: clone_music_vec(&current.musics),
            tags: match &current.tags {
                Some(ts) => Some(clone_tag_vec(ts)),
                None => None,
            },
            users: clone_user_vec(&current.users),
            settings: clone_setting_vec(&current.settings),
            patches: match &current.patches {
                Some(ps) => Some(clone_patch_vec(ps)),
                None => None,
            },
        };
        proof {
            assert(kept@ == current@);
        }
        self.last_meta = Some(kept);
        Some((current, envelope))
    }
}

fn clone_tag_vec(v: &Vec<Tag>) -> (r: Vec<Tag>)
    ensures
        view_tag_seq(r@) == view_tag_seq(v@),
{
    let mut r: Vec<Tag> = Vec::new();
    let mut i: usize = 0;
    while i < v.len()
        invariant
            0 <= i <= v.len(),
            view_tag_seq(r@) == view_tag_seq(v@).subrange(0, i as int),
        decreases v@.len() - i,
    {
        proof {
            assert(view_tag_seq(v@)[i as int] == v@[i as int]@);
        }
        let ghost before = view_tag_seq(r@);
        r.push(v[i].clone());
        proof {
            assert(view_tag_seq(r@) =~= before.push(view_tag_seq(v@)[i as int]));
            assert(view_tag_seq(v@).subrange(0, i + 1) =~= view_tag_seq(v@).subrange(
                0,
                i as int,
            ).push(view_tag_seq(v@)[i as int]));
        }
        i = i + 1;
    }
    proof {
        assert(view_tag_seq(v@).subrange(0, view_tag_seq(v@).len() as int) =~= view_tag_seq(v@));
    }
    r
}

fn clone_patch_vec(v: &Vec<Patch>) -> (r: Vec<Patch>)
    ensures
        view_patch_seq(r@) == view_patch_seq(v@),
{
    let mut r: Vec<Patch> = Vec::new();
    let mut i: usize = 0;
    while i < v.len()
        invariant
            0 <= i <= v.len(),
            view_patch_seq(r@) == view_patch_seq(v@).subrange(0, i as int),
        decreases v@.len() - i,
    {
        proof {
            assert(view_patch_seq(v@)[i as int] == v@[i as int]@);
        }
        let ghost before = view_patch_seq(r@);
        r.push(v[i].clone());
        proof {
            assert(view_patch_seq(r@) =~= before.push(view_patch_seq(v@)[i as int]));
            assert(view_patch_seq(v@).subrange(0, i + 1) =~= view_patch_seq(v@).subrange(
                0,
                i as int,
            ).push(view_patch_seq(v@)[i as int]));
        }
        i = i + 1;
    }
    proof {
        assert(view_patch_seq(v@).subrange(0, view_patch_seq(v@).len() as int) =~= view_patch_seq(
            v@,
        ));
    }
    r
}

} // verus!

verus! {

/// What a DEFLATE stream of a payload is: the outside compressor's
/// output, a function of the bytes and the level alone.
pub uninterp spec fn deflate_of(data: Seq<u8>, level: int) -> Seq<u8>;

/// Relies on miniz_oxide's `compress_to_vec`: a pure DEFLATE compressor
/// whose output depends only on the input bytes and the level.
#[verifier::external_body]
fn deflate(payload: &Vec<u8>, level: u8) -> (r: Vec<u8>)
    ensures
        r@ == deflate_of(payload@, level as int),
{
    miniz_oxide::deflate::compress_to_vec(payload.as_slice(), level)
}

/// Compresses a serialized metadata payload the way the wire protocol
/// frames it.
pub fn compress_meta(payload: &Vec<u8>) -> (r: Vec<u8>)
    ensures
        r@ == deflate_of(payload@, 5),
{
    deflate(payload, 5)
}

/// An incoming subscriber frame, as the session loop sees it.
pub enum WsFrame {
    Text(String),
    Binary(Vec<u8>),
    Ping(Vec<u8>),
    Pong(Vec<u8>),
    Close,
}

/// What the session loop does in answer to one frame.
pub enum WsAction {
    /// Answer a ping with this payload.
    SendPong(Vec<u8>),
    /// Queue an immediate refresh of the broadcast.
    Refresh,
    /// End the session.
    EndSession,
    /// Nothing to do.
    Ignore,
}

/// Mathematical value of a session action, payloads as byte sequences.
pub enum SpecWsAction {
    SendPong(Seq<u8>),
    Refresh,
    EndSession,
    Ignore,
}

impl View for WsAction {
    type V = SpecWsAction;

    open spec fn view(&self) -> SpecWsAction {
        match self {
            WsAction::SendPong(v) => SpecWsAction::SendPong(v@),
            WsAction::Refresh => SpecWsAction::Refresh,
            WsAction::EndSession => SpecWsAction::EndSession,
            WsAction::Ignore => SpecWsAction::Ignore,
        }
    }
}

/// The subscriber protocol: `Close` ends the session, a ping is answered
/// in kind, the text frame `refresh` queues a resync, and every other
/// frame is ignored.
pub fn handle_ws_frame(f: WsFrame) -> (a: WsAction)
    ensures
        a@ == (match f {
            WsFrame::Close => SpecWsAction::EndSession,
            WsFrame::Ping(v) => SpecWsAction::SendPong(v@),
            WsFrame::Text(t) => if t@ == "refresh"@ {
                SpecWsAction::Refresh
            } else {
                SpecWsAction::Ignore
            },
            WsFrame::Binary(_) => SpecWsAction::Ignore,
            WsFrame::Pong(_) => SpecWsAction::Ignore,
        }),
{
    match f {
        WsFrame::Close => WsAction::EndSession,
        WsFrame::Ping(v) => WsAction::SendPong(v),
        WsFrame::Text(t) => {
            if str_eq(t.as_str(), "refresh") {
                WsAction::Refresh
            } else {
                WsAction::Ignore
            }
        },
        WsFrame::Binary(_) => WsAction::Ignore,
        WsFrame::Pong(_) => WsAction::Ignore,
    }
}

} // verus!
