//! The rules of tile deduplication, stated over sequences of pixel blocks.
//!
//! A registry is an ordered sequence of canonical tiles. An incoming tile resolves to
//! the first entry that it equals up to mirroring, or is appended as a new entry.

use crate::tile::{
    flipped_x, flipped_y, is_square, lemma_flip_x_involution, lemma_flip_y_involution,
    lemma_flips_commute, lemma_flips_square, orientation, Pixels,
};
use vstd::prelude::*;

verus! {

/// The first registry entry that `t` equals up to mirroring, with the mirroring.
pub open spec fn lookup(reg: Seq<Pixels>, t: Pixels) -> Option<(int, bool, bool)>
    decreases reg.len(),
{
    if reg.len() == 0 {
        None
    } else {
        match lookup(reg.drop_last(), t) {
            Some(hit) => Some(hit),
            None => match orientation(reg.last(), t) {
                Some((flip_x, flip_y)) => Some((reg.len() - 1, flip_x, flip_y)),
                None => None,
            },
        }
    }
}

/// The index and mirroring under which `t` is found once it has been pushed.
pub open spec fn placement(reg: Seq<Pixels>, t: Pixels) -> (int, bool, bool) {
    match lookup(reg, t) {
        Some(hit) => hit,
        None => (reg.len() as int, false, false),
    }
}

/// The registry after `t` has been pushed.
pub open spec fn registered(reg: Seq<Pixels>, t: Pixels) -> Seq<Pixels> {
    if lookup(reg, t) is Some {
        reg
    } else {
        reg.push(t)
    }
}

/// The registry after the tiles of `ts` have been pushed in order.
pub open spec fn registered_all(reg: Seq<Pixels>, ts: Seq<Pixels>) -> Seq<Pixels>
    decreases ts.len(),
{
    if ts.len() == 0 {
        reg
    } else {
        registered(registered_all(reg, ts.drop_last()), ts.last())
    }
}

/// The placement of tile `k` of `ts` when the tiles of `ts` are pushed in order.
pub open spec fn placement_in(reg: Seq<Pixels>, ts: Seq<Pixels>, k: int) -> (int, bool, bool) {
    placement(registered_all(reg, ts.take(k)), ts[k])
}

/// A hit names the first matching entry; a miss means that no entry matches.
pub proof fn lemma_lookup_is_first_match(reg: Seq<Pixels>, t: Pixels)
    ensures
        match lookup(reg, t) {
            Some((i, flip_x, flip_y)) => {
                &&& 0 <= i < reg.len()
                &&& orientation(reg[i], t) == Some((flip_x, flip_y))
                &&& forall|j: int| 0 <= j < i ==> orientation(#[trigger] reg[j], t) is None
            },
            None => forall|j: int| 0 <= j < reg.len() ==> orientation(#[trigger] reg[j], t) is None,
        },
    decreases reg.len(),
{
    if reg.len() > 0 {
        let front = reg.drop_last();
        lemma_lookup_is_first_match(front, t);
        assert forall|j: int| 0 <= j < front.len() implies front[j] == reg[j] by {}
        match lookup(front, t) {
            Some((i, flip_x, flip_y)) => {
                assert(front[i] == reg[i]);
                assert forall|j: int| 0 <= j < i implies orientation(#[trigger] reg[j], t) is None by {
                    assert(front[j] == reg[j]);
                }
            },
            None => {
                assert forall|j: int| 0 <= j < reg.len() - 1 implies orientation(
                    #[trigger] reg[j],
                    t,
                ) is None by {
                    assert(front[j] == reg[j]);
                }
            },
        }
    }
}

/// The first matching entry is what `lookup` finds.
pub proof fn lemma_first_match_is_lookup(reg: Seq<Pixels>, t: Pixels, i: int)
    requires
        0 <= i < reg.len(),
        orientation(reg[i], t) is Some,
        forall|j: int| 0 <= j < i ==> orientation(#[trigger] reg[j], t) is None,
    ensures
        lookup(reg, t) == Some((i, orientation(reg[i], t).unwrap().0, orientation(reg[i], t).unwrap().1)),
{
    lemma_lookup_is_first_match(reg, t);
    match lookup(reg, t) {
        Some((k, flip_x, flip_y)) => {
            if k < i {
                assert(orientation(reg[k], t) is None);
            }
            if i < k {
                assert(orientation(reg[i], t) is None);
            }
        },
        None => {
            assert(orientation(reg[i], t) is None);
        },
    }
}

/// Pushing never removes, moves or changes an entry: the old registry is a prefix of the new.
pub proof fn lemma_registered_extends(reg: Seq<Pixels>, t: Pixels)
    ensures
        reg.len() <= registered(reg, t).len() <= reg.len() + 1,
        registered(reg, t).take(reg.len() as int) == reg,
        placement(reg, t).0 < registered(reg, t).len(),
        0 <= placement(reg, t).0,
{
    lemma_lookup_is_first_match(reg, t);
    assert(registered(reg, t).take(reg.len() as int) =~= reg);
}

/// Pushing a run of tiles never removes, moves or changes an entry.
pub proof fn lemma_registered_all_extends(reg: Seq<Pixels>, ts: Seq<Pixels>)
    ensures
        reg.len() <= registered_all(reg, ts).len() <= reg.len() + ts.len(),
        registered_all(reg, ts).take(reg.len() as int) == reg,
    decreases ts.len(),
{
    if ts.len() == 0 {
        assert(reg.take(reg.len() as int) =~= reg);
    } else {
        let mid = registered_all(reg, ts.drop_last());
        lemma_registered_all_extends(reg, ts.drop_last());
        lemma_registered_extends(mid, ts.last());
        let fin = registered(mid, ts.last());
        assert(fin.take(reg.len() as int) =~= fin.take(mid.len() as int).take(reg.len() as int));
    }
}

/// A tile pushed a second time resolves exactly as it did the first time,
/// and the second push leaves the registry as it is.
pub proof fn lemma_push_twice(reg: Seq<Pixels>, t: Pixels)
    ensures
        placement(registered(reg, t), t) == placement(reg, t),
        registered(registered(reg, t), t) == registered(reg, t),
{
    if lookup(reg, t) is None {
        let grown = reg.push(t);
        assert(grown.drop_last() =~= reg);
        assert(grown.last() == t);
        assert(orientation(t, t) == Some((false, false)));
    }
}

/// A tile that was appended, or found unmirrored, is found unmirrored at the same index
/// when it is pushed again.
pub proof fn lemma_push_twice_unmirrored(reg: Seq<Pixels>, t: Pixels)
    requires
        !placement(reg, t).1,
        !placement(reg, t).2,
    ensures
        placement(registered(reg, t), t) == (placement(reg, t).0, false, false),
{
    lemma_push_twice(reg, t);
}

/// What matches no mirroring of `t` matches no mirroring of a mirror image of `t`.
pub proof fn lemma_orientation_class(a: Pixels, t: Pixels)
    requires
        is_square(t, 8),
        orientation(a, t) is None,
    ensures
        orientation(a, flipped_x(t)) is None,
        orientation(a, flipped_y(t)) is None,
        orientation(a, flipped_x(flipped_y(t))) is None,
{
    lemma_flip_x_involution(t);
    lemma_flip_y_involution(t);
    lemma_flips_commute(t);
    lemma_flips_square(t);
    lemma_flip_x_involution(flipped_y(t));
    lemma_flip_y_involution(flipped_x(t));
    lemma_flips_commute(flipped_x(t));
    lemma_flips_commute(flipped_y(t));
}

/// After a tile `t` that is not its own mirror image has been pushed and was appended
/// or found unmirrored, its horizontal mirror image resolves to the same index with
/// `flip_x` alone.
pub proof fn lemma_push_flip_x(reg: Seq<Pixels>, t: Pixels)
    requires
        is_square(t, 8),
        !placement(reg, t).1,
        !placement(reg, t).2,
        t != flipped_x(t),
    ensures
        placement(registered(reg, t), flipped_x(t)) == (placement(reg, t).0, true, false),
        registered(registered(reg, t), flipped_x(t)) == registered(reg, t),
{
    let after = registered(reg, t);
    let i = placement(reg, t).0;
    let u = flipped_x(t);
    lemma_slot_after_push(reg, t);
    lemma_flip_x_involution(t);
    assert(orientation(after[i], u) == Some((true, false)));
    assert forall|j: int| 0 <= j < i implies orientation(#[trigger] after[j], u) is None by {
        lemma_orientation_class(after[j], t);
    }
    lemma_first_match_is_lookup(after, u, i);
}

/// After a tile `t` has been pushed and was appended or found unmirrored, its image
/// under both mirrorings resolves to the same index with both flags, unless `t` equals
/// that image or its own vertical mirror image.
pub proof fn lemma_push_flip_both(reg: Seq<Pixels>, t: Pixels)
    requires
        is_square(t, 8),
        !placement(reg, t).1,
        !placement(reg, t).2,
        t != flipped_x(flipped_y(t)),
        t != flipped_y(t),
    ensures
        placement(registered(reg, t), flipped_x(flipped_y(t))) == (placement(reg, t).0, true, true),
        registered(registered(reg, t), flipped_x(flipped_y(t))) == registered(reg, t),
{
    let after = registered(reg, t);
    let i = placement(reg, t).0;
    let u = flipped_x(flipped_y(t));
    lemma_slot_after_push(reg, t);
    lemma_flips_square(t);
    lemma_flip_x_involution(flipped_y(t));
    lemma_flip_y_involution(t);
    assert(flipped_x(u) == flipped_y(t));
    assert(flipped_y(flipped_x(u)) == t);
    assert(orientation(after[i], u) == Some((true, true)));
    assert forall|j: int| 0 <= j < i implies orientation(#[trigger] after[j], u) is None by {
        lemma_orientation_class(after[j], t);
    }
    lemma_first_match_is_lookup(after, u, i);
}

/// A run of pushes that takes the registry past `limit` entries holds a push that is
/// placed at index `limit` or beyond.
pub proof fn lemma_growth_is_placed(reg: Seq<Pixels>, ts: Seq<Pixels>, limit: int)
    requires
        reg.len() <= limit < registered_all(reg, ts).len(),
    ensures
        exists|k: int| 0 <= k < ts.len() && (#[trigger] placement_in(reg, ts, k)).0 >= limit,
    decreases ts.len(),
{
    if ts.len() > 0 {
        let front = ts.drop_last();
        let mid = registered_all(reg, front);
        if mid.len() > limit {
            lemma_growth_is_placed(reg, front, limit);
            let k = choose|k: int|
                0 <= k < front.len() && (#[trigger] placement_in(reg, front, k)).0 >= limit;
            assert(front.take(k) =~= ts.take(k));
            assert(placement_in(reg, ts, k).0 >= limit);
        } else {
            let k = ts.len() - 1;
            assert(ts.take(k) =~= front);
            lemma_registered_extends(mid, ts.last());
            assert(placement_in(reg, ts, k).0 >= limit);
        }
    }
}

/// Where an unmirrored placement points, the registry holds the tile itself, and no
/// earlier entry matches it.
proof fn lemma_slot_after_push(reg: Seq<Pixels>, t: Pixels)
    requires
        !placement(reg, t).1,
        !placement(reg, t).2,
    ensures
        0 <= placement(reg, t).0 < registered(reg, t).len(),
        registered(reg, t)[placement(reg, t).0] == t,
        forall|j: int|
            0 <= j < placement(reg, t).0 ==> orientation(#[trigger] registered(reg, t)[j], t) is None,
{
    lemma_lookup_is_first_match(reg, t);
    let after = registered(reg, t);
    let i = placement(reg, t).0;
    assert forall|j: int| 0 <= j < i implies orientation(#[trigger] after[j], t) is None by {
        assert(after[j] == reg[j]);
    }
}

} // verus!
