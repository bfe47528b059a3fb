//! The birth and death hooks of plants: besides keeping the plant index in
//! step, they keep each plant's count of neighbours within the crowding
//! radius up to date.
use vstd::prelude::*;

use crate::agent::{find_index, index_of, lemma_find_from, lemma_index_of_at, table_wf, Organism};
use crate::geometry::{dist_sq, Point};
use crate::spatial_index::{within_upto, Hit, SpatialIndex};
use crate::sync::{
    add_entity, consistent, lemma_same_places, lemma_table_map_at, lemma_table_map_has,
    remove_entity, table_map,
};

verus! {

/// The record with its neighbour count raised (`up`) or lowered by one,
/// saturating at the bounds of `u64`.
pub open spec fn recount(o: Organism, up: bool) -> Organism {
    Organism {
        neighbor_count: if up {
            if o.neighbor_count < u64::MAX {
                (o.neighbor_count + 1) as u64
            } else {
                o.neighbor_count
            }
        } else if o.neighbor_count > 0 {
            (o.neighbor_count - 1) as u64
        } else {
            0
        },
        ..o
    }
}

/// The plants after those within `r` of `p` were recounted.
pub open spec fn recount_near(o: Organism, p: Point, r: u64, up: bool) -> Organism {
    if dist_sq(o.pos, p) <= (r as int) * (r as int) {
        recount(o, up)
    } else {
        o
    }
}

fn recount_hits(grass: &mut Vec<Organism>, hits: &Vec<Hit>, up: bool)
    requires
        table_wf(old(grass)@),
        forall|k1: int, k2: int|
            0 <= k1 < hits@.len() && 0 <= k2 < hits@.len() && k1 != k2 ==> (#[trigger] hits@[k1]).1
                != (#[trigger] hits@[k2]).1,
    ensures
        table_wf(final(grass)@),
        final(grass)@.len() == old(grass)@.len(),
        forall|j: int|
            0 <= j < old(grass)@.len() ==> #[trigger] final(grass)@[j] == (if exists|k: int|
                0 <= k < hits@.len() && (#[trigger] hits@[k]).1 == old(grass)@[j].id {
                recount(old(grass)@[j], up)
            } else {
                old(grass)@[j]
            }),
{
    let ghost g0 = grass@;
    let mut i: usize = 0;
    while i < hits.len()
        invariant
            table_wf(g0),
            table_wf(grass@),
            grass@.len() == g0.len(),
            i <= hits@.len(),
            forall|k1: int, k2: int|
                0 <= k1 < hits@.len() && 0 <= k2 < hits@.len() && k1 != k2 ==> (#[trigger] hits@[k1]).1
                    != (#[trigger] hits@[k2]).1,
            forall|j: int| 0 <= j < g0.len() ==> (#[trigger] grass@[j]).id == g0[j].id,
            forall|j: int|
                0 <= j < g0.len() ==> #[trigger] grass@[j] == (if exists|k: int|
                    0 <= k < i && (#[trigger] hits@[k]).1 == g0[j].id {
                    recount(g0[j], up)
                } else {
                    g0[j]
                }),
        decreases hits@.len() - i,
    {
        let e = hits[i].1;
        let ghost gs = grass@;
        match find_index(grass, e) {
            Some(k) => {
                let mut g = grass[k];
                if up {
                    if g.neighbor_count < u64::MAX {
                        g.neighbor_count = g.neighbor_count + 1;
                    }
                } else if g.neighbor_count > 0 {
                    g.neighbor_count = g.neighbor_count - 1;
                }
                grass.set(k, g);
                proof {
                    assert(!exists|kk: int| 0 <= kk < i && (#[trigger] hits@[kk]).1 == g0[k as int].id);
                    assert forall|j: int| 0 <= j < g0.len() implies #[trigger] grass@[j] == (if exists|
                        kk: int,
                    | 0 <= kk < i + 1 && (#[trigger] hits@[kk]).1 == g0[j].id {
                        recount(g0[j], up)
                    } else {
                        g0[j]
                    }) by {
                        if j == k {
                            assert(hits@[i as int].1 == g0[j].id);
                        } else {
                            assert(grass@[j] == gs[j]);
                            assert(g0[j].id != e);
                            if exists|kk: int| 0 <= kk < i + 1 && (#[trigger] hits@[kk]).1 == g0[j].id {
                                let kk = choose|kk: int| 0 <= kk < i + 1 && (#[trigger] hits@[kk]).1 == g0[j].id;
                                assert(kk < i);
                            }
                        }
                    }
                    assert(table_wf(grass@)) by {
                        assert(forall|j: int| 0 <= j < g0.len() ==> #[trigger] grass@[j].id == gs[j].id);
                    }
                }
            },
            None => {
                proof {
                    lemma_find_from(grass@, e, 0);
                    assert forall|j: int| 0 <= j < g0.len() implies #[trigger] grass@[j] == (if exists|
                        kk: int,
                    | 0 <= kk < i + 1 && (#[trigger] hits@[kk]).1 == g0[j].id {
                        recount(g0[j], up)
                    } else {
                        g0[j]
                    }) by {
                        assert(grass@[j].id != e);
                        if exists|kk: int| 0 <= kk < i + 1 && (#[trigger] hits@[kk]).1 == g0[j].id {
                            let kk = choose|kk: int| 0 <= kk < i + 1 && (#[trigger] hits@[kk]).1 == g0[j].id;
                            assert(kk < i);
                        }
                    }
                }
            },
        }
        i = i + 1;
    }
}

/// Plants a new plant `o`: every plant within `radius` of it gains a
/// neighbour, the new plant's count is the number of plants within
/// `radius` of it, and it joins the table and the index.
pub fn on_grass_birth(grass: &mut Vec<Organism>, index: &mut SpatialIndex, o: Organism, radius: u64)
    requires
        table_wf(old(grass)@),
        consistent(old(grass)@, old(index)),
        o.wf(),
        index_of(old(grass)@, o.id) < 0,
    ensures
        table_wf(final(grass)@),
        consistent(final(grass)@, final(index)),
        final(grass)@.len() == old(grass)@.len() + 1,
        forall|j: int|
            0 <= j < old(grass)@.len() ==> #[trigger] final(grass)@[j] == recount_near(
                old(grass)@[j],
                o.pos,
                radius,
                true,
            ),
        final(grass)@.last() == (Organism {
            neighbor_count: within_upto(
                old(index).stored(),
                o.pos,
                (radius as int) * (radius as int),
                old(index).stored().len() as int,
            ).len() as u64,
            ..o
        }),
{
    let ghost g0 = grass@;
    let hits = index.get_in_radius(o.pos, radius);
    recount_hits(grass, &hits, true);
    proof {
        lemma_hits_match(g0, grass@, index, &hits, o.pos, radius, true);
    }
    let mut n = o;
    n.neighbor_count = hits.len() as u64;
    let ghost g1 = grass@;
    proof {
        assert(table_map(g1) =~= table_map(g0)) by {
            lemma_same_places(g0, g1);
        }
        lemma_find_from(g0, o.id, 0);
        lemma_find_from(g1, o.id, 0);
        assert forall|j: int| 0 <= j < g1.len() implies (#[trigger] g1[j]).id != o.id by {
            assert(g1[j].id == g0[j].id);
        }
    }
    add_entity(grass, index, n);
}

/// Removes the plant `id`, if present: it leaves the table and the index,
/// and every remaining plant within `radius` of it loses a neighbour.
pub fn on_grass_death(grass: &mut Vec<Organism>, index: &mut SpatialIndex, id: u64, radius: u64)
    requires
        table_wf(old(grass)@),
        consistent(old(grass)@, old(index)),
    ensures
        table_wf(final(grass)@),
        consistent(final(grass)@, final(index)),
        index_of(old(grass)@, id) < 0 ==> final(grass)@ == old(grass)@,
        index_of(old(grass)@, id) >= 0 ==> {
            let rest = old(grass)@.remove(index_of(old(grass)@, id));
            let p = old(grass)@[index_of(old(grass)@, id)].pos;
            &&& final(grass)@.len() == rest.len()
            &&& forall|j: int|
                0 <= j < rest.len() ==> #[trigger] final(grass)@[j] == recount_near(
                    rest[j],
                    p,
                    radius,
                    false,
                )
        },
        index_of(final(grass)@, id) < 0,
{
    let k = match find_index(grass, id) {
        Some(k) => k,
        None => {
            return ;
        },
    };
    let p = grass[k].pos;
    remove_entity(grass, index, id);
    let ghost g0 = grass@;
    let hits = index.get_in_radius(p, radius);
    recount_hits(grass, &hits, false);
    proof {
        lemma_hits_match(g0, grass@, index, &hits, p, radius, false);
        lemma_same_places(g0, grass@);
        assert(table_map(grass@) =~= table_map(g0));
        lemma_find_from(g0, id, 0);
        lemma_find_from(grass@, id, 0);
        assert forall|j: int| 0 <= j < grass@.len() implies (#[trigger] grass@[j]).id != id by {
            assert(grass@[j].id == g0[j].id);
        }
    }
}

proof fn lemma_hits_match(
    g0: Seq<Organism>,
    g1: Seq<Organism>,
    index: &SpatialIndex,
    hits: &Vec<Hit>,
    p: Point,
    radius: u64,
    up: bool,
)
    requires
        table_wf(g0),
        consistent(g0, index),
        g1.len() == g0.len(),
        forall|e: u64|
            (exists|k: int| 0 <= k < hits@.len() && (#[trigger] hits@[k]).1 == e) <==> (
            index@.contains_key(e) && dist_sq(index@[e], p) <= (radius as int) * (radius as int)),
        forall|j: int|
            0 <= j < g0.len() ==> #[trigger] g1[j] == (if exists|k: int|
                0 <= k < hits@.len() && (#[trigger] hits@[k]).1 == g0[j].id {
                recount(g0[j], up)
            } else {
                g0[j]
            }),
    ensures
        forall|j: int| 0 <= j < g0.len() ==> #[trigger] g1[j] == recount_near(g0[j], p, radius, up),
        forall|j: int| 0 <= j < g0.len() ==> (#[trigger] g1[j]).id == g0[j].id && g1[j].pos == g0[j].pos,
{
    assert forall|j: int| 0 <= j < g0.len() implies #[trigger] g1[j] == recount_near(
        g0[j],
        p,
        radius,
        up,
    ) by {
        lemma_table_map_at(g0, j);
        let e = g0[j].id;
        assert((exists|k: int| 0 <= k < hits@.len() && (#[trigger] hits@[k]).1 == e) <==> (
        index@.contains_key(e) && dist_sq(index@[e], p) <= (radius as int) * (radius as int)));
    }
    assert forall|j: int| 0 <= j < g0.len() implies (#[trigger] g1[j]).id == g0[j].id && g1[j].pos
        == g0[j].pos by {
        assert(g1[j] == recount_near(g0[j], p, radius, up));
    }
}

} // verus!
