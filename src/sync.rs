//! Keeping a species' spatial index in step with its table: births and
//! deaths applied at a barrier, movement integration, and the
//! resynchronisation of moved positions.
use vstd::prelude::*;

use crate::agent::{index_of, lemma_find_from, lemma_index_of_at, table_wf, Organism};
use crate::geometry::{dist_sq, Point};
use crate::movement::{advance, moved, step_len};
use crate::spatial_index::SpatialIndex;

verus! {

/// The positions of a table, by id.
pub open spec fn table_map(t: Seq<Organism>) -> Map<u64, Point> {
    Map::new(|e: u64| index_of(t, e) >= 0, |e: u64| t[index_of(t, e)].pos)
}

/// The index holds exactly the table's entities, at their positions.
pub open spec fn consistent(t: Seq<Organism>, index: &SpatialIndex) -> bool {
    index.wf() && index@ == table_map(t)
}

pub proof fn lemma_table_map_at(t: Seq<Organism>, i: int)
    requires
        table_wf(t),
        0 <= i < t.len(),
    ensures
        table_map(t).contains_key(t[i].id),
        table_map(t)[t[i].id] == t[i].pos,
{
    lemma_index_of_at(t, i);
}

/// Ids present in the table.
pub proof fn lemma_table_map_has(t: Seq<Organism>, e: u64)
    requires
        table_map(t).contains_key(e),
    ensures
        0 <= index_of(t, e) < t.len(),
        t[index_of(t, e)].id == e,
{
    lemma_find_from(t, e, 0);
}

/// The record after one tick of movement.
pub open spec fn movement_one(o: Organism, dt: u64) -> Organism {
    Organism { pos: moved(o.pos, o.movement, dt), ..o }
}

/// Every record advances along its movement intent for `dt` milliseconds.
pub fn movement_update(table: &mut Vec<Organism>, dt: u64)
    requires
        table_wf(old(table)@),
    ensures
        final(table)@.len() == old(table)@.len(),
        forall|i: int|
            0 <= i < old(table)@.len() ==> #[trigger] final(table)@[i] == movement_one(
                old(table)@[i],
                dt,
            ),
        forall|i: int|
            0 <= i < old(table)@.len() ==> dist_sq((#[trigger] final(table)@[i]).pos, old(table)@[i].pos)
                <= step_len(old(table)@[i].movement.speed, dt) * step_len(
                old(table)@[i].movement.speed,
                dt,
            ),
        table_wf(final(table)@),
{
    let ghost s0 = table@;
    let mut i: usize = 0;
    while i < table.len()
        invariant
            table_wf(s0),
            table@.len() == s0.len(),
            i <= s0.len(),
            forall|j: int| 0 <= j < i ==> #[trigger] table@[j] == movement_one(s0[j], dt),
            forall|j: int|
                0 <= j < i ==> dist_sq((#[trigger] table@[j]).pos, s0[j].pos) <= step_len(
                    s0[j].movement.speed,
                    dt,
                ) * step_len(s0[j].movement.speed, dt),
            forall|j: int| 0 <= j < i ==> (#[trigger] table@[j]).wf(),
            forall|j: int| i <= j < s0.len() ==> #[trigger] table@[j] == s0[j],
        decreases s0.len() - i,
    {
        let mut o = table[i];
        assert(o == s0[i as int]);
        o.pos = advance(o.pos, o.movement, dt);
        table.set(i, o);
        i = i + 1;
    }
    assert(table_wf(table@)) by {
        assert(forall|j: int| 0 <= j < s0.len() ==> #[trigger] table@[j].id == s0[j].id);
    }
}

/// Brings the index back in step with the table after movement: every
/// entity of the table, which the index already holds, is moved to its
/// current position.
pub fn index_update(table: &Vec<Organism>, index: &mut SpatialIndex)
    requires
        table_wf(table@),
        old(index).wf(),
        old(index)@.dom() == table_map(table@).dom(),
    ensures
        consistent(table@, final(index)),
{
    let mut i: usize = 0;
    while i < table.len()
        invariant
            table_wf(table@),
            index.wf(),
            i <= table@.len(),
            index@.dom() == table_map(table@).dom(),
            forall|j: int| 0 <= j < i ==> index@[#[trigger] table@[j].id] == table@[j].pos,
        decreases table@.len() - i,
    {
        let o = table[i];
        proof {
            lemma_table_map_at(table@, i as int);
        }
        let ghost before = index@;
        index.update(o.id, o.pos);
        proof {
            assert(index@.dom() =~= before.dom());
            assert forall|j: int| 0 <= j < i + 1 implies index@[#[trigger] table@[j].id]
                == table@[j].pos by {
                if j < i {
                    assert(table@[j].id != o.id);
                }
            }
        }
        i = i + 1;
    }
    proof {
        assert forall|e: u64| #[trigger] index@.contains_key(e) implies index@[e] == table_map(
            table@,
        )[e] by {
            lemma_table_map_has(table@, e);
            let k = index_of(table@, e);
            assert(index@[table@[k].id] == table@[k].pos);
        }
        assert(index@ =~= table_map(table@));
    }
}

/// Adds `o` to the table and to the index.
pub fn add_entity(table: &mut Vec<Organism>, index: &mut SpatialIndex, o: Organism)
    requires
        table_wf(old(table)@),
        consistent(old(table)@, old(index)),
        o.wf(),
        index_of(old(table)@, o.id) < 0,
    ensures
        final(table)@ == old(table)@.push(o),
        table_wf(final(table)@),
        consistent(final(table)@, final(index)),
{
    let ghost t0 = table@;
    proof {
        lemma_find_from(t0, o.id, 0);
    }
    index.insert(o.id, o.pos);
    table.push(o);
    let ghost t1 = table@;
    assert(table_wf(t1)) by {
        assert forall|a: int, b: int|
            0 <= a < t1.len() && 0 <= b < t1.len() && a != b implies #[trigger] t1[a].id
            != #[trigger] t1[b].id by {
            if a < t0.len() && b < t0.len() {
                assert(t1[a] == t0[a] && t1[b] == t0[b]);
            } else if a < t0.len() {
                assert(t1[a] == t0[a]);
            } else {
                assert(t1[b] == t0[b]);
            }
        }
        assert forall|a: int| 0 <= a < t1.len() implies (#[trigger] t1[a]).wf() by {
            if a < t0.len() {
                assert(t1[a] == t0[a]);
            }
        }
    }
    proof {
        assert forall|e: u64| #[trigger] table_map(t1).contains_key(e) <==> table_map(
            t0,
        ).insert(o.id, o.pos).contains_key(e) by {
            lemma_find_from(t1, e, 0);
            lemma_find_from(t0, e, 0);
            if index_of(t1, e) >= 0 && e != o.id {
                let k = index_of(t1, e);
                assert(k < t0.len());
                assert(t0[k].id == e);
            }
            if index_of(t0, e) >= 0 {
                let k = index_of(t0, e);
                assert(t1[k].id == e);
            }
            if e == o.id {
                assert(t1[t0.len() as int].id == e);
            }
        }
        assert forall|e: u64| #[trigger] table_map(t1).contains_key(e) implies table_map(t1)[e]
            == table_map(t0).insert(o.id, o.pos)[e] by {
            lemma_table_map_has(t1, e);
            let k = index_of(t1, e);
            lemma_table_map_at(t1, k);
            if k < t0.len() {
                assert(t1[k] == t0[k]);
                lemma_table_map_at(t0, k);
            }
        }
        assert(table_map(t1) =~= table_map(t0).insert(o.id, o.pos));
    }
}

/// Takes the entity `id` out of the table and the index, if it is there.
pub fn remove_entity(table: &mut Vec<Organism>, index: &mut SpatialIndex, id: u64)
    requires
        table_wf(old(table)@),
        consistent(old(table)@, old(index)),
    ensures
        table_wf(final(table)@),
        consistent(final(table)@, final(index)),
        index_of(old(table)@, id) < 0 ==> final(table)@ == old(table)@,
        index_of(old(table)@, id) >= 0 ==> final(table)@ == old(table)@.remove(
            index_of(old(table)@, id),
        ),
        index_of(final(table)@, id) < 0,
{
    let ghost t0 = table@;
    proof {
        lemma_find_from(t0, id, 0);
    }
    let k = match crate::agent::find_index(table, id) {
        Some(k) => k,
        None => {
            return ;
        },
    };
    proof {
        lemma_table_map_at(t0, k as int);
    }
    index.remove(id);
    table.remove(k);
    let ghost t1 = table@;
    assert(forall|j: int| 0 <= j < k ==> t1[j] == t0[j]);
    assert(forall|j: int| k <= j < t1.len() ==> t1[j] == t0[j + 1]);
    assert(table_wf(t1)) by {
        assert forall|a: int, b: int|
            0 <= a < t1.len() && 0 <= b < t1.len() && a != b implies #[trigger] t1[a].id
            != #[trigger] t1[b].id by {
            let a0 = if a < k { a } else { a + 1 };
            let b0 = if b < k { b } else { b + 1 };
            assert(t1[a] == t0[a0] && t1[b] == t0[b0]);
        }
        assert forall|a: int| 0 <= a < t1.len() implies (#[trigger] t1[a]).wf() by {
            let a0 = if a < k { a } else { a + 1 };
            assert(t1[a] == t0[a0]);
        }
    }
    proof {
        assert forall|j: int| 0 <= j < t1.len() implies (#[trigger] t1[j]).id != id by {
            let j0 = if j < k { j } else { j + 1 };
            assert(t1[j] == t0[j0]);
            assert(j0 != k);
        }
        lemma_find_from(t1, id, 0);
        assert forall|e: u64| #[trigger] table_map(t1).contains_key(e) <==> table_map(t0).remove(
            id,
        ).contains_key(e) by {
            lemma_find_from(t1, e, 0);
            lemma_find_from(t0, e, 0);
            if index_of(t1, e) >= 0 {
                let a = index_of(t1, e);
                let a0 = if a < k { a } else { a + 1 };
                assert(t1[a] == t0[a0]);
            }
            if index_of(t0, e) >= 0 && e != id {
                let a0 = index_of(t0, e);
                assert(a0 != k);
                let a = if a0 < k { a0 } else { a0 - 1 };
                assert(t1[a] == t0[a0]);
            }
        }
        assert forall|e: u64| #[trigger] table_map(t1).contains_key(e) implies table_map(t1)[e]
            == table_map(t0).remove(id)[e] by {
            lemma_table_map_has(t1, e);
            let a = index_of(t1, e);
            lemma_table_map_at(t1, a);
            let a0 = if a < k { a } else { a + 1 };
            assert(t1[a] == t0[a0]);
            lemma_table_map_at(t0, a0);
        }
        assert(table_map(t1) =~= table_map(t0).remove(id));
    }
}

/// Tables with the same ids at the same positions, in the same order,
/// have the same position map.
pub proof fn lemma_same_places(a: Seq<Organism>, b: Seq<Organism>)
    requires
        a.len() == b.len(),
        forall|j: int| 0 <= j < a.len() ==> (#[trigger] b[j]).id == a[j].id && b[j].pos == a[j].pos,
    ensures
        table_map(a) =~= table_map(b),
{
    assert forall|e: u64| index_of(a, e) == #[trigger] index_of(b, e) by {
        crate::agent::lemma_find_same_ids(a, b, e, 0);
    }
    assert forall|e: u64| #[trigger] table_map(a).contains_key(e) implies table_map(a)[e]
        == table_map(b)[e] by {
        lemma_table_map_has(a, e);
        assert(index_of(a, e) == index_of(b, e));
    }
}

} // verus!
