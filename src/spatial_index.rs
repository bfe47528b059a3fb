//! A per-species index from entity to position, with nearest-neighbour and
//! radius queries that are exact: every answer is the one a scan over all
//! stored (entity, position) pairs gives. Entries are kept sorted by x, so a
//! radius query visits only the band of entries within the radius along x,
//! and a nearest query walks outward from the query's x and stops on each
//! side once the gap along x alone exceeds the best distance found.
use vstd::prelude::*;

use crate::geometry::{dist_sq, distance_sq, length_sq, lemma_dist_sq_bounds, Point};

verus! {

/// One stored pair.
#[derive(Clone, Copy, Debug, PartialEq, Eq, Structural)]
pub struct IndexEntry {
    pub entity: u64,
    pub pos: Point,
}

/// A stored pair seen from a query point: the squared distance to it and
/// the entity.
pub type Hit = (u128, u64);

/// No entity is stored twice and every stored position is in range.
pub open spec fn entries_wf(s: Seq<IndexEntry>) -> bool {
    &&& forall|i: int, j: int|
        0 <= i < s.len() && 0 <= j < s.len() && i != j ==> #[trigger] s[i].entity
            != #[trigger] s[j].entity
    &&& forall|i: int| 0 <= i < s.len() ==> (#[trigger] s[i]).pos.valid()
}

pub open spec fn holds(s: Seq<IndexEntry>, e: u64) -> bool {
    exists|i: int| 0 <= i < s.len() && (#[trigger] s[i]).entity == e
}

/// The stored pairs as a map from entity to position.
pub open spec fn entries_map(s: Seq<IndexEntry>) -> Map<u64, Point> {
    Map::new(
        |e: u64| holds(s, e),
        |e: u64| s[choose|i: int| 0 <= i < s.len() && (#[trigger] s[i]).entity == e].pos,
    )
}

/// Among the first `n` entries other than the one at `skip`, the first one
/// nearest to `p`; `-1` when there is none.
pub open spec fn best_upto(s: Seq<IndexEntry>, p: Point, n: int, skip: int) -> int
    decreases n,
{
    if n <= 0 {
        -1
    } else {
        let b = best_upto(s, p, n - 1, skip);
        if n - 1 == skip {
            b
        } else if b < 0 || dist_sq(s[n - 1].pos, p) < dist_sq(s[b].pos, p) {
            n - 1
        } else {
            b
        }
    }
}

/// What a query for the entry nearest to `p`, leaving out `skip`, answers.
pub open spec fn hit_of(s: Seq<IndexEntry>, p: Point, skip: int) -> Option<Hit> {
    let b = best_upto(s, p, s.len() as int, skip);
    if b < 0 {
        None
    } else {
        Some((dist_sq(s[b].pos, p) as u128, s[b].entity))
    }
}

/// The pairs among the first `n` entries that lie within squared distance
/// `r2` of `p`, in stored order.
pub open spec fn within_upto(s: Seq<IndexEntry>, p: Point, r2: int, n: int) -> Seq<Hit>
    decreases n,
{
    if n <= 0 {
        Seq::empty()
    } else {
        let rest = within_upto(s, p, r2, n - 1);
        if dist_sq(s[n - 1].pos, p) <= r2 {
            rest.push((dist_sq(s[n - 1].pos, p) as u128, s[n - 1].entity))
        } else {
            rest
        }
    }
}

/// Where `e` is stored.
pub open spec fn slot(s: Seq<IndexEntry>, e: u64) -> int {
    choose|i: int| 0 <= i < s.len() && (#[trigger] s[i]).entity == e
}

pub proof fn lemma_slot(s: Seq<IndexEntry>, i: int)
    requires
        entries_wf(s),
        0 <= i < s.len(),
    ensures
        slot(s, s[i].entity) == i,
{
    let j = slot(s, s[i].entity);
    assert(s[j].entity == s[i].entity);
}

/// Entries are stored in order of their x coordinate.
pub open spec fn x_sorted(s: Seq<IndexEntry>) -> bool {
    forall|i: int, j: int| 0 <= i <= j < s.len() ==> (#[trigger] s[i]).pos.x <= (#[trigger] s[j]).pos.x
}

/// The first index at or after `i` whose entry lies right of `x`; the
/// length when there is none.
pub open spec fn first_above(s: Seq<IndexEntry>, x: i64, i: int) -> int
    decreases s.len() - i,
{
    if i < 0 || i >= s.len() {
        s.len() as int
    } else if s[i].pos.x > x {
        i
    } else {
        first_above(s, x, i + 1)
    }
}

/// `s` with `e` stored after every entry not right of it.
pub open spec fn sorted_insert(s: Seq<IndexEntry>, e: IndexEntry) -> Seq<IndexEntry> {
    s.insert(first_above(s, e.pos.x, 0), e)
}

pub proof fn lemma_first_above(s: Seq<IndexEntry>, x: i64, i: int)
    requires
        0 <= i <= s.len(),
    ensures
        i <= first_above(s, x, i) <= s.len(),
        forall|j: int| i <= j < first_above(s, x, i) ==> (#[trigger] s[j]).pos.x <= x,
        first_above(s, x, i) < s.len() ==> s[first_above(s, x, i)].pos.x > x,
    decreases s.len() - i,
{
    if i < s.len() {
        lemma_first_above(s, x, i + 1);
    }
}

/// Storing a new entity at position `k` keeps the entries well formed and
/// adds it to the map.
pub proof fn lemma_insert_entry(s: Seq<IndexEntry>, k: int, e: IndexEntry)
    requires
        entries_wf(s),
        !holds(s, e.entity),
        e.pos.valid(),
        0 <= k <= s.len(),
    ensures
        entries_wf(s.insert(k, e)),
        entries_map(s.insert(k, e)) == entries_map(s).insert(e.entity, e.pos),
        forall|j: int| 0 <= j < k ==> #[trigger] s.insert(k, e)[j] == s[j],
        forall|j: int| k < j <= s.len() ==> #[trigger] s.insert(k, e)[j] == s[j - 1],
        s.insert(k, e)[k] == e,
{
    let t = s.insert(k, e);
    assert forall|j: int| 0 <= j < s.len() implies (#[trigger] s[j]).entity != e.entity by {
        if s[j].entity == e.entity {
            assert(holds(s, e.entity));
        }
    }
    assert forall|a: int, b: int|
        0 <= a < t.len() && 0 <= b < t.len() && a != b implies #[trigger] t[a].entity
        != #[trigger] t[b].entity by {
        if a != k && b != k {
            let a0 = if a < k { a } else { a - 1 };
            let b0 = if b < k { b } else { b - 1 };
            assert(t[a] == s[a0] && t[b] == s[b0]);
        } else if a == k {
            let b0 = if b < k { b } else { b - 1 };
            assert(t[b] == s[b0]);
        } else {
            let a0 = if a < k { a } else { a - 1 };
            assert(t[a] == s[a0]);
        }
    }
    assert forall|a: int| 0 <= a < t.len() implies (#[trigger] t[a]).pos.valid() by {
        if a != k {
            let a0 = if a < k { a } else { a - 1 };
            assert(t[a] == s[a0]);
        }
    }
    let target = entries_map(s).insert(e.entity, e.pos);
    assert forall|x: u64| #[trigger] entries_map(t).contains_key(x) <==> target.contains_key(x) by {
        if holds(t, x) && x != e.entity {
            let a = choose|a: int| 0 <= a < t.len() && (#[trigger] t[a]).entity == x;
            let a0 = if a < k { a } else { a - 1 };
            assert(a != k);
            assert(t[a] == s[a0]);
        }
        if holds(s, x) {
            let a0 = choose|a: int| 0 <= a < s.len() && (#[trigger] s[a]).entity == x;
            let a = if a0 < k { a0 } else { a0 + 1 };
            assert(t[a] == s[a0]);
        }
        if x == e.entity {
            assert(t[k].entity == x);
        }
    }
    assert forall|x: u64| #[trigger] entries_map(t).contains_key(x) implies entries_map(t)[x]
        == target[x] by {
        let a = choose|a: int| 0 <= a < t.len() && (#[trigger] t[a]).entity == x;
        lemma_map_at(t, a);
        if a != k {
            let a0 = if a < k { a } else { a - 1 };
            assert(t[a] == s[a0]);
            lemma_map_at(s, a0);
        }
    }
    assert(entries_map(t) =~= target);
}

/// `b` is at least as near to `p` as `j`, and stored no later when equally
/// near.
pub open spec fn lex_better(s: Seq<IndexEntry>, p: Point, b: int, j: int) -> bool {
    dist_sq(s[b].pos, p) < dist_sq(s[j].pos, p) || (dist_sq(s[b].pos, p) == dist_sq(s[j].pos, p)
        && b <= j)
}

proof fn lemma_first_min(s: Seq<IndexEntry>, p: Point, n: int)
    requires
        0 < n <= s.len(),
    ensures
        forall|j: int|
            0 <= j < best_upto(s, p, n, -1) ==> dist_sq(#[trigger] s[j].pos, p) > dist_sq(
                s[best_upto(s, p, n, -1)].pos,
                p,
            ),
    decreases n,
{
    lemma_best_upto(s, p, n, -1);
    if n > 1 {
        lemma_first_min(s, p, n - 1);
        lemma_best_upto(s, p, n - 1, -1);
    }
}

/// An entry that beats every other in distance, ties going to the earlier,
/// is the one the nearest query names.
proof fn lemma_lex_best(s: Seq<IndexEntry>, p: Point, b: int)
    requires
        0 <= b < s.len(),
        forall|j: int| 0 <= j < s.len() ==> lex_better(s, p, b, j),
    ensures
        best_upto(s, p, s.len() as int, -1) == b,
{
    let n = s.len() as int;
    lemma_best_upto(s, p, n, -1);
    lemma_first_min(s, p, n);
    let bb = best_upto(s, p, n, -1);
    assert(lex_better(s, p, b, bb));
    assert(dist_sq(s[bb].pos, p) <= dist_sq(s[b].pos, p));
    if b < bb {
        assert(dist_sq(s[b].pos, p) > dist_sq(s[bb].pos, p));
    }
}

/// A point farther than `r` along x is farther than `r`.
proof fn lemma_far_in_x(a: Point, b: Point, r: int)
    requires
        r >= 0,
        a.x - b.x > r || b.x - a.x > r,
    ensures
        dist_sq(a, b) > r * r,
{
    let dx = a.x - b.x;
    assert(dx * dx > r * r) by (nonlinear_arith)
        requires
            r >= 0,
            dx > r || -dx > r,
    ;
    assert((a.y - b.y) * (a.y - b.y) >= 0) by (nonlinear_arith);
}

/// The squared distance is at least the squared gap along x, and that gap
/// grows with it.
proof fn lemma_gap_x(a: Point, c: Point, p: Point)
    requires
        p.x <= a.x <= c.x || c.x <= a.x <= p.x,
    ensures
        dist_sq(c, p) >= (a.x - p.x) * (a.x - p.x),
{
    let d1 = a.x - p.x;
    let d2 = c.x - p.x;
    assert(d2 * d2 >= d1 * d1) by (nonlinear_arith)
        requires
            0 <= d1 <= d2 || d2 <= d1 <= 0,
    ;
    assert((c.y - p.y) * (c.y - p.y) >= 0) by (nonlinear_arith);
}

proof fn lemma_within_skip(s: Seq<IndexEntry>, p: Point, r2: int, a: int, b: int)
    requires
        0 <= a <= b <= s.len(),
        forall|j: int| a <= j < b ==> dist_sq(#[trigger] s[j].pos, p) > r2,
    ensures
        within_upto(s, p, r2, b) == within_upto(s, p, r2, a),
    decreases b - a,
{
    if a < b {
        lemma_within_skip(s, p, r2, a, b - 1);
    }
}

proof fn lemma_map_at(s: Seq<IndexEntry>, i: int)
    requires
        entries_wf(s),
        0 <= i < s.len(),
    ensures
        entries_map(s).contains_key(s[i].entity),
        entries_map(s)[s[i].entity] == s[i].pos,
{
    let e = s[i].entity;
    assert(holds(s, e));
    let j = choose|j: int| 0 <= j < s.len() && (#[trigger] s[j]).entity == e;
    assert(s[j].entity == s[i].entity);
}

proof fn lemma_best_upto(s: Seq<IndexEntry>, p: Point, n: int, skip: int)
    requires
        0 <= n <= s.len(),
    ensures
        best_upto(s, p, n, skip) < n,
        best_upto(s, p, n, skip) >= 0 ==> best_upto(s, p, n, skip) != skip,
        best_upto(s, p, n, skip) < 0 <==> (n == 0 || (n == 1 && skip == 0)),
        best_upto(s, p, n, skip) >= 0 ==> forall|j: int|
            0 <= j < n && j != skip ==> dist_sq(s[best_upto(s, p, n, skip)].pos, p) <= dist_sq(
                #[trigger] s[j].pos,
                p,
            ),
    decreases n,
{
    if n > 0 {
        lemma_best_upto(s, p, n - 1, skip);
        let b = best_upto(s, p, n - 1, skip);
    }
}

/// Each reported pair is a stored pair within the radius, with its distance.
proof fn lemma_within_sound(s: Seq<IndexEntry>, p: Point, r2: int, n: int)
    requires
        0 <= n <= s.len(),
        p.valid(),
        entries_wf(s),
    ensures
        forall|k: int|
            #![trigger within_upto(s, p, r2, n)[k]]
            0 <= k < within_upto(s, p, r2, n).len() ==> exists|j: int|
                0 <= j < n && within_upto(s, p, r2, n)[k].1 == (#[trigger] s[j]).entity
                    && within_upto(s, p, r2, n)[k].0 == dist_sq(s[j].pos, p) && dist_sq(
                    s[j].pos,
                    p,
                ) <= r2,
    decreases n,
{
    if n > 0 {
        lemma_within_sound(s, p, r2, n - 1);
        let rest = within_upto(s, p, r2, n - 1);
        let cur = within_upto(s, p, r2, n);
        assert forall|k: int| #![trigger cur[k]] 0 <= k < cur.len() implies exists|j: int|
            0 <= j < n && cur[k].1 == (#[trigger] s[j]).entity && cur[k].0 == dist_sq(
                s[j].pos,
                p,
            ) && dist_sq(s[j].pos, p) <= r2 by {
            if k < rest.len() {
                assert(cur[k] == rest[k]);
            } else {
                lemma_dist_sq_bounds(s[n - 1].pos, p);
                assert(cur[k].1 == s[n - 1].entity);
            }
        }
    }
}

/// Each stored pair within the radius is reported.
proof fn lemma_within_complete(s: Seq<IndexEntry>, p: Point, r2: int, n: int)
    requires
        0 <= n <= s.len(),
    ensures
        forall|j: int|
            0 <= j < n && dist_sq(#[trigger] s[j].pos, p) <= r2 ==> exists|k: int|
                0 <= k < within_upto(s, p, r2, n).len() && (#[trigger] within_upto(s, p, r2, n)[k]).1
                    == s[j].entity,
    decreases n,
{
    if n > 0 {
        lemma_within_complete(s, p, r2, n - 1);
        let rest = within_upto(s, p, r2, n - 1);
        let cur = within_upto(s, p, r2, n);
        assert forall|j: int| 0 <= j < n && dist_sq(#[trigger] s[j].pos, p) <= r2 implies exists|
            k: int,
        | 0 <= k < cur.len() && (#[trigger] cur[k]).1 == s[j].entity by {
            if j < n - 1 {
                let k = choose|k: int| 0 <= k < rest.len() && (#[trigger] rest[k]).1 == s[j].entity;
                assert(cur[k] == rest[k]);
            } else {
                assert(cur[rest.len() as int].1 == s[j].entity);
            }
        }
    }
}

/// No entity is reported twice.
proof fn lemma_within_distinct(s: Seq<IndexEntry>, p: Point, r2: int, n: int)
    requires
        0 <= n <= s.len(),
        p.valid(),
        entries_wf(s),
    ensures
        forall|k1: int, k2: int|
            0 <= k1 < within_upto(s, p, r2, n).len() && 0 <= k2 < within_upto(s, p, r2, n).len()
                && k1 != k2 ==> (#[trigger] within_upto(s, p, r2, n)[k1]).1
                != (#[trigger] within_upto(s, p, r2, n)[k2]).1,
    decreases n,
{
    if n > 0 {
        lemma_within_distinct(s, p, r2, n - 1);
        lemma_within_sound(s, p, r2, n - 1);
        let rest = within_upto(s, p, r2, n - 1);
        let cur = within_upto(s, p, r2, n);
        if dist_sq(s[n - 1].pos, p) <= r2 {
            assert forall|k1: int, k2: int|
                0 <= k1 < cur.len() && 0 <= k2 < cur.len() && k1 != k2 implies (
            #[trigger] cur[k1]).1 != (#[trigger] cur[k2]).1 by {
                if k1 < rest.len() && k2 < rest.len() {
                    assert(cur[k1] == rest[k1] && cur[k2] == rest[k2]);
                } else if k1 < rest.len() {
                    assert(cur[k1] == rest[k1]);
                    let j = choose|j: int|
                        0 <= j < n - 1 && rest[k1].1 == (#[trigger] s[j]).entity && rest[k1].0
                            == dist_sq(s[j].pos, p) && dist_sq(s[j].pos, p) <= r2;
                    assert(s[j].entity != s[n - 1].entity);
                } else if k2 < rest.len() {
                    assert(cur[k2] == rest[k2]);
                    let j = choose|j: int|
                        0 <= j < n - 1 && rest[k2].1 == (#[trigger] s[j]).entity && rest[k2].0
                            == dist_sq(s[j].pos, p) && dist_sq(s[j].pos, p) <= r2;
                    assert(s[j].entity != s[n - 1].entity);
                }
            }
        }
    }
}

/// The index: entity to position, answering nearest and radius queries.
pub struct SpatialIndex {
    entries: Vec<IndexEntry>,
}

impl SpatialIndex {
    /// No entity is stored twice and every stored position is in range.
    pub closed spec fn wf(&self) -> bool {
        entries_wf(self.entries@) && x_sorted(self.entries@)
    }

    /// The stored pairs in the order the queries visit them.
    pub closed spec fn stored(&self) -> Seq<IndexEntry> {
        self.entries@
    }

    /// The stored pairs as a map from entity to position.
    pub open spec fn view(&self) -> Map<u64, Point> {
        entries_map(self.stored())
    }

    /// Every stored position is in range.
    pub proof fn lemma_positions_valid(&self)
        requires
            self.wf(),
        ensures
            forall|e: u64| #[trigger] self@.contains_key(e) ==> self@[e].valid(),
    {
        assert forall|e: u64| #[trigger] self@.contains_key(e) implies self@[e].valid() by {
            let i = choose|i: int|
                0 <= i < self.entries@.len() && (#[trigger] self.entries@[i]).entity == e;
            lemma_map_at(self.entries@, i);
        }
    }

    pub fn new() -> (r: SpatialIndex)
        ensures
            r@ == Map::<u64, Point>::empty(),
            r.stored() == Seq::<IndexEntry>::empty(),
            r.wf(),
    {
        let r = SpatialIndex { entries: Vec::new() };
        assert(r@ =~= Map::<u64, Point>::empty());
        r
    }

    fn find(&self, entity: u64) -> (r: Option<usize>)
        requires
            self.wf(),
        ensures
            r is None ==> !self@.contains_key(entity),
            r matches Some(i) ==> i < self.stored().len() && self.stored()[i as int].entity
                == entity,
    {
        let mut i: usize = 0;
        while i < self.entries.len()
            invariant
                i <= self.entries@.len(),
                forall|j: int| 0 <= j < i ==> (#[trigger] self.entries@[j]).entity != entity,
            decreases self.entries@.len() - i,
        {
            if self.entries[i].entity == entity {
                return Some(i);
            }
            i = i + 1;
        }
        None
    }

    /// Whether `entity` is stored.
    pub fn contains(&self, entity: u64) -> (r: bool)
        requires
            self.wf(),
        ensures
            r == self@.contains_key(entity),
    {
        match self.find(entity) {
            Some(i) => {
                proof {
                    lemma_map_at(self.entries@, i as int);
                }
                true
            },
            None => false,
        }
    }

    /// Number of stored entities.
    pub fn len(&self) -> (r: usize)
        ensures
            r == self.stored().len(),
    {
        self.entries.len()
    }

    /// The `i`-th stored pair in query order.
    pub fn entry_at(&self, i: usize) -> (r: IndexEntry)
        requires
            i < self.stored().len(),
        ensures
            r == self.stored()[i as int],
    {
        self.entries[i]
    }

    /// The `i`-th stored pair is in the map.
    pub proof fn lemma_stored_in_view(&self, i: int)
        requires
            self.wf(),
            0 <= i < self.stored().len(),
        ensures
            self@.contains_key(self.stored()[i].entity),
            self@[self.stored()[i].entity] == self.stored()[i].pos,
    {
        lemma_map_at(self.entries@, i);
    }

    /// Stored pairs are distinct entities with positions in range.
    pub proof fn lemma_stored_wf(&self)
        requires
            self.wf(),
        ensures
            entries_wf(self.stored()),
    {
    }

    /// Whether nothing is stored.
    pub fn is_empty(&self) -> (r: bool)
        requires
            self.wf(),
        ensures
            r == (self@ == Map::<u64, Point>::empty()),
    {
        proof {
            if self.entries@.len() > 0 {
                lemma_map_at(self.entries@, 0);
                assert(!(self@ =~= Map::<u64, Point>::empty()) || !self@.contains_key(
                    self.entries@[0].entity,
                ));
            } else {
                assert(self@ =~= Map::<u64, Point>::empty());
            }
        }
        self.entries.len() == 0
    }

    /// Stores `entity` at `pos`, after every stored entity not right of
    /// it. Storing an entity twice is a defect of the caller, so it is
    /// ruled out by the precondition.
    pub fn insert(&mut self, entity: u64, pos: Point)
        requires
            old(self).wf(),
            !old(self)@.contains_key(entity),
            pos.valid(),
        ensures
            final(self).wf(),
            final(self)@ == old(self)@.insert(entity, pos),
            final(self).stored() == sorted_insert(old(self).stored(), IndexEntry { entity, pos }),
    {
        let ghost s0 = self.entries@;
        let e = IndexEntry { entity, pos };
        proof {
            lemma_first_above(s0, pos.x, 0);
        }
        let mut k: usize = 0;
        while k < self.entries.len() && self.entries[k].pos.x <= pos.x
            invariant
                self.entries@ == s0,
                k <= s0.len(),
                first_above(s0, pos.x, 0) == first_above(s0, pos.x, k as int),
            decreases s0.len() - k,
        {
            k = k + 1;
        }
        proof {
            lemma_first_above(s0, pos.x, k as int);
            assert(!holds(s0, entity));
            lemma_insert_entry(s0, k as int, e);
        }
        self.entries.insert(k, e);
        let ghost s1 = self.entries@;
        assert(x_sorted(s1)) by {
            assert forall|i: int, j: int| 0 <= i <= j < s1.len() implies (#[trigger] s1[i]).pos.x
                <= (#[trigger] s1[j]).pos.x by {
                if i < k && j < k {
                    assert(s1[i] == s0[i] && s1[j] == s0[j]);
                } else if i < k && j == k {
                    assert(s1[i] == s0[i]);
                } else if i < k {
                    assert(s1[i] == s0[i] && s1[j] == s0[j - 1]);
                } else if i == k && j > k {
                    assert(s1[j] == s0[j - 1]);
                    assert(s0[k as int].pos.x > pos.x);
                } else if i > k {
                    assert(s1[i] == s0[i - 1] && s1[j] == s0[j - 1]);
                }
            }
        }
    }

    /// Takes `entity` out. Removing an absent entity is a defect of the
    /// caller, so it is ruled out by the precondition.
    pub fn remove(&mut self, entity: u64)
        requires
            old(self).wf(),
            old(self)@.contains_key(entity),
        ensures
            final(self).wf(),
            final(self)@ == old(self)@.remove(entity),
            0 <= slot(old(self).stored(), entity) < old(self).stored().len(),
            final(self).stored() == old(self).stored().remove(slot(old(self).stored(), entity)),
    {
        let ghost s0 = self.entries@;
        let i = match self.find(entity) {
            Some(i) => i,
            None => {
                proof {
                    assert(false);
                }
                return ;
            },
        };
        self.entries.remove(i);
        let ghost s1 = self.entries@;
        proof {
            lemma_slot(s0, i as int);
        }
        assert(forall|j: int| 0 <= j < i ==> s1[j] == s0[j]);
        assert(forall|j: int| i <= j < s1.len() ==> s1[j] == s0[j + 1]);
        assert(entries_wf(s1)) by {
            assert forall|a: int, b: int|
                0 <= a < s1.len() && 0 <= b < s1.len() && a != b implies #[trigger] s1[a].entity
                != #[trigger] s1[b].entity by {
                let a0 = if a < i {
                    a
                } else {
                    a + 1
                };
                let b0 = if b < i {
                    b
                } else {
                    b + 1
                };
                assert(s1[a] == s0[a0] && s1[b] == s0[b0]);
            }
            assert forall|a: int| 0 <= a < s1.len() implies (#[trigger] s1[a]).pos.valid() by {
                let a0 = if a < i {
                    a
                } else {
                    a + 1
                };
                assert(s1[a] == s0[a0]);
            }
        }
        assert(x_sorted(s1)) by {
            assert forall|a: int, b: int| 0 <= a <= b < s1.len() implies (#[trigger] s1[a]).pos.x
                <= (#[trigger] s1[b]).pos.x by {
                let a0 = if a < i { a } else { a + 1 };
                let b0 = if b < i { b } else { b + 1 };
                assert(s1[a] == s0[a0] && s1[b] == s0[b0]);
            }
        }
        let ghost target = entries_map(s0).remove(entity);
        assert forall|e: u64| #[trigger] entries_map(s1).contains_key(e) <==> target.contains_key(
            e,
        ) by {
            if holds(s1, e) {
                let a = choose|a: int| 0 <= a < s1.len() && (#[trigger] s1[a]).entity == e;
                let a0 = if a < i {
                    a
                } else {
                    a + 1
                };
                assert(s1[a] == s0[a0]);
                assert(holds(s0, e));
                assert(a0 != i);
            }
            if holds(s0, e) && e != entity {
                let a0 = choose|a: int| 0 <= a < s0.len() && (#[trigger] s0[a]).entity == e;
                let a = if a0 < i {
                    a0
                } else {
                    a0 - 1
                };
                assert(a0 != i);
                assert(s1[a] == s0[a0]);
            }
        }
        assert forall|e: u64| #[trigger] entries_map(s1).contains_key(e) implies entries_map(
            s1,
        )[e] == target[e] by {
            let a = choose|a: int| 0 <= a < s1.len() && (#[trigger] s1[a]).entity == e;
            let a0 = if a < i {
                a
            } else {
                a + 1
            };
            assert(s1[a] == s0[a0]);
            lemma_map_at(s1, a);
            lemma_map_at(s0, a0);
        }
        assert(entries_map(s1) =~= target);
    }

    /// Moves a stored entity to `pos`.
    pub fn update(&mut self, entity: u64, pos: Point)
        requires
            old(self).wf(),
            old(self)@.contains_key(entity),
            pos.valid(),
        ensures
            final(self).wf(),
            final(self)@ == old(self)@.insert(entity, pos),
    {
        let ghost m0 = self@;
        self.remove(entity);
        self.insert(entity, pos);
        assert(self@ =~= m0.insert(entity, pos));
    }

    /// The stored position of `entity`, if it is stored.
    pub fn get_pos(&self, entity: u64) -> (r: Option<Point>)
        requires
            self.wf(),
        ensures
            r == (if self@.contains_key(entity) {
                Some(self@[entity])
            } else {
                None
            }),
    {
        match self.find(entity) {
            Some(i) => {
                proof {
                    lemma_map_at(self.entries@, i as int);
                }
                Some(self.entries[i].pos)
            },
            None => None,
        }
    }

    fn best(&self, p: Point, skip: usize) -> (r: Option<usize>)
        requires
            self.wf(),
            p.valid(),
        ensures
            r matches Some(b) ==> b as int == best_upto(self.stored(), p, self.stored().len() as int, skip as int),
            r is None ==> best_upto(self.stored(), p, self.stored().len() as int, skip as int) < 0,
    {
        let mut best: Option<usize> = None;
        let mut best_d: u128 = 0;
        let mut i: usize = 0;
        while i < self.entries.len()
            invariant
                p.valid(),
                entries_wf(self.entries@),
                i <= self.entries@.len(),
                best matches Some(b) ==> b as int == best_upto(self.entries@, p, i as int, skip as int)
                    && best_d == dist_sq(self.entries@[b as int].pos, p),
                best is None ==> best_upto(self.entries@, p, i as int, skip as int) < 0,
            decreases self.entries@.len() - i,
        {
            proof {
                lemma_best_upto(self.entries@, p, i as int, skip as int);
            }
            if i != skip {
                let d = distance_sq(self.entries[i].pos, p);
                match best {
                    None => {
                        best = Some(i);
                        best_d = d;
                    },
                    Some(_) => {
                        if d < best_d {
                            best = Some(i);
                            best_d = d;
                        }
                    },
                }
            }
            i = i + 1;
        }
        best
    }

    proof fn lemma_hit(&self, p: Point, skip: int)
        requires
            self.wf(),
            self.stored().len() > 0,
            best_upto(self.stored(), p, self.stored().len() as int, skip) >= 0,
        ensures
            ({
                let b = best_upto(self.stored(), p, self.stored().len() as int, skip);
                &&& self@.contains_key(self.stored()[b].entity)
                &&& self@[self.stored()[b].entity] == self.stored()[b].pos
            }),
    {
        lemma_best_upto(self.entries@, p, self.entries@.len() as int, skip);
        lemma_map_at(self.entries@, best_upto(self.entries@, p, self.entries@.len() as int, skip));
    }

    /// The first stored index whose entry is not left of `x`; the length
    /// when there is none.
    fn lower_bound(&self, x: i128) -> (r: usize)
        requires
            self.wf(),
        ensures
            r <= self.stored().len(),
            forall|j: int| 0 <= j < r ==> ((#[trigger] self.stored()[j]).pos.x as int) < x,
            forall|j: int|
                r <= j < self.stored().len() ==> ((#[trigger] self.stored()[j]).pos.x as int) >= x,
    {
        let ghost s = self.entries@;
        let mut lo: usize = 0;
        let mut hi: usize = self.entries.len();
        while lo < hi
            invariant
                s == self.entries@,
                x_sorted(s),
                lo <= hi <= s.len(),
                forall|j: int| 0 <= j < lo ==> ((#[trigger] s[j]).pos.x as int) < x,
                forall|j: int| hi <= j < s.len() ==> ((#[trigger] s[j]).pos.x as int) >= x,
            decreases hi - lo,
        {
            let mid = lo + (hi - lo) / 2;
            if (self.entries[mid].pos.x as i128) < x {
                proof {
                    assert forall|j: int| 0 <= j < mid + 1 implies ((#[trigger] s[j]).pos.x as int) < x by {
                        assert(s[j].pos.x <= s[mid as int].pos.x);
                    }
                }
                lo = mid + 1;
            } else {
                proof {
                    assert forall|j: int| mid <= j < s.len() implies ((#[trigger] s[j]).pos.x as int) >= x by {
                        assert(s[mid as int].pos.x <= s[j].pos.x);
                    }
                }
                hi = mid;
            }
        }
        lo
    }

    /// The stored entity nearest to `p` with its squared distance; `None`
    /// exactly when nothing is stored. Among entities at the same least
    /// distance the one stored first (by x, then by insertion) is chosen, so
    /// repeated queries on an unchanged index agree.
    pub fn get_nearest(&self, p: Point) -> (r: Option<Hit>)
        requires
            self.wf(),
            p.valid(),
        ensures
            r == hit_of(self.stored(), p, -1),
            r is None <==> self@ == Map::<u64, Point>::empty(),
            r matches Some(h) ==> {
                &&& self@.contains_key(h.1)
                &&& h.0 == dist_sq(self@[h.1], p)
                &&& forall|e: u64| #[trigger]
                    self@.contains_key(e) ==> h.0 <= dist_sq(self@[e], p)
            },
    {
        let ghost s = self.entries@;
        let n = self.entries.len();
        let m = self.lower_bound(p.x as i128);
        let mut best: Option<usize> = None;
        let mut best_d: u128 = 0;
        // Entries right of the query, nearest in x first, until the gap in x
        // alone exceeds the best distance found.
        let mut right: usize = m;
        let mut pruned = false;
        while right < n && !pruned
            invariant
                self.wf(),
                p.valid(),
                s == self.entries@,
                n == s.len(),
                m <= right <= n,
                forall|j: int| 0 <= j < m ==> (#[trigger] s[j]).pos.x < p.x,
                forall|j: int| m <= j < n ==> (#[trigger] s[j]).pos.x >= p.x,
                best is None ==> right == m && !pruned,
                best matches Some(b) ==> m <= b < right && best_d == dist_sq(s[b as int].pos, p)
                    && forall|j: int| m <= j < right ==> #[trigger] lex_better(s, p, b as int, j),
                pruned ==> best is Some && forall|j: int|
                    right <= j < n ==> dist_sq(#[trigger] s[j].pos, p) > best_d,
            decreases n - right + (if pruned { 0int } else { 1int }),
        {
            let e = self.entries[right];
            let gap = length_sq(Point::new(e.pos.x - p.x, 0));
            if best.is_some() && gap > best_d {
                pruned = true;
                proof {
                    assert forall|j: int| right <= j < n implies dist_sq(#[trigger] s[j].pos, p)
                        > best_d by {
                        lemma_gap_x(s[right as int].pos, s[j].pos, p);
                    }
                }
            } else {
                let d = distance_sq(e.pos, p);
                let ghost old_best = best;
                let ghost old_d = best_d;
                if best.is_none() || d < best_d {
                    best = Some(right);
                    best_d = d;
                }
                proof {
                    let b = best.unwrap() as int;
                    assert forall|j: int| m <= j < right + 1 implies #[trigger] lex_better(s, p, b, j) by {
                        if j < right {
                            let ob = old_best.unwrap() as int;
                            assert(lex_better(s, p, ob, j));
                        }
                    }
                }
                right = right + 1;
            }
        }
        // Entries left of the query, nearest in x first, likewise.
        let mut left: usize = m;
        let mut pruned_left = false;
        while left > 0 && !pruned_left
            invariant
                self.wf(),
                p.valid(),
                s == self.entries@,
                n == s.len(),
                0 <= left <= m <= right <= n,
                forall|j: int| 0 <= j < m ==> (#[trigger] s[j]).pos.x < p.x,
                best is None ==> left == m && right == m && m == n && !pruned_left,
                best matches Some(b) ==> left <= b < right && best_d == dist_sq(s[b as int].pos, p)
                    && (forall|j: int| left <= j < right ==> #[trigger] lex_better(s, p, b as int, j))
                    && (forall|j: int| right <= j < n ==> dist_sq(#[trigger] s[j].pos, p) > best_d),
                pruned_left ==> best is Some && forall|j: int|
                    0 <= j < left ==> dist_sq(#[trigger] s[j].pos, p) > best_d,
            decreases left + (if pruned_left { 0int } else { 1int }),
        {
            let j = left - 1;
            let e = self.entries[j];
            let gap = length_sq(Point::new(p.x - e.pos.x, 0));
            if best.is_some() && gap > best_d {
                pruned_left = true;
                proof {
                    let a = s[j as int].pos.x - p.x;
                    assert((-a) * (-a) == a * a) by (nonlinear_arith);
                    assert forall|k: int| 0 <= k < left implies dist_sq(#[trigger] s[k].pos, p)
                        > best_d by {
                        assert(s[k].pos.x <= s[j as int].pos.x);
                        lemma_gap_x(s[j as int].pos, s[k].pos, p);
                    }
                }
            } else {
                let d = distance_sq(e.pos, p);
                let ghost old_best = best;
                let ghost old_d = best_d;
                if best.is_none() || d <= best_d {
                    best = Some(j);
                    best_d = d;
                }
                proof {
                    let b = best.unwrap() as int;
                    assert forall|k: int| j <= k < right implies #[trigger] lex_better(s, p, b, k) by {
                        if k > j {
                            let ob = old_best.unwrap() as int;
                            assert(lex_better(s, p, ob, k));
                        }
                    }
                }
                left = j;
            }
        }
        let r = match best {
            Some(b) => Some((best_d, self.entries[b].entity)),
            None => None,
        };
        proof {
            let n = s.len() as int;
            lemma_best_upto(s, p, n, -1);
            if let Some(b) = best {
                assert forall|j: int| 0 <= j < n implies lex_better(s, p, b as int, j) by {
                    if j < left {
                        assert(pruned_left);
                    } else if j >= right {
                    }
                }
                lemma_lex_best(s, p, b as int);
                lemma_dist_sq_bounds(s[b as int].pos, p);
            }
            if s.len() > 0 {
                lemma_map_at(s, 0);
                assert(!(self@ =~= Map::<u64, Point>::empty()) || !self@.contains_key(s[0].entity));
                self.lemma_hit(p, -1);
                let b = best_upto(s, p, n, -1);
                assert forall|e: u64| #[trigger] self@.contains_key(e) implies dist_sq(s[b].pos, p)
                    <= dist_sq(self@[e], p) by {
                    let j = choose|j: int| 0 <= j < s.len() && (#[trigger] s[j]).entity == e;
                    lemma_map_at(s, j);
                }
            } else {
                assert(self@ =~= Map::<u64, Point>::empty());
            }
        }
        r
    }

    /// The entity that comes second when the stored entities are ordered by
    /// distance to `p` (ties by storage order); `None` when fewer than two
    /// are stored. Used to look past an entity that is itself stored at `p`.
    pub fn get_second_nearest(&self, p: Point) -> (r: Option<Hit>)
        requires
            self.wf(),
            p.valid(),
        ensures
            r == hit_of(self.stored(), p, best_upto(self.stored(), p, self.stored().len() as int, -1)),
            r matches Some(h) ==> {
                &&& self@.contains_key(h.1)
                &&& h.0 == dist_sq(self@[h.1], p)
            },
    {
        let len = self.entries.len();
        let first = match self.best(p, usize::MAX) {
            Some(b) => b,
            None => {
                proof {
                    lemma_best_upto(self.entries@, p, self.entries@.len() as int, usize::MAX as int);
                    lemma_best_upto(self.entries@, p, self.entries@.len() as int, -1);
                    lemma_best_upto(self.entries@, p, self.entries@.len() as int, best_upto(self.entries@, p, self.entries@.len() as int, -1));
                }
                return None;
            },
        };
        proof {
            lemma_best_upto_skip_absent(self.entries@, p, self.entries@.len() as int, usize::MAX as int, -1);
        }
        let r = match self.best(p, first) {
            Some(b) => {
                proof {
                    lemma_best_upto(self.entries@, p, self.entries@.len() as int, first as int);
                    self.lemma_hit(p, first as int);
                }
                Some((distance_sq(self.entries[b].pos, p), self.entries[b].entity))
            },
            None => None,
        };
        r
    }

    /// Every stored entity within distance `radius` of `p` (boundary
    /// included), each once, with its squared distance, nearest first;
    /// entities at equal distance come in storage order (by x).
    pub fn get_in_radius(&self, p: Point, radius: u64) -> (r: Vec<Hit>)
        requires
            self.wf(),
            p.valid(),
        ensures
            r@.len() == within_upto(
                self.stored(),
                p,
                radius as int * radius as int,
                self.stored().len() as int,
            ).len(),
            sorted_from(
                r@,
                within_upto(
                    self.stored(),
                    p,
                    radius as int * radius as int,
                    self.stored().len() as int,
                ),
            ),
            forall|e: u64|
                (exists|k: int| 0 <= k < r@.len() && (#[trigger] r@[k]).1 == e) <==> (
                self@.contains_key(e) && dist_sq(self@[e], p) <= radius as int * radius as int),
            forall|k: int|
                0 <= k < r@.len() ==> (#[trigger] r@[k]).0 == dist_sq(self@[r@[k].1], p),
            forall|k1: int, k2: int|
                0 <= k1 < r@.len() && 0 <= k2 < r@.len() && k1 != k2 ==> (#[trigger] r@[k1]).1
                    != (#[trigger] r@[k2]).1,
    {
        assert(radius as u128 * radius as u128 <= 0xffff_ffff_ffff_ffff * 0xffff_ffff_ffff_ffff)
            by (nonlinear_arith)
            requires
                radius <= 0xffff_ffff_ffff_ffffu64,
        ;
        let r2: u128 = radius as u128 * radius as u128;
        let ghost r2i = radius as int * radius as int;
        // Only entries whose x lies within `radius` of the query can match.
        let lo = self.lower_bound(p.x as i128 - radius as i128);
        let top: i128 = p.x as i128 + radius as i128;
        let ghost s = self.entries@;
        proof {
            assert forall|j: int| 0 <= j < lo implies dist_sq(#[trigger] s[j].pos, p) > r2i by {
                lemma_far_in_x(s[j].pos, p, radius as int);
            }
            lemma_within_skip(s, p, r2i, 0, lo as int);
        }
        let mut out: Vec<Hit> = Vec::new();
        let mut i: usize = lo;
        while i < self.entries.len() && (self.entries[i].pos.x as i128) <= top
            invariant
                self.wf(),
                p.valid(),
                s == self.entries@,
                entries_wf(s),
                r2 == r2i,
                lo <= i <= s.len(),
                out@ == within_upto(s, p, r2i, i as int),
            decreases s.len() - i,
        {
            let d = distance_sq(self.entries[i].pos, p);
            if d <= r2 {
                out.push((d, self.entries[i].entity));
            }
            i = i + 1;
        }
        proof {
            if i < s.len() {
                assert forall|j: int| i <= j < s.len() implies dist_sq(#[trigger] s[j].pos, p) > r2i by {
                    assert(s[i as int].pos.x <= s[j].pos.x);
                    lemma_far_in_x(s[j].pos, p, radius as int);
                }
                lemma_within_skip(s, p, r2i, i as int, s.len() as int);
            }
        }
        proof {
            let s = self.entries@;
            lemma_within_sound(s, p, r2i, s.len() as int);
            lemma_within_complete(s, p, r2i, s.len() as int);
            lemma_within_distinct(s, p, r2i, s.len() as int);
            assert forall|e: u64|
                (exists|k: int| 0 <= k < out@.len() && (#[trigger] out@[k]).1 == e) <==> (
                self@.contains_key(e) && dist_sq(self@[e], p) <= r2i) by {
                if exists|k: int| 0 <= k < out@.len() && (#[trigger] out@[k]).1 == e {
                    let k = choose|k: int| 0 <= k < out@.len() && (#[trigger] out@[k]).1 == e;
                    let j = choose|j: int|
                        0 <= j < s.len() && out@[k].1 == (#[trigger] s[j]).entity && out@[k].0
                            == dist_sq(s[j].pos, p) && dist_sq(s[j].pos, p) <= r2i;
                    lemma_map_at(s, j);
                }
                if self@.contains_key(e) && dist_sq(self@[e], p) <= r2i {
                    let j = choose|j: int| 0 <= j < s.len() && (#[trigger] s[j]).entity == e;
                    lemma_map_at(s, j);
                    assert(dist_sq(s[j].pos, p) <= r2i);
                }
            }
            assert forall|k: int| 0 <= k < out@.len() implies (#[trigger] out@[k]).0 == dist_sq(
                self@[out@[k].1],
                p,
            ) by {
                let j = choose|j: int|
                    0 <= j < s.len() && out@[k].1 == (#[trigger] s[j]).entity && out@[k].0
                        == dist_sq(s[j].pos, p) && dist_sq(s[j].pos, p) <= r2i;
                lemma_map_at(s, j);
            }
        }
        let r = sort_hits(&out);
        proof {
            lemma_sorted_same_hits(r@, out@, self@, p, r2i);
        }
        r
    }
}

/// Reordering hits keeps which entities are reported, their distances, and
/// their distinctness.
proof fn lemma_sorted_same_hits(r: Seq<Hit>, w: Seq<Hit>, view: Map<u64, Point>, p: Point, r2: int)
    requires
        sorted_from(r, w),
        forall|e: u64|
            (exists|k: int| 0 <= k < w.len() && (#[trigger] w[k]).1 == e) <==> (view.contains_key(e)
                && dist_sq(view[e], p) <= r2),
        forall|k: int| 0 <= k < w.len() ==> (#[trigger] w[k]).0 == dist_sq(view[w[k].1], p),
        forall|k1: int, k2: int|
            0 <= k1 < w.len() && 0 <= k2 < w.len() && k1 != k2 ==> (#[trigger] w[k1]).1
                != (#[trigger] w[k2]).1,
    ensures
        forall|e: u64|
            (exists|k: int| 0 <= k < r.len() && (#[trigger] r[k]).1 == e) <==> (view.contains_key(e)
                && dist_sq(view[e], p) <= r2),
        forall|k: int| 0 <= k < r.len() ==> (#[trigger] r[k]).0 == dist_sq(view[r[k].1], p),
        forall|k1: int, k2: int|
            0 <= k1 < r.len() && 0 <= k2 < r.len() && k1 != k2 ==> (#[trigger] r[k1]).1
                != (#[trigger] r[k2]).1,
{
    let (ix, at) = choose|ix: Seq<int>, at: Seq<int>| sorted_by(r, w, ix, at);
    assert forall|e: u64|
        (exists|k: int| 0 <= k < r.len() && (#[trigger] r[k]).1 == e) <==> (view.contains_key(e)
            && dist_sq(view[e], p) <= r2) by {
        if exists|k: int| 0 <= k < r.len() && (#[trigger] r[k]).1 == e {
            let k = choose|k: int| 0 <= k < r.len() && (#[trigger] r[k]).1 == e;
            assert(w[ix[k]].1 == e);
        }
        if view.contains_key(e) && dist_sq(view[e], p) <= r2 {
            let m = choose|m: int| 0 <= m < w.len() && (#[trigger] w[m]).1 == e;
            let k = at[m];
            assert(r[k].1 == e);
        }
    }
    assert forall|k: int| 0 <= k < r.len() implies (#[trigger] r[k]).0 == dist_sq(view[r[k].1], p) by {
        assert(r[k] == w[ix[k]]);
    }
    assert forall|k1: int, k2: int|
        0 <= k1 < r.len() && 0 <= k2 < r.len() && k1 != k2 implies (#[trigger] r[k1]).1
        != (#[trigger] r[k2]).1 by {
        assert(r[k1] == w[ix[k1]] && r[k2] == w[ix[k2]]);
        assert(at[ix[k1]] == k1 || ix[at[ix[k1]]] == ix[k1]);
        if ix[k1] == ix[k2] {
            assert(r[k1] == r[k2]);
            if k1 < k2 {
                assert(r[k1].0 < r[k2].0 || ix[k1] < ix[k2]);
            } else {
                assert(r[k2].0 < r[k1].0 || ix[k2] < ix[k1]);
            }
        }
    }
}

/// `ix` places each hit of `r` at its index in `w`, `at` is its inverse, so
/// every index of `w` is used once, and `r` runs nearest first, ties in the
/// order of `w`.
pub open spec fn sorted_by(r: Seq<Hit>, w: Seq<Hit>, ix: Seq<int>, at: Seq<int>) -> bool {
    &&& r.len() == w.len()
    &&& ix.len() == r.len()
    &&& at.len() == w.len()
    &&& forall|k: int| 0 <= k < r.len() ==> 0 <= #[trigger] ix[k] < w.len() && r[k] == w[ix[k]]
    &&& forall|m: int| 0 <= m < w.len() ==> 0 <= #[trigger] at[m] < r.len() && ix[at[m]] == m
    &&& forall|k1: int, k2: int|
        0 <= k1 < k2 < r.len() ==> (#[trigger] r[k1]).0 < (#[trigger] r[k2]).0 || (r[k1].0
            == r[k2].0 && ix[k1] < ix[k2])
}

/// `r` holds the hits of `w` ordered by distance, ties keeping the order of
/// `w`.
pub open spec fn sorted_from(r: Seq<Hit>, w: Seq<Hit>) -> bool {
    exists|ix: Seq<int>, at: Seq<int>| sorted_by(r, w, ix, at)
}

/// The hits of `w` ordered by distance, ties keeping their order in `w`.
pub fn sort_hits(w: &Vec<Hit>) -> (r: Vec<Hit>)
    ensures
        sorted_from(r@, w@),
{
    let mut r: Vec<Hit> = Vec::new();
    let ghost mut ix: Seq<int> = Seq::empty();
    let ghost mut at: Seq<int> = Seq::empty();
    let mut i: usize = 0;
    while i < w.len()
        invariant
            i <= w@.len(),
            r@.len() == i,
            ix.len() == i,
            forall|k: int| 0 <= k < i ==> 0 <= #[trigger] ix[k] < i && r@[k] == w@[ix[k]],
            at.len() == i,
            forall|m: int| 0 <= m < i ==> 0 <= #[trigger] at[m] < i && ix[at[m]] == m,
            forall|k1: int, k2: int|
                0 <= k1 < k2 < i ==> (#[trigger] r@[k1]).0 < (#[trigger] r@[k2]).0 || (r@[k1].0
                    == r@[k2].0 && ix[k1] < ix[k2]),
        decreases w@.len() - i,
    {
        let x = w[i];
        let mut q: usize = 0;
        while q < r.len() && r[q].0 <= x.0
            invariant
                q <= r@.len(),
                forall|k: int| 0 <= k < q ==> (#[trigger] r@[k]).0 <= x.0,
            decreases r@.len() - q,
        {
            q = q + 1;
        }
        let ghost r0 = r@;
        let ghost ix0 = ix;
        proof {
            assert forall|k: int| q <= k < r0.len() implies (#[trigger] r0[k]).0 > x.0 by {
                if k > q {
                    assert(r0[q as int].0 <= r0[k].0);
                }
            }
        }
        r.insert(q, x);
        proof {
            ix = ix0.insert(q as int, i as int);
            let r1 = r@;
            assert(forall|k: int| 0 <= k < q ==> r1[k] == r0[k] && ix[k] == ix0[k]);
            assert(forall|k: int| q < k <= i ==> r1[k] == r0[k - 1] && ix[k] == ix0[k - 1]);
            assert(r1[q as int] == x && ix[q as int] == i);
            assert forall|k: int| 0 <= k < i + 1 implies 0 <= #[trigger] ix[k] < i + 1 && r1[k]
                == w@[ix[k]] by {
                if k < q {
                    assert(ix[k] == ix0[k]);
                } else if k > q {
                    assert(ix[k] == ix0[k - 1]);
                }
            }
            let at0 = at;
            at = Seq::new((i + 1) as nat, |m: int| if m == i {
                q as int
            } else if at0[m] >= q {
                at0[m] + 1
            } else {
                at0[m]
            });
            assert forall|m: int| 0 <= m < i + 1 implies 0 <= #[trigger] at[m] < i + 1 && ix[at[m]]
                == m by {
                if m < i {
                    let k0 = at0[m];
                    assert(ix0[k0] == m);
                    if k0 < q {
                        assert(ix[k0] == ix0[k0]);
                    } else {
                        assert(ix[k0 + 1] == ix0[k0]);
                    }
                }
            }
            assert forall|k1: int, k2: int|
                0 <= k1 < k2 < i + 1 implies (#[trigger] r1[k1]).0 < (#[trigger] r1[k2]).0 || (
                r1[k1].0 == r1[k2].0 && ix[k1] < ix[k2]) by {
                let a = if k1 < q { k1 } else { k1 - 1 };
                let b = if k2 < q { k2 } else { k2 - 1 };
                if k1 == q {
                    assert(r1[k2] == r0[b] && ix[k2] == ix0[b]);
                } else if k2 == q {
                    assert(r1[k1] == r0[a] && ix[k1] == ix0[a]);
                } else {
                    assert(r1[k1] == r0[a] && ix[k1] == ix0[a]);
                    assert(r1[k2] == r0[b] && ix[k2] == ix0[b]);
                }
            }
        }
        i = i + 1;
    }
    proof {
        assert(sorted_by(r@, w@, ix, at));
    }
    r
}

/// Properties of `best_upto` for callers outside this module.
pub proof fn lemma_best_upto_pub(s: Seq<IndexEntry>, p: Point, n: int, skip: int)
    requires
        0 <= n <= s.len(),
    ensures
        best_upto(s, p, n, skip) < n,
        best_upto(s, p, n, skip) >= 0 ==> best_upto(s, p, n, skip) != skip,
        best_upto(s, p, n, skip) < 0 <==> (n == 0 || (n == 1 && skip == 0)),
        best_upto(s, p, n, skip) >= 0 ==> forall|j: int|
            0 <= j < n && j != skip ==> dist_sq(s[best_upto(s, p, n, skip)].pos, p) <= dist_sq(
                #[trigger] s[j].pos,
                p,
            ),
{
    lemma_best_upto(s, p, n, skip);
}

proof fn lemma_best_upto_skip_absent(s: Seq<IndexEntry>, p: Point, n: int, a: int, b: int)
    requires
        0 <= n <= s.len(),
        a < 0 || a >= n,
        b < 0 || b >= n,
    ensures
        best_upto(s, p, n, a) == best_upto(s, p, n, b),
    decreases n,
{
    if n > 0 {
        lemma_best_upto_skip_absent(s, p, n - 1, a, b);
    }
}

} // verus!
