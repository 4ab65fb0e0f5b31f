//! The spatial index, rebuilt from the full point set each tick. A
//! radius query returns exactly the points within the cutoff, and a
//! bounded k-nearest query returns the k truly closest points within
//! the cutoff, sorted by distance.
use crate::num::{absi, is_sqrt, isqrt, lemma_sqrt_monotone, sqrt_of};
use crate::vec2::{dist2, v2_bounded, Vec2, V2};
use crate::POS_LIMIT;
use vstd::prelude::*;

verus! {

/// One indexed point: a stable identity and its position this tick.
#[derive(Clone, Copy, PartialEq, Eq, Structural, Debug)]
pub struct IdPoint {
    pub id: u64,
    pub pos: Vec2,
}

/// One query answer: a point's identity and its Euclidean distance from
/// the query centre, rounded down to raw units.
#[derive(Clone, Copy, PartialEq, Eq, Structural, Debug)]
pub struct Neighbor {
    pub id: u64,
    pub dist: i64,
}

/// Squared distance from a point to a query centre.
pub open spec fn pd2(p: IdPoint, c: V2) -> int {
    dist2(p.pos@, c)
}

/// The point lies within the query radius.
pub open spec fn within(p: IdPoint, c: V2, rad: int) -> bool {
    pd2(p, c) <= rad * rad
}

/// All identities in a point sequence are distinct.
pub open spec fn ids_distinct(pts: Seq<IdPoint>) -> bool {
    forall|i: int, j: int|
        0 <= i < j < pts.len() ==> (#[trigger] pts[i]).id != (#[trigger] pts[j]).id
}

/// All positions in a point sequence stay inside the world box.
pub open spec fn pts_bounded(pts: Seq<IdPoint>) -> bool {
    forall|i: int| 0 <= i < pts.len() ==> v2_bounded((#[trigger] pts[i]).pos@, POS_LIMIT as int)
}

/// A well-formed index input: distinct identities, bounded positions.
pub open spec fn pts_ok(pts: Seq<IdPoint>) -> bool {
    ids_distinct(pts) && pts_bounded(pts)
}

/// Some answer in `r` carries identity `id`.
pub open spec fn has_id(r: Seq<Neighbor>, id: u64) -> bool {
    exists|m: int| 0 <= m < r.len() && (#[trigger] r[m]).id == id
}

/// Some selected pair in `s` carries identity `id`.
pub open spec fn has_id2(s: Seq<(u64, u128)>, id: u64) -> bool {
    exists|m: int| 0 <= m < s.len() && (#[trigger] s[m]).0 == id
}

/// The selected pairs are sorted by squared distance.
pub open spec fn sorted2(s: Seq<(u64, u128)>) -> bool {
    forall|m1: int, m2: int|
        0 <= m1 <= m2 < s.len() ==> (#[trigger] s[m1]).1 <= (#[trigger] s[m2]).1
}

/// What the radius query returns: the points within the cutoff, in
/// insertion order, each with its rounded Euclidean distance.
pub open spec fn radius_spec(pts: Seq<IdPoint>, c: V2, rad: int) -> Seq<Neighbor>
    decreases pts.len(),
{
    if pts.len() == 0 {
        Seq::empty()
    } else {
        let prefix = radius_spec(pts.drop_last(), c, rad);
        let p = pts.last();
        if pd2(p, c) <= rad * rad {
            prefix.push(Neighbor { id: p.id, dist: sqrt_of(pd2(p, c)) as i64 })
        } else {
            prefix
        }
    }
}

/// Where a new squared distance belongs in a sorted selection: after
/// every entry at most as far.
pub open spec fn ins_pos(s: Seq<(u64, u128)>, d: u128) -> int
    decreases s.len(),
{
    if s.len() == 0 {
        0
    } else if s[0].1 <= d {
        1 + ins_pos(s.drop_first(), d)
    } else {
        0
    }
}

/// Insert a pair into a sorted selection, keeping at most `k` entries.
pub open spec fn knn_insert(s: Seq<(u64, u128)>, id: u64, d: u128, k: int) -> Seq<(u64, u128)> {
    let t = s.insert(ins_pos(s, d), (id, d));
    if t.len() > k {
        t.drop_last()
    } else {
        t
    }
}

/// Fold one point into the running selection.
pub open spec fn knn_step(s: Seq<(u64, u128)>, p: IdPoint, c: V2, rad: int, k: int) -> Seq<
    (u64, u128),
> {
    let d = pd2(p, c) as u128;
    if pd2(p, c) <= rad * rad {
        if s.len() < k {
            knn_insert(s, p.id, d, k)
        } else if k > 0 && d < s[s.len() - 1].1 {
            knn_insert(s, p.id, d, k)
        } else {
            s
        }
    } else {
        s
    }
}

/// The selection after folding every point, in insertion order.
pub open spec fn knn_fold(pts: Seq<IdPoint>, c: V2, rad: int, k: int) -> Seq<(u64, u128)>
    decreases pts.len(),
{
    if pts.len() == 0 {
        Seq::empty()
    } else {
        knn_step(knn_fold(pts.drop_last(), c, rad, k), pts.last(), c, rad, k)
    }
}

/// What the k-nearest query returns: the folded selection, with each
/// squared distance rounded down to a Euclidean distance.
pub open spec fn knn_spec(pts: Seq<IdPoint>, c: V2, rad: int, k: int) -> Seq<Neighbor> {
    let s = knn_fold(pts, c, rad, k);
    Seq::new(s.len(), |m: int| Neighbor { id: s[m].0, dist: sqrt_of(s[m].1 as int) as i64 })
}

/// The rebuildable spatial index over one tick's point set.
pub struct SpatialIndex {
    pub points: Vec<IdPoint>,
}

impl View for SpatialIndex {
    type V = Seq<IdPoint>;

    open spec fn view(&self) -> Seq<IdPoint> {
        self.points@
    }
}

/// A squared distance between bounded points is nonnegative and small
/// enough for every cast the queries make.
pub proof fn lemma_pd2_bounds(p: IdPoint, c: V2)
    requires
        v2_bounded(p.pos@, POS_LIMIT as int),
        v2_bounded(c, POS_LIMIT as int),
    ensures
        0 <= pd2(p, c) <= 8_000_000_000_000_000_000,
{
    let d = crate::vec2::v2_sub(p.pos@, c);
    assert(0 <= d.x * d.x + d.y * d.y <= 8_000_000_000_000_000_000) by (nonlinear_arith)
        requires
            absi(d.x) <= 2_000_000_000,
            absi(d.y) <= 2_000_000_000,
    ;
}

/// An integer square root of a bounded squared distance fits an `i64`.
pub proof fn lemma_sqrt_small(n: int, r: int)
    requires
        is_sqrt(n, r),
        n <= 8_000_000_000_000_000_000,
    ensures
        0 <= r <= 3_000_000_000,
{
    assert(r <= 3_000_000_000) by (nonlinear_arith)
        requires
            0 <= r,
            r * r <= n,
            n <= 8_000_000_000_000_000_000,
    ;
}

/// Characterization of the insertion position in a sorted selection:
/// everything before it is at most `d`, everything from it on is
/// greater.
pub proof fn lemma_ins_pos_props(s: Seq<(u64, u128)>, d: u128)
    requires
        sorted2(s),
    ensures
        0 <= ins_pos(s, d) <= s.len(),
        forall|t: int| 0 <= t < ins_pos(s, d) ==> (#[trigger] s[t]).1 <= d,
        forall|t: int| ins_pos(s, d) <= t < s.len() ==> (#[trigger] s[t]).1 > d,
    decreases s.len(),
{
    if s.len() == 0 {
    } else if s[0].1 <= d {
        let tail = s.drop_first();
        assert(forall|m1: int, m2: int|
            0 <= m1 <= m2 < tail.len() ==> (#[trigger] tail[m1]).1 <= (#[trigger] tail[m2]).1)
            by {
            assert(forall|m: int| 0 <= m < tail.len() ==> (#[trigger] tail[m]) == s[m + 1]);
        }
        lemma_ins_pos_props(tail, d);
        assert(forall|t: int| 0 <= t < tail.len() ==> (#[trigger] tail[t]) == s[t + 1]);
        assert(ins_pos(s, d) == 1 + ins_pos(tail, d));
        assert forall|t: int| 0 <= t < ins_pos(s, d) implies (#[trigger] s[t]).1 <= d by {
            if t > 0 {
                assert(tail[t - 1].1 <= d);
                assert(s[t] == tail[t - 1]);
            }
        }
        assert forall|t: int| ins_pos(s, d) <= t < s.len() implies (#[trigger] s[t]).1 > d by {
            assert(tail[t - 1].1 > d);
            assert(s[t] == tail[t - 1]);
        }
    } else {
        assert(forall|t: int| 0 <= t < s.len() ==> s[0].1 <= (#[trigger] s[t]).1);
    }
}

impl SpatialIndex {
    /// An empty index.
    pub fn new() -> (idx: SpatialIndex)
        ensures
            idx@ == Seq::<IdPoint>::empty(),
    {
        SpatialIndex { points: Vec::new() }
    }

    /// Discard the previous content and hold exactly the given points.
    pub fn rebuild(&mut self, pts: Vec<IdPoint>)
        ensures
            final(self)@ == pts@,
    {
        self.points = pts;
    }

    /// Every point within `radius` of `center`, in insertion order, each
    /// with its Euclidean distance: exactly the points whose true
    /// squared distance is at most the radius squared.
    pub fn query_radius_unsorted(&self, center: Vec2, radius: i64) -> (res: Vec<Neighbor>)
        requires
            pts_ok(self@),
            v2_bounded(center@, POS_LIMIT as int),
            0 <= radius <= 2_000_000_000,
        ensures
            res@ == radius_spec(self@, center@, radius as int),
            res@.len() <= self@.len(),
            forall|j: int|
                #![trigger self@[j]]
                0 <= j < self@.len() ==> (within(self@[j], center@, radius as int) <==> has_id(
                    res@,
                    self@[j].id,
                )),
            forall|m: int|
                #![trigger res@[m]]
                0 <= m < res@.len() ==> exists|j: int|
                    0 <= j < self@.len() && res@[m].id == (#[trigger] self@[j]).id && within(
                        self@[j],
                        center@,
                        radius as int,
                    ) && res@[m].dist == sqrt_of(pd2(self@[j], center@)),
    {
        proof {
            assert((radius as int) * (radius as int) <= 4_000_000_000_000_000_000)
                by (nonlinear_arith)
                requires
                    0 <= radius <= 2_000_000_000,
            ;
        }
        let rsq: u128 = (radius as u128) * (radius as u128);
        let mut res: Vec<Neighbor> = Vec::new();
        let ghost mut wit: Seq<int> = Seq::empty();
        let mut i: usize = 0;
        while i < self.points.len()
            invariant
                pts_ok(self@),
                v2_bounded(center@, POS_LIMIT as int),
                0 <= radius <= 2_000_000_000,
                rsq as int == (radius as int) * (radius as int),
                0 <= i <= self@.len(),
                res@ == radius_spec(self@.take(i as int), center@, radius as int),
                res@.len() <= i,
                wit.len() == res@.len(),
                forall|j: int|
                    #![trigger self@[j]]
                    0 <= j < i ==> (within(self@[j], center@, radius as int) <==> has_id(
                        res@,
                        self@[j].id,
                    )),
                forall|m: int|
                    #![trigger res@[m]]
                    #![trigger wit[m]]
                    0 <= m < res@.len() ==> 0 <= wit[m] < i && res@[m].id == self@[wit[m]].id
                        && within(self@[wit[m]], center@, radius as int) && res@[m].dist
                        == sqrt_of(pd2(self@[wit[m]], center@)),
            decreases self@.len() - i,
        {
            let ghost old_res = res@;
            let ghost old_wit = wit;
            let ghost ii = i as int;
            let p = self.points[i];
            let diff = p.pos.sub(center);
            let dd: u128 = diff.len2();
            proof {
                lemma_pd2_bounds(p, center@);
                assert(self@.take(ii + 1).drop_last() =~= self@.take(ii));
                assert(self@.take(ii + 1).last() == self@[ii]);
                assert(dd as int == pd2(self@[ii], center@));
                // No earlier answer can carry this point's identity.
                assert forall|m: int| 0 <= m < old_res.len() implies (#[trigger] old_res[m]).id
                    != p.id by {
                    assert(old_res[m] == res@[m]);
                    assert(0 <= wit[m] < ii && res@[m].id == self@[wit[m]].id);
                    assert(self@[wit[m]].id != self@[ii].id);
                    assert(old_res[m].id == res@[m].id);
                }
            }
            if dd <= rsq {
                let l = isqrt(dd);
                proof {
                    lemma_sqrt_small(dd as int, l as int);
                }
                res.push(Neighbor { id: p.id, dist: l as i64 });
                proof {
                    let nb = Neighbor { id: p.id, dist: l as i64 };
                    assert(res@ == old_res.push(nb));
                    wit = wit.push(ii);
                    assert(has_id(res@, p.id)) by {
                        assert(res@[res@.len() - 1].id == p.id);
                    }
                    assert forall|j: int| 0 <= j < ii + 1 implies (within(
                        #[trigger] self@[j],
                        center@,
                        radius as int,
                    ) <==> has_id(res@, self@[j].id)) by {
                        if j < ii {
                            if within(self@[j], center@, radius as int) {
                                assert(has_id(old_res, self@[j].id));
                                let m = choose|m: int|
                                    0 <= m < old_res.len() && (#[trigger] old_res[m]).id == self@[
                                        j].id;
                                assert(res@[m].id == self@[j].id);
                                assert(has_id(res@, self@[j].id));
                            } else {
                                assert(!has_id(old_res, self@[j].id));
                                assert forall|m: int| 0 <= m < res@.len() implies (
                                #[trigger] res@[m]).id != self@[j].id by {
                                    if m < old_res.len() {
                                        assert(res@[m] == old_res[m]);
                                    } else {
                                        assert(res@[m].id == p.id);
                                        assert(self@[j].id != self@[ii].id);
                                    }
                                }
                                assert(!has_id(res@, self@[j].id));
                            }
                        } else {
                            assert(within(self@[j], center@, radius as int));
                        }
                    }
                    assert(l as int == sqrt_of(pd2(self@[ii], center@)));
                    assert forall|m: int|
                        #![trigger res@[m]]
                        #![trigger wit[m]]
                    0 <= m < res@.len() implies 0 <= wit[m] < ii + 1 && res@[m].id == self@[wit[
                        m]].id && within(self@[wit[m]], center@, radius as int) && res@[m].dist
                        == sqrt_of(pd2(self@[wit[m]], center@)) by {
                        if m < old_res.len() {
                            assert(res@[m] == old_res[m]);
                            assert(wit[m] == old_wit[m]);
                            assert(0 <= old_wit[m] < ii && old_res[m].id == self@[old_wit[m]].id
                                && within(self@[old_wit[m]], center@, radius as int)
                                && old_res[m].dist == sqrt_of(pd2(self@[old_wit[m]], center@)));
                        } else {
                            assert(res@[m] == nb);
                            assert(wit[m] == ii);
                        }
                    }
                }
            } else {
                proof {
                    assert(!within(self@[ii], center@, radius as int));
                    assert forall|m: int| 0 <= m < res@.len() implies (#[trigger] res@[m]).id
                        != self@[ii].id by {
                        assert(old_res[m].id != p.id);
                    }
                    assert(!has_id(res@, self@[ii].id));
                    assert forall|j: int| 0 <= j < ii + 1 implies (within(
                        #[trigger] self@[j],
                        center@,
                        radius as int,
                    ) <==> has_id(res@, self@[j].id)) by {
                        if j == ii {
                            assert(!has_id(res@, self@[j].id));
                        }
                    }
                    assert forall|m: int|
                        #![trigger res@[m]]
                        #![trigger wit[m]]
                    0 <= m < res@.len() implies 0 <= wit[m] < ii + 1 && res@[m].id == self@[wit[
                        m]].id && within(self@[wit[m]], center@, radius as int) && res@[m].dist
                        == sqrt_of(pd2(self@[wit[m]], center@)) by {
                        assert(res@[m] == old_res[m]);
                        assert(wit[m] == old_wit[m]);
                        assert(0 <= old_wit[m] < ii && old_res[m].id == self@[old_wit[m]].id
                            && within(self@[old_wit[m]], center@, radius as int)
                            && old_res[m].dist == sqrt_of(pd2(self@[old_wit[m]], center@)));
                    }
                }
            }
            i = i + 1;
        }
        proof {
            assert(self@.take(self@.len() as int) =~= self@);
            assert forall|m: int| #![trigger res@[m]] 0 <= m < res@.len() implies exists|j: int|
                0 <= j < self@.len() && res@[m].id == (#[trigger] self@[j]).id && within(
                    self@[j],
                    center@,
                    radius as int,
                ) && res@[m].dist == sqrt_of(pd2(self@[j], center@)) by {
                let j = wit[m];
                assert(0 <= j < self@.len() && res@[m].id == self@[j].id && within(
                    self@[j],
                    center@,
                    radius as int,
                ) && res@[m].dist == sqrt_of(pd2(self@[j], center@)));
            }
        }
        res
    }

    /// At most `k` points within `radius` of `center`, sorted ascending
    /// by distance: the k truly closest, whenever at least k points lie
    /// within the radius. The `sorted` flag is the caller's licence for
    /// an unsorted answer; this index returns the sorted one either way.
    #[verifier::rlimit(100)]
    pub fn query_k_nearest_within(&self, center: Vec2, radius: i64, k: usize, sorted: bool) -> (res:
        Vec<Neighbor>)
        requires
            pts_ok(self@),
            v2_bounded(center@, POS_LIMIT as int),
            0 <= radius <= 2_000_000_000,
        ensures
            res@ == knn_spec(self@, center@, radius as int, k as int),
            res@.len() <= k,
            forall|m1: int, m2: int|
                0 <= m1 <= m2 < res@.len() ==> (#[trigger] res@[m1]).dist <= (
                #[trigger] res@[m2]).dist,
            forall|m: int|
                #![trigger res@[m]]
                0 <= m < res@.len() ==> exists|j: int|
                    0 <= j < self@.len() && res@[m].id == (#[trigger] self@[j]).id && within(
                        self@[j],
                        center@,
                        radius as int,
                    ) && res@[m].dist == sqrt_of(pd2(self@[j], center@)),
            forall|j: int|
                #![trigger self@[j]]
                0 <= j < self@.len() && within(self@[j], center@, radius as int) && !has_id(
                    res@,
                    self@[j].id,
                ) ==> res@.len() == k,
            forall|j: int, m: int, jm: int|
                #![trigger self@[j], res@[m], self@[jm]]
                0 <= j < self@.len() && within(self@[j], center@, radius as int) && !has_id(
                    res@,
                    self@[j].id,
                ) && 0 <= m < res@.len() && 0 <= jm < self@.len() && self@[jm].id == res@[m].id
                    ==> pd2(self@[jm], center@) <= pd2(self@[j], center@),
    {
        proof {
            assert((radius as int) * (radius as int) <= 4_000_000_000_000_000_000)
                by (nonlinear_arith)
                requires
                    0 <= radius <= 2_000_000_000,
            ;
        }
        let rsq: u128 = (radius as u128) * (radius as u128);
        let mut best: Vec<(u64, u128)> = Vec::new();
        let ghost mut bwit: Seq<int> = Seq::empty();
        let mut i: usize = 0;
        while i < self.points.len()
            invariant
                pts_ok(self@),
                v2_bounded(center@, POS_LIMIT as int),
                0 <= radius <= 2_000_000_000,
                rsq as int == (radius as int) * (radius as int),
                0 <= i <= self@.len(),
                best@ == knn_fold(self@.take(i as int), center@, radius as int, k as int),
                best@.len() <= k,
                sorted2(best@),
                bwit.len() == best@.len(),
                forall|m: int|
                    #![trigger best@[m]]
                    #![trigger bwit[m]]
                    0 <= m < best@.len() ==> 0 <= bwit[m] < i && best@[m].0 == self@[bwit[m]].id
                        && within(self@[bwit[m]], center@, radius as int) && best@[m].1 as int
                        == pd2(self@[bwit[m]], center@),
                forall|m1: int, m2: int|
                    0 <= m1 < m2 < best@.len() ==> #[trigger] bwit[m1] != #[trigger] bwit[m2],
                forall|j: int|
                    #![trigger self@[j]]
                    0 <= j < i && within(self@[j], center@, radius as int) && !has_id2(
                        best@,
                        self@[j].id,
                    ) ==> best@.len() == k && forall|m: int|
                        0 <= m < best@.len() ==> (#[trigger] best@[m]).1 as int <= pd2(
                            self@[j],
                            center@,
                        ),
            decreases self@.len() - i,
        {
            let ghost old_best = best@;
            let ghost old_bwit = bwit;
            let ghost ii = i as int;
            let p = self.points[i];
            let diff = p.pos.sub(center);
            let dd: u128 = diff.len2();
            proof {
                lemma_pd2_bounds(p, center@);
                assert(self@.take(ii + 1).drop_last() =~= self@.take(ii));
                assert(self@.take(ii + 1).last() == self@[ii]);
                assert(dd as int == pd2(self@[ii], center@));
                // No earlier selection can carry this point's identity.
                assert forall|m: int| 0 <= m < old_best.len() implies (#[trigger] old_best[m]).0
                    != p.id by {
                    assert(0 <= bwit[m] < ii && old_best[m].0 == self@[bwit[m]].id);
                    assert(self@[bwit[m]].id != self@[ii].id);
                }
            }
            if dd <= rsq {
                let blen = best.len();
                let take_it = if blen < k {
                    true
                } else if k > 0 {
                    let last = best[blen - 1];
                    dd < last.1
                } else {
                    false
                };
                if take_it {
                    // Scan for the insertion position.
                    let mut idx: usize = 0;
                    while idx < best.len() && best[idx].1 <= dd
                        invariant
                            0 <= idx <= best@.len(),
                            best@ == old_best,
                            sorted2(best@),
                            forall|t: int| 0 <= t < idx ==> (#[trigger] best@[t]).1 <= dd,
                        decreases best@.len() - idx,
                    {
                        idx = idx + 1;
                    }
                    proof {
                        lemma_ins_pos_props(old_best, dd);
                        assert(idx as int == ins_pos(old_best, dd)) by {
                            let ip = ins_pos(old_best, dd);
                            if idx < ip {
                                assert(old_best[idx as int].1 <= dd);
                            }
                            if ip < idx {
                                assert(old_best[ip].1 <= dd);
                                assert(old_best[ip].1 > dd);
                            }
                        }
                        old_best.insert_ensures(idx as int, (p.id, dd));
                    }
                    best.insert(idx, (p.id, dd));
                    proof {
                        bwit = old_bwit.insert(idx as int, ii);
                        old_bwit.insert_ensures(idx as int, ii);
                        assert(best@ == old_best.insert(idx as int, (p.id, dd)));
                        assert(bwit.len() == best@.len());
                        // Sortedness of the inserted selection.
                        assert forall|m1: int, m2: int| 0 <= m1 <= m2 < best@.len() implies (
                        #[trigger] best@[m1]).1 <= (#[trigger] best@[m2]).1 by {
                            let ip = idx as int;
                            if m1 < ip && m2 < ip {
                                assert(best@[m1] == old_best[m1] && best@[m2] == old_best[m2]);
                            } else if m1 < ip && m2 == ip {
                                assert(best@[m1] == old_best[m1] && best@[m2].1 == dd);
                            } else if m1 < ip && m2 > ip {
                                assert(best@[m1] == old_best[m1] && best@[m2] == old_best[m2 - 1]);
                                assert(old_best[m1].1 <= old_best[m2 - 1].1);
                            } else if m1 == ip && m2 == ip {
                            } else if m1 == ip && m2 > ip {
                                assert(best@[m1].1 == dd && best@[m2] == old_best[m2 - 1]);
                                assert(old_best[m2 - 1].1 > dd);
                            } else {
                                assert(best@[m1] == old_best[m1 - 1] && best@[m2] == old_best[m2
                                    - 1]);
                            }
                        }
                        // Witness facts for the inserted selection.
                        assert forall|m: int|
                            #![trigger best@[m]]
                            #![trigger bwit[m]]
                        0 <= m < best@.len() implies 0 <= bwit[m] < ii + 1 && best@[m].0 == self@[
                            bwit[m]].id && within(self@[bwit[m]], center@, radius as int) && best@[
                            m].1 as int == pd2(self@[bwit[m]], center@) by {
                            let ip = idx as int;
                            if m < ip {
                                assert(best@[m] == old_best[m] && bwit[m] == old_bwit[m]);
                                assert(0 <= old_bwit[m] < ii);
                            } else if m == ip {
                                assert(best@[m] == (p.id, dd) && bwit[m] == ii);
                            } else {
                                assert(best@[m] == old_best[m - 1] && bwit[m] == old_bwit[m - 1]);
                                assert(0 <= old_bwit[m - 1] < ii);
                            }
                        }
                        assert forall|m1: int, m2: int| 0 <= m1 < m2 < best@.len() implies
                            #[trigger] bwit[m1] != #[trigger] bwit[m2] by {
                            assert(0 <= bwit[m1] < ii + 1 && 0 <= bwit[m2] < ii + 1);
                            let ip = idx as int;
                            if m1 == ip || m2 == ip {
                                assert(bwit[m1] == ii || bwit[m2] == ii);
                            }
                        }
                    }
                    let ghost inserted = best@;
                    let ghost inserted_wit = bwit;
                    if best.len() > k {
                        proof {
                            // The element past position k is the old maximum.
                            assert(inserted[inserted.len() - 1] == old_best[old_best.len() - 1]);
                        }
                        best.pop();
                        proof {
                            bwit = inserted_wit.drop_last();
                            assert(best@ =~= inserted.drop_last());
                        }
                    }
                    proof {
                        let ip = idx as int;
                        let kk = k as int;
                        // The executable steps mirror the specification fold.
                        assert(pd2(self@[ii], center@) as u128 == dd);
                        assert(inserted == old_best.insert(ins_pos(old_best, dd), (p.id, dd)));
                        assert(best@ == knn_insert(old_best, p.id, dd, kk));
                        assert(best@ == knn_step(
                            old_best,
                            self@[ii],
                            center@,
                            radius as int,
                            kk,
                        ));
                        assert(best@ == knn_fold(
                            self@.take(ii + 1),
                            center@,
                            radius as int,
                            kk,
                        ));
                        if old_best.len() < kk {
                            // Nothing was dropped; nothing within was ever
                            // left out, and the new point is selected.
                            assert(best@ == inserted);
                            assert(bwit == inserted_wit);
                            assert forall|j: int|
                                #![trigger self@[j]]
                            0 <= j < ii + 1 && within(self@[j], center@, radius as int)
                                && !has_id2(best@, self@[j].id) implies best@.len() == kk
                                && forall|m: int|
                                0 <= m < best@.len() ==> (#[trigger] best@[m]).1 as int <= pd2(
                                    self@[j],
                                    center@,
                                ) by {
                                if j == ii {
                                    assert(best@[ip].0 == p.id);
                                    assert(has_id2(best@, self@[j].id));
                                } else {
                                    if !has_id2(old_best, self@[j].id) {
                                        assert(old_best.len() == kk);
                                    } else {
                                        let m0 = choose|m0: int|
                                            0 <= m0 < old_best.len() && (#[trigger] old_best[
                                                m0]).0 == self@[j].id;
                                        if m0 < ip {
                                            assert(best@[m0].0 == self@[j].id);
                                        } else {
                                            assert(best@[m0 + 1].0 == self@[j].id);
                                        }
                                        assert(has_id2(best@, self@[j].id));
                                    }
                                }
                            }
                        } else {
                            // The selection was full: the old maximum left,
                            // and everything kept is at least as close.
                            let o = old_best[old_best.len() - 1];
                            let kl = kk - 1;
                            assert(old_best.len() == kk);
                            assert(ip <= kl) by {
                                if ip > kl {
                                    assert(old_best[kl].1 <= dd);
                                }
                            }
                            assert(best@ == inserted.drop_last());
                            assert(best@.len() == kk);
                            assert forall|m: int| 0 <= m < best@.len() implies (
                            #[trigger] best@[m]).1 <= o.1 by {
                                if m < ip {
                                    assert(best@[m] == old_best[m]);
                                } else if m == ip {
                                    assert(best@[m].1 == dd);
                                } else {
                                    assert(best@[m] == old_best[m - 1]);
                                }
                            }
                            assert forall|j: int|
                                #![trigger self@[j]]
                            0 <= j < ii + 1 && within(self@[j], center@, radius as int)
                                && !has_id2(best@, self@[j].id) implies best@.len() == kk
                                && forall|m: int|
                                0 <= m < best@.len() ==> (#[trigger] best@[m]).1 as int <= pd2(
                                    self@[j],
                                    center@,
                                ) by {
                                if j == ii {
                                    assert(best@[ip].0 == p.id);
                                    assert(has_id2(best@, self@[j].id));
                                } else if !has_id2(old_best, self@[j].id) {
                                    // It was already left out of a full
                                    // selection, and nothing kept got farther.
                                    assert(forall|m: int|
                                        0 <= m < old_best.len() ==> (#[trigger] old_best[
                                            m]).1 as int <= pd2(self@[j], center@));
                                    assert(o.1 as int <= pd2(self@[j], center@));
                                    assert forall|m: int| 0 <= m < best@.len() implies (
                                    #[trigger] best@[m]).1 as int <= pd2(self@[j], center@) by {
                                        if m < ip {
                                            assert(best@[m] == old_best[m]);
                                        } else if m == ip {
                                            assert(best@[m].1 == dd && dd < o.1);
                                        } else {
                                            assert(best@[m] == old_best[m - 1]);
                                        }
                                    }
                                } else {
                                    // Its identity was selected before, so the
                                    // dropped maximum must have carried it.
                                    let m0 = choose|m0: int|
                                        0 <= m0 < old_best.len() && (#[trigger] old_best[m0]).0
                                            == self@[j].id;
                                    if m0 < ip {
                                        assert(best@[m0].0 == self@[j].id);
                                        assert(has_id2(best@, self@[j].id));
                                    } else if m0 < kl {
                                        assert(best@[m0 + 1].0 == self@[j].id);
                                        assert(has_id2(best@, self@[j].id));
                                    } else {
                                        assert(m0 == kl);
                                        assert(o.0 == self@[j].id);
                                        let jw = old_bwit[kl];
                                        assert(self@[jw].id == o.0);
                                        assert(j == jw) by {
                                            if j != jw {
                                                assert(self@[j].id != self@[jw].id);
                                            }
                                        }
                                        assert(o.1 as int == pd2(self@[j], center@));
                                        assert forall|m: int| 0 <= m < best@.len() implies (
                                        #[trigger] best@[m]).1 as int <= pd2(
                                            self@[j],
                                            center@,
                                        ) by {
                                            assert(best@[m].1 <= o.1);
                                        }
                                    }
                                }
                            }
                        }
                    }
                } else {
                    proof {
                        assert(best@.len() == k);
                        assert(k > 0 ==> dd >= best@[k - 1].1);
                        assert forall|j: int|
                            #![trigger self@[j]]
                        0 <= j < ii + 1 && within(self@[j], center@, radius as int) && !has_id2(
                            best@,
                            self@[j].id,
                        ) implies best@.len() == k && forall|m: int|
                            0 <= m < best@.len() ==> (#[trigger] best@[m]).1 as int <= pd2(
                                self@[j],
                                center@,
                            ) by {
                            if j == ii {
                                assert forall|m: int| 0 <= m < best@.len() implies (
                                #[trigger] best@[m]).1 as int <= pd2(self@[j], center@) by {
                                    assert(best@[m].1 <= best@[best@.len() - 1].1);
                                }
                            }
                        }
                    }
                }
            } else {
                proof {
                    assert(!within(self@[ii], center@, radius as int));
                }
            }
            i = i + 1;
        }
        proof {
            assert(self@.take(self@.len() as int) =~= self@);
        }
        // Fold the squared distances down to Euclidean distances.
        let mut res: Vec<Neighbor> = Vec::new();
        let mut m: usize = 0;
        let ghost fold_final = best@;
        while m < best.len()
            invariant
                0 <= m <= best@.len(),
                best@ == fold_final,
                res@.len() == m,
                forall|t: int|
                    #![trigger res@[t]]
                    0 <= t < m ==> res@[t].id == best@[t].0 && res@[t].dist as int == sqrt_of(
                        best@[t].1 as int,
                    ) && is_sqrt(best@[t].1 as int, res@[t].dist as int) && res@[t] == (Neighbor {
                        id: best@[t].0,
                        dist: sqrt_of(best@[t].1 as int) as i64,
                    }),
                forall|t: int|
                    #![trigger best@[t]]
                    0 <= t < best@.len() ==> 0 <= bwit[t] < self@.len() && best@[t].0 == self@[
                        bwit[t]].id && within(self@[bwit[t]], center@, radius as int) && best@[
                        t].1 as int == pd2(self@[bwit[t]], center@),
                pts_ok(self@),
                v2_bounded(center@, POS_LIMIT as int),
            decreases best@.len() - m,
        {
            let e = best[m];
            proof {
                lemma_pd2_bounds(self@[bwit[m as int]], center@);
            }
            let l = isqrt(e.1);
            proof {
                lemma_sqrt_small(e.1 as int, l as int);
            }
            res.push(Neighbor { id: e.0, dist: l as i64 });
            m = m + 1;
        }
        proof {
            let s = fold_final;
            assert(res@ =~= knn_spec(self@, center@, radius as int, k as int));
            // Sorted by distance, because the square root is monotone.
            assert forall|m1: int, m2: int| 0 <= m1 <= m2 < res@.len() implies (
            #[trigger] res@[m1]).dist <= (#[trigger] res@[m2]).dist by {
                assert(s[m1].1 <= s[m2].1);
                assert(is_sqrt(s[m1].1 as int, res@[m1].dist as int));
                assert(res@[m1].dist as int == sqrt_of(s[m1].1 as int));
                assert(is_sqrt(s[m2].1 as int, res@[m2].dist as int));
                assert(res@[m2].dist as int == sqrt_of(s[m2].1 as int));
                lemma_sqrt_monotone(s[m1].1 as int, s[m2].1 as int);
            }
            // Each answer is a genuine point within the radius.
            assert forall|m: int| #![trigger res@[m]] 0 <= m < res@.len() implies exists|j: int|
                0 <= j < self@.len() && res@[m].id == (#[trigger] self@[j]).id && within(
                    self@[j],
                    center@,
                    radius as int,
                ) && res@[m].dist == sqrt_of(pd2(self@[j], center@)) by {
                let j = bwit[m];
                assert(0 <= j < self@.len() && res@[m].id == self@[j].id && within(
                    self@[j],
                    center@,
                    radius as int,
                ) && res@[m].dist == sqrt_of(pd2(self@[j], center@)));
            }
            // Identity presence agrees between the two shapes of answer.
            assert forall|id: u64| has_id2(s, id) implies has_id(res@, id) by {
                let m = choose|m: int| 0 <= m < s.len() && (#[trigger] s[m]).0 == id;
                assert(res@[m].id == id);
            }
            // A within point left out means the selection was full, and
            // every selected point is at least as close.
            assert forall|j: int|
                #![trigger self@[j]]
            0 <= j < self@.len() && within(self@[j], center@, radius as int) && !has_id(
                res@,
                self@[j].id,
            ) implies res@.len() == k by {
                assert(!has_id2(s, self@[j].id));
            }
            assert forall|j: int, m: int, jm: int|
                #![trigger self@[j], res@[m], self@[jm]]
            0 <= j < self@.len() && within(self@[j], center@, radius as int) && !has_id(
                res@,
                self@[j].id,
            ) && 0 <= m < res@.len() && 0 <= jm < self@.len() && self@[jm].id == res@[m].id implies
                pd2(self@[jm], center@) <= pd2(self@[j], center@) by {
                assert(!has_id2(s, self@[j].id));
                assert(s[m].1 as int <= pd2(self@[j], center@));
                let jw = bwit[m];
                assert(self@[jw].id == s[m].0 == res@[m].id == self@[jm].id);
                assert(jm == jw) by {
                    if jm != jw {
                        assert(self@[jm].id != self@[jw].id);
                    }
                }
                assert(pd2(self@[jm], center@) == s[m].1 as int);
            }
        }
        res
    }
}

} // verus!
