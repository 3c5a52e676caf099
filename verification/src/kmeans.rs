//! The generic clustering engine: bounded-coordinate points, naive
//! sharding seeds, Lloyd iterations, and their cluster arithmetic.

use vstd::prelude::*;

use crate::color::Itp;
use crate::color::ITP_COORD_MAX;
use crate::color::RgbU8;
use crate::distance::Distance;
use crate::distance::nearest_idx;

verus! {

/// The most points the clustering engine accepts, a machine limit
/// that keeps every coordinate sum inside 64 bits.
pub const MAX_POINTS: usize = 0x4000_0000;

/// A point the clustering engine can average: a color with three
/// bounded integer coordinates it can read back and rebuild, on top of
/// the `Distance` metric that assigns points to centroids.
pub trait Point: Distance {
    /// The inclusive upper bound of each coordinate.
    spec fn coord_max() -> int;

    /// The value of coordinate `axis` (0, 1 or 2).
    spec fn coord(self, axis: int) -> int;

    /// Whether every coordinate lies in [0, coord_max].
    spec fn wf(self) -> bool;

    /// The coordinate bound is positive and fits 32 bits.
    proof fn coord_max_bound()
        ensures
            0 < Self::coord_max() <= u32::MAX as int,
    ;

    /// A well-formed point's coordinates lie in [0, coord_max].
    proof fn wf_bounds(self)
        requires
            self.wf(),
        ensures
            forall|a: int| 0 <= a < 3 ==> 0 <= #[trigger] self.coord(a) <= Self::coord_max(),
    ;

    /// Two points with equal coordinates are the same point.
    proof fn coords_determine(self, other: Self)
        requires
            forall|a: int| 0 <= a < 3 ==> #[trigger] self.coord(a) == other.coord(a),
        ensures
            self == other,
    ;

    /// Reads the three coordinates.
    fn coords(&self) -> (r: (u32, u32, u32))
        ensures
            r.0 as int == self.coord(0),
            r.1 as int == self.coord(1),
            r.2 as int == self.coord(2),
    ;

    /// Builds the point with the given coordinates.
    fn from_coords(x: u32, y: u32, z: u32) -> (r: Self)
        requires
            x as int <= Self::coord_max(),
            y as int <= Self::coord_max(),
            z as int <= Self::coord_max(),
        ensures
            r.coord(0) == x as int,
            r.coord(1) == y as int,
            r.coord(2) == z as int,
            r.wf(),
    ;
}

impl Point for Itp {
    open spec fn coord_max() -> int {
        ITP_COORD_MAX as int
    }

    open spec fn coord(self, axis: int) -> int {
        if axis == 0 {
            self.i as int
        } else if axis == 1 {
            self.t as int
        } else {
            self.p as int
        }
    }

    open spec fn wf(self) -> bool {
        self.i <= ITP_COORD_MAX && self.t <= ITP_COORD_MAX && self.p <= ITP_COORD_MAX
    }

    proof fn coord_max_bound() {
    }

    proof fn wf_bounds(self) {
    }

    proof fn coords_determine(self, other: Self) {
        assert(self.coord(0) == other.coord(0) && self.coord(1) == other.coord(1) && self.coord(2)
            == other.coord(2));
    }

    fn coords(&self) -> (r: (u32, u32, u32)) {
        (self.i, self.t, self.p)
    }

    fn from_coords(x: u32, y: u32, z: u32) -> (r: Self) {
        Itp { i: x, t: y, p: z }
    }
}

impl Point for RgbU8 {
    open spec fn coord_max() -> int {
        255
    }

    open spec fn coord(self, axis: int) -> int {
        if axis == 0 {
            self.r as int
        } else if axis == 1 {
            self.g as int
        } else {
            self.b as int
        }
    }

    open spec fn wf(self) -> bool {
        true
    }

    proof fn coord_max_bound() {
    }

    proof fn wf_bounds(self) {
    }

    proof fn coords_determine(self, other: Self) {
        assert(self.coord(0) == other.coord(0) && self.coord(1) == other.coord(1) && self.coord(2)
            == other.coord(2));
    }

    fn coords(&self) -> (r: (u32, u32, u32)) {
        (self.r as u32, self.g as u32, self.b as u32)
    }

    fn from_coords(x: u32, y: u32, z: u32) -> (r: Self) {
        RgbU8 { r: x as u8, g: y as u8, b: z as u8 }
    }
}

/// Every point of the sequence is well-formed.
pub open spec fn all_wf<T: Point>(points: Seq<T>) -> bool {
    forall|i: int| 0 <= i < points.len() ==> (#[trigger] points[i]).wf()
}

/// The sum of coordinate `axis` over all points.
pub open spec fn sum_coord<T: Point>(points: Seq<T>, axis: int) -> int
    decreases points.len(),
{
    if points.len() == 0 {
        0
    } else {
        sum_coord(points.drop_last(), axis) + points.last().coord(axis)
    }
}

/// A coordinate sum of well-formed points lies in [0, n * coord_max].
pub proof fn lemma_sum_coord_bounds<T: Point>(points: Seq<T>, axis: int)
    requires
        all_wf(points),
        0 <= axis < 3,
    ensures
        0 <= sum_coord(points, axis) <= points.len() * T::coord_max(),
    decreases points.len(),
{
    T::coord_max_bound();
    if points.len() == 0 {
        assert(points.len() * T::coord_max() == 0);
    } else {
        let prev = points.drop_last();
        assert(all_wf(prev)) by {
            assert(forall|i: int| 0 <= i < prev.len() ==> prev[i] == points[i]);
        }
        lemma_sum_coord_bounds(prev, axis);
        points.last().wf_bounds();
        assert(prev.len() * T::coord_max() + T::coord_max() == points.len() * T::coord_max())
            by (nonlinear_arith)
            requires
                prev.len() + 1 == points.len(),
        ;
    }
}

/// Where shard `c` of `k` begins among `n` sorted points.  The shards
/// are contiguous chunks of ceil(n / k) points with only the last one
/// shorter; when that rule cannot fill `k` non-empty shards (a heavy
/// remainder, as with 17 points over 16 shards), the boundaries fall
/// back to the balanced ceiling of c * n / k, under which shard sizes
/// differ by at most one.
pub open spec fn shard_bound(n: int, k: int, c: int) -> int {
    let ss = (n - 1) / k + 1;
    if (k - 1) * ss < n {
        if c * ss <= n {
            c * ss
        } else {
            n
        }
    } else {
        (c * n + k - 1) / k
    }
}

/// The lexicographic order on (composite key, original position).
pub open spec fn key_le(a: (u64, usize), b: (u64, usize)) -> bool {
    a.0 < b.0 || (a.0 == b.0 && a.1 <= b.1)
}

/// The pairs are in ascending lexicographic order.
pub open spec fn sorted_keys(s: Seq<(u64, usize)>) -> bool {
    forall|i: int, j: int| 0 <= i < j < s.len() ==> key_le(#[trigger] s[i], #[trigger] s[j])
}

/// Sorts (composite key, original position) pairs ascending; the
/// position makes the order total, so equal keys keep their original
/// relative order.
fn sort_pairs(v: &Vec<(u64, usize)>) -> (r: Vec<(u64, usize)>)
    ensures
        sorted_keys(r@),
        r@.to_multiset() == v@.to_multiset(),
        r@.len() == v@.len(),
{
    let mut out: Vec<(u64, usize)> = Vec::new();
    proof {
        broadcast use vstd::seq_lib::group_to_multiset_ensures;

        assert(out@.to_multiset() =~= v@.take(0int).to_multiset());
    }
    let mut i: usize = 0;
    while i < v.len()
        invariant
            i <= v@.len(),
            out@.len() == i,
            sorted_keys(out@),
            out@.to_multiset() == v@.take(i as int).to_multiset(),
        decreases v@.len() - i,
    {
        let x = v[i];
        let mut pos: usize = 0;
        while pos < out.len() && (out[pos].0 < x.0 || (out[pos].0 == x.0 && out[pos].1 <= x.1))
            invariant
                pos <= out@.len(),
                forall|q: int| 0 <= q < pos ==> key_le(#[trigger] out@[q], x),
            decreases out@.len() - pos,
        {
            pos = pos + 1;
        }
        proof {
            assert(pos < out@.len() ==> key_le(x, out@[pos as int]));
        }
        let ghost prev = out@;
        out.insert(pos, x);
        proof {
            prev.insert_ensures(pos as int, x);
            assert forall|a: int, b: int| 0 <= a < b < out@.len() implies key_le(
                #[trigger] out@[a],
                #[trigger] out@[b],
            ) by {
                if b < pos {
                    assert(out@[a] == prev[a] && out@[b] == prev[b]);
                } else if a < pos && b == pos {
                    assert(out@[a] == prev[a] && out@[b] == x);
                } else if a < pos && b > pos {
                    assert(out@[a] == prev[a] && out@[b] == prev[b - 1]);
                    assert(key_le(prev[a], prev[b - 1]));
                } else if a == pos {
                    assert(out@[a] == x && out@[b] == prev[b - 1]);
                    assert(key_le(x, prev[pos as int]));
                    if b - 1 > pos {
                        assert(key_le(prev[pos as int], prev[b - 1]));
                    }
                } else {
                    assert(out@[a] == prev[a - 1] && out@[b] == prev[b - 1]);
                    assert(key_le(prev[a - 1], prev[b - 1]));
                }
            }
            let s1 = prev.subrange(0, pos as int);
            let s2 = prev.subrange(pos as int, prev.len() as int);
            vstd::seq_lib::lemma_multiset_commutative(s1.push(x), s2);
            vstd::seq_lib::lemma_multiset_commutative(s1, s2);
            assert(prev =~= s1 + s2);
            s1.to_multiset_ensures();
            assert(s1.push(x).to_multiset() =~= s1.to_multiset().insert(x));
            assert(out@.to_multiset() =~= prev.to_multiset().insert(x));
            let t = v@.take(i as int + 1);
            assert(t.drop_last() =~= v@.take(i as int));
            t.drop_last().to_multiset_ensures();
            assert(t =~= t.drop_last().push(v@[i as int]));
            assert(t.to_multiset() =~= v@.take(i as int).to_multiset().insert(v@[i as int]));
        }
        i = i + 1;
    }
    proof {
        assert(v@.take(v@.len() as int) =~= v@);
    }
    out
}

/// Sums the three coordinates of `points[s..e]`.
fn sum_coords<T: Point>(points: &Vec<T>, s: usize, e: usize) -> (r: (u64, u64, u64))
    requires
        s <= e,
        e <= points@.len(),
        points@.len() <= MAX_POINTS,
        all_wf(points@),
    ensures
        r.0 as int == sum_coord(points@.subrange(s as int, e as int), 0),
        r.1 as int == sum_coord(points@.subrange(s as int, e as int), 1),
        r.2 as int == sum_coord(points@.subrange(s as int, e as int), 2),
{
    let mut sx: u64 = 0;
    let mut sy: u64 = 0;
    let mut sz: u64 = 0;
    let mut j: usize = s;
    while j < e
        invariant
            s <= j <= e <= points@.len(),
            points@.len() <= MAX_POINTS,
            all_wf(points@),
            sx as int == sum_coord(points@.subrange(s as int, j as int), 0),
            sy as int == sum_coord(points@.subrange(s as int, j as int), 1),
            sz as int == sum_coord(points@.subrange(s as int, j as int), 2),
        decreases e - j,
    {
        let (x, y, z) = points[j].coords();
        proof {
            let cur = points@.subrange(s as int, j as int);
            let next = points@.subrange(s as int, j as int + 1);
            assert(next.drop_last() =~= cur);
            assert(next.last() == points@[j as int]);
            assert(all_wf(next)) by {
                assert(forall|q: int| 0 <= q < next.len() ==> next[q] == points@[s + q]);
            }
            lemma_sum_coord_bounds(next, 0);
            lemma_sum_coord_bounds(next, 1);
            lemma_sum_coord_bounds(next, 2);
            T::coord_max_bound();
            assert(next.len() * T::coord_max() <= 0x4000_0000 * 0x1_0000_0000)
                by (nonlinear_arith)
                requires
                    0 <= next.len() <= 0x4000_0000 && 0 <= T::coord_max() <= 0x1_0000_0000,
            ;
        }
        sx = sx + x as u64;
        sy = sy + y as u64;
        sz = sz + z as u64;
        j = j + 1;
    }
    (sx, sy, sz)
}

/// The floor mean of each coordinate over `points[s..e]`, as a point.
fn mean_point<T: Point>(points: &Vec<T>, s: usize, e: usize) -> (r: T)
    requires
        s < e,
        e <= points@.len(),
        points@.len() <= MAX_POINTS,
        all_wf(points@),
    ensures
        r.wf(),
        forall|a: int|
            0 <= a < 3 ==> #[trigger] r.coord(a) == sum_coord(
                points@.subrange(s as int, e as int),
                a,
            ) / (e - s) as int,
{
    let (sx, sy, sz) = sum_coords(points, s, e);
    let cnt = (e - s) as u64;
    proof {
        let chunk = points@.subrange(s as int, e as int);
        assert(all_wf(chunk)) by {
            assert(forall|q: int| 0 <= q < chunk.len() ==> chunk[q] == points@[s + q]);
        }
        lemma_sum_coord_bounds(chunk, 0);
        lemma_sum_coord_bounds(chunk, 1);
        lemma_sum_coord_bounds(chunk, 2);
        T::coord_max_bound();
        assert(sx as int / cnt as int <= T::coord_max() && sy as int / cnt as int <= T::coord_max()
            && sz as int / cnt as int <= T::coord_max()) by (nonlinear_arith)
            requires
                cnt >= 1 && 0 < T::coord_max() && 0 <= sx as int <= cnt as int * T::coord_max() && 0
                    <= sy as int <= cnt as int * T::coord_max() && 0 <= sz as int <= cnt as int
                    * T::coord_max(),
        ;
    }
    T::from_coords((sx / cnt) as u32, (sy / cnt) as u32, (sz / cnt) as u32)
}

/// The composite key naive sharding sorts by: the sum of the three
/// coordinates.
pub open spec fn composite_key<T: Point>(p: T) -> int {
    p.coord(0) + p.coord(1) + p.coord(2)
}

/// Whether `perm` lists every position of `points` exactly once, in
/// ascending order of composite key, with ties in original order.
pub open spec fn sorting_perm<T: Point>(perm: Seq<int>, points: Seq<T>) -> bool {
    &&& perm.len() == points.len()
    &&& (forall|q: int| 0 <= q < perm.len() ==> 0 <= #[trigger] perm[q] < points.len())
    &&& (forall|q1: int, q2: int|
        0 <= q1 < q2 < perm.len() ==> #[trigger] perm[q1] != #[trigger] perm[q2])
    &&& (forall|q1: int, q2: int|
        0 <= q1 < q2 < perm.len() ==> composite_key(points[#[trigger] perm[q1]]) < composite_key(
            points[#[trigger] perm[q2]],
        ) || (composite_key(points[perm[q1]]) == composite_key(points[perm[q2]]) && perm[q1]
            < perm[q2]))
}

/// The points that shard `c` of `k` averages, in sorted order.
pub open spec fn shard_of<T: Point>(points: Seq<T>, perm: Seq<int>, c: int, k: int) -> Seq<T> {
    let s = shard_bound(points.len() as int, k, c);
    let e = shard_bound(points.len() as int, k, c + 1);
    Seq::new(
        if e >= s {
            (e - s) as nat
        } else {
            0nat
        },
        |q: int| points[perm[s + q]],
    )
}

/// The seeding naive sharding produces: one centroid per shard, each
/// the floor mean of its shard's coordinates under the sorting
/// permutation `perm`.
pub open spec fn sharded_seed<T: Point>(
    points: Seq<T>,
    perm: Seq<int>,
    seeds: Seq<T>,
    k: int,
) -> bool {
    &&& seeds.len() == k
    &&& (forall|c: int, a: int|
        0 <= c < k && 0 <= a < 3 ==> #[trigger] seeds[c].coord(a) == sum_coord(
            shard_of(points, perm, c, k),
            a,
        ) / (shard_of(points, perm, c, k).len() as int))
}

/// Shard boundaries are ordered, cover [0, n], and every shard is
/// non-empty when there are at least as many points as shards.
proof fn lemma_shard_bound(n: int, k: int, c: int)
    requires
        1 <= k <= n,
        0 <= c < k,
    ensures
        0 <= shard_bound(n, k, c) < shard_bound(n, k, c + 1) <= n,
        shard_bound(n, k, 0) == 0,
        shard_bound(n, k, k) == n,
{
    let ss = (n - 1) / k + 1;
    assert(1 <= ss <= n && k * ss >= n) by (nonlinear_arith)
        requires
            1 <= k <= n && ss == (n - 1) / k + 1,
    ;
    if (k - 1) * ss < n {
        assert(0 <= c * ss && c * ss <= (k - 1) * ss && c * ss < (c + 1) * ss && ((c + 1 < k)
            ==> (c + 1) * ss <= (k - 1) * ss) && ((c + 1 == k) ==> (c + 1) * ss == k * ss) && 0
            * ss == 0) by (nonlinear_arith)
            requires
                ss >= 1 && 0 <= c < k,
        ;
    } else {
        assert(0 <= (c * n + k - 1) / k && (c * n + k - 1) / k < ((c + 1) * n + k - 1) / k && ((c
            + 1) * n + k - 1) / k <= n && (0 * n + k - 1) / k == 0 && (k * n + k - 1) / k == n)
            by (nonlinear_arith)
            requires
                1 <= k <= n && 0 <= c < k,
        ;
    }
}

/// Seeds exactly `k` centroids by naive sharding: each point gets the
/// sum of its coordinates as a composite key, the points are sorted by
/// (key, original position), split into `k` contiguous shards of
/// ceil(n / k) points (only the last shorter; `shard_bound` gives the
/// balanced fallback when that cannot fill `k` shards), and each shard
/// is averaged.  One shard holds every point when `k` is 1, so its
/// mean needs no sort.
pub fn naive_sharding<T: Point>(points: &Vec<T>, k: usize) -> (r: Vec<T>)
    requires
        1 <= k <= points@.len(),
        points@.len() <= MAX_POINTS,
        all_wf(points@),
    ensures
        r@.len() == k,
        all_wf(r@),
        k == 1 ==> (forall|a: int|
            0 <= a < 3 ==> #[trigger] r@[0].coord(a) == sum_coord(points@, a) / (
            points@.len() as int)),
        k >= 2 ==> exists|perm: Seq<int>|
            #[trigger] sorting_perm(perm, points@) && sharded_seed(points@, perm, r@, k as int),
{
    let n = points.len();
    if k == 1 {
        let m = mean_point(points, 0, n);
        let mut r: Vec<T> = Vec::new();
        r.push(m);
        proof {
            assert(points@.subrange(0int, n as int) =~= points@);
        }
        return r;
    }
    let mut keyed: Vec<(u64, usize)> = Vec::new();
    let mut i: usize = 0;
    while i < n
        invariant
            i <= n,
            n == points@.len() <= MAX_POINTS,
            all_wf(points@),
            keyed@.len() == i,
            forall|j: int|
                0 <= j < i ==> (#[trigger] keyed@[j]).1 == j && keyed@[j].0 as int
                    == composite_key(points@[j]),
        decreases n - i,
    {
        let (x, y, z) = points[i].coords();
        keyed.push((x as u64 + y as u64 + z as u64, i));
        i = i + 1;
    }
    let sorted = sort_pairs(&keyed);
    let ghost perm = Seq::new(n as nat, |q: int| sorted@[q].1 as int);
    proof {
        broadcast use vstd::seq_lib::group_to_multiset_ensures;

        assert forall|q: int|
            0 <= q < sorted@.len() implies (#[trigger] sorted@[q]).1 < n && sorted@[q].0 as int
            == composite_key(points@[sorted@[q].1 as int]) by {
            assert(sorted@.contains(sorted@[q]));
            assert(sorted@.to_multiset().count(sorted@[q]) > 0);
            assert(keyed@.contains(sorted@[q]));
            let j = choose|j: int| 0 <= j < keyed@.len() && keyed@[j] == sorted@[q];
            assert(keyed@[j].1 == j);
        }
        assert(keyed@.no_duplicates()) by {
            assert(forall|x: int, y: int|
                0 <= x < keyed@.len() && 0 <= y < keyed@.len() && x != y
                    ==> (#[trigger] keyed@[x]).1 != (#[trigger] keyed@[y]).1);
        }
        keyed@.lemma_multiset_has_no_duplicates();
        sorted@.lemma_multiset_has_no_duplicates_conv();
        assert forall|q1: int, q2: int|
            0 <= q1 < q2 < perm.len() implies #[trigger] perm[q1] != #[trigger] perm[q2] by {
            if perm[q1] == perm[q2] {
                assert(sorted@[q1].0 == sorted@[q2].0);
                assert(sorted@[q1] == sorted@[q2]);
            }
        }
        assert forall|q1: int, q2: int|
            0 <= q1 < q2 < perm.len() implies composite_key(points@[#[trigger] perm[q1]])
            < composite_key(points@[#[trigger] perm[q2]]) || (composite_key(points@[perm[q1]])
            == composite_key(points@[perm[q2]]) && perm[q1] < perm[q2]) by {
            assert(key_le(sorted@[q1], sorted@[q2]));
            assert(perm[q1] != perm[q2]);
        }
        assert(sorting_perm(perm, points@));
    }
    let mut r: Vec<T> = Vec::new();
    let mut c: usize = 0;
    while c < k
        invariant
            n == points@.len() <= MAX_POINTS,
            1 <= k <= n,
            all_wf(points@),
            sorted@.len() == n,
            forall|q: int| 0 <= q < sorted@.len() ==> (#[trigger] sorted@[q]).1 < n,
            perm.len() == n,
            forall|q: int| 0 <= q < n ==> #[trigger] perm[q] == sorted@[q].1,
            c <= k,
            r@.len() == c,
            all_wf(r@),
            forall|c2: int, a: int|
                0 <= c2 < r@.len() && 0 <= a < 3 ==> #[trigger] r@[c2].coord(a) == sum_coord(
                    shard_of(points@, perm, c2, k as int),
                    a,
                ) / (shard_of(points@, perm, c2, k as int).len() as int),
        decreases k - c,
    {
        let ss = (n - 1) / k + 1;
        proof {
            lemma_shard_bound(n as int, k as int, c as int);
            assert(1 <= ss <= n) by (nonlinear_arith)
                requires
                    1 <= k <= n && ss as int == (n as int - 1) / (k as int) + 1,
            ;
            assert(((k as u64) - 1) * (ss as u64) == (k as int - 1) * (ss as int) && (c as u64) * (
            n as u64) == c as int * n as int && ((c as u64) + 1) * (n as u64) == (c as int + 1) * (
            n as int) && (c as u64) * (n as u64) <= 0x1000_0000_0000_0000 && ((c as u64) + 1) * (
            n as u64) <= 0x1000_0000_0000_0000 && ((k as u64) - 1) * (ss as u64)
                <= 0x1000_0000_0000_0000) by (nonlinear_arith)
                requires
                    (c as u64) < 0x4000_0000 && (n as u64) <= 0x4000_0000 && 1 <= (k as u64)
                        <= 0x4000_0000 && (ss as u64) <= 0x4000_0000,
            ;
            assert(c as int * (ss as int) <= (k as int - 1) * (ss as int) && (c as int + 1) * (
            ss as int) <= (k as int) * (ss as int) && ((c as int + 1 < k as int) ==> (c as int + 1)
                * (ss as int) <= (k as int - 1) * (ss as int))) by (nonlinear_arith)
                requires
                    0 <= (c as int) && (c as int) < (k as int) && (ss as int) >= 1,
            ;
        }
        let chunked = ((k as u64) - 1) * (ss as u64) < (n as u64);
        let s: usize;
        let e: usize;
        if chunked {
            s = c * ss;
            e = if c + 1 == k {
                n
            } else {
                (c + 1) * ss
            };
        } else {
            s = (((c as u64) * (n as u64) + (k as u64) - 1) / (k as u64)) as usize;
            e = ((((c as u64) + 1) * (n as u64) + (k as u64) - 1) / (k as u64)) as usize;
        }
        proof {
            assert(s as int == shard_bound(n as int, k as int, c as int));
            assert(e as int == shard_bound(n as int, k as int, c as int + 1));
        }
        // the shard's points, gathered back through their sorted keys
        let mut shard: Vec<T> = Vec::new();
        let mut j: usize = s;
        while j < e
            invariant
                s <= j <= e <= n,
                n == points@.len(),
                all_wf(points@),
                sorted@.len() == n,
                forall|q: int| 0 <= q < sorted@.len() ==> (#[trigger] sorted@[q]).1 < n,
                shard@.len() == j - s,
                all_wf(shard@),
                perm.len() == n,
                forall|q: int| 0 <= q < n ==> #[trigger] perm[q] == sorted@[q].1,
                forall|q: int| 0 <= q < j - s ==> #[trigger] shard@[q] == points@[perm[s + q]],
            decreases e - j,
        {
            let idx = sorted[j].1;
            shard.push(points[idx]);
            j = j + 1;
        }
        let m = mean_point(&shard, 0, shard.len());
        r.push(m);
        proof {
            assert(shard@.subrange(0, shard@.len() as int) =~= shard@);
            assert(shard@ =~= shard_of(points@, perm, c as int, k as int));
        }
        c = c + 1;
    }
    proof {
        assert(sharded_seed(points@, perm, r@, k as int));
    }
    r
}

/// How many of the points are assigned to centroid `j`, each point
/// going to its nearest centroid, ties to the lowest index.
pub open spec fn cluster_size<T: Point>(points: Seq<T>, cs: Seq<T>, j: int) -> nat
    decreases points.len(),
{
    if points.len() == 0 {
        0
    } else {
        cluster_size(points.drop_last(), cs, j) + if nearest_idx(points.last(), cs) == j {
            1nat
        } else {
            0nat
        }
    }
}

/// The sum of coordinate `axis` over the points assigned to centroid
/// `j`.
pub open spec fn cluster_sum<T: Point>(points: Seq<T>, cs: Seq<T>, j: int, axis: int) -> int
    decreases points.len(),
{
    if points.len() == 0 {
        0
    } else {
        cluster_sum(points.drop_last(), cs, j, axis) + if nearest_idx(points.last(), cs) == j {
            points.last().coord(axis)
        } else {
            0
        }
    }
}

/// A cluster holds at most all points, and its coordinate sums stay in
/// [0, size * coord_max].
pub proof fn lemma_cluster_bounds<T: Point>(points: Seq<T>, cs: Seq<T>, j: int, axis: int)
    requires
        all_wf(points),
        0 <= axis < 3,
    ensures
        cluster_size(points, cs, j) <= points.len(),
        0 <= cluster_sum(points, cs, j, axis) <= cluster_size(points, cs, j) * T::coord_max(),
    decreases points.len(),
{
    T::coord_max_bound();
    if points.len() == 0 {
        assert(cluster_size(points, cs, j) == 0);
        assert(cluster_size(points, cs, j) * T::coord_max() == 0) by (nonlinear_arith)
            requires
                cluster_size(points, cs, j) == 0,
        ;
    } else {
        let prev = points.drop_last();
        assert(all_wf(prev)) by {
            assert(forall|i: int| 0 <= i < prev.len() ==> prev[i] == points[i]);
        }
        lemma_cluster_bounds(prev, cs, j, axis);
        points.last().wf_bounds();
        if nearest_idx(points.last(), cs) == j {
            assert(cluster_size(prev, cs, j) * T::coord_max() + T::coord_max() == cluster_size(
                points,
                cs,
                j,
            ) * T::coord_max()) by (nonlinear_arith)
                requires
                    cluster_size(prev, cs, j) + 1 == cluster_size(points, cs, j),
            ;
        }
    }
}

/// Taking one more point extends its cluster's count and sums and no
/// other's.
pub proof fn lemma_cluster_step<T: Point>(points: Seq<T>, cs: Seq<T>, i: int, j: int, axis: int)
    requires
        0 <= i < points.len(),
    ensures
        cluster_size(points.take(i + 1), cs, j) == cluster_size(points.take(i), cs, j) + if nearest_idx(points[i], cs) == j {
            1nat
        } else {
            0nat
        },
        cluster_sum(points.take(i + 1), cs, j, axis) == cluster_sum(points.take(i), cs, j, axis)
            + if nearest_idx(points[i], cs) == j {
            points[i].coord(axis)
        } else {
            0
        },
{
    assert(points.take(i + 1).drop_last() =~= points.take(i));
    assert(points.take(i + 1).last() == points[i]);
}

/// With a single centroid every point joins its cluster: the cluster
/// count is the point count, and the cluster sums are the plain
/// coordinate sums.
pub proof fn lemma_single_cluster<T: Point>(points: Seq<T>, cs: Seq<T>, axis: int)
    requires
        cs.len() == 1,
    ensures
        cluster_size(points, cs, 0) == points.len(),
        cluster_sum(points, cs, 0, axis) == sum_coord(points, axis),
    decreases points.len(),
{
    if points.len() > 0 {
        lemma_single_cluster(points.drop_last(), cs, axis);
    }
}

/// The largest squared displacement between paired centroids, zero
/// when the sequences are empty or of different lengths.
pub open spec fn max_change<T: Point>(old_cs: Seq<T>, new_cs: Seq<T>) -> int
    decreases old_cs.len(),
{
    if old_cs.len() == 0 || old_cs.len() != new_cs.len() {
        0
    } else {
        let rest = max_change(old_cs.drop_last(), new_cs.drop_last());
        let d = old_cs.last().dist2_spec(new_cs.last());
        if d > rest {
            d
        } else {
            rest
        }
    }
}

/// A centroid set that does not move has no displacement.
pub proof fn lemma_max_change_self<T: Point>(cs: Seq<T>)
    ensures
        max_change(cs, cs) == 0,
    decreases cs.len(),
{
    if cs.len() > 0 {
        lemma_max_change_self(cs.drop_last());
        cs.last().dist2_self_is_zero();
    }
}

/// One Lloyd transition: the centroid sets have the same length, a
/// cluster that received points moves its centroid to their floor mean
/// per coordinate, and a cluster that received none keeps its previous
/// centroid.
pub open spec fn lloyd_related<T: Point>(points: Seq<T>, old_cs: Seq<T>, new_cs: Seq<T>) -> bool {
    &&& new_cs.len() == old_cs.len()
    &&& (forall|j: int|
        0 <= j < old_cs.len() && cluster_size(points, old_cs, j) == 0 ==> #[trigger] new_cs[j]
            == old_cs[j])
    &&& (forall|j: int, a: int|
        0 <= j < old_cs.len() && cluster_size(points, old_cs, j) > 0 && 0 <= a < 3
            ==> #[trigger] new_cs[j].coord(a) == cluster_sum(points, old_cs, j, a) / (
        cluster_size(points, old_cs, j) as int))
}

/// One Lloyd iteration: every point joins the cluster of its nearest
/// centroid (ties to the lowest index), and the new centroids relate
/// to the old ones as `lloyd_related` says.  The second result is the
/// largest squared displacement any centroid made.
pub fn lloyd_step<T: Point>(points: &Vec<T>, centroids: &Vec<T>) -> (r: (Vec<T>, u128))
    requires
        1 <= centroids@.len(),
        points@.len() <= MAX_POINTS,
        all_wf(points@),
        all_wf(centroids@),
    ensures
        lloyd_related(points@, centroids@, r.0@),
        all_wf(r.0@),
        r.1 as int == max_change(centroids@, r.0@),
{
    let k = centroids.len();
    let mut cnt: Vec<u64> = Vec::new();
    let mut sx: Vec<u64> = Vec::new();
    let mut sy: Vec<u64> = Vec::new();
    let mut sz: Vec<u64> = Vec::new();
    while cnt.len() < k
        invariant
            cnt@.len() == sx@.len() == sy@.len() == sz@.len() <= k,
            forall|j: int| 0 <= j < cnt@.len() ==> (#[trigger] cnt@[j]) == 0,
            forall|j: int| 0 <= j < sx@.len() ==> (#[trigger] sx@[j]) == 0,
            forall|j: int| 0 <= j < sy@.len() ==> (#[trigger] sy@[j]) == 0,
            forall|j: int| 0 <= j < sz@.len() ==> (#[trigger] sz@[j]) == 0,
        decreases k - cnt@.len(),
    {
        cnt.push(0);
        sx.push(0);
        sy.push(0);
        sz.push(0);
    }
    let mut i: usize = 0;
    while i < points.len()
        invariant
            i <= points@.len(),
            points@.len() <= MAX_POINTS,
            all_wf(points@),
            all_wf(centroids@),
            k == centroids@.len() >= 1,
            cnt@.len() == k,
            sx@.len() == k,
            sy@.len() == k,
            sz@.len() == k,
            forall|j: int|
                0 <= j < k ==> (#[trigger] cnt@[j]) as int == cluster_size(
                    points@.take(i as int),
                    centroids@,
                    j,
                ),
            forall|j: int|
                0 <= j < k ==> (#[trigger] sx@[j]) as int == cluster_sum(
                    points@.take(i as int),
                    centroids@,
                    j,
                    0,
                ) && sy@[j] as int == cluster_sum(points@.take(i as int), centroids@, j, 1)
                    && sz@[j] as int == cluster_sum(points@.take(i as int), centroids@, j, 2),
        decreases points@.len() - i,
    {
        let p = points[i];
        let idx = match p.nearest(centroids) {
            Some(idx) => idx,
            None => {
                proof {
                    assert(false);
                }
                0
            },
        };
        proof {
            crate::distance::lemma_nearest_idx_unique(points@[i as int], centroids@, idx as int);
            let cur = points@.take(i as int);
            let next = points@.take(i as int + 1);
            assert(next.drop_last() =~= cur);
            assert(next.last() == points@[i as int]);
            assert(all_wf(cur)) by {
                assert(forall|q: int| 0 <= q < cur.len() ==> cur[q] == points@[q]);
            }
            T::coord_max_bound();
            assert forall|j: int, a: int| 0 <= j < k && 0 <= a < 3 implies 0 <= #[trigger] cluster_sum(
                cur,
                centroids@,
                j,
                a,
            ) <= 0x4000_0000_0000_0000 by {
                lemma_cluster_bounds(cur, centroids@, j, a);
                assert(cluster_size(cur, centroids@, j) * T::coord_max() <= 0x4000_0000
                    * 0x1_0000_0000) by (nonlinear_arith)
                    requires
                        0 <= cluster_size(cur, centroids@, j) <= 0x4000_0000 && 0 < T::coord_max()
                            <= 0x1_0000_0000,
                ;
            }
            points@[i as int].wf_bounds();
            lemma_cluster_bounds(cur, centroids@, idx as int, 0);
            assert(cluster_size(cur, centroids@, idx as int) <= i as int);
        }
        let (x, y, z) = p.coords();
        let ghost oldcnt = cnt@;
        let ghost oldsx = sx@;
        let ghost oldsy = sy@;
        let ghost oldsz = sz@;
        let c0 = cnt[idx];
        cnt.set(idx, c0 + 1);
        let v0 = sx[idx];
        sx.set(idx, v0 + x as u64);
        let v1 = sy[idx];
        sy.set(idx, v1 + y as u64);
        let v2 = sz[idx];
        sz.set(idx, v2 + z as u64);
        proof {
            let cur = points@.take(i as int);
            let next = points@.take(i as int + 1);
            assert(next.drop_last() =~= cur);
            assert(next.last() == points@[i as int]);
            assert forall|j: int| 0 <= j < k implies (#[trigger] cnt@[j]) as int == cluster_size(
                next,
                centroids@,
                j,
            ) && sx@[j] as int == cluster_sum(next, centroids@, j, 0) && sy@[j] as int
                == cluster_sum(next, centroids@, j, 1) && sz@[j] as int == cluster_sum(
                next,
                centroids@,
                j,
                2,
            ) by {
                lemma_cluster_step(points@, centroids@, i as int, j, 0);
                lemma_cluster_step(points@, centroids@, i as int, j, 1);
                lemma_cluster_step(points@, centroids@, i as int, j, 2);
                assert(oldcnt[j] as int == cluster_size(cur, centroids@, j));
                assert(oldsx[j] as int == cluster_sum(cur, centroids@, j, 0));
                assert(oldsy[j] as int == cluster_sum(cur, centroids@, j, 1));
                assert(oldsz[j] as int == cluster_sum(cur, centroids@, j, 2));
                if j == idx as int {
                    assert(cnt@[j] == c0 + 1 && sx@[j] == v0 + x as u64 && sy@[j] == v1
                        + y as u64 && sz@[j] == v2 + z as u64);
                } else {
                    assert(cnt@[j] == oldcnt[j] && sx@[j] == oldsx[j] && sy@[j] == oldsy[j]
                        && sz@[j] == oldsz[j]);
                }
            }
            assert forall|j: int|
                0 <= j < k implies (#[trigger] sx@[j]) as int == cluster_sum(
                next,
                centroids@,
                j,
                0,
            ) && sy@[j] as int == cluster_sum(next, centroids@, j, 1) && sz@[j] as int
                == cluster_sum(next, centroids@, j, 2) by {
                assert(cnt@[j] as int == cluster_size(next, centroids@, j) && sx@[j] as int
                    == cluster_sum(next, centroids@, j, 0) && sy@[j] as int == cluster_sum(
                    next,
                    centroids@,
                    j,
                    1,
                ) && sz@[j] as int == cluster_sum(next, centroids@, j, 2));
            }
        }
        i = i + 1;
    }
    proof {
        assert(points@.take(points@.len() as int) =~= points@);
    }
    let mut new_cs: Vec<T> = Vec::new();
    let mut mc: u128 = 0;
    let mut j: usize = 0;
    while j < k
        invariant
            j <= k,
            k == centroids@.len(),
            points@.len() <= MAX_POINTS,
            all_wf(points@),
            all_wf(centroids@),
            cnt@.len() == k,
            sx@.len() == k,
            sy@.len() == k,
            sz@.len() == k,
            forall|q: int|
                0 <= q < k ==> (#[trigger] cnt@[q]) as int == cluster_size(points@, centroids@, q),
            forall|q: int|
                0 <= q < k ==> (#[trigger] sx@[q]) as int == cluster_sum(points@, centroids@, q, 0)
                    && sy@[q] as int == cluster_sum(points@, centroids@, q, 1) && sz@[q] as int
                    == cluster_sum(points@, centroids@, q, 2),
            new_cs@.len() == j,
            all_wf(new_cs@),
            forall|q: int|
                0 <= q < j && cluster_size(points@, centroids@, q) == 0
                    ==> #[trigger] new_cs@[q] == centroids@[q],
            forall|q: int, a: int|
                0 <= q < j && cluster_size(points@, centroids@, q) > 0 && 0 <= a < 3
                    ==> #[trigger] new_cs@[q].coord(a) == cluster_sum(points@, centroids@, q, a) / (
                cluster_size(points@, centroids@, q) as int),
            mc as int == max_change(centroids@.take(j as int), new_cs@),
        decreases k - j,
    {
        let c = if cnt[j] == 0 {
            centroids[j]
        } else {
            proof {
                T::coord_max_bound();
                let size = cluster_size(points@, centroids@, j as int) as int;
                assert forall|a: int| 0 <= a < 3 implies 0 <= #[trigger] cluster_sum(
                    points@,
                    centroids@,
                    j as int,
                    a,
                ) / size <= T::coord_max() by {
                    lemma_cluster_bounds(points@, centroids@, j as int, a);
                    assert(0 <= cluster_sum(points@, centroids@, j as int, a) / size
                        <= T::coord_max()) by (nonlinear_arith)
                        requires
                            size >= 1 && 0 < T::coord_max() && 0 <= cluster_sum(
                                points@,
                                centroids@,
                                j as int,
                                a,
                            ) <= size * T::coord_max(),
                    ;
                }
            }
            T::from_coords(
                (sx[j] / cnt[j]) as u32,
                (sy[j] / cnt[j]) as u32,
                (sz[j] / cnt[j]) as u32,
            )
        };
        let d = centroids[j].distance2(&c);
        if d > mc {
            mc = d;
        }
        let ghost prev = new_cs@;
        new_cs.push(c);
        proof {
            let t = centroids@.take(j as int + 1);
            assert(t.drop_last() =~= centroids@.take(j as int));
            assert(t.last() == centroids@[j as int]);
            assert(new_cs@.drop_last() =~= prev);
            assert(new_cs@.last() == c);
        }
        j = j + 1;
    }
    proof {
        assert(centroids@.take(k as int) =~= centroids@);
        assert(lloyd_related(points@, centroids@, new_cs@));
    }
    (new_cs, mc)
}

/// One full run of the clustering loop: `steps` starts at the sharded
/// seed under the sorting permutation `perm`, every adjacent pair is
/// one Lloyd transition, every transition but the last moved some
/// centroid a squared distance above `thresh`, and the run stops at the
/// first convergence or after `max_iter` transitions.
pub open spec fn kmeans_run<T: Point>(
    points: Seq<T>,
    perm: Seq<int>,
    steps: Seq<Seq<T>>,
    k: int,
    thresh: u128,
    max_iter: int,
) -> bool {
    &&& sorting_perm(perm, points)
    &&& 1 <= steps.len() <= max_iter + 1
    &&& sharded_seed(points, perm, steps[0], k)
    &&& (forall|i: int|
        0 <= i < steps.len() - 1 ==> lloyd_related(points, #[trigger] steps[i], steps[i + 1]))
    &&& (forall|i: int|
        0 <= i < steps.len() - 2 ==> max_change(#[trigger] steps[i], steps[i + 1]) > thresh)
    &&& (steps.len() == max_iter + 1 || (steps.len() >= 2 && max_change(
        steps[steps.len() - 2],
        steps.last(),
    ) <= thresh))
}

/// With a single centroid every point stays in its one cluster: one
/// Lloyd transition from any centroid reaches the floor mean of all
/// points, and a second transition does not move it, so a single
/// cluster converges in one iteration with no displacement left.
pub proof fn lemma_single_cluster_stationary<T: Point>(
    points: Seq<T>,
    cs: Seq<T>,
    next: Seq<T>,
    again: Seq<T>,
)
    requires
        points.len() >= 1,
        cs.len() == 1,
        lloyd_related(points, cs, next),
        lloyd_related(points, next, again),
    ensures
        forall|a: int|
            0 <= a < 3 ==> #[trigger] next[0].coord(a) == sum_coord(points, a) / (
            points.len() as int),
        again == next,
        max_change(next, again) == 0,
{
    lemma_single_cluster(points, cs, 0);
    lemma_single_cluster(points, cs, 1);
    lemma_single_cluster(points, cs, 2);
    lemma_single_cluster(points, next, 0);
    lemma_single_cluster(points, next, 1);
    lemma_single_cluster(points, next, 2);
    assert(cluster_size(points, cs, 0) > 0);
    assert(cluster_size(points, next, 0) > 0);
    assert(forall|a: int| 0 <= a < 3 ==> #[trigger] again[0].coord(a) == next[0].coord(a));
    again[0].coords_determine(next[0]);
    assert(again =~= next);
    lemma_max_change_self(next);
}

/// Runs k-means: seeds exactly `k` centroids by naive sharding, then
/// iterates Lloyd steps until no centroid moved a squared distance
/// above `thresh` or `max_iter` iterations ran, whichever comes first.
/// An empty cluster keeps its previous centroid, so every returned
/// centroid is well-formed.  With a single cluster the result is the
/// floor mean of all points; otherwise the result is the last state of
/// a run as `kmeans_run` describes.
pub fn fit<T: Point>(points: &Vec<T>, k: usize, thresh: u128, max_iter: usize) -> (r: Vec<T>)
    requires
        1 <= k <= points@.len(),
        points@.len() <= MAX_POINTS,
        all_wf(points@),
    ensures
        r@.len() == k,
        all_wf(r@),
        k == 1 ==> (forall|a: int|
            0 <= a < 3 ==> #[trigger] r@[0].coord(a) == sum_coord(points@, a) / (
            points@.len() as int)),
        k >= 2 ==> exists|perm: Seq<int>, steps: Seq<Seq<T>>|
            #[trigger] kmeans_run(points@, perm, steps, k as int, thresh, max_iter as int) && r@
                == steps.last(),
{
    let mut centroids = naive_sharding(points, k);
    let ghost perm = choose|perm: Seq<int>|
        sorting_perm(perm, points@) && sharded_seed(points@, perm, centroids@, k as int);
    let ghost mut steps: Seq<Seq<T>> = seq![centroids@];
    let mut done: bool = false;
    let mut it: usize = 0;
    while it < max_iter && !done
        invariant
            centroids@.len() == k,
            1 <= k <= points@.len(),
            points@.len() <= MAX_POINTS,
            all_wf(points@),
            all_wf(centroids@),
            it <= max_iter,
            steps.len() == it + 1,
            steps.last() == centroids@,
            k >= 2 ==> sorting_perm(perm, points@) && sharded_seed(
                points@,
                perm,
                steps[0],
                k as int,
            ),
            forall|i: int|
                0 <= i < steps.len() - 1 ==> lloyd_related(points@, #[trigger] steps[i], steps[i + 1]),
            forall|i: int|
                0 <= i < steps.len() - 2 ==> max_change(#[trigger] steps[i], steps[i + 1]) > thresh,
            done ==> steps.len() >= 2 && max_change(steps[steps.len() - 2], steps.last()) <= thresh,
            !done ==> (steps.len() < 2 || max_change(steps[steps.len() - 2], steps.last())
                > thresh),
            k == 1 ==> (forall|a: int|
                0 <= a < 3 ==> #[trigger] centroids@[0].coord(a) == sum_coord(points@, a) / (
                points@.len() as int)),
        decreases max_iter - it,
    {
        let (next, mc) = lloyd_step(points, &centroids);
        proof {
            if k == 1 {
                lemma_single_cluster(points@, centroids@, 0);
                lemma_single_cluster(points@, centroids@, 1);
                lemma_single_cluster(points@, centroids@, 2);
            }
            let prevsteps = steps;
            steps = steps.push(next@);
            assert(steps.last() == next@);
            assert(steps[0] == prevsteps[0]);
            assert forall|i: int|
                0 <= i < steps.len() - 1 implies lloyd_related(
                points@,
                #[trigger] steps[i],
                steps[i + 1],
            ) by {
                if i < prevsteps.len() - 1 {
                    assert(steps[i] == prevsteps[i] && steps[i + 1] == prevsteps[i + 1]);
                } else {
                    assert(steps[i] == centroids@ && steps[i + 1] == next@);
                }
            }
            assert forall|i: int|
                0 <= i < steps.len() - 2 implies max_change(#[trigger] steps[i], steps[i + 1])
                > thresh by {
                assert(steps[i] == prevsteps[i] && steps[i + 1] == prevsteps[i + 1]);
                if i == prevsteps.len() - 2 {
                    assert(max_change(prevsteps[prevsteps.len() - 2], prevsteps.last()) > thresh);
                }
            }
        }
        centroids = next;
        if mc <= thresh {
            done = true;
        }
        it = it + 1;
    }
    proof {
        if k >= 2 {
            if !done {
                assert(steps.len() == max_iter + 1);
            }
            assert(kmeans_run(points@, perm, steps, k as int, thresh, max_iter as int));
        }
    }
    centroids
}

} // verus!
