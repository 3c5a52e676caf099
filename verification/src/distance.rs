//! The distance contract shared by every color type, and the generic
//! nearest-entry scan built on it.

use vstd::prelude::*;

verus! {

/// The metric every quantizable color type implements: a totally
/// ordered squared distance, plus the shared nearest-entry scan that
/// all quantization paths use.
pub trait Distance: Sized + Copy {
    /// The squared distance between two values, as the mathematical
    /// integer that `distance2` computes.
    spec fn dist2_spec(self, other: Self) -> int;

    /// A value is at squared distance zero from itself.
    proof fn dist2_self_is_zero(self)
        ensures
            self.dist2_spec(self) == 0,
    ;

    /// Squared distances are never negative.
    proof fn dist2_nonneg(self, other: Self)
        ensures
            0 <= self.dist2_spec(other),
    ;

    /// Computes the squared distance between `self` and `other`.
    fn distance2(&self, other: &Self) -> (r: u128)
        ensures
            r as int == self.dist2_spec(*other),
    ;

    /// Returns the index of the entry of `points` nearest to `self`:
    /// no entry is strictly closer, and every earlier entry is strictly
    /// farther, so ties keep the lowest index.  `None` exactly when
    /// `points` is empty.
    fn nearest(&self, points: &Vec<Self>) -> (r: Option<usize>)
        ensures
            match r {
                None => points@.len() == 0,
                Some(i) => i < points@.len() && (forall|j: int|
                    0 <= j < points@.len() ==> self.dist2_spec(points@[i as int])
                        <= self.dist2_spec(points@[j])) && (forall|j: int|
                    0 <= j < i ==> self.dist2_spec(points@[j]) > self.dist2_spec(
                        points@[i as int],
                    )),
            },
    {
        if points.len() == 0 {
            return None;
        }
        let mut best: usize = 0;
        let mut best_d: u128 = self.distance2(&points[0]);
        let mut i: usize = 1;
        while i < points.len()
            invariant
                1 <= i <= points@.len(),
                best < i,
                best_d as int == self.dist2_spec(points@[best as int]),
                forall|j: int|
                    0 <= j < i ==> self.dist2_spec(points@[best as int]) <= self.dist2_spec(
                        points@[j],
                    ),
                forall|j: int|
                    0 <= j < best ==> self.dist2_spec(points@[j]) > self.dist2_spec(
                        points@[best as int],
                    ),
            decreases points@.len() - i,
        {
            let d = self.distance2(&points[i]);
            if d < best_d {
                best = i;
                best_d = d;
            }
            i += 1;
        }
        Some(best)
    }
}

/// The index of the entry of `points` nearest to `q` under the type's
/// squared distance, with ties resolved to the lowest index.
pub open spec fn nearest_idx<T: Distance>(q: T, points: Seq<T>) -> int
    decreases points.len(),
{
    if points.len() <= 1 {
        0
    } else {
        let prev = nearest_idx(q, points.drop_last());
        if q.dist2_spec(points.last()) < q.dist2_spec(points[prev]) {
            points.len() - 1
        } else {
            prev
        }
    }
}

/// The nearest index is in range, no entry is strictly closer, and
/// every entry before it is strictly farther (the lowest-index
/// tie-break).
pub proof fn lemma_nearest_is_minimal<T: Distance>(q: T, points: Seq<T>)
    requires
        points.len() > 0,
    ensures
        0 <= nearest_idx(q, points) < points.len(),
        forall|j: int|
            0 <= j < points.len() ==> q.dist2_spec(points[nearest_idx(q, points)])
                <= #[trigger] q.dist2_spec(points[j]),
        forall|j: int|
            0 <= j < nearest_idx(q, points) ==> #[trigger] q.dist2_spec(points[j]) > q.dist2_spec(
                points[nearest_idx(q, points)],
            ),
    decreases points.len(),
{
    if points.len() > 1 {
        lemma_nearest_is_minimal(q, points.drop_last());
        assert(forall|j: int| 0 <= j < points.len() - 1 ==> points.drop_last()[j] == points[j]);
    }
}

/// Any index that satisfies the nearest-with-lowest-tie property is
/// `nearest_idx`: the property pins the result down.
pub proof fn lemma_nearest_idx_unique<T: Distance>(q: T, points: Seq<T>, i: int)
    requires
        0 <= i < points.len(),
        forall|j: int|
            0 <= j < points.len() ==> q.dist2_spec(points[i]) <= #[trigger] q.dist2_spec(points[j]),
        forall|j: int| 0 <= j < i ==> #[trigger] q.dist2_spec(points[j]) > q.dist2_spec(points[i]),
    ensures
        i == nearest_idx(q, points),
{
    let n = nearest_idx(q, points);
    lemma_nearest_is_minimal(q, points);
    if i < n {
        assert(false);
    }
    if n < i {
        assert(false);
    }
}

} // verus!
