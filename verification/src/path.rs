//! Routes through the composed graph.
//!
//! A path is an ordered coordinate sequence plus a total cost.  Appending
//! one path to another drops a shared boundary point, so consecutive
//! duplicates never accumulate, and adds the costs (saturating at the cost
//! type's maximum).

use crate::coord::GridCoord;
use crate::cost::Cost;
use vstd::prelude::*;

verus! {

/// The points of `a` extended by the points of `b`, skipping any point of
/// `b` that equals the point before it.
pub open spec fn append_points(a: Seq<GridCoord>, b: Seq<GridCoord>) -> Seq<GridCoord>
    decreases b.len(),
{
    if b.len() == 0 {
        a
    } else {
        let a2 = if a.len() > 0 && a.last() == b[0] {
            a
        } else {
            a.push(b[0])
        };
        append_points(a2, b.drop_first())
    }
}

/// Appending never shortens the left-hand sequence.
pub proof fn lemma_append_points_len(a: Seq<GridCoord>, b: Seq<GridCoord>)
    ensures
        append_points(a, b).len() >= a.len(),
    decreases b.len(),
{
    if b.len() > 0 {
        let a2 = if a.len() > 0 && a.last() == b[0] {
            a
        } else {
            a.push(b[0])
        };
        lemma_append_points_len(a2, b.drop_first());
    }
}

/// Processing one more point of `b` either keeps the sequence (boundary
/// duplicate) or pushes the point.
proof fn lemma_append_points_snoc(a: Seq<GridCoord>, b: Seq<GridCoord>, x: GridCoord)
    ensures
        append_points(a, b.push(x)) == (if append_points(a, b).len() > 0 && append_points(
            a,
            b,
        ).last() == x {
            append_points(a, b)
        } else {
            append_points(a, b).push(x)
        }),
    decreases b.len(),
{
    if b.len() == 0 {
        let bb = b.push(x);
        let a2 = if a.len() > 0 && a.last() == x {
            a
        } else {
            a.push(x)
        };
        assert(bb[0] == x);
        assert(bb.drop_first() =~= Seq::<GridCoord>::empty());
        assert(append_points(a2, bb.drop_first()) == a2);
        assert(append_points(a, bb) == a2);
        assert(append_points(a, b) == a);
    } else {
        let a2 = if a.len() > 0 && a.last() == b[0] {
            a
        } else {
            a.push(b[0])
        };
        assert(b.push(x)[0] == b[0]);
        assert(b.push(x).drop_first() =~= b.drop_first().push(x));
        lemma_append_points_snoc(a2, b.drop_first(), x);
    }
}

/// Appending a non-empty path ends where that path ends.
pub proof fn lemma_append_points_last(a: Seq<GridCoord>, b: Seq<GridCoord>)
    requires
        b.len() > 0,
    ensures
        append_points(a, b).len() >= 1,
        append_points(a, b).last() == b.last(),
    decreases b.len(),
{
    let a2 = if a.len() > 0 && a.last() == b[0] {
        a
    } else {
        a.push(b[0])
    };
    if b.len() == 1 {
        assert(b.drop_first() =~= Seq::<GridCoord>::empty());
        assert(append_points(a2, b.drop_first()) == a2);
    } else {
        assert(b.drop_first().last() == b.last());
        lemma_append_points_last(a2, b.drop_first());
    }
}

/// The points of a journey assembled by appending the segments, in
/// order, onto the first leg.
pub open spec fn fold_append_points(first: Seq<GridCoord>, rest: Seq<Seq<GridCoord>>) -> Seq<
    GridCoord,
>
    decreases rest.len(),
{
    if rest.len() == 0 {
        first
    } else {
        fold_append_points(append_points(first, rest[0]), rest.drop_first())
    }
}

/// Folding one more segment appends it at the end.
pub proof fn lemma_fold_append_snoc(
    first: Seq<GridCoord>,
    rest: Seq<Seq<GridCoord>>,
    x: Seq<GridCoord>,
)
    ensures
        fold_append_points(first, rest.push(x)) == append_points(
            fold_append_points(first, rest),
            x,
        ),
    decreases rest.len(),
{
    if rest.len() == 0 {
        assert(rest.push(x)[0] == x);
        assert(rest.push(x).drop_first() =~= Seq::<Seq<GridCoord>>::empty());
        assert(fold_append_points(append_points(first, x), Seq::<Seq<GridCoord>>::empty())
            == append_points(first, x));
        assert(fold_append_points(first, rest) == first);
    } else {
        assert(rest.push(x)[0] == rest[0]);
        assert(rest.push(x).drop_first() =~= rest.drop_first().push(x));
        lemma_fold_append_snoc(append_points(first, rest[0]), rest.drop_first(), x);
    }
}

/// An ordered coordinate sequence and its total traversal cost.
#[derive(PartialEq, Debug)]
pub struct Path<C: Cost> {
    pub total_cost: C,
    pub points: Vec<GridCoord>,
}

impl<C: Cost> Path<C> {
    /// The total cost of the path.
    pub fn cost(&self) -> (r: C)
        ensures
            r == self.total_cost,
    {
        self.total_cost
    }

    /// The last point of the path; a path must have at least one point to
    /// have an end.
    pub fn get_end(&self) -> (r: GridCoord)
        requires
            self.points@.len() >= 1,
        ensures
            r == self.points@.last(),
    {
        self.points[self.points.len() - 1]
    }

    /// Appends `other` onto the end of this path: costs add (saturating at
    /// the cost maximum) and a point of `other` equal to the point before
    /// it is dropped, so a shared boundary point appears once.
    pub fn append(&mut self, other: Self)
        requires
            old(self).points@.len() >= 1,
        ensures
            final(self).total_cost.value() == if old(self).total_cost.value()
                + other.total_cost.value() <= C::max_value() {
                old(self).total_cost.value() + other.total_cost.value()
            } else {
                C::max_value()
            },
            final(self).points@ == append_points(old(self).points@, other.points@),
    {
        self.total_cost = self.total_cost.add(other.total_cost);
        let n = other.points.len();
        let mut i: usize = 0;
        while i < n
            invariant
                i <= n,
                n == other.points@.len(),
                self.points@.len() >= 1,
                self.points@ == append_points(old(self).points@, other.points@.take(i as int)),
                self.total_cost.value() == if old(self).total_cost.value()
                    + other.total_cost.value() <= C::max_value() {
                    old(self).total_cost.value() + other.total_cost.value()
                } else {
                    C::max_value()
                },
            decreases n - i,
        {
            let item = other.points[i];
            let last = self.points[self.points.len() - 1];
            proof {
                assert(other.points@.take(i as int).push(other.points@[i as int])
                    =~= other.points@.take(i as int + 1));
                lemma_append_points_snoc(old(self).points@, other.points@.take(i as int), item);
                lemma_append_points_len(old(self).points@, other.points@.take(i as int));
            }
            if last != item {
                self.points.push(item);
            }
            i = i + 1;
        }
        proof {
            assert(other.points@.take(n as int) =~= other.points@);
        }
    }
}

} // verus!
