use crate::deque::Deque;
use crate::guard::{maybe_grow, red_zone, stack_size, LARGEST_STACK};
use crate::ovec::OVec;
use vstd::multiset::Multiset;
use vstd::prelude::*;

verus! {

broadcast use vstd::seq_lib::group_to_multiset_ensures;

/// What `enclosing_points_with_bounds` returns on `points` with `bounds` already on
/// the surface, and the order it leaves `points` in, at most `steps` levels deep.
///
/// It takes the last point off. Where the ball of the other points holds it, that ball stands
/// and the point goes back to the back. Otherwise the point joins the bounds, the ball of the
/// other points with those bounds stands, and the point goes to the front. With the bounds
/// full, or no point left, the ball is the circumscribed ball of the bounds.
pub open spec fn welzl_steps<P, E: Enclosing<P>>(
    points: Seq<P>,
    bounds: Seq<P>,
    capacity: nat,
    steps: nat,
) -> (Option<E>, Seq<P>)
    decreases steps,
{
    if steps == 0 || points.len() == 0 || bounds.len() >= capacity {
        (E::spec_with_bounds(bounds), points)
    } else {
        let point = points.last();
        let (inner, rest) = welzl_steps::<P, E>(points.drop_last(), bounds, capacity, (steps - 1) as nat);
        if inner is Some && inner->0.spec_contains(point) {
            (inner, rest.push(point))
        } else {
            let (outer, rest) = welzl_steps::<P, E>(rest, bounds.push(point), capacity, (steps - 1) as nat);
            (outer, seq![point] + rest)
        }
    }
}

/// Welzl's recursion on `points` with `bounds` on the surface, and at most `capacity` bounds:
/// the ball found, and the order the points are left in.
pub open spec fn welzl<P, E: Enclosing<P>>(points: Seq<P>, bounds: Seq<P>, capacity: nat) -> (
    Option<E>,
    Seq<P>,
) {
    welzl_steps::<P, E>(points, bounds, capacity, points.len())
}

/// The recursion tried with at most `capacity` bounds, then, while it finds no ball, with one
/// bound fewer each time, down to none; each attempt starts from the order the one before left.
pub open spec fn enclose<P, E: Enclosing<P>>(points: Seq<P>, capacity: nat) -> (Option<E>, Seq<P>)
    decreases capacity,
{
    let (ball, rest) = welzl::<P, E>(points, Seq::empty(), capacity);
    if ball is Some || capacity == 0 {
        (ball, rest)
    } else {
        enclose::<P, E>(rest, (capacity - 1) as nat)
    }
}

/// Number of edges from the first of `count` bounds to the others, where those bounds can
/// have a circumscribed ball in `dimension` dimensions: there must be at least one bound, and
/// at most one more than the dimension.
pub fn simplex_dimension(count: usize, dimension: usize) -> (r: Option<usize>)
    ensures
        r == if 1 <= count <= dimension + 1 {
            Some((count - 1) as usize)
        } else {
            None::<usize>
        },
{
    if count == 0 || count - 1 > dimension {
        None
    } else {
        Some(count - 1)
    }
}

/// What one level of the recursion hands back: the ball found, the points, and the bounds.
pub type Descent<E, Q, P> = (Option<E>, Q, OVec<P>);

/// `r` is what the recursion hands back on `points` with `bounds`.
pub open spec fn descends<P, E: Enclosing<P>, Q: Deque<P>>(
    points: Q,
    bounds: OVec<P>,
    r: Descent<E, Q, P>,
) -> bool {
    &&& (r.0, r.1.items()) == welzl::<P, E>(points.items(), bounds@, bounds.spec_capacity())
    &&& r.2@ == bounds@
    &&& r.2.spec_capacity() == bounds.spec_capacity()
}

/// Minimum enclosing ball of points of type `P`.
///
/// Each spec function below stands for what the exec method of the same name computes. Code
/// generic over the trait knows nothing else of them, so what it proves holds whatever an
/// implementation computes. Their defaults serve implementations written outside Verus, which
/// cannot define spec functions; Verus relies on them for no such implementation.
pub trait Enclosing<P>: Sized {
    /// Dimension of the space the points lie in.
    open spec fn spec_dimension() -> nat {
        0
    }

    /// Whether the ball holds `point`.
    open spec fn spec_contains(&self, point: P) -> bool {
        false
    }

    /// The ball with all `bounds` on its surface, or `None` where it does not exist.
    open spec fn spec_with_bounds(bounds: Seq<P>) -> Option<Self> {
        None
    }

    /// Dimension of the space the points lie in.
    fn dimension() -> (r: usize)
        ensures
            r == Self::spec_dimension(),
    ;

    /// Whether the ball holds `point`.
    fn contains(&self, point: &P) -> (r: bool)
        ensures
            r == self.spec_contains(*point),
    ;

    /// Returns the circumscribed ball with all `bounds` on its surface, or `None` where it does
    /// not exist.
    fn with_bounds(bounds: &[P]) -> (r: Option<Self>)
        ensures
            r == Self::spec_with_bounds(bounds@),
    ;
}

/// Returns the minimum ball enclosing `points`, or `None` where every attempt failed for
/// want of a circumscribed ball.
///
/// Points should be shuffled beforehand for the expected linear time. The points are
/// reordered: those found on the surface move to the front, which speeds up later calls on
/// a similar set. The sequence is taken out of `points` while the recursion runs, and a
/// default one stands in for it meanwhile.
pub fn enclosing_points<P, E: Enclosing<P>, Q: Deque<P> + Default>(points: &mut Q) -> (r: Option<E>)
    requires
        old(points).items().len() > 0,
        E::spec_dimension() < usize::MAX,
    ensures
        (r, final(points).items()) == enclose::<P, E>(
            old(points).items(),
            E::spec_dimension() + 1,
        ),
        final(points).items().to_multiset() == old(points).items().to_multiset(),
        r is Some ==> exists|bounds: Seq<P>|
            {
                &&& #[trigger] E::spec_with_bounds(bounds) == r
                &&& bounds.len() <= E::spec_dimension() + 1
                &&& bounds.to_multiset().subset_of(old(points).items().to_multiset())
            },
{
    let ghost given = points.items();
    let ghost full = E::spec_dimension() + 1;
    proof {
        lemma_enclose_permutes::<P, E>(given, full);
    }
    let ghost found = lemma_enclose_bounds::<P, E>(given, full);
    let dimension = E::dimension();
    let red_zone = red_zone(dimension, core::mem::size_of::<P>());
    let stack_size = stack_size(red_zone);
    let mut owned = Q::default();
    core::mem::swap(points, &mut owned);
    let mut capacity = dimension + 1;
    loop
        invariant
            stack_size <= LARGEST_STACK,
            given == old(points).items(),
            full == E::spec_dimension() + 1,
            enclose::<P, E>(given, full).1.to_multiset() == given.to_multiset(),
            enclose::<P, E>(given, full).0 is Some ==> {
                &&& E::spec_with_bounds(found) == enclose::<P, E>(given, full).0
                &&& found.len() <= full
                &&& found.to_multiset().subset_of(given.to_multiset())
            },
            enclose::<P, E>(owned.items(), capacity as nat) == enclose::<P, E>(given, full),
        decreases capacity,
    {
        let bounds = OVec::new(capacity);
        let descend = move || -> (r: Descent<E, Q, P>)
            ensures
                descends(owned, bounds, r),
        {
            enclosing_points_with_bounds::<P, E, Q>(owned, bounds, red_zone, stack_size)
        };
        let (ball, rest, _) = maybe_grow(red_zone, stack_size, descend);
        owned = rest;
        if ball.is_some() || capacity == 0 {
            *points = owned;
            return ball;
        }
        capacity = capacity - 1;
    }
}

/// Returns the minimum ball enclosing `points` with `bounds` on its surface, and hands both
/// back: the points reordered, the bounds as they were. Each recursive call runs behind
/// [`maybe_grow`] with `red_zone` and `stack_size`.
pub fn enclosing_points_with_bounds<P, E: Enclosing<P>, Q: Deque<P>>(
    points: Q,
    bounds: OVec<P>,
    red_zone: usize,
    stack_size: usize,
) -> (r: Descent<E, Q, P>)
    requires
        stack_size <= LARGEST_STACK,
    ensures
        descends(points, bounds, r),
    decreases points.items().len(),
{
    let mut points = points;
    let mut bounds = bounds;
    if bounds.is_full() || points.is_empty() {
        let ball = E::with_bounds(bounds.as_slice());
        return (ball, points, bounds);
    }
    let ghost all = points.items();
    let ghost before = bounds@;
    let ghost capacity = bounds.spec_capacity();
    // Take the point from the back; the sequence is not empty here.
    let point = match points.pop_back() {
        Some(point) => point,
        None => {
            return (None, points, bounds);
        },
    };
    // Branch with one point less.
    let descend = move || -> (r: Descent<E, Q, P>)
        ensures
            descends(points, bounds, r),
    {
        enclosing_points_with_bounds::<P, E, Q>(points, bounds, red_zone, stack_size)
    };
    let (ball, rest, bounds) = maybe_grow(red_zone, stack_size, descend);
    let mut points = rest;
    proof {
        lemma_welzl_steps_len::<P, E>(all.drop_last(), before, capacity, (all.len() - 1) as nat);
        assert(all.drop_last().len() == (all.len() - 1) as nat);
    }
    let inside = match &ball {
        Some(ball) => ball.contains(&point),
        None => false,
    };
    if inside {
        // The point lies in the ball of the others: it goes back to the back.
        points.push_back(point);
        return (ball, points, bounds);
    }
    // The point lies on the surface: branch with one point less and one bound more.
    let mut bounds = bounds;
    bounds.push(point);
    let descend = move || -> (r: Descent<E, Q, P>)
        ensures
            descends(points, bounds, r),
    {
        enclosing_points_with_bounds::<P, E, Q>(points, bounds, red_zone, stack_size)
    };
    let (ball, rest, bounds) = maybe_grow(red_zone, stack_size, descend);
    let mut points = rest;
    let mut bounds = bounds;
    // Move the point from the bounds to the front; the bounds hold it here.
    let point = match bounds.pop() {
        Some(point) => point,
        None => {
            return (ball, points, bounds);
        },
    };
    points.push_front(point);
    proof {
        assert(bounds@ =~= before);
    }
    (ball, points, bounds)
}

/// The recursion hands back as many points as it was given.
proof fn lemma_welzl_steps_len<P, E: Enclosing<P>>(
    points: Seq<P>,
    bounds: Seq<P>,
    capacity: nat,
    steps: nat,
)
    ensures
        welzl_steps::<P, E>(points, bounds, capacity, steps).1.len() == points.len(),
    decreases steps,
{
    if steps == 0 || points.len() == 0 || bounds.len() >= capacity {
    } else {
        let point = points.last();
        let (inner, rest) = welzl_steps::<P, E>(points.drop_last(), bounds, capacity, (steps - 1) as nat);
        lemma_welzl_steps_len::<P, E>(points.drop_last(), bounds, capacity, (steps - 1) as nat);
        lemma_welzl_steps_len::<P, E>(rest, bounds.push(point), capacity, (steps - 1) as nat);
    }
}

} // verus!

verus! {

proof fn lemma_subset_insert<P>(small: Multiset<P>, large: Multiset<P>, point: P)
    requires
        small.subset_of(large),
    ensures
        small.insert(point).subset_of(large.insert(point)),
{
    broadcast use vstd::multiset::group_multiset_axioms;

    assert forall|v: P| small.insert(point).count(v) <= large.insert(point).count(v) by {
        assert(small.count(v) <= large.count(v));
    }
}

proof fn lemma_subset_trans<P>(a: Multiset<P>, b: Multiset<P>, c: Multiset<P>)
    requires
        a.subset_of(b),
        b.subset_of(c),
    ensures
        a.subset_of(c),
{
    assert forall|v: P| a.count(v) <= c.count(v) by {
        assert(a.count(v) <= b.count(v));
        assert(b.count(v) <= c.count(v));
    }
}

/// The multiset of `points` is that of the points without the last one, plus the last one.
proof fn lemma_split_last<P>(points: Seq<P>)
    requires
        points.len() > 0,
    ensures
        points.to_multiset() == points.drop_last().to_multiset().insert(points.last()),
        (seq![points.last()] + points.drop_last()).to_multiset() == points.to_multiset(),
{
    broadcast use vstd::multiset::group_multiset_axioms;
    broadcast use vstd::seq_lib::lemma_multiset_commutative;

    assert(points.drop_last().push(points.last()) =~= points);
    assert(seq![points.last()] =~= Seq::<P>::empty().push(points.last()));
    assert(Seq::<P>::empty().to_multiset() =~= Multiset::empty());
    assert((seq![points.last()] + points.drop_last()).to_multiset() =~= points.to_multiset());
}

/// The recursion only reorders the points: it neither loses nor adds one.
proof fn lemma_welzl_steps_permutes<P, E: Enclosing<P>>(
    points: Seq<P>,
    bounds: Seq<P>,
    capacity: nat,
    steps: nat,
)
    ensures
        welzl_steps::<P, E>(points, bounds, capacity, steps).1.to_multiset() == points.to_multiset(),
    decreases steps,
{
    broadcast use vstd::multiset::group_multiset_axioms;
    broadcast use vstd::seq_lib::lemma_multiset_commutative;

    if steps == 0 || points.len() == 0 || bounds.len() >= capacity {
    } else {
        let point = points.last();
        let (inner, rest) = welzl_steps::<P, E>(points.drop_last(), bounds, capacity, (steps - 1) as nat);
        lemma_welzl_steps_permutes::<P, E>(points.drop_last(), bounds, capacity, (steps - 1) as nat);
        lemma_welzl_steps_permutes::<P, E>(rest, bounds.push(point), capacity, (steps - 1) as nat);
        lemma_split_last(points);
        let (outer, last) = welzl_steps::<P, E>(rest, bounds.push(point), capacity, (steps - 1) as nat);
        assert(seq![point] =~= Seq::<P>::empty().push(point));
        assert(Seq::<P>::empty().to_multiset() =~= Multiset::empty());
        assert((seq![point] + last).to_multiset() =~= points.to_multiset());
    }
}

/// Where the recursion finds a ball, it is the circumscribed ball of `bounds` followed by
/// the returned points, which are drawn from `points` and leave no more than `capacity`
/// bounds in all, or `bounds` alone.
proof fn lemma_welzl_steps_bounds<P, E: Enclosing<P>>(
    points: Seq<P>,
    bounds: Seq<P>,
    capacity: nat,
    steps: nat,
) -> (extra: Seq<P>)
    ensures
        welzl_steps::<P, E>(points, bounds, capacity, steps).0 is Some ==> {
            &&& E::spec_with_bounds(bounds + extra) == welzl_steps::<P, E>(
                points,
                bounds,
                capacity,
                steps,
            ).0
            &&& extra.to_multiset().subset_of(points.to_multiset())
            &&& extra.len() == 0 || bounds.len() + extra.len() <= capacity
        },
    decreases steps,
{
    broadcast use vstd::multiset::group_multiset_axioms;
    broadcast use vstd::seq_lib::lemma_multiset_commutative;

    if steps == 0 || points.len() == 0 || bounds.len() >= capacity {
        assert(bounds + Seq::<P>::empty() =~= bounds);
        assert(Seq::<P>::empty().to_multiset() =~= Multiset::empty());
        Seq::empty()
    } else {
        let point = points.last();
        let rest_points = points.drop_last();
        let (inner, rest) = welzl_steps::<P, E>(rest_points, bounds, capacity, (steps - 1) as nat);
        lemma_split_last(points);
        assert(rest_points.to_multiset().subset_of(points.to_multiset()));
        if inner is Some && inner->0.spec_contains(point) {
            let extra = lemma_welzl_steps_bounds::<P, E>(rest_points, bounds, capacity, (steps - 1) as nat);
            if inner is Some {
                lemma_subset_trans(extra.to_multiset(), rest_points.to_multiset(), points.to_multiset());
            }
            extra
        } else {
            lemma_welzl_steps_permutes::<P, E>(rest_points, bounds, capacity, (steps - 1) as nat);
            let more = lemma_welzl_steps_bounds::<P, E>(rest, bounds.push(point), capacity, (steps - 1) as nat);
            let extra = seq![point] + more;
            assert(bounds + extra =~= bounds.push(point) + more);
            assert(seq![point] =~= Seq::<P>::empty().push(point));
            assert(Seq::<P>::empty().to_multiset() =~= Multiset::empty());
            assert(extra.to_multiset() =~= more.to_multiset().insert(point));
            if welzl_steps::<P, E>(points, bounds, capacity, steps).0 is Some {
                lemma_subset_insert(more.to_multiset(), rest_points.to_multiset(), point);
            }
            extra
        }
    }
}

/// The points come back in another order, but the same points: none is lost, none is added.
pub proof fn lemma_enclose_permutes<P, E: Enclosing<P>>(points: Seq<P>, capacity: nat)
    ensures
        enclose::<P, E>(points, capacity).1.to_multiset() == points.to_multiset(),
    decreases capacity,
{
    let (ball, rest) = welzl::<P, E>(points, Seq::empty(), capacity);
    lemma_welzl_steps_permutes::<P, E>(points, Seq::empty(), capacity, points.len());
    if ball is Some || capacity == 0 {
    } else {
        lemma_enclose_permutes::<P, E>(rest, (capacity - 1) as nat);
    }
}

/// The ball found is the circumscribed ball of at most `capacity` of the points: the returned
/// sequence, drawn from `points`.
pub proof fn lemma_enclose_bounds<P, E: Enclosing<P>>(points: Seq<P>, capacity: nat) -> (bounds:
    Seq<P>)
    ensures
        enclose::<P, E>(points, capacity).0 is Some ==> {
            &&& E::spec_with_bounds(bounds) == enclose::<P, E>(points, capacity).0
            &&& bounds.len() <= capacity
            &&& bounds.to_multiset().subset_of(points.to_multiset())
        },
    decreases capacity,
{
    let (ball, rest) = welzl::<P, E>(points, Seq::empty(), capacity);
    if ball is Some || capacity == 0 {
        let extra = lemma_welzl_steps_bounds::<P, E>(points, Seq::empty(), capacity, points.len());
        assert(Seq::<P>::empty() + extra =~= extra);
        extra
    } else {
        lemma_welzl_steps_permutes::<P, E>(points, Seq::empty(), capacity, points.len());
        lemma_enclose_bounds::<P, E>(rest, (capacity - 1) as nat)
    }
}

/// A single point, where no ball has an empty set of bounds, yields its own circumscribed
/// ball, and stays in place.
pub proof fn lemma_enclose_single<P, E: Enclosing<P>>(point: P, capacity: nat)
    requires
        E::spec_with_bounds(Seq::empty()) is None,
        capacity > 0,
    ensures
        enclose::<P, E>(seq![point], capacity) == (E::spec_with_bounds(seq![point]), seq![point]),
    decreases capacity,
{
    let points = seq![point];
    assert(points.drop_last() =~= Seq::<P>::empty());
    assert(Seq::<P>::empty().push(point) =~= points);
    assert(seq![point] + Seq::<P>::empty() =~= points);
    reveal_with_fuel(welzl_steps, 2);
    assert(welzl::<P, E>(points, Seq::empty(), capacity) == (
        E::spec_with_bounds(points),
        points,
    ));
    if E::spec_with_bounds(points) is None {
        if capacity > 1 {
            lemma_enclose_single::<P, E>(point, (capacity - 1) as nat);
        } else {
            assert(welzl::<P, E>(points, Seq::empty(), 0) == (None::<E>, points));
            reveal_with_fuel(enclose, 2);
        }
    }
}

/// Every circumscribed ball that exists holds each of its own bounds.
pub open spec fn holds_own_bounds<P, E: Enclosing<P>>() -> bool {
    forall|bounds: Seq<P>, i: int|
        #![trigger E::spec_with_bounds(bounds), bounds[i]]
        0 <= i < bounds.len() && E::spec_with_bounds(bounds) is Some ==> E::spec_with_bounds(
            bounds,
        )->0.spec_contains(bounds[i])
}

proof fn lemma_welzl_steps_holds<P, E: Enclosing<P>>(
    points: Seq<P>,
    bounds: Seq<P>,
    capacity: nat,
    steps: nat,
)
    requires
        holds_own_bounds::<P, E>(),
        bounds.len() + points.len() <= capacity,
        points.len() <= steps,
    ensures
        welzl_steps::<P, E>(points, bounds, capacity, steps).0 is Some ==> {
            let ball = welzl_steps::<P, E>(points, bounds, capacity, steps).0->0;
            &&& forall|i: int| 0 <= i < points.len() ==> ball.spec_contains(#[trigger] points[i])
            &&& forall|i: int| 0 <= i < bounds.len() ==> ball.spec_contains(#[trigger] bounds[i])
        },
    decreases steps,
{
    broadcast use vstd::multiset::group_multiset_axioms;

    if steps == 0 || points.len() == 0 || bounds.len() >= capacity {
    } else {
        let point = points.last();
        let rest_points = points.drop_last();
        let (inner, rest) = welzl_steps::<P, E>(rest_points, bounds, capacity, (steps - 1) as nat);
        lemma_welzl_steps_holds::<P, E>(rest_points, bounds, capacity, (steps - 1) as nat);
        if inner is Some && inner->0.spec_contains(point) {
            assert forall|i: int| 0 <= i < points.len() implies inner->0.spec_contains(
                #[trigger] points[i],
            ) by {
                if i < points.len() - 1 {
                    assert(points[i] == rest_points[i]);
                }
            }
        } else {
            lemma_welzl_steps_len::<P, E>(rest_points, bounds, capacity, (steps - 1) as nat);
            lemma_welzl_steps_permutes::<P, E>(rest_points, bounds, capacity, (steps - 1) as nat);
            let grown = bounds.push(point);
            lemma_welzl_steps_holds::<P, E>(rest, grown, capacity, (steps - 1) as nat);
            let (outer, _) = welzl_steps::<P, E>(rest, grown, capacity, (steps - 1) as nat);
            if outer is Some {
                let ball = outer->0;
                assert forall|i: int| 0 <= i < points.len() implies ball.spec_contains(
                    #[trigger] points[i],
                ) by {
                    if i < points.len() - 1 {
                        assert(rest_points.contains(points[i])) by {
                            assert(rest_points[i] == points[i]);
                        }
                        assert(rest_points.to_multiset().count(points[i]) > 0);
                        assert(rest.to_multiset().count(points[i]) > 0);
                        assert(rest.contains(points[i]));
                        let j = choose|j: int| 0 <= j < rest.len() && rest[j] == points[i];
                        assert(ball.spec_contains(rest[j]));
                    } else {
                        assert(grown[bounds.len() as int] == points[i]);
                    }
                }
                assert forall|i: int| 0 <= i < bounds.len() implies ball.spec_contains(
                    #[trigger] bounds[i],
                ) by {
                    assert(grown[i] == bounds[i]);
                }
            }
        }
    }
}

/// Where each circumscribed ball holds its own bounds, and the points and bounds together
/// number no more than the capacity, so that the bounds never fill up while points are left,
/// the ball that the recursion finds holds every point and every bound.
pub proof fn lemma_welzl_holds<P, E: Enclosing<P>>(points: Seq<P>, bounds: Seq<P>, capacity: nat)
    requires
        holds_own_bounds::<P, E>(),
        bounds.len() + points.len() <= capacity,
    ensures
        welzl::<P, E>(points, bounds, capacity).0 is Some ==> {
            let ball = welzl::<P, E>(points, bounds, capacity).0->0;
            &&& forall|i: int| 0 <= i < points.len() ==> ball.spec_contains(#[trigger] points[i])
            &&& forall|i: int| 0 <= i < bounds.len() ==> ball.spec_contains(#[trigger] bounds[i])
        },
{
    lemma_welzl_steps_holds::<P, E>(points, bounds, capacity, points.len());
}

} // verus!
