//! Feeding a sequence of shapes to a single-board packer, one at a time.

use vstd::prelude::*;
use crate::model::{Shape, Placement, sources};

verus! {

broadcast use vstd::seq_lib::group_to_multiset_ensures;

/// What a single-board packer does with each shape in turn: `step` maps the
/// packer's state and the next shape to the new state and the placement, if
/// the shape could be placed. The result is the final state, the placements
/// in order, and the shapes that could not be placed, in order.
pub open spec fn run_bin<S>(
    step: spec_fn(S, Shape) -> (S, Option<Placement>),
    init: S,
    shapes: Seq<Shape>,
) -> (S, Seq<Placement>, Seq<Shape>)
    decreases shapes.len(),
{
    if shapes.len() == 0 {
        (init, Seq::empty(), Seq::empty())
    } else {
        let prev = run_bin(step, init, shapes.drop_last());
        let next = step(prev.0, shapes.last());
        match next.1 {
            Some(p) => (next.0, prev.1.push(p), prev.2),
            None => (next.0, prev.1, prev.2.push(shapes.last())),
        }
    }
}

/// A step function that places, when it places anything, the shape it is given.
pub open spec fn places_given_shape<S>(step: spec_fn(S, Shape) -> (S, Option<Placement>)) -> bool {
    forall|st: S, s: Shape|
        (#[trigger] step(st, s)).1 is Some ==> step(st, s).1->0.source() == s
}

/// Running a packer over the prefix one longer than `i` adds one step.
pub proof fn lemma_run_bin_take<S>(
    step: spec_fn(S, Shape) -> (S, Option<Placement>),
    init: S,
    shapes: Seq<Shape>,
    i: int,
)
    requires
        0 <= i < shapes.len(),
    ensures
        ({
            let prev = run_bin(step, init, shapes.take(i));
            let next = step(prev.0, shapes[i]);
            run_bin(step, init, shapes.take(i + 1)) == match next.1 {
                Some(p) => (next.0, prev.1.push(p), prev.2),
                None => (next.0, prev.1, prev.2.push(shapes[i])),
            }
        }),
{
    assert(shapes.take(i + 1).drop_last() =~= shapes.take(i));
    assert(shapes.take(i + 1).last() == shapes[i]);
}

/// Every shape given to the packer comes out exactly once: either as the
/// source of a placement or among the shapes that could not be placed.
pub proof fn lemma_run_bin_conserves<S>(
    step: spec_fn(S, Shape) -> (S, Option<Placement>),
    init: S,
    shapes: Seq<Shape>,
)
    requires
        places_given_shape(step),
    ensures
        sources(run_bin(step, init, shapes).1).to_multiset().add(
            run_bin(step, init, shapes).2.to_multiset(),
        ) =~= shapes.to_multiset(),
        run_bin(step, init, shapes).1.len() + run_bin(step, init, shapes).2.len() == shapes.len(),
    decreases shapes.len(),
{
    if shapes.len() > 0 {
        let prev = run_bin(step, init, shapes.drop_last());
        lemma_run_bin_conserves(step, init, shapes.drop_last());
        let next = step(prev.0, shapes.last());
        assert(shapes.drop_last().push(shapes.last()) =~= shapes);
        match next.1 {
            Some(p) => {
                assert(sources(prev.1.push(p)) =~= sources(prev.1).push(p.source()));
            },
            None => {},
        }
    }
}

/// When the first shape is placed on the fresh board, the run places at
/// least one shape.
pub proof fn lemma_run_bin_first<S>(
    step: spec_fn(S, Shape) -> (S, Option<Placement>),
    init: S,
    shapes: Seq<Shape>,
)
    requires
        shapes.len() > 0,
        step(init, shapes[0]).1 is Some,
    ensures
        run_bin(step, init, shapes).1.len() > 0,
    decreases shapes.len(),
{
    let prev = run_bin(step, init, shapes.drop_last());
    if shapes.len() == 1 {
        assert(shapes.drop_last() =~= Seq::<Shape>::empty());
        assert(prev == (init, Seq::<Placement>::empty(), Seq::<Shape>::empty()));
        assert(shapes.last() == shapes[0]);
    } else {
        let init_shapes = shapes.drop_last();
        assert(init_shapes[0] == shapes[0]);
        lemma_run_bin_first(step, init, init_shapes);
        assert(prev.1.len() > 0);
    }
}

} // verus!
