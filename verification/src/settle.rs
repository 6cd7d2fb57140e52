//! Effects on the projections themselves.
//!
//! Association weights and memory states hold fractions. How a fraction changes is up to an
//! implementation of [`Arithmetic`]; which weight or state is changed, from which value, and in
//! which order, is settled here. Only what concerns the indexes and organs is handed on.
use crate::apply::{apply_op, folded, folded_nothing, folded_one_more, op_done, Effect, Model, Projections};
use crate::assoc::{both_weighted, edge_weight, reweighted, strengthen_assoc_edge_map};
use crate::memory::MemoryState;
use crate::ops::{EdgeType, Op, StateDeltaOp};
use crate::seqs::{filter_ends, filter_step};
use vstd::prelude::*;

verus! {

/// Computing with fractions, which are given by their bit patterns.
pub trait Arithmetic {
    /// The weight of an association that is strengthened by `multiplier` times `delta`, from its
    /// weight so far if it has one.
    fn weight(&self, old: Option<u32>, delta: u32, multiplier: u32) -> u32;

    /// A state after an explicit change, as of `now_ms`.
    fn change(&self, state: MemoryState, delta: StateDeltaOp, now_ms: i64) -> MemoryState;

    /// A state after an outcome was observed.
    fn observe(&self, state: MemoryState, success: bool, weight: u32) -> MemoryState;
}

/// The effect is on the projections.
pub open spec fn inward(e: Effect) -> bool {
    e is Strengthen || e is StateDelta || e is Outcome
}

/// What is left for the indexes and organs.
pub open spec fn outward(fx: Seq<Effect>) -> Seq<Effect> {
    fx.filter(|e: Effect| !inward(e))
}

/// Both directions between two memories have the weights that the arithmetic makes of their former
/// weights.
pub open spec fn strengthened<A: Arithmetic>(
    a: &A,
    before: Model,
    after: Model,
    src: u64,
    dst: u64,
    edge_type: EdgeType,
    delta: u32,
    multiplier: u32,
) -> bool {
    &&& after == (Model { edges: after.edges, ..before })
    &&& exists|there: u32, back: u32|
        {
            &&& call_ensures(
                A::weight,
                (a, edge_weight(before.edges, src, dst, edge_type), delta, multiplier),
                there,
            )
            &&& call_ensures(
                A::weight,
                (
                    a,
                    edge_weight(
                        reweighted(before.edges, src, dst, edge_type, there),
                        dst,
                        src,
                        edge_type,
                    ),
                    delta,
                    multiplier,
                ),
                back,
            )
            &&& after.edges == #[trigger] both_weighted(
                before.edges,
                src,
                dst,
                edge_type,
                there,
                back,
            )
        }
}

/// The state of a memory is replaced.
pub open spec fn replaced(before: Model, after: Model, id: u64, state: MemoryState) -> bool {
    after == (Model { states: before.states.insert(id, state), ..before })
}

/// What one effect does to the projections.
pub open spec fn settles<A: Arithmetic>(a: &A, before: Model, after: Model, e: Effect) -> bool {
    match e {
        Effect::Strengthen { src, dst, edge_type, delta, multiplier } => strengthened(
            a,
            before,
            after,
            src,
            dst,
            edge_type,
            delta,
            multiplier,
        ),
        Effect::StateDelta { delta, now_ms } => if before.states.contains_key(delta.memory_id) {
            exists|s: MemoryState|
                call_ensures(A::change, (a, before.states[delta.memory_id], delta, now_ms), s)
                    && #[trigger] replaced(before, after, delta.memory_id, s)
        } else {
            after == before
        },
        Effect::Outcome { memory_id, success, weight } => if before.states.contains_key(memory_id) {
            exists|s: MemoryState|
                call_ensures(A::observe, (a, before.states[memory_id], success, weight), s)
                    && #[trigger] replaced(before, after, memory_id, s)
        } else {
            after == before
        },
        _ => after == before,
    }
}

pub open spec fn settle_step<A: Arithmetic>(a: &A) -> spec_fn(Model, Model, Effect) -> bool {
    |before: Model, after: Model, e: Effect| settles(a, before, after, e)
}

fn strengthen<A: Arithmetic>(
    ctx: &mut Projections,
    a: &A,
    src: u64,
    dst: u64,
    edge_type: EdgeType,
    delta: u32,
    multiplier: u32,
)
    requires
        old(ctx).wf(),
    ensures
        final(ctx).wf(),
        strengthened(a, old(ctx)@, final(ctx)@, src, dst, edge_type, delta, multiplier),
{
    let weigh = |w: Option<u32>| -> (r: u32)
        ensures
            call_ensures(A::weight, (a, w, delta, multiplier), r),
        { a.weight(w, delta, multiplier) };
    strengthen_assoc_edge_map(&mut ctx.edges, src, dst, edge_type, weigh);
}

/// Performs an effect on the projections, or hands it back.
pub fn settle_one<A: Arithmetic>(e: Effect, ctx: &mut Projections, a: &A) -> (rest: Option<Effect>)
    requires
        old(ctx).wf(),
    ensures
        final(ctx).wf(),
        settles(a, old(ctx)@, final(ctx)@, e),
        rest == if inward(e) {
            None
        } else {
            Some(e)
        },
{
    broadcast use vstd::std_specs::btree::group_btree_axioms;

    let ghost before = ctx@;
    match e {
        Effect::Strengthen { src, dst, edge_type, delta, multiplier } => {
            strengthen(ctx, a, src, dst, edge_type, delta, multiplier);
            None
        },
        Effect::StateDelta { delta, now_ms } => {
            let id: u64 = delta.memory_id;
            let ghost d = delta;
            if let Some(state) = ctx.states.remove(&id) {
                let after = a.change(state, delta, now_ms);
                ctx.states.insert(id, after);
                assert(ctx@.states =~= before.states.insert(id, after));
                assert(call_ensures(A::change, (a, before.states[id], d, now_ms), after));
                assert(replaced(before, ctx@, id, after));
            } else {
                assert(ctx@.states =~= before.states);
            }
            None
        },
        Effect::Outcome { memory_id, success, weight } => {
            if let Some(state) = ctx.states.remove(&memory_id) {
                let after = a.observe(state, success, weight);
                ctx.states.insert(memory_id, after);
                assert(ctx@.states =~= before.states.insert(memory_id, after));
                assert(call_ensures(A::observe, (a, before.states[memory_id], success, weight), after));
                assert(replaced(before, ctx@, memory_id, after));
            } else {
                assert(ctx@.states =~= before.states);
            }
            None
        },
        other => Some(other),
    }
}

/// Performs the effects on the projections, in order, and returns the others, in order.
pub fn settle<A: Arithmetic>(fx: Vec<Effect>, ctx: &mut Projections, a: &A) -> (rest: Vec<Effect>)
    requires
        old(ctx).wf(),
    ensures
        final(ctx).wf(),
        folded(old(ctx)@, final(ctx)@, fx@, settle_step(a)),
        rest@ == outward(fx@),
{
    let ghost all = fx@;
    let ghost start = ctx@;
    let ghost pred = |e: Effect| !inward(e);
    let mut rest: Vec<Effect> = Vec::new();
    proof {
        folded_nothing(start, settle_step(a));
        filter_ends(all, pred);
        assert(all.take(0) =~= Seq::<Effect>::empty());
    }
    for e in it: fx
        invariant
            it.seq() == all,
            ctx.wf(),
            pred == (|e: Effect| !inward(e)),
            folded(start, ctx@, all.take(it.index() as int), settle_step(a)),
            rest@ == all.take(it.index() as int).filter(pred),
    {
        let ghost k = it.index() as int;
        let ghost mid = ctx@;
        let ghost item = e;
        proof {
            filter_step(all, pred, k);
        }
        match settle_one(e, ctx, a) {
            Some(other) => {
                rest.push(other);
            },
            None => {},
        }
        proof {
            folded_one_more(start, mid, ctx@, all.take(k), item, settle_step(a));
            assert(all.take(k + 1) =~= all.take(k).push(item));
        }
    }
    assert(all.take(all.len() as int) =~= all);
    rest
}

/// An operation and all its effects on the projections, with what it asks of everything else.
pub open spec fn carried_out<A: Arithmetic>(
    a: &A,
    before: Model,
    after: Model,
    op: Op,
    asked: Seq<Effect>,
) -> bool {
    exists|mid: Model, fx: Seq<Effect>| #[trigger]
        op_done(before, mid, op, fx) && folded(mid, after, fx, settle_step(a)) && asked == outward(
            fx,
        )
}

/// Applies an operation with its effects on the projections.
pub fn carry_out<A: Arithmetic>(op: Op, ctx: &mut Projections, a: &A) -> (asked: Vec<Effect>)
    requires
        old(ctx).wf(),
    ensures
        final(ctx).wf(),
        carried_out(a, old(ctx)@, final(ctx)@, op, asked@),
{
    let fx = apply_op(op, ctx);
    settle(fx, ctx, a)
}

/// Settling effects changes weights and states of memories that have one, and nothing else.
pub proof fn settling_is_confined<A: Arithmetic>(a: &A, before: Model, after: Model, fx: Seq<Effect>)
    requires
        folded(before, after, fx, settle_step(a)),
    ensures
        after == (Model { states: after.states, edges: after.edges, ..before }),
        after.states.dom() == before.states.dom(),
    decreases fx.len(),
{
    let step = settle_step(a);
    let steps = choose|steps: Seq<Model>| #[trigger]
        crate::apply::chain(steps, fx, step) && steps.first() == before && steps.last() == after;
    if fx.len() > 0 {
        let n = fx.len() - 1;
        let mid = steps[n];
        let front = steps.drop_last();
        assert forall|k: int| 0 <= k < fx.drop_last().len() implies step(
            #[trigger] front[k],
            front[k + 1],
            fx.drop_last()[k],
        ) by {
            assert(step(steps[k], steps[k + 1], fx[k]));
        }
        assert(crate::apply::chain(front, fx.drop_last(), step));
        assert(folded(before, mid, fx.drop_last(), step));
        settling_is_confined(a, before, mid, fx.drop_last());
        assert(step(steps[n], steps[n + 1], fx[n]));
        assert(settles(a, mid, after, fx[n]));
        assert(after.states.dom() =~= mid.states.dom());
    }
}

/// Strengthening sets the weight there to what the arithmetic makes of the weight there, and the
/// weight back to what it makes of the weight back; every other weight stays.
pub proof fn strengthening_sets_both_weights<A: Arithmetic>(
    a: &A,
    before: Model,
    after: Model,
    src: u64,
    dst: u64,
    edge_type: EdgeType,
    delta: u32,
    multiplier: u32,
)
    requires
        settles(a, before, after, Effect::Strengthen { src, dst, edge_type, delta, multiplier }),
        src != dst,
    ensures
        edge_weight(after.edges, src, dst, edge_type) is Some,
        call_ensures(
            A::weight,
            (a, edge_weight(before.edges, src, dst, edge_type), delta, multiplier),
            edge_weight(after.edges, src, dst, edge_type)->0,
        ),
        edge_weight(after.edges, dst, src, edge_type) is Some,
        call_ensures(
            A::weight,
            (a, edge_weight(before.edges, dst, src, edge_type), delta, multiplier),
            edge_weight(after.edges, dst, src, edge_type)->0,
        ),
        forall|s: u64, d: u64, t: EdgeType|
            (s, d, t) != (src, dst, edge_type) && (s, d, t) != (dst, src, edge_type)
                ==> #[trigger] edge_weight(after.edges, s, d, t) == edge_weight(before.edges, s, d, t),
        after.states == before.states && after.payloads == before.payloads && after.pairs
            == before.pairs,
{
    let (there, back) = choose|there: u32, back: u32|
        {
            &&& call_ensures(
                A::weight,
                (a, edge_weight(before.edges, src, dst, edge_type), delta, multiplier),
                there,
            )
            &&& call_ensures(
                A::weight,
                (
                    a,
                    edge_weight(
                        reweighted(before.edges, src, dst, edge_type, there),
                        dst,
                        src,
                        edge_type,
                    ),
                    delta,
                    multiplier,
                ),
                back,
            )
            &&& after.edges == #[trigger] both_weighted(
                before.edges,
                src,
                dst,
                edge_type,
                there,
                back,
            )
        };
    let mid = reweighted(before.edges, src, dst, edge_type, there);
    crate::assoc::weight_read_back(before.edges, src, dst, edge_type, there);
    crate::assoc::weight_read_back(mid, dst, src, edge_type, back);
    assert((dst, src, edge_type) != (src, dst, edge_type));
    assert(edge_weight(mid, dst, src, edge_type) == edge_weight(before.edges, dst, src, edge_type));
    assert(edge_weight(after.edges, src, dst, edge_type) == edge_weight(mid, src, dst, edge_type));
    assert forall|s: u64, d: u64, t: EdgeType|
        (s, d, t) != (src, dst, edge_type) && (s, d, t) != (dst, src, edge_type) implies #[trigger] edge_weight(
        after.edges,
        s,
        d,
        t,
    ) == edge_weight(before.edges, s, d, t) by {
        assert(edge_weight(after.edges, s, d, t) == edge_weight(mid, s, d, t));
    }
}

/// An explicit change and an outcome replace the state of their memory by what the arithmetic makes
/// of it, and touch no other state; for a memory without a state they do nothing.
pub proof fn states_change_by_the_arithmetic<A: Arithmetic>(
    a: &A,
    before: Model,
    after: Model,
    e: Effect,
)
    requires
        settles(a, before, after, e),
    ensures
        e matches Effect::StateDelta { delta, now_ms } ==> {
            &&& before.states.contains_key(delta.memory_id) ==> call_ensures(
                A::change,
                (a, before.states[delta.memory_id], delta, now_ms),
                after.states[delta.memory_id],
            )
            &&& forall|id: u64|
                id != delta.memory_id && #[trigger] before.states.contains_key(id) ==> after.states[id]
                    == before.states[id]
        },
        e matches Effect::Outcome { memory_id, success, weight } ==> {
            &&& before.states.contains_key(memory_id) ==> call_ensures(
                A::observe,
                (a, before.states[memory_id], success, weight),
                after.states[memory_id],
            )
            &&& forall|id: u64|
                id != memory_id && #[trigger] before.states.contains_key(id) ==> after.states[id]
                    == before.states[id]
        },
        e is StateDelta || e is Outcome ==> after.states.dom() == before.states.dom() && after.edges
            == before.edges && after.payloads == before.payloads,
        !(e is StateDelta || e is Outcome || e is Strengthen) ==> after == before,
{
    if e is StateDelta || e is Outcome {
        assert(after.states.dom() =~= before.states.dom());
    }
}

/// What is handed on to the indexes and organs is every effect that is not on the projections, in
/// order, and no other.
pub proof fn nothing_is_held_back(fx: Seq<Effect>)
    ensures
        forall|k: int|
            0 <= k < fx.len() && !(#[trigger] fx[k] is Strengthen || fx[k] is StateDelta || fx[k] is Outcome)
                ==> outward(fx).contains(fx[k]),
        forall|k: int|
            0 <= k < outward(fx).len() ==> fx.contains(#[trigger] outward(fx)[k]) && !(outward(
                fx,
            )[k] is Strengthen || outward(fx)[k] is StateDelta || outward(fx)[k] is Outcome),
        (forall|k: int|
            0 <= k < fx.len() ==> !(#[trigger] fx[k] is Strengthen || fx[k] is StateDelta || fx[k] is Outcome))
            ==> outward(fx) == fx,
{
    let pred = |e: Effect| !inward(e);
    assert forall|k: int|
        0 <= k < fx.len() && !(#[trigger] fx[k] is Strengthen || fx[k] is StateDelta || fx[k] is Outcome) implies outward(
    fx).contains(fx[k]) by {
        fx.lemma_filter_contains(pred, k);
    }
    assert forall|k: int| 0 <= k < outward(fx).len() implies fx.contains(#[trigger] outward(fx)[k]) && !(
    outward(fx)[k] is Strengthen || outward(fx)[k] is StateDelta || outward(fx)[k] is Outcome) by {
        fx.lemma_filter_pred(pred, k);
        assert(outward(fx).contains(outward(fx)[k]));
        fx.lemma_filter_contains_rev(pred, outward(fx)[k]);
    }
    if forall|k: int|
        0 <= k < fx.len() ==> !(#[trigger] fx[k] is Strengthen || fx[k] is StateDelta || fx[k] is Outcome) {
        all_outward(fx);
    }
}

proof fn all_outward(fx: Seq<Effect>)
    requires
        forall|k: int| 0 <= k < fx.len() ==> !inward(#[trigger] fx[k]),
    ensures
        outward(fx) == fx,
    decreases fx.len(),
{
    reveal(Seq::filter);
    if fx.len() > 0 {
        assert forall|k: int| 0 <= k < fx.drop_last().len() implies !inward(
            #[trigger] fx.drop_last()[k],
        ) by {
            assert(!inward(fx[k]));
        }
        all_outward(fx.drop_last());
        assert(!inward(fx[fx.len() - 1]));
        assert(outward(fx) =~= fx);
    } else {
        assert(outward(fx) =~= fx);
    }
}

} // verus!
