//! How deep a dependency tree has to be unfolded: through as many
//! connections in a row as the graph has, and no further.

use vstd::prelude::*;
use crate::ast::Name;
use crate::error::SemanticError;
use crate::resolve::{sources_of, EdgeView, GraphView};
use crate::scope::PinRefView;
use crate::tree::{
    children_of, drivers, instance_inputs, is_instance_output, lemma_drivers,
    lemma_trees_fail_early, tree_of, trees_of,
};

verus! {

/// Whether a result is the report of an unfolding that ran out of fuel.
pub open spec fn ran_out<T>(r: Result<T, SemanticError>) -> bool {
    r matches Err(e) && e == SemanticError::CyclicDependency
}

/// The pins that feed a node of the tree, where all of them are known.
spec fn feeding(graph: GraphView, pin: PinRefView) -> Result<
    Seq<PinRefView>,
    SemanticError,
> {
    if is_instance_output(graph.scope, pin) {
        drivers(graph.edges, pin.instance->0, instance_inputs(graph.scope, pin.instance->0))
    } else {
        Ok(sources_of(graph.edges, pin))
    }
}

/// Whether a pin is the source of a connection.
spec fn is_source(edges: Seq<EdgeView>, pin: PinRefView) -> bool {
    exists|i: int| 0 <= i < edges.len() && (#[trigger] edges[i]).source == pin
}

/// An unfolding runs out of fuel at a node that something feeds: at once
/// where no fuel is left, and else where the trees of what feeds it run out
/// of the rest.
proof fn lemma_runs_out(graph: GraphView, pin: PinRefView, fuel: nat)
    ensures
        ran_out(tree_of(graph, pin, fuel)) <==> {
            &&& feeding(graph, pin) matches Ok(pins)
            &&& pins.len() > 0
            &&& fuel > 0 ==> ran_out(trees_of(graph, pins, (fuel - 1) as nat))
        },
{
    match feeding(graph, pin) {
        Ok(pins) => {
            let below = children_of(graph, pins, fuel);
            assert(ran_out(tree_of(graph, pin, fuel)) <==> ran_out(below));
            if pins.len() > 0 && fuel > 0 {
                assert(below == trees_of(graph, pins, (fuel - 1) as nat));
            }
        },
        Err(e) => {
            if is_instance_output(graph.scope, pin) {
                lemma_drivers_fault(
                    graph.edges,
                    pin.instance->0,
                    instance_inputs(graph.scope, pin.instance->0),
                );
            }
        },
    }
}

/// What drives an instance is found without unfolding: a fault in it is
/// never that of running out of fuel.
proof fn lemma_drivers_fault(edges: Seq<EdgeView>, instance: Name, inputs: Seq<Name>)
    requires
        drivers(edges, instance, inputs) is Err,
    ensures
        !ran_out(drivers(edges, instance, inputs)),
    decreases inputs.len(),
{
    if inputs.len() > 0 && drivers(edges, instance, inputs.drop_last()) is Err {
        lemma_drivers_fault(edges, instance, inputs.drop_last());
    }
}

/// An unfolding that does not run out of fuel gives the same with more fuel.
pub proof fn lemma_tree_stable(graph: GraphView, pin: PinRefView, fuel: nat)
    requires
        !ran_out(tree_of(graph, pin, fuel)),
    ensures
        tree_of(graph, pin, fuel + 1) == tree_of(graph, pin, fuel),
    decreases fuel, 1nat, 0nat,
{
    match feeding(graph, pin) {
        Ok(pins) => lemma_children_stable(graph, pins, fuel),
        Err(_) => {},
    }
}

proof fn lemma_children_stable(graph: GraphView, pins: Seq<PinRefView>, fuel: nat)
    requires
        !ran_out(children_of(graph, pins, fuel)),
    ensures
        children_of(graph, pins, fuel + 1) == children_of(graph, pins, fuel),
    decreases fuel, 0nat, 0nat,
{
    if pins.len() > 0 {
        lemma_trees_stable(graph, pins, (fuel - 1) as nat);
    }
}

proof fn lemma_trees_stable(graph: GraphView, pins: Seq<PinRefView>, fuel: nat)
    requires
        !ran_out(trees_of(graph, pins, fuel)),
    ensures
        trees_of(graph, pins, fuel + 1) == trees_of(graph, pins, fuel),
    decreases fuel, 2nat, pins.len(),
{
    if pins.len() > 0 {
        lemma_trees_stable(graph, pins.drop_last(), fuel);
        if trees_of(graph, pins.drop_last(), fuel) is Ok {
            lemma_tree_stable(graph, pins.last(), fuel);
        }
    }
}

/// An unfolding that runs out of fuel runs out of any smaller fuel.
proof fn lemma_runs_out_below(graph: GraphView, pin: PinRefView, fuel: nat)
    requires
        ran_out(tree_of(graph, pin, fuel + 1)),
    ensures
        ran_out(tree_of(graph, pin, fuel)),
{
    if !ran_out(tree_of(graph, pin, fuel)) {
        lemma_tree_stable(graph, pin, fuel);
    }
}

/// What feeds a pin through connections is the source of a connection.
proof fn lemma_sources_are_sources(edges: Seq<EdgeView>, sink: PinRefView, k: int)
    requires
        0 <= k < sources_of(edges, sink).len(),
    ensures
        is_source(edges, sources_of(edges, sink)[k]),
    decreases edges.len(),
{
    if edges.len() > 0 {
        let before = edges.drop_last();
        if k < sources_of(before, sink).len() {
            lemma_sources_are_sources(before, sink, k);
            let i = choose|i: int|
                0 <= i < before.len() && (#[trigger] before[i]).source == sources_of(
                    before,
                    sink,
                )[k];
            assert(edges[i] == before[i]);
        } else {
            assert(edges[edges.len() - 1].source == sources_of(edges, sink)[k]);
        }
    }
}

/// What feeds a node of the tree is the source of a connection.
proof fn lemma_feeding_are_sources(graph: GraphView, pin: PinRefView, k: int)
    requires
        feeding(graph, pin) is Ok,
        0 <= k < feeding(graph, pin)->Ok_0.len(),
    ensures
        is_source(graph.edges, feeding(graph, pin)->Ok_0[k]),
{
    if is_instance_output(graph.scope, pin) {
        let instance = pin.instance->0;
        let inputs = instance_inputs(graph.scope, instance);
        lemma_drivers(graph.edges, instance, inputs);
        let into = sources_of(
            graph.edges,
            PinRefView { instance: Some(instance), pin: inputs[k] },
        );
        lemma_sources_are_sources(
            graph.edges,
            PinRefView { instance: Some(instance), pin: inputs[k] },
            0,
        );
    } else {
        lemma_sources_are_sources(graph.edges, pin, k);
    }
}

/// Whether every source that runs out of `fuel` runs out of one unit more.
spec fn rises(graph: GraphView, fuel: nat) -> bool {
    forall|x: PinRefView|
        #![trigger tree_of(graph, x, fuel)]
        is_source(graph.edges, x) && ran_out(tree_of(graph, x, fuel)) ==> ran_out(
            tree_of(graph, x, fuel + 1),
        )
}

/// Whether every source has something that feeds it.
spec fn all_fed(graph: GraphView) -> bool {
    forall|x: PinRefView|
        #![trigger tree_of(graph, x, 0)]
        is_source(graph.edges, x) ==> ran_out(tree_of(graph, x, 0))
}

proof fn lemma_trees_rise(graph: GraphView, pins: Seq<PinRefView>, fuel: nat)
    requires
        rises(graph, fuel),
        forall|k: int| 0 <= k < pins.len() ==> is_source(graph.edges, #[trigger] pins[k]),
        ran_out(trees_of(graph, pins, fuel)),
    ensures
        ran_out(trees_of(graph, pins, fuel + 1)),
    decreases pins.len(),
{
    if pins.len() > 0 {
        let before = pins.drop_last();
        assert forall|k: int| 0 <= k < before.len() implies is_source(
            graph.edges,
            #[trigger] before[k],
        ) by {
            assert(before[k] == pins[k]);
        }
        if trees_of(graph, before, fuel) is Ok {
            lemma_trees_stable(graph, before, fuel);
            assert(is_source(graph.edges, pins[pins.len() - 1]));
            assert(ran_out(tree_of(graph, pins.last(), fuel)));
        } else {
            lemma_trees_rise(graph, before, fuel);
        }
    }
}

/// Where the sources rise from `fuel`, every pin rises from one unit more.
proof fn lemma_tree_rises(graph: GraphView, pin: PinRefView, fuel: nat)
    requires
        rises(graph, fuel),
        ran_out(tree_of(graph, pin, fuel + 1)),
    ensures
        ran_out(tree_of(graph, pin, fuel + 2)),
{
    lemma_runs_out(graph, pin, fuel + 1);
    lemma_runs_out(graph, pin, fuel + 2);
    let pins = feeding(graph, pin)->Ok_0;
    assert forall|k: int| 0 <= k < pins.len() implies is_source(graph.edges, #[trigger] pins[k]) by {
        lemma_feeding_are_sources(graph, pin, k);
    }
    lemma_trees_rise(graph, pins, fuel);
}

/// Where every source is fed, every pin that is fed rises from no fuel.
proof fn lemma_fed_rises(graph: GraphView, pin: PinRefView)
    requires
        all_fed(graph),
        ran_out(tree_of(graph, pin, 0)),
    ensures
        ran_out(tree_of(graph, pin, 1)),
{
    lemma_runs_out(graph, pin, 0);
    lemma_runs_out(graph, pin, 1);
    let pins = feeding(graph, pin)->Ok_0;
    lemma_feeding_are_sources(graph, pin, 0);
    assert(ran_out(tree_of(graph, pins[0], 0)));
    assert(pins.take(1).drop_last() == Seq::<PinRefView>::empty());
    assert(pins.take(1).last() == pins[0]);
    assert(trees_of(graph, pins.take(1).drop_last(), 0) is Ok);
    assert(ran_out(trees_of(graph, pins.take(1), 0)));
    lemma_trees_fail_early(graph, pins, 0, 1);
}

/// Whether the sources rise from every fuel from `fuel` on.
spec fn rises_from(graph: GraphView, fuel: nat) -> bool {
    forall|f: nat| f >= fuel ==> #[trigger] rises(graph, f)
}

proof fn lemma_rises_on(graph: GraphView, fuel: nat, f: nat)
    requires
        rises(graph, fuel),
        f >= fuel,
    ensures
        rises(graph, f),
    decreases f - fuel,
{
    if f > fuel {
        lemma_rises_on(graph, fuel, (f - 1) as nat);
        assert forall|x: PinRefView|
            #![trigger tree_of(graph, x, f)]
            is_source(graph.edges, x) && ran_out(tree_of(graph, x, f)) implies ran_out(
            tree_of(graph, x, f + 1),
        ) by {
            lemma_tree_rises(graph, x, (f - 1) as nat);
        }
    }
}

/// How many of the first `n` connections have a source that runs out of
/// `fuel`.
spec fn starved(graph: GraphView, fuel: nat, n: nat) -> nat
    decreases n,
{
    if n == 0 {
        0
    } else {
        starved(graph, fuel, (n - 1) as nat) + if ran_out(
            tree_of(graph, graph.edges[n - 1].source, fuel),
        ) {
            1nat
        } else {
            0nat
        }
    }
}

proof fn lemma_starved_bounds(graph: GraphView, fuel: nat, n: nat)
    requires
        n <= graph.edges.len(),
    ensures
        starved(graph, fuel, n) <= n,
        starved(graph, fuel + 1, n) <= starved(graph, fuel, n),
    decreases n,
{
    if n > 0 {
        lemma_starved_bounds(graph, fuel, (n - 1) as nat);
        if ran_out(tree_of(graph, graph.edges[n - 1].source, fuel + 1)) {
            lemma_runs_out_below(graph, graph.edges[n - 1].source, fuel);
        }
    }
}

proof fn lemma_starved_drops(graph: GraphView, fuel: nat, n: nat, i: int)
    requires
        0 <= i < n <= graph.edges.len(),
        ran_out(tree_of(graph, graph.edges[i].source, fuel)),
        !ran_out(tree_of(graph, graph.edges[i].source, fuel + 1)),
    ensures
        starved(graph, fuel + 1, n) < starved(graph, fuel, n),
    decreases n,
{
    lemma_starved_bounds(graph, fuel, (n - 1) as nat);
    if i < n - 1 {
        lemma_starved_drops(graph, fuel, (n - 1) as nat, i);
        if ran_out(tree_of(graph, graph.edges[n - 1].source, fuel + 1)) {
            lemma_runs_out_below(graph, graph.edges[n - 1].source, fuel);
        }
    }
}

proof fn lemma_starved_unfed(graph: GraphView, n: nat, i: int)
    requires
        0 <= i < n <= graph.edges.len(),
        !ran_out(tree_of(graph, graph.edges[i].source, 0)),
    ensures
        starved(graph, 0, n) < n,
    decreases n,
{
    lemma_starved_bounds(graph, 0, (n - 1) as nat);
    if i < n - 1 {
        lemma_starved_unfed(graph, (n - 1) as nat, i);
    }
}

/// Before the fuel reaches the number of connections, the sources rise:
/// each unit of fuel at which they do not takes one of them out of those
/// that run out.
proof fn lemma_rises_in_time(graph: GraphView, m: nat)
    requires
        graph.edges.len() > 0,
        m < graph.edges.len(),
    ensures
        rises(graph, m) || starved(graph, m + 1, graph.edges.len()) + m + 1 < graph.edges.len(),
    decreases m,
{
    let n = graph.edges.len();
    if m == 0 {
        if all_fed(graph) {
            assert forall|x: PinRefView|
                #![trigger tree_of(graph, x, 0)]
                is_source(graph.edges, x) && ran_out(tree_of(graph, x, 0)) implies ran_out(
                tree_of(graph, x, 1),
            ) by {
                lemma_fed_rises(graph, x);
            }
        } else {
            let x = choose|x: PinRefView|
                is_source(graph.edges, x) && !ran_out(#[trigger] tree_of(graph, x, 0));
            let i = choose|i: int| 0 <= i < n && (#[trigger] graph.edges[i]).source == x;
            lemma_starved_unfed(graph, n, i);
            if !rises(graph, 0) {
                let y = choose|y: PinRefView|
                    is_source(graph.edges, y) && ran_out(#[trigger] tree_of(graph, y, 0))
                        && !ran_out(tree_of(graph, y, 1));
                let j = choose|j: int| 0 <= j < n && (#[trigger] graph.edges[j]).source == y;
                lemma_starved_drops(graph, 0, n, j);
            }
        }
    } else {
        lemma_rises_in_time(graph, (m - 1) as nat);
        if rises(graph, (m - 1) as nat) {
            lemma_rises_on(graph, (m - 1) as nat, m);
        } else if !rises(graph, m) {
            let x = choose|x: PinRefView|
                is_source(graph.edges, x) && ran_out(#[trigger] tree_of(graph, x, m)) && !ran_out(
                    tree_of(graph, x, m + 1),
                );
            let i = choose|i: int| 0 <= i < n && (#[trigger] graph.edges[i]).source == x;
            lemma_starved_drops(graph, m, n, i);
        } else {
        }
    }
}

/// A graph without connections never runs out of fuel.
proof fn lemma_no_edges(graph: GraphView, pin: PinRefView, fuel: nat)
    requires
        graph.edges.len() == 0,
    ensures
        !ran_out(tree_of(graph, pin, fuel)),
{
    lemma_runs_out(graph, pin, fuel);
    if feeding(graph, pin) is Ok && feeding(graph, pin)->Ok_0.len() > 0 {
        lemma_feeding_are_sources(graph, pin, 0);
    }
}

/// Unfolding through more connections in a row than the graph has changes
/// nothing.
///
/// A tree that fits in the fuel is the same with more fuel, and so is the
/// report of an input pin that nothing drives. An unfolding that is still
/// going on when it has used as much fuel as there are connections goes on
/// without end: `CyclicDependency` is reported for the pins whose tree is
/// infinite and for no others.
pub proof fn lemma_fuel_suffices(graph: GraphView, pin: PinRefView, fuel: nat)
    requires
        fuel >= graph.edges.len(),
    ensures
        tree_of(graph, pin, fuel) == tree_of(graph, pin, graph.edges.len()),
    decreases fuel,
{
    let n = graph.edges.len();
    if fuel > n {
        lemma_fuel_suffices(graph, pin, (fuel - 1) as nat);
        if ran_out(tree_of(graph, pin, n)) {
            if n == 0 {
                lemma_no_edges(graph, pin, 0);
            } else {
                lemma_rises_in_time(graph, (n - 1) as nat);
                lemma_starved_bounds(graph, n, n);
                lemma_rises_on(graph, (n - 1) as nat, (fuel - 2) as nat);
                lemma_tree_rises(graph, pin, (fuel - 2) as nat);
            }
        } else {
            lemma_tree_stable(graph, pin, (fuel - 1) as nat);
        }
    }
}

} // verus!
