//! The dependency-tree builder: for a pin, the tree of the pins that feed it.

use vstd::prelude::*;
use crate::ast::{Name, NameID};
use crate::error::SemanticError;
use crate::resolve::{sources_of, ConnectionGraph, EdgeView, GraphView};
use crate::scope::{Kind, KindView, PinRef, PinRefView};
use crate::text::position;

verus! {

/// The pins that feed a pin, as a tree.
#[derive(Debug, PartialEq, Eq)]
pub enum ConnectionTree {
    /// A pin or a rail, with the trees of the sources connected to it, in
    /// the order of the connections. Without any, the pin is itself a
    /// source of the circuit.
    Regular(PinRef, Vec<ConnectionTree>),
    /// An output pin of an instance, with one tree for each input pin of
    /// the instance, in the order in which its chip declares them.
    Chip(PinRef, Vec<ConnectionTree>),
}

/// The mathematical value of a `ConnectionTree`.
pub enum TreeView {
    Leaf { pin: PinRefView, sources: Seq<TreeView> },
    Boundary { pin: PinRefView, inputs: Seq<TreeView> },
}

/// The value of a tree.
pub open spec fn tree_model(tree: ConnectionTree) -> TreeView
    decreases tree,
{
    match tree {
        ConnectionTree::Regular(pin, sources) => TreeView::Leaf {
            pin: pin@,
            sources: forest_model(sources@),
        },
        ConnectionTree::Chip(pin, inputs) => TreeView::Boundary {
            pin: pin@,
            inputs: forest_model(inputs@),
        },
    }
}

/// The values of a list of trees.
pub open spec fn forest_model(trees: Seq<ConnectionTree>) -> Seq<TreeView>
    decreases trees,
{
    if trees.len() == 0 {
        Seq::empty()
    } else {
        forest_model(trees.drop_last()).push(tree_model(trees.last()))
    }
}

impl View for ConnectionTree {
    type V = TreeView;

    open spec fn view(&self) -> TreeView {
        tree_model(*self)
    }
}

impl DeepView for ConnectionTree {
    type V = TreeView;

    open spec fn deep_view(&self) -> TreeView {
        self@
    }
}

/// The values of a list of trees are the values of its trees, one by one.
pub proof fn lemma_forest_model(trees: Seq<ConnectionTree>)
    ensures
        forest_model(trees).len() == trees.len(),
        forall|i: int| 0 <= i < trees.len() ==> (#[trigger] forest_model(trees)[i]) == trees[i]@,
    decreases trees.len(),
{
    if trees.len() > 0 {
        lemma_forest_model(trees.drop_last());
    }
}

/// Whether a reference names an output pin of a declared instance.
pub open spec fn is_instance_output(scope: Map<Name, KindView>, pin: PinRefView) -> bool {
    &&& pin.instance matches Some(i)
    &&& scope.contains_key(i)
    &&& scope[i] matches KindView::Instance { definition, inputs, outputs }
    &&& outputs.contains(pin.pin)
}

/// The input pins of a declared instance, in declaration order.
pub open spec fn instance_inputs(scope: Map<Name, KindView>, instance: Name) -> Seq<Name> {
    scope[instance]->inputs
}

/// For each of the given input pins of an instance, the source connected
/// to it. An input pin takes exactly one connection: one that nothing is
/// connected to is an `UnconnectedInput`, one with several connections into
/// it a `DirectionConflict`. The first pin at fault, in the order of the
/// pins, is reported.
pub open spec fn drivers(edges: Seq<EdgeView>, instance: Name, inputs: Seq<Name>) -> Result<
    Seq<PinRefView>,
    SemanticError,
>
    decreases inputs.len(),
{
    if inputs.len() == 0 {
        Ok(Seq::empty())
    } else {
        let feeding = sources_of(
            edges,
            PinRefView { instance: Some(instance), pin: inputs.last() },
        );
        match drivers(edges, instance, inputs.drop_last()) {
            Ok(before) => if feeding.len() == 0 {
                Err(SemanticError::UnconnectedInput)
            } else if feeding.len() > 1 {
                Err(SemanticError::DirectionConflict)
            } else {
                Ok(before.push(feeding[0]))
            },
            Err(e) => Err(e),
        }
    }
}

/// The tree of a pin, unfolded through at most `fuel` connections in a row.
///
/// An output pin of an instance depends on what drives each input pin of
/// the instance; any other pin on every source connected to it. Where the
/// unfolding would go deeper than `fuel`, it stops with `CyclicDependency`.
pub open spec fn tree_of(graph: GraphView, pin: PinRefView, fuel: nat) -> Result<
    TreeView,
    SemanticError,
>
    decreases fuel, 1nat, 0nat,
{
    if is_instance_output(graph.scope, pin) {
        match drivers(graph.edges, pin.instance->0, instance_inputs(graph.scope, pin.instance->0)) {
            Ok(feeding) => match children_of(graph, feeding, fuel) {
                Ok(inputs) => Ok(TreeView::Boundary { pin, inputs }),
                Err(e) => Err(e),
            },
            Err(e) => Err(e),
        }
    } else {
        match children_of(graph, sources_of(graph.edges, pin), fuel) {
            Ok(sources) => Ok(TreeView::Leaf { pin, sources }),
            Err(e) => Err(e),
        }
    }
}

/// The trees of the pins that feed a node. To follow a connection takes
/// one unit of fuel.
pub open spec fn children_of(graph: GraphView, pins: Seq<PinRefView>, fuel: nat) -> Result<
    Seq<TreeView>,
    SemanticError,
>
    decreases fuel, 0nat, 0nat,
{
    if pins.len() == 0 {
        Ok(Seq::empty())
    } else if fuel == 0 {
        Err(SemanticError::CyclicDependency)
    } else {
        trees_of(graph, pins, (fuel - 1) as nat)
    }
}

/// The trees of the given pins, in order, or the first fault among them.
pub open spec fn trees_of(graph: GraphView, pins: Seq<PinRefView>, fuel: nat) -> Result<
    Seq<TreeView>,
    SemanticError,
>
    decreases fuel, 2nat, pins.len(),
{
    if pins.len() == 0 {
        Ok(Seq::empty())
    } else {
        match trees_of(graph, pins.drop_last(), fuel) {
            Ok(before) => match tree_of(graph, pins.last(), fuel) {
                Ok(tree) => Ok(before.push(tree)),
                Err(e) => Err(e),
            },
            Err(e) => Err(e),
        }
    }
}

/// A fault among the first pins is the fault of the whole list.
pub proof fn lemma_trees_fail_early(graph: GraphView, pins: Seq<PinRefView>, fuel: nat, k: int)
    requires
        0 <= k <= pins.len(),
        trees_of(graph, pins.take(k), fuel) is Err,
    ensures
        trees_of(graph, pins, fuel) == trees_of(graph, pins.take(k), fuel),
    decreases pins.len() - k,
{
    if k == pins.len() {
        assert(pins.take(k) == pins);
    } else {
        assert(pins.take(k + 1).drop_last() == pins.take(k));
        lemma_trees_fail_early(graph, pins, fuel, k + 1);
    }
}

/// A missing driver among the first input pins is missing for the whole list.
pub proof fn lemma_drivers_fail_early(
    edges: Seq<EdgeView>,
    instance: Name,
    inputs: Seq<Name>,
    k: int,
)
    requires
        0 <= k <= inputs.len(),
        drivers(edges, instance, inputs.take(k)) is Err,
    ensures
        drivers(edges, instance, inputs) == drivers(edges, instance, inputs.take(k)),
    decreases inputs.len() - k,
{
    if k == inputs.len() {
        assert(inputs.take(k) == inputs);
    } else {
        assert(inputs.take(k + 1).drop_last() == inputs.take(k));
        lemma_drivers_fail_early(edges, instance, inputs, k + 1);
    }
}

/// There are as many trees as pins.
pub proof fn lemma_trees_len(graph: GraphView, pins: Seq<PinRefView>, fuel: nat)
    requires
        trees_of(graph, pins, fuel) is Ok,
    ensures
        trees_of(graph, pins, fuel)->Ok_0.len() == pins.len(),
    decreases pins.len(),
{
    if pins.len() > 0 {
        lemma_trees_len(graph, pins.drop_last(), fuel);
    }
}

/// What drives the input pins of an instance: for each input pin, in
/// order, the source of the one connection into it.
pub proof fn lemma_drivers(edges: Seq<EdgeView>, instance: Name, inputs: Seq<Name>)
    requires
        drivers(edges, instance, inputs) is Ok,
    ensures
        drivers(edges, instance, inputs)->Ok_0.len() == inputs.len(),
        forall|i: int|
            0 <= i < inputs.len() ==> {
                let feeding = sources_of(
                    edges,
                    PinRefView { instance: Some(instance), pin: #[trigger] inputs[i] },
                );
                feeding.len() == 1 && drivers(edges, instance, inputs)->Ok_0[i] == feeding[0]
            },
    decreases inputs.len(),
{
    if inputs.len() > 0 {
        lemma_drivers(edges, instance, inputs.drop_last());
        assert forall|i: int| 0 <= i < inputs.len() implies {
            let feeding = sources_of(
                edges,
                PinRefView { instance: Some(instance), pin: #[trigger] inputs[i] },
            );
            feeding.len() == 1 && drivers(edges, instance, inputs)->Ok_0[i] == feeding[0]
        } by {
            if i < inputs.len() - 1 {
                assert(inputs.drop_last()[i] == inputs[i]);
            }
        }
    }
}

impl ConnectionGraph {
    /// The input pins of the instance that a reference names an output pin
    /// of; `None` for any other reference.
    pub fn inputs_behind(&self, pin: &PinRef) -> (r: Option<&Vec<NameID>>)
        ensures
            match r {
                Some(inputs) => {
                    &&& is_instance_output(self@.scope, pin@)
                    &&& inputs.deep_view() == instance_inputs(self@.scope, pin@.instance->0)
                },
                None => !is_instance_output(self@.scope, pin@),
            },
    {
        match &pin.instance {
            Some(i) => match self.scope.lookup(i) {
                Some(Kind::Instance { definition, inputs, outputs }) => {
                    if position(outputs, &pin.pin).is_some() {
                        Some(inputs)
                    } else {
                        None
                    }
                },
                _ => None,
            },
            None => None,
        }
    }

    /// What drives each of the given input pins of an instance.
    pub fn drivers(&self, instance: &NameID, inputs: &Vec<NameID>) -> (r: Result<
        Vec<PinRef>,
        SemanticError,
    >)
        ensures
            match r {
                Ok(feeding) => self::drivers(self@.edges, instance@, inputs.deep_view()) == Ok::<
                    Seq<PinRefView>,
                    SemanticError,
                >(feeding.deep_view()),
                Err(e) => self::drivers(self@.edges, instance@, inputs.deep_view()) == Err::<
                    Seq<PinRefView>,
                    SemanticError,
                >(e),
            },
    {
        let mut out: Vec<PinRef> = Vec::new();
        let mut i: usize = 0;
        assert(inputs.deep_view().take(0) == Seq::<Name>::empty());
        assert(out.deep_view() == Seq::<PinRefView>::empty());
        while i < inputs.len()
            invariant
                i <= inputs.len(),
                self::drivers(self@.edges, instance@, inputs.deep_view().take(i as int)) == Ok::<
                    Seq<PinRefView>,
                    SemanticError,
                >(out.deep_view()),
            decreases inputs.len() - i,
        {
            let ghost all = inputs.deep_view();
            let ghost before = out.deep_view();
            assert(all.take(i + 1).drop_last() == all.take(i as int));
            assert(all.take(i + 1).last() == inputs[i as int]@);
            let sink = PinRef { instance: Some(instance.clone()), pin: inputs[i].clone() };
            let mut feeding = self.sources(&sink);
            if feeding.len() > 1 {
                proof {
                    lemma_drivers_fail_early(self@.edges, instance@, all, i + 1);
                }
                return Err(SemanticError::DirectionConflict);
            }
            match feeding.pop() {
                Some(only) => {
                    out.push(only);
                    assert(out.deep_view() == before.push(only@));
                },
                None => {
                    proof {
                        lemma_drivers_fail_early(self@.edges, instance@, all, i + 1);
                    }
                    return Err(SemanticError::UnconnectedInput);
                },
            }
            i = i + 1;
        }
        assert(inputs.deep_view().take(i as int) == inputs.deep_view());
        Ok(out)
    }
}

/// Builds the tree of the pins that feed `start`.
///
/// The tree is unfolded through as many connections in a row as the graph
/// has; no pin that does not feed itself lies deeper. A pin that does is
/// reported as `CyclicDependency`, an input pin of an instance that nothing
/// drives as `UnconnectedInput`, one that several connections run into as
/// `DirectionConflict`.
pub fn build_tree(start: PinRef, connections: &ConnectionGraph) -> (r: Result<
    ConnectionTree,
    SemanticError,
>)
    ensures
        match r {
            Ok(tree) => tree_of(connections@, start@, connections@.edges.len()) == Ok::<
                TreeView,
                SemanticError,
            >(tree@),
            Err(e) => tree_of(connections@, start@, connections@.edges.len()) == Err::<
                TreeView,
                SemanticError,
            >(e),
        },
{
    grow(start, connections, connections.edges.len())
}

/// The tree of a pin, through at most `fuel` connections in a row.
pub fn grow(pin: PinRef, graph: &ConnectionGraph, fuel: usize) -> (r: Result<
    ConnectionTree,
    SemanticError,
>)
    ensures
        match r {
            Ok(tree) => tree_of(graph@, pin@, fuel as nat) == Ok::<TreeView, SemanticError>(tree@),
            Err(e) => tree_of(graph@, pin@, fuel as nat) == Err::<TreeView, SemanticError>(e),
        },
    decreases fuel, 1nat,
{
    match graph.inputs_behind(&pin) {
        Some(inputs) => {
            let feeding = match &pin.instance {
                Some(instance) => match graph.drivers(instance, inputs) {
                    Ok(feeding) => feeding,
                    Err(e) => {
                        return Err(e);
                    },
                },
                None => Vec::new(),
            };
            match grow_all(feeding, graph, fuel) {
                Ok(trees) => Ok(ConnectionTree::Chip(pin, trees)),
                Err(e) => Err(e),
            }
        },
        None => {
            let feeding = graph.sources(&pin);
            match grow_all(feeding, graph, fuel) {
                Ok(trees) => Ok(ConnectionTree::Regular(pin, trees)),
                Err(e) => Err(e),
            }
        },
    }
}

/// The trees of the pins that feed a node which has `fuel` left.
pub fn grow_all(pins: Vec<PinRef>, graph: &ConnectionGraph, fuel: usize) -> (r: Result<
    Vec<ConnectionTree>,
    SemanticError,
>)
    ensures
        match r {
            Ok(trees) => children_of(graph@, pins.deep_view(), fuel as nat) == Ok::<
                Seq<TreeView>,
                SemanticError,
            >(forest_model(trees@)),
            Err(e) => children_of(graph@, pins.deep_view(), fuel as nat) == Err::<
                Seq<TreeView>,
                SemanticError,
            >(e),
        },
    decreases fuel, 0nat,
{
    let mut trees: Vec<ConnectionTree> = Vec::new();
    if pins.len() == 0 {
        return Ok(trees);
    }
    if fuel == 0 {
        return Err(SemanticError::CyclicDependency);
    }
    let ghost all = pins.deep_view();
    let mut i: usize = 0;
    assert(all.take(0) == Seq::<PinRefView>::empty());
    while i < pins.len()
        invariant
            i <= pins.len(),
            fuel > 0,
            all == pins.deep_view(),
            trees_of(graph@, all.take(i as int), (fuel - 1) as nat) == Ok::<
                Seq<TreeView>,
                SemanticError,
            >(forest_model(trees@)),
        decreases pins.len() - i,
    {
        assert(all.take(i + 1).drop_last() == all.take(i as int));
        assert(all.take(i + 1).last() == pins[i as int]@);
        match grow(pins[i].clone(), graph, fuel - 1) {
            Ok(tree) => {
                let ghost before = trees@;
                trees.push(tree);
                assert(trees@.drop_last() == before);
            },
            Err(e) => {
                proof {
                    lemma_trees_fail_early(graph@, all, (fuel - 1) as nat, i + 1);
                }
                return Err(e);
            },
        }
        i = i + 1;
    }
    assert(all.take(i as int) == all);
    Ok(trees)
}

} // verus!
