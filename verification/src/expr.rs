//! The expression synthesizer: turns a dependency tree into a boolean
//! expression that no backend has shaped yet.

use vstd::prelude::*;
use crate::ast::{Name, NameID};
use crate::error::SemanticError;
use crate::resolve::{sources_of, ConnectionGraph, GraphView};
use crate::scope::{Kind, KindView, PinRef, PinRefView};
use crate::text::{first_index, lemma_first_index, position};
use crate::tree::{
    drivers, forest_model, instance_inputs, is_instance_output, lemma_drivers, build_tree,
    lemma_forest_model, lemma_trees_len, tree_of, trees_of, ConnectionTree, TreeView,
};

verus! {

/// A boolean expression over the pins of a circuit.
#[derive(Debug, PartialEq, Eq)]
pub enum Expression {
    /// The value of a pin.
    Pin(PinRef),
    /// The logical OR of the operands, in order.
    Or(Vec<Expression>),
    /// A run of the instance's chip on the arguments, which stand for its
    /// input pins in declaration order; of what it returns, the value at
    /// the position `output`.
    Call { instance: NameID, args: Vec<Expression>, output: usize },
}

/// The mathematical value of an `Expression`.
pub enum ExpressionView {
    Pin { pin: PinRefView },
    Or { operands: Seq<ExpressionView> },
    Call { instance: Name, args: Seq<ExpressionView>, output: nat },
}

/// The value of an expression.
pub open spec fn expression_model(e: Expression) -> ExpressionView
    decreases e,
{
    match e {
        Expression::Pin(pin) => ExpressionView::Pin { pin: pin@ },
        Expression::Or(operands) => ExpressionView::Or { operands: expressions_model(operands@) },
        Expression::Call { instance, args, output } => ExpressionView::Call {
            instance: instance@,
            args: expressions_model(args@),
            output: output as nat,
        },
    }
}

/// The values of a list of expressions.
pub open spec fn expressions_model(es: Seq<Expression>) -> Seq<ExpressionView>
    decreases es,
{
    if es.len() == 0 {
        Seq::empty()
    } else {
        expressions_model(es.drop_last()).push(expression_model(es.last()))
    }
}

impl View for Expression {
    type V = ExpressionView;

    open spec fn view(&self) -> ExpressionView {
        expression_model(*self)
    }
}

impl DeepView for Expression {
    type V = ExpressionView;

    open spec fn deep_view(&self) -> ExpressionView {
        self@
    }
}

/// The values of a list of expressions are the values of its expressions,
/// one by one.
pub proof fn lemma_expressions_model(es: Seq<Expression>)
    ensures
        expressions_model(es).len() == es.len(),
        forall|i: int| 0 <= i < es.len() ==> (#[trigger] expressions_model(es)[i]) == es[i]@,
    decreases es.len(),
{
    if es.len() > 0 {
        lemma_expressions_model(es.drop_last());
    }
}

/// The expression of a tree.
///
/// A pin that nothing feeds stands for itself; a pin that something feeds
/// is the OR of what feeds it. An output pin of an instance is a run of the
/// instance on its inputs, from which the output is selected by its
/// position among the outputs that the instance's chip declares. That takes
/// a declared instance with such an output pin (else `UnresolvedName`) and
/// one tree for each of its input pins (else `UnconnectedInput`).
pub open spec fn expression_of(scope: Map<Name, KindView>, tree: TreeView) -> Result<
    ExpressionView,
    SemanticError,
>
    decreases tree,
{
    match tree {
        TreeView::Leaf { pin, sources } => if sources.len() == 0 {
            Ok(ExpressionView::Pin { pin })
        } else {
            match expressions_of(scope, sources) {
                Ok(operands) => Ok(ExpressionView::Or { operands }),
                Err(e) => Err(e),
            }
        },
        TreeView::Boundary { pin, inputs } => match callee(scope, pin) {
            Some((instance, output, arity)) => if inputs.len() != arity {
                Err(SemanticError::UnconnectedInput)
            } else {
                match expressions_of(scope, inputs) {
                    Ok(args) => Ok(ExpressionView::Call { instance, args, output }),
                    Err(e) => Err(e),
                }
            },
            None => Err(SemanticError::UnresolvedName),
        },
    }
}

/// The expressions of the given trees, in order, or the first fault among them.
pub open spec fn expressions_of(scope: Map<Name, KindView>, trees: Seq<TreeView>) -> Result<
    Seq<ExpressionView>,
    SemanticError,
>
    decreases trees,
{
    if trees.len() == 0 {
        Ok(Seq::empty())
    } else {
        match expressions_of(scope, trees.drop_last()) {
            Ok(before) => match expression_of(scope, trees.last()) {
                Ok(e) => Ok(before.push(e)),
                Err(e) => Err(e),
            },
            Err(e) => Err(e),
        }
    }
}

/// For an output pin of a declared instance: the instance, the position of
/// the pin among the outputs of its chip, and the number of its inputs.
pub open spec fn callee(scope: Map<Name, KindView>, pin: PinRefView) -> Option<(Name, nat, nat)> {
    match pin.instance {
        Some(instance) => if scope.contains_key(instance) {
            match scope[instance] {
                KindView::Instance { definition, inputs, outputs } => if outputs.contains(pin.pin) {
                    Some((instance, first_index(outputs, pin.pin) as nat, inputs.len()))
                } else {
                    None
                },
                _ => None,
            }
        } else {
            None
        },
        None => None,
    }
}

/// A fault among the first trees is the fault of the whole list.
pub proof fn lemma_expressions_fail_early(
    scope: Map<Name, KindView>,
    trees: Seq<TreeView>,
    k: int,
)
    requires
        0 <= k <= trees.len(),
        expressions_of(scope, trees.take(k)) is Err,
    ensures
        expressions_of(scope, trees) == expressions_of(scope, trees.take(k)),
    decreases trees.len() - k,
{
    if k == trees.len() {
        assert(trees.take(k) == trees);
    } else {
        assert(trees.take(k + 1).drop_last() == trees.take(k));
        lemma_expressions_fail_early(scope, trees, k + 1);
    }
}

impl ConnectionGraph {
    /// For an output pin of a declared instance: the position of the pin
    /// among the outputs of its chip, and the number of its inputs.
    pub fn callee(&self, pin: &PinRef) -> (r: Option<(usize, usize)>)
        ensures
            match r {
                Some((output, arity)) => pin@.instance is Some && self::callee(self@.scope, pin@)
                    == Some((pin@.instance->0, output as nat, arity as nat)),
                None => self::callee(self@.scope, pin@) is None,
            },
    {
        match &pin.instance {
            Some(i) => match self.scope.lookup(i) {
                Some(Kind::Instance { definition, inputs, outputs }) => {
                    match position(outputs, &pin.pin) {
                        Some(k) => {
                            proof {
                                lemma_first_index(outputs.deep_view(), pin.pin@, k as int);
                            }
                            Some((k, inputs.len()))
                        },
                        None => None,
                    }
                },
                _ => None,
            },
            None => None,
        }
    }
}

/// Turns a dependency tree into an expression.
pub fn synthesize(tree: &ConnectionTree, graph: &ConnectionGraph) -> (r: Result<
    Expression,
    SemanticError,
>)
    ensures
        match r {
            Ok(e) => expression_of(graph@.scope, tree@) == Ok::<ExpressionView, SemanticError>(e@),
            Err(e) => expression_of(graph@.scope, tree@) == Err::<ExpressionView, SemanticError>(e),
        },
    decreases tree,
{
    match tree {
        ConnectionTree::Regular(pin, sources) => {
            if sources.len() == 0 {
                Ok(Expression::Pin(pin.clone()))
            } else {
                let mut operands: Vec<Expression> = Vec::new();
                let mut i: usize = 0;
                let ghost all = forest_model(sources@);
                proof {
                    lemma_forest_model(sources@);
                    assert(all.take(0) == Seq::<TreeView>::empty());
                }
                while i < sources.len()
                    invariant
                        i <= sources.len(),
                        *tree == ConnectionTree::Regular(*pin, *sources),
                        all == forest_model(sources@),
                        all.len() == sources.len(),
                        forall|j: int| 0 <= j < sources.len() ==> (#[trigger] all[j]) == sources[j]@,
                        expressions_of(graph@.scope, all.take(i as int)) == Ok::<
                            Seq<ExpressionView>,
                            SemanticError,
                        >(expressions_model(operands@)),
                    decreases sources.len() - i,
                {
                    assert(all.take(i + 1).drop_last() == all.take(i as int));
                    assert(all.take(i + 1).last() == all[i as int]);
                    match synthesize(&sources[i], graph) {
                        Ok(e) => {
                            let ghost before = operands@;
                            operands.push(e);
                            assert(operands@.drop_last() == before);
                        },
                        Err(e) => {
                            proof {
                                lemma_expressions_fail_early(graph@.scope, all, i + 1);
                            }
                            return Err(e);
                        },
                    }
                    i = i + 1;
                }
                assert(all.take(i as int) == all);
                Ok(Expression::Or(operands))
            }
        },
        ConnectionTree::Chip(pin, inputs) => {
            let (output, arity) = match graph.callee(pin) {
                Some(found) => found,
                None => {
                    return Err(SemanticError::UnresolvedName);
                },
            };
            let instance = match &pin.instance {
                Some(i) => i.clone(),
                None => {
                    return Err(SemanticError::UnresolvedName);
                },
            };
            let ghost all = forest_model(inputs@);
            proof {
                lemma_forest_model(inputs@);
                assert(all.take(0) == Seq::<TreeView>::empty());
            }
            if inputs.len() != arity {
                return Err(SemanticError::UnconnectedInput);
            }
            let mut args: Vec<Expression> = Vec::new();
            let mut i: usize = 0;
            while i < inputs.len()
                invariant
                    i <= inputs.len(),
                    *tree == ConnectionTree::Chip(*pin, *inputs),
                    callee(graph@.scope, pin@) == Some((instance@, output as nat, arity as nat)),
                    inputs.len() == arity,
                    all == forest_model(inputs@),
                    all.len() == inputs.len(),
                    forall|j: int| 0 <= j < inputs.len() ==> (#[trigger] all[j]) == inputs[j]@,
                    expressions_of(graph@.scope, all.take(i as int)) == Ok::<
                        Seq<ExpressionView>,
                        SemanticError,
                    >(expressions_model(args@)),
                decreases inputs.len() - i,
            {
                assert(all.take(i + 1).drop_last() == all.take(i as int));
                assert(all.take(i + 1).last() == all[i as int]);
                match synthesize(&inputs[i], graph) {
                    Ok(e) => {
                        let ghost before = args@;
                        args.push(e);
                        assert(args@.drop_last() == before);
                    },
                    Err(e) => {
                        proof {
                            lemma_expressions_fail_early(graph@.scope, all, i + 1);
                        }
                        return Err(e);
                    },
                }
                i = i + 1;
            }
            assert(all.take(i as int) == all);
            Ok(Expression::Call { instance, args, output })
        },
    }
}


/// The expression of a pin: its tree, unfolded through at most `fuel`
/// connections in a row, turned into an expression.
pub open spec fn expression_at(graph: GraphView, pin: PinRefView, fuel: nat) -> Result<
    ExpressionView,
    SemanticError,
> {
    match tree_of(graph, pin, fuel) {
        Ok(tree) => expression_of(graph.scope, tree),
        Err(e) => Err(e),
    }
}

/// Pins that all have an expression have their trees, and the expressions
/// of those trees are the expressions of the pins, in order.
pub proof fn lemma_expressions_in_order(
    graph: GraphView,
    pins: Seq<PinRefView>,
    fuel: nat,
    es: Seq<ExpressionView>,
)
    requires
        es.len() == pins.len(),
        forall|i: int|
            0 <= i < pins.len() ==> expression_at(graph, #[trigger] pins[i], fuel) == Ok::<
                ExpressionView,
                SemanticError,
            >(es[i]),
    ensures
        trees_of(graph, pins, fuel) is Ok,
        expressions_of(graph.scope, trees_of(graph, pins, fuel)->Ok_0) == Ok::<
            Seq<ExpressionView>,
            SemanticError,
        >(es),
    decreases pins.len(),
{
    if pins.len() == 0 {
        assert(es == Seq::<ExpressionView>::empty());
    } else {
        let before = pins.drop_last();
        assert forall|i: int| 0 <= i < before.len() implies expression_at(
            graph,
            #[trigger] before[i],
            fuel,
        ) == Ok::<ExpressionView, SemanticError>(es.drop_last()[i]) by {
            assert(before[i] == pins[i]);
        }
        lemma_expressions_in_order(graph, before, fuel, es.drop_last());
        assert(expression_at(graph, pins[pins.len() - 1], fuel) == Ok::<
            ExpressionView,
            SemanticError,
        >(es[pins.len() - 1]));
        let trees = trees_of(graph, pins, fuel)->Ok_0;
        assert(trees.drop_last() == trees_of(graph, before, fuel)->Ok_0);
        assert(es == es.drop_last().push(es.last()));
    }
}

/// A pin or a rail that connections feed is the OR of the expressions of
/// its sources, in the order of the connections.
pub proof fn lemma_fed_pin_is_or(
    graph: GraphView,
    pin: PinRefView,
    fuel: nat,
    operands: Seq<ExpressionView>,
)
    requires
        !is_instance_output(graph.scope, pin),
        fuel > 0,
        operands.len() == sources_of(graph.edges, pin).len(),
        operands.len() > 0,
        forall|i: int|
            0 <= i < operands.len() ==> expression_at(
                graph,
                #[trigger] sources_of(graph.edges, pin)[i],
                (fuel - 1) as nat,
            ) == Ok::<ExpressionView, SemanticError>(operands[i]),
    ensures
        expression_at(graph, pin, fuel) == Ok::<ExpressionView, SemanticError>(
            ExpressionView::Or { operands },
        ),
{
    lemma_expressions_in_order(
        graph,
        sources_of(graph.edges, pin),
        (fuel - 1) as nat,
        operands,
    );
    let trees = trees_of(graph, sources_of(graph.edges, pin), (fuel - 1) as nat)->Ok_0;
    lemma_trees_len(graph, sources_of(graph.edges, pin), (fuel - 1) as nat);
}

/// An output pin of an instance is a call of the instance: its arguments
/// are the expressions of what drives the instance's input pins, in the
/// order in which its chip declares them, and the output is selected by
/// its position among the outputs that the chip declares.
pub proof fn lemma_instance_output_is_call(
    graph: GraphView,
    pin: PinRefView,
    fuel: nat,
    args: Seq<ExpressionView>,
)
    requires
        is_instance_output(graph.scope, pin),
        fuel > 0,
        drivers(graph.edges, pin.instance->0, instance_inputs(graph.scope, pin.instance->0)) is Ok,
        args.len() == instance_inputs(graph.scope, pin.instance->0).len(),
        forall|i: int|
            0 <= i < args.len() ==> expression_at(
                graph,
                #[trigger] drivers(
                    graph.edges,
                    pin.instance->0,
                    instance_inputs(graph.scope, pin.instance->0),
                )->Ok_0[i],
                (fuel - 1) as nat,
            ) == Ok::<ExpressionView, SemanticError>(args[i]),
    ensures
        expression_at(graph, pin, fuel) == Ok::<ExpressionView, SemanticError>(
            ExpressionView::Call {
                instance: pin.instance->0,
                args,
                output: first_index(graph.scope[pin.instance->0]->outputs, pin.pin) as nat,
            },
        ),
{
    let instance = pin.instance->0;
    let inputs = instance_inputs(graph.scope, instance);
    let feeding = drivers(graph.edges, instance, inputs)->Ok_0;
    lemma_drivers(graph.edges, instance, inputs);
    lemma_expressions_in_order(graph, feeding, (fuel - 1) as nat, args);
    lemma_trees_len(graph, feeding, (fuel - 1) as nat);
}


/// A tree that was built from a graph has an expression in that graph.
pub proof fn lemma_built_tree_has_expression(graph: GraphView, pin: PinRefView, fuel: nat)
    requires
        tree_of(graph, pin, fuel) is Ok,
    ensures
        expression_of(graph.scope, tree_of(graph, pin, fuel)->Ok_0) is Ok,
    decreases fuel, 1nat, 0nat,
{
    if is_instance_output(graph.scope, pin) {
        let instance = pin.instance->0;
        let inputs = instance_inputs(graph.scope, instance);
        let feeding = drivers(graph.edges, instance, inputs)->Ok_0;
        lemma_drivers(graph.edges, instance, inputs);
        if feeding.len() > 0 {
            lemma_built_trees_have_expressions(graph, feeding, (fuel - 1) as nat);
            lemma_trees_len(graph, feeding, (fuel - 1) as nat);
        }
    } else {
        let feeding = sources_of(graph.edges, pin);
        if feeding.len() > 0 {
            lemma_built_trees_have_expressions(graph, feeding, (fuel - 1) as nat);
            lemma_trees_len(graph, feeding, (fuel - 1) as nat);
        }
    }
}

/// Trees that were built from a graph have expressions in that graph.
pub proof fn lemma_built_trees_have_expressions(
    graph: GraphView,
    pins: Seq<PinRefView>,
    fuel: nat,
)
    requires
        trees_of(graph, pins, fuel) is Ok,
    ensures
        expressions_of(graph.scope, trees_of(graph, pins, fuel)->Ok_0) is Ok,
    decreases fuel, 2nat, pins.len(),
{
    if pins.len() > 0 {
        lemma_built_trees_have_expressions(graph, pins.drop_last(), fuel);
        lemma_built_tree_has_expression(graph, pins.last(), fuel);
        let trees = trees_of(graph, pins, fuel)->Ok_0;
        assert(trees.drop_last() == trees_of(graph, pins.drop_last(), fuel)->Ok_0);
    }
}

/// The expressions of the given output pins, in order, or the first fault
/// among them. Each tree is unfolded through as many connections in a row
/// as the graph has.
pub open spec fn output_expressions(graph: GraphView, outputs: Seq<Name>) -> Result<
    Seq<ExpressionView>,
    SemanticError,
>
    decreases outputs.len(),
{
    if outputs.len() == 0 {
        Ok(Seq::empty())
    } else {
        match output_expressions(graph, outputs.drop_last()) {
            Ok(before) => match expression_at(
                graph,
                PinRefView { instance: None, pin: outputs.last() },
                graph.edges.len(),
            ) {
                Ok(e) => Ok(before.push(e)),
                Err(e) => Err(e),
            },
            Err(e) => Err(e),
        }
    }
}

/// A fault among the first outputs is the fault of the whole list.
pub proof fn lemma_outputs_fail_early(graph: GraphView, outputs: Seq<Name>, k: int)
    requires
        0 <= k <= outputs.len(),
        output_expressions(graph, outputs.take(k)) is Err,
    ensures
        output_expressions(graph, outputs) == output_expressions(graph, outputs.take(k)),
    decreases outputs.len() - k,
{
    if k == outputs.len() {
        assert(outputs.take(k) == outputs);
    } else {
        assert(outputs.take(k + 1).drop_last() == outputs.take(k));
        lemma_outputs_fail_early(graph, outputs, k + 1);
    }
}

/// Builds the tree of every given output pin and turns it into an
/// expression, in the order of the pins. This is what a backend renders.
pub fn synthesize_outputs(outputs: &Vec<NameID>, graph: &ConnectionGraph) -> (r: Result<
    Vec<Expression>,
    SemanticError,
>)
    ensures
        match r {
            Ok(values) => {
                &&& output_expressions(graph@, outputs.deep_view()) == Ok::<
                    Seq<ExpressionView>,
                    SemanticError,
                >(expressions_model(values@))
                &&& values.len() == outputs.len()
            },
            Err(e) => output_expressions(graph@, outputs.deep_view()) == Err::<
                Seq<ExpressionView>,
                SemanticError,
            >(e),
        },
{
    let mut values: Vec<Expression> = Vec::new();
    let mut i: usize = 0;
    let ghost all = outputs.deep_view();
    assert(all.take(0) == Seq::<Name>::empty());
    while i < outputs.len()
        invariant
            i <= outputs.len(),
            all == outputs.deep_view(),
            values.len() == i,
            output_expressions(graph@, all.take(i as int)) == Ok::<
                Seq<ExpressionView>,
                SemanticError,
            >(expressions_model(values@)),
        decreases outputs.len() - i,
    {
        assert(all.take(i + 1).drop_last() == all.take(i as int));
        assert(all.take(i + 1).last() == outputs[i as int]@);
        let tree = match build_tree(PinRef { instance: None, pin: outputs[i].clone() }, graph) {
            Ok(tree) => tree,
            Err(e) => {
                proof {
                    lemma_outputs_fail_early(graph@, all, i + 1);
                }
                return Err(e);
            },
        };
        match synthesize(&tree, graph) {
            Ok(e) => {
                let ghost before = values@;
                values.push(e);
                assert(values@.drop_last() == before);
            },
            Err(e) => {
                proof {
                    lemma_outputs_fail_early(graph@, all, i + 1);
                }
                return Err(e);
            },
        }
        i = i + 1;
    }
    assert(all.take(i as int) == all);
    Ok(values)
}

} // verus!
