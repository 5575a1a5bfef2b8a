//! The semantic resolver: checks the statements of one chip in order and
//! records its connections as (sink, source) pairs.

use vstd::prelude::*;
use crate::ast::{Name, Statement, AST};
use crate::error::{Diagnostic, SemanticError};
use crate::lexer::{definition, registered, ChipView, Program};
use crate::scope::{reference, role, Kind, KindView, PinRef, PinRefView, Role, Scope};
use crate::text::clone_names;

verus! {

/// A connection, read from the pin that supplies the value to the one that
/// consumes it.
#[derive(Debug, PartialEq, Eq)]
pub struct Edge {
    pub sink: PinRef,
    pub source: PinRef,
}

/// The mathematical value of an `Edge`.
pub struct EdgeView {
    pub sink: PinRefView,
    pub source: PinRefView,
}

impl View for Edge {
    type V = EdgeView;

    open spec fn view(&self) -> EdgeView {
        EdgeView { sink: self.sink@, source: self.source@ }
    }
}

impl DeepView for Edge {
    type V = EdgeView;

    open spec fn deep_view(&self) -> EdgeView {
        self@
    }
}

/// What resolving a chip's statements yields: its namespace and its
/// connections, in the order of the `CONNECT` statements.
#[derive(Debug)]
pub struct ConnectionGraph {
    pub scope: Scope,
    pub edges: Vec<Edge>,
}

/// The mathematical value of a `ConnectionGraph`.
pub struct GraphView {
    pub scope: Map<Name, KindView>,
    pub edges: Seq<EdgeView>,
}

impl View for ConnectionGraph {
    type V = GraphView;

    open spec fn view(&self) -> GraphView {
        GraphView { scope: self.scope@, edges: self.edges.deep_view() }
    }
}

impl DeepView for ConnectionGraph {
    type V = GraphView;

    open spec fn deep_view(&self) -> GraphView {
        self@
    }
}

impl GraphView {
    /// The graph of a chip without statements.
    pub open spec fn empty() -> GraphView {
        GraphView { scope: Map::empty(), edges: Seq::empty() }
    }

    /// Declares a name, unless it is declared already.
    pub open spec fn declare(self, name: Name, kind: KindView) -> Result<
        GraphView,
        SemanticError,
    > {
        if self.scope.contains_key(name) {
            Err(SemanticError::DuplicateName)
        } else {
            Ok(GraphView { scope: self.scope.insert(name, kind), edges: self.edges })
        }
    }
}

/// The connection that joining two endpoints makes. Both must resolve. Two
/// rails cannot be joined, nor two sources, nor two sinks; a rail takes the
/// role that its partner leaves.
pub open spec fn connection(scope: Map<Name, KindView>, a: PinRefView, b: PinRefView) -> Result<
    EdgeView,
    SemanticError,
> {
    match (role(scope, a), role(scope, b)) {
        (Some(Role::Rail), Some(Role::Rail)) => Err(SemanticError::RailToRailConflict),
        (Some(Role::Source), Some(Role::Source)) => Err(SemanticError::DirectionConflict),
        (Some(Role::Sink), Some(Role::Sink)) => Err(SemanticError::DirectionConflict),
        (Some(Role::Sink), Some(_)) => Ok(EdgeView { sink: a, source: b }),
        (Some(Role::Rail), Some(Role::Source)) => Ok(EdgeView { sink: a, source: b }),
        (Some(_), Some(_)) => Ok(EdgeView { sink: b, source: a }),
        _ => Err(SemanticError::UnresolvedName),
    }
}

/// The sources of the connections into a pin, in the order of the connections.
pub open spec fn sources_of(edges: Seq<EdgeView>, sink: PinRefView) -> Seq<PinRefView>
    decreases edges.len(),
{
    if edges.len() == 0 {
        Seq::empty()
    } else if edges.last().sink == sink {
        sources_of(edges.drop_last(), sink).push(edges.last().source)
    } else {
        sources_of(edges.drop_last(), sink)
    }
}

impl GraphView {
    /// Joins two endpoints. The connection must be in order, and an input
    /// pin of an instance takes one connection and no more: a second one
    /// into the same pin is a `DirectionConflict`. Rails and output pins of
    /// the chip take as many as there are.
    pub open spec fn connect(self, a: PinRefView, b: PinRefView) -> Result<
        GraphView,
        SemanticError,
    > {
        match connection(self.scope, a, b) {
            Ok(edge) => if edge.sink.instance is Some && sources_of(self.edges, edge.sink).len()
                > 0 {
                Err(SemanticError::DirectionConflict)
            } else {
                Ok(GraphView { scope: self.scope, edges: self.edges.push(edge) })
            },
            Err(e) => Err(e),
        }
    }
}

/// What one statement does to the graph of the statements before it.
///
/// A declaration needs a name that is not taken. An alias needs a
/// registered chip. An instance needs an alias that is declared, then a
/// name that is not taken, then an alias that stands for a registered chip:
/// the faults are looked for in this order.
pub open spec fn step(graph: GraphView, stmt: Statement, registry: Seq<ChipView>) -> Result<
    GraphView,
    SemanticError,
> {
    match stmt {
        Statement::In { name } => graph.declare(name, KindView::Input),
        Statement::Out { name } => graph.declare(name, KindView::Output),
        Statement::Rail { name } => graph.declare(name, KindView::Rail),
        Statement::Use { path, alias } => if graph.scope.contains_key(alias) {
            Err(SemanticError::DuplicateName)
        } else if !registered(registry, path) {
            Err(SemanticError::NotImplemented)
        } else {
            graph.declare(alias, KindView::Alias { path })
        },
        Statement::ChipInstance { alias, bound_name } => if !graph.scope.contains_key(alias) {
            Err(SemanticError::UnresolvedName)
        } else if graph.scope.contains_key(bound_name) {
            Err(SemanticError::DuplicateName)
        } else {
            match graph.scope[alias] {
                KindView::Alias { path } => if !registered(registry, path) {
                    Err(SemanticError::UnresolvedName)
                } else {
                    graph.declare(
                        bound_name,
                        KindView::Instance {
                            definition: path,
                            inputs: definition(registry, path).inputs,
                            outputs: definition(registry, path).outputs,
                        },
                    )
                },
                _ => Err(SemanticError::UnresolvedName),
            }
        },
        Statement::Connect { a, b } => graph.connect(reference(a), reference(b)),
        Statement::Primitive { kind } => Ok(graph),
    }
}

/// The graph of a statement list, or its first violation: the statements
/// are taken in order, each against the graph of those before it.
pub open spec fn analysis(stmts: Seq<Statement>, registry: Seq<ChipView>) -> Result<
    GraphView,
    Diagnostic,
>
    decreases stmts.len(),
{
    if stmts.len() == 0 {
        Ok(GraphView::empty())
    } else {
        match analysis(stmts.drop_last(), registry) {
            Ok(graph) => match step(graph, stmts.last(), registry) {
                Ok(next) => Ok(next),
                Err(e) => Err(Diagnostic { error: e, statement: (stmts.len() - 1) as usize }),
            },
            Err(d) => Err(d),
        }
    }
}

/// What the statement at position `k` makes of the graph of those before it.
pub proof fn lemma_analysis_step(stmts: Seq<Statement>, registry: Seq<ChipView>, k: int)
    requires
        0 <= k < stmts.len(),
        analysis(stmts.take(k), registry) is Ok,
    ensures
        analysis(stmts.take(k + 1), registry) == match step(
            analysis(stmts.take(k), registry)->Ok_0,
            stmts[k],
            registry,
        ) {
            Ok(next) => Ok::<GraphView, Diagnostic>(next),
            Err(e) => Err(Diagnostic { error: e, statement: k as usize }),
        },
{
    assert(stmts.take(k + 1).drop_last() == stmts.take(k));
    assert(stmts.take(k + 1).last() == stmts[k]);
}

/// A violation among the first statements is the violation of the whole list.
pub proof fn lemma_analysis_fails_early(stmts: Seq<Statement>, registry: Seq<ChipView>, k: int)
    requires
        0 <= k <= stmts.len(),
        analysis(stmts.take(k), registry) is Err,
    ensures
        analysis(stmts, registry) == analysis(stmts.take(k), registry),
    decreases stmts.len() - k,
{
    if k == stmts.len() {
        assert(stmts.take(k) == stmts);
    } else {
        assert(stmts.take(k + 1).drop_last() == stmts.take(k));
        lemma_analysis_fails_early(stmts, registry, k + 1);
    }
}

impl ConnectionGraph {
    /// The graph of a chip without statements.
    pub fn new() -> (g: Self)
        ensures
            g@ == GraphView::empty(),
    {
        let g = ConnectionGraph { scope: Scope::new(), edges: Vec::new() };
        assert(g@.edges == Seq::<EdgeView>::empty());
        g
    }

    /// The sources of the connections into a pin, in the order of the
    /// connections.
    pub fn sources(&self, sink: &PinRef) -> (r: Vec<PinRef>)
        ensures
            r.deep_view() == sources_of(self@.edges, sink@),
    {
        let mut out: Vec<PinRef> = Vec::new();
        let mut i: usize = 0;
        assert(self.edges.deep_view().take(0) == Seq::<EdgeView>::empty());
        while i < self.edges.len()
            invariant
                i <= self.edges.len(),
                out.deep_view() == sources_of(self.edges.deep_view().take(i as int), sink@),
            decreases self.edges.len() - i,
        {
            let ghost all = self.edges.deep_view();
            let ghost before = out.deep_view();
            assert(all.take(i + 1).drop_last() == all.take(i as int));
            assert(all.take(i + 1).last() == self.edges[i as int]@);
            if self.edges[i].sink.same(sink) {
                out.push(self.edges[i].source.clone());
                assert(out.deep_view() == before.push(self.edges[i as int]@.source));
            }
            i = i + 1;
        }
        assert(self.edges.deep_view().take(i as int) == self.edges.deep_view());
        out
    }

    /// Joins two endpoints, and records the connection if it is in order.
    pub fn connect(&mut self, a: PinRef, b: PinRef) -> (r: Result<(), SemanticError>)
        ensures
            match r {
                Ok(()) => old(self)@.connect(a@, b@) == Ok::<GraphView, SemanticError>(
                    final(self)@,
                ),
                Err(e) => old(self)@.connect(a@, b@) == Err::<GraphView, SemanticError>(e)
                    && final(self)@ == old(self)@,
            },
    {
        let ra = self.scope.role_of(&a);
        let rb = self.scope.role_of(&b);
        let edge = match (ra, rb) {
            (Some(Role::Rail), Some(Role::Rail)) => {
                return Err(SemanticError::RailToRailConflict);
            },
            (Some(Role::Source), Some(Role::Source)) => {
                return Err(SemanticError::DirectionConflict);
            },
            (Some(Role::Sink), Some(Role::Sink)) => {
                return Err(SemanticError::DirectionConflict);
            },
            (Some(Role::Sink), Some(_)) => Edge { sink: a, source: b },
            (Some(Role::Rail), Some(Role::Source)) => Edge { sink: a, source: b },
            (Some(_), Some(_)) => Edge { sink: b, source: a },
            _ => {
                return Err(SemanticError::UnresolvedName);
            },
        };
        if edge.sink.instance.is_some() && self.sources(&edge.sink).len() > 0 {
            return Err(SemanticError::DirectionConflict);
        }
        let ghost before = self.edges.deep_view();
        self.edges.push(edge);
        assert(self.edges.deep_view() == before.push(edge@));
        Ok(())
    }

    /// Takes one more statement into the graph.
    pub fn apply(&mut self, stmt: &AST, program: &mut Program) -> (r: Result<(), SemanticError>)
        ensures
            *final(program) == *old(program),
            match r {
                Ok(()) => step(old(self)@, stmt@, old(program)@) == Ok::<GraphView, SemanticError>(
                    final(self)@,
                ),
                Err(e) => step(old(self)@, stmt@, old(program)@) == Err::<GraphView, SemanticError>(
                    e,
                ) && final(self)@ == old(self)@,
            },
    {
        match stmt {
            AST::IN(n) => self.scope.declare(n.clone(), Kind::Input),
            AST::OUT(n) => self.scope.declare(n.clone(), Kind::Output),
            AST::RAIL(n) => self.scope.declare(n.clone(), Kind::Rail),
            AST::USE(path, alias) => {
                if self.scope.lookup(alias).is_some() {
                    return Err(SemanticError::DuplicateName);
                }
                match program.resolve(path) {
                    Ok(()) => {},
                    Err(e) => {
                        return Err(e);
                    },
                }
                self.scope.declare(alias.clone(), Kind::Alias(path.clone()))
            },
            AST::CHIP(alias, name) => {
                let known = match self.scope.lookup(alias) {
                    Some(known) => known,
                    None => {
                        return Err(SemanticError::UnresolvedName);
                    },
                };
                if self.scope.lookup(name).is_some() {
                    return Err(SemanticError::DuplicateName);
                }
                let path = match known {
                    Kind::Alias(path) => path.clone(),
                    _ => {
                        return Err(SemanticError::UnresolvedName);
                    },
                };
                let kind = match program.get_chip(&path) {
                    Ok(chip) => Kind::Instance {
                        definition: path,
                        inputs: clone_names(&chip.ins),
                        outputs: clone_names(&chip.outs),
                    },
                    Err(e) => {
                        return Err(e);
                    },
                };
                self.scope.declare(name.clone(), kind)
            },
            AST::CONNECT(a, b) => self.connect(PinRef::parse(a), PinRef::parse(b)),
            AST::CUSTOM(_) => Ok(()),
        }
    }
}

/// Resolves the statements of one chip, in order, against the registry.
/// Gives the chip's namespace and connections, or the first violation.
pub fn analyze(stmts: &Vec<AST>, program: &mut Program) -> (r: Result<ConnectionGraph, Diagnostic>)
    ensures
        *final(program) == *old(program),
        match r {
            Ok(graph) => analysis(stmts.deep_view(), old(program)@) == Ok::<GraphView, Diagnostic>(
                graph@,
            ),
            Err(d) => analysis(stmts.deep_view(), old(program)@) == Err::<GraphView, Diagnostic>(d),
        },
{
    let mut graph = ConnectionGraph::new();
    let mut i: usize = 0;
    assert(stmts.deep_view().take(0) == Seq::<Statement>::empty());
    while i < stmts.len()
        invariant
            i <= stmts.len(),
            *program == *old(program),
            analysis(stmts.deep_view().take(i as int), old(program)@) == Ok::<
                GraphView,
                Diagnostic,
            >(graph@),
        decreases stmts.len() - i,
    {
        let ghost all = stmts.deep_view();
        assert(all.take(i + 1).drop_last() == all.take(i as int));
        assert(all.take(i + 1).last() == stmts[i as int]@);
        match graph.apply(&stmts[i], program) {
            Ok(()) => {},
            Err(e) => {
                proof {
                    lemma_analysis_fails_early(all, old(program)@, i + 1);
                }
                return Err(Diagnostic { error: e, statement: i });
            },
        }
        i = i + 1;
    }
    assert(stmts.deep_view().take(i as int) == stmts.deep_view());
    Ok(graph)
}


/// The name that a statement declares, if it declares one.
pub open spec fn declares(stmt: Statement) -> Option<Name> {
    match stmt {
        Statement::In { name } => Some(name),
        Statement::Out { name } => Some(name),
        Statement::Rail { name } => Some(name),
        Statement::Use { path, alias } => Some(alias),
        Statement::ChipInstance { alias, bound_name } => Some(bound_name),
        _ => None,
    }
}

/// No two statements declare the same name.
pub open spec fn no_duplicate_names(stmts: Seq<Statement>) -> bool {
    forall|i: int, j: int|
        0 <= i < j < stmts.len() && declares(#[trigger] stmts[i]) is Some ==> declares(stmts[i])
            != declares(#[trigger] stmts[j])
}

/// The namespace that a statement list declares, whether or not its
/// connections are in order.
pub open spec fn declared_scope(stmts: Seq<Statement>, registry: Seq<ChipView>) -> Map<
    Name,
    KindView,
>
    decreases stmts.len(),
{
    if stmts.len() == 0 {
        Map::empty()
    } else {
        let before = declared_scope(stmts.drop_last(), registry);
        match stmts.last() {
            Statement::In { name } => before.insert(name, KindView::Input),
            Statement::Out { name } => before.insert(name, KindView::Output),
            Statement::Rail { name } => before.insert(name, KindView::Rail),
            Statement::Use { path, alias } => before.insert(alias, KindView::Alias { path }),
            Statement::ChipInstance { alias, bound_name } => before.insert(
                bound_name,
                KindView::Instance {
                    definition: before[alias]->path,
                    inputs: definition(registry, before[alias]->path).inputs,
                    outputs: definition(registry, before[alias]->path).outputs,
                },
            ),
            _ => before,
        }
    }
}

/// The connections that a statement list makes, whether or not every one
/// of them is in order: those between two ends that resolve to different
/// roles, from sink to source.
pub open spec fn declared_edges(stmts: Seq<Statement>, registry: Seq<ChipView>) -> Seq<EdgeView>
    decreases stmts.len(),
{
    if stmts.len() == 0 {
        Seq::empty()
    } else {
        let before = declared_edges(stmts.drop_last(), registry);
        match stmts.last() {
            Statement::Connect { a, b } => match connection(
                declared_scope(stmts.drop_last(), registry),
                reference(a),
                reference(b),
            ) {
                Ok(edge) => before.push(edge),
                Err(_) => before,
            },
            _ => before,
        }
    }
}

/// Whether the statement at position `k` refers only to what is declared
/// before it and registered, joins no two pins of one direction and no two
/// rails, and is not the second connection into an input pin of an
/// instance.
pub open spec fn in_order(stmts: Seq<Statement>, registry: Seq<ChipView>, k: int) -> bool {
    let scope = declared_scope(stmts.take(k), registry);
    let edges = declared_edges(stmts.take(k), registry);
    match stmts[k] {
        Statement::Use { path, alias } => registered(registry, path),
        Statement::ChipInstance { alias, bound_name } => {
            &&& scope.contains_key(alias)
            &&& scope[alias] is Alias
            &&& registered(registry, scope[alias]->path)
        },
        Statement::Connect { a, b } => (GraphView { scope, edges }).connect(
            reference(a),
            reference(b),
        ) is Ok,
        _ => true,
    }
}

/// A statement list without duplicate names in which every statement is in
/// order.
pub open spec fn well_formed(stmts: Seq<Statement>, registry: Seq<ChipView>) -> bool {
    &&& no_duplicate_names(stmts)
    &&& forall|k: int| 0 <= k < stmts.len() ==> in_order(stmts, registry, k)
}

/// Every name in the declared namespace was declared by a statement.
pub proof fn lemma_declared_scope_names(stmts: Seq<Statement>, registry: Seq<ChipView>, name: Name)
    requires
        declared_scope(stmts, registry).contains_key(name),
    ensures
        exists|i: int| 0 <= i < stmts.len() && declares(#[trigger] stmts[i]) == Some(name),
    decreases stmts.len(),
{
    if stmts.len() > 0 {
        if declares(stmts.last()) == Some(name) {
            assert(stmts[stmts.len() - 1] == stmts.last());
        } else {
            lemma_declared_scope_names(stmts.drop_last(), registry, name);
            let i = choose|i: int|
                0 <= i < stmts.drop_last().len() && declares(#[trigger] stmts.drop_last()[i])
                    == Some(name);
            assert(stmts[i] == stmts.drop_last()[i]);
        }
    }
}

/// A well-formed statement list resolves, and its namespace and its
/// connections are those that its statements declare.
pub proof fn lemma_well_formed_resolves(stmts: Seq<Statement>, registry: Seq<ChipView>)
    requires
        well_formed(stmts, registry),
    ensures
        analysis(stmts, registry) is Ok,
        analysis(stmts, registry)->Ok_0.scope == declared_scope(stmts, registry),
        analysis(stmts, registry)->Ok_0.edges == declared_edges(stmts, registry),
    decreases stmts.len(),
{
    if stmts.len() > 0 {
        let k = stmts.len() - 1;
        let before = stmts.drop_last();
        assert(before == stmts.take(k));
        assert forall|i: int, j: int|
            0 <= i < j < before.len() && declares(#[trigger] before[i]) is Some implies declares(
            before[i],
        ) != declares(#[trigger] before[j]) by {
            assert(before[i] == stmts[i] && before[j] == stmts[j]);
        }
        assert forall|i: int| 0 <= i < before.len() implies in_order(before, registry, i) by {
            assert(in_order(stmts, registry, i));
            assert(before.take(i) == stmts.take(i));
            assert(before[i] == stmts[i]);
        }
        lemma_well_formed_resolves(before, registry);
        let graph = analysis(before, registry)->Ok_0;
        assert(in_order(stmts, registry, k));
        assert(stmts.last() == stmts[k]);
        match declares(stmts[k]) {
            Some(name) => {
                if graph.scope.contains_key(name) {
                    lemma_declared_scope_names(before, registry, name);
                    let i = choose|i: int|
                        0 <= i < before.len() && declares(#[trigger] before[i]) == Some(name);
                    assert(before[i] == stmts[i]);
                    assert(false);
                }
            },
            None => {},
        }
    }
}

/// After a list has resolved, every name that it declares is in its namespace.
pub proof fn lemma_resolved_names_known(stmts: Seq<Statement>, registry: Seq<ChipView>, i: int)
    requires
        0 <= i < stmts.len(),
        analysis(stmts, registry) is Ok,
        declares(stmts[i]) is Some,
    ensures
        analysis(stmts, registry)->Ok_0.scope.contains_key(declares(stmts[i])->0),
    decreases stmts.len(),
{
    if i < stmts.len() - 1 {
        assert(stmts.drop_last()[i] == stmts[i]);
        lemma_resolved_names_known(stmts.drop_last(), registry, i);
    }
}

/// A name that is declared a second time is refused.
///
/// Where the statements before the second declaration resolve, the second
/// declaration is the first violation, and it is a `DuplicateName`. For the
/// declaration of an instance this takes an alias name that is declared:
/// one that is not is reported first.
pub proof fn lemma_second_declaration_fails(
    stmts: Seq<Statement>,
    registry: Seq<ChipView>,
    i: int,
    j: int,
)
    requires
        0 <= i < j < stmts.len(),
        declares(stmts[i]) is Some,
        declares(stmts[i]) == declares(stmts[j]),
        analysis(stmts.take(j), registry) is Ok,
        stmts[j] matches Statement::ChipInstance { alias, bound_name } ==> analysis(
            stmts.take(j),
            registry,
        )->Ok_0.scope.contains_key(alias),
    ensures
        analysis(stmts, registry) == Err::<GraphView, Diagnostic>(
            Diagnostic { error: SemanticError::DuplicateName, statement: j as usize },
        ),
{
    assert(stmts.take(j)[i] == stmts[i]);
    lemma_resolved_names_known(stmts.take(j), registry, i);
    lemma_analysis_step(stmts, registry, j);
    lemma_analysis_fails_early(stmts, registry, j + 1);
}

/// A connection between two sources, two sinks or two rails is refused.
///
/// Where the statements before the connection resolve and both of its ends
/// have the same role, the connection is the first violation: a
/// `RailToRailConflict` for two rails, a `DirectionConflict` for two
/// sources, such as two output pins of instances, and for two sinks, such
/// as two output pins of the chip.
pub proof fn lemma_same_role_fails(stmts: Seq<Statement>, registry: Seq<ChipView>, k: int)
    requires
        0 <= k < stmts.len(),
        analysis(stmts.take(k), registry) is Ok,
        stmts[k] is Connect,
        role(analysis(stmts.take(k), registry)->Ok_0.scope, reference(stmts[k]->a)) is Some,
        role(analysis(stmts.take(k), registry)->Ok_0.scope, reference(stmts[k]->a)) == role(
            analysis(stmts.take(k), registry)->Ok_0.scope,
            reference(stmts[k]->b),
        ),
    ensures
        analysis(stmts, registry) == Err::<GraphView, Diagnostic>(
            Diagnostic {
                error: if role(
                    analysis(stmts.take(k), registry)->Ok_0.scope,
                    reference(stmts[k]->a),
                ) == Some(Role::Rail) {
                    SemanticError::RailToRailConflict
                } else {
                    SemanticError::DirectionConflict
                },
                statement: k as usize,
            },
        ),
{
    lemma_analysis_step(stmts, registry, k);
    lemma_analysis_fails_early(stmts, registry, k + 1);
}


/// Whether a connection runs from a sink to a source of the namespace: its
/// sink is a sink or a rail, its source a source or a rail, and not both
/// are rails.
pub open spec fn runs_from_sink_to_source(scope: Map<Name, KindView>, edge: EdgeView) -> bool {
    &&& role(scope, edge.sink) == Some(Role::Sink) || role(scope, edge.sink) == Some(Role::Rail)
    &&& role(scope, edge.source) == Some(Role::Source) || role(scope, edge.source) == Some(
        Role::Rail,
    )
    &&& role(scope, edge.sink) != role(scope, edge.source)
}

/// A new name changes the role of no reference that resolves.
pub proof fn lemma_role_kept(scope: Map<Name, KindView>, r: PinRefView, name: Name, kind: KindView)
    requires
        !scope.contains_key(name),
        role(scope, r) is Some,
    ensures
        role(scope.insert(name, kind), r) == role(scope, r),
{
}

/// A pin that no connection runs into has no sources.
pub proof fn lemma_undriven(edges: Seq<EdgeView>, sink: PinRefView)
    requires
        forall|i: int| 0 <= i < edges.len() ==> (#[trigger] edges[i]).sink != sink,
    ensures
        sources_of(edges, sink).len() == 0,
    decreases edges.len(),
{
    if edges.len() > 0 {
        assert forall|i: int| 0 <= i < edges.drop_last().len() implies (
        #[trigger] edges.drop_last()[i]).sink != sink by {
            assert(edges.drop_last()[i] == edges[i]);
        }
        lemma_undriven(edges.drop_last(), sink);
        assert(edges[edges.len() - 1].sink != sink);
    }
}

/// In a resolved statement list no input pin of an instance has more than
/// one connection into it.
pub proof fn lemma_instance_inputs_driven_once(
    stmts: Seq<Statement>,
    registry: Seq<ChipView>,
    sink: PinRefView,
)
    requires
        analysis(stmts, registry) is Ok,
        sink.instance is Some,
    ensures
        sources_of(analysis(stmts, registry)->Ok_0.edges, sink).len() <= 1,
    decreases stmts.len(),
{
    if stmts.len() > 0 {
        lemma_instance_inputs_driven_once(stmts.drop_last(), registry, sink);
        let before = analysis(stmts.drop_last(), registry)->Ok_0;
        let after = analysis(stmts, registry)->Ok_0;
        if after.edges != before.edges {
            assert(after.edges.drop_last() == before.edges);
        }
    }
}

/// The connections of a resolved statement list run from sink to source.
pub proof fn lemma_connections_normalized(stmts: Seq<Statement>, registry: Seq<ChipView>)
    requires
        analysis(stmts, registry) is Ok,
    ensures
        forall|i: int|
            0 <= i < analysis(stmts, registry)->Ok_0.edges.len() ==> runs_from_sink_to_source(
                analysis(stmts, registry)->Ok_0.scope,
                #[trigger] analysis(stmts, registry)->Ok_0.edges[i],
            ),
    decreases stmts.len(),
{
    if stmts.len() > 0 {
        lemma_connections_normalized(stmts.drop_last(), registry);
        let before = analysis(stmts.drop_last(), registry)->Ok_0;
        let after = analysis(stmts, registry)->Ok_0;
        assert forall|i: int| 0 <= i < after.edges.len() implies runs_from_sink_to_source(
            after.scope,
            #[trigger] after.edges[i],
        ) by {
            if i < before.edges.len() {
                assert(after.edges[i] == before.edges[i]);
                assert(runs_from_sink_to_source(before.scope, before.edges[i]));
                match declares(stmts.last()) {
                    Some(name) => {
                        let kind = after.scope[name];
                        assert(after.scope == before.scope.insert(name, kind));
                        lemma_role_kept(before.scope, before.edges[i].sink, name, kind);
                        lemma_role_kept(before.scope, before.edges[i].source, name, kind);
                    },
                    None => {},
                }
            }
        }
    }
}


/// Whether two registries hold the same definitions under the same names,
/// in whatever order.
pub open spec fn same_definitions(first: Seq<ChipView>, second: Seq<ChipView>) -> bool {
    forall|name: Name|
        {
            &&& #[trigger] registered(first, name) == registered(second, name)
            &&& registered(first, name) ==> definition(first, name) == definition(second, name)
        }
}

/// Resolving does not depend on the order of the registry: two registries
/// that hold the same definitions under the same names give the same graph,
/// or the same violation.
pub proof fn lemma_analysis_ignores_order(
    stmts: Seq<Statement>,
    first: Seq<ChipView>,
    second: Seq<ChipView>,
)
    requires
        same_definitions(first, second),
    ensures
        analysis(stmts, first) == analysis(stmts, second),
    decreases stmts.len(),
{
    if stmts.len() > 0 {
        lemma_analysis_ignores_order(stmts.drop_last(), first, second);
        match analysis(stmts.drop_last(), first) {
            Ok(graph) => {
                match stmts.last() {
                    Statement::Use { path, alias } => {
                        assert(registered(first, path) == registered(second, path));
                    },
                    Statement::ChipInstance { alias, bound_name } => {
                        if graph.scope.contains_key(alias) {
                            match graph.scope[alias] {
                                KindView::Alias { path } => {
                                    assert(registered(first, path) == registered(second, path));
                                },
                                _ => {},
                            }
                        }
                    },
                    _ => {},
                }
                assert(step(graph, stmts.last(), first) == step(graph, stmts.last(), second));
            },
            Err(_) => {},
        }
    }
}

} // verus!
