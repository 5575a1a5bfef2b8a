//! The registry that every compilation starts from.

use vstd::prelude::*;
use vstd::string::StringExecFns;
use crate::ast::{declared_inputs, declared_outputs, Name, Statement, AST};
use crate::error::{Diagnostic, SemanticError};
use crate::lexer::{definition, distinct_names, registered, registry_names, Chip, ChipView, Program};
use crate::resolve::{
    analysis, lemma_analysis_step, lemma_undriven, step, EdgeView, GraphView,
};
use crate::scope::{
    lemma_reference_round_trip, reference, role, KindView, PinRefView, Role,
};
use crate::text::{is_first, lemma_first_index};

verus! {

/// The statements of the built-in NOT.
pub open spec fn not_statements() -> Seq<Statement> {
    seq![
        Statement::In { name: "i"@ },
        Statement::Out { name: "o"@ },
        Statement::Primitive { kind: "NOT"@ },
    ]
}

/// The statements of the built-in AND.
pub open spec fn and_statements() -> Seq<Statement> {
    seq![
        Statement::In { name: "in0"@ },
        Statement::In { name: "in1"@ },
        Statement::Out { name: "out"@ },
        Statement::Primitive { kind: "AND"@ },
    ]
}

/// The registry that holds the built-in NOT alone.
pub open spec fn primitive_registry() -> Seq<ChipView> {
    seq![ChipView::of("STD.NOT"@, not_statements())]
}

/// The statements of NAND: an AND whose output runs through a NOT.
pub open spec fn nand_statements() -> Seq<Statement> {
    seq![
        Statement::Use { path: "STD.AND"@, alias: "and"@ },
        Statement::Use { path: "STD.NOT"@, alias: "not"@ },
        Statement::In { name: "in0"@ },
        Statement::In { name: "in1"@ },
        Statement::Out { name: "out"@ },
        Statement::ChipInstance { alias: "and"@, bound_name: "a"@ },
        Statement::ChipInstance { alias: "not"@, bound_name: "n"@ },
        Statement::Connect { a: "in0"@, b: "a.in0"@ },
        Statement::Connect { a: "in1"@, b: "a.in1"@ },
        Statement::Connect { a: "a.out"@, b: "n.i"@ },
        Statement::Connect { a: "n.o"@, b: "out"@ },
    ]
}

/// The statements of XOR: one input and not the other, either way round.
pub open spec fn xor_statements() -> Seq<Statement> {
    seq![
        Statement::Use { path: "STD.AND"@, alias: "and"@ },
        Statement::Use { path: "STD.NOT"@, alias: "not"@ },
        Statement::In { name: "in0"@ },
        Statement::In { name: "in1"@ },
        Statement::Out { name: "out"@ },
        Statement::ChipInstance { alias: "not"@, bound_name: "n0"@ },
        Statement::ChipInstance { alias: "not"@, bound_name: "n1"@ },
        Statement::ChipInstance { alias: "and"@, bound_name: "a0"@ },
        Statement::ChipInstance { alias: "and"@, bound_name: "a1"@ },
        Statement::Connect { a: "in0"@, b: "n0.i"@ },
        Statement::Connect { a: "in1"@, b: "n1.i"@ },
        Statement::Connect { a: "in0"@, b: "a0.in0"@ },
        Statement::Connect { a: "n1.o"@, b: "a0.in1"@ },
        Statement::Connect { a: "n0.o"@, b: "a1.in0"@ },
        Statement::Connect { a: "in1"@, b: "a1.in1"@ },
        Statement::Connect { a: "a0.out"@, b: "out"@ },
        Statement::Connect { a: "a1.out"@, b: "out"@ },
    ]
}

/// The registry that every compilation starts from: the built-in
/// operations, and XOR and NAND made of them.
pub open spec fn standard_registry() -> Seq<ChipView> {
    seq![
        ChipView::of("STD.NOT"@, not_statements()),
        ChipView::of("STD.AND"@, and_statements()),
        ChipView::of("STD.XOR"@, xor_statements()),
        ChipView::of("STD.NAND"@, nand_statements()),
    ]
}

/// Whether a registry holds the built-in operations with the pins that the
/// standard chips connect to.
pub open spec fn has_primitives(registry: Seq<ChipView>) -> bool {
    &&& registered(registry, "STD.NOT"@)
    &&& definition(registry, "STD.NOT"@).inputs == seq!["i"@]
    &&& definition(registry, "STD.NOT"@).outputs == seq!["o"@]
    &&& registered(registry, "STD.AND"@)
    &&& definition(registry, "STD.AND"@).inputs == seq!["in0"@, "in1"@]
    &&& definition(registry, "STD.AND"@).outputs == seq!["out"@]
}

/// A registry that starts with the built-in operations holds them.
pub proof fn lemma_has_primitives(registry: Seq<ChipView>)
    requires
        registry.len() >= 2,
        registry[0] == ChipView::of("STD.NOT"@, not_statements()),
        registry[1] == ChipView::of("STD.AND"@, and_statements()),
    ensures
        has_primitives(registry),
{
    reveal_strlit("STD.NOT");
    reveal_strlit("STD.AND");
    reveal_with_fuel(declared_inputs, 5);
    reveal_with_fuel(declared_outputs, 5);
    let names = registry_names(registry);
    assert(names[0] == "STD.NOT"@);
    assert(names[1] == "STD.AND"@);
    assert("STD.NOT"@[4] != "STD.AND"@[4]);
    assert(is_first(names, "STD.NOT"@, 0));
    assert(is_first(names, "STD.AND"@, 1));
    lemma_first_index(names, "STD.NOT"@, 0);
    lemma_first_index(names, "STD.AND"@, 1);
    assert(declared_inputs(not_statements()) == seq!["i"@]);
    assert(declared_outputs(not_statements()) == seq!["o"@]);
    assert(declared_inputs(and_statements()) == seq!["in0"@, "in1"@]);
    assert(declared_outputs(and_statements()) == seq!["out"@]);
}

/// How a dotted reference of the standard chips reads.
proof fn lemma_dotted(text: Name, instance: Name, pin: Name)
    requires
        text =~= instance + seq!['.'] + pin,
        !instance.contains('.'),
    ensures
        reference(text) == (PinRefView { instance: Some(instance), pin }),
{
    lemma_reference_round_trip(PinRefView { instance: Some(instance), pin });
}

/// One more statement that is in order.
proof fn lemma_next(
    stmts: Seq<Statement>,
    registry: Seq<ChipView>,
    k: int,
    graph: GraphView,
    next: GraphView,
)
    requires
        0 <= k < stmts.len(),
        analysis(stmts.take(k), registry) == Ok::<GraphView, Diagnostic>(graph),
        step(graph, stmts[k], registry) == Ok::<GraphView, SemanticError>(next),
    ensures
        analysis(stmts.take(k + 1), registry) == Ok::<GraphView, Diagnostic>(next),
{
    lemma_analysis_step(stmts, registry, k);
}

/// What tells the names of the standard chips apart: the length, the first
/// character and the last.
spec fn signature(name: Name) -> (nat, char, char) {
    (name.len(), name.first(), name.last())
}

/// The names of the standard chips, told apart.
proof fn lemma_standard_names()
    ensures
        signature("and"@) == (3nat, 'a', 'd'),
        signature("not"@) == (3nat, 'n', 't'),
        signature("in0"@) == (3nat, 'i', '0'),
        signature("in1"@) == (3nat, 'i', '1'),
        signature("out"@) == (3nat, 'o', 't'),
        signature("i"@) == (1nat, 'i', 'i'),
        signature("o"@) == (1nat, 'o', 'o'),
        signature("a"@) == (1nat, 'a', 'a'),
        signature("n"@) == (1nat, 'n', 'n'),
        signature("a0"@) == (2nat, 'a', '0'),
        signature("a1"@) == (2nat, 'a', '1'),
        signature("n0"@) == (2nat, 'n', '0'),
        signature("n1"@) == (2nat, 'n', '1'),
        !"in0"@.contains('.'),
        !"in1"@.contains('.'),
        !"out"@.contains('.'),
        !"a"@.contains('.'),
        !"n"@.contains('.'),
        !"a0"@.contains('.'),
        !"a1"@.contains('.'),
        !"n0"@.contains('.'),
        !"n1"@.contains('.'),
{
    reveal_strlit("and");
    reveal_strlit("not");
    reveal_strlit("in0");
    reveal_strlit("in1");
    reveal_strlit("out");
    reveal_strlit("i");
    reveal_strlit("o");
    reveal_strlit("a");
    reveal_strlit("n");
    reveal_strlit("a0");
    reveal_strlit("a1");
    reveal_strlit("n0");
    reveal_strlit("n1");
}

/// The dotted references of the standard chips, read.
proof fn lemma_standard_references()
    ensures
        reference("a.in0"@) == (PinRefView { instance: Some("a"@), pin: "in0"@ }),
        reference("a.in1"@) == (PinRefView { instance: Some("a"@), pin: "in1"@ }),
        reference("a.out"@) == (PinRefView { instance: Some("a"@), pin: "out"@ }),
        reference("n.i"@) == (PinRefView { instance: Some("n"@), pin: "i"@ }),
        reference("n.o"@) == (PinRefView { instance: Some("n"@), pin: "o"@ }),
        reference("a0.in0"@) == (PinRefView { instance: Some("a0"@), pin: "in0"@ }),
        reference("a0.in1"@) == (PinRefView { instance: Some("a0"@), pin: "in1"@ }),
        reference("a0.out"@) == (PinRefView { instance: Some("a0"@), pin: "out"@ }),
        reference("a1.in0"@) == (PinRefView { instance: Some("a1"@), pin: "in0"@ }),
        reference("a1.in1"@) == (PinRefView { instance: Some("a1"@), pin: "in1"@ }),
        reference("a1.out"@) == (PinRefView { instance: Some("a1"@), pin: "out"@ }),
        reference("n0.i"@) == (PinRefView { instance: Some("n0"@), pin: "i"@ }),
        reference("n0.o"@) == (PinRefView { instance: Some("n0"@), pin: "o"@ }),
        reference("n1.i"@) == (PinRefView { instance: Some("n1"@), pin: "i"@ }),
        reference("n1.o"@) == (PinRefView { instance: Some("n1"@), pin: "o"@ }),
        reference("in0"@) == (PinRefView { instance: None, pin: "in0"@ }),
        reference("in1"@) == (PinRefView { instance: None, pin: "in1"@ }),
        reference("out"@) == (PinRefView { instance: None, pin: "out"@ }),
{
    lemma_standard_names();
    reveal_strlit("in0");
    reveal_strlit("in1");
    reveal_strlit("out");
    reveal_strlit("i");
    reveal_strlit("o");
    reveal_strlit("a");
    reveal_strlit("n");
    reveal_strlit("a0");
    reveal_strlit("a1");
    reveal_strlit("n0");
    reveal_strlit("n1");
    reveal_strlit("a.in0");
    reveal_strlit("a.in1");
    reveal_strlit("a.out");
    reveal_strlit("n.i");
    reveal_strlit("n.o");
    reveal_strlit("a0.in0");
    reveal_strlit("a0.in1");
    reveal_strlit("a0.out");
    reveal_strlit("a1.in0");
    reveal_strlit("a1.in1");
    reveal_strlit("a1.out");
    reveal_strlit("n0.i");
    reveal_strlit("n0.o");
    reveal_strlit("n1.i");
    reveal_strlit("n1.o");
    lemma_dotted("a.in0"@, "a"@, "in0"@);
    lemma_dotted("a.in1"@, "a"@, "in1"@);
    lemma_dotted("a.out"@, "a"@, "out"@);
    lemma_dotted("n.i"@, "n"@, "i"@);
    lemma_dotted("n.o"@, "n"@, "o"@);
    lemma_dotted("a0.in0"@, "a0"@, "in0"@);
    lemma_dotted("a0.in1"@, "a0"@, "in1"@);
    lemma_dotted("a0.out"@, "a0"@, "out"@);
    lemma_dotted("a1.in0"@, "a1"@, "in0"@);
    lemma_dotted("a1.in1"@, "a1"@, "in1"@);
    lemma_dotted("a1.out"@, "a1"@, "out"@);
    lemma_dotted("n0.i"@, "n0"@, "i"@);
    lemma_dotted("n0.o"@, "n0"@, "o"@);
    lemma_dotted("n1.i"@, "n1"@, "i"@);
    lemma_dotted("n1.o"@, "n1"@, "o"@);
}

/// NAND resolves in every registry that holds the built-in operations.
pub proof fn lemma_nand_resolves(registry: Seq<ChipView>)
    requires
        has_primitives(registry),
    ensures
        analysis(nand_statements(), registry) is Ok,
{
    let s = nand_statements();
    let and_kind = KindView::Instance {
        definition: "STD.AND"@,
        inputs: seq!["in0"@, "in1"@],
        outputs: seq!["out"@],
    };
    let not_kind = KindView::Instance {
        definition: "STD.NOT"@,
        inputs: seq!["i"@],
        outputs: seq!["o"@],
    };
    lemma_standard_names();
    let g0 = GraphView::empty();
    assert(s.take(0) == Seq::<Statement>::empty());
    let m1 = g0.scope.insert("and"@, KindView::Alias { path: "STD.AND"@ });
    let g1 = GraphView { scope: m1, edges: g0.edges };
    lemma_next(s, registry, 0, g0, g1);
    let m2 = m1.insert("not"@, KindView::Alias { path: "STD.NOT"@ });
    let g2 = GraphView { scope: m2, edges: g0.edges };
    lemma_next(s, registry, 1, g1, g2);
    let m3 = m2.insert("in0"@, KindView::Input);
    let g3 = GraphView { scope: m3, edges: g0.edges };
    lemma_next(s, registry, 2, g2, g3);
    let m4 = m3.insert("in1"@, KindView::Input);
    let g4 = GraphView { scope: m4, edges: g0.edges };
    lemma_next(s, registry, 3, g3, g4);
    let m5 = m4.insert("out"@, KindView::Output);
    let g5 = GraphView { scope: m5, edges: g0.edges };
    lemma_next(s, registry, 4, g4, g5);
    let m6 = m5.insert("a"@, and_kind);
    let g6 = GraphView { scope: m6, edges: g0.edges };
    lemma_next(s, registry, 5, g5, g6);
    let m7 = m6.insert("n"@, not_kind);
    let g7 = GraphView { scope: m7, edges: g0.edges };
    lemma_next(s, registry, 6, g6, g7);
    lemma_standard_references();
    let in0 = PinRefView { instance: None, pin: "in0"@ };
    let in1 = PinRefView { instance: None, pin: "in1"@ };
    let out = PinRefView { instance: None, pin: "out"@ };
    let a_in0 = PinRefView { instance: Some("a"@), pin: "in0"@ };
    let a_in1 = PinRefView { instance: Some("a"@), pin: "in1"@ };
    let a_out = PinRefView { instance: Some("a"@), pin: "out"@ };
    let n_i = PinRefView { instance: Some("n"@), pin: "i"@ };
    let n_o = PinRefView { instance: Some("n"@), pin: "o"@ };
    assert(seq!["in0"@, "in1"@][0] == "in0"@);
    assert(seq!["in0"@, "in1"@][1] == "in1"@);
    assert(seq!["out"@][0] == "out"@);
    assert(seq!["i"@][0] == "i"@);
    assert(seq!["o"@][0] == "o"@);
    assert(role(m7, in0) == Some(Role::Source));
    assert(role(m7, in1) == Some(Role::Source));
    assert(role(m7, out) == Some(Role::Sink));
    assert(role(m7, a_in0) == Some(Role::Sink));
    assert(role(m7, a_in1) == Some(Role::Sink));
    assert(role(m7, a_out) == Some(Role::Source));
    assert(role(m7, n_i) == Some(Role::Sink));
    assert(role(m7, n_o) == Some(Role::Source));
    let e1 = g0.edges.push(EdgeView { sink: a_in0, source: in0 });
    let e2 = e1.push(EdgeView { sink: a_in1, source: in1 });
    let e3 = e2.push(EdgeView { sink: n_i, source: a_out });
    let e4 = e3.push(EdgeView { sink: out, source: n_o });
    let g8 = GraphView { scope: m7, edges: e1 };
    let g9 = GraphView { scope: m7, edges: e2 };
    let g10 = GraphView { scope: m7, edges: e3 };
    let g11 = GraphView { scope: m7, edges: e4 };
    lemma_undriven(g0.edges, a_in0);
    lemma_next(s, registry, 7, g7, g8);
    lemma_undriven(e1, a_in1);
    lemma_next(s, registry, 8, g8, g9);
    lemma_undriven(e2, n_i);
    lemma_next(s, registry, 9, g9, g10);
    lemma_next(s, registry, 10, g10, g11);
    assert(s.take(11) == s);
}

/// XOR resolves in every registry that holds the built-in operations.
pub proof fn lemma_xor_resolves(registry: Seq<ChipView>)
    requires
        has_primitives(registry),
    ensures
        analysis(xor_statements(), registry) is Ok,
{
    let s = xor_statements();
    let and_kind = KindView::Instance {
        definition: "STD.AND"@,
        inputs: seq!["in0"@, "in1"@],
        outputs: seq!["out"@],
    };
    let not_kind = KindView::Instance {
        definition: "STD.NOT"@,
        inputs: seq!["i"@],
        outputs: seq!["o"@],
    };
    lemma_standard_names();
    let g0 = GraphView::empty();
    assert(s.take(0) == Seq::<Statement>::empty());
    let m1 = g0.scope.insert("and"@, KindView::Alias { path: "STD.AND"@ });
    let g1 = GraphView { scope: m1, edges: g0.edges };
    lemma_next(s, registry, 0, g0, g1);
    let m2 = m1.insert("not"@, KindView::Alias { path: "STD.NOT"@ });
    let g2 = GraphView { scope: m2, edges: g0.edges };
    lemma_next(s, registry, 1, g1, g2);
    let m3 = m2.insert("in0"@, KindView::Input);
    let g3 = GraphView { scope: m3, edges: g0.edges };
    lemma_next(s, registry, 2, g2, g3);
    let m4 = m3.insert("in1"@, KindView::Input);
    let g4 = GraphView { scope: m4, edges: g0.edges };
    lemma_next(s, registry, 3, g3, g4);
    let m5 = m4.insert("out"@, KindView::Output);
    let g5 = GraphView { scope: m5, edges: g0.edges };
    lemma_next(s, registry, 4, g4, g5);
    let m6 = m5.insert("n0"@, not_kind);
    let g6 = GraphView { scope: m6, edges: g0.edges };
    lemma_next(s, registry, 5, g5, g6);
    let m7 = m6.insert("n1"@, not_kind);
    let g7 = GraphView { scope: m7, edges: g0.edges };
    lemma_next(s, registry, 6, g6, g7);
    let m8 = m7.insert("a0"@, and_kind);
    let g8 = GraphView { scope: m8, edges: g0.edges };
    lemma_next(s, registry, 7, g7, g8);
    let m = m8.insert("a1"@, and_kind);
    let g9 = GraphView { scope: m, edges: g0.edges };
    lemma_next(s, registry, 8, g8, g9);
    lemma_standard_references();
    let in0 = PinRefView { instance: None, pin: "in0"@ };
    let in1 = PinRefView { instance: None, pin: "in1"@ };
    let out = PinRefView { instance: None, pin: "out"@ };
    let a0_in0 = PinRefView { instance: Some("a0"@), pin: "in0"@ };
    let a0_in1 = PinRefView { instance: Some("a0"@), pin: "in1"@ };
    let a0_out = PinRefView { instance: Some("a0"@), pin: "out"@ };
    let a1_in0 = PinRefView { instance: Some("a1"@), pin: "in0"@ };
    let a1_in1 = PinRefView { instance: Some("a1"@), pin: "in1"@ };
    let a1_out = PinRefView { instance: Some("a1"@), pin: "out"@ };
    let n0_i = PinRefView { instance: Some("n0"@), pin: "i"@ };
    let n0_o = PinRefView { instance: Some("n0"@), pin: "o"@ };
    let n1_i = PinRefView { instance: Some("n1"@), pin: "i"@ };
    let n1_o = PinRefView { instance: Some("n1"@), pin: "o"@ };
    assert(seq!["in0"@, "in1"@][0] == "in0"@);
    assert(seq!["in0"@, "in1"@][1] == "in1"@);
    assert(seq!["out"@][0] == "out"@);
    assert(seq!["i"@][0] == "i"@);
    assert(seq!["o"@][0] == "o"@);
    assert(role(m, in0) == Some(Role::Source));
    assert(role(m, in1) == Some(Role::Source));
    assert(role(m, out) == Some(Role::Sink));
    assert(role(m, a0_in0) == Some(Role::Sink));
    assert(role(m, a0_in1) == Some(Role::Sink));
    assert(role(m, a0_out) == Some(Role::Source));
    assert(role(m, a1_in0) == Some(Role::Sink));
    assert(role(m, a1_in1) == Some(Role::Sink));
    assert(role(m, a1_out) == Some(Role::Source));
    assert(role(m, n0_i) == Some(Role::Sink));
    assert(role(m, n0_o) == Some(Role::Source));
    assert(role(m, n1_i) == Some(Role::Sink));
    assert(role(m, n1_o) == Some(Role::Source));
    let e1 = g0.edges.push(EdgeView { sink: n0_i, source: in0 });
    let e2 = e1.push(EdgeView { sink: n1_i, source: in1 });
    let e3 = e2.push(EdgeView { sink: a0_in0, source: in0 });
    let e4 = e3.push(EdgeView { sink: a0_in1, source: n1_o });
    let e5 = e4.push(EdgeView { sink: a1_in0, source: n0_o });
    let e6 = e5.push(EdgeView { sink: a1_in1, source: in1 });
    let e7 = e6.push(EdgeView { sink: out, source: a0_out });
    let e8 = e7.push(EdgeView { sink: out, source: a1_out });
    let g10 = GraphView { scope: m, edges: e1 };
    let g11 = GraphView { scope: m, edges: e2 };
    let g12 = GraphView { scope: m, edges: e3 };
    let g13 = GraphView { scope: m, edges: e4 };
    let g14 = GraphView { scope: m, edges: e5 };
    let g15 = GraphView { scope: m, edges: e6 };
    let g16 = GraphView { scope: m, edges: e7 };
    let g17 = GraphView { scope: m, edges: e8 };
    lemma_undriven(g0.edges, n0_i);
    lemma_next(s, registry, 9, g9, g10);
    lemma_undriven(e1, n1_i);
    lemma_next(s, registry, 10, g10, g11);
    lemma_undriven(e2, a0_in0);
    lemma_next(s, registry, 11, g11, g12);
    lemma_undriven(e3, a0_in1);
    lemma_next(s, registry, 12, g12, g13);
    lemma_undriven(e4, a1_in0);
    lemma_next(s, registry, 13, g13, g14);
    lemma_undriven(e5, a1_in1);
    lemma_next(s, registry, 14, g14, g15);
    lemma_next(s, registry, 15, g15, g16);
    lemma_next(s, registry, 16, g16, g17);
    assert(s.take(17) == s);
}

/// The standard registry holds no name twice: none of its definitions is
/// registered among those before it.
pub proof fn lemma_standard_registry_distinct()
    ensures
        distinct_names(standard_registry()),
        forall|k: int|
            0 <= k < 4 ==> !registered(
                #[trigger] standard_registry().take(k),
                standard_registry()[k].name,
            ),
{
    reveal_strlit("STD.NOT");
    reveal_strlit("STD.AND");
    reveal_strlit("STD.XOR");
    reveal_strlit("STD.NAND");
    let names = registry_names(standard_registry());
    assert(names[0] == "STD.NOT"@);
    assert(names[1] == "STD.AND"@);
    assert(names[2] == "STD.XOR"@);
    assert(names[3] == "STD.NAND"@);
    assert(signature("STD.NOT"@) == (7nat, 'S', 'T'));
    assert(signature("STD.AND"@) == (7nat, 'S', 'D'));
    assert(signature("STD.XOR"@) == (7nat, 'S', 'R'));
    assert(signature("STD.NAND"@) == (8nat, 'S', 'D'));
    assert forall|k: int| 0 <= k < 4 implies !registered(
        #[trigger] standard_registry().take(k),
        standard_registry()[k].name,
    ) by {
        let before = registry_names(standard_registry().take(k));
        if before.contains(names[k]) {
            let j = choose|j: int| 0 <= j < before.len() && before[j] == names[k];
            assert(names[j] == names[k]);
        }
    }
}

fn nand_source() -> (r: Vec<AST>)
    ensures
        r.deep_view() == nand_statements(),
{
    let r = vec![
        AST::USE(String::from_str("STD.AND"), String::from_str("and")),
        AST::USE(String::from_str("STD.NOT"), String::from_str("not")),
        AST::IN(String::from_str("in0")),
        AST::IN(String::from_str("in1")),
        AST::OUT(String::from_str("out")),
        AST::CHIP(String::from_str("and"), String::from_str("a")),
        AST::CHIP(String::from_str("not"), String::from_str("n")),
        AST::CONNECT(String::from_str("in0"), String::from_str("a.in0")),
        AST::CONNECT(String::from_str("in1"), String::from_str("a.in1")),
        AST::CONNECT(String::from_str("a.out"), String::from_str("n.i")),
        AST::CONNECT(String::from_str("n.o"), String::from_str("out")),
    ];
    assert(r.deep_view() == nand_statements());
    r
}

fn xor_source() -> (r: Vec<AST>)
    ensures
        r.deep_view() == xor_statements(),
{
    let r = vec![
        AST::USE(String::from_str("STD.AND"), String::from_str("and")),
        AST::USE(String::from_str("STD.NOT"), String::from_str("not")),
        AST::IN(String::from_str("in0")),
        AST::IN(String::from_str("in1")),
        AST::OUT(String::from_str("out")),
        AST::CHIP(String::from_str("not"), String::from_str("n0")),
        AST::CHIP(String::from_str("not"), String::from_str("n1")),
        AST::CHIP(String::from_str("and"), String::from_str("a0")),
        AST::CHIP(String::from_str("and"), String::from_str("a1")),
        AST::CONNECT(String::from_str("in0"), String::from_str("n0.i")),
        AST::CONNECT(String::from_str("in1"), String::from_str("n1.i")),
        AST::CONNECT(String::from_str("in0"), String::from_str("a0.in0")),
        AST::CONNECT(String::from_str("n1.o"), String::from_str("a0.in1")),
        AST::CONNECT(String::from_str("n0.o"), String::from_str("a1.in0")),
        AST::CONNECT(String::from_str("in1"), String::from_str("a1.in1")),
        AST::CONNECT(String::from_str("a0.out"), String::from_str("out")),
        AST::CONNECT(String::from_str("a1.out"), String::from_str("out")),
    ];
    assert(r.deep_view() == xor_statements());
    r
}

/// The built-in AND resolves in every registry.
pub proof fn lemma_and_resolves(registry: Seq<ChipView>)
    ensures
        analysis(and_statements(), registry) is Ok,
{
    let s = and_statements();
    lemma_standard_names();
    let g0 = GraphView::empty();
    assert(s.take(0) == Seq::<Statement>::empty());
    let g1 = GraphView { scope: g0.scope.insert("in0"@, KindView::Input), edges: g0.edges };
    lemma_next(s, registry, 0, g0, g1);
    let g2 = GraphView { scope: g1.scope.insert("in1"@, KindView::Input), edges: g0.edges };
    lemma_next(s, registry, 1, g1, g2);
    let g3 = GraphView { scope: g2.scope.insert("out"@, KindView::Output), edges: g0.edges };
    lemma_next(s, registry, 2, g2, g3);
    lemma_next(s, registry, 3, g3, g3);
    assert(s.take(4) == s);
}

fn and_source() -> (r: Vec<AST>)
    ensures
        r.deep_view() == and_statements(),
{
    let r = vec![
        AST::IN(String::from_str("in0")),
        AST::IN(String::from_str("in1")),
        AST::OUT(String::from_str("out")),
        AST::CUSTOM(String::from_str("AND")),
    ];
    assert(r.deep_view() == and_statements());
    r
}

impl Program {
    /// The registry that every compilation starts from: `STD.NOT`, then
    /// the built-in `STD.AND`, then `STD.XOR` and `STD.NAND`. All but the
    /// first are resolved like any other chip.
    pub fn new() -> (r: Self)
        ensures
            r@ == standard_registry(),
            distinct_names(r@),
    {
        let mut s = Self::new_simple();
        proof {
            lemma_standard_registry_distinct();
            assert(s@ == standard_registry().take(1));
            assert(standard_registry().take(2) == standard_registry().take(1).push(
                standard_registry()[1],
            ));
            assert(standard_registry().take(3) == standard_registry().take(2).push(
                standard_registry()[2],
            ));
            assert(standard_registry().take(4) == standard_registry().take(3).push(
                standard_registry()[3],
            ));
            assert(standard_registry().take(4) == standard_registry());
            lemma_and_resolves(s@);
        }
        match Chip::parse(String::from_str("STD.AND"), and_source(), &mut s) {
            Ok(chip) => match s.insert(chip) {
                Ok(()) => {},
                Err(_) => {},
            },
            Err(_) => {},
        }
        proof {
            lemma_has_primitives(s@);
            lemma_xor_resolves(s@);
        }
        match Chip::parse(String::from_str("STD.XOR"), xor_source(), &mut s) {
            Ok(chip) => match s.insert(chip) {
                Ok(()) => {},
                Err(_) => {},
            },
            Err(_) => {},
        }
        proof {
            lemma_has_primitives(s@);
            lemma_nand_resolves(s@);
        }
        match Chip::parse(String::from_str("STD.NAND"), nand_source(), &mut s) {
            Ok(chip) => match s.insert(chip) {
                Ok(()) => {},
                Err(_) => {},
            },
            Err(_) => {},
        }
        s
    }
}

} // verus!
