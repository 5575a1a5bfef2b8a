use chip_compiler::ast::{StatementKind, AST};
use chip_compiler::error::{Diagnostic, SemanticError};
use chip_compiler::lexer::{Chip, Program};
use chip_compiler::resolve::{analyze, ConnectionGraph, Edge};
use chip_compiler::scope::{Kind, PinRef, Role, Scope};

fn s(text: &str) -> String {
    text.to_string()
}

fn bare(pin: &str) -> PinRef {
    PinRef { instance: None, pin: s(pin) }
}

fn dotted(instance: &str, pin: &str) -> PinRef {
    PinRef { instance: Some(s(instance)), pin: s(pin) }
}

fn fails(stmts: Vec<AST>, error: SemanticError, statement: usize) {
    let mut program = Program::new();
    assert_eq!(
        Chip::parse(s("main"), stmts, &mut program),
        Err(Diagnostic { error, statement })
    );
}

/// Two inputs, two outputs, two rails, and an AND and a NOT instance.
fn preamble() -> Vec<AST> {
    vec![
        AST::USE(s("STD.AND"), s("and")),
        AST::USE(s("STD.NOT"), s("not")),
        AST::IN(s("x")),
        AST::IN(s("y")),
        AST::OUT(s("p")),
        AST::OUT(s("q")),
        AST::RAIL(s("r")),
        AST::RAIL(s("t")),
        AST::CHIP(s("and"), s("g")),
        AST::CHIP(s("not"), s("h")),
    ]
}

fn with_connection(a: &str, b: &str) -> Vec<AST> {
    let mut stmts = preamble();
    stmts.push(AST::CONNECT(s(a), s(b)));
    stmts
}

#[test]
fn pins_are_listed_in_declaration_order() {
    let mut program = Program::new();
    let stmts = vec![
        AST::IN(s("b")),
        AST::OUT(s("y")),
        AST::IN(s("a")),
        AST::RAIL(s("r")),
        AST::OUT(s("x")),
    ];
    let chip = Chip::parse(s("main"), stmts, &mut program).unwrap();
    assert_eq!(chip.ins, vec![s("b"), s("a")]);
    assert_eq!(chip.outs, vec![s("y"), s("x")]);
    assert_eq!(chip.name, "main");
    assert_eq!(
        chip.ast,
        vec![
            AST::IN(s("b")),
            AST::OUT(s("y")),
            AST::IN(s("a")),
            AST::RAIL(s("r")),
            AST::OUT(s("x")),
        ]
    );
}

#[test]
fn a_new_chip_is_empty() {
    let chip = Chip::new(s("main"));
    assert_eq!(chip.name, "main");
    assert!(chip.ast.is_empty());
    assert!(chip.ins.is_empty());
    assert!(chip.outs.is_empty());
}

#[test]
fn no_statements_resolve_to_an_empty_chip() {
    let mut program = Program::new();
    let chip = Chip::parse(s("main"), Vec::new(), &mut program).unwrap();
    assert_eq!(chip, Chip::new(s("main")));
}

#[test]
fn the_preamble_resolves() {
    let mut program = Program::new();
    let chip = Chip::parse(s("main"), preamble(), &mut program).unwrap();
    assert_eq!(chip.ins, vec![s("x"), s("y")]);
    assert_eq!(chip.outs, vec![s("p"), s("q")]);
}

#[test]
fn lex_puts_statements_behind_those_that_are_there() {
    let mut program = Program::new();
    let mut chip = Chip::new(s("main"));
    assert_eq!(chip.lex(vec![AST::IN(s("a")), AST::OUT(s("x"))], &mut program), Ok(()));
    assert_eq!(chip.lex(vec![AST::IN(s("b"))], &mut program), Ok(()));
    assert_eq!(chip.ins, vec![s("a"), s("b")]);
    assert_eq!(chip.outs, vec![s("x")]);
    assert_eq!(chip.ast, vec![AST::IN(s("a")), AST::OUT(s("x")), AST::IN(s("b"))]);
}

#[test]
fn a_refused_list_leaves_the_chip_as_it_was() {
    let mut program = Program::new();
    let mut chip = Chip::new(s("main"));
    assert_eq!(chip.lex(vec![AST::IN(s("a"))], &mut program), Ok(()));
    assert_eq!(
        chip.lex(vec![AST::OUT(s("x")), AST::IN(s("b")), AST::RAIL(s("x"))], &mut program),
        Err(Diagnostic { error: SemanticError::DuplicateName, statement: 2 })
    );
    assert_eq!(chip.ins, vec![s("a")]);
    assert!(chip.outs.is_empty());
    assert_eq!(chip.ast, vec![AST::IN(s("a"))]);
}

#[test]
fn a_name_declared_twice_is_refused() {
    fails(vec![AST::IN(s("a")), AST::IN(s("a"))], SemanticError::DuplicateName, 1);
    fails(vec![AST::IN(s("a")), AST::OUT(s("a"))], SemanticError::DuplicateName, 1);
    fails(vec![AST::OUT(s("a")), AST::RAIL(s("a"))], SemanticError::DuplicateName, 1);
    fails(vec![AST::RAIL(s("a")), AST::RAIL(s("a"))], SemanticError::DuplicateName, 1);
    fails(vec![AST::RAIL(s("a")), AST::IN(s("b")), AST::IN(s("a"))], SemanticError::DuplicateName, 2);
}

#[test]
fn an_alias_shares_the_namespace() {
    fails(
        vec![AST::IN(s("a")), AST::USE(s("STD.NOT"), s("a"))],
        SemanticError::DuplicateName,
        1,
    );
    fails(
        vec![AST::USE(s("STD.NOT"), s("a")), AST::USE(s("STD.AND"), s("a"))],
        SemanticError::DuplicateName,
        1,
    );
    fails(
        vec![AST::USE(s("STD.NOT"), s("a")), AST::OUT(s("a"))],
        SemanticError::DuplicateName,
        1,
    );
}

#[test]
fn a_taken_alias_is_reported_before_an_unknown_path() {
    fails(
        vec![AST::IN(s("a")), AST::USE(s("nowhere"), s("a"))],
        SemanticError::DuplicateName,
        1,
    );
}

#[test]
fn an_instance_name_shares_the_namespace() {
    fails(
        vec![AST::USE(s("STD.NOT"), s("not")), AST::IN(s("g")), AST::CHIP(s("not"), s("g"))],
        SemanticError::DuplicateName,
        2,
    );
    fails(
        vec![AST::USE(s("STD.NOT"), s("not")), AST::CHIP(s("not"), s("not"))],
        SemanticError::DuplicateName,
        1,
    );
    fails(
        vec![
            AST::USE(s("STD.NOT"), s("not")),
            AST::CHIP(s("not"), s("g")),
            AST::CHIP(s("not"), s("g")),
        ],
        SemanticError::DuplicateName,
        2,
    );
    fails(
        vec![AST::USE(s("STD.NOT"), s("not")), AST::CHIP(s("not"), s("g")), AST::RAIL(s("g"))],
        SemanticError::DuplicateName,
        2,
    );
}

#[test]
fn a_taken_instance_name_is_reported_before_an_alias_that_is_none() {
    fails(vec![AST::IN(s("a")), AST::IN(s("b")), AST::CHIP(s("a"), s("b"))], SemanticError::DuplicateName, 2);
    fails(vec![AST::RAIL(s("a")), AST::CHIP(s("a"), s("a"))], SemanticError::DuplicateName, 1);
    fails(
        vec![AST::USE(s("STD.NOT"), s("not")), AST::CHIP(s("not"), s("n")), AST::CHIP(s("n"), s("not"))],
        SemanticError::DuplicateName,
        2,
    );
    fails(vec![AST::IN(s("a")), AST::CHIP(s("a"), s("g"))], SemanticError::UnresolvedName, 1);
}

#[test]
fn a_second_connection_into_an_instance_input_conflicts() {
    let mut stmts = with_connection("x", "g.in0");
    stmts.push(AST::CONNECT(s("g.in0"), s("y")));
    fails(stmts, SemanticError::DirectionConflict, 11);
    let mut stmts = with_connection("h.i", "r");
    stmts.push(AST::CONNECT(s("x"), s("h.i")));
    fails(stmts, SemanticError::DirectionConflict, 11);
    let mut stmts = with_connection("x", "g.in0");
    stmts.push(AST::CONNECT(s("g.in0"), s("x")));
    fails(stmts, SemanticError::DirectionConflict, 11);
}

#[test]
fn rails_and_outputs_take_several_connections() {
    let mut program = Program::new();
    let mut stmts = preamble();
    stmts.push(AST::CONNECT(s("r"), s("x")));
    stmts.push(AST::CONNECT(s("r"), s("y")));
    stmts.push(AST::CONNECT(s("r"), s("x")));
    stmts.push(AST::CONNECT(s("p"), s("x")));
    stmts.push(AST::CONNECT(s("p"), s("r")));
    stmts.push(AST::CONNECT(s("x"), s("g.in0")));
    stmts.push(AST::CONNECT(s("x"), s("g.in1")));
    stmts.push(AST::CONNECT(s("x"), s("h.i")));
    assert!(Chip::parse(s("main"), stmts, &mut program).is_ok());
}

#[test]
fn an_unknown_path_cannot_be_imported() {
    fails(vec![AST::USE(s("LIB.ADDER"), s("adder"))], SemanticError::NotImplemented, 0);
    fails(vec![AST::USE(s("std.not"), s("not"))], SemanticError::NotImplemented, 0);
}

#[test]
fn an_instance_needs_an_alias() {
    fails(vec![AST::CHIP(s("not"), s("g"))], SemanticError::UnresolvedName, 0);
    fails(vec![AST::IN(s("not")), AST::CHIP(s("not"), s("g"))], SemanticError::UnresolvedName, 1);
    fails(
        vec![AST::CHIP(s("not"), s("g")), AST::USE(s("STD.NOT"), s("not"))],
        SemanticError::UnresolvedName,
        0,
    );
}

#[test]
fn an_unknown_alias_is_reported_before_a_taken_name() {
    fails(vec![AST::IN(s("g")), AST::CHIP(s("not"), s("g"))], SemanticError::UnresolvedName, 1);
}

#[test]
fn a_connection_needs_declared_ends() {
    fails(with_connection("x", "z"), SemanticError::UnresolvedName, 10);
    fails(with_connection("z", "x"), SemanticError::UnresolvedName, 10);
    fails(with_connection("z", "w"), SemanticError::UnresolvedName, 10);
    fails(with_connection("r", "z"), SemanticError::UnresolvedName, 10);
    fails(with_connection("X", "p"), SemanticError::UnresolvedName, 10);
    fails(vec![AST::CONNECT(s("a"), s("b")), AST::IN(s("a")), AST::OUT(s("b"))], SemanticError::UnresolvedName, 0);
}

#[test]
fn a_connection_needs_pins_that_the_instance_has() {
    fails(with_connection("x", "g.in2"), SemanticError::UnresolvedName, 10);
    fails(with_connection("g.o", "p"), SemanticError::UnresolvedName, 10);
    fails(with_connection("k.in0", "x"), SemanticError::UnresolvedName, 10);
    fails(with_connection("x.in0", "p"), SemanticError::UnresolvedName, 10);
    fails(with_connection("g.in0.x", "x"), SemanticError::UnresolvedName, 10);
}

#[test]
fn an_alias_or_an_instance_is_no_pin() {
    fails(with_connection("and", "p"), SemanticError::UnresolvedName, 10);
    fails(with_connection("x", "g"), SemanticError::UnresolvedName, 10);
    fails(with_connection("r", "not"), SemanticError::UnresolvedName, 10);
}

#[test]
fn two_sources_conflict() {
    fails(with_connection("x", "y"), SemanticError::DirectionConflict, 10);
    fails(with_connection("x", "x"), SemanticError::DirectionConflict, 10);
    fails(with_connection("g.out", "h.o"), SemanticError::DirectionConflict, 10);
    fails(with_connection("g.out", "x"), SemanticError::DirectionConflict, 10);
    fails(with_connection("y", "h.o"), SemanticError::DirectionConflict, 10);
}

#[test]
fn two_sinks_conflict() {
    fails(with_connection("p", "q"), SemanticError::DirectionConflict, 10);
    fails(with_connection("p", "p"), SemanticError::DirectionConflict, 10);
    fails(with_connection("g.in0", "h.i"), SemanticError::DirectionConflict, 10);
    fails(with_connection("g.in0", "g.in1"), SemanticError::DirectionConflict, 10);
    fails(with_connection("p", "h.i"), SemanticError::DirectionConflict, 10);
    fails(with_connection("g.in1", "q"), SemanticError::DirectionConflict, 10);
}

#[test]
fn two_rails_conflict() {
    fails(with_connection("r", "t"), SemanticError::RailToRailConflict, 10);
    fails(with_connection("t", "r"), SemanticError::RailToRailConflict, 10);
    fails(with_connection("r", "r"), SemanticError::RailToRailConflict, 10);
}

#[test]
fn the_first_violation_is_reported() {
    let mut stmts = preamble();
    stmts.push(AST::CONNECT(s("x"), s("p")));
    stmts.push(AST::CONNECT(s("r"), s("t")));
    stmts.push(AST::IN(s("x")));
    fails(stmts, SemanticError::RailToRailConflict, 11);
}

#[test]
fn connections_run_from_sink_to_source() {
    let mut program = Program::new();
    let mut stmts = preamble();
    stmts.push(AST::CONNECT(s("x"), s("g.in0")));
    stmts.push(AST::CONNECT(s("g.in1"), s("y")));
    stmts.push(AST::CONNECT(s("g.out"), s("r")));
    stmts.push(AST::CONNECT(s("r"), s("h.o")));
    stmts.push(AST::CONNECT(s("r"), s("p")));
    stmts.push(AST::CONNECT(s("q"), s("r")));
    stmts.push(AST::CONNECT(s("t"), s("x")));
    stmts.push(AST::CONNECT(s("h.i"), s("t")));
    stmts.push(AST::CONNECT(s("p"), s("x")));
    let graph = analyze(&stmts, &mut program).unwrap();
    assert_eq!(
        graph.edges,
        vec![
            Edge { sink: dotted("g", "in0"), source: bare("x") },
            Edge { sink: dotted("g", "in1"), source: bare("y") },
            Edge { sink: bare("r"), source: dotted("g", "out") },
            Edge { sink: bare("r"), source: dotted("h", "o") },
            Edge { sink: bare("p"), source: bare("r") },
            Edge { sink: bare("q"), source: bare("r") },
            Edge { sink: bare("t"), source: bare("x") },
            Edge { sink: dotted("h", "i"), source: bare("t") },
            Edge { sink: bare("p"), source: bare("x") },
        ]
    );
}

#[test]
fn analysis_reports_the_position_of_the_violation() {
    let mut program = Program::new();
    let stmts = vec![AST::IN(s("a")), AST::OUT(s("b")), AST::CONNECT(s("a"), s("c"))];
    let r = analyze(&stmts, &mut program);
    assert_eq!(
        r.err(),
        Some(Diagnostic { error: SemanticError::UnresolvedName, statement: 2 })
    );
}

#[test]
fn the_namespace_knows_every_declared_name() {
    let mut program = Program::new();
    let graph = analyze(&preamble(), &mut program).unwrap();
    assert!(matches!(graph.scope.lookup(&s("x")), Some(Kind::Input)));
    assert!(matches!(graph.scope.lookup(&s("p")), Some(Kind::Output)));
    assert!(matches!(graph.scope.lookup(&s("r")), Some(Kind::Rail)));
    assert!(matches!(graph.scope.lookup(&s("and")), Some(Kind::Alias(path)) if path == "STD.AND"));
    match graph.scope.lookup(&s("g")) {
        Some(Kind::Instance { definition, inputs, outputs }) => {
            assert_eq!(definition, "STD.AND");
            assert_eq!(inputs, &vec![s("in0"), s("in1")]);
            assert_eq!(outputs, &vec![s("out")]);
        }
        _ => panic!("g is an instance"),
    }
    assert!(graph.scope.lookup(&s("z")).is_none());
    assert!(graph.scope.lookup(&s("g.in0")).is_none());
}

#[test]
fn roles_follow_the_direction_of_the_value() {
    let mut program = Program::new();
    let graph = analyze(&preamble(), &mut program).unwrap();
    assert_eq!(graph.scope.role_of(&bare("x")), Some(Role::Source));
    assert_eq!(graph.scope.role_of(&bare("p")), Some(Role::Sink));
    assert_eq!(graph.scope.role_of(&bare("r")), Some(Role::Rail));
    assert_eq!(graph.scope.role_of(&dotted("g", "in1")), Some(Role::Sink));
    assert_eq!(graph.scope.role_of(&dotted("g", "out")), Some(Role::Source));
    assert_eq!(graph.scope.role_of(&dotted("g", "o")), None);
    assert_eq!(graph.scope.role_of(&bare("g")), None);
    assert_eq!(graph.scope.role_of(&bare("and")), None);
    assert_eq!(graph.scope.role_of(&dotted("x", "in0")), None);
    assert_eq!(graph.scope.role_of(&bare("nothing")), None);
}

#[test]
fn a_scope_refuses_a_second_declaration() {
    let mut scope = Scope::new();
    assert_eq!(scope.declare(s("a"), Kind::Input), Ok(()));
    assert_eq!(scope.declare(s("b"), Kind::Rail), Ok(()));
    assert_eq!(scope.declare(s("a"), Kind::Output), Err(SemanticError::DuplicateName));
    assert!(matches!(scope.lookup(&s("a")), Some(Kind::Input)));
    assert_eq!(scope.bindings.len(), 2);
}

#[test]
fn a_graph_takes_one_statement_at_a_time() {
    let mut program = Program::new();
    let mut graph = ConnectionGraph::new();
    assert_eq!(graph.apply(&AST::IN(s("a")), &mut program), Ok(()));
    assert_eq!(graph.apply(&AST::OUT(s("b")), &mut program), Ok(()));
    assert_eq!(graph.apply(&AST::CUSTOM(s("ANYTHING")), &mut program), Ok(()));
    assert_eq!(
        graph.apply(&AST::CONNECT(s("b"), s("b")), &mut program),
        Err(SemanticError::DirectionConflict)
    );
    assert!(graph.edges.is_empty());
    assert_eq!(graph.apply(&AST::CONNECT(s("b"), s("a")), &mut program), Ok(()));
    assert_eq!(graph.edges, vec![Edge { sink: bare("b"), source: bare("a") }]);
    assert_eq!(graph.connect(bare("a"), bare("b")), Ok(()));
    assert_eq!(graph.connect(bare("a"), bare("c")), Err(SemanticError::UnresolvedName));
    assert_eq!(graph.edges.len(), 2);
}

#[test]
fn statements_know_their_kind() {
    assert_eq!(AST::USE(s("p"), s("a")).as_kind(), StatementKind::USE);
    assert_eq!(AST::IN(s("a")).as_kind(), StatementKind::IN);
    assert_eq!(AST::OUT(s("a")).as_kind(), StatementKind::OUT);
    assert_eq!(AST::RAIL(s("a")).as_kind(), StatementKind::RAIL);
    assert_eq!(AST::CHIP(s("a"), s("b")).as_kind(), StatementKind::CHIP);
    assert_eq!(AST::CONNECT(s("a"), s("b")).as_kind(), StatementKind::CONNECT);
    assert_eq!(AST::CUSTOM(s("NOT")).as_kind(), StatementKind::CUSTOM);
}

#[test]
fn a_copy_of_a_statement_is_equal_to_it() {
    let stmt = AST::CONNECT(s("a"), s("g.in0"));
    assert_eq!(stmt.clone(), stmt);
    let chip = Chip {
        ast: vec![AST::IN(s("a")), AST::OUT(s("b"))],
        ins: vec![s("a")],
        outs: vec![s("b")],
        name: s("main"),
    };
    assert_eq!(chip.clone(), chip);
}
