use chip_compiler::ast::AST;
use chip_compiler::backend::js::{gen_class, gen_run_code, get_custom_code, val};
use chip_compiler::backend::{Backend, JsBackend};
use chip_compiler::error::SemanticError;
use chip_compiler::expr::{synthesize, synthesize_outputs, Expression};
use chip_compiler::lexer::{Chip, Program};
use chip_compiler::resolve::{analyze, ConnectionGraph, Edge};
use chip_compiler::scope::PinRef;
use chip_compiler::tree::{build_tree, grow, ConnectionTree};

fn s(text: &str) -> String {
    text.to_string()
}

fn pin(text: &str) -> PinRef {
    PinRef::parse(&s(text))
}

fn leaf(text: &str) -> ConnectionTree {
    ConnectionTree::Regular(pin(text), Vec::new())
}

fn graph(stmts: &Vec<AST>) -> ConnectionGraph {
    let mut program = Program::new();
    analyze(stmts, &mut program).unwrap()
}

fn expression(stmts: &Vec<AST>, of: &str) -> Result<String, SemanticError> {
    let graph = graph(stmts);
    let tree = build_tree(pin(of), &graph)?;
    Ok(val(&synthesize(&tree, &graph)?))
}

fn run_code(stmts: Vec<AST>) -> Result<String, SemanticError> {
    let mut program = Program::new();
    let chip = Chip::parse(s("main"), stmts, &mut program).unwrap();
    gen_run_code(&chip, &mut program)
}

/// A rail `r` fed by the inputs `a` and `b`, in that order, and feeding `out`.
fn rail_of_two() -> Vec<AST> {
    vec![
        AST::IN(s("a")),
        AST::IN(s("b")),
        AST::OUT(s("out")),
        AST::RAIL(s("r")),
        AST::CONNECT(s("r"), s("a")),
        AST::CONNECT(s("b"), s("r")),
        AST::CONNECT(s("out"), s("r")),
    ]
}

/// An AND instance `g` between the inputs `x`, `y` and the output `out`.
fn one_gate() -> Vec<AST> {
    vec![
        AST::USE(s("STD.AND"), s("and")),
        AST::IN(s("x")),
        AST::IN(s("y")),
        AST::OUT(s("out")),
        AST::CHIP(s("and"), s("g")),
        AST::CONNECT(s("x"), s("g.in0")),
        AST::CONNECT(s("g.in1"), s("y")),
        AST::CONNECT(s("g.out"), s("out")),
    ]
}

/// A NOT instance whose output runs back into its input through a rail.
fn feedback() -> Vec<AST> {
    vec![
        AST::USE(s("STD.NOT"), s("not")),
        AST::IN(s("a")),
        AST::OUT(s("out")),
        AST::RAIL(s("r")),
        AST::CHIP(s("not"), s("n")),
        AST::CONNECT(s("r"), s("a")),
        AST::CONNECT(s("r"), s("n.o")),
        AST::CONNECT(s("n.i"), s("r")),
        AST::CONNECT(s("out"), s("n.o")),
    ]
}

#[test]
fn a_rail_is_the_or_of_its_sources() {
    assert_eq!(expression(&rail_of_two(), "r"), Ok(s("a||b")));
}

#[test]
fn the_sources_of_a_rail_keep_the_order_of_the_connections() {
    let stmts = vec![
        AST::IN(s("a")),
        AST::IN(s("b")),
        AST::IN(s("c")),
        AST::RAIL(s("r")),
        AST::CONNECT(s("c"), s("r")),
        AST::CONNECT(s("r"), s("a")),
        AST::CONNECT(s("b"), s("r")),
    ];
    let graph = graph(&stmts);
    assert_eq!(graph.sources(&pin("r")), vec![pin("c"), pin("a"), pin("b")]);
    assert_eq!(
        build_tree(pin("r"), &graph),
        Ok(ConnectionTree::Regular(pin("r"), vec![leaf("c"), leaf("a"), leaf("b")]))
    );
    assert_eq!(expression(&stmts, "r"), Ok(s("c||a||b")));
}

#[test]
fn a_rail_inside_an_expression_goes_in_parentheses() {
    assert_eq!(expression(&rail_of_two(), "out"), Ok(s("(a||b)")));
    assert_eq!(
        run_code(rail_of_two()),
        Ok(s("run(a,b){\nlet out = false;\nlet r = false;\nout = (a||b);\nreturn [out];\n}"))
    );
}

#[test]
fn an_input_stands_for_itself() {
    let graph = graph(&rail_of_two());
    assert_eq!(build_tree(pin("a"), &graph), Ok(leaf("a")));
    assert_eq!(synthesize(&leaf("a"), &graph), Ok(Expression::Pin(pin("a"))));
    assert_eq!(expression(&rail_of_two(), "a"), Ok(s("a")));
}

#[test]
fn an_output_that_nothing_feeds_stands_for_itself() {
    let stmts = vec![AST::IN(s("a")), AST::OUT(s("x"))];
    assert_eq!(expression(&stmts, "x"), Ok(s("x")));
    assert_eq!(run_code(stmts), Ok(s("run(a){\nlet x = false;\nx = x;\nreturn [x];\n}")));
}

#[test]
fn an_output_fed_twice_is_the_or_of_both() {
    let stmts = vec![
        AST::IN(s("a")),
        AST::IN(s("b")),
        AST::OUT(s("x")),
        AST::CONNECT(s("x"), s("b")),
        AST::CONNECT(s("a"), s("x")),
    ];
    assert_eq!(expression(&stmts, "x"), Ok(s("b||a")));
}

#[test]
fn an_instance_output_is_a_call_with_the_inputs_in_declared_order() {
    assert_eq!(expression(&one_gate(), "out"), Ok(s("g.run(x,y)[0]")));
    assert_eq!(expression(&one_gate(), "g.out"), Ok(s("g.run(x,y)[0]")));
}

#[test]
fn the_order_of_the_arguments_is_that_of_the_inputs_not_of_the_connections() {
    let stmts = vec![
        AST::USE(s("STD.AND"), s("and")),
        AST::IN(s("x")),
        AST::IN(s("y")),
        AST::OUT(s("out")),
        AST::CHIP(s("and"), s("g")),
        AST::CONNECT(s("g.out"), s("out")),
        AST::CONNECT(s("y"), s("g.in1")),
        AST::CONNECT(s("x"), s("g.in0")),
    ];
    assert_eq!(expression(&stmts, "out"), Ok(s("g.run(x,y)[0]")));
}

#[test]
fn the_tree_of_an_instance_output_has_one_child_for_each_input() {
    let graph = graph(&one_gate());
    let call = ConnectionTree::Chip(pin("g.out"), vec![leaf("x"), leaf("y")]);
    assert_eq!(build_tree(pin("g.out"), &graph), Ok(call));
    let call = ConnectionTree::Chip(pin("g.out"), vec![leaf("x"), leaf("y")]);
    assert_eq!(
        build_tree(pin("out"), &graph),
        Ok(ConnectionTree::Regular(pin("out"), vec![call]))
    );
}

#[test]
fn a_call_selects_its_output_by_position() {
    let mut program = Program::new();
    let split = Chip::parse(
        s("LIB.SPLIT"),
        vec![
            AST::IN(s("d")),
            AST::OUT(s("first")),
            AST::OUT(s("second")),
            AST::OUT(s("third")),
            AST::CONNECT(s("d"), s("first")),
            AST::CONNECT(s("d"), s("second")),
            AST::CONNECT(s("d"), s("third")),
        ],
        &mut program,
    )
    .unwrap();
    assert_eq!(program.insert(split), Ok(()));
    let stmts = vec![
        AST::USE(s("LIB.SPLIT"), s("split")),
        AST::IN(s("a")),
        AST::OUT(s("x")),
        AST::OUT(s("y")),
        AST::CHIP(s("split"), s("k")),
        AST::CONNECT(s("a"), s("k.d")),
        AST::CONNECT(s("k.third"), s("x")),
        AST::CONNECT(s("k.second"), s("y")),
    ];
    let chip = Chip::parse(s("main"), stmts, &mut program).unwrap();
    assert_eq!(
        gen_run_code(&chip, &mut program),
        Ok(s("run(a){\nlet x = false;\nlet y = false;\nlet k = new LIB_SPLIT();\nx = k.run(a)[2];\ny = k.run(a)[1];\nreturn [x,y];\n}"))
    );
}

#[test]
fn a_rail_as_argument_goes_in_parentheses() {
    let stmts = vec![
        AST::USE(s("STD.NOT"), s("not")),
        AST::IN(s("a")),
        AST::IN(s("b")),
        AST::OUT(s("out")),
        AST::RAIL(s("r")),
        AST::CHIP(s("not"), s("n")),
        AST::CONNECT(s("r"), s("a")),
        AST::CONNECT(s("r"), s("b")),
        AST::CONNECT(s("n.i"), s("r")),
        AST::CONNECT(s("out"), s("n.o")),
    ];
    assert_eq!(expression(&stmts, "out"), Ok(s("n.run((a||b))[0]")));
}

#[test]
fn an_instance_input_takes_one_connection_and_no_more() {
    let stmts = vec![
        AST::USE(s("STD.NOT"), s("not")),
        AST::IN(s("a")),
        AST::IN(s("b")),
        AST::OUT(s("out")),
        AST::CHIP(s("not"), s("n")),
        AST::CONNECT(s("n.i"), s("a")),
        AST::CONNECT(s("out"), s("n.o")),
    ];
    let mut graph = graph(&stmts);
    assert_eq!(graph.drivers(&s("n"), &vec![s("i")]), Ok(vec![pin("a")]));
    assert_eq!(expression(&stmts, "out"), Ok(s("n.run(a)[0]")));
    assert_eq!(graph.connect(pin("b"), pin("n.i")), Err(SemanticError::DirectionConflict));
    assert_eq!(graph.connect(pin("n.i"), pin("a")), Err(SemanticError::DirectionConflict));
    assert_eq!(graph.edges.len(), 2);
    assert_eq!(graph.connect(pin("out"), pin("b")), Ok(()));
    assert_eq!(graph.edges.len(), 3);
}

#[test]
fn a_graph_with_two_connections_into_an_instance_input_bears_no_tree() {
    let stmts = vec![
        AST::USE(s("STD.AND"), s("and")),
        AST::IN(s("a")),
        AST::IN(s("b")),
        AST::OUT(s("out")),
        AST::CHIP(s("and"), s("g")),
        AST::CONNECT(s("g.in0"), s("a")),
        AST::CONNECT(s("out"), s("g.out")),
    ];
    let mut graph = graph(&stmts);
    graph.edges.push(Edge { sink: pin("g.in0"), source: pin("b") });
    assert_eq!(
        graph.drivers(&s("g"), &vec![s("in0"), s("in1")]),
        Err(SemanticError::DirectionConflict)
    );
    assert_eq!(
        graph.drivers(&s("g"), &vec![s("in1"), s("in0")]),
        Err(SemanticError::UnconnectedInput)
    );
    assert_eq!(build_tree(pin("out"), &graph), Err(SemanticError::DirectionConflict));
}

#[test]
fn an_instance_input_that_nothing_drives_is_a_fault() {
    let stmts = vec![
        AST::USE(s("STD.AND"), s("and")),
        AST::IN(s("x")),
        AST::OUT(s("out")),
        AST::CHIP(s("and"), s("g")),
        AST::CONNECT(s("x"), s("g.in0")),
        AST::CONNECT(s("g.out"), s("out")),
    ];
    assert_eq!(expression(&stmts, "out"), Err(SemanticError::UnconnectedInput));
    assert_eq!(run_code(stmts), Err(SemanticError::UnconnectedInput));
}

#[test]
fn an_unused_instance_needs_no_connections() {
    let stmts = vec![
        AST::USE(s("STD.AND"), s("and")),
        AST::IN(s("x")),
        AST::OUT(s("out")),
        AST::CHIP(s("and"), s("g")),
        AST::CONNECT(s("x"), s("out")),
    ];
    assert_eq!(
        run_code(stmts),
        Ok(s("run(x){\nlet out = false;\nlet g = new STD_AND();\nout = x;\nreturn [out];\n}"))
    );
}

#[test]
fn a_pin_that_feeds_itself_is_a_cycle() {
    assert_eq!(expression(&feedback(), "out"), Err(SemanticError::CyclicDependency));
    assert_eq!(expression(&feedback(), "r"), Err(SemanticError::CyclicDependency));
    assert_eq!(expression(&feedback(), "a"), Ok(s("a")));
    assert_eq!(run_code(feedback()), Err(SemanticError::CyclicDependency));
}

#[test]
fn a_chain_as_long_as_the_graph_is_no_cycle() {
    let stmts = vec![
        AST::USE(s("STD.NOT"), s("not")),
        AST::IN(s("a")),
        AST::OUT(s("out")),
        AST::CHIP(s("not"), s("n0")),
        AST::CHIP(s("not"), s("n1")),
        AST::CHIP(s("not"), s("n2")),
        AST::CONNECT(s("a"), s("n0.i")),
        AST::CONNECT(s("n0.o"), s("n1.i")),
        AST::CONNECT(s("n1.o"), s("n2.i")),
        AST::CONNECT(s("n2.o"), s("out")),
    ];
    assert_eq!(
        expression(&stmts, "out"),
        Ok(s("n2.run(n1.run(n0.run(a)[0])[0])[0]"))
    );
}

#[test]
fn fuel_bounds_the_depth_of_a_tree() {
    let graph = graph(&one_gate());
    assert_eq!(grow(pin("x"), &graph, 0), Ok(leaf("x")));
    assert_eq!(grow(pin("g.out"), &graph, 0), Err(SemanticError::CyclicDependency));
    assert!(grow(pin("g.out"), &graph, 1).is_ok());
    assert_eq!(grow(pin("out"), &graph, 1), Err(SemanticError::CyclicDependency));
    assert!(grow(pin("out"), &graph, 2).is_ok());
}

#[test]
fn more_fuel_than_connections_changes_nothing() {
    let graph = graph(&one_gate());
    assert_eq!(graph.edges.len(), 3);
    assert_eq!(grow(pin("out"), &graph, 3), grow(pin("out"), &graph, 4));
    assert_eq!(grow(pin("out"), &graph, 3), grow(pin("out"), &graph, 1000));
    let graph = self::graph(&feedback());
    assert_eq!(graph.edges.len(), 4);
    assert_eq!(grow(pin("out"), &graph, 4), Err(SemanticError::CyclicDependency));
    assert_eq!(grow(pin("out"), &graph, 5), Err(SemanticError::CyclicDependency));
    assert_eq!(grow(pin("out"), &graph, 500), Err(SemanticError::CyclicDependency));
}

#[test]
fn a_tree_that_the_graph_does_not_bear_is_refused() {
    let graph = graph(&one_gate());
    let short = ConnectionTree::Chip(pin("g.out"), vec![leaf("x")]);
    assert_eq!(synthesize(&short, &graph), Err(SemanticError::UnconnectedInput));
    let unknown = ConnectionTree::Chip(pin("k.out"), vec![leaf("x"), leaf("y")]);
    assert_eq!(synthesize(&unknown, &graph), Err(SemanticError::UnresolvedName));
    let input = ConnectionTree::Chip(pin("g.in0"), vec![leaf("x"), leaf("y")]);
    assert_eq!(synthesize(&input, &graph), Err(SemanticError::UnresolvedName));
    let bare = ConnectionTree::Chip(pin("out"), Vec::new());
    assert_eq!(synthesize(&bare, &graph), Err(SemanticError::UnresolvedName));
    let inside = ConnectionTree::Regular(pin("out"), vec![leaf("x"), short_tree()]);
    assert_eq!(synthesize(&inside, &graph), Err(SemanticError::UnconnectedInput));
}

fn short_tree() -> ConnectionTree {
    ConnectionTree::Chip(pin("g.out"), vec![leaf("x")])
}

#[test]
fn expressions_are_rendered_as_javascript() {
    let a = || Expression::Pin(pin("a"));
    let b = || Expression::Pin(pin("b"));
    assert_eq!(val(&a()), "a");
    assert_eq!(val(&Expression::Pin(pin("g.out"))), "g.out");
    assert_eq!(val(&Expression::Or(vec![a()])), "a");
    assert_eq!(val(&Expression::Or(vec![a(), b()])), "a||b");
    assert_eq!(val(&Expression::Or(Vec::new())), "");
    assert_eq!(val(&Expression::Or(vec![Expression::Or(vec![a()])])), "(a)");
    assert_eq!(val(&Expression::Or(vec![a(), Expression::Or(vec![a(), b()])])), "a||(a||b)");
    assert_eq!(
        val(&Expression::Call { instance: s("g"), args: vec![a(), b()], output: 0 }),
        "g.run(a,b)[0]"
    );
    assert_eq!(
        val(&Expression::Call { instance: s("g"), args: Vec::new(), output: 12 }),
        "g.run()[12]"
    );
    assert_eq!(
        val(&Expression::Call {
            instance: s("g"),
            args: vec![Expression::Or(vec![a(), b()])],
            output: 3
        }),
        "g.run((a||b))[3]"
    );
}

#[test]
fn the_backend_knows_two_built_in_operations() {
    assert_eq!(get_custom_code(&s("AND")), Ok("out = in0 && in1;\n"));
    assert_eq!(get_custom_code(&s("NOT")), Ok("o = !i;\n"));
    assert_eq!(get_custom_code(&s("OR")), Err(SemanticError::UnknownPrimitive));
    assert_eq!(get_custom_code(&s("not")), Err(SemanticError::UnknownPrimitive));
    assert_eq!(get_custom_code(&s("")), Err(SemanticError::UnknownPrimitive));
}

#[test]
fn a_built_in_operation_gets_its_body_from_the_backend() {
    let mut program = Program::new();
    let not = program.get_chip(&s("STD.NOT")).unwrap().clone();
    assert_eq!(
        gen_run_code(&not, &mut program),
        Ok(s("run(i){\nlet o = false;\no = !i;\nreturn [o];\n}"))
    );
    let and = program.get_chip(&s("STD.AND")).unwrap().clone();
    assert_eq!(
        gen_run_code(&and, &mut program),
        Ok(s("run(in0,in1){\nlet out = false;\nout = in0 && in1;\nreturn [out];\n}"))
    );
}

#[test]
fn an_unknown_built_in_operation_is_refused() {
    let stmts = vec![AST::IN(s("a")), AST::OUT(s("x")), AST::CUSTOM(s("NOR"))];
    assert_eq!(run_code(stmts), Err(SemanticError::UnknownPrimitive));
}

#[test]
fn nand_is_a_not_of_an_and() {
    let mut program = Program::new();
    let nand = program.get_chip(&s("STD.NAND")).unwrap().clone();
    assert_eq!(
        gen_run_code(&nand, &mut program),
        Ok(s("run(in0,in1){\nlet out = false;\nlet a = new STD_AND();\nlet n = new STD_NOT();\nout = n.run(a.run(in0,in1)[0])[0];\nreturn [out];\n}"))
    );
}

#[test]
fn xor_is_one_input_and_not_the_other() {
    let mut program = Program::new();
    let xor = program.get_chip(&s("STD.XOR")).unwrap().clone();
    assert_eq!(
        gen_run_code(&xor, &mut program),
        Ok(s("run(in0,in1){\nlet out = false;\nlet n0 = new STD_NOT();\nlet n1 = new STD_NOT();\nlet a0 = new STD_AND();\nlet a1 = new STD_AND();\nout = a0.run(in0,n1.run(in1)[0])[0]||a1.run(n0.run(in0)[0],in1)[0];\nreturn [out];\n}"))
    );
}

#[test]
fn a_chip_that_does_not_resolve_is_not_rendered() {
    let mut program = Program::new();
    let chip = Chip {
        ast: vec![AST::IN(s("a")), AST::OUT(s("a"))],
        ins: vec![s("a")],
        outs: vec![s("a")],
        name: s("main"),
    };
    assert_eq!(gen_run_code(&chip, &mut program), Err(SemanticError::DuplicateName));
    assert_eq!(gen_class(&s("main"), &chip, &mut program), Err(SemanticError::DuplicateName));
    assert_eq!(JsBackend::compile(chip, program), Err(SemanticError::DuplicateName));
}

#[test]
fn a_class_wraps_the_run_method() {
    let mut program = Program::new();
    let chip = Chip::parse(s("main"), one_gate(), &mut program).unwrap();
    assert_eq!(
        gen_class(&s("Main"), &chip, &mut program),
        Ok(s("class Main {\nrun(x,y){\nlet out = false;\nlet g = new STD_AND();\nout = g.run(x,y)[0];\nreturn [out];\n}\n}"))
    );
}

#[test]
fn a_module_holds_the_chip_and_the_registry() {
    let mut program = Program::new_simple();
    let and = Chip::parse(
        s("STD.AND"),
        vec![AST::IN(s("in0")), AST::IN(s("in1")), AST::OUT(s("out")), AST::CUSTOM(s("AND"))],
        &mut program,
    )
    .unwrap();
    assert_eq!(program.insert(and), Ok(()));
    let chip = Chip::parse(s("main"), one_gate(), &mut program).unwrap();
    let expected = [
        "class main {",
        "run(x,y){",
        "let out = false;",
        "let g = new STD_AND();",
        "out = g.run(x,y)[0];",
        "return [out];",
        "}",
        "}",
        "class STD_NOT {",
        "run(i){",
        "let o = false;",
        "o = !i;",
        "return [o];",
        "}",
        "}",
        "class STD_AND {",
        "run(in0,in1){",
        "let out = false;",
        "out = in0 && in1;",
        "return [out];",
        "}",
        "}",
        "",
    ]
    .join("\n");
    assert_eq!(JsBackend::compile(chip, program), Ok(expected));
}

#[test]
fn compiling_twice_gives_the_same_text() {
    let mut program = Program::new();
    let chip = Chip::parse(s("main"), one_gate(), &mut program).unwrap();
    let first = JsBackend::compile(chip.clone(), Program::new());
    let second = JsBackend::compile(chip, Program::new());
    assert!(first.is_ok());
    assert_eq!(first, second);
    let text = first.unwrap();
    let not = text.find("class STD_NOT").unwrap();
    let and = text.find("class STD_AND").unwrap();
    let xor = text.find("class STD_XOR").unwrap();
    let nand = text.find("class STD_NAND").unwrap();
    assert!(text.starts_with("class main {\n"));
    assert!(not < and && and < xor && xor < nand);
}

#[test]
fn every_output_gets_its_expression_in_declaration_order() {
    let stmts = vec![
        AST::USE(s("STD.NOT"), s("not")),
        AST::IN(s("a")),
        AST::IN(s("b")),
        AST::OUT(s("first")),
        AST::OUT(s("second")),
        AST::OUT(s("third")),
        AST::CHIP(s("not"), s("n")),
        AST::CONNECT(s("third"), s("a")),
        AST::CONNECT(s("n.i"), s("b")),
        AST::CONNECT(s("n.o"), s("first")),
    ];
    let graph = graph(&stmts);
    let outputs = vec![s("first"), s("second"), s("third")];
    let values = synthesize_outputs(&outputs, &graph).unwrap();
    let texts: Vec<String> = values.iter().map(val).collect();
    assert_eq!(texts, vec![s("n.run(b)[0]"), s("second"), s("a")]);
    assert_eq!(synthesize_outputs(&Vec::new(), &graph), Ok(Vec::new()));
    assert_eq!(
        run_code(stmts),
        Ok(s("run(a,b){\nlet first = false;\nlet second = false;\nlet third = false;\nlet n = new STD_NOT();\nfirst = n.run(b)[0];\nsecond = second;\nthird = a;\nreturn [first,second,third];\n}"))
    );
}

#[test]
fn the_first_fault_among_the_outputs_is_reported() {
    let mut stmts = feedback();
    stmts.push(AST::USE(s("STD.AND"), s("and")));
    stmts.push(AST::CHIP(s("and"), s("g")));
    stmts.push(AST::OUT(s("late")));
    stmts.push(AST::CONNECT(s("g.out"), s("late")));
    let graph = graph(&stmts);
    assert_eq!(
        synthesize_outputs(&vec![s("out"), s("late")], &graph),
        Err(SemanticError::CyclicDependency)
    );
    assert_eq!(
        synthesize_outputs(&vec![s("late"), s("out")], &graph),
        Err(SemanticError::UnconnectedInput)
    );
}
