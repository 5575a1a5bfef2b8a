//! The JavaScript backend: every chip becomes a class whose `run` method
//! takes the chip's inputs and returns its outputs as an array.

use vstd::prelude::*;
use vstd::string::StringExecFns;
use super::Backend;
use crate::ast::{is_primitive, Name, Statement, AST};
use crate::error::SemanticError;
use crate::expr::{
    expression_at, expressions_model, lemma_expressions_model, output_expressions,
    synthesize_outputs, Expression, ExpressionView,
};
use crate::lexer::{Chip, ChipView, Program};
use crate::resolve::{
    analysis, analyze, lemma_analysis_ignores_order, same_definitions, GraphView,
};
use crate::scope::{reference_text, Kind, KindView, PinRefView, Scope};
use crate::text::{decimal, dots_replaced, join, joined, push_decimal, replace_dots};

verus! {

/// The backend that renders chips as JavaScript classes.
pub struct JsBackend;

/// Whether a result holds the given text, or the given fault.
pub open spec fn holds(r: Result<String, SemanticError>, code: Result<Seq<char>, SemanticError>) -> bool
{
    match r {
        Ok(text) => code == Ok::<Seq<char>, SemanticError>(text@),
        Err(e) => code == Err::<Seq<char>, SemanticError>(e),
    }
}

/// An expression as JavaScript.
///
/// A pin is its name, an OR is its operands with `||` between them, a call
/// is `instance.run(arguments)[position]`.
pub open spec fn rendered(e: ExpressionView) -> Seq<char>
    decreases e, 0nat,
{
    match e {
        ExpressionView::Pin { pin } => reference_text(pin),
        ExpressionView::Or { operands } => rendered_list(operands, "||"@),
        ExpressionView::Call { instance, args, output } => instance + ".run("@ + rendered_list(
            args,
            ","@,
        ) + ")["@ + decimal(output) + "]"@,
    }
}

/// An expression as part of a larger one: an OR goes in parentheses.
pub open spec fn rendered_operand(e: ExpressionView) -> Seq<char>
    decreases e, 1nat,
{
    if e is Or {
        "("@ + rendered(e) + ")"@
    } else {
        rendered(e)
    }
}

/// The operands, in order, with the separator between each two.
pub open spec fn rendered_list(es: Seq<ExpressionView>, sep: Seq<char>) -> Seq<char>
    decreases es, 0nat,
{
    if es.len() == 0 {
        Seq::empty()
    } else if es.len() == 1 {
        rendered_operand(es[0])
    } else {
        rendered_list(es.drop_last(), sep) + sep + rendered_operand(es.last())
    }
}

/// Renders an expression.
pub fn val(e: &Expression) -> (r: String)
    ensures
        r@ == rendered(e@),
    decreases e, 0nat,
{
    match e {
        Expression::Pin(pin) => pin.text(),
        Expression::Or(operands) => val_list(operands, "||"),
        Expression::Call { instance, args, output } => {
            let mut out = instance.clone();
            out.append(".run(");
            out.append(val_list(args, ",").as_str());
            out.append(")[");
            push_decimal(&mut out, *output);
            out.append("]");
            out
        },
    }
}

/// Renders an expression as part of a larger one.
pub fn val_operand(e: &Expression) -> (r: String)
    ensures
        r@ == rendered_operand(e@),
    decreases e, 1nat,
{
    match e {
        Expression::Or(_) => {
            let mut out = String::from_str("(");
            out.append(val(e).as_str());
            out.append(")");
            out
        },
        _ => val(e),
    }
}

/// Renders operands with a separator between each two.
pub fn val_list(es: &Vec<Expression>, sep: &str) -> (r: String)
    ensures
        r@ == rendered_list(expressions_model(es@), sep@),
    decreases es, 0nat,
{
    let mut out = String::new();
    let mut i: usize = 0;
    let ghost all = expressions_model(es@);
    proof {
        lemma_expressions_model(es@);
        assert(all.take(0) == Seq::<ExpressionView>::empty());
    }
    while i < es.len()
        invariant
            i <= es.len(),
            all == expressions_model(es@),
            all.len() == es.len(),
            forall|j: int| 0 <= j < es.len() ==> (#[trigger] all[j]) == es[j]@,
            out@ == rendered_list(all.take(i as int), sep@),
        decreases es.len() - i,
    {
        proof {
            assert(all.take(i + 1).drop_last() == all.take(i as int));
            assert(all.take(i + 1).last() == all[i as int]);
            assert(all.take(i + 1)[0] == all[0]);
        }
        if i > 0 {
            out.append(sep);
        } else {
            assert(Seq::<char>::empty() + rendered_operand(all[0]) == rendered_operand(all[0]));
        }
        out.append(val_operand(&es[i]).as_str());
        i = i + 1;
    }
    assert(all.take(i as int) == all);
    out
}

/// An OR of one operand that is no OR itself reads as the operand: what a
/// single connection feeds takes the value of its source.
pub proof fn lemma_sole_operand(e: ExpressionView)
    requires
        !(e is Or),
    ensures
        rendered(ExpressionView::Or { operands: seq![e] }) == rendered(e),
{
    assert(seq![e][0] == e);
}

/// An OR of two pins reads as the two names with `||` between them.
pub proof fn lemma_or_of_two_pins(a: PinRefView, b: PinRefView)
    ensures
        rendered(
            ExpressionView::Or {
                operands: seq![ExpressionView::Pin { pin: a }, ExpressionView::Pin { pin: b }],
            },
        ) == reference_text(a) + "||"@ + reference_text(b),
{
    let operands = seq![ExpressionView::Pin { pin: a }, ExpressionView::Pin { pin: b }];
    assert(operands.drop_last() == seq![ExpressionView::Pin { pin: a }]);
    assert(operands.drop_last()[0] == ExpressionView::Pin { pin: a });
    assert(operands.last() == ExpressionView::Pin { pin: b });
    assert(rendered_operand(ExpressionView::Pin { pin: a }) == reference_text(a));
    assert(rendered_operand(ExpressionView::Pin { pin: b }) == reference_text(b));
    assert(rendered_list(operands.drop_last(), "||"@) == reference_text(a));
    assert(rendered_list(operands, "||"@) == reference_text(a) + "||"@ + reference_text(b));
}

/// The body that the backend supplies for a built-in operation.
pub open spec fn custom_code(kind: Name) -> Result<Seq<char>, SemanticError> {
    if kind == "AND"@ {
        Ok("out = in0 && in1;\n"@)
    } else if kind == "NOT"@ {
        Ok("o = !i;\n"@)
    } else {
        Err(SemanticError::UnknownPrimitive)
    }
}

/// The body of a built-in operation; a kind that the backend does not know
/// is refused.
pub fn get_custom_code(n: &String) -> (r: Result<&'static str, SemanticError>)
    ensures
        match r {
            Ok(code) => custom_code(n@) == Ok::<Seq<char>, SemanticError>(code@),
            Err(e) => custom_code(n@) == Err::<Seq<char>, SemanticError>(e),
        },
{
    if *n == String::from_str("AND") {
        Ok("out = in0 && in1;\n")
    } else if *n == String::from_str("NOT") {
        Ok("o = !i;\n")
    } else {
        Err(SemanticError::UnknownPrimitive)
    }
}

/// What a statement puts at the head of `run`: a variable for an output
/// pin, for a rail and for an instance, the body of a built-in operation,
/// and nothing for the rest.
pub open spec fn declaration(scope: Map<Name, KindView>, stmt: Statement) -> Result<
    Seq<char>,
    SemanticError,
> {
    match stmt {
        Statement::Out { name } => Ok("let "@ + name + " = false;\n"@),
        Statement::Rail { name } => Ok("let "@ + name + " = false;\n"@),
        Statement::Primitive { kind } => custom_code(kind),
        Statement::ChipInstance { alias, bound_name } => if scope.contains_key(alias) {
            match scope[alias] {
                KindView::Alias { path } => Ok(
                    "let "@ + bound_name + " = new "@ + dots_replaced(path) + "();\n"@,
                ),
                _ => Err(SemanticError::UnresolvedName),
            }
        } else {
            Err(SemanticError::UnresolvedName)
        },
        _ => Ok(Seq::empty()),
    }
}

/// The declarations of a statement list, in order.
pub open spec fn declarations(scope: Map<Name, KindView>, stmts: Seq<Statement>) -> Result<
    Seq<char>,
    SemanticError,
>
    decreases stmts.len(),
{
    if stmts.len() == 0 {
        Ok(Seq::empty())
    } else {
        match declarations(scope, stmts.drop_last()) {
            Ok(before) => match declaration(scope, stmts.last()) {
                Ok(text) => Ok(before + text),
                Err(e) => Err(e),
            },
            Err(e) => Err(e),
        }
    }
}

/// A fault among the first statements is the fault of the whole list.
pub proof fn lemma_declarations_fail_early(
    scope: Map<Name, KindView>,
    stmts: Seq<Statement>,
    k: int,
)
    requires
        0 <= k <= stmts.len(),
        declarations(scope, stmts.take(k)) is Err,
    ensures
        declarations(scope, stmts) == declarations(scope, stmts.take(k)),
    decreases stmts.len() - k,
{
    if k == stmts.len() {
        assert(stmts.take(k) == stmts);
    } else {
        assert(stmts.take(k + 1).drop_last() == stmts.take(k));
        lemma_declarations_fail_early(scope, stmts, k + 1);
    }
}

fn gen_declaration(scope: &Scope, stmt: &AST) -> (r: Result<String, SemanticError>)
    ensures
        holds(r, declaration(scope@, stmt@)),
{
    match stmt {
        AST::OUT(n) => {
            let mut line = String::from_str("let ");
            line.append(n.as_str());
            line.append(" = false;\n");
            Ok(line)
        },
        AST::RAIL(n) => {
            let mut line = String::from_str("let ");
            line.append(n.as_str());
            line.append(" = false;\n");
            Ok(line)
        },
        AST::CUSTOM(n) => match get_custom_code(n) {
            Ok(code) => Ok(String::from_str(code)),
            Err(e) => Err(e),
        },
        AST::CHIP(alias, name) => match scope.lookup(alias) {
            Some(Kind::Alias(path)) => {
                let mut line = String::from_str("let ");
                line.append(name.as_str());
                line.append(" = new ");
                line.append(replace_dots(path.as_str()).as_str());
                line.append("();\n");
                Ok(line)
            },
            _ => Err(SemanticError::UnresolvedName),
        },
        _ => Ok(String::new()),
    }
}

fn gen_declarations(scope: &Scope, stmts: &Vec<AST>) -> (r: Result<String, SemanticError>)
    ensures
        holds(r, declarations(scope@, stmts.deep_view())),
{
    let mut out = String::new();
    let mut i: usize = 0;
    let ghost all = stmts.deep_view();
    assert(all.take(0) == Seq::<Statement>::empty());
    while i < stmts.len()
        invariant
            i <= stmts.len(),
            all == stmts.deep_view(),
            declarations(scope@, all.take(i as int)) == Ok::<Seq<char>, SemanticError>(out@),
        decreases stmts.len() - i,
    {
        assert(all.take(i + 1).drop_last() == all.take(i as int));
        assert(all.take(i + 1).last() == stmts[i as int]@);
        match gen_declaration(scope, &stmts[i]) {
            Ok(text) => {
                out.append(text.as_str());
            },
            Err(e) => {
                proof {
                    lemma_declarations_fail_early(scope@, all, i + 1);
                }
                return Err(e);
            },
        }
        i = i + 1;
    }
    assert(all.take(i as int) == all);
    Ok(out)
}

/// The statements that give the output pins their values: each pin, in
/// order, is assigned the expression at its position.
pub open spec fn assignments(outputs: Seq<Name>, values: Seq<ExpressionView>) -> Seq<char>
    recommends
        values.len() == outputs.len(),
    decreases outputs.len(),
{
    if outputs.len() == 0 {
        Seq::empty()
    } else {
        assignments(outputs.drop_last(), values.drop_last()) + (outputs.last() + " = "@ + rendered(
            values.last(),
        ) + ";\n"@)
    }
}

fn gen_assignments(outputs: &Vec<String>, values: &Vec<Expression>) -> (r: String)
    requires
        values.len() == outputs.len(),
    ensures
        r@ == assignments(outputs.deep_view(), expressions_model(values@)),
{
    let mut out = String::new();
    let mut i: usize = 0;
    let ghost names = outputs.deep_view();
    let ghost all = expressions_model(values@);
    proof {
        lemma_expressions_model(values@);
        assert(names.take(0) == Seq::<Name>::empty());
    }
    while i < outputs.len()
        invariant
            i <= outputs.len(),
            values.len() == outputs.len(),
            names == outputs.deep_view(),
            all == expressions_model(values@),
            all.len() == values.len(),
            forall|j: int| 0 <= j < values.len() ==> (#[trigger] all[j]) == values[j]@,
            out@ == assignments(names.take(i as int), all.take(i as int)),
        decreases outputs.len() - i,
    {
        proof {
            assert(names.take(i + 1).drop_last() == names.take(i as int));
            assert(names.take(i + 1).last() == outputs[i as int]@);
            assert(all.take(i + 1).drop_last() == all.take(i as int));
            assert(all.take(i + 1).last() == values[i as int]@);
        }
        let mut line = outputs[i].clone();
        line.append(" = ");
        line.append(val(&values[i]).as_str());
        line.append(";\n");
        out.append(line.as_str());
        i = i + 1;
    }
    proof {
        assert(names.take(i as int) == names);
        assert(all.take(i as int) == all);
    }
    out
}

/// Whether a statement list marks its chip as a built-in operation.
pub fn has_custom(stmts: &Vec<AST>) -> (r: bool)
    ensures
        r == is_primitive(stmts.deep_view()),
{
    let mut i: usize = 0;
    while i < stmts.len()
        invariant
            i <= stmts.len(),
            forall|j: int| 0 <= j < i ==> !((#[trigger] stmts.deep_view()[j]) is Primitive),
        decreases stmts.len() - i,
    {
        match &stmts[i] {
            AST::CUSTOM(_) => {
                assert(stmts.deep_view()[i as int] is Primitive);
                return true;
            },
            _ => {},
        }
        i = i + 1;
    }
    false
}

/// What `run` computes: for a built-in operation nothing, as the backend's
/// own body stands among the declarations; for any other chip the
/// assignments of its output pins, each with the expression of its tree.
pub open spec fn body_code(chip: ChipView, graph: GraphView) -> Result<Seq<char>, SemanticError> {
    if is_primitive(chip.statements) {
        Ok(Seq::empty())
    } else {
        match output_expressions(graph, chip.outputs) {
            Ok(values) => Ok(assignments(chip.outputs, values)),
            Err(e) => Err(e),
        }
    }
}

/// The `run` method of a chip.
///
/// The chip's statements are resolved against the registry. The method
/// takes the inputs, declares what the statements call for, computes the
/// output pins, and returns them in declaration order.
pub open spec fn run_code(chip: ChipView, registry: Seq<ChipView>) -> Result<
    Seq<char>,
    SemanticError,
> {
    match analysis(chip.statements, registry) {
        Ok(graph) => match declarations(graph.scope, chip.statements) {
            Ok(head) => match body_code(chip, graph) {
                Ok(body) => Ok(
                    "run("@ + joined(chip.inputs, ","@) + "){\n"@ + head + body + "return ["@
                        + joined(chip.outputs, ","@) + "];\n"@ + "}"@,
                ),
                Err(e) => Err(e),
            },
            Err(e) => Err(e),
        },
        Err(d) => Err(d.error),
    }
}

/// Generates the `run` method of a chip.
pub fn gen_run_code(chip: &Chip, program: &mut Program) -> (r: Result<String, SemanticError>)
    ensures
        *final(program) == *old(program),
        holds(r, run_code(chip@, old(program)@)),
{
    let graph = match analyze(&chip.ast, program) {
        Ok(graph) => graph,
        Err(d) => {
            return Err(d.error);
        },
    };
    let head = match gen_declarations(&graph.scope, &chip.ast) {
        Ok(head) => head,
        Err(e) => {
            return Err(e);
        },
    };
    let body = if has_custom(&chip.ast) {
        String::new()
    } else {
        match synthesize_outputs(&chip.outs, &graph) {
            Ok(values) => gen_assignments(&chip.outs, &values),
            Err(e) => {
                return Err(e);
            },
        }
    };
    let mut func = String::from_str("run(");
    func.append(join(&chip.ins, ",").as_str());
    func.append("){\n");
    func.append(head.as_str());
    func.append(body.as_str());
    func.append("return [");
    func.append(join(&chip.outs, ",").as_str());
    func.append("];\n");
    func.append("}");
    Ok(func)
}

/// The class of a chip, under the given class name.
pub open spec fn class_code(name: Name, chip: ChipView, registry: Seq<ChipView>) -> Result<
    Seq<char>,
    SemanticError,
> {
    match run_code(chip, registry) {
        Ok(run) => Ok("class "@ + name + " {\n"@ + run + "\n"@ + "}"@),
        Err(e) => Err(e),
    }
}

/// Generates the class of a chip.
pub fn gen_class(name: &String, chip: &Chip, program: &mut Program) -> (r: Result<
    String,
    SemanticError,
>)
    ensures
        *final(program) == *old(program),
        holds(r, class_code(name@, chip@, old(program)@)),
{
    let run = match gen_run_code(chip, program) {
        Ok(run) => run,
        Err(e) => {
            return Err(e);
        },
    };
    let mut file = String::from_str("class ");
    file.append(name.as_str());
    file.append(" {\n");
    file.append(run.as_str());
    file.append("\n");
    file.append("}");
    Ok(file)
}

/// The classes of the given definitions, each under its name with `_` for
/// every `.`, and each followed by a line break.
pub open spec fn library_code(chips: Seq<ChipView>, registry: Seq<ChipView>) -> Result<
    Seq<char>,
    SemanticError,
>
    decreases chips.len(),
{
    if chips.len() == 0 {
        Ok(Seq::empty())
    } else {
        match library_code(chips.drop_last(), registry) {
            Ok(before) => match class_code(
                dots_replaced(chips.last().name),
                chips.last(),
                registry,
            ) {
                Ok(text) => Ok(before + text + "\n"@),
                Err(e) => Err(e),
            },
            Err(e) => Err(e),
        }
    }
}

/// A fault among the first definitions is the fault of the whole list.
pub proof fn lemma_library_fails_early(chips: Seq<ChipView>, registry: Seq<ChipView>, k: int)
    requires
        0 <= k <= chips.len(),
        library_code(chips.take(k), registry) is Err,
    ensures
        library_code(chips, registry) == library_code(chips.take(k), registry),
    decreases chips.len() - k,
{
    if k == chips.len() {
        assert(chips.take(k) == chips);
    } else {
        assert(chips.take(k + 1).drop_last() == chips.take(k));
        lemma_library_fails_early(chips, registry, k + 1);
    }
}

/// The module of a chip: its class under its own name, then the class of
/// every definition in the registry, in the order of the registry.
pub open spec fn module_code(chip: ChipView, registry: Seq<ChipView>) -> Result<
    Seq<char>,
    SemanticError,
> {
    match class_code(chip.name, chip, registry) {
        Ok(main) => match library_code(registry, registry) {
            Ok(library) => Ok(main + "\n"@ + library),
            Err(e) => Err(e),
        },
        Err(e) => Err(e),
    }
}

/// Building a tree and turning it into an expression is a function of the
/// graph and the pin: whatever two runs on the same values give has the
/// same value, and reads the same.
pub proof fn lemma_synthesis_is_deterministic(
    graph: GraphView,
    pin: PinRefView,
    first: Expression,
    second: Expression,
)
    requires
        expression_at(graph, pin, graph.edges.len()) == Ok::<ExpressionView, SemanticError>(first@),
        expression_at(graph, pin, graph.edges.len()) == Ok::<ExpressionView, SemanticError>(
            second@,
        ),
    ensures
        first@ == second@,
        rendered(first@) == rendered(second@),
{
}

/// The class of a chip does not depend on the order of the registry: two
/// registries that hold the same definitions under the same names give the
/// same text, or the same fault.
pub proof fn lemma_class_ignores_order(
    name: Name,
    chip: ChipView,
    first: Seq<ChipView>,
    second: Seq<ChipView>,
)
    requires
        same_definitions(first, second),
    ensures
        run_code(chip, first) == run_code(chip, second),
        class_code(name, chip, first) == class_code(name, chip, second),
{
    lemma_analysis_ignores_order(chip.statements, first, second);
}

/// Compiling is a function of the chip and the registry: two runs on the
/// same values give the same text, or the same fault.
pub proof fn lemma_compile_is_deterministic(
    chip: ChipView,
    registry: Seq<ChipView>,
    first: Result<String, SemanticError>,
    second: Result<String, SemanticError>,
)
    requires
        holds(first, module_code(chip, registry)),
        holds(second, module_code(chip, registry)),
    ensures
        first is Ok <==> second is Ok,
        first is Ok ==> first->Ok_0@ == second->Ok_0@,
        first is Err ==> first->Err_0 == second->Err_0,
{
}

impl Backend for JsBackend {
    /// Renders the chip and the registry as one JavaScript module.
    fn compile(chip: Chip, program: Program) -> (r: Result<String, SemanticError>)
        ensures
            holds(r, module_code(chip@, program@)),
    {
        let ghost registry = program@;
        let mut known = program;
        let mut file = match gen_class(&chip.name, &chip, &mut known) {
            Ok(main) => main,
            Err(e) => {
                return Err(e);
            },
        };
        file.append("\n");
        let mut library = String::new();
        let mut i: usize = 0;
        assert(registry.take(0) == Seq::<ChipView>::empty());
        let count = known.definitions().len();
        while i < count
            invariant
                i <= count,
                count == registry.len(),
                known@ == registry,
                program@ == registry,
                class_code(chip@.name, chip@, registry) is Ok,
                file@ == class_code(chip@.name, chip@, registry)->Ok_0 + "\n"@,
                library_code(registry.take(i as int), registry) == Ok::<Seq<char>, SemanticError>(
                    library@,
                ),
            decreases count - i,
        {
            let definition = known.definitions()[i].clone();
            assert(registry.take(i + 1).drop_last() == registry.take(i as int));
            assert(registry.take(i + 1).last() == definition@);
            let name = replace_dots(definition.name.as_str());
            match gen_class(&name, &definition, &mut known) {
                Ok(text) => {
                    library.append(text.as_str());
                    library.append("\n");
                },
                Err(e) => {
                    proof {
                        lemma_library_fails_early(registry, registry, i + 1);
                    }
                    return Err(e);
                },
            }
            i = i + 1;
        }
        assert(registry.take(i as int) == registry);
        file.append(library.as_str());
        Ok(file)
    }
}

} // verus!
