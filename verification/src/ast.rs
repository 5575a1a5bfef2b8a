use vstd::prelude::*;

verus! {

/// An identifier as written in a chip description: a pin, a rail, an alias,
/// or a dotted `instance.pin` reference. Names are case-sensitive.
pub type NameID = String;

/// The mathematical value of a `NameID`.
pub type Name = Seq<char>;

/// One parsed statement of a chip description.
#[derive(Debug, PartialEq, Eq)]
pub enum AST {
    /// `USE(path, alias)`: makes the chip registered as `path` available as `alias`.
    USE(NameID, NameID),
    /// An input pin of the chip: a source that the chip reads.
    IN(NameID),
    /// An output pin of the chip: a sink that the chip fills in.
    OUT(NameID),
    /// An internal signal, the logical OR of everything that feeds it.
    RAIL(NameID),
    /// `CHIP(alias, name)`: an instance called `name` of the chip behind `alias`.
    CHIP(NameID, NameID),
    /// `CONNECT(a, b)`: the two pin or rail references are joined.
    CONNECT(NameID, NameID),
    /// Marks the chip as a built-in operation of the given kind.
    CUSTOM(NameID),
}

/// Which kind of statement an `AST` value is.
#[derive(Debug, Clone, Copy, PartialEq, Eq, Structural)]
pub enum StatementKind {
    USE,
    IN,
    OUT,
    RAIL,
    CHIP,
    CONNECT,
    CUSTOM,
}

/// The mathematical value of an `AST`.
pub enum Statement {
    Use { path: Name, alias: Name },
    In { name: Name },
    Out { name: Name },
    Rail { name: Name },
    ChipInstance { alias: Name, bound_name: Name },
    Connect { a: Name, b: Name },
    Primitive { kind: Name },
}

impl Statement {
    pub open spec fn kind(self) -> StatementKind {
        match self {
            Statement::Use { .. } => StatementKind::USE,
            Statement::In { .. } => StatementKind::IN,
            Statement::Out { .. } => StatementKind::OUT,
            Statement::Rail { .. } => StatementKind::RAIL,
            Statement::ChipInstance { .. } => StatementKind::CHIP,
            Statement::Connect { .. } => StatementKind::CONNECT,
            Statement::Primitive { .. } => StatementKind::CUSTOM,
        }
    }
}

impl View for AST {
    type V = Statement;

    open spec fn view(&self) -> Statement {
        match self {
            AST::USE(path, alias) => Statement::Use { path: path@, alias: alias@ },
            AST::IN(n) => Statement::In { name: n@ },
            AST::OUT(n) => Statement::Out { name: n@ },
            AST::RAIL(n) => Statement::Rail { name: n@ },
            AST::CHIP(alias, name) => Statement::ChipInstance { alias: alias@, bound_name: name@ },
            AST::CONNECT(a, b) => Statement::Connect { a: a@, b: b@ },
            AST::CUSTOM(n) => Statement::Primitive { kind: n@ },
        }
    }
}

impl DeepView for AST {
    type V = Statement;

    open spec fn deep_view(&self) -> Statement {
        self@
    }
}

impl Clone for AST {
    fn clone(&self) -> (r: Self)
        ensures
            r@ == self@,
    {
        match self {
            AST::USE(path, alias) => AST::USE(path.clone(), alias.clone()),
            AST::IN(n) => AST::IN(n.clone()),
            AST::OUT(n) => AST::OUT(n.clone()),
            AST::RAIL(n) => AST::RAIL(n.clone()),
            AST::CHIP(alias, name) => AST::CHIP(alias.clone(), name.clone()),
            AST::CONNECT(a, b) => AST::CONNECT(a.clone(), b.clone()),
            AST::CUSTOM(n) => AST::CUSTOM(n.clone()),
        }
    }
}

impl AST {
    /// The kind of this statement.
    pub fn as_kind(&self) -> (k: StatementKind)
        ensures
            k == self@.kind(),
    {
        match self {
            AST::USE(..) => StatementKind::USE,
            AST::IN(..) => StatementKind::IN,
            AST::OUT(..) => StatementKind::OUT,
            AST::RAIL(..) => StatementKind::RAIL,
            AST::CHIP(..) => StatementKind::CHIP,
            AST::CONNECT(..) => StatementKind::CONNECT,
            AST::CUSTOM(..) => StatementKind::CUSTOM,
        }
    }
}

/// The names that a statement list declares as input pins, in order.
pub open spec fn declared_inputs(stmts: Seq<Statement>) -> Seq<Name>
    decreases stmts.len(),
{
    if stmts.len() == 0 {
        Seq::empty()
    } else {
        let before = declared_inputs(stmts.drop_last());
        match stmts.last() {
            Statement::In { name } => before.push(name),
            _ => before,
        }
    }
}

/// The names that a statement list declares as output pins, in order.
pub open spec fn declared_outputs(stmts: Seq<Statement>) -> Seq<Name>
    decreases stmts.len(),
{
    if stmts.len() == 0 {
        Seq::empty()
    } else {
        let before = declared_outputs(stmts.drop_last());
        match stmts.last() {
            Statement::Out { name } => before.push(name),
            _ => before,
        }
    }
}

/// Whether a statement list marks its chip as a built-in operation.
pub open spec fn is_primitive(stmts: Seq<Statement>) -> bool {
    exists|i: int| 0 <= i < stmts.len() && (#[trigger] stmts[i]) is Primitive
}

/// Declared pins of a concatenation are the concatenation of the declared pins.
pub proof fn lemma_declared_concat(a: Seq<Statement>, b: Seq<Statement>)
    ensures
        declared_inputs(a + b) == declared_inputs(a) + declared_inputs(b),
        declared_outputs(a + b) == declared_outputs(a) + declared_outputs(b),
    decreases b.len(),
{
    if b.len() == 0 {
        assert(a + b == a);
        assert(declared_inputs(a) + Seq::<Name>::empty() == declared_inputs(a));
        assert(declared_outputs(a) + Seq::<Name>::empty() == declared_outputs(a));
    } else {
        lemma_declared_concat(a, b.drop_last());
        assert((a + b).drop_last() == a + b.drop_last());
        assert((a + b).last() == b.last());
        let i = declared_inputs(b.drop_last());
        let o = declared_outputs(b.drop_last());
        match b.last() {
            Statement::In { name } => {
                assert(declared_inputs(a) + i.push(name) == (declared_inputs(a) + i).push(name));
            },
            Statement::Out { name } => {
                assert(declared_outputs(a) + o.push(name) == (declared_outputs(a) + o).push(name));
            },
            _ => {},
        }
    }
}

} // verus!
