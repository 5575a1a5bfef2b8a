//! Chip definitions and the registry that holds them.

use vstd::prelude::*;
use vstd::string::StringExecFns;
use crate::ast::{declared_inputs, declared_outputs, lemma_declared_concat, Name, Statement, AST};
use crate::error::{Diagnostic, SemanticError};
use crate::resolve::{analysis, analyze, GraphView};
use crate::standard::{not_statements, primitive_registry};
use crate::text::{clone_names, first_index, lemma_first_index};

verus! {

/// One circuit definition: its statements, and the pins they declare.
#[derive(Debug, PartialEq, Eq)]
pub struct Chip {
    pub ast: Vec<AST>,
    pub ins: Vec<String>,
    pub outs: Vec<String>,
    pub name: String,
}

/// The mathematical value of a `Chip`.
pub struct ChipView {
    pub name: Name,
    pub statements: Seq<Statement>,
    pub inputs: Seq<Name>,
    pub outputs: Seq<Name>,
}

impl ChipView {
    /// The pin lists hold exactly the names that the statements declare as
    /// inputs and as outputs, in declaration order.
    pub open spec fn well_formed(self) -> bool {
        &&& self.inputs == declared_inputs(self.statements)
        &&& self.outputs == declared_outputs(self.statements)
    }

    /// The definition of the given name that holds the given statements.
    pub open spec fn of(name: Name, statements: Seq<Statement>) -> ChipView {
        ChipView {
            name,
            statements,
            inputs: declared_inputs(statements),
            outputs: declared_outputs(statements),
        }
    }

    /// This definition with more statements behind its own.
    pub open spec fn extended(self, statements: Seq<Statement>) -> ChipView {
        ChipView {
            name: self.name,
            statements: self.statements + statements,
            inputs: self.inputs + declared_inputs(statements),
            outputs: self.outputs + declared_outputs(statements),
        }
    }
}

/// Extending a well-formed definition gives a well-formed definition.
pub proof fn lemma_extended_well_formed(chip: ChipView, statements: Seq<Statement>)
    requires
        chip.well_formed(),
    ensures
        chip.extended(statements).well_formed(),
{
    lemma_declared_concat(chip.statements, statements);
}

impl View for Chip {
    type V = ChipView;

    open spec fn view(&self) -> ChipView {
        ChipView {
            name: self.name@,
            statements: self.ast.deep_view(),
            inputs: self.ins.deep_view(),
            outputs: self.outs.deep_view(),
        }
    }
}

impl DeepView for Chip {
    type V = ChipView;

    open spec fn deep_view(&self) -> ChipView {
        self@
    }
}

/// A copy of a statement list.
pub fn clone_statements(stmts: &Vec<AST>) -> (r: Vec<AST>)
    ensures
        r.deep_view() == stmts.deep_view(),
{
    let mut out: Vec<AST> = Vec::new();
    let mut i: usize = 0;
    while i < stmts.len()
        invariant
            i <= stmts.len(),
            out.deep_view() == stmts.deep_view().take(i as int),
        decreases stmts.len() - i,
    {
        let ghost before = out.deep_view();
        out.push(stmts[i].clone());
        assert(out.deep_view() == before.push(stmts[i as int]@));
        assert(stmts.deep_view().take(i + 1) == stmts.deep_view().take(i as int).push(
            stmts[i as int]@,
        ));
        i = i + 1;
    }
    assert(stmts.deep_view().take(i as int) == stmts.deep_view());
    out
}

impl Clone for Chip {
    fn clone(&self) -> (r: Self)
        ensures
            r@ == self@,
    {
        Chip {
            ast: clone_statements(&self.ast),
            ins: clone_names(&self.ins),
            outs: clone_names(&self.outs),
            name: self.name.clone(),
        }
    }
}

impl Chip {
    /// A definition of the given name without statements.
    pub fn new(name: String) -> (chip: Self)
        ensures
            chip@ == ChipView::of(name@, Seq::empty()),
            chip@.well_formed(),
    {
        let chip = Chip { ast: Vec::new(), ins: Vec::new(), outs: Vec::new(), name };
        assert(chip@.statements == Seq::<Statement>::empty());
        assert(chip@.inputs == Seq::<Name>::empty());
        assert(chip@.outputs == Seq::<Name>::empty());
        chip
    }

    /// Builds the definition called `name` from its parsed statements, which
    /// must resolve against the registry. The first statement that does not
    /// is reported, and no definition is made.
    pub fn parse(name: String, src: Vec<AST>, program: &mut Program) -> (r: Result<
        Chip,
        Diagnostic,
    >)
        ensures
            *final(program) == *old(program),
            match r {
                Ok(chip) => {
                    &&& analysis(src.deep_view(), old(program)@) is Ok
                    &&& chip@ == ChipView::of(name@, src.deep_view())
                    &&& chip@.well_formed()
                },
                Err(d) => analysis(src.deep_view(), old(program)@) == Err::<GraphView, Diagnostic>(
                    d,
                ),
            },
    {
        let mut s = Chip::new(name);
        match s.lex(src, program) {
            Ok(()) => {
                proof {
                    let stmts = src.deep_view();
                    assert(Seq::<Statement>::empty() + stmts == stmts);
                    assert(Seq::<Name>::empty() + declared_inputs(stmts) == declared_inputs(stmts));
                    assert(Seq::<Name>::empty() + declared_outputs(stmts) == declared_outputs(
                        stmts,
                    ));
                }
                Ok(s)
            },
            Err(d) => Err(d),
        }
    }

    /// Resolves the statements against the registry and, if every one of
    /// them is in order, puts them behind the statements that the definition
    /// already holds, with the pins they declare. Otherwise the first
    /// violation is reported and the definition stays as it was.
    pub fn lex(&mut self, p: Vec<AST>, program: &mut Program) -> (r: Result<(), Diagnostic>)
        ensures
            *final(program) == *old(program),
            match r {
                Ok(()) => {
                    &&& analysis(p.deep_view(), old(program)@) is Ok
                    &&& final(self)@ == old(self)@.extended(p.deep_view())
                },
                Err(d) => {
                    &&& analysis(p.deep_view(), old(program)@) == Err::<GraphView, Diagnostic>(d)
                    &&& final(self)@ == old(self)@
                },
            },
            old(self)@.well_formed() ==> final(self)@.well_formed(),
    {
        match analyze(&p, program) {
            Err(d) => {
                return Err(d);
            },
            Ok(_) => {},
        }
        let mut p = p;
        let ghost stmts = p.deep_view();
        let mut i: usize = 0;
        while i < p.len()
            invariant
                i <= p.len(),
                p.deep_view() == stmts,
                self.ast == old(self).ast,
                self.name == old(self).name,
                self.ins.deep_view() == old(self).ins.deep_view() + declared_inputs(
                    stmts.take(i as int),
                ),
                self.outs.deep_view() == old(self).outs.deep_view() + declared_outputs(
                    stmts.take(i as int),
                ),
            decreases p.len() - i,
        {
            let ghost ins = self.ins.deep_view();
            let ghost outs = self.outs.deep_view();
            assert(stmts.take(i + 1).drop_last() == stmts.take(i as int));
            assert(stmts.take(i + 1).last() == p[i as int]@);
            match &p[i] {
                AST::IN(n) => {
                    self.ins.push(n.clone());
                    assert(self.ins.deep_view() == ins.push(n@));
                },
                AST::OUT(n) => {
                    self.outs.push(n.clone());
                    assert(self.outs.deep_view() == outs.push(n@));
                },
                _ => {},
            }
            i = i + 1;
        }
        assert(stmts.take(i as int) == stmts);
        let ghost before = self.ast.deep_view();
        self.ast.append(&mut p);
        assert(self.ast.deep_view() == before + stmts);
        proof {
            if old(self)@.well_formed() {
                lemma_extended_well_formed(old(self)@, stmts);
            }
        }
        Ok(())
    }
}

/// The registry of chip definitions, in the order in which they were
/// registered. No name is registered twice.
#[derive(Debug)]
pub struct Program {
    pub(crate) files: Vec<Chip>,
}

impl View for Program {
    type V = Seq<ChipView>;

    closed spec fn view(&self) -> Seq<ChipView> {
        self.files.deep_view()
    }
}

impl DeepView for Program {
    type V = Seq<ChipView>;

    open spec fn deep_view(&self) -> Seq<ChipView> {
        self@
    }
}

impl Clone for Program {
    fn clone(&self) -> (r: Self)
        ensures
            r@ == self@,
    {
        let mut files: Vec<Chip> = Vec::new();
        let mut i: usize = 0;
        while i < self.files.len()
            invariant
                i <= self.files.len(),
                files.deep_view() == self@.take(i as int),
            decreases self.files.len() - i,
        {
            let ghost before = files.deep_view();
            files.push(self.files[i].clone());
            assert(files.deep_view() == before.push(self.files[i as int]@));
            assert(self@.take(i + 1) == self@.take(i as int).push(self.files[i as int]@));
            i = i + 1;
        }
        proof {
            assert(self@.take(i as int) == self@);
            use_type_invariant(self);
        }
        Program { files }
    }
}

/// The names under which a registry holds definitions, in order.
pub open spec fn registry_names(registry: Seq<ChipView>) -> Seq<Name> {
    Seq::new(registry.len(), |i: int| registry[i].name)
}

/// Whether a registry holds a definition of the given name.
pub open spec fn registered(registry: Seq<ChipView>, name: Name) -> bool {
    registry_names(registry).contains(name)
}

/// The definition that a registry holds under a registered name.
pub open spec fn definition(registry: Seq<ChipView>, name: Name) -> ChipView {
    registry[first_index(registry_names(registry), name)]
}

/// No name is registered twice.
pub open spec fn distinct_names(registry: Seq<ChipView>) -> bool {
    registry_names(registry).no_duplicates()
}

impl Program {
    /// No name is registered twice.
    #[verifier::type_invariant]
    pub closed spec fn names_are_distinct(&self) -> bool {
        distinct_names(self.files.deep_view())
    }

    /// The registry that holds only the built-in operation `STD.NOT`.
    pub fn new_simple() -> (r: Self)
        ensures
            r@ == primitive_registry(),
            distinct_names(r@),
    {
        let not = Chip {
            ast: vec![
                AST::IN(String::from_str("i")),
                AST::OUT(String::from_str("o")),
                AST::CUSTOM(String::from_str("NOT")),
            ],
            ins: vec![String::from_str("i")],
            outs: vec![String::from_str("o")],
            name: String::from_str("STD.NOT"),
        };
        proof {
            reveal_with_fuel(declared_inputs, 4);
            reveal_with_fuel(declared_outputs, 4);
            assert(not.ast.deep_view() == not_statements());
            assert(not.ins.deep_view() == declared_inputs(not_statements()));
            assert(not.outs.deep_view() == declared_outputs(not_statements()));
        }
        let files = vec![not];
        assert(files.deep_view() == primitive_registry());
        Program { files }
    }

    /// The definitions, in the order in which they were registered.
    pub fn definitions(&self) -> (r: &Vec<Chip>)
        ensures
            r.deep_view() == self@,
            distinct_names(self@),
    {
        proof {
            use_type_invariant(self);
        }
        &self.files
    }

    /// Looks a definition up by its name.
    pub fn get_chip(&self, name: &String) -> (r: Result<&Chip, SemanticError>)
        ensures
            match r {
                Ok(chip) => registered(self@, name@) && chip@ == definition(self@, name@),
                Err(e) => e == SemanticError::UnresolvedName && !registered(self@, name@),
            },
    {
        let ghost names = registry_names(self@);
        let mut i: usize = 0;
        while i < self.files.len()
            invariant
                i <= self.files.len(),
                names == registry_names(self@),
                forall|j: int| 0 <= j < i ==> names[j] != name@,
            decreases self.files.len() - i,
        {
            if self.files[i].name == *name {
                proof {
                    assert(names[i as int] == name@);
                    lemma_first_index(names, name@, i as int);
                }
                return Ok(&self.files[i]);
            }
            i = i + 1;
        }
        Err(SemanticError::UnresolvedName)
    }

    /// Makes sure that a definition of the given name is in the registry.
    /// One that is not there would have to be imported, and nothing here
    /// imports: the registry is left as it was.
    pub fn resolve(&mut self, name: &String) -> (r: Result<(), SemanticError>)
        ensures
            *final(self) == *old(self),
            match r {
                Ok(()) => registered(old(self)@, name@),
                Err(e) => e == SemanticError::NotImplemented && !registered(old(self)@, name@),
            },
    {
        match self.get_chip(name) {
            Ok(_) => Ok(()),
            Err(_) => Err(SemanticError::NotImplemented),
        }
    }

    /// Registers a definition under its name. A name that is taken is
    /// refused, and the registry stays as it was.
    pub fn insert(&mut self, chip: Chip) -> (r: Result<(), SemanticError>)
        ensures
            match r {
                Ok(()) => !registered(old(self)@, chip@.name) && final(self)@ == old(self)@.push(
                    chip@,
                ),
                Err(e) => e == SemanticError::DuplicateName && registered(old(self)@, chip@.name)
                    && final(self)@ == old(self)@,
            },
            distinct_names(final(self)@),
    {
        proof {
            use_type_invariant(&*self);
        }
        if self.get_chip(&chip.name).is_ok() {
            return Err(SemanticError::DuplicateName);
        }
        let ghost before = self@;
        let mut taken = Program { files: Vec::new() };
        std::mem::swap(self, &mut taken);
        let Program { files } = taken;
        let mut files = files;
        files.push(chip);
        assert(files.deep_view() == before.push(chip@));
        assert(registry_names(files.deep_view()) == registry_names(before).push(chip@.name));
        *self = Program { files };
        Ok(())
    }
}

} // verus!
