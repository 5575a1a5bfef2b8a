//! The namespace of one chip: every declared name with what it stands for,
//! and the electrical role of each pin reference.

use vstd::prelude::*;
use crate::ast::{Name, NameID};
use crate::error::SemanticError;
use crate::text::{
    clone_names, first_dot, first_index, is_first, lemma_first_exists, lemma_first_index,
    position, split_at_dot,
};

verus! {

/// A reference to a pin or a rail: a bare name, or a pin of an instance.
#[derive(Debug, PartialEq, Eq)]
pub struct PinRef {
    pub instance: Option<NameID>,
    pub pin: NameID,
}

/// The mathematical value of a `PinRef`.
pub struct PinRefView {
    pub instance: Option<Name>,
    pub pin: Name,
}

impl View for PinRef {
    type V = PinRefView;

    open spec fn view(&self) -> PinRefView {
        PinRefView {
            instance: match self.instance {
                Some(i) => Some(i@),
                None => None,
            },
            pin: self.pin@,
        }
    }
}

impl DeepView for PinRef {
    type V = PinRefView;

    open spec fn deep_view(&self) -> PinRefView {
        self@
    }
}

/// What a reference text stands for: a text with a `.` names the pin behind
/// the first `.` on the instance before it, any other text names itself.
pub open spec fn reference(text: Name) -> PinRefView {
    if text.contains('.') {
        PinRefView {
            instance: Some(text.take(first_dot(text))),
            pin: text.skip(first_dot(text) + 1),
        }
    } else {
        PinRefView { instance: None, pin: text }
    }
}

/// The text of a reference: `instance.pin`, or the bare name.
pub open spec fn reference_text(r: PinRefView) -> Name {
    match r.instance {
        Some(i) => i + seq!['.'] + r.pin,
        None => r.pin,
    }
}

/// A reference whose instance name holds no `.` is read back from its text;
/// so is a bare name that holds none.
pub proof fn lemma_reference_round_trip(r: PinRefView)
    requires
        match r.instance {
            Some(i) => !i.contains('.'),
            None => !r.pin.contains('.'),
        },
    ensures
        reference(reference_text(r)) == r,
{
    match r.instance {
        Some(i) => {
            let text = reference_text(r);
            assert(text[i.len() as int] == '.');
            assert forall|j: int| 0 <= j < i.len() implies text[j] != '.' by {
                assert(text[j] == i[j]);
            }
            lemma_first_index(text, '.', i.len() as int);
            assert(text.take(i.len() as int) == i);
            assert(text.skip(i.len() as int + 1) == r.pin);
        },
        None => {},
    }
}

impl Clone for PinRef {
    fn clone(&self) -> (r: Self)
        ensures
            r@ == self@,
    {
        PinRef {
            instance: match &self.instance {
                Some(i) => Some(i.clone()),
                None => None,
            },
            pin: self.pin.clone(),
        }
    }
}

impl PinRef {
    /// Reads a reference as it is written in a `CONNECT` statement.
    pub fn parse(text: &String) -> (r: PinRef)
        ensures
            r@ == reference(text@),
    {
        match split_at_dot(text.as_str()) {
            Some((head, tail)) => PinRef { instance: Some(head), pin: tail },
            None => PinRef { instance: None, pin: text.clone() },
        }
    }

    /// Whether two references name the same pin.
    pub fn same(&self, other: &PinRef) -> (r: bool)
        ensures
            r == (self@ == other@),
    {
        match (&self.instance, &other.instance) {
            (Some(a), Some(b)) => *a == *b && self.pin == other.pin,
            (None, None) => self.pin == other.pin,
            _ => false,
        }
    }

    /// The reference as text: `instance.pin`, or the bare name.
    pub fn text(&self) -> (r: String)
        ensures
            r@ == reference_text(self@),
    {
        match &self.instance {
            Some(i) => {
                let mut out = i.clone();
                out.push('.');
                out.append(self.pin.as_str());
                assert(i@.push('.') == i@ + seq!['.']);
                out
            },
            None => self.pin.clone(),
        }
    }
}

/// The electrical role of a connection endpoint.
#[derive(Debug, Clone, Copy, PartialEq, Eq, Structural)]
pub enum Role {
    /// Supplies a value: an input pin of the chip, an output pin of an instance.
    Source,
    /// Consumes a value: an output pin of the chip, an input pin of an instance.
    Sink,
    /// Neither by itself: a rail takes the role that its partner leaves.
    Rail,
}

/// What a declared name stands for.
#[derive(Debug)]
pub enum Kind {
    /// An input pin of the chip.
    Input,
    /// An output pin of the chip.
    Output,
    /// A rail.
    Rail,
    /// An alias for the registered chip of the given name.
    Alias(NameID),
    /// An instance of a chip, with that chip's name and its pins in declaration order.
    Instance { definition: NameID, inputs: Vec<NameID>, outputs: Vec<NameID> },
}

/// The mathematical value of a `Kind`.
pub enum KindView {
    Input,
    Output,
    Rail,
    Alias { path: Name },
    Instance { definition: Name, inputs: Seq<Name>, outputs: Seq<Name> },
}

impl View for Kind {
    type V = KindView;

    open spec fn view(&self) -> KindView {
        match self {
            Kind::Input => KindView::Input,
            Kind::Output => KindView::Output,
            Kind::Rail => KindView::Rail,
            Kind::Alias(path) => KindView::Alias { path: path@ },
            Kind::Instance { definition, inputs, outputs } => KindView::Instance {
                definition: definition@,
                inputs: inputs.deep_view(),
                outputs: outputs.deep_view(),
            },
        }
    }
}

impl DeepView for Kind {
    type V = KindView;

    open spec fn deep_view(&self) -> KindView {
        self@
    }
}

impl Clone for Kind {
    fn clone(&self) -> (r: Self)
        ensures
            r@ == self@,
    {
        match self {
            Kind::Input => Kind::Input,
            Kind::Output => Kind::Output,
            Kind::Rail => Kind::Rail,
            Kind::Alias(path) => Kind::Alias(path.clone()),
            Kind::Instance { definition, inputs, outputs } => Kind::Instance {
                definition: definition.clone(),
                inputs: clone_names(inputs),
                outputs: clone_names(outputs),
            },
        }
    }
}

/// One declared name and what it stands for.
#[derive(Debug)]
pub struct Binding {
    pub name: NameID,
    pub kind: Kind,
}

/// The mathematical value of a `Binding`.
pub struct BindingView {
    pub name: Name,
    pub kind: KindView,
}

impl View for Binding {
    type V = BindingView;

    open spec fn view(&self) -> BindingView {
        BindingView { name: self.name@, kind: self.kind@ }
    }
}

impl DeepView for Binding {
    type V = BindingView;

    open spec fn deep_view(&self) -> BindingView {
        self@
    }
}

/// The names of a list of bindings, in order.
pub open spec fn binding_names(bindings: Seq<BindingView>) -> Seq<Name> {
    Seq::new(bindings.len(), |i: int| bindings[i].name)
}

/// The namespace that a list of bindings stands for. Where a name occurs
/// twice, its first binding counts.
pub open spec fn namespace(bindings: Seq<BindingView>) -> Map<Name, KindView> {
    Map::new(
        |n: Name| binding_names(bindings).contains(n),
        |n: Name| bindings[first_index(binding_names(bindings), n)].kind,
    )
}

/// A new name extends the namespace by one entry.
pub proof fn lemma_namespace_push(bindings: Seq<BindingView>, b: BindingView)
    requires
        !namespace(bindings).contains_key(b.name),
    ensures
        namespace(bindings.push(b)) == namespace(bindings).insert(b.name, b.kind),
{
    let old_names = binding_names(bindings);
    let new_names = binding_names(bindings.push(b));
    assert(new_names == old_names.push(b.name));
    let lhs = namespace(bindings.push(b));
    let rhs = namespace(bindings).insert(b.name, b.kind);
    assert forall|n: Name| lhs.contains_key(n) <==> rhs.contains_key(n) by {
        if old_names.contains(n) {
            let i = choose|i: int| 0 <= i < old_names.len() && old_names[i] == n;
            assert(new_names[i] == n);
        }
        if n == b.name {
            assert(new_names[bindings.len() as int] == n);
        }
    }
    assert forall|n: Name| lhs.contains_key(n) implies lhs[n] == rhs[n] by {
        if n == b.name {
            assert(is_first(new_names, n, bindings.len() as int));
            lemma_first_index(new_names, n, bindings.len() as int);
        } else {
            lemma_first_exists(old_names, n);
            let i = first_index(old_names, n);
            assert(is_first(new_names, n, i));
            lemma_first_index(new_names, n, i);
        }
    }
    assert(lhs =~= rhs);
}

/// The namespace of one chip.
#[derive(Debug)]
pub struct Scope {
    pub bindings: Vec<Binding>,
}

impl View for Scope {
    type V = Map<Name, KindView>;

    open spec fn view(&self) -> Map<Name, KindView> {
        namespace(self.bindings.deep_view())
    }
}

impl DeepView for Scope {
    type V = Map<Name, KindView>;

    open spec fn deep_view(&self) -> Map<Name, KindView> {
        self@
    }
}

/// The role of a reference in a namespace, `None` where the reference does
/// not resolve. A bare reference must name a pin of the chip or a rail; a
/// dotted one must name a pin of a declared instance.
pub open spec fn role(scope: Map<Name, KindView>, r: PinRefView) -> Option<Role> {
    match r.instance {
        None => if scope.contains_key(r.pin) {
            match scope[r.pin] {
                KindView::Input => Some(Role::Source),
                KindView::Output => Some(Role::Sink),
                KindView::Rail => Some(Role::Rail),
                _ => None,
            }
        } else {
            None
        },
        Some(i) => if scope.contains_key(i) {
            match scope[i] {
                KindView::Instance { definition, inputs, outputs } => if inputs.contains(r.pin) {
                    Some(Role::Sink)
                } else if outputs.contains(r.pin) {
                    Some(Role::Source)
                } else {
                    None
                },
                _ => None,
            }
        } else {
            None
        },
    }
}

impl Scope {
    /// The empty namespace.
    pub fn new() -> (s: Self)
        ensures
            s@ == Map::<Name, KindView>::empty(),
    {
        let s = Scope { bindings: Vec::new() };
        assert(s@ =~= Map::<Name, KindView>::empty());
        s
    }

    /// What a name stands for, if it is declared.
    pub fn lookup(&self, name: &String) -> (r: Option<&Kind>)
        ensures
            match r {
                Some(k) => self@.contains_key(name@) && k@ == self@[name@],
                None => !self@.contains_key(name@),
            },
    {
        let ghost names = binding_names(self.bindings.deep_view());
        let mut i: usize = 0;
        while i < self.bindings.len()
            invariant
                i <= self.bindings.len(),
                names == binding_names(self.bindings.deep_view()),
                forall|j: int| 0 <= j < i ==> names[j] != name@,
            decreases self.bindings.len() - i,
        {
            if self.bindings[i].name == *name {
                proof {
                    assert(names[i as int] == name@);
                    lemma_first_index(names, name@, i as int);
                }
                return Some(&self.bindings[i].kind);
            }
            i = i + 1;
        }
        None
    }

    /// Declares a name. A name that is already declared is refused, and the
    /// namespace stays as it was.
    pub fn declare(&mut self, name: NameID, kind: Kind) -> (r: Result<(), SemanticError>)
        ensures
            match r {
                Ok(()) => !old(self)@.contains_key(name@) && final(self)@ == old(self)@.insert(
                    name@,
                    kind@,
                ),
                Err(e) => e == SemanticError::DuplicateName && old(self)@.contains_key(name@)
                    && final(self)@ == old(self)@,
            },
    {
        if self.lookup(&name).is_some() {
            return Err(SemanticError::DuplicateName);
        }
        let ghost before = self.bindings.deep_view();
        let b = Binding { name, kind };
        proof {
            lemma_namespace_push(before, b@);
        }
        self.bindings.push(b);
        assert(self.bindings.deep_view() == before.push(b@));
        Ok(())
    }

    /// The role of a reference, `None` where it does not resolve.
    pub fn role_of(&self, r: &PinRef) -> (role: Option<Role>)
        ensures
            role == self::role(self@, r@),
    {
        match &r.instance {
            None => match self.lookup(&r.pin) {
                Some(Kind::Input) => Some(Role::Source),
                Some(Kind::Output) => Some(Role::Sink),
                Some(Kind::Rail) => Some(Role::Rail),
                _ => None,
            },
            Some(i) => match self.lookup(i) {
                Some(Kind::Instance { definition, inputs, outputs }) => {
                    if position(inputs, &r.pin).is_some() {
                        Some(Role::Sink)
                    } else if position(outputs, &r.pin).is_some() {
                        Some(Role::Source)
                    } else {
                        None
                    }
                },
                _ => None,
            },
        }
    }
}

} // verus!
