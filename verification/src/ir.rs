//! The FlatPIR arena: interned symbols, an append-only node arena whose calls
//! only point at older nodes, inferred-type / phase side tables, and the
//! module's named bindings.

use vstd::prelude::*;

verus! {

/// An interned name: an index into the module's symbol table.
#[derive(Clone, Copy, PartialEq, Eq, Structural, Debug, Hash)]
pub struct Symbol(pub usize);

/// A node of the arena, by position.
#[derive(Clone, Copy, PartialEq, Eq, Structural, Debug, Hash)]
pub struct NodeId(pub usize);

/// A binding slot of the module, by position.
#[derive(Clone, Copy, PartialEq, Eq, Structural, Debug, Hash)]
pub struct BindingId(pub usize);

/// Where a reference resolves: a binding of this module, a local placeholder
/// of an enclosing reification, or a member of a loaded module (by alias).
#[derive(Clone, Copy, PartialEq, Eq, Structural, Debug)]
pub enum RefNs {
    SelfMod,
    Local,
    Module(Symbol),
}

/// A name reference `(%ref ns name)`.
#[derive(Clone, Copy, PartialEq, Eq, Structural, Debug)]
pub struct Ref {
    pub ns: RefNs,
    pub name: Symbol,
}

/// How a named entry of a call is written.
#[derive(Clone, Copy, PartialEq, Eq, Structural, Debug)]
pub enum NamedKind {
    Kwarg,
    Field,
    Assign,
}

/// A named entry `(%kwarg name value)` / `(%field name value)`.
#[derive(Clone, Copy, PartialEq, Eq, Structural, Debug)]
pub struct NamedArg {
    pub kind: NamedKind,
    pub name: Symbol,
    pub value: NodeId,
}

/// The head of a call: a built-in operation by name, or an applied value.
#[derive(Clone, Copy, PartialEq, Eq, Structural, Debug)]
pub enum CallHead {
    Builtin(Symbol),
    User(NodeId),
}

/// The boundary inputs of a reification (`functionof` / `kernelof`).
#[derive(Debug)]
pub enum Inputs {
    Spec(Vec<(Symbol, Ref)>),
    Auto,
}

/// A call node.
#[derive(Debug)]
pub struct Call {
    pub head: CallHead,
    pub args: Vec<NodeId>,
    pub named: Vec<NamedArg>,
    pub inputs: Option<Inputs>,
}

/// A literal. A real literal is carried by its IEEE-754 binary64 bit pattern.
#[derive(Debug)]
pub enum Scalar {
    Real(u64),
    Int(i64),
    Str(String),
    Bool(bool),
}

/// A node of the arena.
#[derive(Debug)]
pub enum Node {
    Lit(Scalar),
    Const(Symbol),
    Ref(Ref),
    Call(Call),
    Hole,
}

/// Inferred evaluation phase of a node.
#[derive(Clone, Copy, PartialEq, Eq, Structural, Debug)]
pub enum Phase {
    Fixed,
    Parameterized,
    Stochastic,
}

/// Inferred total mass of a measure.
#[derive(Clone, Copy, PartialEq, Eq, Structural, Debug)]
pub enum Mass {
    Normalized,
    Finite,
    LocallyFinite,
    Unknown,
    Deferred,
}

/// Scalar element kinds.
#[derive(Clone, Copy, PartialEq, Eq, Structural, Debug)]
pub enum ScalarType {
    Real,
    Integer,
    Boolean,
    Complex,
}

/// One axis of an array shape.
#[derive(Clone, Copy, PartialEq, Eq, Structural, Debug)]
pub enum Dim {
    Static(u64),
    Dynamic,
}

/// Inferred type of a node.
#[derive(Debug)]
pub enum Type {
    Any,
    Scalar(ScalarType),
    Array { shape: Vec<Dim>, elem: Box<Type> },
    Table { columns: Vec<(Symbol, Type)> },
    Record(Vec<(Symbol, Type)>),
    Measure { domain: Box<Type>, mass: Mass },
    Likelihood,
    Kernel,
    Function,
    Failed(String),
    Deferred,
}

/// A named top-level binding `name = rhs`.
#[derive(Debug)]
pub struct Binding {
    pub name: Symbol,
    pub rhs: NodeId,
    pub doc: Option<String>,
    pub public: bool,
    pub synthetic: bool,
}

/// A module: symbol table, node arena with its side tables, and binding slots
/// (a removed binding leaves an empty slot, so binding ids stay stable).
#[derive(Debug)]
pub struct Module {
    pub symbols: Vec<String>,
    pub nodes: Vec<Node>,
    pub types: Vec<Option<Type>>,
    pub phases: Vec<Option<Phase>>,
    pub bindings: Vec<Option<Binding>>,
}

/// A type as a plain value.
pub enum TypeV {
    Any,
    Scalar(ScalarType),
    Array { shape: Seq<Dim>, elem: Box<TypeV> },
    Table { columns: Seq<(Symbol, TypeV)> },
    Record(Seq<(Symbol, TypeV)>),
    Measure { domain: Box<TypeV>, mass: Mass },
    Likelihood,
    Kernel,
    Function,
    Failed(Seq<char>),
    Deferred,
}

/// The plain value of a type.
pub open spec fn type_view(t: Type) -> TypeV
    decreases t,
{
    match t {
        Type::Any => TypeV::Any,
        Type::Scalar(s) => TypeV::Scalar(s),
        Type::Array { shape, elem } => TypeV::Array { shape: shape@, elem: Box::new(type_view(*elem)) },
        Type::Table { columns } => TypeV::Table {
            columns: Seq::new(
                columns@.len(),
                |i: int|
                    if 0 <= i < columns@.len() {
                        (columns@[i].0, type_view(columns@[i].1))
                    } else {
                        (Symbol(0), TypeV::Any)
                    },
            ),
        },
        Type::Record(fields) => TypeV::Record(
            Seq::new(
                fields@.len(),
                |i: int|
                    if 0 <= i < fields@.len() {
                        (fields@[i].0, type_view(fields@[i].1))
                    } else {
                        (Symbol(0), TypeV::Any)
                    },
            ),
        ),
        Type::Measure { domain, mass } => TypeV::Measure { domain: Box::new(type_view(*domain)), mass },
        Type::Likelihood => TypeV::Likelihood,
        Type::Kernel => TypeV::Kernel,
        Type::Function => TypeV::Function,
        Type::Failed(s) => TypeV::Failed(s@),
        Type::Deferred => TypeV::Deferred,
    }
}

// ---------------------------------------------------------------------------
// Structure of nodes
// ---------------------------------------------------------------------------

/// The child sub-nodes of a call, in walk order: the applied value of a user
/// call, then positional arguments, then named values. Reification inputs are
/// name leaves, not children.
pub open spec fn call_children(c: Call) -> Seq<NodeId> {
    let head: Seq<NodeId> = match c.head {
        CallHead::User(f) => seq![f],
        CallHead::Builtin(_) => Seq::empty(),
    };
    head + c.args@ + c.named@.map_values(|na: NamedArg| na.value)
}

pub open spec fn node_children(n: Node) -> Seq<NodeId> {
    match n {
        Node::Call(c) => call_children(c),
        _ => Seq::empty(),
    }
}

pub open spec fn ref_ok(r: Ref, nsym: nat) -> bool {
    &&& r.name.0 < nsym
    &&& (r.ns matches RefNs::Module(a) ==> a.0 < nsym)
}

pub open spec fn inputs_ok(inputs: Option<Inputs>, nsym: nat) -> bool {
    match inputs {
        Some(Inputs::Spec(entries)) => forall|k: int|
            0 <= k < entries@.len() ==> (#[trigger] entries@[k]).0.0 < nsym && ref_ok(
                entries@[k].1,
                nsym,
            ),
        _ => true,
    }
}

/// Every symbol a node mentions is interned.
pub open spec fn node_symbols_ok(n: Node, nsym: nat) -> bool {
    match n {
        Node::Const(s) => s.0 < nsym,
        Node::Ref(r) => ref_ok(r, nsym),
        Node::Call(c) => {
            &&& (c.head matches CallHead::Builtin(s) ==> s.0 < nsym)
            &&& (forall|k: int| 0 <= k < c.named@.len() ==> (#[trigger] c.named@[k]).name.0 < nsym)
            &&& inputs_ok(c.inputs, nsym)
        },
        _ => true,
    }
}

/// A node that may be stored at arena position `pos`: its children are older.
pub open spec fn node_wf(n: Node, pos: int, nsym: nat) -> bool {
    &&& forall|k: int| 0 <= k < node_children(n).len() ==> (#[trigger] node_children(n)[k]).0 < pos
    &&& node_symbols_ok(n, nsym)
}

/// Two reification-input slots hold the same entries.
pub open spec fn same_inputs(a: Option<Inputs>, b: Option<Inputs>) -> bool {
    match (a, b) {
        (None, None) => true,
        (Some(Inputs::Auto), Some(Inputs::Auto)) => true,
        (Some(Inputs::Spec(x)), Some(Inputs::Spec(y))) => x@ == y@,
        _ => false,
    }
}

impl Module {
    pub open spec fn len(&self) -> nat {
        self.nodes@.len()
    }

    pub open spec fn nsym(&self) -> nat {
        self.symbols@.len()
    }

    /// The node at `id` (meaningful for `id` in the arena).
    pub open spec fn at(&self, id: NodeId) -> Node {
        self.nodes@[id.0 as int]
    }

    pub open spec fn valid(&self, id: NodeId) -> bool {
        id.0 < self.nodes@.len()
    }

    /// The text of an interned symbol.
    pub open spec fn name_of(&self, s: Symbol) -> Seq<char> {
        self.symbols@[s.0 as int]@
    }

    pub open spec fn live(&self, b: BindingId) -> bool {
        &&& b.0 < self.bindings@.len()
        &&& self.bindings@[b.0 as int] is Some
    }

    /// The binding in slot `b` (meaningful for a live slot).
    pub open spec fn bind(&self, b: BindingId) -> Binding {
        self.bindings@[b.0 as int].unwrap()
    }

    pub open spec fn binding_wf(&self, b: Binding) -> bool {
        &&& b.rhs.0 < self.nodes@.len()
        &&& b.name.0 < self.symbols@.len()
    }

    /// Some live binding is named `name`.
    pub open spec fn has_binding_named(&self, name: Symbol) -> bool {
        exists|b: BindingId| self.live(b) && #[trigger] self.bind(b).name == name
    }

    /// Well-formedness: the side tables cover the arena; every node points only
    /// at older nodes and interned symbols; the interner holds each text once;
    /// live bindings point into the arena and have distinct names.
    pub open spec fn wf(&self) -> bool {
        &&& self.types@.len() == self.nodes@.len()
        &&& self.phases@.len() == self.nodes@.len()
        &&& forall|i: int|
            0 <= i < self.nodes@.len() ==> node_wf(#[trigger] self.nodes@[i], i, self.symbols@.len())
        &&& forall|i: int, j: int|
            0 <= i < self.symbols@.len() && 0 <= j < self.symbols@.len() && i != j
                ==> #[trigger] self.symbols@[i]@ != #[trigger] self.symbols@[j]@
        &&& forall|b: BindingId| #[trigger] self.live(b) ==> self.binding_wf(self.bind(b))
        &&& forall|b: BindingId, c: BindingId|
            #[trigger] self.live(b) && #[trigger] self.live(c) && b != c ==> self.bind(b).name
                != self.bind(c).name
    }

    /// `self` is `old` grown by appending nodes and symbols: every old node,
    /// its type and phase, and every old symbol are unchanged.
    pub open spec fn extends(&self, old: &Module) -> bool {
        &&& old.nodes@.len() <= self.nodes@.len()
        &&& old.symbols@.len() <= self.symbols@.len()
        &&& forall|i: int| 0 <= i < old.nodes@.len() ==> #[trigger] self.nodes@[i] == old.nodes@[i]
        &&& forall|i: int| 0 <= i < old.nodes@.len() ==> #[trigger] self.types@[i] == old.types@[i]
        &&& forall|i: int| 0 <= i < old.nodes@.len() ==> #[trigger] self.phases@[i] == old.phases@[i]
        &&& forall|i: int|
            0 <= i < old.symbols@.len() ==> #[trigger] self.symbols@[i]@ == old.symbols@[i]@
    }
}


/// Well-formedness survives any change that keeps the binding slots, keeps
/// or grows the arena and the symbol table, and leaves every node well formed
/// and the interner injective.
pub proof fn lemma_wf_frame(old: Module, new: Module)
    requires
        old.wf(),
        new.bindings@ == old.bindings@,
        old.nodes@.len() <= new.nodes@.len(),
        old.symbols@.len() <= new.symbols@.len(),
        new.types@.len() == new.nodes@.len(),
        new.phases@.len() == new.nodes@.len(),
        forall|i: int|
            0 <= i < new.nodes@.len() ==> node_wf(#[trigger] new.nodes@[i], i, new.symbols@.len()),
        forall|i: int, j: int|
            0 <= i < new.symbols@.len() && 0 <= j < new.symbols@.len() && i != j
                ==> #[trigger] new.symbols@[i]@ != #[trigger] new.symbols@[j]@,
    ensures
        new.wf(),
{
    assert forall|b: BindingId| #[trigger] new.live(b) implies new.binding_wf(new.bind(b)) by {
        assert(old.live(b));
    }
    assert forall|b: BindingId, c: BindingId|
        #[trigger] new.live(b) && #[trigger] new.live(c) && b != c implies new.bind(b).name
        != new.bind(c).name by {
        assert(old.live(b));
        assert(old.live(c));
    }
}

/// Node well-formedness is kept when the symbol table grows.
pub proof fn lemma_node_wf_grow(n: Node, pos: int, a: nat, b: nat)
    requires
        node_wf(n, pos, a),
        a <= b,
    ensures
        node_wf(n, pos, b),
{
    match n {
        Node::Call(c) => {
            match c.inputs {
                Some(Inputs::Spec(entries)) => {
                    assert forall|k: int| 0 <= k < entries@.len() implies (
                    #[trigger] entries@[k]).0.0 < b && ref_ok(entries@[k].1, b) by {
                        assert(ref_ok(entries@[k].1, a));
                    }
                },
                _ => {},
            }
        },
        Node::Ref(r) => {
            assert(ref_ok(r, a));
        },
        _ => {},
    }
}

// ---------------------------------------------------------------------------
// Operations
// ---------------------------------------------------------------------------

/// Text equality of two strings.
pub fn str_eq(a: &str, b: &str) -> (r: bool)
    ensures
        r == (a@ == b@),
{
    broadcast use vstd::string::group_string_axioms;

    let sa = a.to_string();
    let sb = b.to_string();
    sa == sb
}

/// A copy of a list of node ids.
pub fn copy_ids(v: &Vec<NodeId>) -> (r: Vec<NodeId>)
    ensures
        r@ == v@,
{
    let mut r: Vec<NodeId> = Vec::new();
    let mut i: usize = 0;
    while i < v.len()
        invariant
            i <= v@.len(),
            r@ == v@.subrange(0, i as int),
        decreases v@.len() - i,
    {
        r.push(v[i]);
        i += 1;
        assert(r@ =~= v@.subrange(0, i as int));
    }
    assert(r@ =~= v@);
    r
}

/// A copy of a list of named entries.
pub fn copy_named(v: &Vec<NamedArg>) -> (r: Vec<NamedArg>)
    ensures
        r@ == v@,
{
    let mut r: Vec<NamedArg> = Vec::new();
    let mut i: usize = 0;
    while i < v.len()
        invariant
            i <= v@.len(),
            r@ == v@.subrange(0, i as int),
        decreases v@.len() - i,
    {
        r.push(v[i]);
        i += 1;
        assert(r@ =~= v@.subrange(0, i as int));
    }
    assert(r@ =~= v@);
    r
}

/// A copy of reification inputs.
pub fn copy_inputs(inputs: &Option<Inputs>) -> (r: Option<Inputs>)
    ensures
        same_inputs(r, *inputs),
{
    match inputs {
        None => None,
        Some(Inputs::Auto) => Some(Inputs::Auto),
        Some(Inputs::Spec(entries)) => {
            let mut out: Vec<(Symbol, Ref)> = Vec::new();
            let mut i: usize = 0;
            while i < entries.len()
                invariant
                    i <= entries@.len(),
                    out@ == entries@.subrange(0, i as int),
                decreases entries@.len() - i,
            {
                out.push(entries[i]);
                i += 1;
                assert(out@ =~= entries@.subrange(0, i as int));
            }
            assert(out@ =~= entries@);
            Some(Inputs::Spec(out))
        },
    }
}

/// A copy of a list of named types.
fn copy_fields(v: &Vec<(Symbol, Type)>) -> (r: Vec<(Symbol, Type)>)
    ensures
        r@.len() == v@.len(),
        forall|i: int| 0 <= i < v@.len() ==> (#[trigger] r@[i]).0 == v@[i].0 && type_view(r@[i].1) == type_view(v@[i].1),
    decreases v,
{
    let mut r: Vec<(Symbol, Type)> = Vec::new();
    let mut i: usize = 0;
    while i < v.len()
        invariant
            i <= v@.len(),
            r@.len() == i,
            forall|k: int| 0 <= k < i ==> (#[trigger] r@[k]).0 == v@[k].0 && type_view(r@[k].1) == type_view(v@[k].1),
        decreases v@.len() - i,
    {
        let t = copy_type(&v[i].1);
        r.push((v[i].0, t));
        i += 1;
    }
    r
}

/// A copy of a type.
pub fn copy_type(t: &Type) -> (r: Type)
    ensures
        type_view(r) == type_view(*t),
    decreases t,
{
    match t {
        Type::Any => Type::Any,
        Type::Scalar(s) => Type::Scalar(*s),
        Type::Array { shape, elem } => {
            let sh = copy_dims(shape);
            let e = copy_type(elem);
            Type::Array { shape: sh, elem: Box::new(e) }
        },
        Type::Table { columns } => {
            let c = copy_fields(columns);
            proof {
                assert(type_view(Type::Table { columns: c }) == type_view(*t)) by {
                    if let TypeV::Table { columns: a } = type_view(Type::Table { columns: c }) {
                        if let TypeV::Table { columns: b } = type_view(*t) {
                            assert(a =~= b);
                        }
                    }
                }
            }
            Type::Table { columns: c }
        },
        Type::Record(fields) => {
            let c = copy_fields(fields);
            proof {
                assert(type_view(Type::Record(c)) == type_view(*t)) by {
                    if let TypeV::Record(a) = type_view(Type::Record(c)) {
                        if let TypeV::Record(b) = type_view(*t) {
                            assert(a =~= b);
                        }
                    }
                }
            }
            Type::Record(c)
        },
        Type::Measure { domain, mass } => {
            let d = copy_type(domain);
            Type::Measure { domain: Box::new(d), mass: *mass }
        },
        Type::Likelihood => Type::Likelihood,
        Type::Kernel => Type::Kernel,
        Type::Function => Type::Function,
        Type::Failed(s) => Type::Failed(s.clone()),
        Type::Deferred => Type::Deferred,
    }
}

/// A copy of a shape.
fn copy_dims(v: &Vec<Dim>) -> (r: Vec<Dim>)
    ensures
        r@ == v@,
{
    let mut r: Vec<Dim> = Vec::new();
    let mut i: usize = 0;
    while i < v.len()
        invariant
            i <= v@.len(),
            r@ == v@.subrange(0, i as int),
        decreases v@.len() - i,
    {
        r.push(v[i]);
        i += 1;
        assert(r@ =~= v@.subrange(0, i as int));
    }
    assert(r@ =~= v@);
    r
}

impl Module {
    /// An empty module.
    pub fn new() -> (m: Module)
        ensures
            m.wf(),
            m.nodes@.len() == 0,
            m.symbols@.len() == 0,
            m.types@.len() == 0,
            m.phases@.len() == 0,
            m.bindings@.len() == 0,
    {
        Module {
            symbols: Vec::new(),
            nodes: Vec::new(),
            types: Vec::new(),
            phases: Vec::new(),
            bindings: Vec::new(),
        }
    }

    /// Number of nodes in the arena.
    pub fn node_count(&self) -> (n: usize)
        ensures
            n == self.nodes@.len(),
    {
        self.nodes.len()
    }

    /// The symbol whose text is `name`, interning it if it is new.
    pub fn intern(&mut self, name: &str) -> (s: Symbol)
        requires
            old(self).wf(),
        ensures
            final(self).wf(),
            final(self).extends(old(self)),
            final(self).nodes@ == old(self).nodes@,
            final(self).types@ == old(self).types@,
            final(self).phases@ == old(self).phases@,
            final(self).bindings@ == old(self).bindings@,
            s.0 < final(self).symbols@.len(),
            final(self).name_of(s) == name@,
            final(self).symbols@.len() == old(self).symbols@.len()
                || (final(self).symbols@.len() == old(self).symbols@.len() + 1
                    && s.0 == old(self).symbols@.len()),
            (exists|k: int| 0 <= k < old(self).symbols@.len() && old(self).symbols@[k]@ == name@)
                ==> final(self).symbols@ == old(self).symbols@,
    {
        let mut i: usize = 0;
        while i < self.symbols.len()
            invariant
                i <= self.symbols@.len(),
                forall|k: int| 0 <= k < i ==> self.symbols@[k]@ != name@,
                *self == *old(self),
                self.wf(),
            decreases self.symbols@.len() - i,
        {
            if str_eq(self.symbols[i].as_str(), name) {
                return Symbol(i);
            }
            i += 1;
        }
        let s = name.to_string();
        proof {
            broadcast use vstd::string::group_string_axioms;

        }
        assert(s@ == name@) by {
            broadcast use vstd::string::group_string_axioms;

        }
        let ghost old_self = *self;
        self.symbols.push(s);
        let r = Symbol(self.symbols.len() - 1);
        proof {
            assert forall|i: int| 0 <= i < self.nodes@.len() implies node_wf(
                #[trigger] self.nodes@[i],
                i,
                self.symbols@.len(),
            ) by {
                lemma_node_wf_grow(old_self.nodes@[i], i, old_self.symbols@.len(), self.symbols@.len());
            }
            assert forall|i: int, j: int|
                0 <= i < self.symbols@.len() && 0 <= j < self.symbols@.len() && i != j
                implies #[trigger] self.symbols@[i]@ != #[trigger] self.symbols@[j]@ by {
                if i < old_self.symbols@.len() && j < old_self.symbols@.len() {
                    assert(old_self.symbols@[i]@ != old_self.symbols@[j]@);
                }
            }
            lemma_wf_frame(old_self, *self);
        }
        r
    }

    /// The text of a symbol.
    pub fn resolve(&self, s: Symbol) -> (r: &str)
        requires
            s.0 < self.symbols@.len(),
        ensures
            r@ == self.name_of(s),
    {
        self.symbols[s.0].as_str()
    }

    /// Append a node whose children are already in the arena.
    pub fn add_node(&mut self, n: Node) -> (id: NodeId)
        requires
            old(self).wf(),
            node_wf(n, old(self).nodes@.len() as int, old(self).symbols@.len()),
        ensures
            final(self).wf(),
            final(self).extends(old(self)),
            final(self).nodes@ == old(self).nodes@.push(n),
            final(self).types@ == old(self).types@.push(None),
            final(self).phases@ == old(self).phases@.push(None),
            final(self).symbols@ == old(self).symbols@,
            final(self).bindings@ == old(self).bindings@,
            id.0 == old(self).nodes@.len(),
    {
        let ghost old_self = *self;
        self.nodes.push(n);
        self.types.push(None);
        self.phases.push(None);
        proof {
            assert forall|i: int| 0 <= i < self.nodes@.len() implies node_wf(
                #[trigger] self.nodes@[i],
                i,
                self.symbols@.len(),
            ) by {
                if i < old_self.nodes@.len() {
                    assert(node_wf(old_self.nodes@[i], i, old_self.symbols@.len()));
                }
            }
            lemma_wf_frame(old_self, *self);
        }
        NodeId(self.nodes.len() - 1)
    }

    /// The node at `id`.
    pub fn node(&self, id: NodeId) -> (n: &Node)
        requires
            id.0 < self.nodes@.len(),
        ensures
            *n == self.at(id),
    {
        &self.nodes[id.0]
    }

    /// The child sub-nodes of `id`, in walk order.
    pub fn children(&self, id: NodeId) -> (r: Vec<NodeId>)
        requires
            id.0 < self.nodes@.len(),
        ensures
            r@ == node_children(self.at(id)),
    {
        match &self.nodes[id.0] {
            Node::Call(c) => {
                let mut r: Vec<NodeId> = Vec::new();
                if let CallHead::User(f) = c.head {
                    r.push(f);
                }
                let ghost head = r@;
                let mut i: usize = 0;
                while i < c.args.len()
                    invariant
                        i <= c.args@.len(),
                        r@ == head + c.args@.subrange(0, i as int),
                    decreases c.args@.len() - i,
                {
                    r.push(c.args[i]);
                    i += 1;
                    assert(r@ =~= head + c.args@.subrange(0, i as int));
                }
                assert(c.args@.subrange(0, c.args@.len() as int) =~= c.args@);
                let ghost pre = r@;
                let mut j: usize = 0;
                while j < c.named.len()
                    invariant
                        j <= c.named@.len(),
                        r@ == pre + c.named@.subrange(0, j as int).map_values(
                            |na: NamedArg| na.value,
                        ),
                    decreases c.named@.len() - j,
                {
                    r.push(c.named[j].value);
                    j += 1;
                    assert(r@ =~= pre + c.named@.subrange(0, j as int).map_values(
                        |na: NamedArg| na.value,
                    ));
                }
                assert(c.named@.subrange(0, c.named@.len() as int) =~= c.named@);
                assert(r@ =~= call_children(*c));
                r
            },
            _ => Vec::new(),
        }
    }

    /// The inferred type of `id`, if any.
    pub fn type_of(&self, id: NodeId) -> (t: Option<&Type>)
        requires
            self.wf(),
            id.0 < self.nodes@.len(),
        ensures
            match t {
                Some(x) => self.types@[id.0 as int] == Some(*x),
                None => self.types@[id.0 as int] is None,
            },
    {
        match &self.types[id.0] {
            Some(t) => Some(t),
            None => None,
        }
    }

    /// Record the inferred type of `id`.
    pub fn set_type(&mut self, id: NodeId, t: Type)
        requires
            old(self).wf(),
            id.0 < old(self).nodes@.len(),
        ensures
            final(self).wf(),
            final(self).nodes@ == old(self).nodes@,
            final(self).symbols@ == old(self).symbols@,
            final(self).bindings@ == old(self).bindings@,
            final(self).phases@ == old(self).phases@,
            final(self).types@ == old(self).types@.update(id.0 as int, Some(t)),
    {
        let ghost old_self = *self;
        self.types.set(id.0, Some(t));
        proof {
            lemma_wf_frame(old_self, *self);
        }
    }

    /// The inferred phase of `id`, if any.
    pub fn phase_of(&self, id: NodeId) -> (p: Option<Phase>)
        requires
            self.wf(),
            id.0 < self.nodes@.len(),
        ensures
            p == self.phases@[id.0 as int],
    {
        self.phases[id.0]
    }

    /// Record the inferred phase of `id`.
    pub fn set_phase(&mut self, id: NodeId, p: Phase)
        requires
            old(self).wf(),
            id.0 < old(self).nodes@.len(),
        ensures
            final(self).wf(),
            final(self).nodes@ == old(self).nodes@,
            final(self).symbols@ == old(self).symbols@,
            final(self).bindings@ == old(self).bindings@,
            final(self).types@ == old(self).types@,
            final(self).phases@ == old(self).phases@.update(id.0 as int, Some(p)),
    {
        let ghost old_self = *self;
        self.phases.set(id.0, Some(p));
        proof {
            lemma_wf_frame(old_self, *self);
        }
    }

    /// Add a binding under a name no live binding has.
    pub fn add_binding(&mut self, b: Binding) -> (bid: BindingId)
        requires
            old(self).wf(),
            old(self).binding_wf(b),
            !old(self).has_binding_named(b.name),
        ensures
            final(self).wf(),
            final(self).nodes@ == old(self).nodes@,
            final(self).symbols@ == old(self).symbols@,
            final(self).types@ == old(self).types@,
            final(self).phases@ == old(self).phases@,
            final(self).bindings@ == old(self).bindings@.push(Some(b)),
            bid.0 == old(self).bindings@.len(),
    {
        let ghost old_self = *self;
        let ghost bname = b.name;
        self.bindings.push(Some(b));
        let bid = BindingId(self.bindings.len() - 1);
        proof {
            assert forall|x: BindingId| #[trigger] self.live(x) implies self.binding_wf(
                self.bind(x),
            ) by {
                if x != bid {
                    assert(old_self.live(x));
                }
            }
            assert forall|x: BindingId, y: BindingId|
                #[trigger] self.live(x) && #[trigger] self.live(y) && x != y implies self.bind(
                x,
            ).name != self.bind(y).name by {
                if x != bid && y != bid {
                    assert(old_self.live(x));
                    assert(old_self.live(y));
                } else if x == bid {
                    assert(old_self.live(y));
                    assert(old_self.bind(y).name != bname);
                } else {
                    assert(old_self.live(x));
                    assert(old_self.bind(x).name != bname);
                }
            }
        }
        bid
    }

    /// The binding in live slot `bid`.
    pub fn binding(&self, bid: BindingId) -> (b: &Binding)
        requires
            self.live(bid),
        ensures
            *b == self.bind(bid),
    {
        self.bindings[bid.0].as_ref().unwrap()
    }

    /// The live binding slots, in source order.
    pub fn binding_ids(&self) -> (r: Vec<BindingId>)
        ensures
            forall|k: int| 0 <= k < r@.len() ==> self.live(#[trigger] r@[k]),
            forall|b: BindingId| #[trigger] self.live(b) ==> r@.contains(b),
            forall|k: int, l: int| 0 <= k < l < r@.len() ==> (#[trigger] r@[k]).0 < (#[trigger] r@[l]).0,
    {
        let mut r: Vec<BindingId> = Vec::new();
        let mut i: usize = 0;
        while i < self.bindings.len()
            invariant
                i <= self.bindings@.len(),
                forall|k: int| 0 <= k < r@.len() ==> self.live(#[trigger] r@[k]) && r@[k].0 < i,
                forall|b: BindingId| #[trigger] self.live(b) && b.0 < i ==> r@.contains(b),
                forall|k: int, l: int| 0 <= k < l < r@.len() ==> (#[trigger] r@[k]).0 < (#[trigger] r@[l]).0,
            decreases self.bindings@.len() - i,
        {
            if self.bindings[i].is_some() {
                let ghost r0 = r@;
                r.push(BindingId(i));
                assert forall|b: BindingId| #[trigger] self.live(b) && b.0 < i + 1 implies r@.contains(b) by {
                    if b.0 < i {
                        let k = choose|k: int| 0 <= k < r0.len() && r0[k] == b;
                        assert(r@[k] == b);
                    } else {
                        assert(r@[r@.len() - 1] == b);
                    }
                }
            }
            i += 1;
        }
        r
    }

    /// The live binding named `name`, if any.
    pub fn binding_by_name(&self, name: Symbol) -> (r: Option<BindingId>)
        requires
            self.wf(),
        ensures
            match r {
                Some(b) => self.live(b) && self.bind(b).name == name,
                None => !self.has_binding_named(name),
            },
    {
        let mut i: usize = 0;
        while i < self.bindings.len()
            invariant
                i <= self.bindings@.len(),
                forall|b: BindingId| #[trigger] self.live(b) && b.0 < i ==> self.bind(b).name != name,
            decreases self.bindings@.len() - i,
        {
            match &self.bindings[i] {
                Some(b) => {
                    if b.name == name {
                        assert(self.live(BindingId(i)));
                        return Some(BindingId(i));
                    }
                },
                None => {},
            }
            i += 1;
        }
        assert forall|b: BindingId| #[trigger] self.live(b) implies self.bind(b).name != name by {}
        None
    }

    /// Point live binding `bid` at `rhs`.
    pub fn set_binding_rhs(&mut self, bid: BindingId, rhs: NodeId)
        requires
            old(self).wf(),
            old(self).live(bid),
            rhs.0 < old(self).nodes@.len(),
        ensures
            final(self).wf(),
            final(self).nodes@ == old(self).nodes@,
            final(self).symbols@ == old(self).symbols@,
            final(self).types@ == old(self).types@,
            final(self).phases@ == old(self).phases@,
            final(self).bindings@.len() == old(self).bindings@.len(),
            final(self).bind(bid) == (Binding { rhs, ..old(self).bind(bid) }),
            forall|b: BindingId|
                b != bid && b.0 < old(self).bindings@.len() ==> #[trigger] final(self).bindings@[b.0 as int]
                    == old(self).bindings@[b.0 as int],
            forall|b: BindingId| #[trigger] final(self).live(b) == old(self).live(b),
    {
        let ghost old_self = *self;
        let b = self.bindings[bid.0].as_ref().unwrap();
        let doc = match &b.doc {
            Some(d) => Some(d.clone()),
            None => None,
        };
        let nb = Binding { name: b.name, rhs, doc, public: b.public, synthetic: b.synthetic };
        self.bindings.set(bid.0, Some(nb));
        proof {
            assert forall|x: BindingId| #[trigger] self.live(x) implies self.binding_wf(
                self.bind(x),
            ) by {
                assert(old_self.live(x));
            }
            assert forall|x: BindingId, y: BindingId|
                #[trigger] self.live(x) && #[trigger] self.live(y) && x != y implies self.bind(
                x,
            ).name != self.bind(y).name by {
                assert(old_self.live(x));
                assert(old_self.live(y));
            }
            assert forall|b: BindingId| #[trigger] self.live(b) == old_self.live(b) by {
                if b.0 < self.bindings@.len() {
                    if b != bid {
                        assert(self.bindings@[b.0 as int] == old_self.bindings@[b.0 as int]);
                    }
                }
            }
        }
    }

    /// Remove every live binding not listed in `keep`.
    pub fn retain_bindings(&mut self, keep: &Vec<BindingId>)
        requires
            old(self).wf(),
        ensures
            final(self).wf(),
            final(self).nodes@ == old(self).nodes@,
            final(self).symbols@ == old(self).symbols@,
            final(self).types@ == old(self).types@,
            final(self).phases@ == old(self).phases@,
            final(self).bindings@.len() == old(self).bindings@.len(),
            forall|b: BindingId|
                #[trigger] final(self).live(b) == (old(self).live(b) && keep@.contains(b)),
            forall|b: BindingId| #[trigger] final(self).live(b) ==> final(self).bind(b) == old(self).bind(b),
    {
        let ghost old_self = *self;
        let mut i: usize = 0;
        while i < self.bindings.len()
            invariant
                old_self.wf(),
                i <= self.bindings@.len(),
                self.bindings@.len() == old_self.bindings@.len(),
                self.nodes@ == old_self.nodes@,
                self.symbols@ == old_self.symbols@,
                self.types@ == old_self.types@,
                self.phases@ == old_self.phases@,
                forall|k: int| i <= k < self.bindings@.len() ==> #[trigger] self.bindings@[k] == old_self.bindings@[k],
                forall|b: BindingId| b.0 < i ==> (#[trigger] self.live(b) == (old_self.live(b) && keep@.contains(b))),
                forall|b: BindingId| #[trigger] self.live(b) ==> self.bind(b) == old_self.bind(b),
            decreases self.bindings@.len() - i,
        {
            let mut found = false;
            let mut j: usize = 0;
            while j < keep.len()
                invariant
                    j <= keep@.len(),
                    found == (exists|k: int| 0 <= k < j && keep@[k] == BindingId(i)),
                decreases keep@.len() - j,
            {
                if keep[j] == BindingId(i) {
                    found = true;
                }
                j += 1;
            }
            assert(found == keep@.contains(BindingId(i)));
            let ghost before = *self;
            if !found {
                self.bindings.set(i, None);
            }
            proof {
                assert forall|b: BindingId| #[trigger] self.live(b) implies self.bind(b) == old_self.bind(b) by {
                    assert(before.live(b));
                }
                assert forall|b: BindingId| b.0 < i + 1 implies (#[trigger] self.live(b) == (old_self.live(b) && keep@.contains(b))) by {
                    if b.0 < i {
                        assert(self.bindings@[b.0 as int] == before.bindings@[b.0 as int]);
                        assert(before.live(b) == (old_self.live(b) && keep@.contains(b)));
                    } else {
                        assert(b == BindingId(i));
                        assert(before.bindings@[i as int] == old_self.bindings@[i as int]);
                    }
                }
            }
            i += 1;
        }
        proof {
            assert forall|x: BindingId| #[trigger] self.live(x) implies self.binding_wf(
                self.bind(x),
            ) by {
                assert(old_self.live(x));
            }
            assert forall|x: BindingId, y: BindingId|
                #[trigger] self.live(x) && #[trigger] self.live(y) && x != y implies self.bind(
                x,
            ).name != self.bind(y).name by {
                assert(old_self.live(x));
                assert(old_self.live(y));
            }
        }
    }
}

} // verus!
