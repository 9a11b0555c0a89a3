//! The declarative model a parse produces: declarations in source order, and
//! an arena of scopes whose bindings are fully expanded (name, value) pairs.

use vstd::prelude::*;

use crate::arena::{Arena, Id};
use crate::blob::{Blob, Builder};
use crate::lex;
use crate::lex::{Identifier, PartView};

verus! {

/// Scope-level failures: the same name inserted twice into one scope.
#[derive(Clone, Copy, Debug, Eq, PartialEq, Structural)]
pub enum AstError {
    DuplicateBinding,
}

/// The view of an `Option<Id<T>>`: the index it holds, if any.
pub open spec fn id_opt_view<T>(o: Option<Id<T>>) -> Option<int> {
    match o {
        Some(id) => Some(id@),
        None => None,
    }
}

/// A fully expanded (name, value) pair, abstracted as the name's symbol
/// ordinal and the value's bytes.
pub struct Binding {
    id: Identifier,
    value: Blob,
}

impl View for Binding {
    type V = (int, Seq<u8>);

    closed spec fn view(&self) -> (int, Seq<u8>) {
        (self.id@, self.value@)
    }
}

impl Binding {
    pub fn new(id: Identifier, value: Blob) -> (b: Binding)
        ensures
            b@ == (id@, value@),
    {
        Binding { id, value }
    }
}

/// The views of a sequence of bindings, in order.
pub open spec fn bindings_view(bs: Seq<Binding>) -> Seq<(int, Seq<u8>)> {
    Seq::new(bs.len(), |i: int| bs[i]@)
}

/// Pushing a binding commutes with taking binding views.
pub proof fn lemma_bindings_view_push(bs: Seq<Binding>, b: Binding)
    ensures
        bindings_view(bs.push(b)) == bindings_view(bs).push(b@),
{
    assert(bindings_view(bs.push(b)) =~= bindings_view(bs).push(b@));
}

/// The mathematical shape of a scope: a map from symbol ordinals to expanded
/// values, plus an optional parent index.
pub struct ScopeView {
    pub bindings: Map<int, Seq<u8>>,
    pub parent: Option<int>,
}

/// The binding map a sequence of bindings denotes; a later binding for the
/// same name wins.
pub open spec fn scope_map(bs: Seq<Binding>) -> Map<int, Seq<u8>>
    decreases bs.len(),
{
    if bs.len() == 0 {
        Map::empty()
    } else {
        scope_map(bs.drop_last()).insert(bs.last()@.0, bs.last()@.1)
    }
}

/// Inserting the given bindings in order into `m`, failing on the first name
/// already bound (in `m` or earlier in the list).
pub open spec fn fold_bindings(
    bs: Seq<(int, Seq<u8>)>,
    m: Map<int, Seq<u8>>,
    i: int,
) -> Result<Map<int, Seq<u8>>, AstError>
    decreases bs.len() - i,
    when 0 <= i <= bs.len()
{
    if i == bs.len() {
        Ok(m)
    } else if m.dom().contains(bs[i].0) {
        Err(AstError::DuplicateBinding)
    } else {
        fold_bindings(bs, m.insert(bs[i].0, bs[i].1), i + 1)
    }
}

/// Expanding a value against binding map `m`: literal parts contribute their
/// bytes; a variable part contributes its bound value, or nothing when the
/// name is unbound.
pub open spec fn eval_parts(m: Map<int, Seq<u8>>, parts: Seq<PartView>) -> Seq<u8>
    decreases parts.len(),
{
    if parts.len() == 0 {
        Seq::empty()
    } else {
        eval_parts(m, parts.drop_last()) + (match parts.last() {
            PartView::Text(t) => t,
            PartView::Variable(sym) => if m.dom().contains(sym) {
                m[sym]
            } else {
                Seq::empty()
            },
        })
    }
}

/// A binding environment: uniquely named, fully expanded bindings plus at
/// most one parent scope.
pub struct Scope {
    bindings: Vec<Binding>,
    parent: Option<Id<Scope>>,
}

impl View for Scope {
    type V = ScopeView;

    closed spec fn view(&self) -> ScopeView {
        ScopeView { bindings: scope_map(self.bindings@), parent: id_opt_view(self.parent) }
    }
}

impl Scope {
    /// The names in this scope are pairwise distinct.
    pub closed spec fn inv(&self) -> bool {
        forall|p: int, q: int|
            0 <= p < q < self.bindings@.len() ==> (#[trigger] self.bindings@[p])@.0 != (
            #[trigger] self.bindings@[q])@.0
    }

    /// A scope with no bindings.
    pub fn empty(parent: Option<Id<Scope>>) -> (s: Scope)
        ensures
            s.inv(),
            s@.bindings == Map::<int, Seq<u8>>::empty(),
            s@.parent == id_opt_view(parent),
    {
        Scope { bindings: Vec::new(), parent }
    }

    /// A scope holding the given bindings, inserted in order; a duplicate
    /// name among them fails with [`AstError::DuplicateBinding`].
    pub fn new(new_bindings: Vec<Binding>, parent: Option<Id<Scope>>) -> (r: Result<
        Scope,
        AstError,
    >)
        ensures
            match fold_bindings(bindings_view(new_bindings@), Map::empty(), 0) {
                Ok(m) => {
                    &&& r matches Ok(s)
                    &&& s.inv()
                    &&& s@.bindings == m
                    &&& s@.parent == id_opt_view(parent)
                },
                Err(e) => r matches Err(e2) && e2 == e,
            },
    {
        let ghost bv = bindings_view(new_bindings@);
        let mut scope = Scope::empty(parent);
        let mut i: usize = 0;
        while i < new_bindings.len()
            invariant
                scope.inv(),
                scope@.parent == id_opt_view(parent),
                0 <= i <= new_bindings@.len(),
                bv == bindings_view(new_bindings@),
                fold_bindings(bv, Map::empty(), 0) == fold_bindings(bv, scope@.bindings, i as int),
            decreases new_bindings@.len() - i,
        {
            let b = &new_bindings[i];
            let copy = Binding { id: b.id, value: Blob::new(b.value.as_bytes()) };
            proof {
                assert(copy@ == bv[i as int]);
            }
            match scope.push(copy) {
                Ok(()) => (),
                Err(e) => {
                    return Err(e);
                },
            }
            i = i + 1;
        }
        Ok(scope)
    }

    /// Inserts one binding. The new value is stored either way; a name
    /// already bound fails with [`AstError::DuplicateBinding`], leaving the
    /// new value in place of the old one.
    pub fn push(&mut self, binding: Binding) -> (r: Result<(), AstError>)
        requires
            old(self).inv(),
        ensures
            final(self).inv(),
            final(self)@.parent == old(self)@.parent,
            final(self)@.bindings == old(self)@.bindings.insert(binding@.0, binding@.1),
            match r {
                Ok(()) => !old(self)@.bindings.dom().contains(binding@.0),
                Err(e) => old(self)@.bindings.dom().contains(binding@.0) && e
                    == AstError::DuplicateBinding,
            },
    {
        let ghost bs = self.bindings@;
        proof {
            lemma_scope_map_contains(bs, binding@.0);
        }
        let mut i: usize = 0;
        while i < self.bindings.len()
            invariant
                self.bindings@ == bs,
                *self == *old(self),
                old(self).inv(),
                0 <= i <= bs.len(),
                forall|j: int| 0 <= j < i ==> (#[trigger] bs[j])@.0 != binding@.0,
            decreases bs.len() - i,
        {
            proof {
                lex::lemma_identifier_eq(bs[i as int].id, binding.id);
            }
            if self.bindings[i].id == binding.id {
                proof {
                    lemma_scope_map_contains(bs, binding@.0);
                    assert(bs[i as int]@.0 == binding@.0);
                    lemma_scope_map_update(bs, i as int, binding);
                }
                let slot = vstd::std_specs::vec::vec_index_mut(&mut self.bindings, i);
                *slot = binding;
                return Err(AstError::DuplicateBinding);
            }
            i = i + 1;
        }
        proof {
            assert(bs.push(binding).drop_last() =~= bs);
        }
        self.bindings.push(binding);
        Ok(())
    }

    /// Looks the name up in this scope alone, without chaining to a parent.
    pub fn get(&self, identifier: Identifier) -> (r: Option<&[u8]>)
        requires
            self.inv(),
        ensures
            match r {
                Some(v) => self@.bindings.dom().contains(identifier@) && v@
                    == self@.bindings[identifier@],
                None => !self@.bindings.dom().contains(identifier@),
            },
    {
        let ghost bs = self.bindings@;
        proof {
            lemma_scope_map_contains(bs, identifier@);
        }
        let mut i: usize = 0;
        while i < self.bindings.len()
            invariant
                self.bindings@ == bs,
                self.inv(),
                0 <= i <= bs.len(),
                forall|j: int| 0 <= j < i ==> (#[trigger] bs[j])@.0 != identifier@,
            decreases bs.len() - i,
        {
            proof {
                lex::lemma_identifier_eq(bs[i as int].id, identifier);
            }
            if self.bindings[i].id == identifier {
                proof {
                    lemma_scope_map_contains(bs, identifier@);
                    assert(bs[i as int]@.0 == identifier@);
                    lemma_scope_map_get(bs, i as int);
                }
                return Some(self.bindings[i].value.as_bytes());
            }
            i = i + 1;
        }
        None
    }

    /// The number of bindings in this scope.
    pub fn size(&self) -> (r: usize)
        requires
            self.inv(),
        ensures
            r == self@.bindings.dom().len(),
    {
        proof {
            lemma_scope_map_len(self.bindings@);
        }
        self.bindings.len()
    }

    /// Expands a value against this scope's own bindings (no chaining): the
    /// literal parts' bytes, with each variable replaced by its bound value,
    /// or by the empty byte sequence when unbound.
    pub fn evaluate(&self, value: &Value) -> (r: Blob)
        requires
            self.inv(),
        ensures
            r@ == eval_parts(self@.bindings, value@),
    {
        let ghost m = self@.bindings;
        let ghost pv = value@;
        let mut builder = Builder::new();
        let mut i: usize = 0;
        proof {
            assert(pv.subrange(0, 0) =~= Seq::<PartView>::empty());
        }
        while i < value.value.parts.len()
            invariant
                self.inv(),
                m == self@.bindings,
                pv == value@,
                pv.len() == value.value.parts@.len(),
                0 <= i <= pv.len(),
                builder@ == eval_parts(m, pv.subrange(0, i as int)),
            decreases pv.len() - i,
        {
            proof {
                assert(pv.subrange(0, i + 1).drop_last() =~= pv.subrange(0, i as int));
                assert(pv.subrange(0, i + 1).last() == pv[i as int]);
            }
            match &value.value.parts[i] {
                lex::ValuePart::Text(text) => {
                    builder.extend(text.as_bytes());
                },
                lex::ValuePart::Variable(variable) => {
                    match self.get(*variable) {
                        Some(text) => {
                            builder.extend(text);
                        },
                        None => {
                            proof {
                                assert(builder@ + Seq::<u8>::empty() =~= builder@);
                            }
                        },
                    }
                },
            }
            i = i + 1;
        }
        proof {
            assert(pv.subrange(0, pv.len() as int) =~= pv);
        }
        builder.blob()
    }
}

/// A name in a binding map corresponds exactly to a binding in the list.
proof fn lemma_scope_map_contains(bs: Seq<Binding>, k: int)
    ensures
        scope_map(bs).dom().contains(k) <==> (exists|i: int|
            0 <= i < bs.len() && (#[trigger] bs[i])@.0 == k),
    decreases bs.len(),
{
    if bs.len() > 0 {
        let pre = bs.drop_last();
        lemma_scope_map_contains(pre, k);
        if exists|i: int| 0 <= i < pre.len() && (#[trigger] pre[i])@.0 == k {
            let i = choose|i: int| 0 <= i < pre.len() && (#[trigger] pre[i])@.0 == k;
            assert(bs[i]@.0 == k);
        }
        if bs.last()@.0 == k {
            assert(bs[bs.len() - 1]@.0 == k);
        }
        if exists|i: int| 0 <= i < bs.len() && (#[trigger] bs[i])@.0 == k {
            let i = choose|i: int| 0 <= i < bs.len() && (#[trigger] bs[i])@.0 == k;
            if i < bs.len() - 1 {
                assert(pre[i]@.0 == k);
            }
        }
    }
}

/// With pairwise distinct names, each binding is what its name maps to.
proof fn lemma_scope_map_get(bs: Seq<Binding>, i: int)
    requires
        0 <= i < bs.len(),
        forall|p: int, q: int|
            0 <= p < q < bs.len() ==> (#[trigger] bs[p])@.0 != (#[trigger] bs[q])@.0,
    ensures
        scope_map(bs).dom().contains(bs[i]@.0),
        scope_map(bs)[bs[i]@.0] == bs[i]@.1,
    decreases bs.len(),
{
    let pre = bs.drop_last();
    if i == bs.len() - 1 {
    } else {
        assert(forall|p: int, q: int|
            0 <= p < q < pre.len() ==> (#[trigger] pre[p])@.0 != (#[trigger] pre[q])@.0);
        lemma_scope_map_get(pre, i);
        assert(bs[i]@.0 != bs.last()@.0);
    }
}

/// Replacing the binding that holds a name updates the map at that name.
proof fn lemma_scope_map_update(bs: Seq<Binding>, i: int, b: Binding)
    requires
        0 <= i < bs.len(),
        bs[i]@.0 == b@.0,
        forall|p: int, q: int|
            0 <= p < q < bs.len() ==> (#[trigger] bs[p])@.0 != (#[trigger] bs[q])@.0,
    ensures
        scope_map(bs.update(i, b)) == scope_map(bs).insert(b@.0, b@.1),
    decreases bs.len(),
{
    let pre = bs.drop_last();
    if i == bs.len() - 1 {
        assert(bs.update(i, b).drop_last() =~= pre);
        assert(bs.update(i, b).last() == b);
        assert(scope_map(pre).insert(bs.last()@.0, bs.last()@.1).insert(b@.0, b@.1) =~= scope_map(
            pre,
        ).insert(b@.0, b@.1));
    } else {
        assert(forall|p: int, q: int|
            0 <= p < q < pre.len() ==> (#[trigger] pre[p])@.0 != (#[trigger] pre[q])@.0);
        lemma_scope_map_update(pre, i, b);
        assert(bs.update(i, b).drop_last() =~= pre.update(i, b));
        assert(bs.update(i, b).last() == bs.last());
        assert(bs[i]@.0 != bs.last()@.0);
        assert(scope_map(pre).insert(b@.0, b@.1).insert(bs.last()@.0, bs.last()@.1) =~= scope_map(
            pre,
        ).insert(bs.last()@.0, bs.last()@.1).insert(b@.0, b@.1));
    }
}

/// With pairwise distinct names, the map has exactly one entry per binding.
proof fn lemma_scope_map_len(bs: Seq<Binding>)
    requires
        forall|p: int, q: int|
            0 <= p < q < bs.len() ==> (#[trigger] bs[p])@.0 != (#[trigger] bs[q])@.0,
    ensures
        scope_map(bs).dom().finite(),
        scope_map(bs).dom().len() == bs.len(),
    decreases bs.len(),
{
    if bs.len() == 0 {
        assert(scope_map(bs).dom() =~= Set::<int>::empty());
    } else {
        let pre = bs.drop_last();
        assert(forall|p: int, q: int|
            0 <= p < q < pre.len() ==> (#[trigger] pre[p])@.0 != (#[trigger] pre[q])@.0);
        lemma_scope_map_len(pre);
        lemma_scope_map_contains(pre, bs.last()@.0);
        assert(forall|i: int| 0 <= i < pre.len() ==> (#[trigger] pre[i])@.0 != bs.last()@.0);
        assert(!scope_map(pre).dom().contains(bs.last()@.0));
        assert(scope_map(bs).dom() =~= scope_map(pre).dom().insert(bs.last()@.0));
    }
}


/// An unexpanded value, as the lexer produced it.
pub struct Value {
    value: lex::Value,
}

impl View for Value {
    type V = Seq<PartView>;

    closed spec fn view(&self) -> Seq<PartView> {
        self.value@
    }
}

impl Value {
    pub fn new(value: lex::Value) -> (v: Value)
        ensures
            v@ == value@,
    {
        Value { value }
    }
}

/// An unexpanded target: the same shape as a value, used for space-separated
/// target lists.
pub struct Target {
    value: lex::Value,
}

impl View for Target {
    type V = Seq<PartView>;

    closed spec fn view(&self) -> Seq<PartView> {
        self.value@
    }
}

impl Target {
    pub fn new(value: lex::Value) -> (t: Target)
        ensures
            t@ == value@,
    {
        Target { value }
    }
}

/// The views of a sequence of targets, in order.
pub open spec fn targets_view(ts: Seq<Target>) -> Seq<Seq<PartView>> {
    Seq::new(ts.len(), |i: int| ts[i]@)
}

/// Pushing a target commutes with taking target views.
pub proof fn lemma_targets_view_push(ts: Seq<Target>, t: Target)
    ensures
        targets_view(ts.push(t)) == targets_view(ts).push(t@),
{
    assert(targets_view(ts.push(t)) =~= targets_view(ts).push(t@));
}

/// The mathematical shape of one declaration.
pub enum DeclarationView {
    Rule { name: int, scope: int },
    Build {
        outputs: Seq<Seq<PartView>>,
        implicit_outputs: Seq<Seq<PartView>>,
        rule: int,
        inputs: Seq<Seq<PartView>>,
        implicit_inputs: Seq<Seq<PartView>>,
        order_inputs: Seq<Seq<PartView>>,
        scope: int,
    },
    Default { targets: Seq<Seq<PartView>> },
    Pool { name: int, depth: int },
}

/// A rule declaration: a name and the scope of its indented bindings.
pub struct Rule {
    name: Identifier,
    scope: Id<Scope>,
}

impl View for Rule {
    type V = DeclarationView;

    closed spec fn view(&self) -> DeclarationView {
        DeclarationView::Rule { name: self.name@, scope: self.scope@ }
    }
}

impl Rule {
    pub fn new(name: Identifier, scope: Id<Scope>) -> (r: Rule)
        ensures
            r@ == (DeclarationView::Rule { name: name@, scope: scope@ }),
    {
        Rule { name, scope }
    }
}

/// A build edge: outputs, implicit outputs, a rule name, inputs, implicit
/// inputs, order-only inputs, and the scope of its indented bindings.
pub struct Build {
    outputs: Vec<Target>,
    implicit_outputs: Vec<Target>,
    rule: Identifier,
    inputs: Vec<Target>,
    implicit_inputs: Vec<Target>,
    order_inputs: Vec<Target>,
    scope: Id<Scope>,
}

impl View for Build {
    type V = DeclarationView;

    closed spec fn view(&self) -> DeclarationView {
        DeclarationView::Build {
            outputs: targets_view(self.outputs@),
            implicit_outputs: targets_view(self.implicit_outputs@),
            rule: self.rule@,
            inputs: targets_view(self.inputs@),
            implicit_inputs: targets_view(self.implicit_inputs@),
            order_inputs: targets_view(self.order_inputs@),
            scope: self.scope@,
        }
    }
}

impl Build {
    pub fn new(
        outputs: Vec<Target>,
        implicit_outputs: Vec<Target>,
        rule: Identifier,
        inputs: Vec<Target>,
        implicit_inputs: Vec<Target>,
        order_inputs: Vec<Target>,
        scope: Id<Scope>,
    ) -> (b: Build)
        ensures
            b@ == (DeclarationView::Build {
                outputs: targets_view(outputs@),
                implicit_outputs: targets_view(implicit_outputs@),
                rule: rule@,
                inputs: targets_view(inputs@),
                implicit_inputs: targets_view(implicit_inputs@),
                order_inputs: targets_view(order_inputs@),
                scope: scope@,
            }),
    {
        Build { outputs, implicit_outputs, rule, inputs, implicit_inputs, order_inputs, scope }
    }
}

/// A default declaration: the targets built when none are named.
pub struct Default {
    targets: Vec<Target>,
}

impl View for Default {
    type V = DeclarationView;

    closed spec fn view(&self) -> DeclarationView {
        DeclarationView::Default { targets: targets_view(self.targets@) }
    }
}

impl Default {
    pub fn new(targets: Vec<Target>) -> (d: Default)
        ensures
            d@ == (DeclarationView::Default { targets: targets_view(targets@) }),
    {
        Default { targets }
    }
}

/// A pool declaration: a name and a non-negative depth.
pub struct Pool {
    name: Identifier,
    depth: usize,
}

impl View for Pool {
    type V = DeclarationView;

    closed spec fn view(&self) -> DeclarationView {
        DeclarationView::Pool { name: self.name@, depth: self.depth as int }
    }
}

impl Pool {
    pub fn new(name: Identifier, depth: usize) -> (p: Pool)
        ensures
            p@ == (DeclarationView::Pool { name: name@, depth: depth as int }),
    {
        Pool { name, depth }
    }
}

/// One declaration of the file-level grammar.
pub enum Declaration {
    Rule(Rule),
    Build(Build),
    Default(Default),
    Pool(Pool),
}

impl View for Declaration {
    type V = DeclarationView;

    closed spec fn view(&self) -> DeclarationView {
        match self {
            Declaration::Rule(r) => r@,
            Declaration::Build(b) => b@,
            Declaration::Default(d) => d@,
            Declaration::Pool(p) => p@,
        }
    }
}

/// The views of a sequence of declarations, in order.
pub open spec fn decls_view(ds: Seq<Declaration>) -> Seq<DeclarationView> {
    Seq::new(ds.len(), |i: int| ds[i]@)
}

/// An append-only ordered sequence of declarations, in source order.
pub struct Declarations {
    declarations: Vec<Declaration>,
}

impl View for Declarations {
    type V = Seq<DeclarationView>;

    closed spec fn view(&self) -> Seq<DeclarationView> {
        decls_view(self.declarations@)
    }
}

impl Declarations {
    /// An empty declaration list.
    pub fn new() -> (d: Declarations)
        ensures
            d@ == Seq::<DeclarationView>::empty(),
    {
        let d = Declarations { declarations: Vec::new() };
        proof {
            assert(d@ =~= Seq::<DeclarationView>::empty());
        }
        d
    }

    /// Appends a rule declaration; never fails.
    pub fn add_rule(&mut self, rule: Rule) -> (r: Result<(), AstError>)
        ensures
            final(self)@ == old(self)@.push(rule@),
            r matches Ok(()),
    {
        proof {
            assert(decls_view(self.declarations@.push(Declaration::Rule(rule))) =~= self@.push(
                rule@,
            ));
        }
        self.declarations.push(Declaration::Rule(rule));
        Ok(())
    }

    /// Appends a build declaration; never fails.
    pub fn add_build(&mut self, build: Build) -> (r: Result<(), AstError>)
        ensures
            final(self)@ == old(self)@.push(build@),
            r matches Ok(()),
    {
        proof {
            assert(decls_view(self.declarations@.push(Declaration::Build(build))) =~= self@.push(
                build@,
            ));
        }
        self.declarations.push(Declaration::Build(build));
        Ok(())
    }

    /// Appends a default declaration; never fails.
    pub fn add_default(&mut self, default: Default) -> (r: Result<(), AstError>)
        ensures
            final(self)@ == old(self)@.push(default@),
            r matches Ok(()),
    {
        proof {
            assert(decls_view(self.declarations@.push(Declaration::Default(default)))
                =~= self@.push(default@));
        }
        self.declarations.push(Declaration::Default(default));
        Ok(())
    }

    /// Appends a pool declaration; never fails.
    pub fn add_pool(&mut self, pool: Pool) -> (r: Result<(), AstError>)
        ensures
            final(self)@ == old(self)@.push(pool@),
            r matches Ok(()),
    {
        proof {
            assert(decls_view(self.declarations@.push(Declaration::Pool(pool))) =~= self@.push(
                pool@,
            ));
        }
        self.declarations.push(Declaration::Pool(pool));
        Ok(())
    }

    /// The number of declarations so far.
    pub fn count(&self) -> (r: usize)
        ensures
            r == self@.len(),
    {
        self.declarations.len()
    }
}

/// A scope's parent, when it has one, stands earlier in the store.
pub open spec fn scopes_wf_view(ss: Seq<ScopeView>) -> bool {
    forall|i: int|
        0 <= i < ss.len() ==> match (#[trigger] ss[i]).parent {
            Some(p) => 0 <= p < i,
            None => true,
        }
}

/// Chained lookup: the name's value in scope `i`, else in its parent chain.
pub open spec fn chain_lookup(ss: Seq<ScopeView>, i: int, sym: int) -> Option<Seq<u8>>
    decreases i,
    when 0 <= i < ss.len() && scopes_wf_view(ss)
{
    if ss[i].bindings.dom().contains(sym) {
        Some(ss[i].bindings[sym])
    } else {
        match ss[i].parent {
            Some(p) => chain_lookup(ss, p, sym),
            None => None,
        }
    }
}

/// An indexed store of scopes with one designated top (file-level) scope.
/// The top scope is created empty and parentless; every later scope's parent
/// is the top scope.
pub struct Scopes {
    arena: Arena<Scope>,
    top: Id<Scope>,
}

/// The views of a sequence of scopes, in order.
pub open spec fn scopes_view(a: Seq<Scope>) -> Seq<ScopeView> {
    Seq::new(a.len(), |i: int| a[i]@)
}

/// Updating one scope updates one view.
pub broadcast proof fn lemma_scopes_view_update(a: Seq<Scope>, i: int, s: Scope)
    requires
        0 <= i < a.len(),
    ensures
        #[trigger] scopes_view(a.update(i, s)) == scopes_view(a).update(i, s@),
{
    assert(scopes_view(a.update(i, s)) =~= scopes_view(a).update(i, s@));
}

impl View for Scopes {
    type V = Seq<ScopeView>;

    closed spec fn view(&self) -> Seq<ScopeView> {
        scopes_view(self.arena@)
    }
}

impl Scopes {
    /// The top scope's index.
    pub closed spec fn spec_top(&self) -> int {
        self.top@
    }

    /// The store holds at least the top scope, at index 0 and parentless;
    /// every scope's names are distinct and every parent stands earlier.
    pub closed spec fn wf(&self) -> bool {
        &&& self.arena@.len() >= 1
        &&& self.top@ == 0
        &&& self@[0].parent is None
        &&& forall|i: int| 0 <= i < self.arena@.len() ==> (#[trigger] self.arena@[i]).inv()
        &&& scopes_wf_view(self@)
    }

    /// What a well-formed store guarantees, in terms of its view.
    pub proof fn lemma_wf(&self)
        requires
            self.wf(),
        ensures
            self@.len() >= 1,
            self.spec_top() == 0,
            self@[0].parent is None,
            scopes_wf_view(self@),
    {
    }

    /// What well-formedness guarantees, available wherever `wf()` appears.
    pub broadcast proof fn lemma_wf_auto(s: Scopes)
        requires
            #[trigger] s.wf(),
        ensures
            s@.len() >= 1,
            s.spec_top() == 0,
            s@[0].parent is None,
            scopes_wf_view(s@),
    {
    }

    /// A store holding only the empty, parentless top scope.
    pub fn new() -> (s: Scopes)
        ensures
            s.wf(),
            s@ == seq![ScopeView { bindings: Map::<int, Seq<u8>>::empty(), parent: None }],
            s.spec_top() == 0,
    {
        let mut arena = Arena::new();
        let top = arena.insert(Scope::empty(None));
        let s = Scopes { arena, top };
        proof {
            assert(s@ =~= seq![
                ScopeView { bindings: Map::<int, Seq<u8>>::empty(), parent: None },
            ]);
        }
        s
    }

    /// Allocates a new scope holding the given bindings, with the top scope
    /// as its parent; a duplicate name among the bindings fails with
    /// [`AstError::DuplicateBinding`] and leaves the store unchanged.
    pub fn new_scope(&mut self, bindings: Vec<Binding>) -> (r: Result<Id<Scope>, AstError>)
        requires
            old(self).wf(),
        ensures
            final(self).wf(),
            final(self).spec_top() == old(self).spec_top(),
            match fold_bindings(bindings_view(bindings@), Map::empty(), 0) {
                Ok(m) => {
                    &&& r matches Ok(id)
                    &&& id@ == old(self)@.len()
                    &&& final(self)@ == old(self)@.push(
                        ScopeView { bindings: m, parent: Some(0int) },
                    )
                },
                Err(e) => {
                    &&& r matches Err(e2) && e2 == e
                    &&& *final(self) == *old(self)
                },
            },
    {
        match Scope::new(bindings, Some(self.top)) {
            Ok(scope) => {
                let ghost sv = scope@;
                let id = self.arena.insert(scope);
                proof {
                    assert(self@ =~= old(self)@.push(sv));
                }
                Ok(id)
            },
            Err(e) => Err(e),
        }
    }

    /// The handle of the top (file-level) scope.
    pub fn top(&self) -> (r: Id<Scope>)
        ensures
            r@ == self.spec_top(),
            self.wf() ==> r@ == 0,
    {
        self.top
    }

    /// Borrows the scope a handle denotes.
    pub fn get_scope(&self, id: Id<Scope>) -> (r: &Scope)
        requires
            self.wf(),
            0 <= id@ < self@.len(),
        ensures
            r@ == self@[id@],
            r.inv(),
    {
        self.arena.get(id)
    }

    /// Mutably borrows the scope a handle denotes. The store stays
    /// well-formed as long as the caller leaves the scope's names distinct
    /// and its parent unchanged.
    pub fn get_scope_mut(&mut self, id: Id<Scope>) -> (r: &mut Scope)
        requires
            old(self).wf(),
            0 <= id@ < old(self)@.len(),
        ensures
            *r == old(self).scope_at(id@),
            r@ == old(self)@[id@],
            r.inv(),
            final(self)@ == old(self)@.update(id@, final(r)@),
            final(self).spec_top() == old(self).spec_top(),
            (final(r).inv() && final(r)@.parent == old(self)@[id@].parent) ==> final(self).wf(),
    {
        broadcast use lemma_scopes_view_update;

        self.arena.get_mut(id)
    }

    /// The scope stored at an index.
    pub closed spec fn scope_at(&self, i: int) -> Scope {
        self.arena@[i]
    }

    /// Chained lookup: the name's value in the given scope, else in its
    /// parent chain, as [`chain_lookup`] describes.
    pub fn get(&self, id: Id<Scope>, identifier: Identifier) -> (r: Option<&[u8]>)
        requires
            self.wf(),
            0 <= id@ < self@.len(),
        ensures
            match r {
                Some(v) => chain_lookup(self@, id@, identifier@) == Some(v@),
                None => chain_lookup(self@, id@, identifier@) is None,
            },
    {
        let mut cur = id;
        loop
            invariant
                self.wf(),
                0 <= cur@ < self@.len(),
                chain_lookup(self@, id@, identifier@) == chain_lookup(self@, cur@, identifier@),
            decreases cur@,
        {
            let scope = self.get_scope(cur);
            match scope.get(identifier) {
                Some(value) => {
                    return Some(value);
                },
                None => {
                    match scope.parent {
                        Some(parent) => {
                            cur = parent;
                        },
                        None => {
                            return None;
                        },
                    }
                },
            }
        }
    }
}

/// The mathematical shape of a parsed file: its declarations in source
/// order, and its scope store.
pub struct FileView {
    pub declarations: Seq<DeclarationView>,
    pub scopes: Seq<ScopeView>,
}

/// A parsed file: one declaration list and one scope store.
pub struct File {
    declarations: Declarations,
    scopes: Scopes,
}

impl View for File {
    type V = FileView;

    closed spec fn view(&self) -> FileView {
        FileView { declarations: self.declarations@, scopes: self.scopes@ }
    }
}

impl File {
    pub fn new(declarations: Declarations, scopes: Scopes) -> (f: File)
        ensures
            f@.declarations == declarations@,
            f@.scopes == scopes@,
    {
        File { declarations, scopes }
    }

    /// The file's declarations, in source order.
    pub fn declarations(&self) -> (r: &Declarations)
        ensures
            r@ == self@.declarations,
    {
        &self.declarations
    }

    /// Mutable access to the file's declarations.
    pub fn declarations_mut(&mut self) -> (r: &mut Declarations)
        ensures
            *r == old(self).decls_at(),
            r@ == old(self)@.declarations,
            final(self)@.declarations == final(r)@,
            final(self)@.scopes == old(self)@.scopes,
    {
        &mut self.declarations
    }

    /// The declaration list itself.
    pub closed spec fn decls_at(&self) -> Declarations {
        self.declarations
    }
}

/// Scope chaining. For a child scope whose parent is the top scope: a name
/// bound in the child resolves to the child's own value; a name bound only
/// in the top scope is visible from the child through the chain; a name
/// bound in neither is absent.
pub proof fn lemma_scope_chaining(ss: Seq<ScopeView>, c: int, sym: int)
    requires
        scopes_wf_view(ss),
        0 < c < ss.len(),
        ss[c].parent == Some(0int),
    ensures
        ss[c].bindings.dom().contains(sym) ==> chain_lookup(ss, c, sym) == Some(
            ss[c].bindings[sym],
        ),
        (!ss[c].bindings.dom().contains(sym) && ss[0].bindings.dom().contains(sym))
            ==> chain_lookup(ss, c, sym) == Some(ss[0].bindings[sym]),
        (!ss[c].bindings.dom().contains(sym) && !ss[0].bindings.dom().contains(sym) && ss[0].parent
            is None) ==> chain_lookup(ss, c, sym) is None,
{
    if !ss[c].bindings.dom().contains(sym) {
        assert(chain_lookup(ss, c, sym) == chain_lookup(ss, 0, sym));
    }
}

/// Duplicate bindings. Folding a binding list into an empty scope succeeds
/// when all names are pairwise distinct, and fails with
/// [`AstError::DuplicateBinding`] when two bindings share a name.
pub proof fn lemma_duplicate_binding(bs: Seq<(int, Seq<u8>)>)
    ensures
        (forall|p: int, q: int|
            0 <= p < q < bs.len() ==> (#[trigger] bs[p]).0 != (#[trigger] bs[q]).0)
            ==> fold_bindings(bs, Map::empty(), 0) is Ok,
        (exists|p: int, q: int|
            0 <= p < q < bs.len() && (#[trigger] bs[p]).0 == (#[trigger] bs[q]).0)
            ==> fold_bindings(bs, Map::empty(), 0) == Err::<Map<int, Seq<u8>>, AstError>(
            AstError::DuplicateBinding,
        ),
{
    if forall|p: int, q: int|
        0 <= p < q < bs.len() ==> (#[trigger] bs[p]).0 != (#[trigger] bs[q]).0 {
        lemma_fold_distinct_ok(bs, Map::empty(), 0);
    }
    if exists|p: int, q: int|
        0 <= p < q < bs.len() && (#[trigger] bs[p]).0 == (#[trigger] bs[q]).0 {
        let (p, q) = choose|p: int, q: int|
            0 <= p < q < bs.len() && (#[trigger] bs[p]).0 == (#[trigger] bs[q]).0;
        lemma_fold_dup_err(bs, Map::empty(), 0, p, q);
    }
}

/// Folding succeeds when no remaining name is already bound or repeated.
proof fn lemma_fold_distinct_ok(bs: Seq<(int, Seq<u8>)>, m: Map<int, Seq<u8>>, i: int)
    requires
        0 <= i <= bs.len(),
        forall|p: int, q: int|
            i <= p < q < bs.len() ==> (#[trigger] bs[p]).0 != (#[trigger] bs[q]).0,
        forall|q: int| i <= q < bs.len() ==> !m.dom().contains((#[trigger] bs[q]).0),
    ensures
        fold_bindings(bs, m, i) is Ok,
    decreases bs.len() - i,
{
    if i < bs.len() {
        lemma_fold_distinct_ok(bs, m.insert(bs[i].0, bs[i].1), i + 1);
    }
}

/// Folding fails with a duplicate-binding error when two remaining bindings
/// share a name.
proof fn lemma_fold_dup_err(bs: Seq<(int, Seq<u8>)>, m: Map<int, Seq<u8>>, i: int, p: int, q: int)
    requires
        0 <= i <= bs.len(),
        i <= p < q < bs.len(),
        bs[p].0 == bs[q].0,
    ensures
        fold_bindings(bs, m, i) == Err::<Map<int, Seq<u8>>, AstError>(AstError::DuplicateBinding),
    decreases bs.len() - i,
{
    if m.dom().contains(bs[i].0) {
    } else if p == i {
        lemma_fold_contains_err(bs, m.insert(bs[i].0, bs[i].1), i + 1, q);
    } else {
        lemma_fold_dup_err(bs, m.insert(bs[i].0, bs[i].1), i + 1, p, q);
    }
}

/// Folding fails with a duplicate-binding error when some remaining name is
/// already bound.
proof fn lemma_fold_contains_err(bs: Seq<(int, Seq<u8>)>, m: Map<int, Seq<u8>>, i: int, q: int)
    requires
        0 <= i <= bs.len(),
        i <= q < bs.len(),
        m.dom().contains(bs[q].0),
    ensures
        fold_bindings(bs, m, i) == Err::<Map<int, Seq<u8>>, AstError>(AstError::DuplicateBinding),
    decreases bs.len() - i,
{
    if m.dom().contains(bs[i].0) {
    } else {
        lemma_fold_contains_err(bs, m.insert(bs[i].0, bs[i].1), i + 1, q);
    }
}

/// Expanding a reference to an unbound variable contributes nothing: the
/// expansion with the reference equals the expansion without it.
pub proof fn lemma_unbound_expands_empty(m: Map<int, Seq<u8>>, parts: Seq<PartView>, sym: int)
    requires
        !m.dom().contains(sym),
    ensures
        eval_parts(m, parts.push(PartView::Variable(sym))) == eval_parts(m, parts),
{
    assert(parts.push(PartView::Variable(sym)).drop_last() =~= parts);
    assert(eval_parts(m, parts) + Seq::<u8>::empty() =~= eval_parts(m, parts));
}

} // verus!
