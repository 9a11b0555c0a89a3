//! A string-interning table: deduplicates byte sequences into small integer
//! symbols, assigned in first-occurrence order.

use vstd::prelude::*;

use crate::blob::Blob;

verus! {

/// An interned name, abstracted as its ordinal in the table that produced
/// it. Two symbols from one table are equal iff their byte content is equal.
#[derive(Clone, Copy, Debug, PartialEq, Eq, Hash, Structural)]
pub struct Symbol(usize);

impl View for Symbol {
    type V = int;

    closed spec fn view(&self) -> int {
        self.0 as int
    }
}

/// Two symbols are equal exactly when their ordinals are equal.
pub proof fn lemma_symbol_eq(a: Symbol, b: Symbol)
    ensures
        (a == b) <==> (a@ == b@),
{
}

/// The index of the first entry of `t` equal to `name`, scanning from `i`.
pub open spec fn intern_find(t: Seq<Seq<u8>>, name: Seq<u8>, i: int) -> Option<int>
    decreases t.len() - i,
    when 0 <= i <= t.len()
{
    if i == t.len() {
        None
    } else if t[i] == name {
        Some(i)
    } else {
        intern_find(t, name, i + 1)
    }
}

/// The symbol that interning `name` into table `t` yields: the first index
/// holding `name`, or the next fresh ordinal.
pub open spec fn intern_sym(t: Seq<Seq<u8>>, name: Seq<u8>) -> int {
    match intern_find(t, name, 0) {
        Some(j) => j,
        None => t.len() as int,
    }
}

/// The table after interning `name` into `t`: unchanged if already present,
/// else extended by `name`.
pub open spec fn intern_table(t: Seq<Seq<u8>>, name: Seq<u8>) -> Seq<Seq<u8>> {
    match intern_find(t, name, 0) {
        Some(_) => t,
        None => t.push(name),
    }
}

/// A table of interned names, abstracted as the sequence of distinct byte
/// sequences seen so far, in first-occurrence order; a symbol is an index
/// into that sequence.
pub struct Table {
    ids: Vec<Blob>,
}

impl View for Table {
    type V = Seq<Seq<u8>>;

    closed spec fn view(&self) -> Seq<Seq<u8>> {
        Seq::new(self.ids@.len(), |i: int| self.ids@[i]@)
    }
}

/// Compares two byte slices for content equality.
pub(crate) fn bytes_eq(a: &[u8], b: &[u8]) -> (r: bool)
    ensures
        r == (a@ == b@),
{
    if a.len() != b.len() {
        return false;
    }
    let mut i: usize = 0;
    while i < a.len()
        invariant
            a@.len() == b@.len(),
            0 <= i <= a@.len(),
            forall|j: int| 0 <= j < i ==> a@[j] == b@[j],
        decreases a@.len() - i,
    {
        if *vstd::slice::slice_index_get(a, i) != *vstd::slice::slice_index_get(b, i) {
            return false;
        }
        i = i + 1;
    }
    proof {
        assert(a@ =~= b@);
    }
    true
}

impl Table {
    /// A table with no names interned yet.
    pub fn new() -> (t: Table)
        ensures
            t@ == Seq::<Seq<u8>>::empty(),
    {
        let t = Table { ids: Vec::new() };
        proof {
            assert(t@ =~= Seq::<Seq<u8>>::empty());
        }
        t
    }

    /// Interns `bytes`: returns the existing symbol if the content was seen
    /// before, else assigns the next ordinal and retains an owned copy.
    pub fn insert(&mut self, bytes: &[u8]) -> (sym: Symbol)
        ensures
            sym@ == intern_sym(old(self)@, bytes@),
            final(self)@ == intern_table(old(self)@, bytes@),
    {
        let ghost t = self@;
        let mut i: usize = 0;
        while i < self.ids.len()
            invariant
                self@ == t,
                self@.len() == self.ids@.len(),
                0 <= i <= t.len(),
                intern_find(t, bytes@, 0) == intern_find(t, bytes@, i as int),
            decreases t.len() - i,
        {
            if bytes_eq(self.ids[i].as_bytes(), bytes) {
                proof {
                    assert(intern_find(t, bytes@, i as int) == Some(i as int));
                }
                return Symbol(i);
            }
            i = i + 1;
        }
        proof {
            assert(intern_find(t, bytes@, t.len() as int) == None::<int>);
        }
        let sym = Symbol(self.ids.len());
        self.ids.push(Blob::new(bytes));
        proof {
            assert(self@ =~= t.push(bytes@));
        }
        sym
    }
}

/// Every sequence is a prefix of itself.
pub proof fn lemma_prefix_refl<A>(a: Seq<A>)
    ensures
        a.is_prefix_of(a),
{
    assert(a.subrange(0, a.len() as int) =~= a);
}

/// Being a prefix is transitive.
pub proof fn lemma_prefix_trans<A>(a: Seq<A>, b: Seq<A>, c: Seq<A>)
    requires
        a.is_prefix_of(b),
        b.is_prefix_of(c),
    ensures
        a.is_prefix_of(c),
{
    assert forall|i: int| 0 <= i < a.len() implies a[i] == c.subrange(0, a.len() as int)[i] by {
        assert(a[i] == b.subrange(0, a.len() as int)[i]);
        assert(b[i] == c.subrange(0, b.len() as int)[i]);
    }
    assert(a =~= c.subrange(0, a.len() as int));
}

/// Interning laws. A table only ever grows, by this interning step; a name's
/// symbol never changes once assigned; distinct content gets distinct,
/// previously unused symbols; ordinals follow first-occurrence order.
///
/// Interning a name yields a table that the old table is a prefix of, and
/// the symbol indexes the name in the new table.
pub proof fn lemma_intern_extends(t: Seq<Seq<u8>>, name: Seq<u8>)
    ensures
        t.is_prefix_of(intern_table(t, name)),
        0 <= intern_sym(t, name) < intern_table(t, name).len(),
        intern_table(t, name)[intern_sym(t, name)] == name,
{
    lemma_intern_find_some(t, name, 0);
    assert(t.is_prefix_of(t));
    if intern_find(t, name, 0) is None {
        assert(t =~= t.push(name).subrange(0, t.len() as int));
    }
}

/// Whenever `intern_find` answers, the answer indexes an occurrence of the
/// name, and no earlier position from `i` on holds the name.
proof fn lemma_intern_find_some(t: Seq<Seq<u8>>, name: Seq<u8>, i: int)
    requires
        0 <= i <= t.len(),
    ensures
        match intern_find(t, name, i) {
            Some(j) => i <= j < t.len() && t[j] == name && (forall|k: int|
                i <= k < j ==> t[k] != name),
            None => forall|k: int| i <= k < t.len() ==> t[k] != name,
        },
    decreases t.len() - i,
{
    if i < t.len() && t[i] != name {
        lemma_intern_find_some(t, name, i + 1);
    }
}

/// The symbol of a name already present is its first occurrence; a fresh
/// name receives the next unused ordinal, the table's current length.
pub proof fn lemma_intern_first_occurrence(t: Seq<Seq<u8>>, name: Seq<u8>)
    ensures
        (exists|j: int| 0 <= j < t.len() && t[j] == name) ==> {
            &&& t[intern_sym(t, name)] == name
            &&& forall|k: int| 0 <= k < intern_sym(t, name) ==> t[k] != name
            &&& intern_table(t, name) == t
        },
        !(exists|j: int| 0 <= j < t.len() && t[j] == name) ==> {
            &&& intern_sym(t, name) == t.len()
            &&& intern_table(t, name) == t.push(name)
        },
{
    lemma_intern_find_some(t, name, 0);
}

/// Interning byte-equal content always yields the same symbol, even after
/// the table has grown in between: if `t1` assigned `name` its symbol and
/// `t2` extends `t1`, then `t2` assigns `name` that same symbol.
pub proof fn lemma_intern_stable(t1: Seq<Seq<u8>>, t2: Seq<Seq<u8>>, name: Seq<u8>)
    requires
        intern_table(t1, name).is_prefix_of(t2),
    ensures
        intern_sym(t2, name) == intern_sym(t1, name),
        intern_table(t2, name) == t2,
    decreases t1.len(),
{
    lemma_intern_find_some(t1, name, 0);
    lemma_intern_find_some(t2, name, 0);
    lemma_intern_extends(t1, name);
    let s1 = intern_sym(t1, name);
    assert(t2[s1] == name);
    match intern_find(t2, name, 0) {
        Some(j) => {
            if j < s1 {
                assert(t1[j] == name);
            }
        },
        None => {},
    }
}

/// Interning distinct content always yields distinct symbols: after `name_a`
/// is interned, interning a different `name_b` (into that table or any
/// extension of it) yields a different symbol.
pub proof fn lemma_intern_distinct(t: Seq<Seq<u8>>, t2: Seq<Seq<u8>>, name_a: Seq<u8>, name_b: Seq<u8>)
    requires
        name_a != name_b,
        intern_table(t, name_a).is_prefix_of(t2),
    ensures
        intern_sym(t2, name_b) != intern_sym(t, name_a),
{
    let sa = intern_sym(t, name_a);
    lemma_intern_extends(t, name_a);
    assert(t2[sa] == name_a);
    lemma_intern_find_some(t2, name_b, 0);
    match intern_find(t2, name_b, 0) {
        Some(j) => {
            assert(t2[j] == name_b);
        },
        None => {
            assert(intern_sym(t2, name_b) == t2.len());
        },
    }
}

} // verus!
