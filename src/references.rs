use vstd::prelude::*;
use crate::replacements::{Replacement, ReplacementValue, Replacements, covered};
use crate::span::Span;

verus! {

/// A declared binding: the identity that semantic analysis gave it and the
/// span of its declaration.
#[derive(Clone, Copy, Debug, PartialEq, Eq, Structural)]
pub struct Symbol {
    pub id: u32,
    pub decl: Span,
}

/// How an occurrence uses its binding.
#[derive(Clone, Copy, Debug, PartialEq, Eq, Structural)]
pub struct ReferenceFlags {
    pub read: bool,
    pub write: bool,
}

/// One occurrence of a binding.
#[derive(Clone, Copy, Debug, PartialEq, Eq, Structural)]
pub struct Reference {
    pub flags: ReferenceFlags,
    pub span: Span,
}

/// Where an identifier occurrence stands, as far as write detection cares.
#[derive(Clone, Copy, Debug, PartialEq, Eq, Structural)]
pub enum RefSite {
    /// The object of a static member expression that is itself the target of
    /// an assignment (`obj.k = v`).
    AssignedMemberObject,
    /// The first argument of a call, with two or more arguments, to a
    /// recognised object-mutation function (`Object.assign(obj, ...)`).
    MutatingCallArgument,
    /// Anywhere else.
    Other,
}

/// What the write rule reads of an identifier occurrence's surroundings.
#[derive(Clone, Copy, Debug, PartialEq, Eq, Structural)]
pub enum OccurrenceShape {
    /// The object of a static member expression: whether the object is this
    /// very name, and whether the member expression is a simple assignment
    /// target.
    MemberObject { object_is_this_name: bool, member_is_simple_assignment_target: bool },
    /// An argument of a call: its position, the number of arguments, and
    /// whether the callee is `Object.assign`.
    CallArgument { index: usize, n_args: usize, callee_is_object_assign: bool },
    /// Anywhere else.
    Other,
}

/// The site of an occurrence: the object of an assigned member expression,
/// the first argument of an `Object.assign` call with two or more arguments,
/// or anywhere else.
pub open spec fn spec_site(o: OccurrenceShape) -> RefSite {
    match o {
        OccurrenceShape::MemberObject { object_is_this_name, member_is_simple_assignment_target } =>
            if object_is_this_name && member_is_simple_assignment_target {
            RefSite::AssignedMemberObject
        } else {
            RefSite::Other
        },
        OccurrenceShape::CallArgument { index, n_args, callee_is_object_assign } =>
            if callee_is_object_assign && n_args >= 2 && index == 0 {
            RefSite::MutatingCallArgument
        } else {
            RefSite::Other
        },
        OccurrenceShape::Other => RefSite::Other,
    }
}

/// The site of an occurrence, read from its shape.
pub fn site_of(o: OccurrenceShape) -> (r: RefSite)
    ensures
        r == spec_site(o),
{
    match o {
        OccurrenceShape::MemberObject { object_is_this_name, member_is_simple_assignment_target } => {
            if object_is_this_name && member_is_simple_assignment_target {
                RefSite::AssignedMemberObject
            } else {
                RefSite::Other
            }
        },
        OccurrenceShape::CallArgument { index, n_args, callee_is_object_assign } => {
            if callee_is_object_assign && n_args >= 2 && index == 0 {
                RefSite::MutatingCallArgument
            } else {
                RefSite::Other
            }
        },
        OccurrenceShape::Other => RefSite::Other,
    }
}

pub open spec fn site_writes(site: RefSite) -> bool {
    site is AssignedMemberObject || site is MutatingCallArgument
}

/// The flags of an occurrence: those that the analysis gave it, with a write
/// added where its site mutates the binding.
pub fn flags_at(base: ReferenceFlags, site: RefSite) -> (r: ReferenceFlags)
    ensures
        r.read == base.read,
        r.write == (base.write || site_writes(site)),
{
    match site {
        RefSite::AssignedMemberObject | RefSite::MutatingCallArgument => ReferenceFlags {
            read: base.read,
            write: true,
        },
        RefSite::Other => base,
    }
}

/// `a + b`, held at `u32::MAX`.
pub open spec fn sat_add(a: u32, b: int) -> u32 {
    if a + b > u32::MAX {
        u32::MAX
    } else {
        (a + b) as u32
    }
}

/// A reference inside the source range `from` of a `Span` entry, moved to the
/// same offset inside that entry's own span `to`.
pub open spec fn rehome(r: Reference, from: Span, to: Span) -> Reference {
    Reference {
        flags: r.flags,
        span: Span {
            start: sat_add(to.start, r.span.start - from.start),
            end: sat_add(to.start, r.span.end - from.start),
        },
    }
}

/// The copies of `r` that the `Span` entries among `entries` move.
pub open spec fn moved_copies(r: Reference, entries: Seq<Replacement>) -> Seq<Reference>
    decreases entries.len(),
{
    if entries.len() == 0 {
        Seq::empty()
    } else {
        let e = entries.last();
        let rest = moved_copies(r, entries.drop_last());
        match e.value {
            ReplacementValue::Span(from) => if from.spec_contains(r.span) {
                rest.push(rehome(r, from, e.span))
            } else {
                rest
            },
            _ => rest,
        }
    }
}

/// The moved copies of every reference of `refs`, in order.
pub open spec fn moved_all(refs: Seq<Reference>, entries: Seq<Replacement>) -> Seq<Reference>
    decreases refs.len(),
{
    if refs.len() == 0 {
        Seq::empty()
    } else {
        moved_all(refs.drop_last(), entries) + moved_copies(refs.last(), entries)
    }
}

/// No entry covers the reference.
pub open spec fn survives(entries: Seq<Replacement>) -> spec_fn(Reference) -> bool {
    |r: Reference| !covered(entries, r.span)
}

/// The references of one binding once the store's edits are applied: those
/// that no entry covers, then the moved copies.
pub open spec fn applied(refs: Seq<Reference>, entries: Seq<Replacement>) -> Seq<Reference> {
    refs.filter(survives(entries)) + moved_all(refs, entries)
}

/// A binding entry with no reference left once the edits are applied.
pub open spec fn dead_under(entries: Seq<Replacement>) -> spec_fn((Symbol, Vec<Reference>)) -> bool {
    |e: (Symbol, Vec<Reference>)| applied(e.1@, entries).len() == 0
}

/// Each binding appears once.
pub open spec fn unique_symbols(m: Seq<(Symbol, Vec<Reference>)>) -> bool {
    forall|i: int, j: int| 0 <= i < j < m.len() ==> (#[trigger] m[i]).0.id != (#[trigger] m[j]).0.id
}

fn add_saturating(a: u32, b: u32) -> (r: u32)
    ensures
        r == sat_add(a, b as int),
{
    if a as u64 + b as u64 > u32::MAX as u64 {
        u32::MAX
    } else {
        a + b
    }
}

/// The copies of `r` that the store's `Span` entries move.
fn moved_copies_of(r: &Reference, store: &Replacements) -> (out: Vec<Reference>)
    requires
        r.span.valid(),
    ensures
        out@ == moved_copies(*r, store.list@),
{
    let s = &store.list;
    let mut out: Vec<Reference> = Vec::new();
    let n = s.len();
    let mut i: usize = 0;
    while i < n
        invariant
            n == s@.len(),
            i <= n,
            r.span.valid(),
            out@ == moved_copies(*r, s@.subrange(0, i as int)),
        decreases n - i,
    {
        proof {
            assert(s@.subrange(0, i + 1).drop_last() =~= s@.subrange(0, i as int));
        }
        match &s[i].value {
            ReplacementValue::Span(from) => {
                if from.contains(&r.span) {
                    let to = s[i].span;
                    out.push(Reference {
                        flags: r.flags,
                        span: Span {
                            start: add_saturating(to.start, r.span.start - from.start),
                            end: add_saturating(to.start, r.span.end - from.start),
                        },
                    });
                }
            },
            _ => {},
        }
        i = i + 1;
    }
    assert(s@.subrange(0, n as int) =~= s@);
    out
}

/// The references of one binding once the store's edits are applied.
fn applied_refs(refs: &Vec<Reference>, store: &Replacements) -> (out: Vec<Reference>)
    requires
        forall|i: int| 0 <= i < refs@.len() ==> (#[trigger] refs@[i]).span.valid(),
    ensures
        out@ == applied(refs@, store.list@),
{
    let n = refs.len();
    let mut kept: Vec<Reference> = Vec::new();
    let mut moved: Vec<Reference> = Vec::new();
    let mut i: usize = 0;
    while i < n
        invariant
            n == refs@.len(),
            i <= n,
            forall|k: int| 0 <= k < refs@.len() ==> (#[trigger] refs@[k]).span.valid(),
            kept@ == refs@.subrange(0, i as int).filter(survives(store.list@)),
            moved@ == moved_all(refs@.subrange(0, i as int), store.list@),
        decreases n - i,
    {
        let r = refs[i];
        if !store.has(r.span) {
            kept.push(r);
        }
        let mut copies = moved_copies_of(&r, store);
        moved.append(&mut copies);
        proof {
            reveal(Seq::filter);
            let cur = refs@.subrange(0, i + 1);
            assert(cur.drop_last() =~= refs@.subrange(0, i as int));
            assert(cur.last() == r);
            let f = survives(store.list@);
            assert(cur.filter(f) == (if f(cur.last()) {
                cur.drop_last().filter(f).push(cur.last())
            } else {
                cur.drop_last().filter(f)
            }));
        }
        i = i + 1;
    }
    assert(refs@.subrange(0, n as int) =~= refs@);
    kept.append(&mut moved);
    kept
}

/// The occurrences of each binding, in the order they were recorded.
pub struct References {
    pub map: Vec<(Symbol, Vec<Reference>)>,
}

/// The references of the binding with the given id, as ghost data.
pub open spec fn refs_of(m: Seq<(Symbol, Vec<Reference>)>, id: u32) -> Option<Seq<Reference>> {
    if exists|i: int| 0 <= i < m.len() && (#[trigger] m[i]).0.id == id {
        let i = choose|i: int| 0 <= i < m.len() && (#[trigger] m[i]).0.id == id;
        Some(m[i].1@)
    } else {
        None
    }
}

impl References {
    pub open spec fn wf(&self) -> bool {
        &&& unique_symbols(self.map@)
        &&& forall|i: int, j: int|
            0 <= i < self.map@.len() && 0 <= j < (#[trigger] self.map@[i]).1@.len()
                ==> (#[trigger] self.map@[i].1@[j]).span.valid()
    }

    /// Drops every reference that an entry of `store` covers, and adds, for
    /// each reference inside the source range of a `Span` entry, a copy moved
    /// to the same offset inside that entry's span.
    pub fn apply_replacements(&mut self, store: &Replacements)
        requires
            old(self).wf(),
        ensures
            final(self).map@.len() == old(self).map@.len(),
            forall|i: int|
                0 <= i < final(self).map@.len() ==> {
                    &&& (#[trigger] final(self).map@[i]).0 == old(self).map@[i].0
                    &&& final(self).map@[i].1@ == applied(old(self).map@[i].1@, store.list@)
                },
    {
        let n = self.map.len();
        let mut out: Vec<(Symbol, Vec<Reference>)> = Vec::new();
        let mut i: usize = 0;
        while i < n
            invariant
                n == self.map@.len(),
                self.wf(),
                i <= n,
                out@.len() == i,
                forall|k: int|
                    0 <= k < i ==> {
                        &&& (#[trigger] out@[k]).0 == self.map@[k].0
                        &&& out@[k].1@ == applied(self.map@[k].1@, store.list@)
                    },
            decreases n - i,
        {
            let refs = applied_refs(&self.map[i].1, store);
            out.push((self.map[i].0, refs));
            i = i + 1;
        }
        self.map = out;
    }

    /// The bindings that would have no reference left once the edits of
    /// `store` are applied; `self` stays as it is.
    pub fn dead_after(&self, store: &Replacements) -> (r: Vec<Symbol>)
        requires
            self.wf(),
        ensures
            r@ == self.map@.filter(dead_under(store.list@)).map_values(
                |e: (Symbol, Vec<Reference>)| e.0,
            ),
    {
        let n = self.map.len();
        let mut out: Vec<Symbol> = Vec::new();
        let mut i: usize = 0;
        while i < n
            invariant
                n == self.map@.len(),
                self.wf(),
                i <= n,
                out@ == self.map@.subrange(0, i as int).filter(dead_under(store.list@)).map_values(
                    |e: (Symbol, Vec<Reference>)| e.0,
                ),
            decreases n - i,
        {
            let refs = applied_refs(&self.map[i].1, store);
            if refs.len() == 0 {
                out.push(self.map[i].0);
            }
            proof {
                reveal(Seq::filter);
                let cur = self.map@.subrange(0, i + 1);
                assert(cur.drop_last() =~= self.map@.subrange(0, i as int));
                assert(cur.last() == self.map@[i as int]);
                let f = dead_under(store.list@);
                assert(cur.filter(f) == (if f(cur.last()) {
                    cur.drop_last().filter(f).push(cur.last())
                } else {
                    cur.drop_last().filter(f)
                }));
                assert(out@ =~= cur.filter(f).map_values(|e: (Symbol, Vec<Reference>)| e.0));
            }
            i = i + 1;
        }
        assert(self.map@.subrange(0, n as int) =~= self.map@);
        out
    }

    /// The bindings that have an entry but no reference left in it.
    pub fn dead_symbols(&self) -> (r: Vec<Symbol>)
        ensures
            r@ == self.map@.filter(|e: (Symbol, Vec<Reference>)| e.1@.len() == 0).map_values(
                |e: (Symbol, Vec<Reference>)| e.0,
            ),
    {
        let n = self.map.len();
        let mut out: Vec<Symbol> = Vec::new();
        let mut i: usize = 0;
        while i < n
            invariant
                n == self.map@.len(),
                i <= n,
                out@ == self.map@.subrange(0, i as int).filter(
                    |e: (Symbol, Vec<Reference>)| e.1@.len() == 0,
                ).map_values(|e: (Symbol, Vec<Reference>)| e.0),
            decreases n - i,
        {
            if self.map[i].1.len() == 0 {
                out.push(self.map[i].0);
            }
            proof {
                reveal(Seq::filter);
                let cur = self.map@.subrange(0, i + 1);
                assert(cur.drop_last() =~= self.map@.subrange(0, i as int));
                assert(cur.last() == self.map@[i as int]);
                let f = |e: (Symbol, Vec<Reference>)| e.1@.len() == 0;
                assert(cur.filter(f) == (if f(cur.last()) {
                    cur.drop_last().filter(f).push(cur.last())
                } else {
                    cur.drop_last().filter(f)
                }));
                assert(out@ =~= cur.filter(f).map_values(|e: (Symbol, Vec<Reference>)| e.0));
            }
            i = i + 1;
        }
        assert(self.map@.subrange(0, n as int) =~= self.map@);
        out
    }

    pub fn default() -> (r: References)
        ensures
            r.wf(),
            r.map@.len() == 0,
    {
        References { map: Vec::new() }
    }

    /// The position of the binding's entry, if it has one.
    fn position(&self, symbol: &Symbol) -> (r: Option<usize>)
        ensures
            r matches Some(i) ==> i < self.map@.len() && self.map@[i as int].0.id == symbol.id,
            r is None ==> forall|i: int| 0 <= i < self.map@.len() ==> (#[trigger] self.map@[i]).0.id != symbol.id,
    {
        let n = self.map.len();
        let mut i: usize = 0;
        while i < n
            invariant
                n == self.map@.len(),
                i <= n,
                forall|k: int| 0 <= k < i ==> (#[trigger] self.map@[k]).0.id != symbol.id,
            decreases n - i,
        {
            if self.map[i].0.id == symbol.id {
                return Some(i);
            }
            i = i + 1;
        }
        None
    }

    /// Records one more occurrence of `symbol`, after those already recorded.
    pub fn add(&mut self, symbol: Symbol, reference: Reference)
        requires
            old(self).wf(),
            reference.span.valid(),
        ensures
            final(self).wf(),
            refs_of(final(self).map@, symbol.id) == Some(
                match refs_of(old(self).map@, symbol.id) {
                    Some(rs) => rs,
                    None => Seq::<Reference>::empty(),
                }.push(reference),
            ),
            forall|id: u32| id != symbol.id ==> refs_of(final(self).map@, id) == refs_of(old(self).map@, id),
    {
        match self.position(&symbol) {
            Some(i) => {
                let ghost m0 = self.map@;
                let (sym, mut refs) = self.map.remove(i);
                refs.push(reference);
                self.map.insert(i, (sym, refs));
                proof {
                    let m1 = self.map@;
                    assert(m1 =~= m0.update(i as int, m1[i as int]));
                    assert forall|id: u32| #![auto] true implies refs_of(m1, id) == (if id == symbol.id {
                        Some(m0[i as int].1@.push(reference))
                    } else {
                        refs_of(m0, id)
                    }) by {
                        if exists|k: int| 0 <= k < m1.len() && (#[trigger] m1[k]).0.id == id {
                            let k = choose|k: int| 0 <= k < m1.len() && (#[trigger] m1[k]).0.id == id;
                            assert(m0[k].0.id == id);
                        }
                        if exists|k: int| 0 <= k < m0.len() && (#[trigger] m0[k]).0.id == id {
                            let k = choose|k: int| 0 <= k < m0.len() && (#[trigger] m0[k]).0.id == id;
                            assert(m1[k].0.id == id);
                        }
                    }
                    assert(refs_of(m0, symbol.id) == Some(m0[i as int].1@));
                }
            },
            None => {
                let ghost m0 = self.map@;
                let mut refs: Vec<Reference> = Vec::new();
                refs.push(reference);
                self.map.push((symbol, refs));
                proof {
                    let m1 = self.map@;
                    assert(m1 == m0.push(m1[m0.len() as int]));
                    assert forall|id: u32| #![auto] true implies refs_of(m1, id) == (if id == symbol.id {
                        Some(seq![reference])
                    } else {
                        refs_of(m0, id)
                    }) by {
                        if exists|k: int| 0 <= k < m1.len() && (#[trigger] m1[k]).0.id == id {
                            let k = choose|k: int| 0 <= k < m1.len() && (#[trigger] m1[k]).0.id == id;
                            if k < m0.len() {
                                assert(m0[k].0.id == id);
                            }
                        }
                        if exists|k: int| 0 <= k < m0.len() && (#[trigger] m0[k]).0.id == id {
                            let k = choose|k: int| 0 <= k < m0.len() && (#[trigger] m0[k]).0.id == id;
                            assert(m1[k].0.id == id);
                        }
                    }
                    assert(seq![reference] =~= Seq::<Reference>::empty().push(reference));
                }
            },
        }
    }

    /// The recorded references of `symbol`, if it has any entry.
    pub fn get(&self, symbol: &Symbol) -> (r: Option<&Vec<Reference>>)
        requires
            self.wf(),
        ensures
            match r {
                Some(v) => refs_of(self.map@, symbol.id) == Some(v@),
                None => refs_of(self.map@, symbol.id) is None,
            },
    {
        match self.position(symbol) {
            Some(i) => {
                proof {
                    let m = self.map@;
                    let k = choose|k: int| 0 <= k < m.len() && (#[trigger] m[k]).0.id == symbol.id;
                    assert(k == i);
                }
                Some(&self.map[i].1)
            },
            None => None,
        }
    }
}

} // verus!
