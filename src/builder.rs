use vstd::prelude::*;

use crate::merge::{
    apply, apply_all, consolidate, lemma_apply_all_err_extends, lemma_apply_wf,
    lemma_consolidate_err_extends, lemma_slot_index_is, merged_values, occupies,
    register_fragment, same_slot, slot_index, ConflictView, State,
};
use crate::schema::{
    blocks_equal, contains_name, declarations_view, fragments_view, strings_view, Block,
    Declaration, DeclarationView, EnumBlock, Fragment, Kind,
};

verus! {

/// Two declarations of one slot that differ, and the fragments they came from.
#[derive(Clone, Debug)]
pub struct Conflict {
    pub name: String,
    pub existing_path: String,
    pub incoming_path: String,
}

/// Why a consolidation run stopped.
#[derive(Clone, Debug)]
pub enum MergeError {
    DatasourceConflict(Conflict),
    GeneratorConflict(Conflict),
}

impl View for MergeError {
    type V = ConflictView;

    open spec fn view(&self) -> ConflictView {
        match self {
            MergeError::DatasourceConflict(c) => ConflictView {
                kind: Kind::Datasource,
                name: c.name@,
                existing_path: c.existing_path@,
                incoming_path: c.incoming_path@,
            },
            MergeError::GeneratorConflict(c) => ConflictView {
                kind: Kind::Generator,
                name: c.name@,
                existing_path: c.existing_path@,
                incoming_path: c.incoming_path@,
            },
        }
    }
}

/// What a registration call returned and left behind, measured against the
/// outcome `expected` of the merge rules: on success the builder holds the
/// expected state; on a conflict it is unchanged and the error describes it.
pub open spec fn outcome(
    r: Result<(), MergeError>,
    before: State,
    after: State,
    expected: Result<State, ConflictView>,
) -> bool {
    match expected {
        Ok(t) => r is Ok && after == t,
        Err(c) => r is Err && r->Err_0@ == c && after == before,
    }
}

/// The consolidation engine: folds schema fragments into one document.
pub struct Builder {
    tops: Vec<Declaration>,
    origins: Vec<String>,
}

impl View for Builder {
    type V = State;

    closed spec fn view(&self) -> State {
        State { doc: declarations_view(self.tops@), origins: strings_view(self.origins@) }
    }
}

/// Whether `d` occupies the slot of a declaration of `kind` named `name`.
fn occupies_exec(d: &Declaration, kind: Kind, name: &String) -> (r: bool)
    ensures
        r == occupies(d@, kind, name@),
{
    if d.kind() != kind {
        false
    } else {
        match kind {
            Kind::Datasource => true,
            Kind::Generator | Kind::Enum => *d.name() == *name,
            _ => false,
        }
    }
}

/// Appends to `values` each name of `incoming` that it does not hold yet, in order.
pub fn merge_values(values: &mut Vec<String>, incoming: &Vec<String>)
    ensures
        strings_view(final(values)@) == merged_values(
            strings_view(old(values)@),
            strings_view(incoming@),
        ),
{
    let ghost start = strings_view(values@);
    let mut i: usize = 0;
    while i < incoming.len()
        invariant
            0 <= i <= incoming.len(),
            start == strings_view(old(values)@),
            strings_view(values@) == merged_values(start, strings_view(incoming@).take(i as int)),
        decreases incoming.len() - i,
    {
        let ghost before = strings_view(values@);
        assert(strings_view(incoming@).take(i + 1).drop_last() =~= strings_view(incoming@).take(
            i as int,
        ));
        if !contains_name(values, &incoming[i]) {
            values.push(incoming[i].clone());
            assert(strings_view(values@) =~= before.push(incoming@[i as int]@));
        }
        i = i + 1;
    }
    assert(strings_view(incoming@).take(incoming.len() as int) =~= strings_view(incoming@));
}

impl Builder {
    /// An empty builder.
    pub fn new() -> (r: Builder)
        ensures
            r@ == State::empty(),
            r@.wf(),
    {
        let r = Builder { tops: Vec::new(), origins: Vec::new() };
        assert(r@.doc =~= Seq::empty());
        assert(r@.origins =~= Seq::empty());
        r
    }

    /// The index of the declaration that holds the slot of `kind` and `name`.
    fn find_slot(&self, kind: Kind, name: &String) -> (r: Option<usize>)
        ensures
            match r {
                Some(i) => i < self@.doc.len() && occupies(self@.doc[i as int], kind, name@),
                None => forall|i: int|
                    0 <= i < self@.doc.len() ==> !occupies(#[trigger] self@.doc[i], kind, name@),
            },
    {
        let mut i: usize = 0;
        while i < self.tops.len()
            invariant
                0 <= i <= self.tops.len(),
                self@.doc.len() == self.tops.len(),
                forall|j: int| 0 <= j < i ==> !occupies(#[trigger] self@.doc[j], kind, name@),
            decreases self.tops.len() - i,
        {
            if occupies_exec(&self.tops[i], kind, name) {
                return Some(i);
            }
            i = i + 1;
        }
        None
    }

    /// Appends `d`, introduced by the fragment at `path`.
    fn push_top(&mut self, d: Declaration, path: String)
        ensures
            final(self)@ == old(self)@.append(d@, path@),
    {
        self.tops.push(d);
        self.origins.push(path);
        assert(final(self)@.doc =~= old(self)@.doc.push(d@));
        assert(final(self)@.origins =~= old(self)@.origins.push(path@));
    }

    /// The datasource and generator rule: append into a free slot, accept an
    /// equal declaration, reject a different one.
    fn add_strict(&mut self, d: Declaration, path: String) -> (r: Result<(), MergeError>)
        requires
            old(self)@.wf(),
            d is Datasource || d is Generator,
        ensures
            final(self)@.wf(),
            outcome(r, old(self)@, final(self)@, apply(old(self)@, d@, path@)),
    {
        proof {
            lemma_apply_wf(self@, d@, path@);
        }
        match self.find_slot(d.kind(), d.name()) {
            None => {
                assert forall|i: int| 0 <= i < self@.doc.len() implies !#[trigger] same_slot(
                    self@.doc[i],
                    d@,
                ) by {
                    assert(!occupies(self@.doc[i], d@.kind(), d@.name()));
                }
                assert(slot_index(self@.doc, d@) == -1);
                self.push_top(d, path);
                Ok(())
            },
            Some(i) => {
                proof {
                    lemma_slot_index_is(self@, d@, i as int);
                }
                let equal = match (&self.tops[i], &d) {
                    (Declaration::Datasource(a), Declaration::Datasource(b)) => blocks_equal(a, b),
                    (Declaration::Generator(a), Declaration::Generator(b)) => blocks_equal(a, b),
                    _ => false,
                };
                if equal {
                    Ok(())
                } else {
                    assert(self@.doc[i as int] != d@);
                    let c = Conflict {
                        name: d.name().clone(),
                        existing_path: self.origins[i].clone(),
                        incoming_path: path,
                    };
                    match d {
                        Declaration::Datasource(_) => Err(MergeError::DatasourceConflict(c)),
                        _ => Err(MergeError::GeneratorConflict(c)),
                    }
                }
            },
        }
    }

    /// Registers a datasource from the fragment at `path`. The document holds
    /// at most one: the first is stored as it is, an equal one changes nothing,
    /// and a different one is a `DatasourceConflict` naming both paths.
    pub fn add_datasource(&mut self, source: Block, path: String) -> (r: Result<(), MergeError>)
        requires
            old(self)@.wf(),
        ensures
            final(self)@.wf(),
            outcome(
                r,
                old(self)@,
                final(self)@,
                apply(old(self)@, DeclarationView::Datasource(source@), path@),
            ),
    {
        self.add_strict(Declaration::Datasource(source), path)
    }

    /// Registers a generator from the fragment at `path`. Generators are keyed
    /// by name: a new name is appended, an equal generator changes nothing, and
    /// a different one of the same name is a `GeneratorConflict` naming both paths.
    pub fn add_generator(&mut self, generator: Block, path: String) -> (r: Result<(), MergeError>)
        requires
            old(self)@.wf(),
        ensures
            final(self)@.wf(),
            outcome(
                r,
                old(self)@,
                final(self)@,
                apply(old(self)@, DeclarationView::Generator(generator@), path@),
            ),
    {
        self.add_strict(Declaration::Generator(generator), path)
    }

    /// Registers an enum from the fragment at `path`. Enums are keyed by name
    /// and never conflict: a new name is appended with its values, and the
    /// values of a known name are merged into the existing enum, which keeps
    /// its values in order and gains each new value name at the end.
    pub fn add_enum(&mut self, schema_enum: EnumBlock, path: String) -> (r: Result<(), MergeError>)
        requires
            old(self)@.wf(),
        ensures
            final(self)@.wf(),
            r is Ok,
            outcome(
                r,
                old(self)@,
                final(self)@,
                apply(old(self)@, DeclarationView::Enum(schema_enum@), path@),
            ),
    {
        let ghost d = DeclarationView::Enum(schema_enum@);
        proof {
            lemma_apply_wf(self@, d, path@);
        }
        match self.find_slot(Kind::Enum, &schema_enum.name) {
            None => {
                assert forall|i: int| 0 <= i < self@.doc.len() implies !#[trigger] same_slot(
                    self@.doc[i],
                    d,
                ) by {
                    assert(!occupies(self@.doc[i], Kind::Enum, schema_enum.name@));
                }
                let mut values: Vec<String> = Vec::new();
                assert(strings_view(values@) =~= Seq::empty());
                merge_values(&mut values, &schema_enum.values);
                self.push_top(Declaration::Enum(EnumBlock { name: schema_enum.name, values }), path);
            },
            Some(i) => {
                proof {
                    lemma_slot_index_is(self@, d, i as int);
                }
                let ghost old_tops = self.tops@;
                let ghost old_view = self@;
                let top = &mut self.tops[i];
                match top {
                    Declaration::Enum(e) => {
                        merge_values(&mut e.values, &schema_enum.values);
                    },
                    _ => {},
                }
                assert(self.tops@ == old_tops.update(i as int, self.tops@[i as int]));
                assert(self@.doc =~= apply(old_view, d, path@)->Ok_0.doc);
            },
        }
        Ok(())
    }

    /// Registers a composite type from the fragment at `path`: it is appended as it is.
    pub fn add_composite_type(&mut self, composite: Block, path: String)
        requires
            old(self)@.wf(),
        ensures
            final(self)@.wf(),
            apply(old(self)@, DeclarationView::CompositeType(composite@), path@) == Ok::<
                State,
                ConflictView,
            >(final(self)@),
    {
        proof {
            lemma_apply_wf(self@, DeclarationView::CompositeType(composite@), path@);
        }
        self.push_top(Declaration::CompositeType(composite), path);
    }

    /// Registers one declaration of any kind from the fragment at `path`.
    pub fn add_declaration(&mut self, d: Declaration, path: String) -> (r: Result<(), MergeError>)
        requires
            old(self)@.wf(),
        ensures
            final(self)@.wf(),
            outcome(r, old(self)@, final(self)@, apply(old(self)@, d@, path@)),
    {
        match d {
            Declaration::Datasource(b) => self.add_datasource(b, path),
            Declaration::Generator(b) => self.add_generator(b, path),
            Declaration::Enum(e) => self.add_enum(e, path),
            Declaration::CompositeType(b) => {
                self.add_composite_type(b, path);
                Ok(())
            },
            _ => {
                proof {
                    lemma_apply_wf(self@, d@, path@);
                }
                self.push_top(d, path);
                Ok(())
            },
        }
    }

    /// Registers every declaration of `fragment`, in order, and stops at the
    /// first conflict. After a conflict the builder holds what the declarations
    /// before it made; the run is over and the builder should be dropped.
    pub fn register(&mut self, fragment: Fragment) -> (r: Result<(), MergeError>)
        requires
            old(self)@.wf(),
        ensures
            final(self)@.wf(),
            match register_fragment(old(self)@, fragment@) {
                Ok(t) => r is Ok && final(self)@ == t,
                Err(c) => r is Err && r->Err_0@ == c && exists|k: int|
                    0 <= k < fragment@.declarations.len() && apply_all(
                        old(self)@,
                        #[trigger] fragment@.declarations.take(k),
                        fragment@.path,
                    ) == Ok::<State, ConflictView>(final(self)@),
            },
    {
        let ghost start = self@;
        let ghost decls = fragment@.declarations;
        let ghost path = fragment@.path;
        let Fragment { path: frag_path, declarations: mut rest } = fragment;
        let ghost n = rest.len();
        let mut i: usize = 0;
        while rest.len() > 0
            invariant
                self@.wf(),
                start == old(self)@,
                decls == fragment@.declarations,
                path == fragment@.path,
                path == frag_path@,
                n == decls.len(),
                i + rest.len() == n,
                declarations_view(rest@) == decls.subrange(i as int, n as int),
                apply_all(start, decls.take(i as int), path) == Ok::<State, ConflictView>(self@),
            decreases rest.len(),
        {
            let ghost before = rest@;
            let d = rest.remove(0);
            assert(declarations_view(before)[0] == decls.subrange(i as int, n as int)[0]);
            assert(decls[i as int] == d@);
            assert(declarations_view(rest@) =~= declarations_view(before).subrange(1, n - i));
            assert(declarations_view(rest@) =~= decls.subrange(i + 1, n as int));
            assert(decls.take(i + 1).drop_last() =~= decls.take(i as int));
            assert(decls.take(i + 1).last() == decls[i as int]);
            match self.add_declaration(d, frag_path.clone()) {
                Ok(()) => {},
                Err(e) => {
                    assert(apply_all(start, decls.take(i + 1), path) == Err::<State, ConflictView>(
                        e@,
                    ));
                    proof {
                        lemma_apply_all_err_extends(start, decls, path, i as int + 1);
                    }
                    assert(apply_all(start, decls.take(i as int), path) == Ok::<State, ConflictView>(
                        self@,
                    ));
                    return Err(e);
                },
            }
            i = i + 1;
        }
        assert(decls.take(n as int) =~= decls);
        Ok(())
    }

    /// The document consolidated so far.
    pub fn document(&self) -> (r: &Vec<Declaration>)
        ensures
            declarations_view(r@) == self@.doc,
    {
        &self.tops
    }

    /// The path of the fragment that introduced the datasource (for `kind`
    /// `Datasource`, whatever `name`), or the generator or enum named `name`.
    pub fn origin(&self, kind: Kind, name: &String) -> (r: Option<&String>)
        requires
            self@.wf(),
        ensures
            match r {
                Some(p) => exists|i: int|
                    0 <= i < self@.doc.len() && occupies(#[trigger] self@.doc[i], kind, name@)
                        && p@ == self@.origins[i],
                None => forall|i: int|
                    0 <= i < self@.doc.len() ==> !occupies(#[trigger] self@.doc[i], kind, name@),
            },
    {
        match self.find_slot(kind, name) {
            Some(i) => Some(&self.origins[i]),
            None => None,
        }
    }

    /// Ends the run and hands over the consolidated document.
    pub fn render(self) -> (r: Vec<Declaration>)
        ensures
            declarations_view(r@) == self@.doc,
    {
        self.tops
    }
}

/// Consolidates `fragments`, in order, into one document, or reports the
/// first conflict.
pub fn consolidate_schemas(fragments: Vec<Fragment>) -> (r: Result<Vec<Declaration>, MergeError>)
    ensures
        match consolidate(fragments_view(fragments@)) {
            Ok(t) => r is Ok && declarations_view(r->Ok_0@) == t.doc,
            Err(c) => r is Err && r->Err_0@ == c,
        },
{
    let ghost all = fragments_view(fragments@);
    let mut builder = Builder::new();
    let mut rest = fragments;
    let ghost n = rest.len();
    let mut i: usize = 0;
    while rest.len() > 0
        invariant
            builder@.wf(),
            all == fragments_view(fragments@),
            n == all.len(),
            i + rest.len() == n,
            fragments_view(rest@) == all.subrange(i as int, n as int),
            consolidate(all.take(i as int)) == Ok::<State, ConflictView>(builder@),
        decreases rest.len(),
    {
        let ghost before = rest@;
        let f = rest.remove(0);
        assert(fragments_view(before)[0] == all.subrange(i as int, n as int)[0]);
        assert(all[i as int] == f@);
        assert(fragments_view(rest@) =~= fragments_view(before).subrange(1, n - i));
        assert(fragments_view(rest@) =~= all.subrange(i + 1, n as int));
        assert(all.take(i + 1).drop_last() =~= all.take(i as int));
        assert(all.take(i + 1).last() == all[i as int]);
        match builder.register(f) {
            Ok(()) => {},
            Err(e) => {
                assert(consolidate(all.take(i + 1)) == Err::<State, ConflictView>(e@));
                proof {
                    lemma_consolidate_err_extends(all, i as int + 1);
                }
                return Err(e);
            },
        }
        i = i + 1;
    }
    assert(all.take(n as int) =~= all);
    Ok(builder.render())
}

} // verus!
