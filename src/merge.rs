use vstd::prelude::*;

use crate::schema::{DeclarationView, EnumView, FragmentView, Kind};

verus! {

/// The consolidated document, and for each of its declarations the path of
/// the fragment that first introduced it (`origins[i]` belongs to `doc[i]`).
pub struct State {
    pub doc: Seq<DeclarationView>,
    pub origins: Seq<Seq<char>>,
}

/// A fatal conflict: two declarations of one kind and slot render differently.
pub struct ConflictView {
    pub kind: Kind,
    pub name: Seq<char>,
    pub existing_path: Seq<char>,
    pub incoming_path: Seq<char>,
}

/// Whether `d` holds the slot that a declaration of `kind` named `name` competes for.
/// There is one datasource slot; generators and enums have one slot per name;
/// composite types, models and type aliases never compete.
pub open spec fn occupies(d: DeclarationView, kind: Kind, name: Seq<char>) -> bool {
    &&& d.kind() == kind
    &&& (kind == Kind::Datasource || ((kind == Kind::Generator || kind == Kind::Enum) && d.name()
        == name))
}

pub open spec fn same_slot(a: DeclarationView, b: DeclarationView) -> bool {
    occupies(a, b.kind(), b.name())
}

/// The index of the declaration in `doc` that holds the slot of `d`, or -1.
pub open spec fn slot_index(doc: Seq<DeclarationView>, d: DeclarationView) -> int {
    if exists|i: int| 0 <= i < doc.len() && #[trigger] same_slot(doc[i], d) {
        choose|i: int| 0 <= i < doc.len() && #[trigger] same_slot(doc[i], d)
    } else {
        -1
    }
}

/// `existing` followed by each value of `incoming` that is not yet present, in order.
pub open spec fn merged_values(existing: Seq<Seq<char>>, incoming: Seq<Seq<char>>) -> Seq<
    Seq<char>,
>
    decreases incoming.len(),
{
    if incoming.len() == 0 {
        existing
    } else {
        let acc = merged_values(existing, incoming.drop_last());
        if acc.contains(incoming.last()) {
            acc
        } else {
            acc.push(incoming.last())
        }
    }
}

pub open spec fn enum_values(d: DeclarationView) -> Seq<Seq<char>> {
    match d {
        DeclarationView::Enum(e) => e.values,
        _ => Seq::empty(),
    }
}

impl State {
    pub open spec fn empty() -> State {
        State { doc: Seq::empty(), origins: Seq::empty() }
    }

    /// Origins line up with declarations, no two declarations hold one slot,
    /// and no enum holds a value name twice.
    pub open spec fn wf(self) -> bool {
        &&& self.doc.len() == self.origins.len()
        &&& forall|i: int, j: int|
            0 <= i < self.doc.len() && 0 <= j < self.doc.len() && i != j ==> !#[trigger] same_slot(
                self.doc[i],
                self.doc[j],
            )
        &&& forall|i: int| 0 <= i < self.doc.len() ==> (#[trigger] enum_values(self.doc[i])).no_duplicates()
    }

    pub open spec fn append(self, d: DeclarationView, path: Seq<char>) -> State {
        State { doc: self.doc.push(d), origins: self.origins.push(path) }
    }
}

/// Registers one declaration `d` from the fragment at `path`.
///
/// A datasource or a generator whose slot is free is appended; one whose slot
/// holds an equal declaration changes nothing; one whose slot holds a different
/// declaration is a conflict naming both paths. An enum whose name is new is
/// appended with its values; otherwise its values are merged into the existing
/// enum's. Composite types, models and type aliases are appended as they are.
pub open spec fn apply(s: State, d: DeclarationView, path: Seq<char>) -> Result<State, ConflictView> {
    let k = slot_index(s.doc, d);
    match d {
        DeclarationView::Enum(e) => {
            if k < 0 {
                Ok(
                    s.append(
                        DeclarationView::Enum(
                            EnumView { name: e.name, values: merged_values(Seq::empty(), e.values) },
                        ),
                        path,
                    ),
                )
            } else {
                Ok(
                    State {
                        doc: s.doc.update(
                            k,
                            DeclarationView::Enum(
                                EnumView {
                                    name: s.doc[k].name(),
                                    values: merged_values(enum_values(s.doc[k]), e.values),
                                },
                            ),
                        ),
                        origins: s.origins,
                    },
                )
            }
        },
        DeclarationView::Datasource(_) => apply_strict(s, d, path, k),
        DeclarationView::Generator(_) => apply_strict(s, d, path, k),
        _ => Ok(s.append(d, path)),
    }
}

/// The rule shared by datasources and generators: equal or rejected.
pub open spec fn apply_strict(s: State, d: DeclarationView, path: Seq<char>, k: int) -> Result<
    State,
    ConflictView,
> {
    if k < 0 {
        Ok(s.append(d, path))
    } else if s.doc[k] == d {
        Ok(s)
    } else {
        Err(
            ConflictView {
                kind: d.kind(),
                name: d.name(),
                existing_path: s.origins[k],
                incoming_path: path,
            },
        )
    }
}

/// Registers the declarations `decls` of the fragment at `path`, in order,
/// stopping at the first conflict.
pub open spec fn apply_all(s: State, decls: Seq<DeclarationView>, path: Seq<char>) -> Result<
    State,
    ConflictView,
>
    decreases decls.len(),
{
    if decls.len() == 0 {
        Ok(s)
    } else {
        match apply_all(s, decls.drop_last(), path) {
            Ok(t) => apply(t, decls.last(), path),
            Err(c) => Err(c),
        }
    }
}

/// Registers the fragment `f` into `s`.
pub open spec fn register_fragment(s: State, f: FragmentView) -> Result<State, ConflictView> {
    apply_all(s, f.declarations, f.path)
}

/// Consolidates `fragments`, in order, starting from an empty document.
pub open spec fn consolidate(fragments: Seq<FragmentView>) -> Result<State, ConflictView>
    decreases fragments.len(),
{
    if fragments.len() == 0 {
        Ok(State::empty())
    } else {
        match consolidate(fragments.drop_last()) {
            Ok(t) => register_fragment(t, fragments.last()),
            Err(c) => Err(c),
        }
    }
}

/// In a well-formed state the declaration that holds a slot is the only one.
pub proof fn lemma_slot_index_is(s: State, d: DeclarationView, i: int)
    requires
        s.wf(),
        0 <= i < s.doc.len(),
        same_slot(s.doc[i], d),
    ensures
        slot_index(s.doc, d) == i,
{
    let k = slot_index(s.doc, d);
    assert(0 <= k < s.doc.len() && same_slot(s.doc[k], d));
    if k != i {
        assert(same_slot(s.doc[i], s.doc[k]));
    }
}

/// Merging never adds a value name that is already present.
pub proof fn lemma_merged_values_no_duplicates(existing: Seq<Seq<char>>, incoming: Seq<Seq<char>>)
    requires
        existing.no_duplicates(),
    ensures
        merged_values(existing, incoming).no_duplicates(),
    decreases incoming.len(),
{
    if incoming.len() > 0 {
        lemma_merged_values_no_duplicates(existing, incoming.drop_last());
        let acc = merged_values(existing, incoming.drop_last());
        if !acc.contains(incoming.last()) {
            let r = acc.push(incoming.last());
            assert forall|i: int, j: int| 0 <= i < r.len() && 0 <= j < r.len() && i != j implies r[i]
                != r[j] by {
                if i < acc.len() && j < acc.len() {
                } else if i == acc.len() {
                    assert(acc[j] == r[j]);
                } else {
                    assert(acc[i] == r[i]);
                }
            }
        }
    }
}

/// Registering one declaration keeps a state well formed.
pub proof fn lemma_apply_wf(s: State, d: DeclarationView, path: Seq<char>)
    requires
        s.wf(),
    ensures
        apply(s, d, path) matches Ok(t) ==> t.wf(),
{
    let k = slot_index(s.doc, d);
    if k < 0 {
        assert forall|i: int| 0 <= i < s.doc.len() implies !#[trigger] same_slot(s.doc[i], d) by {
        }
    } else {
        assert(0 <= k < s.doc.len() && same_slot(s.doc[k], d));
    }
    match apply(s, d, path) {
        Ok(t) => {
            if t.doc.len() == s.doc.len() + 1 {
                let n = s.doc.len() as int;
                assert(t.doc[n].kind() == d.kind() && t.doc[n].name() == d.name());
                assert forall|i: int, j: int|
                    0 <= i < t.doc.len() && 0 <= j < t.doc.len() && i != j implies !#[trigger] same_slot(
                    t.doc[i],
                    t.doc[j],
                ) by {
                    if i < n && j < n {
                        assert(t.doc[i] == s.doc[i] && t.doc[j] == s.doc[j]);
                    } else if i == n {
                        assert(t.doc[j] == s.doc[j]);
                        assert(!same_slot(s.doc[j], d));
                    } else {
                        assert(t.doc[i] == s.doc[i]);
                        assert(!same_slot(s.doc[i], d));
                    }
                }
                if d is Enum {
                    lemma_merged_values_no_duplicates(Seq::empty(), enum_values(d));
                }
                assert forall|i: int| 0 <= i < t.doc.len() implies (#[trigger] enum_values(
                    t.doc[i],
                )).no_duplicates() by {
                    if i < n {
                        assert(t.doc[i] == s.doc[i]);
                    }
                }
            } else if d is Enum {
                lemma_merged_values_no_duplicates(enum_values(s.doc[k]), enum_values(d));
                assert forall|i: int, j: int|
                    0 <= i < t.doc.len() && 0 <= j < t.doc.len() && i != j implies !#[trigger] same_slot(
                    t.doc[i],
                    t.doc[j],
                ) by {
                    assert(t.doc[i].kind() == s.doc[i].kind() && t.doc[i].name() == s.doc[i].name());
                    assert(t.doc[j].kind() == s.doc[j].kind() && t.doc[j].name() == s.doc[j].name());
                    assert(!same_slot(s.doc[i], s.doc[j]));
                }
                assert forall|i: int| 0 <= i < t.doc.len() implies (#[trigger] enum_values(
                    t.doc[i],
                )).no_duplicates() by {
                    if i != k {
                        assert(t.doc[i] == s.doc[i]);
                    }
                }
            } else {
                assert(t == s);
            }
        },
        Err(_) => {},
    }
}

/// Once the declarations registered so far conflict, the whole fragment does.
pub proof fn lemma_apply_all_err_extends(
    s: State,
    decls: Seq<DeclarationView>,
    path: Seq<char>,
    k: int,
)
    requires
        0 <= k <= decls.len(),
        apply_all(s, decls.take(k), path) is Err,
    ensures
        apply_all(s, decls, path) == apply_all(s, decls.take(k), path),
    decreases decls.len() - k,
{
    if k < decls.len() {
        assert(decls.take(k + 1).drop_last() =~= decls.take(k));
        lemma_apply_all_err_extends(s, decls, path, k + 1);
    } else {
        assert(decls.take(k) =~= decls);
    }
}

/// Once the fragments registered so far conflict, the whole run does.
pub proof fn lemma_consolidate_err_extends(fragments: Seq<FragmentView>, k: int)
    requires
        0 <= k <= fragments.len(),
        consolidate(fragments.take(k)) is Err,
    ensures
        consolidate(fragments) == consolidate(fragments.take(k)),
    decreases fragments.len() - k,
{
    if k < fragments.len() {
        assert(fragments.take(k + 1).drop_last() =~= fragments.take(k));
        lemma_consolidate_err_extends(fragments, k + 1);
    } else {
        assert(fragments.take(k) =~= fragments);
    }
}

} // verus!
