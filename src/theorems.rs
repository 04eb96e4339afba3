use vstd::prelude::*;

use crate::merge::{
    apply, apply_all, consolidate, lemma_apply_wf, lemma_slot_index_is, merged_values,
    register_fragment, same_slot, slot_index, State,
};
use crate::schema::{DeclarationView, FragmentView};

verus! {

pub open spec fn is_strict(d: DeclarationView) -> bool {
    d is Datasource || d is Generator
}

/// Registering declarations keeps a state well formed.
pub proof fn lemma_apply_all_wf(s: State, decls: Seq<DeclarationView>, path: Seq<char>)
    requires
        s.wf(),
    ensures
        apply_all(s, decls, path) matches Ok(t) ==> t.wf(),
    decreases decls.len(),
{
    if decls.len() > 0 {
        lemma_apply_all_wf(s, decls.drop_last(), path);
        if let Ok(t) = apply_all(s, decls.drop_last(), path) {
            lemma_apply_wf(t, decls.last(), path);
        }
    }
}

/// Every successful run ends in a well-formed state.
pub proof fn lemma_consolidate_wf(fragments: Seq<FragmentView>)
    ensures
        consolidate(fragments) matches Ok(t) ==> t.wf(),
    decreases fragments.len(),
{
    if fragments.len() > 0 {
        lemma_consolidate_wf(fragments.drop_last());
        if let Ok(t) = consolidate(fragments.drop_last()) {
            let f = fragments.last();
            lemma_apply_all_wf(t, f.declarations, f.path);
        }
    }
}

/// Singularity: the document of every successful run holds at most one datasource.
pub proof fn theorem_single_datasource(fragments: Seq<FragmentView>)
    ensures
        consolidate(fragments) matches Ok(t) ==> forall|i: int, j: int|
            0 <= i < t.doc.len() && 0 <= j < t.doc.len() && #[trigger] t.doc[i] is Datasource
                && #[trigger] t.doc[j] is Datasource ==> i == j,
{
    lemma_consolidate_wf(fragments);
    if let Ok(t) = consolidate(fragments) {
        assert forall|i: int, j: int|
            0 <= i < t.doc.len() && 0 <= j < t.doc.len() && #[trigger] t.doc[i] is Datasource
                && #[trigger] t.doc[j] is Datasource implies i == j by {
            if i != j {
                assert(!same_slot(t.doc[i], t.doc[j]));
            }
        }
    }
}

/// After registering datasources and generators successfully, each of them is in the document.
proof fn lemma_strict_registered(s: State, decls: Seq<DeclarationView>, path: Seq<char>)
    requires
        s.wf(),
        forall|k: int| 0 <= k < decls.len() ==> is_strict(#[trigger] decls[k]),
        apply_all(s, decls, path) is Ok,
    ensures
        forall|k: int|
            0 <= k < decls.len() ==> apply_all(s, decls, path)->Ok_0.doc.contains(
                #[trigger] decls[k],
            ),
    decreases decls.len(),
{
    if decls.len() > 0 {
        let prev = decls.drop_last();
        lemma_strict_registered(s, prev, path);
        lemma_apply_all_wf(s, prev, path);
        let t = apply_all(s, prev, path)->Ok_0;
        let d = decls.last();
        let u = apply(t, d, path)->Ok_0;
        let k = slot_index(t.doc, d);
        assert(u == t || u == t.append(d, path));
        if k >= 0 {
            assert(u == t && t.doc[k] == d);
        } else {
            assert(u.doc[t.doc.len() as int] == d);
        }
        assert forall|m: int| 0 <= m < decls.len() implies u.doc.contains(#[trigger] decls[m]) by {
            if m < prev.len() {
                assert(prev[m] == decls[m]);
                let w = choose|w: int| 0 <= w < t.doc.len() && t.doc[w] == prev[m];
                assert(u.doc[w] == decls[m]);
            }
        }
    }
}

/// Datasources and generators that are all in the document change nothing.
proof fn lemma_strict_present(t: State, decls: Seq<DeclarationView>, path: Seq<char>)
    requires
        t.wf(),
        forall|k: int| 0 <= k < decls.len() ==> is_strict(#[trigger] decls[k]),
        forall|k: int| 0 <= k < decls.len() ==> t.doc.contains(#[trigger] decls[k]),
    ensures
        apply_all(t, decls, path) == Ok::<State, crate::merge::ConflictView>(t),
    decreases decls.len(),
{
    if decls.len() > 0 {
        let prev = decls.drop_last();
        assert forall|k: int| 0 <= k < prev.len() implies is_strict(#[trigger] prev[k])
            && t.doc.contains(prev[k]) by {
            assert(prev[k] == decls[k]);
        }
        lemma_strict_present(t, prev, path);
        let d = decls.last();
        assert(is_strict(decls[decls.len() - 1]) && t.doc.contains(decls[decls.len() - 1]));
        let i = choose|i: int| 0 <= i < t.doc.len() && t.doc[i] == d;
        assert(same_slot(t.doc[i], d));
        lemma_slot_index_is(t, d, i);
    }
}

/// Idempotence: a fragment of datasources and generators that registered
/// successfully registers again with the same result.
pub proof fn theorem_register_idempotent(s: State, f: FragmentView)
    requires
        s.wf(),
        forall|k: int| 0 <= k < f.declarations.len() ==> is_strict(#[trigger] f.declarations[k]),
        register_fragment(s, f) is Ok,
    ensures
        register_fragment(register_fragment(s, f)->Ok_0, f) == register_fragment(s, f),
{
    lemma_strict_registered(s, f.declarations, f.path);
    lemma_apply_all_wf(s, f.declarations, f.path);
    lemma_strict_present(register_fragment(s, f)->Ok_0, f.declarations, f.path);
}

/// A merged value list holds exactly the names of both lists.
pub proof fn lemma_merged_values_contains(
    existing: Seq<Seq<char>>,
    incoming: Seq<Seq<char>>,
    x: Seq<char>,
)
    ensures
        merged_values(existing, incoming).contains(x) <==> (existing.contains(x)
            || incoming.contains(x)),
    decreases incoming.len(),
{
    if incoming.len() > 0 {
        let prev = incoming.drop_last();
        lemma_merged_values_contains(existing, prev, x);
        let acc = merged_values(existing, prev);
        if prev.contains(x) {
            let w = choose|w: int| 0 <= w < prev.len() && prev[w] == x;
            assert(incoming[w] == x);
        }
        if incoming.contains(x) && !prev.contains(x) {
            let w = choose|w: int| 0 <= w < incoming.len() && incoming[w] == x;
            if w < prev.len() {
                assert(prev[w] == x);
            }
            assert(x == incoming.last());
        }
        if acc.contains(x) && !acc.contains(incoming.last()) {
            let w = choose|w: int| 0 <= w < acc.len() && acc[w] == x;
            assert(acc.push(incoming.last())[w] == x);
        }
        if !acc.contains(incoming.last()) {
            assert(acc.push(incoming.last())[acc.len() as int] == incoming.last());
            if acc.push(incoming.last()).contains(x) {
                let w = choose|w: int|
                    0 <= w < acc.len() + 1 && acc.push(incoming.last())[w] == x;
                if w < acc.len() {
                    assert(acc[w] == x);
                }
            }
        }
    }
}

/// A merged value list starts with the existing list, in its order.
pub proof fn lemma_merged_values_prefix(existing: Seq<Seq<char>>, incoming: Seq<Seq<char>>)
    ensures
        merged_values(existing, incoming).len() >= existing.len(),
        merged_values(existing, incoming).subrange(0, existing.len() as int) == existing,
    decreases incoming.len(),
{
    if incoming.len() > 0 {
        lemma_merged_values_prefix(existing, incoming.drop_last());
        let acc = merged_values(existing, incoming.drop_last());
        assert(acc.push(incoming.last()).subrange(0, existing.len() as int) =~= acc.subrange(
            0,
            existing.len() as int,
        ));
    }
}

/// Order independence of enum merging: whichever of two fragments comes
/// first, the enum ends with the union of the value names of both, and the
/// values it held before keep their places at the front.
pub proof fn theorem_enum_union(
    existing: Seq<Seq<char>>,
    a: Seq<Seq<char>>,
    b: Seq<Seq<char>>,
)
    ensures
        merged_values(merged_values(existing, a), b).to_set() == existing.to_set() + a.to_set()
            + b.to_set(),
        merged_values(merged_values(existing, a), b).to_set() == merged_values(
            merged_values(existing, b),
            a,
        ).to_set(),
        merged_values(merged_values(existing, a), b).subrange(0, existing.len() as int)
            == existing,
{
    let ab = merged_values(merged_values(existing, a), b);
    let ba = merged_values(merged_values(existing, b), a);
    assert forall|x: Seq<char>| ab.contains(x) == (existing.contains(x) || a.contains(x) || b.contains(x)) by {
        lemma_merged_values_contains(existing, a, x);
        lemma_merged_values_contains(merged_values(existing, a), b, x);
    }
    assert forall|x: Seq<char>| ba.contains(x) == (existing.contains(x) || a.contains(x) || b.contains(x)) by {
        lemma_merged_values_contains(existing, b, x);
        lemma_merged_values_contains(merged_values(existing, b), a, x);
    }
    assert(ab.to_set() =~= existing.to_set() + a.to_set() + b.to_set());
    assert(ba.to_set() =~= existing.to_set() + a.to_set() + b.to_set());
    lemma_merged_values_prefix(existing, a);
    lemma_merged_values_prefix(merged_values(existing, a), b);
    assert(ab.subrange(0, existing.len() as int) =~= merged_values(existing, a).subrange(
        0,
        existing.len() as int,
    ));
}

} // verus!
