//! What holds of vaults and of builds in general.

use crate::builder::{
    distinct, has_id, has_path, has_title, id_at, index_of, last_titled, lemma_last_titled,
    lemma_path_indexed, lemma_position, notes_of, position, SourceView,
};
use crate::note::NoteId;
use crate::vault::{Vault, VaultView};
use vstd::prelude::*;
use vstd::std_specs::cmp::PartialEqSpec;

verus! {

/// Whether two sequences of documents hold the same documents, in whatever
/// order.
pub open spec fn same_documents(a: Seq<SourceView>, b: Seq<SourceView>) -> bool {
    &&& forall|i: int| 0 <= i < a.len() ==> b.contains(#[trigger] a[i])
    &&& forall|j: int| 0 <= j < b.len() ==> a.contains(#[trigger] b[j])
}

/// Whether no two documents have the same title.
pub open spec fn titles_differ(sources: Seq<SourceView>) -> bool {
    forall|i: int, j: int|
        0 <= i < j < sources.len() ==> (#[trigger] sources[i]).title != (
        #[trigger] sources[j]).title
}

/// A vault equals itself.
pub proof fn lemma_eq_reflexive(a: Vault)
    ensures
        a.eq_spec(&a),
{
}

/// Where one vault equals another, the other equals the one.
pub proof fn lemma_eq_symmetric(a: Vault, b: Vault)
    ensures
        a.eq_spec(&b) == b.eq_spec(&a),
{
}

/// Two vaults that equal a third equal each other.
pub proof fn lemma_eq_transitive(a: Vault, b: Vault, c: Vault)
    requires
        a.eq_spec(&b),
        b.eq_spec(&c),
    ensures
        a.eq_spec(&c),
{
}

/// Equality looks at the notes only: two vaults that hold the same notes
/// under the same identifiers are equal, whatever their indexes hold.
pub proof fn lemma_eq_ignores_index(a: Vault, b: Vault)
    ensures
        a.eq_spec(&b) <==> a@.notes == b@.notes,
{
}

/// No note is connected to a note that a vault does not hold, as long as the
/// edges of the vault lead to its notes.
pub proof fn lemma_no_backlinks_of_absent(vault: VaultView, id: NoteId)
    requires
        vault.closed(),
        !vault.notes.contains_key(id),
    ensures
        forall|from: NoteId| !vault.connects(from, id),
{
    assert forall|from: NoteId| !vault.connects(from, id) by {
        if vault.connects(from, id) {
            assert(vault.notes[from].adjacencies.contains_key(id));
        }
    }
}

/// In a build, different documents are found by their paths as different
/// notes.
pub proof fn lemma_paths_lead_apart(sources: Seq<SourceView>, i: int, j: int)
    requires
        distinct(sources),
        0 <= i < j < sources.len(),
    ensures
        index_of(sources)[sources[i].path] == id_at(sources, i),
        index_of(sources)[sources[j].path] == id_at(sources, j),
        index_of(sources)[sources[i].path] != index_of(sources)[sources[j].path],
{
    lemma_path_indexed(sources, i);
    lemma_path_indexed(sources, j);
    if id_at(sources, i) == id_at(sources, j) {
        assert(crate::builder::clashes(sources, j));
    }
}

/// The same documents in another order give the same notes under the same
/// identifiers, with the same edges, as long as they give the same index.
pub proof fn lemma_same_index_same_notes(a: Seq<SourceView>, b: Seq<SourceView>)
    requires
        distinct(a),
        distinct(b),
        same_documents(a, b),
        index_of(a) == index_of(b),
    ensures
        notes_of(a) == notes_of(b),
{
    assert forall|id: NoteId| has_id(a, id) == has_id(b, id) by {
        if has_id(a, id) {
            let i = choose|i: int| 0 <= i < a.len() && #[trigger] id_at(a, i) == id;
            let j = choose|j: int| 0 <= j < b.len() && b[j] == a[i];
            assert(id_at(b, j) == id);
        }
        if has_id(b, id) {
            let j = choose|j: int| 0 <= j < b.len() && #[trigger] id_at(b, j) == id;
            let i = choose|i: int| 0 <= i < a.len() && a[i] == b[j];
            assert(id_at(a, i) == id);
        }
    }
    assert forall|id: NoteId| has_id(a, id) implies a[position(a, id)] == b[position(b, id)] by {
        let j = position(b, id);
        let i = choose|i: int| 0 <= i < a.len() && a[i] == b[j];
        assert(id_at(a, i) == id);
        lemma_position(a, i);
    }
    assert(notes_of(a) =~= notes_of(b));
}

/// A build does not depend on the order of the documents, as long as no two
/// of them share a title: the same documents in another order give the same
/// index and the same notes under the same identifiers, with the same edges.
pub proof fn lemma_order_independent(a: Seq<SourceView>, b: Seq<SourceView>)
    requires
        distinct(a),
        distinct(b),
        same_documents(a, b),
        titles_differ(a),
    ensures
        index_of(a) == index_of(b),
        notes_of(a) == notes_of(b),
{
    assert forall|text: Seq<char>| has_path(a, text) == has_path(b, text) by {
        if has_path(a, text) {
            let i = choose|i: int| 0 <= i < a.len() && (#[trigger] a[i]).path == text;
            let j = choose|j: int| 0 <= j < b.len() && b[j] == a[i];
            assert(b[j].path == text);
        }
        if has_path(b, text) {
            let j = choose|j: int| 0 <= j < b.len() && (#[trigger] b[j]).path == text;
            let i = choose|i: int| 0 <= i < a.len() && a[i] == b[j];
            assert(a[i].path == text);
        }
    }
    assert forall|text: Seq<char>| has_title(a, text) == has_title(b, text) by {
        if has_title(a, text) {
            let i = choose|i: int| 0 <= i < a.len() && (#[trigger] a[i]).title == text;
            let j = choose|j: int| 0 <= j < b.len() && b[j] == a[i];
            assert(b[j].title == text);
        }
        if has_title(b, text) {
            let j = choose|j: int| 0 <= j < b.len() && (#[trigger] b[j]).title == text;
            let i = choose|i: int| 0 <= i < a.len() && a[i] == b[j];
            assert(a[i].title == text);
        }
    }
    assert forall|text: Seq<char>| has_title(a, text) implies a[last_titled(a, text)]
        == b[last_titled(b, text)] by {
        lemma_last_titled(a, text);
        lemma_last_titled(b, text);
        let i = last_titled(a, text);
        let j = last_titled(b, text);
        let k = choose|k: int| 0 <= k < a.len() && a[k] == b[j];
        assert(a[k].title == text);
        if k < i {
            assert(a[k].title != a[i].title);
        }
        if i < k {
            assert(a[i].title != a[k].title);
        }
    }
    assert(index_of(a) =~= index_of(b));
    lemma_same_index_same_notes(a, b);
}

/// Two vaults that were built from the same documents, read in different
/// orders, are equal, as long as no two documents share a title.
pub proof fn lemma_builds_equal(a: Seq<SourceView>, b: Seq<SourceView>, of_a: Vault, of_b: Vault)
    requires
        distinct(a),
        distinct(b),
        same_documents(a, b),
        titles_differ(a),
        of_a@.notes == notes_of(a),
        of_b@.notes == notes_of(b),
    ensures
        of_a.eq_spec(&of_b),
{
    lemma_order_independent(a, b);
}

} // verus!
