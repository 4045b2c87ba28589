//! Building a vault from documents: first every document is registered as a
//! note, then the references in every note are resolved into edges.
//!
//! The order matters: a reference may lead to a document that is read later,
//! so no reference is resolved before all notes are known.

use crate::note::{spec_note_id, Edge, NoteId, NoteView};
use crate::vault::{conflict, edges, BuildError, BuildErrorView, Vault, VaultView};
use vstd::prelude::*;

verus! {

/// One document as it was read: where it came from, its title and its text.
#[derive(Clone, Debug)]
pub struct Source {
    pub path: String,
    pub title: String,
    pub content: String,
}

/// The mathematical value of a [`Source`].
pub struct SourceView {
    pub path: Seq<char>,
    pub title: Seq<char>,
    pub content: Seq<char>,
}

impl View for Source {
    type V = SourceView;

    open spec fn view(&self) -> SourceView {
        SourceView { path: self.path@, title: self.title@, content: self.content@ }
    }
}

/// The identifier of the note that the document at `i` becomes.
pub open spec fn id_at(sources: Seq<SourceView>, i: int) -> NoteId {
    spec_note_id(sources[i].path)
}

/// Whether an earlier document has the identifier of the document at `j`.
pub open spec fn clashes(sources: Seq<SourceView>, j: int) -> bool {
    exists|i: int| 0 <= i < j && #[trigger] id_at(sources, i) == id_at(sources, j)
}

/// Whether no two documents have the same identifier. Documents with the same
/// path have the same identifier.
pub open spec fn distinct(sources: Seq<SourceView>) -> bool {
    forall|j: int| 0 <= j < sources.len() ==> !#[trigger] clashes(sources, j)
}

/// Where the first document stands that has the identifier of an earlier one.
pub open spec fn first_clash(sources: Seq<SourceView>) -> int {
    choose|j: int|
        0 <= j < sources.len() && #[trigger] clashes(sources, j) && forall|k: int|
            0 <= k < j ==> !#[trigger] clashes(sources, k)
}

/// The error that a build of documents ends in which are not distinct: it
/// names the first document that has the identifier of an earlier one.
pub open spec fn clash_error(sources: Seq<SourceView>) -> BuildErrorView {
    let j = first_clash(sources);
    let i = choose|i: int| 0 <= i < j && #[trigger] id_at(sources, i) == id_at(sources, j);
    conflict(sources[i].path, sources[j].path)
}

/// Whether a document has the identifier `id`.
pub open spec fn has_id(sources: Seq<SourceView>, id: NoteId) -> bool {
    exists|i: int| 0 <= i < sources.len() && #[trigger] id_at(sources, i) == id
}

/// Where the document with the identifier `id` stands.
pub open spec fn position(sources: Seq<SourceView>, id: NoteId) -> int {
    choose|i: int| 0 <= i < sources.len() && #[trigger] id_at(sources, i) == id
}

/// Whether a document has the path `text`.
pub open spec fn has_path(sources: Seq<SourceView>, text: Seq<char>) -> bool {
    exists|i: int| 0 <= i < sources.len() && (#[trigger] sources[i]).path == text
}

/// Whether a document has the title `text`.
pub open spec fn has_title(sources: Seq<SourceView>, text: Seq<char>) -> bool {
    exists|i: int| 0 <= i < sources.len() && (#[trigger] sources[i]).title == text
}

/// Whether the document at `i` is the last one with the title `text`.
pub open spec fn is_last_titled(sources: Seq<SourceView>, text: Seq<char>, i: int) -> bool {
    &&& 0 <= i < sources.len()
    &&& sources[i].title == text
    &&& forall|j: int| i < j < sources.len() ==> (#[trigger] sources[j]).title != text
}

/// Where the last document with the title `text` stands.
pub open spec fn last_titled(sources: Seq<SourceView>, text: Seq<char>) -> int {
    choose|i: int| is_last_titled(sources, text, i)
}

/// The index of a vault built from `sources`.
///
/// A path leads to the note of the document that has it. A title that is no
/// document's path leads to the note of the last document that has it.
pub open spec fn index_of(sources: Seq<SourceView>) -> Map<Seq<char>, NoteId> {
    Map::new(
        |text: Seq<char>| has_path(sources, text) || has_title(sources, text),
        |text: Seq<char>|
            if has_path(sources, text) {
                spec_note_id(text)
            } else {
                id_at(sources, last_titled(sources, text))
            },
    )
}

/// The notes of `sources` before any reference is resolved.
pub open spec fn registered(sources: Seq<SourceView>) -> Map<NoteId, NoteView> {
    Map::new(
        |id: NoteId| has_id(sources, id),
        |id: NoteId|
            {
                let source = sources[position(sources, id)];
                NoteView {
                    title: source.title,
                    path: source.path,
                    content: source.content,
                    adjacencies: Map::empty(),
                }
            },
    )
}

/// The notes of a vault built from `sources`: one for each document, with an
/// edge to each note that a reference in its text leads to.
pub open spec fn notes_of(sources: Seq<SourceView>) -> Map<NoteId, NoteView> {
    Map::new(
        |id: NoteId| has_id(sources, id),
        |id: NoteId|
            {
                let source = sources[position(sources, id)];
                NoteView {
                    title: source.title,
                    path: source.path,
                    content: source.content,
                    adjacencies: edges(index_of(sources), source.content),
                }
            },
    )
}

/// The notes of `sources` when the references of the first `done` documents
/// are resolved and those of the others are not.
pub open spec fn linked_upto(sources: Seq<SourceView>, done: int) -> Map<NoteId, NoteView> {
    Map::new(
        |id: NoteId| has_id(sources, id),
        |id: NoteId|
            if position(sources, id) < done {
                notes_of(sources)[id]
            } else {
                registered(sources)[id]
            },
    )
}

/// Among distinct documents an identifier is found at one place only.
pub proof fn lemma_position(sources: Seq<SourceView>, i: int)
    requires
        distinct(sources),
        0 <= i < sources.len(),
    ensures
        has_id(sources, id_at(sources, i)),
        position(sources, id_at(sources, i)) == i,
{
    let id = id_at(sources, i);
    let at = position(sources, id);
    assert(id_at(sources, at) == id);
    if at < i {
        assert(clashes(sources, i));
    }
    if i < at {
        assert(clashes(sources, at));
    }
}

/// A title that a document has is the title of a last document.
pub proof fn lemma_last_titled(sources: Seq<SourceView>, text: Seq<char>)
    requires
        has_title(sources, text),
    ensures
        is_last_titled(sources, text, last_titled(sources, text)),
    decreases sources.len(),
{
    let last = sources.len() - 1;
    if sources[last].title == text {
        assert(is_last_titled(sources, text, last));
    } else {
        let front = sources.drop_last();
        let i = choose|i: int| 0 <= i < sources.len() && (#[trigger] sources[i]).title == text;
        assert(front[i].title == text);
        lemma_last_titled(front, text);
        let at = last_titled(front, text);
        assert(is_last_titled(sources, text, at)) by {
            assert(sources[at] == front[at]);
            assert forall|j: int| at < j < sources.len() implies (#[trigger] sources[j]).title
                != text by {
                if j < last {
                    assert(front[j] == sources[j]);
                }
            }
        }
    }
}

/// Only one document is the last one with a given title.
pub proof fn lemma_last_titled_is(sources: Seq<SourceView>, text: Seq<char>, i: int)
    requires
        is_last_titled(sources, text, i),
    ensures
        last_titled(sources, text) == i,
{
    let at = last_titled(sources, text);
    assert(is_last_titled(sources, text, at));
    if at < i {
        assert(sources[i].title != text);
    }
    if i < at {
        assert(sources[at].title != text);
    }
}

/// Registering one more document, whose identifier no earlier document has,
/// gives the notes and the index of the longer sequence of documents.
pub proof fn lemma_register(sources: Seq<SourceView>, next: SourceView)
    requires
        distinct(sources),
        !has_id(sources, spec_note_id(next.path)),
    ensures
        distinct(sources.push(next)),
        (VaultView { notes: registered(sources), index: index_of(sources) }).with_note(
            spec_note_id(next.path),
            next.path,
            next.title,
            next.content,
        ) == (VaultView {
            notes: registered(sources.push(next)),
            index: index_of(sources.push(next)),
        }),
{
    let id = spec_note_id(next.path);
    let longer = sources.push(next);
    let len = sources.len() as int;
    let before = VaultView { notes: registered(sources), index: index_of(sources) };
    let after = before.with_note(id, next.path, next.title, next.content);
    assert(longer[len] == next);
    assert forall|i: int| 0 <= i < len implies longer[i] == sources[i] && id_at(longer, i) == id_at(
        sources,
        i,
    ) by {}
    assert(id_at(longer, len) == id);

    assert(distinct(longer)) by {
        assert forall|j: int| 0 <= j < longer.len() implies !#[trigger] clashes(longer, j) by {
            if clashes(longer, j) {
                let i = choose|i: int| 0 <= i < j && #[trigger] id_at(longer, i) == id_at(longer, j);
                assert(id_at(sources, i) == id_at(longer, i));
                if j < len {
                    assert(clashes(sources, j));
                } else {
                    assert(has_id(sources, id));
                }
            }
        }
    }

    assert forall|k: NoteId| has_id(longer, k) <==> (has_id(sources, k) || k == id) by {
        if has_id(longer, k) {
            let i = choose|i: int| 0 <= i < longer.len() && #[trigger] id_at(longer, i) == k;
            if i < len {
                assert(id_at(sources, i) == k);
            }
        }
        if has_id(sources, k) {
            let i = choose|i: int| 0 <= i < sources.len() && #[trigger] id_at(sources, i) == k;
            assert(id_at(longer, i) == k);
        }
        if k == id {
            assert(id_at(longer, len) == k);
        }
    }
    assert forall|k: NoteId| has_id(sources, k) implies longer[position(longer, k)]
        == sources[position(sources, k)] by {
        let i = position(sources, k);
        assert(id_at(longer, i) == k);
        lemma_position(longer, i);
    }
    assert(longer[position(longer, id)] == next) by {
        lemma_position(longer, len);
    }
    assert(after.notes =~= registered(longer));

    assert forall|text: Seq<char>| has_path(longer, text) <==> (has_path(sources, text) || text
        == next.path) by {
        if has_path(longer, text) {
            let i = choose|i: int| 0 <= i < longer.len() && (#[trigger] longer[i]).path == text;
            if i < len {
                assert(sources[i].path == text);
            }
        }
        if has_path(sources, text) {
            let i = choose|i: int| 0 <= i < sources.len() && (#[trigger] sources[i]).path == text;
            assert(longer[i].path == text);
        }
        if text == next.path {
            assert(longer[len].path == text);
        }
    }
    assert forall|text: Seq<char>| has_title(longer, text) <==> (has_title(sources, text) || text
        == next.title) by {
        if has_title(longer, text) {
            let i = choose|i: int| 0 <= i < longer.len() && (#[trigger] longer[i]).title == text;
            if i < len {
                assert(sources[i].title == text);
            }
        }
        if has_title(sources, text) {
            let i = choose|i: int| 0 <= i < sources.len() && (#[trigger] sources[i]).title == text;
            assert(longer[i].title == text);
        }
        if text == next.title {
            assert(longer[len].title == text);
        }
    }
    assert(before.finds_path(next.title) <==> has_path(sources, next.title)) by {
        if has_path(sources, next.title) {
            let i = choose|i: int|
                0 <= i < sources.len() && (#[trigger] sources[i]).path == next.title;
            lemma_position(sources, i);
        }
    }
    assert forall|text: Seq<char>|
        has_title(longer, text) && !has_path(longer, text) implies after.index[text] == id_at(
        longer,
        last_titled(longer, text),
    ) by {
        if text == next.title {
            assert(is_last_titled(longer, text, len));
            lemma_last_titled_is(longer, text, len);
        } else {
            lemma_last_titled(sources, text);
            let at = last_titled(sources, text);
            assert(is_last_titled(longer, text, at)) by {
                assert forall|j: int| at < j < longer.len() implies (#[trigger] longer[j]).title
                    != text by {
                    if j < len {
                        assert(sources[j].title != text);
                    }
                }
            }
            lemma_last_titled_is(longer, text, at);
        }
    }
    assert(after.index =~= index_of(longer));
}

/// Resolving the references of the document at `done` too gives the notes in
/// which one more document has its edges.
pub proof fn lemma_link(sources: Seq<SourceView>, done: int)
    requires
        distinct(sources),
        0 <= done < sources.len(),
    ensures
        (VaultView { notes: linked_upto(sources, done), index: index_of(sources) }).with_links(
            id_at(sources, done),
        ) == (VaultView { notes: linked_upto(sources, done + 1), index: index_of(sources) }),
{
    let id = id_at(sources, done);
    let before = VaultView { notes: linked_upto(sources, done), index: index_of(sources) };
    let after = before.with_links(id);
    lemma_position(sources, done);
    let found = edges(index_of(sources), sources[done].content);
    assert(Map::<NoteId, Edge>::empty().union_prefer_right(found) =~= found);
    assert(after.notes =~= linked_upto(sources, done + 1));
}

/// The index of a build leads from a path to the note of the document that
/// has the path.
pub proof fn lemma_path_indexed(sources: Seq<SourceView>, i: int)
    requires
        0 <= i < sources.len(),
    ensures
        index_of(sources).contains_key(sources[i].path),
        index_of(sources)[sources[i].path] == id_at(sources, i),
{
    assert(has_path(sources, sources[i].path));
}

/// The index of a build leads from a title that is no document's path to the
/// note of the last document that has the title.
pub proof fn lemma_title_indexed(sources: Seq<SourceView>, i: int)
    requires
        is_last_titled(sources, sources[i].title, i),
        !has_path(sources, sources[i].title),
    ensures
        index_of(sources).contains_key(sources[i].title),
        index_of(sources)[sources[i].title] == id_at(sources, i),
{
    assert(has_title(sources, sources[i].title));
    lemma_last_titled_is(sources, sources[i].title, i);
}

/// The index of a build leads to notes of the build only, and from a text
/// only to a note that has the text as its path or title.
pub proof fn lemma_index_sound(sources: Seq<SourceView>, text: Seq<char>)
    requires
        distinct(sources),
        index_of(sources).contains_key(text),
    ensures
        has_id(sources, index_of(sources)[text]),
        notes_of(sources)[index_of(sources)[text]].path == text || notes_of(
            sources,
        )[index_of(sources)[text]].title == text,
{
    if has_path(sources, text) {
        let i = choose|i: int| 0 <= i < sources.len() && (#[trigger] sources[i]).path == text;
        lemma_position(sources, i);
    } else {
        lemma_last_titled(sources, text);
        lemma_position(sources, last_titled(sources, text));
    }
}

/// The vault of a build is well formed: its edges lead to its notes, and its
/// notes and its index agree.
pub proof fn lemma_built_well_formed(sources: Seq<SourceView>)
    requires
        distinct(sources),
    ensures
        (VaultView { notes: notes_of(sources), index: index_of(sources) }).well_formed(),
{
    let built = VaultView { notes: notes_of(sources), index: index_of(sources) };
    assert forall|text: Seq<char>| #[trigger] built.index.contains_key(text) implies
        built.notes.contains_key(built.index[text]) && (built.notes[built.index[text]].path == text
        || built.notes[built.index[text]].title == text) by {
        lemma_index_sound(sources, text);
    }
    assert forall|from: NoteId, to: NoteId|
        built.notes.contains_key(from) && #[trigger] built.notes[from].adjacencies.contains_key(
            to,
        ) implies built.notes.contains_key(to) by {
        let content = sources[position(sources, from)].content;
        let i = choose|i: int|
            0 <= i < crate::links::links(content).len() && built.index.contains_key(
                #[trigger] crate::links::links(content)[i],
            ) && built.index[crate::links::links(content)[i]] == to;
        lemma_index_sound(sources, crate::links::links(content)[i]);
    }
    assert forall|id: NoteId| #[trigger] built.notes.contains_key(id) implies {
        &&& id == spec_note_id(built.notes[id].path)
        &&& built.index.contains_key(built.notes[id].path)
        &&& built.index[built.notes[id].path] == id
        &&& built.index.contains_key(built.notes[id].title)
    } by {
        let i = position(sources, id);
        lemma_path_indexed(sources, i);
        assert(has_title(sources, sources[i].title));
    }
}

/// Collects documents and builds a vault from them.
pub struct VaultBuilder {
    sources: Vec<Source>,
}

impl View for VaultBuilder {
    type V = Seq<SourceView>;

    closed spec fn view(&self) -> Seq<SourceView> {
        self.sources@.map_values(|s: Source| s@)
    }
}

impl VaultBuilder {
    /// A builder without documents.
    pub fn new() -> (builder: VaultBuilder)
        ensures
            builder@ == Seq::<SourceView>::empty(),
    {
        let builder = VaultBuilder { sources: Vec::new() };
        assert(builder@ =~= Seq::<SourceView>::empty());
        builder
    }

    /// The builder with one more document, behind those it has.
    pub fn source(self, path: String, title: String, content: String) -> (builder: VaultBuilder)
        ensures
            builder@ == self@.push(SourceView { path: path@, title: title@, content: content@ }),
    {
        let mut sources = self.sources;
        sources.push(Source { path, title, content });
        let builder = VaultBuilder { sources };
        assert(builder@ =~= self@.push(
            SourceView { path: path@, title: title@, content: content@ },
        ));
        builder
    }

    /// Builds the vault of the collected documents.
    ///
    /// The build succeeds when no two documents have the same identifier,
    /// that is, when no two have the same path and no two paths share their
    /// hash. Else it ends at the first document whose identifier is taken.
    /// A reference that leads to no note gives no edge.
    pub fn build(self) -> (built: Result<Vault, BuildError>)
        ensures
            match built {
                Ok(vault) => {
                    &&& distinct(self@)
                    &&& vault@.notes == notes_of(self@)
                    &&& vault@.index == index_of(self@)
                    &&& vault@.well_formed()
                },
                Err(error) => !distinct(self@) && error@ == clash_error(self@),
            },
    {
        let ghost all = self@;
        let mut vault = Vault::new();
        let mut ids: Vec<NoteId> = Vec::new();
        proof {
            assert(vault@.notes =~= registered(all.take(0)));
            assert(vault@.index =~= index_of(all.take(0)));
        }
        for source in it: self.sources
            invariant
                it.seq().map_values(|s: Source| s@) == all,
                it.index() <= it.seq().len(),
                distinct(all.take(it.index() as int)),
                vault@.notes == registered(all.take(it.index() as int)),
                vault@.index == index_of(all.take(it.index() as int)),
                ids@.len() == it.index(),
                forall|i: int| 0 <= i < ids@.len() ==> #[trigger] ids@[i] == id_at(all, i),
        {
            let ghost at = it.index() as int;
            let ghost front = all.take(at);
            let ghost next = source@;
            proof {
                assert(all[at] == next);
                assert(all.take(at + 1) =~= front.push(next));
                assert forall|i: int| 0 <= i < at implies id_at(front, i) == id_at(all, i) by {}
            }
            match vault.register(source.path, source.title, source.content) {
                Ok(id) => {
                    proof {
                        lemma_register(front, next);
                        assert(vault@ == (VaultView {
                            notes: registered(front.push(next)),
                            index: index_of(front.push(next)),
                        }));
                    }
                    ids.push(id);
                },
                Err(error) => {
                    proof {
                        let id = spec_note_id(next.path);
                        assert(has_id(front, id));
                        let i = position(front, id);
                        assert(id_at(all, i) == id_at(all, at));
                        assert(clashes(all, at));
                        assert forall|k: int| 0 <= k < at implies !#[trigger] clashes(all, k) by {
                            if clashes(all, k) {
                                let j = choose|j: int|
                                    0 <= j < k && #[trigger] id_at(all, j) == id_at(all, k);
                                assert(id_at(front, j) == id_at(front, k));
                                assert(clashes(front, k));
                            }
                        }
                        let first = first_clash(all);
                        assert(first == at) by {
                            if first < at {
                            }
                            if at < first {
                            }
                        }
                        let earlier = choose|i: int|
                            0 <= i < first && #[trigger] id_at(all, i) == id_at(all, first);
                        assert(id_at(front, earlier) == id);
                        lemma_position(front, earlier);
                        assert(earlier == i);
                    }
                    return Err(error);
                },
            }
        }
        proof {
            assert(all.take(all.len() as int) =~= all);
            assert(linked_upto(all, 0) =~= registered(all));
        }
        let mut done: usize = 0;
        while done < ids.len()
            invariant
                done <= ids@.len(),
                ids@.len() == all.len(),
                distinct(all),
                forall|i: int| 0 <= i < ids@.len() ==> #[trigger] ids@[i] == id_at(all, i),
                vault@.notes == linked_upto(all, done as int),
                vault@.index == index_of(all),
            decreases ids@.len() - done,
        {
            proof {
                lemma_position(all, done as int);
                lemma_link(all, done as int);
            }
            vault.link(ids[done]);
            done = done + 1;
        }
        proof {
            assert forall|id: NoteId| has_id(all, id) implies position(all, id) < all.len() by {}
            assert(linked_upto(all, all.len() as int) =~= notes_of(all));
            lemma_built_well_formed(all);
        }
        Ok(vault)
    }
}

impl Default for VaultBuilder {
    fn default() -> (builder: VaultBuilder)
        ensures
            builder@ == Seq::<SourceView>::empty(),
    {
        VaultBuilder::new()
    }
}

} // verus!
