//! The vault: the notes of a build, by identifier, and the index that finds a
//! note by its title or path.

use crate::links::{extract_links, links};
use crate::note::{entries_of, keys_of, note_id, spec_note_id, Edge, Note, NoteId, NoteView};
use std::collections::HashMap;
use vstd::hash_map::StringHashMap;
use vstd::prelude::*;
use vstd::std_specs::cmp::PartialEqSpecImpl;

verus! {

/// A directed graph whose nodes are [`Note`]s.
///
/// Each note holds its outgoing edges. Which notes lead to a given note is
/// found by going through all notes, see [`Vault::backlinks`].
pub struct Vault {
    notes: HashMap<NoteId, Note>,
    id_lookup: StringHashMap<NoteId>,
}

/// The mathematical value of a [`Vault`].
pub struct VaultView {
    /// The notes, by identifier.
    pub notes: Map<NoteId, NoteView>,
    /// The identifier that each indexed title or path leads to.
    pub index: Map<Seq<char>, NoteId>,
}

/// The edges that a text gives rise to under an index: one to each note that
/// a reference in the text leads to.
pub open spec fn edges(index: Map<Seq<char>, NoteId>, content: Seq<char>) -> Map<NoteId, Edge> {
    Map::new(
        |id: NoteId|
            exists|i: int|
                0 <= i < links(content).len() && index.contains_key(#[trigger] links(content)[i])
                    && index[links(content)[i]] == id,
        |id: NoteId| Edge::Connected,
    )
}

/// Those of the references `targets` that lead to no note under an index, in
/// their order.
pub open spec fn dangling(index: Map<Seq<char>, NoteId>, targets: Seq<Seq<char>>) -> Seq<
    Seq<char>,
>
    decreases targets.len(),
{
    if targets.len() == 0 {
        Seq::empty()
    } else if index.contains_key(targets.last()) {
        dangling(index, targets.drop_last())
    } else {
        dangling(index, targets.drop_last()).push(targets.last())
    }
}

impl VaultView {
    /// Whether the title of the note `id` leads to another note: to one that
    /// has the title as its path, or to one that was registered later with
    /// the same title.
    pub open spec fn shadows(self, id: NoteId) -> bool {
        self.notes.contains_key(id) && !(self.index.contains_key(self.notes[id].title)
            && self.index[self.notes[id].title] == id)
    }

    /// Whether the index leads from `text` to a note that has `text` as its
    /// path.
    pub open spec fn finds_path(self, text: Seq<char>) -> bool {
        self.index.contains_key(text) && self.notes.contains_key(self.index[text])
            && self.notes[self.index[text]].path == text
    }

    /// Whether the note `from` has an edge that says it is connected to the
    /// note `to`.
    pub open spec fn connects(self, from: NoteId, to: NoteId) -> bool {
        self.notes.contains_key(from) && self.notes[from].adjacencies.contains_key(to)
            && self.notes[from].adjacencies[to] == Edge::Connected
    }

    /// Whether every edge leads to a note of the vault.
    pub open spec fn closed(self) -> bool {
        forall|from: NoteId, to: NoteId|
            self.notes.contains_key(from) && #[trigger] self.notes[from].adjacencies.contains_key(
                to,
            ) ==> self.notes.contains_key(to)
    }

    /// Whether the index leads to notes of the vault only, and from a text
    /// only to a note that has the text as its path or title.
    pub open spec fn index_sound(self) -> bool {
        forall|text: Seq<char>| #[trigger]
            self.index.contains_key(text) ==> self.notes.contains_key(self.index[text]) && (
            self.notes[self.index[text]].path == text || self.notes[self.index[text]].title
                == text)
    }

    /// Whether every note has the identifier that belongs to its path, is
    /// found by its path, and has a title that the index knows.
    pub open spec fn notes_indexed(self) -> bool {
        forall|id: NoteId| #[trigger]
            self.notes.contains_key(id) ==> {
                &&& id == spec_note_id(self.notes[id].path)
                &&& self.index.contains_key(self.notes[id].path)
                &&& self.index[self.notes[id].path] == id
                &&& self.index.contains_key(self.notes[id].title)
            }
    }

    /// What holds of every vault that was built: the edges lead to notes of
    /// the vault, and notes and index agree.
    pub open spec fn well_formed(self) -> bool {
        self.closed() && self.index_sound() && self.notes_indexed()
    }

    /// The vault with one more note, which has no edges yet.
    ///
    /// The path leads to the new note from now on. So does the title, unless
    /// it is the path of a note: a path always leads to the note that has it.
    pub open spec fn with_note(
        self,
        id: NoteId,
        path: Seq<char>,
        title: Seq<char>,
        content: Seq<char>,
    ) -> VaultView {
        let titled = if self.finds_path(title) {
            self.index
        } else {
            self.index.insert(title, id)
        };
        VaultView {
            notes: self.notes.insert(
                id,
                NoteView { title, path, content, adjacencies: Map::empty() },
            ),
            index: titled.insert(path, id),
        }
    }

    /// The vault in which the note `id` has, besides the edges it had, those
    /// that its text gives rise to.
    pub open spec fn with_links(self, id: NoteId) -> VaultView {
        let note = self.notes[id];
        VaultView {
            notes: self.notes.insert(
                id,
                NoteView {
                    adjacencies: note.adjacencies.union_prefer_right(
                        edges(self.index, note.content),
                    ),
                    ..note
                },
            ),
            index: self.index,
        }
    }
}

/// Why a note could not be registered.
#[derive(Debug)]
pub enum BuildError {
    /// A note with this path is registered already.
    DuplicatePath { path: String },
    /// The note at `other`, registered already, has the identifier that
    /// belongs to `path` too.
    IdCollision { path: String, other: String },
}

/// The mathematical value of a [`BuildError`].
pub enum BuildErrorView {
    DuplicatePath { path: Seq<char> },
    IdCollision { path: Seq<char>, other: Seq<char> },
}

impl View for BuildError {
    type V = BuildErrorView;

    open spec fn view(&self) -> BuildErrorView {
        match self {
            BuildError::DuplicatePath { path } => BuildErrorView::DuplicatePath { path: path@ },
            BuildError::IdCollision { path, other } => BuildErrorView::IdCollision {
                path: path@,
                other: other@,
            },
        }
    }
}

/// The error that registering a note with the path `path` ends in, where a
/// note with the path `taken` has the identifier that belongs to `path`.
pub open spec fn conflict(taken: Seq<char>, path: Seq<char>) -> BuildErrorView {
    if taken == path {
        BuildErrorView::DuplicatePath { path }
    } else {
        BuildErrorView::IdCollision { path, other: taken }
    }
}

impl View for Vault {
    type V = VaultView;

    closed spec fn view(&self) -> VaultView {
        VaultView { notes: self.notes@.map_values(|n: Note| n@), index: self.id_lookup@ }
    }
}

/// Calls `HashMap::get_mut`.
///
/// Without the key in the map the result is `None` and the map stays as it
/// is. With the key in the map the result is a reference to the value stored
/// under it, and whatever is written through the reference is what the map
/// holds under that key afterwards; nothing else in the map changes.
#[verifier::external_body]
fn slot_of<'a>(map: &'a mut HashMap<NoteId, Note>, id: NoteId) -> (slot: Option<&'a mut Note>)
    ensures
        match slot {
            Some(note) => old(map)@.contains_key(id) && *note == old(map)@[id] && final(map)@
                == old(map)@.insert(id, *final(note)),
            None => !old(map)@.contains_key(id) && final(map)@ == old(map)@,
        },
{
    map.get_mut(&id)
}

/// Calls `HashMap::iter_mut` and collects what it hands out.
///
/// Every entry of the map is handed out once, as its key and a reference to
/// its value. Whatever is written through a reference is what the map holds
/// under that key afterwards; the keys of the map stay as they are.
#[verifier::external_body]
fn slots_of<'a>(map: &'a mut HashMap<NoteId, Note>) -> (slots: Vec<(&'a NoteId, &'a mut Note)>)
    ensures
        slots@.len() == old(map)@.len(),
        final(map)@.dom() == old(map)@.dom(),
        forall|i: int|
            0 <= i < slots@.len() ==> old(map)@.contains_key(*(#[trigger] slots@[i]).0)
                && *slots@[i].1 == old(map)@[*slots@[i].0]
                && *final(slots@[i].1) == final(map)@[*slots@[i].0],
        forall|i: int, j: int|
            0 <= i < j < slots@.len() ==> *(#[trigger] slots@[i]).0 != *(#[trigger] slots@[j]).0,
{
    map.iter_mut().collect()
}

impl Vault {
    /// A vault without notes.
    pub fn new() -> (vault: Vault)
        ensures
            vault@.notes == Map::<NoteId, NoteView>::empty(),
            vault@.index == Map::<Seq<char>, NoteId>::empty(),
    {
        let vault = Vault { notes: HashMap::new(), id_lookup: StringHashMap::new() };
        assert(vault@.notes =~= Map::<NoteId, NoteView>::empty());
        vault
    }

    /// The note with the identifier `id`, if the vault holds one.
    pub fn get(&self, id: &NoteId) -> (found: Option<&Note>)
        ensures
            match found {
                Some(note) => self@.notes.contains_key(*id) && note@ == self@.notes[*id],
                None => !self@.notes.contains_key(*id),
            },
    {
        self.notes.get(id)
    }

    /// The note with the identifier `id`, if the vault holds one, for writing.
    ///
    /// What is written to the note is what the vault holds under `id`
    /// afterwards. The index is not brought up to date: it keeps leading to
    /// the identifiers it led to before.
    pub fn get_mut(&mut self, id: &NoteId) -> (found: Option<&mut Note>)
        ensures
            final(self)@.index == old(self)@.index,
            match found {
                Some(note) => old(self)@.notes.contains_key(*id) && note@ == old(self)@.notes[*id]
                    && final(self)@.notes =~= old(self)@.notes.insert(*id, final(note)@),
                None => !old(self)@.notes.contains_key(*id) && final(self)@.notes == old(self)@.notes,
            },
    {
        slot_of(&mut self.notes, *id)
    }

    /// The number of notes in the vault.
    pub fn len(&self) -> (count: usize)
        ensures
            count == self@.notes.len(),
    {
        proof {
            self.lemma_same_ids();
        }
        self.notes.len()
    }

    /// Whether the vault holds no note.
    pub fn is_empty(&self) -> (empty: bool)
        ensures
            empty == (self@.notes.len() == 0),
    {
        proof {
            self.lemma_same_ids();
        }
        self.notes.len() == 0
    }

    /// The identifier of the note that has `title_or_path` as its title or
    /// path, as the index has it.
    ///
    /// A path leads to the one note that has it. Where several notes share a
    /// title, the title leads to the one of them that was registered last.
    pub fn id_of(&self, title_or_path: &str) -> (found: Option<&NoteId>)
        ensures
            match found {
                Some(id) => self@.index.contains_key(title_or_path@) && *id
                    == self@.index[title_or_path@],
                None => !self@.index.contains_key(title_or_path@),
            },
    {
        self.id_lookup.get(title_or_path)
    }

    /// All notes with their identifiers, in no particular order.
    pub fn iter(&self) -> (notes: Notes<'_>)
        ensures
            notes.remaining().len() == self@.notes.len(),
            forall|i: int|
                0 <= i < notes.remaining().len() ==> self@.notes.contains_key(
                    (#[trigger] notes.remaining()[i]).0,
                ) && self@.notes[notes.remaining()[i].0] == notes.remaining()[i].1,
            forall|i: int, j: int|
                0 <= i < j < notes.remaining().len() ==> (#[trigger] notes.remaining()[i]).0 != (
                #[trigger] notes.remaining()[j]).0,
            forall|id: NoteId|
                self@.notes.contains_key(id) ==> exists|i: int|
                    0 <= i < notes.remaining().len() && (#[trigger] notes.remaining()[i]).0 == id,
    {
        proof {
            self.lemma_same_ids();
        }
        let entries = entries_of(&self.notes);
        let notes = Notes { entries, at: 0 };
        proof {
            assert(notes.remaining() =~= entries@.map_values(
                |e: (&NoteId, &Note)| (*e.0, e.1@),
            ));
            assert forall|id: NoteId| self@.notes.contains_key(id) implies exists|i: int|
                0 <= i < notes.remaining().len() && (#[trigger] notes.remaining()[i]).0
                    == id by {
                let i = choose|i: int| 0 <= i < entries@.len() && *(#[trigger] entries@[i]).0 == id;
                assert(notes.remaining()[i].0 == id);
            }
        }
        notes
    }

    /// All notes with their identifiers, in no particular order, for writing.
    ///
    /// What is written to a note is what the vault holds under its identifier
    /// afterwards. The index is not brought up to date. An edge that is added
    /// to a note should lead to a note of the vault.
    pub fn iter_mut(&mut self) -> (notes: NotesMut<'_>)
        ensures
            notes.entries@.len() == old(self)@.notes.len(),
            final(self)@.index == old(self)@.index,
            final(self)@.notes.dom() == old(self)@.notes.dom(),
            forall|i: int|
                0 <= i < notes.entries@.len() ==> old(self)@.notes.contains_key(
                    *(#[trigger] notes.entries@[i]).0,
                ) && old(self)@.notes[*notes.entries@[i].0] == notes.entries@[i].1@
                    && final(self)@.notes[*notes.entries@[i].0] == final(notes.entries@[i].1)@,
            forall|i: int, j: int|
                0 <= i < j < notes.entries@.len() ==> *(#[trigger] notes.entries@[i]).0 != *(
                #[trigger] notes.entries@[j]).0,
    {
        proof {
            self.lemma_same_ids();
        }
        NotesMut { entries: slots_of(&mut self.notes) }
    }

    /// The identifiers of the notes that are connected to the note `id`, each
    /// once, in no particular order.
    ///
    /// The vault need not hold a note `id`: then no note is connected to it.
    pub fn backlinks(&self, id: NoteId) -> (sources: Vec<NoteId>)
        ensures
            sources@.no_duplicates(),
            forall|from: NoteId| sources@.contains(from) <==> self@.connects(from, id),
            self@.closed() && !self@.notes.contains_key(id) ==> sources@.len() == 0,
    {
        let entries = entries_of(&self.notes);
        let mut sources: Vec<NoteId> = Vec::new();
        let mut i: usize = 0;
        while i < entries.len()
            invariant
                i <= entries@.len(),
                forall|j: int|
                    0 <= j < entries@.len() ==> self.notes@.contains_key(
                        *(#[trigger] entries@[j]).0,
                    ) && *entries@[j].1 == self.notes@[*entries@[j].0],
                forall|j: int, k: int|
                    0 <= j < k < entries@.len() ==> *(#[trigger] entries@[j]).0 != *(
                    #[trigger] entries@[k]).0,
                sources@.no_duplicates(),
                forall|from: NoteId|
                    sources@.contains(from) <==> self@.connects(from, id) && exists|j: int|
                        0 <= j < i && *(#[trigger] entries@[j]).0 == from,
            decreases entries@.len() - i,
        {
            let (from, note) = entries[i];
            let connected = match note.adjacencies.get(&id) {
                Some(Edge::Connected) => true,
                None => false,
            };
            let ghost before = sources@;
            if connected {
                sources.push(*from);
            }
            proof {
                assert(connected == self@.connects(*from, id));
                assert(!before.contains(*from)) by {
                    if before.contains(*from) {
                        let j = choose|j: int| 0 <= j < i && *(#[trigger] entries@[j]).0 == *from;
                    }
                }
                assert forall|other: NoteId| sources@.contains(other) <==> self@.connects(
                    other,
                    id,
                ) && exists|j: int| 0 <= j < i + 1 && *(#[trigger] entries@[j]).0 == other by {
                    if sources@.contains(other) {
                        let at = choose|at: int| 0 <= at < sources@.len() && sources@[at] == other;
                        if at < before.len() {
                            assert(before[at] == other);
                            assert(before.contains(other));
                            let j = choose|j: int|
                                0 <= j < i && *(#[trigger] entries@[j]).0 == other;
                            assert(0 <= j < i + 1 && *entries@[j].0 == other);
                        } else {
                            assert(other == *from);
                            assert(*entries@[i as int].0 == other);
                        }
                    }
                    if self@.connects(other, id) && exists|j: int|
                        0 <= j < i + 1 && *(#[trigger] entries@[j]).0 == other {
                        let j = choose|j: int|
                            0 <= j < i + 1 && *(#[trigger] entries@[j]).0 == other;
                        if j < i {
                            assert(before.contains(other));
                            let at = choose|at: int| 0 <= at < before.len() && before[at] == other;
                            assert(sources@[at] == other);
                        } else {
                            assert(other == *from);
                            assert(sources@[before.len() as int] == other);
                        }
                    }
                }
            }
            i = i + 1;
        }
        proof {
            assert forall|from: NoteId| self@.connects(from, id) implies sources@.contains(
                from,
            ) by {
                let j = choose|j: int| 0 <= j < entries@.len() && *(#[trigger] entries@[j]).0 == from;
            }
            if self@.closed() && !self@.notes.contains_key(id) && sources@.len() > 0 {
                assert(sources@.contains(sources@[0]));
                assert(self@.notes[sources@[0]].adjacencies.contains_key(id));
            }
        }
        sources
    }

    /// The identifiers of the notes that are not found by their title, each
    /// once, in no particular order.
    ///
    /// Such a note shares its title with a note that was registered later, or
    /// its title is the path of a note.
    pub fn shadowed(&self) -> (hidden: Vec<NoteId>)
        ensures
            hidden@.no_duplicates(),
            forall|id: NoteId| hidden@.contains(id) <==> self@.shadows(id),
    {
        let entries = entries_of(&self.notes);
        let mut hidden: Vec<NoteId> = Vec::new();
        let mut i: usize = 0;
        while i < entries.len()
            invariant
                i <= entries@.len(),
                forall|j: int|
                    0 <= j < entries@.len() ==> self.notes@.contains_key(
                        *(#[trigger] entries@[j]).0,
                    ) && *entries@[j].1 == self.notes@[*entries@[j].0],
                forall|j: int, k: int|
                    0 <= j < k < entries@.len() ==> *(#[trigger] entries@[j]).0 != *(
                    #[trigger] entries@[k]).0,
                hidden@.no_duplicates(),
                forall|id: NoteId|
                    hidden@.contains(id) <==> self@.shadows(id) && exists|j: int|
                        0 <= j < i && *(#[trigger] entries@[j]).0 == id,
            decreases entries@.len() - i,
        {
            let (id, note) = entries[i];
            let found = match self.id_lookup.get(note.title.as_str()) {
                Some(leads_to) => *leads_to == *id,
                None => false,
            };
            let ghost before = hidden@;
            if !found {
                hidden.push(*id);
            }
            proof {
                assert(!found == self@.shadows(*id));
                assert(!before.contains(*id)) by {
                    if before.contains(*id) {
                        let j = choose|j: int| 0 <= j < i && *(#[trigger] entries@[j]).0 == *id;
                    }
                }
                assert forall|other: NoteId| hidden@.contains(other) <==> self@.shadows(other)
                    && exists|j: int| 0 <= j < i + 1 && *(#[trigger] entries@[j]).0 == other by {
                    if hidden@.contains(other) {
                        let at = choose|at: int| 0 <= at < hidden@.len() && hidden@[at] == other;
                        if at < before.len() {
                            assert(before[at] == other);
                            assert(before.contains(other));
                            let j = choose|j: int|
                                0 <= j < i && *(#[trigger] entries@[j]).0 == other;
                            assert(0 <= j < i + 1 && *entries@[j].0 == other);
                        } else {
                            assert(other == *id);
                            assert(*entries@[i as int].0 == other);
                        }
                    }
                    if self@.shadows(other) && exists|j: int|
                        0 <= j < i + 1 && *(#[trigger] entries@[j]).0 == other {
                        let j = choose|j: int|
                            0 <= j < i + 1 && *(#[trigger] entries@[j]).0 == other;
                        if j < i {
                            assert(before.contains(other));
                            let at = choose|at: int| 0 <= at < before.len() && before[at] == other;
                            assert(hidden@[at] == other);
                        } else {
                            assert(other == *id);
                            assert(hidden@[before.len() as int] == other);
                        }
                    }
                }
            }
            i = i + 1;
        }
        proof {
            assert forall|id: NoteId| self@.shadows(id) implies hidden@.contains(id) by {
                let j = choose|j: int| 0 <= j < entries@.len() && *(#[trigger] entries@[j]).0 == id;
            }
        }
        hidden
    }

    /// The references in the text of the note `id` that lead to no note, in
    /// the order in which they stand. Without a note `id` there are none.
    pub fn unresolved(&self, id: &NoteId) -> (missing: Vec<String>)
        ensures
            self@.notes.contains_key(*id) ==> missing@.map_values(|t: String| t@) == dangling(
                self@.index,
                links(self@.notes[*id].content),
            ),
            !self@.notes.contains_key(*id) ==> missing@.len() == 0,
    {
        let mut missing: Vec<String> = Vec::new();
        match self.notes.get(id) {
            Some(note) => {
                let targets = extract_links(note.content.as_str());
                let ghost all = links(note.content@);
                let count: usize = targets.len();
                proof {
                    assert(all.take(0) =~= Seq::<Seq<char>>::empty());
                    assert(missing@.map_values(|t: String| t@) =~= Seq::<Seq<char>>::empty());
                }
                let mut i: usize = 0;
                while i < count
                    invariant
                        i <= count,
                        count == all.len(),
                        targets@.len() == count,
                        forall|j: int| 0 <= j < count ==> (#[trigger] targets@[j])@ == all[j],
                        missing@.map_values(|t: String| t@) == dangling(
                            self@.index,
                            all.take(i as int),
                        ),
                    decreases count - i,
                {
                    let target = targets[i].clone();
                    proof {
                        assert(all.take(i + 1).drop_last() =~= all.take(i as int));
                        assert(all.take(i + 1).last() == all[i as int]);
                    }
                    if !self.id_lookup.contains_key(target.as_str()) {
                        proof {
                            assert(missing@.push(target).map_values(|t: String| t@)
                                =~= missing@.map_values(|t: String| t@).push(target@));
                        }
                        missing.push(target);
                    }
                    i = i + 1;
                }
                proof {
                    assert(all.take(count as int) =~= all);
                }
            },
            None => {},
        }
        missing
    }

    /// Takes the vault apart: all notes with their identifiers, in no
    /// particular order.
    pub fn into_iter(self) -> (notes: Vec<(NoteId, Note)>)
        ensures
            notes@.len() == self@.notes.len(),
            forall|i: int|
                0 <= i < notes@.len() ==> self@.notes.contains_key((#[trigger] notes@[i]).0)
                    && self@.notes[notes@[i].0] == notes@[i].1@,
            forall|i: int, j: int|
                0 <= i < j < notes@.len() ==> (#[trigger] notes@[i]).0 != (#[trigger] notes@[j]).0,
    {
        proof {
            self.lemma_same_ids();
        }
        let mut map = self.notes;
        let keys = keys_of(&map);
        let mut notes: Vec<(NoteId, Note)> = Vec::new();
        let mut i: usize = 0;
        while i < keys.len()
            invariant
                i <= keys@.len(),
                keys@.no_duplicates(),
                keys@.to_set() == self.notes@.dom(),
                notes@.len() == i,
                forall|j: int| i <= j < keys@.len() ==> map@.contains_key(#[trigger] keys@[j]),
                forall|id: NoteId| map@.contains_key(id) ==> map@[id] == self.notes@[id],
                forall|j: int|
                    0 <= j < i ==> (#[trigger] notes@[j]).0 == keys@[j] && notes@[j].1
                        == self.notes@[keys@[j]],
            decreases keys@.len() - i,
        {
            let id = keys[i];
            match map.remove(&id) {
                Some(note) => {
                    notes.push((id, note));
                },
                None => {},
            }
            i = i + 1;
        }
        proof {
            assert forall|j: int| 0 <= j < notes@.len() implies self@.notes.contains_key(
                (#[trigger] notes@[j]).0,
            ) && self@.notes[notes@[j].0] == notes@[j].1@ by {
                assert(keys@.to_set().contains(keys@[j]));
            }
        }
        notes
    }

    /// Adds a note without edges and brings the index up to date.
    ///
    /// The note gets the identifier that belongs to its path. Where the vault
    /// holds a note with that identifier already, nothing is added.
    pub fn register(&mut self, path: String, title: String, content: String) -> (added: Result<
        NoteId,
        BuildError,
    >)
        ensures
            match added {
                Ok(id) => {
                    &&& id == spec_note_id(path@)
                    &&& !old(self)@.notes.contains_key(id)
                    &&& final(self)@ == old(self)@.with_note(id, path@, title@, content@)
                },
                Err(error) => {
                    &&& old(self)@.notes.contains_key(spec_note_id(path@))
                    &&& error@ == conflict(old(self)@.notes[spec_note_id(path@)].path, path@)
                    &&& final(self)@ == old(self)@
                },
            },
    {
        let id = note_id(path.as_str());
        match self.register_as(id, path, title, content) {
            Ok(()) => Ok(id),
            Err(error) => Err(error),
        }
    }

    /// Adds a note without edges under the identifier `id` and brings the
    /// index up to date.
    ///
    /// Where the vault holds a note `id` already, nothing is added: a note
    /// with the same path is a duplicate, one with another path a collision.
    pub fn register_as(&mut self, id: NoteId, path: String, title: String, content: String) -> (added:
        Result<(), BuildError>)
        ensures
            match added {
                Ok(()) => {
                    &&& !old(self)@.notes.contains_key(id)
                    &&& final(self)@ == old(self)@.with_note(id, path@, title@, content@)
                },
                Err(error) => {
                    &&& old(self)@.notes.contains_key(id)
                    &&& error@ == conflict(old(self)@.notes[id].path, path@)
                    &&& final(self)@ == old(self)@
                },
            },
    {
        match self.notes.get(&id) {
            Some(taken) => {
                if taken.path == path {
                    return Err(BuildError::DuplicatePath { path });
                }
                return Err(BuildError::IdCollision { path, other: taken.path.clone() });
            },
            None => {},
        }
        let is_path = match self.id_lookup.get(title.as_str()) {
            Some(found) => match self.notes.get(found) {
                Some(note) => note.path == title,
                None => false,
            },
            None => false,
        };
        let note = Note::new(title.clone(), path.clone(), content);
        self.notes.insert(id, note);
        if !is_path {
            self.id_lookup.insert(title, id);
        }
        self.id_lookup.insert(path, id);
        proof {
            let after = old(self)@.with_note(id, path@, title@, content@);
            assert(self@.notes =~= after.notes);
            assert(self@.index =~= after.index);
        }
        Ok(())
    }

    /// Gives the note `id` an edge to each note that a reference in its text
    /// leads to. Without such a note the vault stays as it is.
    pub fn link(&mut self, id: NoteId)
        ensures
            old(self)@.notes.contains_key(id) ==> final(self)@ == old(self)@.with_links(id),
            !old(self)@.notes.contains_key(id) ==> final(self)@ == old(self)@,
    {
        let mut adjacencies = match self.notes.get(&id) {
            Some(note) => {
                let targets = extract_links(note.content.as_str());
                let mut adjacencies = note.adjacencies.clone();
                let mut i: usize = 0;
                while i < targets.len()
                    invariant
                        i <= targets@.len(),
                        targets@.len() == links(note.content@).len(),
                        forall|j: int|
                            0 <= j < targets@.len() ==> (#[trigger] targets@[j])@ == links(
                                note.content@,
                            )[j],
                        adjacencies@.dom() =~= note.adjacencies@.dom().union(
                            Set::new(
                                |to: NoteId|
                                    exists|j: int|
                                        0 <= j < i && self@.index.contains_key(
                                            #[trigger] links(note.content@)[j],
                                        ) && self@.index[links(note.content@)[j]] == to,
                            ),
                        ),
                    decreases targets@.len() - i,
                {
                    match self.id_lookup.get(targets[i].as_str()) {
                        Some(to) => {
                            adjacencies.insert(*to, Edge::Connected);
                        },
                        None => {},
                    }
                    i = i + 1;
                }
                proof {
                    let sum = note.adjacencies@.union_prefer_right(
                        edges(self@.index, note.content@),
                    );
                    assert(adjacencies@.dom() =~= sum.dom());
                    assert(adjacencies@ =~= sum);
                }
                adjacencies
            },
            None => {
                return ;
            },
        };
        match slot_of(&mut self.notes, id) {
            Some(note) => {
                note.adjacencies = adjacencies;
            },
            None => {},
        }
        proof {
            assert(self@.notes =~= old(self)@.with_links(id).notes);
        }
    }

    /// A vault holds finitely many notes.
    pub proof fn lemma_finite(&self)
        ensures
            self@.notes.dom().finite(),
    {
        self.lemma_same_ids();
    }

    /// The identifiers of the stored notes are those of their values.
    proof fn lemma_same_ids(&self)
        ensures
            self@.notes.dom() == self.notes@.dom(),
            self@.notes.len() == self.notes@.len(),
            self@.notes.dom().finite(),
    {
        assert(self@.notes.dom() =~= self.notes@.dom());
    }
}

impl Default for Vault {
    fn default() -> (vault: Vault)
        ensures
            vault@.notes == Map::<NoteId, NoteView>::empty(),
            vault@.index == Map::<Seq<char>, NoteId>::empty(),
    {
        Vault::new()
    }
}

impl PartialEq for Vault {
    fn eq(&self, other: &Vault) -> (same: bool) {
        proof {
            self.lemma_same_ids();
            other.lemma_same_ids();
        }
        if self.notes.len() != other.notes.len() {
            return false;
        }
        let entries = entries_of(&self.notes);
        let mut i: usize = 0;
        while i < entries.len()
            invariant
                i <= entries@.len(),
                forall|j: int|
                    0 <= j < entries@.len() ==> self.notes@.contains_key(
                        *(#[trigger] entries@[j]).0,
                    ) && *entries@[j].1 == self.notes@[*entries@[j].0],
                forall|j: int|
                    0 <= j < i ==> other@.notes.contains_key(*(#[trigger] entries@[j]).0)
                        && other@.notes[*entries@[j].0] == self@.notes[*entries@[j].0],
            decreases entries@.len() - i,
        {
            let (id, note) = entries[i];
            let same = match other.notes.get(id) {
                Some(theirs) => *note == *theirs,
                None => false,
            };
            if !same {
                proof {
                    assert(self@.notes.contains_key(*id) && self@.notes[*id] == note@);
                }
                return false;
            }
            i = i + 1;
        }
        proof {
            assert forall|id: NoteId| self@.notes.contains_key(id) implies other@.notes.contains_key(
                id,
            ) && other@.notes[id] == self@.notes[id] by {
                let j = choose|j: int| 0 <= j < entries@.len() && *(#[trigger] entries@[j]).0 == id;
            }
            vstd::set_lib::lemma_subset_equality(self@.notes.dom(), other@.notes.dom());
            assert(self@.notes =~= other@.notes);
        }
        true
    }
}

impl PartialEqSpecImpl for Vault {
    open spec fn obeys_eq_spec() -> bool {
        true
    }

    open spec fn eq_spec(&self, other: &Vault) -> bool {
        self@.notes == other@.notes
    }
}

impl Eq for Vault {

}

/// All notes of a vault with their identifiers, handed out one by one.
pub struct Notes<'a> {
    entries: Vec<(&'a NoteId, &'a Note)>,
    at: usize,
}

impl<'a> Notes<'a> {
    #[verifier::type_invariant]
    spec fn in_range(self) -> bool {
        self.at <= self.entries@.len()
    }

    /// What is still to be handed out, in this order.
    pub closed spec fn remaining(&self) -> Seq<(NoteId, NoteView)> {
        self.entries@.skip(self.at as int).map_values(|e: (&NoteId, &Note)| (*e.0, e.1@))
    }

    /// The next note with its identifier; `None` when all were handed out.
    pub fn next(&mut self) -> (entry: Option<(&'a NoteId, &'a Note)>)
        ensures
            match entry {
                Some((id, note)) => old(self).remaining().len() > 0 && (*id, note@) == old(self).remaining()[0] && final(self).remaining() == old(self).remaining().drop_first(),
                None => old(self).remaining().len() == 0 && final(self).remaining() == old(self).remaining(),
            },
    {
        proof {
            use_type_invariant(&*self);
        }
        if self.at < self.entries.len() {
            let entry = self.entries[self.at];
            self.at = self.at + 1;
            proof {
                assert(self.remaining() =~= old(self).remaining().drop_first());
            }
            Some(entry)
        } else {
            None
        }
    }
}

/// All notes of a vault with their identifiers, handed out one by one for
/// writing.
pub struct NotesMut<'a> {
    /// What is still to be handed out; the last entry goes first.
    pub entries: Vec<(&'a NoteId, &'a mut Note)>,
}

impl<'a> NotesMut<'a> {
    /// The next note with its identifier; `None` when all were handed out.
    pub fn next(&mut self) -> (entry: Option<(&'a NoteId, &'a mut Note)>)
        ensures
            match entry {
                Some(entry) => old(self).entries@.len() > 0 && entry == old(self).entries@.last()
                    && final(self).entries@ == old(self).entries@.drop_last(),
                None => old(self).entries@.len() == 0 && final(self).entries@ == old(self).entries@,
            },
    {
        self.entries.pop()
    }
}

} // verus!
