//! Notes, their identifiers and the edges between them.

use std::collections::hash_map::DefaultHasher;
use std::collections::HashMap;
use std::hash::Hasher;
use vstd::prelude::*;
use vstd::std_specs::cmp::PartialEqSpecImpl;
use vstd::std_specs::hash::DefaultHasherAdditionalSpecFns;
use vstd::utf8::encode_utf8;

verus! {

/// Identifies one note of a vault.
///
/// The identifier of a note is derived from its path alone (see [`note_id`]),
/// so it does not depend on the order in which the notes were read.
pub type NoteId = u64;

/// What one note records about another.
#[derive(Clone, Copy, Debug, PartialEq, Eq, Hash, Structural)]
pub enum Edge {
    /// The note holds a reference that resolved to the other note.
    Connected,
}

/// One document of a vault.
#[derive(Clone, Debug)]
pub struct Note {
    /// The name of the note; several notes may share one.
    pub title: String,
    /// Where the note came from; no two notes of a vault share one.
    pub path: String,
    /// The text of the note, as it was read.
    pub content: String,
    /// The outgoing edges of the note, by the note they lead to.
    pub adjacencies: HashMap<NoteId, Edge>,
}

/// The mathematical value of a [`Note`].
pub struct NoteView {
    pub title: Seq<char>,
    pub path: Seq<char>,
    pub content: Seq<char>,
    pub adjacencies: Map<NoteId, Edge>,
}

impl View for Note {
    type V = NoteView;

    open spec fn view(&self) -> NoteView {
        NoteView {
            title: self.title@,
            path: self.path@,
            content: self.content@,
            adjacencies: self.adjacencies@,
        }
    }
}

/// The identifier that belongs to a path: the hash of its UTF-8 bytes.
pub open spec fn spec_note_id(path: Seq<char>) -> NoteId {
    DefaultHasher::spec_finish(seq![encode_utf8(path)])
}

/// Computes the identifier that belongs to `path`.
pub fn note_id(path: &str) -> (id: NoteId)
    ensures
        id == spec_note_id(path@),
{
    let mut hasher = DefaultHasher::new();
    hasher.write(path.as_bytes());
    hasher.finish()
}

/// The keys of a map, each once, in the order in which the map hands them out.
pub fn keys_of<V>(map: &HashMap<NoteId, V>) -> (keys: Vec<NoteId>)
    ensures
        keys@.no_duplicates(),
        keys@.to_set() == map@.dom(),
        keys@.len() == map@.len(),
{
    let mut keys: Vec<NoteId> = Vec::new();
    for key in it: map.keys()
        invariant
            it.seq().unref().to_set() == map@.dom(),
            it.seq().unref().no_duplicates(),
            it.seq().unref().len() == map@.len(),
            it.index() <= it.seq().unref().len(),
            keys@ == it.seq().unref().take(it.index() as int),
            it.index() == it.seq().unref().len() ==> keys@ == it.seq().unref(),
    {
        proof {
            let all = it.seq().unref();
            assert(all.take(it.index() + 1) =~= all.take(it.index() as int).push(*key));
            assert(all.take(all.len() as int) =~= all);
        }
        keys.push(*key);
    }
    keys
}

/// The entries of a map, each once, in the order in which the map hands them
/// out.
pub fn entries_of<'a, V>(map: &'a HashMap<NoteId, V>) -> (entries: Vec<(&'a NoteId, &'a V)>)
    ensures
        entries@.len() == map@.len(),
        forall|i: int|
            0 <= i < entries@.len() ==> map@.contains_key(*(#[trigger] entries@[i]).0)
                && *entries@[i].1 == map@[*entries@[i].0],
        forall|i: int, j: int|
            0 <= i < j < entries@.len() ==> *(#[trigger] entries@[i]).0 != *(
            #[trigger] entries@[j]).0,
        forall|id: NoteId|
            map@.contains_key(id) ==> exists|i: int|
                0 <= i < entries@.len() && *(#[trigger] entries@[i]).0 == id,
{
    let mut entries: Vec<(&'a NoteId, &'a V)> = Vec::new();
    for entry in it: map.iter()
        invariant
            it.seq().len() == map@.len(),
            it.seq().no_duplicates(),
            forall|i: int|
                0 <= i < it.seq().len() ==> map@.contains_key(*(#[trigger] it.seq()[i]).0)
                    && map@[*it.seq()[i].0] == *it.seq()[i].1,
            forall|id: NoteId|
                #[trigger] map@.contains_key(id) ==> it.seq().contains((&id, &map@[id])),
            it.index() <= it.seq().len(),
            entries@ == it.seq().take(it.index() as int),
            it.index() == it.seq().len() ==> entries@ == it.seq(),
    {
        proof {
            let all = it.seq();
            assert(all.take(it.index() + 1) =~= all.take(it.index() as int).push(entry));
            assert(all.take(all.len() as int) =~= all);
        }
        entries.push(entry);
    }
    proof {
        assert forall|i: int, j: int| 0 <= i < j < entries@.len() implies *(
        #[trigger] entries@[i]).0 != *(#[trigger] entries@[j]).0 by {
            if *entries@[i].0 == *entries@[j].0 {
                assert(entries@[i] == entries@[j]);
            }
        }
        assert forall|id: NoteId| map@.contains_key(id) implies exists|i: int|
            0 <= i < entries@.len() && *(#[trigger] entries@[i]).0 == id by {
            assert(entries@.contains((&id, &map@[id])));
            let i = choose|i: int| 0 <= i < entries@.len() && entries@[i] == (&id, &map@[id]);
            assert(*entries@[i].0 == id);
        }
    }
    entries
}

/// Whether two adjacency maps hold the same edges.
pub fn same_edges(a: &HashMap<NoteId, Edge>, b: &HashMap<NoteId, Edge>) -> (same: bool)
    ensures
        same == (a@ == b@),
{
    if a.len() != b.len() {
        return false;
    }
    let keys = keys_of(a);
    let mut i: usize = 0;
    while i < keys.len()
        invariant
            i <= keys@.len(),
            keys@.to_set() == a@.dom(),
            forall|j: int| 0 <= j < i ==> b@.contains_key(#[trigger] keys@[j]),
        decreases keys@.len() - i,
    {
        if !b.contains_key(&keys[i]) {
            assert(keys@.to_set().contains(keys@[i as int]));
            return false;
        }
        i = i + 1;
    }
    proof {
        assert forall|k: NoteId| a@.dom().contains(k) implies b@.dom().contains(k) by {
            assert(keys@.to_set().contains(k));
            let j = choose|j: int| 0 <= j < keys@.len() && keys@[j] == k;
            assert(b@.contains_key(keys@[j]));
        }
        vstd::set_lib::lemma_subset_equality(a@.dom(), b@.dom());
        assert(a@ =~= b@);
    }
    true
}

impl Note {
    /// A note without edges.
    pub fn new(title: String, path: String, content: String) -> (note: Note)
        ensures
            note@ == (NoteView {
                title: title@,
                path: path@,
                content: content@,
                adjacencies: Map::empty(),
            }),
    {
        Note { title, path, content, adjacencies: HashMap::new() }
    }
}

impl PartialEq for Note {
    fn eq(&self, other: &Note) -> (same: bool) {
        self.title == other.title && self.path == other.path && self.content == other.content
            && same_edges(&self.adjacencies, &other.adjacencies)
    }
}

impl PartialEqSpecImpl for Note {
    open spec fn obeys_eq_spec() -> bool {
        true
    }

    open spec fn eq_spec(&self, other: &Note) -> bool {
        self@ == other@
    }
}

impl Eq for Note {

}

} // verus!
