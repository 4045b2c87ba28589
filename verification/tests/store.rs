use mdzk::builder::VaultBuilder;
use mdzk::note::{same_edges, Edge, Note, NoteId};
use mdzk::vault::Vault;
use std::collections::HashMap;

fn vault_of(documents: &[(&str, &str, &str)]) -> Vault {
    let mut builder = VaultBuilder::new();
    for (path, title, content) in documents {
        builder = builder.source(path.to_string(), title.to_string(), content.to_string());
    }
    builder.build().unwrap()
}

fn three() -> Vault {
    vault_of(&[
        ("a.md", "A", "to [[B]] and [[C]]"),
        ("b.md", "B", "to [[C]]"),
        ("c.md", "C", "to nothing"),
    ])
}

fn absent(vault: &Vault) -> NoteId {
    let mut id: NoteId = 0;
    while vault.get(&id).is_some() {
        id += 1;
    }
    id
}

#[test]
fn len_counts_what_iter_hands_out() {
    for vault in [Vault::new(), vault_of(&[("a.md", "A", "")]), three()] {
        let mut notes = vault.iter();
        let mut count = 0;
        while notes.next().is_some() {
            count += 1;
        }
        assert_eq!(vault.len(), count);
        assert_eq!(vault.is_empty(), count == 0);
        assert!(notes.next().is_none());
    }
    assert_eq!(three().len(), 3);
}

#[test]
fn iter_hands_out_every_note_once() {
    let vault = three();
    let mut notes = vault.iter();
    let mut seen: Vec<NoteId> = Vec::new();
    while let Some((id, note)) = notes.next() {
        assert!(!seen.contains(id));
        assert_eq!(vault.get(id).unwrap(), note);
        assert_eq!(vault.id_of(&note.path), Some(id));
        seen.push(*id);
    }
    assert_eq!(seen.len(), 3);
    let mut again = vault.iter();
    let mut count = 0;
    while again.next().is_some() {
        count += 1;
    }
    assert_eq!(count, 3);
}

#[test]
fn an_edge_is_a_backlink_and_a_backlink_is_an_edge() {
    let vault = three();
    let mut ids: Vec<NoteId> = Vec::new();
    let mut notes = vault.iter();
    while let Some((id, _)) = notes.next() {
        ids.push(*id);
    }
    let mut edges = 0;
    for a in &ids {
        for b in &ids {
            let edge = vault.get(a).unwrap().adjacencies.get(b) == Some(&Edge::Connected);
            let backlink = vault.backlinks(*b).contains(a);
            assert_eq!(edge, backlink);
            if edge {
                edges += 1;
            }
        }
    }
    assert_eq!(edges, 3);
}

#[test]
fn no_note_leads_to_an_absent_note() {
    let vault = three();
    let id = absent(&vault);
    assert!(vault.get(&id).is_none());
    assert!(vault.backlinks(id).is_empty());
    assert!(Vault::new().backlinks(id).is_empty());
}

#[test]
fn get_finds_what_was_built() {
    let vault = three();
    let b = *vault.id_of("B").unwrap();
    let note = vault.get(&b).unwrap();
    assert_eq!(note.title, "B");
    assert_eq!(note.path, "b.md");
    assert_eq!(note.content, "to [[C]]");
    assert_eq!(note.adjacencies.len(), 1);
    assert_eq!(
        note.adjacencies.get(vault.id_of("c.md").unwrap()),
        Some(&Edge::Connected)
    );
    assert!(vault.get(&absent(&vault)).is_none());
}

#[test]
fn get_mut_writes_to_the_vault() {
    let mut vault = three();
    let b = *vault.id_of("B").unwrap();
    let missing = absent(&vault);
    assert!(vault.get_mut(&missing).is_none());
    {
        let note = vault.get_mut(&b).unwrap();
        assert_eq!(note.content, "to [[C]]");
        note.content = "changed".to_string();
    }
    assert_eq!(vault.get(&b).unwrap().content, "changed");
    assert_eq!(vault.len(), 3);
    assert_eq!(*vault.id_of("B").unwrap(), b);
    assert_eq!(vault.get(vault.id_of("A").unwrap()).unwrap().content, "to [[B]] and [[C]]");
}

#[test]
fn iter_mut_writes_to_every_note() {
    let mut vault = three();
    let mut handed_out: Vec<NoteId> = Vec::new();
    {
        let mut notes = vault.iter_mut();
        while let Some((id, note)) = notes.next() {
            assert!(!handed_out.contains(id));
            handed_out.push(*id);
            note.content.push_str(" (seen)");
        }
        assert!(notes.next().is_none());
    }
    assert_eq!(handed_out.len(), 3);
    assert_eq!(vault.len(), 3);
    for id in &handed_out {
        assert!(vault.get(id).unwrap().content.ends_with(" (seen)"));
    }
    assert_eq!(
        vault.get(vault.id_of("C").unwrap()).unwrap().content,
        "to nothing (seen)"
    );
}

#[test]
fn into_iter_hands_out_the_notes() {
    let vault = three();
    let a = *vault.id_of("A").unwrap();
    let b = *vault.id_of("B").unwrap();
    let c = *vault.id_of("C").unwrap();
    let mut notes = vault.into_iter();
    notes.sort_by(|x, y| x.1.path.cmp(&y.1.path));
    assert_eq!(notes.len(), 3);
    assert_eq!(notes[0].0, a);
    assert_eq!(notes[0].1.title, "A");
    assert_eq!(notes[0].1.adjacencies.len(), 2);
    assert_eq!(notes[1].0, b);
    assert_eq!(notes[1].1.content, "to [[C]]");
    assert_eq!(notes[2].0, c);
    assert!(notes[2].1.adjacencies.is_empty());
    assert!(Vault::default().into_iter().is_empty());
}

#[test]
fn a_vault_equals_itself() {
    let vault = three();
    assert!(vault == vault);
    assert!(Vault::new() == Vault::default());
}

#[test]
fn equality_goes_both_ways() {
    let pairs = [
        (three(), three()),
        (three(), vault_of(&[("a.md", "A", "to [[B]] and [[C]]")])),
        (three(), Vault::new()),
        (
            vault_of(&[("a.md", "A", "x")]),
            vault_of(&[("a.md", "A", "y")]),
        ),
    ];
    let expected = [true, false, false, false];
    for ((left, right), same) in pairs.iter().zip(expected) {
        assert_eq!(left == right, same);
        assert_eq!(right == left, same);
    }
}

#[test]
fn the_order_of_the_documents_does_not_matter() {
    let a = ("a.md", "A", "to [[B]] and [[C]]");
    let b = ("b.md", "B", "to [[C]]");
    let c = ("c.md", "C", "to [[a.md]]");
    let abc = vault_of(&[a, b, c]);
    let cab = vault_of(&[c, a, b]);
    let bca = vault_of(&[b, c, a]);
    assert!(abc == cab);
    assert!(cab == abc);
    assert!(abc == bca);
    assert_eq!(abc.id_of("A"), cab.id_of("A"));
    assert_eq!(abc.id_of("c.md"), bca.id_of("c.md"));
}

#[test]
fn another_edge_makes_another_vault() {
    let with = vault_of(&[("a.md", "A", "[[B]]"), ("b.md", "B", "")]);
    let without = vault_of(&[("a.md", "A", "[[B]]"), ("b.md", "B", "")]);
    assert!(with == without);
    let mut changed = without;
    let a = *changed.id_of("A").unwrap();
    changed.get_mut(&a).unwrap().adjacencies.clear();
    assert!(with != changed);
    assert!(changed != with);
}

#[test]
fn equality_does_not_look_at_the_index() {
    let mut first = Vault::new();
    first
        .register_as(1, "a.md".to_string(), "Same".to_string(), "".to_string())
        .unwrap();
    first
        .register_as(2, "b.md".to_string(), "Same".to_string(), "".to_string())
        .unwrap();
    let mut second = Vault::new();
    second
        .register_as(2, "b.md".to_string(), "Same".to_string(), "".to_string())
        .unwrap();
    second
        .register_as(1, "a.md".to_string(), "Same".to_string(), "".to_string())
        .unwrap();
    assert_eq!(first.id_of("Same"), Some(&2));
    assert_eq!(second.id_of("Same"), Some(&1));
    assert!(first == second);
    assert!(second == first);
}

#[test]
fn notes_are_equal_where_all_they_hold_is() {
    let plain = Note::new("A".to_string(), "a.md".to_string(), "text".to_string());
    let same = Note::new("A".to_string(), "a.md".to_string(), "text".to_string());
    assert!(plain == same);
    assert!(plain != Note::new("B".to_string(), "a.md".to_string(), "text".to_string()));
    assert!(plain != Note::new("A".to_string(), "b.md".to_string(), "text".to_string()));
    assert!(plain != Note::new("A".to_string(), "a.md".to_string(), "other".to_string()));
    let mut linked = same.clone();
    linked.adjacencies.insert(3, Edge::Connected);
    assert!(plain != linked);
    assert!(linked != plain);
    assert!(linked == linked.clone());
}

#[test]
fn same_edges_compares_the_targets() {
    let mut left: HashMap<NoteId, Edge> = HashMap::new();
    let mut right: HashMap<NoteId, Edge> = HashMap::new();
    assert!(same_edges(&left, &right));
    left.insert(1, Edge::Connected);
    assert!(!same_edges(&left, &right));
    right.insert(2, Edge::Connected);
    assert!(!same_edges(&left, &right));
    left.insert(2, Edge::Connected);
    right.insert(1, Edge::Connected);
    assert!(same_edges(&left, &right));
}
