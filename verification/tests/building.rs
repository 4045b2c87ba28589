use mdzk::builder::VaultBuilder;
use mdzk::note::{note_id, Edge, NoteId};
use mdzk::vault::{BuildError, Vault};

fn builder_of(documents: &[(&str, &str, &str)]) -> VaultBuilder {
    let mut builder = VaultBuilder::new();
    for (path, title, content) in documents {
        builder = builder.source(path.to_string(), title.to_string(), content.to_string());
    }
    builder
}

fn vault_of(documents: &[(&str, &str, &str)]) -> Vault {
    builder_of(documents).build().unwrap()
}

fn sorted(mut ids: Vec<NoteId>) -> Vec<NoteId> {
    ids.sort();
    ids
}

#[test]
fn backlinks_of_a_linked_note() {
    let vault = vault_of(&[("a.md", "A", "links to [[B]]"), ("b.md", "B", "no links")]);
    let a = *vault.id_of("a.md").unwrap();
    let b = *vault.id_of("b.md").unwrap();
    assert_eq!(vault.backlinks(b), vec![a]);
    assert!(vault.backlinks(a).is_empty());
}

#[test]
fn a_reference_may_lead_to_a_document_read_earlier_or_later() {
    let vault = vault_of(&[
        ("a.md", "A", "see [[C]]"),
        ("b.md", "B", "see [[A]] and [[C]]"),
        ("c.md", "C", "see [[a.md]]"),
    ]);
    let a = *vault.id_of("A").unwrap();
    let b = *vault.id_of("B").unwrap();
    let c = *vault.id_of("C").unwrap();
    assert_eq!(sorted(vault.backlinks(a)), sorted(vec![b, c]));
    assert_eq!(sorted(vault.backlinks(c)), sorted(vec![a, b]));
    assert!(vault.backlinks(b).is_empty());
}

#[test]
fn an_unresolved_reference_gives_no_edge() {
    let vault = vault_of(&[("a.md", "A", "links to [[Missing]]")]);
    let a = *vault.id_of("a.md").unwrap();
    assert_eq!(vault.len(), 1);
    assert!(vault.get(&a).unwrap().adjacencies.is_empty());
    assert_eq!(vault.unresolved(&a), vec!["Missing".to_string()]);
    assert!(vault.id_of("Missing").is_none());
}

#[test]
fn unresolved_keeps_the_order_and_skips_what_resolves() {
    let vault = vault_of(&[
        ("a.md", "A", "[[x]] [[B]] [[y]] [[b.md]] [[x]]"),
        ("b.md", "B", ""),
    ]);
    let a = *vault.id_of("A").unwrap();
    let b = *vault.id_of("B").unwrap();
    assert_eq!(
        vault.unresolved(&a),
        vec!["x".to_string(), "y".to_string(), "x".to_string()]
    );
    assert!(vault.unresolved(&b).is_empty());
    let mut absent: NoteId = 0;
    while vault.get(&absent).is_some() {
        absent += 1;
    }
    assert!(vault.unresolved(&absent).is_empty());
}

#[test]
fn an_identifier_is_the_one_that_belongs_to_the_path() {
    let vault = vault_of(&[("notes/a.md", "A", ""), ("notes/b.md", "B", "")]);
    assert_eq!(*vault.id_of("notes/a.md").unwrap(), note_id("notes/a.md"));
    assert_eq!(*vault.id_of("B").unwrap(), note_id("notes/b.md"));
    assert_eq!(note_id("notes/a.md"), note_id("notes/a.md"));
    assert_ne!(note_id("notes/a.md"), note_id("notes/b.md"));
}

#[test]
fn id_of_a_path_is_the_same_at_every_call() {
    let vault = vault_of(&[("a.md", "T", ""), ("b.md", "T", ""), ("c.md", "U", "")]);
    let first = *vault.id_of("a.md").unwrap();
    for _ in 0..5 {
        assert_eq!(*vault.id_of("a.md").unwrap(), first);
    }
    assert_eq!(vault.get(&first).unwrap().path, "a.md");
    let b = *vault.id_of("b.md").unwrap();
    let c = *vault.id_of("c.md").unwrap();
    assert!(first != b && b != c && first != c);
}

#[test]
fn a_shared_title_leads_to_the_note_registered_last() {
    let vault = vault_of(&[("one.md", "Same", ""), ("two.md", "Same", "")]);
    let two = *vault.id_of("two.md").unwrap();
    let one = *vault.id_of("one.md").unwrap();
    assert_eq!(*vault.id_of("Same").unwrap(), two);
    assert_eq!(vault.shadowed(), vec![one]);

    let swapped = vault_of(&[("two.md", "Same", ""), ("one.md", "Same", "")]);
    assert_eq!(*swapped.id_of("Same").unwrap(), one);
    assert_eq!(swapped.shadowed(), vec![two]);
}

#[test]
fn a_path_leads_to_its_note_even_where_it_is_a_title_too() {
    let late_title = vault_of(&[("x", "First", ""), ("second.md", "x", "")]);
    assert_eq!(*late_title.id_of("x").unwrap(), note_id("x"));
    assert_eq!(late_title.shadowed(), vec![note_id("second.md")]);

    let late_path = vault_of(&[("second.md", "x", ""), ("x", "First", "")]);
    assert_eq!(*late_path.id_of("x").unwrap(), note_id("x"));
    assert_eq!(late_path.shadowed(), vec![note_id("second.md")]);
}

#[test]
fn no_title_is_shadowed_where_all_differ() {
    let vault = vault_of(&[("a.md", "A", ""), ("b.md", "B", "")]);
    assert!(vault.shadowed().is_empty());
}

#[test]
fn a_duplicate_path_fails_the_build() {
    let built = builder_of(&[("a.md", "A", ""), ("b.md", "B", ""), ("a.md", "C", "")]).build();
    match built {
        Err(BuildError::DuplicatePath { path }) => assert_eq!(path, "a.md"),
        _ => panic!("the build should end in a duplicate path"),
    }
}

#[test]
fn the_first_duplicate_path_is_reported() {
    let built = builder_of(&[
        ("a.md", "A", ""),
        ("b.md", "B", ""),
        ("b.md", "B2", ""),
        ("a.md", "A2", ""),
    ])
    .build();
    match built {
        Err(BuildError::DuplicatePath { path }) => assert_eq!(path, "b.md"),
        _ => panic!("the build should end in a duplicate path"),
    }
}

#[test]
fn a_taken_identifier_is_a_duplicate_or_a_collision() {
    let mut vault = Vault::new();
    assert!(vault
        .register_as(7, "a.md".to_string(), "A".to_string(), "".to_string())
        .is_ok());
    match vault.register_as(7, "a.md".to_string(), "Other".to_string(), "".to_string()) {
        Err(BuildError::DuplicatePath { path }) => assert_eq!(path, "a.md"),
        _ => panic!("the same path under a taken identifier is a duplicate"),
    }
    match vault.register_as(7, "b.md".to_string(), "B".to_string(), "".to_string()) {
        Err(BuildError::IdCollision { path, other }) => {
            assert_eq!(path, "b.md");
            assert_eq!(other, "a.md");
        }
        _ => panic!("another path under a taken identifier is a collision"),
    }
    assert_eq!(vault.len(), 1);
    assert_eq!(vault.get(&7).unwrap().title, "A");
    assert!(vault.id_of("b.md").is_none());
    assert!(vault.id_of("Other").is_none());
}

#[test]
fn register_gives_the_identifier_of_the_path() {
    let mut vault = Vault::new();
    let id = vault
        .register("a.md".to_string(), "A".to_string(), "text".to_string())
        .unwrap();
    assert_eq!(id, note_id("a.md"));
    assert_eq!(*vault.id_of("A").unwrap(), id);
    assert_eq!(*vault.id_of("a.md").unwrap(), id);
    let note = vault.get(&id).unwrap();
    assert_eq!(note.title, "A");
    assert_eq!(note.path, "a.md");
    assert_eq!(note.content, "text");
    assert!(note.adjacencies.is_empty());
    assert!(vault
        .register("a.md".to_string(), "B".to_string(), "".to_string())
        .is_err());
}

#[test]
fn link_adds_the_edges_of_one_note() {
    let mut vault = Vault::new();
    let a = vault
        .register("a.md".to_string(), "A".to_string(), "[[B]] [[nowhere]] [[A]]".to_string())
        .unwrap();
    let b = vault
        .register("b.md".to_string(), "B".to_string(), "[[A]]".to_string())
        .unwrap();
    vault.link(a);
    let edges = &vault.get(&a).unwrap().adjacencies;
    assert_eq!(edges.len(), 2);
    assert_eq!(edges.get(&b), Some(&Edge::Connected));
    assert_eq!(edges.get(&a), Some(&Edge::Connected));
    assert!(vault.get(&b).unwrap().adjacencies.is_empty());
    let mut absent: NoteId = 0;
    while vault.get(&absent).is_some() {
        absent += 1;
    }
    vault.link(absent);
    assert_eq!(vault.len(), 2);
    assert!(vault.get(&b).unwrap().adjacencies.is_empty());
}

#[test]
fn an_empty_build_gives_an_empty_vault() {
    let vault = VaultBuilder::default().build().unwrap();
    assert!(vault.is_empty());
    assert_eq!(vault.len(), 0);
    assert!(vault.id_of("").is_none());
    assert!(vault.backlinks(0).is_empty());
}

#[test]
fn several_references_to_one_note_give_one_edge() {
    let vault = vault_of(&[("a.md", "A", "[[B]] and [[b.md]] and [[B]]"), ("b.md", "B", "")]);
    let a = *vault.id_of("A").unwrap();
    let b = *vault.id_of("B").unwrap();
    assert_eq!(vault.get(&a).unwrap().adjacencies.len(), 1);
    assert_eq!(vault.backlinks(b), vec![a]);
}

#[test]
fn a_note_may_refer_to_itself() {
    let vault = vault_of(&[("a.md", "A", "[[A]]")]);
    let a = *vault.id_of("A").unwrap();
    assert_eq!(vault.backlinks(a), vec![a]);
}
