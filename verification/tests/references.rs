use mdzk::links::{chars_of, extract_links, first_pair};

fn targets(content: &str) -> Vec<String> {
    extract_links(content)
}

#[test]
fn a_text_without_brackets_holds_no_reference() {
    assert!(targets("").is_empty());
    assert!(targets("no links").is_empty());
    assert!(targets("[one] bracket [is] not enough").is_empty());
}

#[test]
fn a_reference_is_what_stands_between_the_brackets() {
    assert_eq!(targets("links to [[B]]"), vec!["B"]);
    assert_eq!(targets("[[B]]"), vec!["B"]);
    assert_eq!(targets("[[some note.md]] at the start"), vec!["some note.md"]);
}

#[test]
fn references_come_in_their_order() {
    assert_eq!(targets("[[a]][[b]] and [[c]]"), vec!["a", "b", "c"]);
    assert_eq!(targets("[[a]] [[a]]"), vec!["a", "a"]);
}

#[test]
fn a_reference_that_does_not_close_is_none() {
    assert!(targets("[[open").is_empty());
    assert!(targets("[[open]").is_empty());
    assert!(targets("[[").is_empty());
    assert!(targets("[[[").is_empty());
    assert_eq!(targets("[[a]] [[open"), vec!["a"]);
}

#[test]
fn a_target_may_be_empty() {
    assert_eq!(targets("[[]]"), vec![""]);
    assert_eq!(targets("[[]][[x]]"), vec!["", "x"]);
}

#[test]
fn a_target_ends_at_the_first_closing_pair() {
    assert_eq!(targets("[[a [[b]] c]]"), vec!["a [[b"]);
    assert_eq!(targets("[[a]]]"), vec!["a"]);
    assert_eq!(targets("[[[a]]"), vec!["[a"]);
    assert_eq!(targets("]] [[a]] ]]"), vec!["a"]);
    assert_eq!(targets("[[a]b]]"), vec!["a]b"]);
}

#[test]
fn a_target_may_hold_any_characters() {
    assert_eq!(targets("é [[naïve café]] ü"), vec!["naïve café"]);
    assert_eq!(targets("日本 [[日本語]] 語 [[ノート]]"), vec!["日本語", "ノート"]);
    assert_eq!(targets("[[a\nb]]"), vec!["a\nb"]);
}

#[test]
fn first_pair_finds_the_first_pair_or_the_end() {
    let chars = chars_of("ab[[cd[[");
    assert_eq!(chars.len(), 8);
    assert_eq!(first_pair(&chars, '[', 0), 2);
    assert_eq!(first_pair(&chars, '[', 2), 2);
    assert_eq!(first_pair(&chars, '[', 3), 6);
    assert_eq!(first_pair(&chars, '[', 7), 8);
    assert_eq!(first_pair(&chars, '[', 8), 8);
    assert_eq!(first_pair(&chars, '[', 20), 8);
    assert_eq!(first_pair(&chars, ']', 0), 8);
    assert_eq!(first_pair(&chars_of(""), '[', 0), 0);
    assert_eq!(first_pair(&chars_of("["), '[', 0), 1);
}

#[test]
fn chars_of_gives_the_characters() {
    assert_eq!(chars_of("aé日"), vec!['a', 'é', '日']);
    assert!(chars_of("").is_empty());
}
