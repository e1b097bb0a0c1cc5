use xo::lsp::{completions, inside_link, position_to_offset, shared_ids, Completions, IndexedNote};

fn index() -> Vec<IndexedNote> {
    vec![
        IndexedNote { id: "bcdefgh".into(), title: "beta".into(), tags: vec!["work".into()] },
        IndexedNote { id: "abcdefg".into(), title: "Alpha".into(), tags: vec!["home".into(), "work".into()] },
        IndexedNote { id: "aaaaaaa".into(), title: "alpha".into(), tags: vec![] },
    ]
}

#[test]
fn completion_distinguishes_wikilinks_from_tags_and_uses_utf16_positions() {
    let notes = vec![IndexedNote { id: "abcdefg".into(), title: "Alpha".into(), tags: vec!["work".into()] }];
    match completions(&notes, "😀 [[", 0, 5) {
        Completions::Links(order) => assert_eq!(notes[order[0]].title, "Alpha"),
        other => panic!("expected links, got {other:?}"),
    }
    assert_eq!(completions(&notes, "tags: [", 0, 7), Completions::Tags(vec!["work".into()]));
}

#[test]
fn links_are_ordered_by_lowercased_title_then_identifier() {
    let notes = index();
    assert_eq!(completions(&notes, "see [[al", 0, 8), Completions::Links(vec![2, 1, 0]));
    assert_eq!(
        completions(&notes, "see [[x]] then", 0, 14),
        Completions::Tags(vec!["home".into(), "work".into()])
    );
}

#[test]
fn positions_count_utf16_units_per_line() {
    let text = "ab\n😀x\nlast";
    assert_eq!(position_to_offset(text, 0, 1), 1);
    assert_eq!(position_to_offset(text, 0, 9), 2);
    assert_eq!(position_to_offset(text, 1, 0), 3);
    assert_eq!(position_to_offset(text, 1, 1), 3);
    assert_eq!(position_to_offset(text, 1, 2), 7);
    assert_eq!(position_to_offset(text, 1, 3), 8);
    assert_eq!(position_to_offset(text, 2, 2), 11);
    assert_eq!(position_to_offset(text, 7, 0), text.len());
}

#[test]
fn wikilinks_open_at_the_last_double_bracket() {
    let chars = |text: &str| text.chars().collect::<Vec<char>>();
    assert!(inside_link(&chars("a [[b")));
    assert!(!inside_link(&chars("a [[b]] c")));
    assert!(inside_link(&chars("[[a]] [[")));
    assert!(!inside_link(&chars("[")));
    assert!(!inside_link(&chars("plain")));
}

#[test]
fn duplicate_ids_are_flagged_for_every_holder() {
    let ids = vec!["abcdefg".to_owned(), "bcdefgh".to_owned(), "abcdefg".to_owned()];
    assert_eq!(shared_ids(&ids), vec![true, false, true]);
    assert_eq!(shared_ids(&vec![]), Vec::<bool>::new());
}
