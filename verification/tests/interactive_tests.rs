use my_shell::editor::{EditorReply, EditorState, KeyPress};
use my_shell::trie::{initialize_trie, Trie};
use my_shell::utils::SearchDir;

fn trie_of(words: &[&str]) -> Trie {
    let mut t = Trie::new();
    for w in words {
        t.insert(w);
    }
    t
}

fn sorted(mut v: Vec<String>) -> Vec<String> {
    v.sort();
    v
}

#[test]
fn completions_are_exactly_the_words_with_the_prefix() {
    let t = trie_of(&["cat", "car", "dog", "cart"]);
    assert_eq!(
        sorted(t.get_words_with_prefix("ca")),
        vec!["car".to_string(), "cart".to_string(), "cat".to_string()]
    );
    assert_eq!(
        sorted(t.get_words_with_prefix("")),
        vec![
            "car".to_string(),
            "cart".to_string(),
            "cat".to_string(),
            "dog".to_string()
        ]
    );
    assert_eq!(t.get_words_with_prefix("cat"), vec!["cat".to_string()]);
    assert!(t.get_words_with_prefix("x").is_empty());
    assert!(t.get_words_with_prefix("catx").is_empty());
}

#[test]
fn completions_do_not_depend_on_insertion_order() {
    let a = trie_of(&["cat", "car", "cab"]);
    let b = trie_of(&["cab", "cat", "car"]);
    assert_eq!(
        sorted(a.get_words_with_prefix("ca")),
        sorted(b.get_words_with_prefix("ca"))
    );
}

#[test]
fn inserting_the_same_word_twice_is_idempotent() {
    let mut t = trie_of(&["cat"]);
    t.insert("cat");
    assert_eq!(t.get_words_with_prefix("c"), vec!["cat".to_string()]);
}

#[test]
fn trie_population_takes_every_readable_listing_and_exit() {
    let dirs = vec![
        SearchDir {
            path: "/bin".to_string(),
            readable: true,
            entries: vec!["ls".to_string(), "cp".to_string()],
        },
        SearchDir {
            path: "/locked".to_string(),
            readable: false,
            entries: Vec::new(),
        },
    ];
    let mut t = Trie::new();
    initialize_trie(&mut t, &dirs);
    assert_eq!(
        sorted(t.get_words_with_prefix("")),
        vec![
            "cp".to_string(),
            "echo".to_string(),
            "exit".to_string(),
            "ls".to_string(),
            "type".to_string()
        ]
    );
}

#[test]
fn edits_build_the_buffer_exactly() {
    let t = trie_of(&[]);
    let mut e = EditorState::new();
    assert_eq!(e.handle_key(KeyPress::Char('a'), &t), EditorReply::Echoed('a'));
    assert_eq!(e.handle_key(KeyPress::Char('b'), &t), EditorReply::Echoed('b'));
    assert_eq!(e.handle_key(KeyPress::Backspace, &t), EditorReply::Redraw);
    assert_eq!(e.handle_key(KeyPress::Char('c'), &t), EditorReply::Echoed('c'));
    assert_eq!(e.current_line(), "ac");
    match e.handle_key(KeyPress::Enter, &t) {
        EditorReply::Submitted(line) => assert_eq!(line, "ac"),
        other => panic!("expected a submitted line, got {:?}", other),
    }
}

#[test]
fn backspace_on_an_empty_buffer_does_nothing() {
    let t = trie_of(&[]);
    let mut e = EditorState::new();
    assert_eq!(e.handle_key(KeyPress::Backspace, &t), EditorReply::Ignored);
    assert_eq!(e.current_line(), "");
}

#[test]
fn interrupt_ends_the_session() {
    let t = trie_of(&[]);
    let mut e = EditorState::new();
    assert_eq!(e.handle_key(KeyPress::Interrupt, &t), EditorReply::Terminated);
}

#[test]
fn single_completion_fills_the_buffer_with_a_trailing_space() {
    let t = trie_of(&["echo", "exit"]);
    let mut e = EditorState::new();
    e.handle_key(KeyPress::Char('e'), &t);
    e.handle_key(KeyPress::Char('c'), &t);
    assert_eq!(e.handle_key(KeyPress::Tab, &t), EditorReply::RedrawBell);
    assert_eq!(e.current_line(), "echo ");
}

#[test]
fn tab_with_no_completion_only_bells() {
    let t = trie_of(&["echo"]);
    let mut e = EditorState::new();
    e.handle_key(KeyPress::Char('z'), &t);
    assert_eq!(e.handle_key(KeyPress::Tab, &t), EditorReply::Bell);
    assert_eq!(e.current_line(), "z");
}

#[test]
fn first_tab_extends_to_the_longest_common_prefix() {
    let t = trie_of(&["codex", "codec"]);
    let mut e = EditorState::new();
    e.handle_key(KeyPress::Char('c'), &t);
    e.handle_key(KeyPress::Char('o'), &t);
    assert_eq!(e.handle_key(KeyPress::Tab, &t), EditorReply::RedrawBell);
    assert_eq!(e.current_line(), "code");
}

#[test]
fn second_tab_lists_the_sorted_completions() {
    let t = trie_of(&["cat", "car"]);
    let mut e = EditorState::new();
    e.handle_key(KeyPress::Char('c'), &t);
    e.handle_key(KeyPress::Char('a'), &t);
    // First Tab: the common prefix is "ca" itself, no progress, bell only.
    assert_eq!(e.handle_key(KeyPress::Tab, &t), EditorReply::Bell);
    assert_eq!(e.current_line(), "ca");
    // Second consecutive Tab: the full sorted list, prompt redrawn beneath.
    match e.handle_key(KeyPress::Tab, &t) {
        EditorReply::Completions(words) => {
            assert_eq!(words, vec!["car".to_string(), "cat".to_string()]);
        }
        other => panic!("expected the completion list, got {:?}", other),
    }
    assert_eq!(e.current_line(), "ca");
    // The cycle was reset: the next Tab behaves like a first press again.
    assert_eq!(e.handle_key(KeyPress::Tab, &t), EditorReply::Bell);
}

#[test]
fn an_edit_resets_the_tab_cycle() {
    let t = trie_of(&["cat", "car"]);
    let mut e = EditorState::new();
    e.handle_key(KeyPress::Char('c'), &t);
    assert_eq!(e.handle_key(KeyPress::Tab, &t), EditorReply::RedrawBell);
    assert_eq!(e.current_line(), "ca");
    // An edit in between: the next Tab is a first press again, not a listing.
    e.handle_key(KeyPress::Backspace, &t);
    e.handle_key(KeyPress::Char('a'), &t);
    assert_eq!(e.handle_key(KeyPress::Tab, &t), EditorReply::Bell);
}
