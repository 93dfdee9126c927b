use markov::text::{is_blank, join_sentence, normalize, split_tokens};

fn strings(input: &[&str]) -> Vec<String> {
    input.iter().map(|s| s.to_string()).collect()
}

#[test]
fn normalize_lowercases_and_isolates() {
    assert_eq!(normalize("Hi, Bob!"), "hi ,    bob ! ");
    assert_eq!(normalize(""), "");
    assert_eq!(normalize(" "), "   ");
    assert_eq!(normalize("\u{c9}t\u{e9}"), "\u{e9}t\u{e9}");
}

#[test]
fn normalize_keeps_lowercase_words() {
    assert_eq!(normalize("word"), "word");
    assert_eq!(
        split_tokens(&normalize("the cat .")),
        split_tokens("the cat .")
    );
}

#[test]
fn split_tokens_drops_empty_pieces() {
    assert_eq!(
        split_tokens("the   cat   is   nice . "),
        strings(&["the", "cat", "is", "nice", "."])
    );
    assert_eq!(split_tokens(""), Vec::<String>::new());
    assert_eq!(split_tokens("   "), Vec::<String>::new());
    assert_eq!(split_tokens("a"), strings(&["a"]));
    assert_eq!(split_tokens(" a\tb "), strings(&["a\tb"]));
}

#[test]
fn is_blank_examples() {
    assert!(is_blank(""));
    assert!(is_blank("  \t "));
    assert!(!is_blank(" a "));
    assert!(!is_blank("."));
}

#[test]
fn join_sentence_examples() {
    assert_eq!(join_sentence(strings(&["the", "cat", "."])), "the cat . ");
    assert_eq!(join_sentence(Vec::new()), "");
    assert_eq!(join_sentence(strings(&["a"])), "a ");
}
