use indexer::text::{classify, classify_text, collect_words_in_document, is_math_symbol, words_of_chars, CharInfo};

fn words(text: &str) -> Vec<String> {
    collect_words_in_document(&text.to_string())
}

fn plain(c: char) -> CharInfo {
    CharInfo {
        value: c,
        whitespace: false,
        alphanumeric: true,
        lowercase: vec![c],
        lowercase_alphanumeric: true,
    }
}

fn space() -> CharInfo {
    CharInfo {
        value: ' ',
        whitespace: true,
        alphanumeric: false,
        lowercase: vec![' '],
        lowercase_alphanumeric: false,
    }
}

fn mark(c: char) -> CharInfo {
    CharInfo {
        value: c,
        whitespace: false,
        alphanumeric: false,
        lowercase: vec![c],
        lowercase_alphanumeric: false,
    }
}

#[test]
fn tokenize_hello_world() {
    assert_eq!(words("Hello, World!"), vec!["hello".to_string(), "world".to_string()]);
}

#[test]
fn tokenize_keeps_math_symbols_inside_a_term() {
    assert_eq!(words("3+4=7"), vec!["3+4=7".to_string()]);
}

#[test]
fn tokenize_drops_symbols_without_alphanumeric() {
    assert_eq!(words("----"), Vec::<String>::new());
}

#[test]
fn tokenize_empty_text() {
    assert_eq!(words(""), Vec::<String>::new());
}

#[test]
fn tokenize_only_whitespace() {
    assert_eq!(words(" \t\n  "), Vec::<String>::new());
}

#[test]
fn tokenize_removes_brackets_inside_a_fragment() {
    assert_eq!(words("o(n)"), vec!["on".to_string()]);
}

#[test]
fn tokenize_splits_on_runs_of_any_whitespace() {
    assert_eq!(
        words("  a \t\n b\u{2003}c  "),
        vec!["a".to_string(), "b".to_string(), "c".to_string()]
    );
}

#[test]
fn tokenize_lowercases_beyond_ascii() {
    assert_eq!(words("ÄRGER Ünïcode"), vec!["ärger".to_string(), "ünïcode".to_string()]);
}

#[test]
fn tokenize_lowercase_may_grow() {
    assert_eq!(words("\u{130}"), vec!["i\u{307}".to_string()]);
}

#[test]
fn tokenize_keeps_every_math_symbol() {
    assert_eq!(words("a+-*/=<>b"), vec!["a+-*/=<>b".to_string()]);
    assert_eq!(words("x<=y x>=y"), vec!["x<=y".to_string(), "x>=y".to_string()]);
}

#[test]
fn tokenize_drops_fragment_between_terms() {
    assert_eq!(words("a +++ b ... c"), vec!["a".to_string(), "b".to_string(), "c".to_string()]);
}

#[test]
fn tokenize_keeps_repeats_in_order() {
    assert_eq!(
        words("cat dog cat"),
        vec!["cat".to_string(), "dog".to_string(), "cat".to_string()]
    );
}

#[test]
fn math_symbols_are_the_seven() {
    for c in ['+', '-', '*', '/', '=', '<', '>'] {
        assert!(is_math_symbol(c));
    }
    for c in ['a', '0', ' ', '(', ')', '.', ',', '%', '^', '!'] {
        assert!(!is_math_symbol(c));
    }
}

#[test]
fn classify_letter_digit_space_symbol() {
    let a = classify('A');
    assert_eq!(a.value, 'A');
    assert!(!a.whitespace);
    assert!(a.alphanumeric);
    assert_eq!(a.lowercase, vec!['a']);
    assert!(a.lowercase_alphanumeric);

    let seven = classify('7');
    assert!(seven.alphanumeric);
    assert_eq!(seven.lowercase, vec!['7']);

    let blank = classify(' ');
    assert!(blank.whitespace);
    assert!(!blank.alphanumeric);
    assert!(!blank.lowercase_alphanumeric);

    let plus = classify('+');
    assert!(!plus.whitespace);
    assert!(!plus.alphanumeric);
    assert_eq!(plus.lowercase, vec!['+']);
    assert!(!plus.lowercase_alphanumeric);
}

#[test]
fn classify_text_keeps_order_and_length() {
    let infos = classify_text("aB 1");
    let values: Vec<char> = infos.iter().map(|i| i.value).collect();
    assert_eq!(values, vec!['a', 'B', ' ', '1']);
    assert_eq!(infos[1].lowercase, vec!['b']);
    assert!(infos[2].whitespace);
}

#[test]
fn words_of_classified_chars() {
    let chars = vec![plain('a'), mark('+'), plain('b'), space(), mark('-'), mark('-'), space(), plain('c')];
    assert_eq!(words_of_chars(&chars), vec!["a+b".to_string(), "c".to_string()]);
}

#[test]
fn words_of_chars_follow_the_given_facts() {
    let upper = CharInfo {
        value: 'Q',
        whitespace: false,
        alphanumeric: true,
        lowercase: vec!['x', 'y'],
        lowercase_alphanumeric: true,
    };
    let dropped = CharInfo {
        value: '(',
        whitespace: false,
        alphanumeric: false,
        lowercase: vec!['('],
        lowercase_alphanumeric: false,
    };
    assert_eq!(words_of_chars(&vec![dropped, upper]), vec!["xy".to_string()]);
    assert_eq!(words_of_chars(&vec![]), Vec::<String>::new());
}

#[test]
fn words_of_chars_need_a_letter_or_digit_in_the_term() {
    let odd = CharInfo {
        value: 'z',
        whitespace: false,
        alphanumeric: true,
        lowercase: vec!['~'],
        lowercase_alphanumeric: false,
    };
    assert_eq!(words_of_chars(&vec![odd]), Vec::<String>::new());
}
