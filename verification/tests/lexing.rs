use tfidx::lexer::{tokenize, Lexer};

fn chars(text: &str) -> Vec<char> {
    text.chars().collect()
}

fn text_of(chars: &[char]) -> String {
    chars.iter().collect()
}

#[test]
fn empty_text_has_no_terms() {
    assert_eq!(tokenize(""), Vec::<String>::new());
    assert_eq!(tokenize("  \t\n "), Vec::<String>::new());
}

#[test]
fn words_are_folded_to_upper_case() {
    assert_eq!(tokenize("cat Dog dOG"), vec!["CAT", "DOG", "DOG"]);
}

#[test]
fn a_word_absorbs_digits_but_a_number_stops_at_a_letter() {
    assert_eq!(tokenize("gl4 4gl"), vec!["GL4", "4", "GL"]);
    assert_eq!(tokenize("x86_64"), vec!["X86", "_", "64"]);
}

#[test]
fn numbers_are_kept_as_they_are() {
    assert_eq!(tokenize("2024 007"), vec!["2024", "007"]);
}

#[test]
fn symbols_stand_alone() {
    assert_eq!(tokenize("a+b==c;"), vec!["A", "+", "B", "=", "=", "C", ";"]);
    assert_eq!(tokenize("..."), vec![".", ".", "."]);
}

#[test]
fn a_term_never_crosses_whitespace() {
    assert_eq!(tokenize("ab cd\tef\ngh"), vec!["AB", "CD", "EF", "GH"]);
}

#[test]
fn only_ascii_letters_change_case() {
    assert_eq!(tokenize("é straße"), vec!["é", "STRAßE"]);
}

#[test]
fn no_term_is_empty() {
    for term in tokenize(" a  1 ,, b2 \u{a0} ") {
        assert!(!term.is_empty());
    }
}

#[test]
fn terms_joined_are_the_text_without_whitespace() {
    let text = "  glTexImage2D(target, 0,\n\tGL_RGBA8) -> void; 3x ";
    let joined: String = tokenize(text).concat();
    let solid: String = text.chars().filter(|c| !c.is_whitespace()).collect();
    assert_eq!(joined, solid.to_ascii_uppercase());
}

#[test]
fn lexer_steps_through_the_text() {
    let content = chars("  x1 22");
    let mut lexer = Lexer::new(&content);
    assert_eq!(lexer.next_token(), Some(String::from("X1")));
    assert_eq!(lexer.next_token(), Some(String::from("22")));
    assert_eq!(lexer.next_token(), None);
    assert_eq!(lexer.next_token(), None);
}

#[test]
fn trim_left_skips_leading_whitespace_only() {
    let content = chars(" \t a b ");
    let mut lexer = Lexer::new(&content);
    lexer.trim_left();
    assert_eq!(text_of(lexer.chop(4)), "a b ");
}

#[test]
fn chop_splits_off_a_prefix() {
    let content = chars("hello");
    let mut lexer = Lexer::new(&content);
    assert_eq!(text_of(lexer.chop(2)), "he");
    assert_eq!(text_of(lexer.chop(0)), "");
    assert_eq!(text_of(lexer.chop(3)), "llo");
    assert_eq!(lexer.next_token(), None);
}

#[test]
fn chop_while_takes_the_longest_accepted_run() {
    let content = chars("aaab");
    let mut lexer = Lexer::new(&content);
    assert_eq!(text_of(lexer.chop_while(|c: &char| *c == 'a')), "aaa");
    assert_eq!(text_of(lexer.chop_while(|c: &char| *c == 'a')), "");
    assert_eq!(text_of(lexer.chop_while(|_c: &char| true)), "b");
    assert_eq!(text_of(lexer.chop_while(|_c: &char| true)), "");
}
