use inverted_index::tokenizer::SimpleTokenizer;

#[test]
fn test_tokenize_basic() {
    let tokens = SimpleTokenizer::tokenize("Hello, world!");
    assert_eq!(tokens, vec!["hello", "world"])
}

#[test]
fn tokenize_twice_yields_identical_sequences() {
    let text = "Mixed CASE, punc-tuation... and 42 numbers!";
    let first = SimpleTokenizer::tokenize(text);
    let second = SimpleTokenizer::tokenize(text);
    assert_eq!(first, second);
}

#[test]
fn tokens_are_lowercase_alphanumeric_only() {
    let tokens = SimpleTokenizer::tokenize("Foo-123, BAR!! baz9 \t qux");
    assert_eq!(tokens, vec!["foo", "123", "bar", "baz9", "qux"]);
    for token in &tokens {
        assert!(!token.is_empty());
        assert!(token.chars().all(|c| c.is_alphanumeric()));
        assert!(!token.chars().any(|c| c.is_uppercase()));
    }
}

#[test]
fn digits_stay_joined_to_letters() {
    // A token is a maximal alphanumeric run: letters and digits do not split.
    let tokens = SimpleTokenizer::tokenize("foo123 4ever 2020");
    assert_eq!(tokens, vec!["foo123", "4ever", "2020"]);
}

#[test]
fn empty_and_punctuation_only_inputs_yield_no_tokens() {
    assert_eq!(SimpleTokenizer::tokenize(""), Vec::<String>::new());
    assert_eq!(SimpleTokenizer::tokenize("?!... --- ,,,"), Vec::<String>::new());
    assert_eq!(SimpleTokenizer::tokenize(" \t\n "), Vec::<String>::new());
}

#[test]
fn accented_text_is_lowercased_and_kept() {
    let tokens = SimpleTokenizer::tokenize("Crème BRÛLÉE");
    assert_eq!(tokens, vec!["crème", "brûlée"]);
}
