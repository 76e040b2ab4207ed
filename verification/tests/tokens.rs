use pwgram::tokenize::{tokenize, PwTokens};

fn words(list: &[&str]) -> Vec<String> {
    list.iter().map(|s| s.to_string()).collect()
}

#[test]
fn tokenize_it_works() {
    let mut tokens: Vec<String> = Vec::new();
    tokens.push("th".to_string());
    tokens.push("qu".to_string());
    let text = "that quack";

    let pw_tokens = PwTokens::new(text, tokens);
    let tokenized: Vec<String> = pw_tokens.iter();

    assert!(tokenized == ["th", "a", "t", " ", "qu", "a", "c", "k"]);
}

#[test]
fn without_multigraphs_every_cluster_is_a_token() {
    let tokens = PwTokens::new("ab\ncd", Vec::new()).iter();
    assert_eq!(tokens, ["a", "b", "\n", "c", "d"]);
}

#[test]
fn empty_text_has_no_tokens() {
    assert_eq!(PwTokens::new("", words(&["th"])).iter(), Vec::<String>::new());
}

#[test]
fn a_mark_stays_with_its_character() {
    // "e" followed by a combining acute accent is one cluster
    let tokens = PwTokens::new("caf\u{65}\u{301}s", Vec::new()).iter();
    assert_eq!(tokens, ["c", "a", "f", "\u{65}\u{301}", "s"]);
}

#[test]
fn a_line_break_of_two_characters_is_one_cluster() {
    let tokens = PwTokens::new("a\r\nb", Vec::new()).iter();
    assert_eq!(tokens, ["a", "\r\n", "b"]);
}

#[test]
fn the_first_listed_multigraph_wins() {
    assert_eq!(PwTokens::new("schule", words(&["sch", "sc"])).iter(), ["sch", "u", "l", "e"]);
    assert_eq!(
        PwTokens::new("schule", words(&["sc", "sch"])).iter(),
        ["sc", "h", "u", "l", "e"]
    );
}

#[test]
fn a_multigraph_must_fit_the_remaining_text() {
    assert_eq!(PwTokens::new("at", words(&["th"])).iter(), ["a", "t"]);
    assert_eq!(PwTokens::new("tth", words(&["th"])).iter(), ["t", "th"]);
}

#[test]
fn a_multigraph_takes_the_whole_cluster_it_ends_in() {
    // the multigraph "ae" ends inside the cluster "e" + accent
    let tokens = PwTokens::new("a\u{65}\u{301}b", words(&["ae"])).iter();
    assert_eq!(tokens, ["ae", "b"]);
}

#[test]
fn an_empty_multigraph_stands_for_every_cluster() {
    assert_eq!(PwTokens::new("ab", words(&[""])).iter(), ["", ""]);
}

#[test]
fn tokenize_works_on_given_clusters() {
    let clusters = words(&["t", "h", "e", "n"]);
    assert_eq!(tokenize(&clusters, &words(&["he", "th"])), ["th", "e", "n"]);
    assert_eq!(tokenize(&clusters, &words(&["then"])), ["then"]);
    assert_eq!(tokenize(&clusters, &words(&["thenx"])), ["t", "h", "e", "n"]);
    assert_eq!(tokenize(&Vec::new(), &words(&["th"])), Vec::<String>::new());
}

#[test]
fn signs_of_several_characters_are_one_token() {
    // a flag of two regional indicators, and a family joined by zero width joiners
    let text = "a\u{1F1E9}\u{1F1EA}b\u{1F468}\u{200D}\u{1F469}\u{200D}\u{1F467}";
    let tokens = PwTokens::new(text, Vec::new()).iter();
    assert_eq!(
        tokens,
        ["a", "\u{1F1E9}\u{1F1EA}", "b", "\u{1F468}\u{200D}\u{1F469}\u{200D}\u{1F467}"]
    );
}

#[test]
fn the_tokens_of_a_text_without_multigraphs_make_up_the_text() {
    let text = "Zwölf Boxkämpfer jagen Viktor quer über den großen Sylter Deich\r\n";
    let tokens = PwTokens::new(text, Vec::new()).iter();
    assert_eq!(tokens.concat(), text);
    assert_eq!(tokens.len(), text.chars().count() - 1);
}
