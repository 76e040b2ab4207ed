use pwgram::bigram::{BigramModel, BigramState};
use pwgram::tokenize::PwTokens;
use pwgram::train::train;

fn words(list: &[&str]) -> Vec<String> {
    list.iter().map(|s| s.to_string()).collect()
}

fn table_of(model: &BigramModel, state: Option<&str>) -> Option<Vec<(u8, String)>> {
    let state = BigramState::from(state.map(|s| s.to_string()));
    model.get(&state).map(|t| t.0.entries().clone())
}

#[test]
fn bigram_train_it_works() {
    let corpus = words(&["a", "b", "a", "b", "c"]);
    let model = train(&corpus, &Vec::new());

    let mut pw = String::new();
    let mut walk = model.gen_iter();
    while let Some(token) = walk.next() {
        pw.push_str(&token);
    }

    println!("{}", pw);
}

#[test]
fn training_is_deterministic() {
    let corpus = words(&["a", "b", "a", "b", "c"]);
    let model = train(&corpus, &Vec::new());
    assert_eq!(model.len(), 3);
    assert_eq!(table_of(&model, None), Some(vec![(255, "a".to_string())]));
    assert_eq!(table_of(&model, Some("a")), Some(vec![(255, "b".to_string())]));
    assert_eq!(
        table_of(&model, Some("b")),
        Some(vec![(127, "a".to_string()), (255, "c".to_string())])
    );
    assert_eq!(table_of(&model, Some("c")), None);
    assert_eq!(
        model.to_parts(),
        vec![
            (None, vec![(255, "a".to_string())]),
            (Some("a".to_string()), vec![(255, "b".to_string())]),
            (Some("b".to_string()), vec![(127, "a".to_string()), (255, "c".to_string())]),
        ]
    );
}

#[test]
fn training_twice_gives_the_same_model() {
    let corpus = words(&["x", "y", "z", "x", "z", "y", "x", "x"]);
    let delims = words(&["z"]);
    assert_eq!(train(&corpus, &delims), train(&corpus, &delims));
}

#[test]
fn empty_corpus_gives_empty_model() {
    let model = train(&Vec::new(), &words(&["\n"]));
    assert!(model.is_empty());
    assert_eq!(model.len(), 0);
    assert_eq!(model.to_parts(), Vec::new());
    assert!(model.gen_iter().next().is_none());
}

#[test]
fn delimiter_breaks_chain() {
    let corpus = words(&["a", "b", "\n", "c", "d"]);
    let model = train(&corpus, &words(&["\n"]));
    assert_eq!(
        model.to_parts(),
        vec![
            (None, vec![(127, "a".to_string()), (255, "c".to_string())]),
            (Some("a".to_string()), vec![(255, "b".to_string())]),
            (Some("c".to_string()), vec![(255, "d".to_string())]),
        ]
    );
    assert_eq!(table_of(&model, Some("b")), None);
    assert_eq!(table_of(&model, Some("\n")), None);
}

#[test]
fn delimiters_at_the_start_and_in_a_row_leave_no_trace() {
    let corpus = words(&["\n", "\n", "a", " ", "\n", "b", "\n"]);
    let model = train(&corpus, &words(&["\n", " "]));
    assert_eq!(
        model.to_parts(),
        vec![(None, vec![(127, "a".to_string()), (255, "b".to_string())])]
    );
}

#[test]
fn corpus_of_delimiters_gives_empty_model() {
    let corpus = words(&["\n", "\n"]);
    let model = train(&corpus, &words(&["\n"]));
    assert!(model.is_empty());
}

#[test]
fn counts_decide_the_intervals() {
    // after "a": "b" three times, "c" once
    let corpus = words(&["a", "b", "a", "b", "a", "c", "a", "b"]);
    let model = train(&corpus, &Vec::new());
    // ascending by count: c (1), b (3); keys 1*255/4 = 63 and 4*255/4 = 255
    assert_eq!(
        table_of(&model, Some("a")),
        Some(vec![(63, "c".to_string()), (255, "b".to_string())])
    );
    // after "b": "a" twice (the last "b" ends the corpus); after "c": "a" once
    assert_eq!(table_of(&model, Some("b")), Some(vec![(255, "a".to_string())]));
    assert_eq!(table_of(&model, Some("c")), Some(vec![(255, "a".to_string())]));
}

#[test]
fn states_are_listed_in_order_of_first_occurrence() {
    let corpus = words(&["q", "r", "s", "q"]);
    let model = train(&corpus, &Vec::new());
    let states: Vec<Option<String>> = model.to_parts().into_iter().map(|p| p.0).collect();
    assert_eq!(
        states,
        vec![None, Some("q".to_string()), Some("r".to_string()), Some("s".to_string())]
    );
}

#[test]
fn a_line_break_in_a_text_breaks_the_chain() {
    let corpus = PwTokens::new("ab\ncd", Vec::new()).iter();
    let model = train(&corpus, &words(&["\n"]));
    for (state, table) in model.to_parts() {
        assert_ne!(state.as_deref(), Some("\n"));
        for (_, token) in table {
            assert_ne!(token, "\n");
            assert!(!(state.as_deref() == Some("b") && token == "c"));
        }
    }
    assert_eq!(table_of(&model, Some("b")), None);
    assert_eq!(table_of(&model, Some("c")), Some(vec![(255, "d".to_string())]));
}
