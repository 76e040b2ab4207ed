use pwgram::bigram::{find_state, BigramModel, BigramState, BigramTransition};
use pwgram::table::{from_aggregate, QuantizedTable};
use pwgram::train::train;

fn words(list: &[&str]) -> Vec<String> {
    list.iter().map(|s| s.to_string()).collect()
}

fn entries(list: &[(u8, &str)]) -> Vec<(u8, String)> {
    list.iter().map(|(k, s)| (*k, s.to_string())).collect()
}

fn after(token: &str) -> BigramState {
    BigramState::after(token.to_string())
}

#[test]
fn states_compare_by_content() {
    assert!(BigramState::start().same(&BigramState::start()));
    assert!(after("a").same(&after("a")));
    assert!(!after("a").same(&after("b")));
    assert!(!after("a").same(&BigramState::start()));
    assert!(!BigramState::start().same(&after("")));
    assert_eq!(BigramState::from(None), BigramState::start());
    assert_eq!(BigramState::from(Some("a".to_string())), after("a"));
    let state: BigramState = Some("b".to_string()).into();
    assert_eq!(state, after("b"));
    assert_eq!(after("b").clone(), after("b"));
    assert_eq!(BigramState::start().clone(), BigramState::start());
}

#[test]
fn find_state_gives_the_first_position() {
    let list = vec![(BigramState::start(), 1), (after("a"), 2), (after("b"), 3), (after("a"), 4)];
    assert_eq!(find_state(&list, &BigramState::start()), 0);
    assert_eq!(find_state(&list, &after("a")), 1);
    assert_eq!(find_state(&list, &after("b")), 2);
    assert_eq!(find_state(&list, &after("c")), 4);
}

#[test]
fn a_transition_picks_by_point() {
    let table = from_aggregate(vec![("a".to_string(), 1), ("c".to_string(), 1)]);
    let transition = BigramTransition::from(table);
    assert!(!transition.is_empty());
    assert_eq!(transition.pick(0), "a");
    assert_eq!(transition.pick(127), "a");
    assert_eq!(transition.pick(128), "c");
    assert_eq!(transition.pick(255), "c");
    assert_eq!(transition.clone(), transition);
}

#[test]
fn rand_draws_what_the_table_holds() {
    let table =
        from_aggregate(vec![("a".to_string(), 1), ("b".to_string(), 1), ("c".to_string(), 2)]);
    let transition = BigramTransition(table);
    let mut seen = std::collections::HashSet::new();
    for _ in 0..2000 {
        let token = transition.rand();
        assert!(["a", "b", "c"].contains(&token.as_str()));
        seen.insert(token);
    }
    assert_eq!(seen.len(), 3);
}

#[test]
fn rand_never_draws_from_an_interval_without_points() {
    // "none" has the key 0 and "some" the rest: "none" is drawn by the point 0 only
    let table = from_aggregate(vec![("only".to_string(), 5)]);
    let transition = BigramTransition(table);
    for _ in 0..200 {
        assert_eq!(transition.rand(), "only");
    }
}

#[test]
fn a_model_finds_its_states() {
    let model = train(&words(&["a", "b", "a", "b", "c"]), &Vec::new());
    assert!(model.get(&BigramState::start()).is_some());
    assert!(model.get(&after("a")).is_some());
    assert!(model.get(&after("b")).is_some());
    assert!(model.get(&after("c")).is_none());
    assert!(model.outgoing(&after("b")).is_some());
    assert!(model.outgoing(&after("c")).is_none());
    assert_eq!(
        model.get(&after("b")).map(|t| t.0.entries().clone()),
        Some(entries(&[(127, "a"), (255, "c")]))
    );
}

#[test]
fn the_empty_model_has_no_states() {
    let model = BigramModel::new();
    assert!(model.is_empty());
    assert_eq!(model.len(), 0);
    assert!(model.get(&BigramState::start()).is_none());
    assert!(model.outgoing(&BigramState::start()).is_none());
    assert_eq!(model, train(&Vec::new(), &Vec::new()));
}

#[test]
fn a_walk_follows_the_points() {
    let model = train(&words(&["a", "b", "a", "b", "c"]), &Vec::new());
    let mut walk = model.gen_iter();
    assert_eq!(walk.next_with(0), Some("a".to_string()));
    assert_eq!(walk.next_with(200), Some("b".to_string()));
    assert_eq!(walk.next_with(127), Some("a".to_string()));
    assert_eq!(walk.next_with(3), Some("b".to_string()));
    assert_eq!(walk.next_with(128), Some("c".to_string()));
    // there is no way out of the state after "c"
    assert_eq!(walk.next_with(0), None);
    assert_eq!(walk.next_with(255), None);
    assert_eq!(walk.next(), None);
    // a new walk begins at the start again
    let mut walk = model.gen_iter();
    assert_eq!(walk.next_with(90), Some("a".to_string()));
}

#[test]
fn a_random_walk_ends_in_a_dead_end() {
    let model = train(&words(&["a", "b", "a", "b", "c"]), &Vec::new());
    let mut walk = model.gen_iter();
    let mut tokens = Vec::new();
    while let Some(token) = walk.next() {
        tokens.push(token);
    }
    // every walk is a, b, a, b, ..., a, b, c
    assert_eq!(tokens.len() % 2, 1);
    assert_eq!(tokens.last().map(|s| s.as_str()), Some("c"));
    for (i, token) in tokens.iter().enumerate() {
        if i + 1 < tokens.len() {
            assert_eq!(token, if i % 2 == 0 { "a" } else { "b" });
        }
    }
}

#[test]
fn a_walk_over_the_empty_model_gives_nothing() {
    let model = BigramModel::new();
    let mut walk = model.gen_iter();
    assert_eq!(walk.next(), None);
    assert_eq!(walk.next_with(0), None);
}

#[test]
fn parts_round_trip() {
    for corpus in [
        words(&[]),
        words(&["a"]),
        words(&["a", "b", "a", "b", "c"]),
        words(&["x", "\n", "y", "x", "x", "\n", "\n", "z", "y", "x"]),
    ] {
        let model = train(&corpus, &words(&["\n"]));
        let again = BigramModel::from_parts(model.to_parts());
        assert_eq!(again.as_ref(), Some(&model));
        assert_eq!(again.map(|m| m.to_parts()), Some(model.to_parts()));
        assert_eq!(model.clone(), model);
    }
}

#[test]
fn from_parts_takes_a_valid_model() {
    let parts = vec![
        (Some("x".to_string()), entries(&[(255, "y")])),
        (None, entries(&[(100, "x"), (255, "z")])),
        (Some("y".to_string()), Vec::new()),
    ];
    let model = BigramModel::from_parts(parts.clone()).expect("a valid model");
    assert_eq!(model.len(), 3);
    assert_eq!(model.to_parts(), parts);
    // a state with an empty table is listed, but there is no way out of it
    assert!(model.get(&after("y")).is_some());
    assert!(model.outgoing(&after("y")).is_none());
    let mut walk = model.gen_iter();
    assert_eq!(walk.next_with(100), Some("x".to_string()));
    assert_eq!(walk.next_with(100), Some("y".to_string()));
    assert_eq!(walk.next_with(100), None);
}

#[test]
fn from_parts_rejects_a_state_listed_twice() {
    let parts = vec![
        (None, entries(&[(255, "x")])),
        (Some("x".to_string()), entries(&[(255, "y")])),
        (None, entries(&[(255, "z")])),
    ];
    assert!(BigramModel::from_parts(parts).is_none());
    let parts = vec![
        (Some("x".to_string()), entries(&[(255, "y")])),
        (Some("x".to_string()), entries(&[(255, "y")])),
    ];
    assert!(BigramModel::from_parts(parts).is_none());
}

#[test]
fn from_parts_rejects_what_is_no_table() {
    let parts = vec![(None, entries(&[(10, "x")]))];
    assert!(BigramModel::from_parts(parts).is_none());
    let parts = vec![
        (None, entries(&[(255, "x")])),
        (Some("x".to_string()), entries(&[(9, "a"), (9, "b"), (255, "c")])),
    ];
    assert!(BigramModel::from_parts(parts).is_none());
}

#[test]
fn a_transition_is_made_from_a_table() {
    let table = QuantizedTable::from_entries(entries(&[(255, "q")])).expect("a table");
    let transition: BigramTransition = table.into();
    assert_eq!(transition.pick(5), "q");
}
