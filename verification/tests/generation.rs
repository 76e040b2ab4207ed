use pwgram::bigram::BigramModel;
use pwgram::entropy::{advance_states, BigramEntropyEstimator};
use pwgram::bigram::BigramState;
use pwgram::pwgen::{BigramPwgenerator, PasswordAssembly};
use pwgram::table::QuantizedTable;
use pwgram::train::train;

fn words(list: &[&str]) -> Vec<String> {
    list.iter().map(|s| s.to_string()).collect()
}

fn entries(list: &[(u8, &str)]) -> Vec<(u8, String)> {
    list.iter().map(|(k, s)| (*k, s.to_string())).collect()
}

fn abc() -> BigramModel {
    train(&words(&["a", "b", "a", "b", "c"]), &Vec::new())
}

fn entropy_of(widths: &[u8]) -> f64 {
    widths
        .iter()
        .map(|&width| {
            let p = f64::from(width) / 256.0;
            let e = -p * p.log2();
            if e.is_normal() {
                e
            } else {
                0.0
            }
        })
        .sum()
}

fn pwgen(model: BigramModel, minent: f64) -> String {
    let mut entropy: f64 = 0.0;
    let mut assembly = PasswordAssembly::new(&model);
    while let Some(widths) = assembly.advance() {
        entropy += entropy_of(&widths);
        if entropy >= minent {
            break;
        }
    }
    assembly.into_password()
}

#[test]
fn the_estimator_follows_the_chain() {
    let model = abc();
    let mut estimator = BigramEntropyEstimator::new(&model);
    // start -> a for certain: 255 * 255 flows to the state after "a"
    assert_eq!(estimator.next(), vec![255]);
    // a -> b for certain
    assert_eq!(estimator.next(), vec![255]);
    // b -> a with 127 and b -> c with 128 of 255
    assert_eq!(estimator.next(), vec![127, 128]);
    // a (127) -> b with 127 * 255 = 32385; c (128) has no way out and hands
    // 128 * 256 = 32768 back to the start: 32385 * 255 / 65153 = 126
    assert_eq!(estimator.next(), vec![126, 129]);
}

#[test]
fn advance_states_gives_the_states_with_their_keys() {
    let model = abc();
    let start = QuantizedTable::certain(BigramState::start());
    let one = advance_states(&model, &start);
    assert_eq!(one.entries(), &vec![(255u8, BigramState::after("a".to_string()))]);
    let two = advance_states(&model, &one);
    let three = advance_states(&model, &two);
    assert_eq!(
        three.entries(),
        &vec![
            (127u8, BigramState::after("a".to_string())),
            (255u8, BigramState::after("c".to_string()))
        ]
    );
    let four = advance_states(&model, &three);
    assert_eq!(
        four.entries(),
        &vec![(126u8, BigramState::after("b".to_string())), (255u8, BigramState::start())]
    );
    // nothing flows out of the empty distribution
    assert!(advance_states(&model, &QuantizedTable::new()).is_empty());
}

#[test]
fn the_estimator_of_the_empty_model_stays_at_the_start() {
    let model = BigramModel::new();
    let mut estimator = BigramEntropyEstimator::new(&model);
    for _ in 0..5 {
        assert_eq!(estimator.next(), vec![255]);
    }
}

#[test]
fn states_that_are_reached_twice_are_added_up() {
    // after "a" and after "b" comes "c": both shares flow into the state after "c"
    let parts = vec![
        (None, entries(&[(99, "a"), (255, "b")])),
        (Some("a".to_string()), entries(&[(255, "c")])),
        (Some("b".to_string()), entries(&[(255, "c")])),
    ];
    let model = BigramModel::from_parts(parts).expect("a valid model");
    let mut estimator = BigramEntropyEstimator::new(&model);
    assert_eq!(estimator.next(), vec![99, 156]);
    assert_eq!(estimator.next(), vec![255]);
    // the state after "c" has no way out: all is back at the start
    assert_eq!(estimator.next(), vec![255]);
    assert_eq!(estimator.next(), vec![99, 156]);
}

#[test]
fn the_widths_of_every_step_add_up() {
    let corpus = words(&["p", "a", "s", "s", "\n", "w", "o", "r", "d", "\n", "s", "o", "a", "p"]);
    let model = train(&corpus, &words(&["\n"]));
    let mut estimator = BigramEntropyEstimator::new(&model);
    for _ in 0..50 {
        let widths = estimator.next();
        assert!(!widths.is_empty());
        assert_eq!(widths.iter().map(|w| u32::from(*w)).sum::<u32>(), 255);
    }
}

#[test]
fn entropy_is_never_negative_and_adds_up() {
    let corpus = words(&["p", "a", "s", "s", "\n", "w", "o", "r", "d", "\n", "s", "o", "a", "p"]);
    let model = train(&corpus, &words(&["\n"]));
    let mut estimator = BigramEntropyEstimator::new(&model);
    let mut total = 0.0f64;
    for _ in 0..200 {
        let step = entropy_of(&estimator.next());
        assert!(step >= 0.0);
        let before = total;
        total += step;
        assert!(total >= before);
    }
    assert!(total > 0.0);
}

#[test]
fn entropy_of_an_even_split_is_about_one_bit() {
    let e = entropy_of(&[127, 128]);
    assert!((e - 0.99).abs() < 0.02, "{}", e);
    assert_eq!(entropy_of(&[0, 0]), 0.0);
    assert!(entropy_of(&[255]) > 0.0);
    assert!(entropy_of(&[255]) < 0.01);
}

#[test]
fn a_wrapped_walk_restarts_at_a_dead_end() {
    let model = abc();
    let mut walk = BigramPwgenerator::new(&model);
    let mut tokens = Vec::new();
    for _ in 0..7 {
        tokens.push(walk.next_with(255).expect("a token"));
    }
    assert_eq!(tokens, ["a", "b", "c", "a", "b", "c", "a"]);
    let mut walk = BigramPwgenerator::new(&model);
    let mut tokens = Vec::new();
    for _ in 0..6 {
        tokens.push(walk.next_with(0).expect("a token"));
    }
    assert_eq!(tokens, ["a", "b", "a", "b", "a", "b"]);
}

#[test]
fn a_wrapped_walk_never_stops() {
    let model = abc();
    let mut walk = BigramPwgenerator::new(&model);
    for _ in 0..1000 {
        let token = walk.next().expect("a token");
        assert!(["a", "b", "c"].contains(&token.as_str()));
    }
}

#[test]
fn a_wrapped_walk_over_the_empty_model_gives_nothing() {
    let model = BigramModel::new();
    let mut walk = BigramPwgenerator::new(&model);
    assert_eq!(walk.next(), None);
    assert_eq!(walk.next_with(17), None);
    assert_eq!(walk.next(), None);
}

#[test]
fn a_wrapped_walk_needs_a_way_out_of_the_start() {
    // the start state is not listed: nothing is generated
    let parts = vec![(Some("x".to_string()), entries(&[(255, "y")]))];
    let model = BigramModel::from_parts(parts).expect("a valid model");
    let mut walk = BigramPwgenerator::new(&model);
    assert_eq!(walk.next(), None);
    // the start state is listed with an empty table: nothing either
    let model = BigramModel::from_parts(vec![(None, Vec::new())]).expect("a valid model");
    let mut walk = BigramPwgenerator::new(&model);
    assert_eq!(walk.next(), None);
}

#[test]
fn the_assembly_collects_the_tokens() {
    let model = abc();
    let mut assembly = PasswordAssembly::new(&model);
    assert_eq!(assembly.password(), "");
    assert_eq!(assembly.widths(), vec![255]);
    assert_eq!(assembly.advance_with(255), Some(vec![255]));
    assert_eq!(assembly.password(), "a");
    assert_eq!(assembly.advance_with(255), Some(vec![255]));
    assert_eq!(assembly.advance_with(255), Some(vec![127, 128]));
    assert_eq!(assembly.password(), "abc");
    assert_eq!(assembly.advance_with(255), Some(vec![126, 129]));
    assert_eq!(assembly.widths(), vec![126, 129]);
    assert_eq!(assembly.into_password(), "abca");
}

#[test]
fn the_assembly_of_the_empty_model_stays_empty() {
    let model = BigramModel::new();
    let mut assembly = PasswordAssembly::new(&model);
    assert_eq!(assembly.advance(), None);
    assert_eq!(assembly.advance_with(0), None);
    assert_eq!(assembly.password(), "");
    assert_eq!(assembly.widths(), vec![255]);
    assert_eq!(assembly.into_password(), "");
}

#[test]
fn a_password_of_the_empty_model_is_empty() {
    assert_eq!(pwgen(BigramModel::new(), 90.0), "");
    assert_eq!(pwgen(train(&Vec::new(), &Vec::new()), 90.0), "");
}

#[test]
fn a_password_has_the_wanted_entropy() {
    let corpus = words(&["p", "a", "s", "s", "\n", "w", "o", "r", "d", "\n", "s", "o", "a", "p"]);
    let model = train(&corpus, &words(&["\n"]));
    let password = pwgen(model.clone(), 20.0);
    assert!(!password.is_empty());
    assert!(password.chars().all(|c| "pasword".contains(c)));
    // the same walk, step by step
    let mut assembly = PasswordAssembly::new(&model);
    let mut entropy = 0.0;
    let mut steps = 0;
    while entropy < 20.0 {
        let widths = assembly.advance().expect("a token");
        entropy += entropy_of(&widths);
        steps += 1;
    }
    assert_eq!(assembly.password().chars().count(), steps);
    assert_eq!(password.chars().count(), steps);
}

#[test]
fn a_password_for_no_entropy_is_one_token() {
    assert_eq!(pwgen(abc(), 0.0), "a");
}
