use markov::chain::{ConfigError, GenerateError, MarkovChain, TrainError};

const START: &str = "START";
const END: &str = "END";

fn string_vec(input: Vec<&str>) -> Vec<String> {
    let mut output = vec![];
    for i in input.iter() {
        output.push(i.to_string());
    }
    output
}

fn string_to_lines(s: &str) -> Vec<String> {
    s.lines().map(|l| l.to_string()).collect()
}

#[test]
fn test_markov_chain() {
    let mut ex_mc = MarkovChain::new(2).unwrap();
    let e_string = START.to_string();
    ex_mc.update_states(vec![e_string.clone(), e_string.clone()], "Once");
    assert_eq!(
        ex_mc.choose_transition(&vec![e_string.clone(), e_string.clone()]),
        "Once"
    );
}

#[test]
fn test_create_sentence() {
    let mut markov = MarkovChain::new(2).unwrap();
    markov.update_states(string_vec(vec![START, START]), "the");
    markov.update_states(string_vec(vec![START, "the"]), "cat");
    markov.update_states(string_vec(vec!["the", "cat"]), "is");
    markov.update_states(string_vec(vec!["cat", "is"]), "nice");
    markov.update_states(string_vec(vec!["is", "nice"]), ".");
    markov.update_states(string_vec(vec!["nice", "."]), END);
    let sentence = markov.create_sentence().unwrap();
    assert_eq!(sentence, string_vec(vec!["the", "cat", "is", "nice", "."]));
}

#[test]
fn test_add_training_data() {
    let mut markov = MarkovChain::new(2).unwrap();
    markov.add_training_data(&string_to_lines("The cat is nice."));
    let sentence = markov.create_sentence().unwrap();
    assert_eq!(sentence, string_vec(vec!["the", "cat", "is", "nice", "."]));
}

#[test]
fn test_add_training_data_harder_sentence() {
    let mut markov = MarkovChain::new(1).unwrap();
    markov.add_training_data(&string_to_lines("The cat is nice to the dog."));
    let expected = string_vec(vec!["the", "cat", "is", "nice", "to", "the", "dog", "."]);
    // "the" is followed once by "cat" and once by "dog", so the walk is a
    // matter of chance at that word: the sentence is one that the chain
    // holds, and it comes out among repeated draws.
    let mut key = markov.start_state();
    for word in expected.iter() {
        assert!(can_follow(&markov, &key, word));
        key = vec![word.clone()];
    }
    assert!(can_follow(&markov, &key, END));
    assert_eq!(markov.counts(&string_vec(vec!["the"])), vec![1, 1]);
    let mut sentence = markov.create_sentence().unwrap();
    let mut tries = 0;
    while sentence != expected && tries < 2000 {
        assert_eq!(sentence.first(), Some(&"the".to_string()));
        assert_eq!(sentence.last(), Some(&".".to_string()));
        sentence = markov.create_sentence().unwrap();
        tries += 1;
    }
    assert_eq!(
        sentence,
        string_vec(vec!["the", "cat", "is", "nice", "to", "the", "dog", "."])
    );
}

fn can_follow(chain: &MarkovChain, key: &Vec<String>, word: &str) -> bool {
    let n = chain.counts(key).len();
    (0..n).any(|i| chain.transition_at(key, i) == word)
}

#[test]
fn new_refuses_degree_zero() {
    assert!(matches!(MarkovChain::new(0), Err(ConfigError::ZeroDegree)));
    assert!(MarkovChain::new(1).is_ok());
    assert!(MarkovChain::new(u32::MAX).is_ok());
}

#[test]
fn start_state_has_degree_start_tokens() {
    let chain = MarkovChain::new(3).unwrap();
    assert_eq!(chain.start_state(), string_vec(vec![START, START, START]));
}

#[test]
fn new_chain_knows_nothing() {
    let chain = MarkovChain::new(2).unwrap();
    assert!(!chain.knows(&chain.start_state()));
    assert_eq!(chain.counts(&chain.start_state()), Vec::<u32>::new());
}

#[test]
fn update_states_counts_sightings() {
    let mut chain = MarkovChain::new(1).unwrap();
    let key = string_vec(vec!["a"]);
    chain.update_states(key.clone(), "x");
    assert!(chain.knows(&key));
    assert_eq!(chain.counts(&key), vec![1]);
    chain.update_states(key.clone(), "y");
    assert_eq!(chain.counts(&key), vec![1, 1]);
    chain.update_states(key.clone(), "x");
    chain.update_states(key.clone(), "x");
    assert_eq!(chain.counts(&key), vec![3, 1]);
    assert_eq!(chain.transition_at(&key, 0), "x");
    assert_eq!(chain.transition_at(&key, 1), "y");
    let other = string_vec(vec!["b"]);
    assert!(!chain.knows(&other));
    chain.update_states(other.clone(), "y");
    assert_eq!(chain.counts(&other), vec![1]);
    assert_eq!(chain.counts(&key), vec![3, 1]);
}

#[test]
fn single_transition_is_always_chosen() {
    let mut chain = MarkovChain::new(1).unwrap();
    let key = string_vec(vec![START]);
    for _ in 0..5 {
        chain.update_states(key.clone(), "only");
    }
    for _ in 0..100 {
        assert_eq!(chain.choose_transition(&key), "only");
    }
}

#[test]
fn weighted_sampling_follows_the_counts() {
    let mut chain = MarkovChain::new(1).unwrap();
    let key = string_vec(vec![START]);
    chain.update_states(key.clone(), "a");
    for _ in 0..99 {
        chain.update_states(key.clone(), "b");
    }
    assert_eq!(chain.counts(&key), vec![1, 99]);
    let mut a = 0u32;
    let mut b = 0u32;
    for _ in 0..10_000 {
        let tok = chain.choose_transition(&key);
        if tok == "b" {
            b += 1;
        } else {
            assert_eq!(tok, "a");
            a += 1;
        }
    }
    assert_eq!(a + b, 10_000);
    let freq = f64::from(b) / 10_000.0;
    assert!(freq > 0.975 && freq < 1.0, "frequency of b was {}", freq);
}

#[test]
fn blank_line_resets_context() {
    let mut chain = MarkovChain::new(1).unwrap();
    chain.add_training_data(&string_to_lines("Hi.\n\nBye."));
    let start = chain.start_state();
    assert_eq!(chain.counts(&start), vec![1, 1, 1]);
    assert_eq!(chain.transition_at(&start, 0), "hi");
    assert_eq!(chain.transition_at(&start, 1), END);
    assert_eq!(chain.transition_at(&start, 2), "bye");
    let dot = string_vec(vec!["."]);
    assert_eq!(chain.counts(&dot), vec![2]);
    assert_eq!(chain.transition_at(&dot, 0), END);
    assert_eq!(chain.counts(&string_vec(vec!["hi"])), vec![1]);
    assert_eq!(chain.transition_at(&string_vec(vec!["hi"]), 0), ".");
    assert_eq!(chain.transition_at(&string_vec(vec!["bye"]), 0), ".");
    for _ in 0..50 {
        let sentence = chain.create_sentence().unwrap();
        assert!(
            sentence.is_empty()
                || sentence == string_vec(vec!["hi", "."])
                || sentence == string_vec(vec!["bye", "."])
        );
    }
}

#[test]
fn training_without_terminator_ends_the_sentence() {
    let mut chain = MarkovChain::new(2).unwrap();
    chain.add_training_data(&string_to_lines("good dog"));
    assert_eq!(chain.transition_at(&string_vec(vec!["good", "dog"]), 0), END);
    assert_eq!(
        chain.create_sentence().unwrap(),
        string_vec(vec!["good", "dog"])
    );
}

#[test]
fn training_accumulates() {
    let mut chain = MarkovChain::new(1).unwrap();
    chain.add_training_data(&string_to_lines("Go!"));
    chain.add_training_data(&string_to_lines("Go?"));
    let go = string_vec(vec!["go"]);
    assert_eq!(chain.counts(&chain.start_state()), vec![2]);
    assert_eq!(chain.counts(&go), vec![1, 1]);
    assert_eq!(chain.transition_at(&go, 0), "!");
    assert_eq!(chain.transition_at(&go, 1), "?");
}

#[test]
fn training_on_nothing_changes_nothing() {
    let mut chain = MarkovChain::new(2).unwrap();
    chain.add_training_data(&Vec::new());
    assert!(!chain.knows(&chain.start_state()));
}

#[test]
fn trivial_chain_gives_empty_sentence() {
    let mut chain = MarkovChain::new(1).unwrap();
    chain.add_training_data(&string_to_lines("   "));
    assert_eq!(chain.create_sentence().unwrap(), Vec::<String>::new());
}

#[test]
fn untrained_chain_reports_untrained_context() {
    let chain = MarkovChain::new(2).unwrap();
    assert_eq!(chain.create_sentence(), Err(GenerateError::UntrainedContext));
    let mut chain = MarkovChain::new(1).unwrap();
    chain.update_states(string_vec(vec![START]), "lost");
    assert_eq!(chain.create_sentence(), Err(GenerateError::UntrainedContext));
}

#[test]
fn process_training_line_examples() {
    assert_eq!(
        MarkovChain::process_training_line("The cat is nice.".to_string()),
        "the   cat   is   nice . "
    );
    assert_eq!(MarkovChain::process_training_line(String::new()), "");
    assert_eq!(MarkovChain::process_training_line("ABC".to_string()), "abc");
    assert_eq!(MarkovChain::process_training_line("?!".to_string()), " ?  ! ");
    assert_eq!(MarkovChain::process_training_line("a1b".to_string()), "a 1 b");
    assert_eq!(MarkovChain::process_training_line("already".to_string()), "already");
}

#[test]
fn training_steps_counts_sightings() {
    let chain = MarkovChain::new(2).unwrap();
    assert_eq!(chain.training_steps(&string_to_lines("The cat is nice.")), Some(6));
    assert_eq!(chain.training_steps(&string_to_lines("Hi.\n\nBye.")), Some(7));
    assert_eq!(chain.training_steps(&string_to_lines("good dog")), Some(3));
    assert_eq!(chain.training_steps(&Vec::new()), Some(0));
    assert_eq!(chain.training_steps(&string_to_lines("\n\n")), Some(2));
}

#[test]
fn heaviest_is_the_greatest_weight() {
    let mut chain = MarkovChain::new(1).unwrap();
    assert_eq!(chain.heaviest(), 0);
    chain.update_states(string_vec(vec!["a"]), "x");
    chain.update_states(string_vec(vec!["b"]), "x");
    chain.update_states(string_vec(vec!["b"]), "y");
    chain.update_states(string_vec(vec!["b"]), "y");
    chain.update_states(string_vec(vec!["c"]), "z");
    assert_eq!(chain.heaviest(), 3);
}

#[test]
fn try_add_training_data_trains_where_there_is_room() {
    let mut tried = MarkovChain::new(2).unwrap();
    let ok: Result<(), TrainError> = tried.try_add_training_data(&string_to_lines("The cat is nice."));
    assert_eq!(ok, Ok(()));
    let mut plain = MarkovChain::new(2).unwrap();
    plain.add_training_data(&string_to_lines("The cat is nice."));
    for key in [
        vec![START, START],
        vec![START, "the"],
        vec!["the", "cat"],
        vec!["cat", "is"],
        vec!["is", "nice"],
        vec!["nice", "."],
    ] {
        let key = string_vec(key);
        assert_eq!(tried.counts(&key), vec![1]);
        assert_eq!(tried.counts(&key), plain.counts(&key));
        assert_eq!(tried.transition_at(&key, 0), plain.transition_at(&key, 0));
    }
    assert_eq!(tried.heaviest(), 1);
}

#[test]
fn unambiguous_chain_always_gives_the_same_sentence() {
    let mut chain = MarkovChain::new(2).unwrap();
    chain.add_training_data(&string_to_lines("The cat is nice."));
    let first = chain.create_sentence().unwrap();
    for _ in 0..50 {
        assert_eq!(chain.create_sentence().unwrap(), first);
    }
}

#[test]
fn trained_counts_are_at_least_one() {
    let mut chain = MarkovChain::new(1).unwrap();
    chain.add_training_data(&string_to_lines("A b a b. A c!\n\nB a?"));
    for key in [START, "a", "b", "c", ".", "!", "?"] {
        let key = string_vec(vec![key]);
        assert!(chain.knows(&key));
        let counts = chain.counts(&key);
        assert!(!counts.is_empty());
        assert!(counts.iter().all(|c| *c >= 1));
    }
    assert_eq!(chain.counts(&string_vec(vec!["a"])), vec![2, 1, 1]);
    assert_eq!(chain.counts(&string_vec(vec![START])), vec![2, 1, 1]);
}

#[test]
fn trained_chain_never_meets_an_untrained_context() {
    let mut chain = MarkovChain::new(2).unwrap();
    chain.add_training_data(&string_to_lines("A b a b. A c!\n\nB a?\nno end"));
    for _ in 0..200 {
        assert!(chain.create_sentence().is_ok());
    }
}
