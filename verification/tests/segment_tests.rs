use lsaver::grammar::LSystem;
use lsaver::segments::{CurrentString, TurtleStates};
use lsaver::{Parameters, FS_PER_TURTLE_MOVE};

fn chars(s: &str) -> Vec<char> {
    s.chars().collect()
}

fn states_over(s: &str) -> TurtleStates {
    TurtleStates { current_string_pos: 0, lsys: LSystem::new(chars(s), Vec::new(), 102944) }
}

fn concat(batch: &[CurrentString]) -> String {
    batch.iter().flat_map(|c| c.string.iter()).collect()
}

#[test]
fn batch_stops_after_five_forward_moves() {
    let mut ts = states_over("FFFFFF");
    let first = ts.next().expect("six moves give a first batch");
    assert_eq!(first.len(), FS_PER_TURTLE_MOVE);
    assert_eq!(concat(&first), "FFFFF");
    let second = ts.next().expect("one move is left");
    assert_eq!(concat(&second), "F");
    assert!(ts.next().is_none());
    assert!(ts.next().is_none());
}

#[test]
fn chunks_end_on_forward_moves_and_carry_the_tail() {
    let mut ts = states_over("+F-F--");
    let batch = ts.next().expect("the string is not exhausted");
    let strings: Vec<String> = batch.iter().map(|c| c.string.iter().collect()).collect();
    assert_eq!(strings, vec!["+F", "-F", "--"]);
    assert!(ts.next().is_none());
}

#[test]
fn chunks_carry_the_grammar_angle() {
    let mut ts = states_over("F+F");
    let batch = ts.next().unwrap();
    for c in &batch {
        assert_eq!(c.angle, 102944);
    }
}

#[test]
fn concatenated_batches_reconstruct_the_whole_string() {
    let mut rng = rand::thread_rng();
    let params = Parameters::new();
    let mut ts = TurtleStates::new(&params, &mut rng);
    let expanded: String = ts.lsys.string.iter().collect();
    let mut rebuilt = String::new();
    while let Some(batch) = ts.next() {
        let mut fs = 0;
        for (k, chunk) in batch.iter().enumerate() {
            assert!(!chunk.string.is_empty());
            fs += chunk.string.iter().filter(|c| **c == 'F').count();
            let ends_on_f = *chunk.string.last().unwrap() == 'F';
            let is_final_tail =
                k == batch.len() - 1 && ts.current_string_pos == ts.lsys.string.len();
            assert!(ends_on_f || is_final_tail);
            rebuilt.extend(chunk.string.iter());
        }
        assert!(fs <= FS_PER_TURTLE_MOVE);
    }
    assert_eq!(rebuilt, expanded);
    assert!(ts.next().is_none());
}

#[test]
fn exhausted_iterator_keeps_signalling_forever() {
    let mut ts = states_over("F");
    assert!(ts.next().is_some());
    for _ in 0..5 {
        assert!(ts.next().is_none());
        assert_eq!(ts.current_string_pos, 1);
    }
}
