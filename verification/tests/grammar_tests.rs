use lsaver::grammar::{
    chance, contains_char, create_random_rule_strings, rand_angle, rand_lsystem,
    rand_lsystem_string, try_to_create_rule_map, LSystem,
};
use lsaver::{preset_angle, Parameters, FP, MAX_ANGLE, MIN_ANGLE};

fn chars(s: &str) -> Vec<char> {
    s.chars().collect()
}

#[test]
fn parameters_defaults() {
    let p = Parameters::new();
    assert_eq!(p.min_rules, 2);
    assert_eq!(p.max_rules, 5);
    assert_eq!(p.min_start_length, 1);
    assert_eq!(p.max_start_length, 5);
    assert_eq!(p.min_rule_length, 2);
    assert_eq!(p.max_rule_length, 10);
    assert_eq!(p.lsystem_max_length, 2000);
    assert_eq!(p.random_angle_chance, FP / 2);
    assert_eq!(p.distance_per_movement, 10 * FP);
    assert_eq!(p.line_width, 49152);
}

#[test]
fn rewriter_expands_until_length_bound() {
    let mut l = LSystem::new(chars("F"), vec![('F', chars("F+F"))], 102944);
    l.grow(10);
    // lengths per cycle: 1, 3, 7, 15; the last kept string is the one whose
    // expansion reached the bound
    assert_eq!(l.string, chars("F+F+F+F"));
    assert_eq!(l.seed, chars("F"));
}

#[test]
fn rewriter_growth_is_non_decreasing_across_cycles() {
    let mut l = LSystem::new(chars("F"), vec![('F', chars("AFB")), ('A', chars("AA"))], 1000);
    let mut prev = l.string.len();
    for _ in 0..6 {
        l.grow(prev + 1);
        assert!(l.string.len() >= prev);
        prev = l.string.len();
    }
}

#[test]
fn rewriter_stops_at_fixed_point() {
    let mut l = LSystem::new(chars("AB+"), Vec::new(), 102944);
    l.grow(1000);
    assert_eq!(l.string, chars("AB+"));
}

#[test]
fn rewriter_keeps_seed_already_at_bound() {
    let mut l = LSystem::new(chars("FFFF"), vec![('F', chars("FF"))], 102944);
    l.grow(3);
    assert_eq!(l.string, chars("FFFF"));
}

#[test]
fn chance_is_exact_at_the_ends() {
    let mut rng = rand::thread_rng();
    for _ in 0..50 {
        assert!(!chance(0, &mut rng));
        assert!(chance(FP, &mut rng));
    }
}

#[test]
fn rand_angle_stays_in_range() {
    let mut rng = rand::thread_rng();
    let params = Parameters::new();
    for _ in 0..100 {
        let a = rand_angle(&params, &mut rng);
        assert!(MIN_ANGLE <= a && a <= MAX_ANGLE);
    }
}

#[test]
fn preset_angles_are_in_range() {
    for i in 0..7 {
        let a = preset_angle(i);
        assert!(MIN_ANGLE <= a && a <= MAX_ANGLE);
    }
    assert_eq!(preset_angle(5), 102944);
}

#[test]
fn random_string_has_exact_length_and_alphabet() {
    let mut rng = rand::thread_rng();
    for len in 1..30 {
        let s = rand_lsystem_string(len, &mut rng);
        assert_eq!(s.len(), len);
        for c in &s {
            assert!(matches!(c, 'F' | '+' | '-' | 'A' | 'B' | '[' | ']'));
        }
    }
}

#[test]
fn random_string_brackets_nest_properly() {
    let mut rng = rand::thread_rng();
    for _ in 0..50 {
        let s = rand_lsystem_string(20, &mut rng);
        let mut depth: i64 = 0;
        for c in &s {
            if *c == '[' {
                depth += 1;
            } else if *c == ']' {
                depth -= 1;
            }
            assert!(depth >= 0);
        }
        assert_eq!(depth, 0);
    }
}

#[test]
fn rule_strings_always_hold_a_forward_move() {
    let mut rng = rand::thread_rng();
    let params = Parameters::new();
    for _ in 0..30 {
        let rs = create_random_rule_strings(3, &params, &mut rng);
        assert_eq!(rs.len(), 3);
        assert!(rs.iter().any(|b| contains_char(b, 'F')));
        for b in &rs {
            assert!(!b.is_empty());
        }
    }
}

#[test]
fn rule_map_single_rule_uses_observed_key() {
    let mut rng = rand::thread_rng();
    let start = chars("AB");
    let map = try_to_create_rule_map(&start, vec![chars("F+")], &mut rng)
        .expect("two candidate keys are available");
    assert_eq!(map.len(), 1);
    assert!(map[0].0 == 'A' || map[0].0 == 'B');
    assert_eq!(map[0].1, chars("F+"));
}

#[test]
fn rule_map_success_is_deterministic_in_the_inputs() {
    // pools are singletons at every step, so the whole assignment is
    // forced: 'A' hosts the newest body, whose 'F' then hosts the older
    let mut rng = rand::thread_rng();
    for _ in 0..20 {
        let start = chars("A");
        let map = try_to_create_rule_map(&start, vec![chars("B"), chars("F")], &mut rng)
            .expect("each step has exactly one candidate key");
        assert_eq!(map.len(), 2);
        assert_eq!(map[0], ('A', chars("F")));
        assert_eq!(map[1], ('F', chars("B")));
    }
}

#[test]
fn rule_map_failure_is_deterministic_in_the_inputs() {
    // the lone observed character hosts the first body; all-bracket
    // bodies add nothing, so the second body always finds an empty pool
    let mut rng = rand::thread_rng();
    for _ in 0..20 {
        let start = chars("A");
        assert!(try_to_create_rule_map(&start, vec![chars("[]"), chars("[]")], &mut rng)
            .is_none());
    }
}

#[test]
fn rule_map_fails_without_candidate_keys() {
    let mut rng = rand::thread_rng();
    // the start string offers only brackets, so no key can be assigned
    let start = chars("[]");
    assert!(try_to_create_rule_map(&start, vec![chars("FF")], &mut rng).is_none());
}

#[test]
fn generated_grammar_is_self_consistent() {
    let mut rng = rand::thread_rng();
    let params = Parameters::new();
    for _ in 0..10 {
        let l = rand_lsystem(&params, &mut rng);
        assert!(!l.seed.is_empty());
        assert!(MIN_ANGLE <= l.angle && l.angle <= MAX_ANGLE);
        // keys pairwise distinct, never brackets, and observed beforehand
        for (i, (key, body)) in l.rules.iter().enumerate() {
            assert!(*key != '[' && *key != ']');
            assert!(!body.is_empty());
            for (j, (other, _)) in l.rules.iter().enumerate() {
                if i != j {
                    assert!(key != other);
                }
            }
            let observed_in_seed = l.seed.contains(key);
            let observed_earlier = l.rules[..i].iter().any(|(_, b)| b.contains(key));
            assert!(observed_in_seed || observed_earlier);
        }
        // something, somewhere, draws
        let f_somewhere =
            l.seed.contains(&'F') || l.rules.iter().any(|(_, b)| b.contains(&'F'));
        assert!(f_somewhere);
    }
}
