use bruteforce::generator::CandidateGenerator;

use std::collections::HashSet;

fn collect_all(max_length: u8) -> Vec<String> {
    let mut gen = CandidateGenerator::new(max_length);
    let mut out = Vec::new();
    while let Some(c) = gen.next() {
        out.push(c);
    }
    out
}

#[test]
fn first_emissions_in_order() {
    let all = collect_all(2);
    assert_eq!(all[0], "a");
    assert_eq!(all[1], "b");
    assert_eq!(all[2], "c");
    assert_eq!(all[25], "z");
    assert_eq!(all[26], "aa");
    assert_eq!(all[27], "ab");
}

#[test]
fn covers_the_whole_space_exactly_once() {
    let all = collect_all(2);
    assert_eq!(all.len(), 26 + 26 * 26);
    let distinct: HashSet<&String> = all.iter().collect();
    assert_eq!(distinct.len(), all.len());
    for c in &all {
        assert!(1 <= c.len() && c.len() <= 2);
        assert!(c.bytes().all(|b| b.is_ascii_lowercase()));
    }
}

#[test]
fn length_never_decreases_and_lex_increases_within_length() {
    let all = collect_all(3);
    assert_eq!(all.len(), 26 + 676 + 17576);
    for pair in all.windows(2) {
        assert!(pair[0].len() <= pair[1].len());
        if pair[0].len() == pair[1].len() {
            assert!(pair[0] < pair[1]);
        }
    }
}

#[test]
fn single_letter_bound() {
    let all = collect_all(1);
    assert_eq!(all.len(), 26);
    assert_eq!(all[0], "a");
    assert_eq!(all[25], "z");
}

#[test]
fn exhaustion_is_terminal() {
    let mut gen = CandidateGenerator::new(2);
    let mut last = None;
    while let Some(c) = gen.next() {
        last = Some(c);
    }
    assert_eq!(last.as_deref(), Some("zz"));
    assert_eq!(gen.next(), None);
    assert_eq!(gen.next(), None);
    assert_eq!(gen.next(), None);
}

#[test]
fn zero_bound_emits_nothing() {
    let mut gen = CandidateGenerator::new(0);
    assert_eq!(gen.next(), None);
    assert_eq!(gen.next(), None);
}
