use bruteforce::hashes::{HashKind, SearchError};
use bruteforce::search::{brute_force, search_first};

fn md5_hex_of(s: &str) -> String {
    format!("{:?}", md5::compute(s))
}

#[test]
fn md5_recovers_ab() {
    let target = md5_hex_of("ab");
    let r = brute_force(HashKind::Md5, &target, 2);
    assert_eq!(r, Ok(Some("ab".to_string())));
}

#[test]
fn md5_recovers_single_letter() {
    let target = md5_hex_of("q");
    let r = brute_force(HashKind::Md5, &target, 3);
    assert_eq!(r, Ok(Some("q".to_string())));
}

#[test]
fn md5_no_match_after_covering_all_702() {
    let target = md5_hex_of("abc");
    let r = brute_force(HashKind::Md5, &target, 2);
    assert_eq!(r, Ok(None));
}

#[test]
fn md5_garbage_target_is_just_no_match() {
    let target = "definitely not a hex digest".to_string();
    let r = brute_force(HashKind::Md5, &target, 1);
    assert_eq!(r, Ok(None));
}

#[test]
fn bcrypt_recovers_ab() {
    let hash = bcrypt::hash("ab", 4).unwrap();
    let r = brute_force(HashKind::Bcrypt, &hash, 2);
    assert_eq!(r, Ok(Some("ab".to_string())));
}

#[test]
fn bcrypt_no_match() {
    let hash = bcrypt::hash("abc", 4).unwrap();
    let r = brute_force(HashKind::Bcrypt, &hash, 1);
    assert_eq!(r, Ok(None));
}

#[test]
fn bcrypt_malformed_envelope_is_fatal() {
    let target = "not-a-valid-envelope".to_string();
    let r = brute_force(HashKind::Bcrypt, &target, 4);
    assert_eq!(r, Err(SearchError::MalformedTargetHash));
}

#[test]
fn bcrypt_malformed_envelope_beats_possible_match() {
    // A malformed target is reported as such, never as a silent miss.
    let target = "$9z$xx$garbage".to_string();
    let r = brute_force(HashKind::Bcrypt, &target, 1);
    assert_eq!(r, Err(SearchError::MalformedTargetHash));
}

#[test]
fn earliest_match_wins_under_concurrency() {
    // A predicate that accepts both "b" and "ba" must always yield "b",
    // the earlier candidate in generation order, whatever the scheduling.
    for _ in 0..100 {
        let f = |c: String| c == "b" || c == "ba";
        let r = search_first(2, &f);
        assert_eq!(r, Some("b".to_string()));
    }
}

#[test]
fn search_exhaustion_returns_none() {
    let f = |c: String| c.len() > 2;
    let r = search_first(2, &f);
    assert_eq!(r, None);
}
