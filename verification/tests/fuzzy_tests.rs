use zttl::fuzzy::fuzzy_score;
use zttl::keys::KeyIndex;

fn chars(s: &str) -> Vec<char> {
    s.chars().collect()
}

fn score(candidate: &str, target: &str) -> i32 {
    let tl = target.to_lowercase();
    let tn: String = tl.chars().filter(|c| !matches!(c, '-' | '_' | ' ')).collect();
    fuzzy_score(&chars(candidate), &chars(&tl), &chars(&tn))
}

#[test]
fn scores_follow_the_kind_of_match() {
    assert_eq!(score("Algorithms", "algorithms"), 100);
    assert_eq!(score("Distributed Systems", "distributed-systems"), 90);
    assert_eq!(score("Algorithms", "algo"), 60);
    assert_eq!(score("Al", "algo"), 60);
    assert_eq!(score("Algorithms", "rithm"), 40);
    assert_eq!(score("rithm", "Algorithms"), 40);
    assert_eq!(score("Raft", "paxos"), 0);
}

#[test]
fn case_folding_is_unicode_aware() {
    assert_eq!(score("ÉCOLE", "école"), 100);
}

#[test]
fn key_index_keeps_the_last_value_per_key() {
    let mut k: KeyIndex<usize> = KeyIndex::new();
    k.insert(chars("a"), 1);
    k.insert(chars("b"), 2);
    k.insert(chars("a"), 3);
    assert_eq!(k.len(), 2);
    assert_eq!(k.get(&chars("a")), Some(&3));
    assert_eq!(k.get(&chars("b")), Some(&2));
    assert_eq!(k.get(&chars("c")), None);
    assert!(k.contains_key("b"));
    assert!(!k.contains_key("c"));
}
