use consciousness_sim::environment::status_names;

fn owned(list: &[&str]) -> Vec<String> {
    list.iter().map(|s| s.to_string()).collect()
}

#[test]
fn status_names_dedupe_and_limit() {
    let names = owned(&["threat", "reward", "threat", "loss", "novelty", "reward"]);
    assert_eq!(status_names(&names), owned(&["threat", "reward", "loss"]));
}

#[test]
fn status_names_fewer_than_three() {
    let names = owned(&["nostalgia", "nostalgia", "user_input"]);
    assert_eq!(status_names(&names), owned(&["nostalgia", "user_input"]));
    assert!(status_names(&Vec::new()).is_empty());
}
