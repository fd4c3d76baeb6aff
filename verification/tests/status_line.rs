use consciousness_sim::status_line::parse_status_line;

fn parse(line: &str) -> (Vec<String>, Vec<String>) {
    let chars: Vec<char> = line.chars().collect();
    let (names, texts) = parse_status_line(&chars);
    (
        names.iter().map(|n| n.iter().collect()).collect(),
        texts.iter().map(|t| t.iter().collect()).collect(),
    )
}

#[test]
fn status_line_names_and_valence() {
    let (names, texts) = parse("threat, reward | valence=+0.12");
    assert_eq!(names, vec!["threat".to_string(), "reward".to_string()]);
    assert_eq!(texts, vec!["+0.12".to_string(), "+0.12".to_string()]);
}

#[test]
fn status_line_valence_only() {
    let (names, texts) = parse("valence=-0.30");
    assert!(names.is_empty());
    assert_eq!(texts, vec!["-0.30".to_string(), "-0.30".to_string()]);
}

#[test]
fn status_line_trims_and_drops_empty_names() {
    let (names, texts) = parse("  loss ,, \u{a0}novelty\t | valence=+0.05 | valence=x");
    assert_eq!(names, vec!["loss".to_string(), "novelty".to_string()]);
    assert_eq!(texts, vec!["+0.05".to_string(), "".to_string(), "+0.05".to_string()]);
}

#[test]
fn status_line_empty() {
    let (names, texts) = parse("");
    assert!(names.is_empty());
    assert!(texts.is_empty());
}

#[test]
fn status_line_without_valence() {
    let (names, texts) = parse("mind_wandering, valence=1");
    assert_eq!(names, vec!["mind_wandering".to_string()]);
    assert!(texts.is_empty());
}
