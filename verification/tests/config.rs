use consciousness_sim::config::{
    aspect_indices, aspect_position, build_categories, build_category_colors, cluster_membership,
    name_flags, resolve_name_pairs, resolve_names,
};

fn names(list: &[&str]) -> Vec<String> {
    list.iter().map(|s| s.to_string()).collect()
}

#[test]
fn aspect_position_finds_first_occurrence() {
    let aspects = names(&["agency", "motivation", "agency", "self-esteem"]);
    assert_eq!(aspect_position(&aspects, "agency"), Some(0));
    assert_eq!(aspect_position(&aspects, "motivation"), Some(1));
    assert_eq!(aspect_position(&aspects, "self-esteem"), Some(3));
    assert_eq!(aspect_position(&aspects, "wisdom"), None);
    assert_eq!(aspect_position(&[], "agency"), None);
}

#[test]
fn aspect_indices_skip_unknown_names() {
    let aspects = names(&["introspection", "reflection", "agency", "motivation"]);
    let got = aspect_indices(&aspects, &["motivation", "curiosity", "introspection", "agency"]);
    assert_eq!(got, vec![3, 0, 2]);
    assert!(aspect_indices(&aspects, &[]).is_empty());
}

#[test]
fn categories_resolve_members_in_table_order() {
    let aspects = names(&[
        "body_awareness", "emotional_awareness", "introspection", "reflection",
        "self-esteem", "self-concept",
    ]);
    let table: [(&str, &[&str]); 3] = [
        ("cognitive", &["introspection", "reflection", "metacognition"]),
        ("emotional", &["emotional_awareness", "self-esteem", "self-concept"]),
        ("social", &["theory_of_mind"]),
    ];
    let cats = build_categories(&table, &aspects);
    assert_eq!(cats.len(), 3);
    assert_eq!(cats[0], ("cognitive".to_string(), vec![2, 3]));
    assert_eq!(cats[1], ("emotional".to_string(), vec![1, 4, 5]));
    assert_eq!(cats[2], ("social".to_string(), vec![]));
}

#[test]
fn category_colors_table() {
    let colors = build_category_colors();
    let expected = [
        ("cognitive", "#4A90D9"),
        ("emotional", "#E8613C"),
        ("social", "#3CB371"),
        ("executive", "#9B59B6"),
        ("existential", "#DAA520"),
    ];
    assert_eq!(colors.len(), expected.len());
    for (got, want) in colors.iter().zip(expected.iter()) {
        assert_eq!(got.0, want.0);
        assert_eq!(got.1, want.1);
    }
}

#[test]
fn name_flags_mark_listed_aspects() {
    let aspects = names(&["agency", "wisdom", "body_awareness", "humor"]);
    let flags = name_flags(&aspects, &["self-regulation", "situational_awareness", "agency", "body_awareness"]);
    assert_eq!(flags, vec![true, false, true, false]);
}

#[test]
fn cluster_membership_inverts_clusters() {
    let clusters = vec![vec![0, 2], vec![2, 3], vec![], vec![3, 0, 2]];
    let membership = cluster_membership(&clusters, 5);
    assert_eq!(membership, vec![vec![0, 3], vec![], vec![0, 1, 3], vec![1, 3], vec![]]);
}

#[test]
fn resolve_names_keeps_positions() {
    let aspects = names(&["agency", "motivation", "self-esteem"]);
    let got = resolve_names(&aspects, &["self-esteem", "curiosity", "agency", "self-esteem"]);
    assert_eq!(got, vec![(0, 2), (2, 0), (3, 2)]);
}

#[test]
fn resolve_name_pairs_needs_both_ends() {
    let aspects = names(&["agency", "motivation", "self-esteem"]);
    let pairs = [
        ("agency", "motivation"),
        ("agency", "wisdom"),
        ("empathy", "agency"),
        ("self-esteem", "agency"),
    ];
    assert_eq!(resolve_name_pairs(&aspects, &pairs), vec![(0, 0, 1), (3, 2, 0)]);
}
