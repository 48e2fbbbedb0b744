use wikicorpus::entity_resolver::{base_id_of, is_q_id_exec, select_label, EntityCache, EntityResolver};

fn pairs(items: &[(&str, &str)]) -> Vec<(String, String)> {
    items.iter().map(|(k, v)| (k.to_string(), v.to_string())).collect()
}

#[test]
fn languages_fall_back_to_english() {
    let r = EntityResolver::new("c.csv".to_string(), "http://api".to_string(), "de", None);
    assert_eq!(r.language, "de");
    assert_eq!(r.languages, "de,en");
    let r = EntityResolver::new("c.csv".to_string(), "http://api".to_string(), "en", None);
    assert_eq!(r.languages, "en");
}

#[test]
fn persisted_content_seeds_the_cache() {
    let r = EntityResolver::new(
        "c.csv".to_string(),
        "http://api".to_string(),
        "en",
        Some("Q42,Douglas Adams\nQ5,human\n"),
    );
    assert_eq!(r.get_cached_label("Q42"), Some("Douglas Adams".to_string()));
    assert_eq!(r.get_cached_label("Q5"), Some("human".to_string()));
    assert_eq!(r.get_cached_label("Q7"), None);
}

#[test]
fn unresolved_entity_shaped_ids_are_collected_once() {
    let mut r = EntityResolver::new("c.csv".to_string(), "u".to_string(), "en", None);
    let _ = r.batch_update_cache(&pairs(&[("Q1", "one")]));
    let props = pairs(&[
        ("P1", "Q42$deadbeef"),
        ("P2", "Q42"),
        ("P3", "plain text"),
        ("P4", "Q1"),
        ("P5", "Qx9"),
    ]);
    let ids = r.ids_needing_resolution(&props);
    assert_eq!(ids, vec!["Q42".to_string()]);
}

#[test]
fn applying_the_cache_replaces_drops_and_keeps() {
    let mut r = EntityResolver::new("c.csv".to_string(), "u".to_string(), "en", None);
    let _ = r.batch_update_cache(&pairs(&[("Q42", "Douglas Adams"), ("Q7", "")]));
    let props = pairs(&[
        ("P1", "Q42$suffix"),
        ("P2", "Q7"),
        ("P3", "Q99"),
        ("P4", "free text"),
    ]);
    let resolved = r.resolve_entity_ids(&props);
    assert_eq!(
        resolved,
        pairs(&[("P1", "Douglas Adams"), ("P3", "Q99"), ("P4", "free text")])
    );
}

#[test]
fn the_hundredth_update_asks_for_persistence() {
    let mut r = EntityResolver::new("c.csv".to_string(), "u".to_string(), "en", None);
    for i in 0..99 {
        let batch = pairs(&[("Q1", "one")]);
        assert!(!r.batch_update_cache(&batch), "update {} should not persist", i);
    }
    assert!(r.batch_update_cache(&pairs(&[("Q1", "one")])));
    assert!(!r.batch_update_cache(&pairs(&[("Q1", "one")])));
}

#[test]
fn the_resolver_cache_round_trips_through_its_file_form() {
    let mut c = EntityCache::new();
    c.insert("Q42".to_string(), "Douglas Adams, writer".to_string());
    c.insert("Q5".to_string(), "human".to_string());
    c.insert("Q42".to_string(), "Douglas Adams".to_string());
    let content = c.save_to_csv();
    let back = EntityCache::load_from_csv(&content);
    assert_eq!(back.get("Q42"), Some("Douglas Adams".to_string()));
    assert_eq!(back.get("Q5"), Some("human".to_string()));
    assert_eq!(back.get("Q1"), None);
}

#[test]
fn unreadable_persisted_content_yields_an_empty_cache() {
    let back = EntityCache::load_from_csv("\"broken");
    assert_eq!(back.get("Q1"), None);
    assert!(back.entries.is_empty());
}

#[test]
fn base_ids_and_entity_shape() {
    assert_eq!(base_id_of("Q42$deadbeef"), "Q42");
    assert_eq!(base_id_of("Q42"), "Q42");
    assert_eq!(base_id_of("$x"), "");
    assert!(is_q_id_exec("Q42"));
    assert!(!is_q_id_exec("Q"));
    assert!(!is_q_id_exec("P42"));
    assert!(!is_q_id_exec("Q4x2"));
}

#[test]
fn fetched_labels_prefer_the_configured_language() {
    assert_eq!(
        select_label(Some("Stadt".to_string()), Some("city".to_string())),
        "Stadt"
    );
    assert_eq!(select_label(None, Some("city".to_string())), "city");
    assert_eq!(select_label(None, None), "");
}
