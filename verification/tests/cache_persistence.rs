use wikicorpus::cache::{cache_get, cache_insert, cache_new, load_cache, parse_q_key, render_q_key, save_cache};

#[test]
fn persisting_and_reloading_keeps_every_entry() {
    let mut m = cache_new();
    cache_insert(&mut m, 5, "human".to_string());
    cache_insert(&mut m, 42, "Douglas Adams, writer".to_string());
    cache_insert(&mut m, 64, "Berlin \"capital\"".to_string());
    let content = save_cache(&m);
    let back = load_cache(&content).unwrap();
    assert_eq!(cache_get(&back, 5), Some("human".to_string()));
    assert_eq!(cache_get(&back, 42), Some("Douglas Adams, writer".to_string()));
    assert_eq!(cache_get(&back, 64), Some("Berlin \"capital\"".to_string()));
    assert_eq!(cache_get(&back, 7), None);
}

#[test]
fn rebuilding_in_another_order_means_the_same_file() {
    let mut m1 = cache_new();
    cache_insert(&mut m1, 1, "one".to_string());
    cache_insert(&mut m1, 2, "two".to_string());
    let mut m2 = cache_new();
    cache_insert(&mut m2, 2, "two".to_string());
    cache_insert(&mut m2, 1, "one".to_string());
    let back1 = load_cache(&save_cache(&m1)).unwrap();
    let back2 = load_cache(&save_cache(&m2)).unwrap();
    for id in [1u32, 2, 3] {
        assert_eq!(cache_get(&back1, id), cache_get(&back2, id));
    }
}

#[test]
fn later_entries_win() {
    let mut m = cache_new();
    cache_insert(&mut m, 9, "first".to_string());
    cache_insert(&mut m, 9, "second".to_string());
    assert_eq!(cache_get(&m, 9), Some("second".to_string()));
}

#[test]
fn malformed_keys_are_skipped_on_load() {
    let back = load_cache("Q5,human\nnotakey,ignored\nQ,alsoignored\nQ6,city\n").unwrap();
    assert_eq!(cache_get(&back, 5), Some("human".to_string()));
    assert_eq!(cache_get(&back, 6), Some("city".to_string()));
}

#[test]
fn q_keys_render_and_read_back() {
    assert_eq!(render_q_key(42), "Q42");
    assert_eq!(parse_q_key("Q42"), Some(42));
    assert_eq!(parse_q_key("42"), None);
    assert_eq!(parse_q_key("Q"), None);
    assert_eq!(parse_q_key("Q12x"), None);
    assert_eq!(parse_q_key("Q99999999999"), None);
}
