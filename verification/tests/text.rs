use wikicorpus::utils::{
    adjust_article, join_lines, lowercase_all, lowercase_first, replace_all_exec,
    replace_first_exec, split_str, str_chars, str_eq, u64_to_string, vec_to_and_string,
};

#[test]
fn conjunction_join_empty_list_is_empty() {
    let items: Vec<String> = Vec::new();
    assert_eq!(vec_to_and_string(&items, "and"), "");
}

#[test]
fn conjunction_join_single_item_unchanged() {
    let items = vec!["red".to_string()];
    assert_eq!(vec_to_and_string(&items, "and"), "red");
}

#[test]
fn conjunction_join_three_items() {
    let items = vec!["red".to_string(), "blue".to_string(), "green".to_string()];
    assert_eq!(vec_to_and_string(&items, "and"), "red, blue and green");
}

#[test]
fn conjunction_join_two_items_localized() {
    let items = vec!["rood".to_string(), "blauw".to_string()];
    assert_eq!(vec_to_and_string(&items, "en"), "rood en blauw");
}

#[test]
fn article_adjusted_before_vowel() {
    assert_eq!(adjust_article("He owns a {}.", "apple"), "He owns an {}.");
}

#[test]
fn article_unchanged_before_consonant() {
    assert_eq!(adjust_article("He owns a {}.", "bike"), "He owns a {}.");
}

#[test]
fn article_unchanged_for_other_template_shape() {
    assert_eq!(adjust_article("Fully plural {} here", "apple"), "Fully plural {} here");
}

#[test]
fn lowercase_first_folds_only_the_first_character() {
    assert_eq!(lowercase_first("Hello World"), "hello World");
    assert_eq!(lowercase_first(""), "");
}

#[test]
fn lowercase_all_folds_every_character() {
    assert_eq!(lowercase_all("AbC1ß"), "abc1ß");
}

#[test]
fn decimal_rendering_exact() {
    assert_eq!(u64_to_string(0), "0");
    assert_eq!(u64_to_string(120394), "120394");
}

#[test]
fn placeholder_replacement_first_and_all() {
    assert_eq!(replace_first_exec("{} was born in {}.", "Ada"), "Ada was born in {}.");
    assert_eq!(replace_all_exec("{} and {}", "x"), "x and x");
    assert_eq!(replace_first_exec("no marker", "x"), "no marker");
}

#[test]
fn split_and_join_helpers() {
    let parts = split_str("a;b;;c", ';');
    assert_eq!(parts, vec!["a", "b", "", "c"]);
    let lines = vec!["one".to_string(), "two".to_string()];
    assert_eq!(join_lines(&lines), "one\ntwo");
    assert_eq!(join_lines(&Vec::new()), "");
}

#[test]
fn character_level_equality() {
    assert!(str_eq("über", "über"));
    assert!(!str_eq("über", "uber"));
    assert_eq!(str_chars("ab").len(), 2);
}
