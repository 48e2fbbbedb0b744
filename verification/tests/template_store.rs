use wikicorpus::templates::{generate_text, TemplateStore};

#[test]
fn loading_skips_the_header_and_keeps_row_order() {
    let st = TemplateStore::load(
        "key;value;sentence;question\nP19;place of birth;{} was born in {}.;Where was {} born?\n",
    )
    .unwrap();
    let row = st.get("P19").unwrap();
    assert_eq!(row.0, "place of birth");
    assert_eq!(row.1, "{} was born in {}.");
    assert_eq!(row.2, "Where was {} born?");
    assert!(st.get("P20").is_none());
}

#[test]
fn a_row_without_four_columns_is_fatal() {
    assert!(TemplateStore::load("key;value;sentence;question\nP19;only;three\n").is_err());
    assert!(TemplateStore::load("key;value;sentence;question\nP19;has;five;cols;extra\n").is_err());
}

#[test]
fn windows_line_endings_are_tolerated() {
    let content = "key;value;sentence;question\r\nP1;v;s;q\r\n";
    let st = TemplateStore::load(content).unwrap();
    let row = st.get("P1").unwrap();
    assert_eq!(row.2, "q");
}

#[test]
fn blank_lines_are_skipped() {
    let st = TemplateStore::load("key;value;sentence;question\n\nP1;v;s;q\n\n").unwrap();
    assert!(st.get("P1").is_some());
}

#[test]
fn configured_words_with_defaults() {
    let st = TemplateStore::load(
        "key;value;sentence;question\nlist;list;und;\ndate_format;fmt;%d.%m.%Y;\nmissing_date;md;datum fehlt;\n",
    )
    .unwrap();
    assert_eq!(st.and_symbol(), "und");
    assert_eq!(st.date_format(), "%d.%m.%Y");
    assert_eq!(st.missing_date(), "datum fehlt");
    let bare = TemplateStore::load("key;value;sentence;question\n").unwrap();
    assert_eq!(bare.and_symbol(), "and");
    assert_eq!(bare.date_format(), "%Y-%m-%d");
    assert_eq!(bare.missing_date(), "missing date");
}

#[test]
fn generation_substitutes_subject_then_value() {
    let st = TemplateStore::load(
        "key;value;sentence;question\nP19;place of birth;{} was born in {}.;Where was {} born?\n",
    )
    .unwrap();
    let mut sentences = Vec::new();
    let mut questions = Vec::new();
    let values = vec!["London".to_string()];
    generate_text(&st, &mut sentences, &mut questions, "and", "P19", "Ada", &values);
    assert_eq!(sentences, vec!["Ada was born in London.".to_string()]);
    assert_eq!(questions, vec!["Where was Ada born? [London]".to_string()]);
}

#[test]
fn generation_adjusts_the_article_for_vowels() {
    let st = TemplateStore::load(
        "key;value;sentence;question\nP279;kind;{} is a {}.;What is {}?\n",
    )
    .unwrap();
    let mut sentences = Vec::new();
    let mut questions = Vec::new();
    let values = vec!["animal".to_string()];
    generate_text(&st, &mut sentences, &mut questions, "and", "P279", "The cat", &values);
    assert_eq!(sentences, vec!["The cat is an animal.".to_string()]);
}

#[test]
fn empty_values_and_unknown_keys_generate_nothing() {
    let st = TemplateStore::load(
        "key;value;sentence;question\nP19;place of birth;{} was born in {}.;Where was {} born?\n",
    )
    .unwrap();
    let mut sentences = Vec::new();
    let mut questions = Vec::new();
    let empty: Vec<String> = Vec::new();
    generate_text(&st, &mut sentences, &mut questions, "and", "P19", "Ada", &empty);
    let values = vec!["London".to_string()];
    generate_text(&st, &mut sentences, &mut questions, "and", "P99", "Ada", &values);
    assert!(sentences.is_empty());
    assert!(questions.is_empty());
}

#[test]
fn an_empty_question_template_emits_no_question() {
    let st = TemplateStore::load("key;value;sentence;question\nP19;pob;{} was born in {}.;\n")
        .unwrap();
    let mut sentences = Vec::new();
    let mut questions = Vec::new();
    let values = vec!["London".to_string()];
    generate_text(&st, &mut sentences, &mut questions, "and", "P19", "Ada", &values);
    assert_eq!(sentences.len(), 1);
    assert!(questions.is_empty());
}

#[test]
fn multiple_values_join_with_the_conjunction() {
    let st = TemplateStore::load(
        "key;value;sentence;question\naliases;alias;{} is also called {}.;Name {}.\n",
    )
    .unwrap();
    let mut sentences = Vec::new();
    let mut questions = Vec::new();
    let values = vec!["A".to_string(), "B".to_string(), "C".to_string()];
    generate_text(&st, &mut sentences, &mut questions, "und", "aliases", "X", &values);
    assert_eq!(sentences, vec!["X is also called A, B und C.".to_string()]);
}
