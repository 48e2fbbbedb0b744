use wikicorpus::cache::{cache_get, cache_insert, cache_new, load_cache, save_cache, LabelCache};
use wikicorpus::csv_writer_pool::CsvWriterPool;
use wikicorpus::entity::{Claim, Entity, LangList, LangText, StatementValue};
use wikicorpus::extract::{
    build_prefill_cache, clean_line, prefill_entry, process_record, ExtractionContext,
};
use wikicorpus::templates::TemplateStore;

fn store() -> TemplateStore {
    TemplateStore::load(
        "key;value;sentence;question\n\
         descriptions;description;{} is {}.;What is {}?\n\
         person_descriptions;description;{} was {}.;Who was {}?\n\
         aliases;alias;{} is also known as {}.;Name another name for {}.\n\
         person_aliases;alias;{} was also known as {}.;Name another name for {}.\n\
         P19;place of birth;{} was born in {}.;Where was {} born?\n\
         P569;date of birth;{} was born on {}.;When was {} born?\n\
         list;and;and;\n",
    )
    .unwrap()
}

fn ctx() -> ExtractionContext {
    ExtractionContext {
        lang: "en".to_string(),
        and_symbol: "and".to_string(),
        date_format: "%Y-%m-%d".to_string(),
        missing_date: "missing date".to_string(),
        date_property_keys: vec!["P569".to_string(), "P570".to_string()],
    }
}

fn lt(lang: &str, text: &str) -> LangText {
    LangText { lang: lang.to_string(), text: text.to_string() }
}

fn base_entity() -> Entity {
    Entity {
        id: "Q42".to_string(),
        claims: Some(Vec::new()),
        labels: Some(vec![lt("en", "Douglas Adams")]),
        descriptions: Some(vec![lt("en", "English writer")]),
        aliases: Some(Vec::new()),
        sitelink_count: Some(3),
    }
}

fn resolver() -> LabelCache {
    let mut m = cache_new();
    cache_insert(&mut m, 5, "human".to_string());
    cache_insert(&mut m, 515, "city".to_string());
    cache_insert(&mut m, 84, "London".to_string());
    m
}

#[test]
fn a_valid_record_yields_exactly_one_row_in_one_category() {
    let mut e = base_entity();
    e.claims = Some(vec![
        Claim {
            key: "P31".to_string(),
            statements: vec![StatementValue::EntityRef { numeric_id: 5 }],
        },
        Claim {
            key: "P19".to_string(),
            statements: vec![StatementValue::EntityRef { numeric_id: 84 }],
        },
    ]);
    let row = process_record(Some(&e), &store(), &resolver(), &ctx()).unwrap();
    assert_eq!(row.category, "human");
    assert_eq!(row.label, "Douglas Adams");
    assert_eq!(
        row.sentences,
        "Douglas Adams was english writer.\nDouglas Adams was born in London."
    );
    assert_eq!(
        row.questions,
        "Who was Douglas Adams? [english writer]\nWhere was Douglas Adams born? [London]"
    );
}

#[test]
fn non_notable_humans_produce_no_row() {
    let mut e = base_entity();
    e.claims = Some(vec![Claim {
        key: "P31".to_string(),
        statements: vec![StatementValue::EntityRef { numeric_id: 5 }],
    }]);
    e.sitelink_count = None;
    assert!(process_record(Some(&e), &store(), &resolver(), &ctx()).is_none());
    e.sitelink_count = Some(0);
    assert!(process_record(Some(&e), &store(), &resolver(), &ctx()).is_none());
    // A fictional human with no reference pages is dropped the same way.
    e.claims = Some(vec![Claim {
        key: "P31".to_string(),
        statements: vec![StatementValue::EntityRef { numeric_id: 15632617 }],
    }]);
    assert!(process_record(Some(&e), &store(), &resolver(), &ctx()).is_none());
}

#[test]
fn a_record_that_did_not_parse_contributes_nothing() {
    assert!(process_record(None, &store(), &resolver(), &ctx()).is_none());
}

#[test]
fn a_record_without_the_configured_language_label_contributes_nothing() {
    let mut e = base_entity();
    e.labels = Some(vec![lt("de", "Douglas Adams")]);
    assert!(process_record(Some(&e), &store(), &resolver(), &ctx()).is_none());
}

#[test]
fn unresolved_first_instance_falls_back_to_the_sentinel_category() {
    let mut e = base_entity();
    e.claims = Some(vec![Claim {
        key: "P31".to_string(),
        statements: vec![StatementValue::EntityRef { numeric_id: 999999 }],
    }]);
    let row = process_record(Some(&e), &store(), &resolver(), &ctx()).unwrap();
    assert_eq!(row.category, "misc");
}

#[test]
fn absent_flagged_date_degrades_to_the_marker() {
    let mut e = base_entity();
    e.descriptions = Some(Vec::new());
    e.claims = Some(vec![Claim { key: "P569".to_string(), statements: Vec::new() }]);
    let row = process_record(Some(&e), &store(), &resolver(), &ctx()).unwrap();
    assert_eq!(row.sentences, "Douglas Adams was born on missing date.");
}

#[test]
fn unparsable_time_statement_degrades_to_the_marker() {
    let mut e = base_entity();
    e.descriptions = Some(Vec::new());
    e.claims = Some(vec![Claim {
        key: "P569".to_string(),
        statements: vec![StatementValue::Time { time: "+1952-00-00T00:00:00Z".to_string() }],
    }]);
    let row = process_record(Some(&e), &store(), &resolver(), &ctx()).unwrap();
    assert_eq!(row.sentences, "Douglas Adams was born on missing date.");
}

#[test]
fn aliases_filter_out_the_label_and_join_with_the_conjunction() {
    let mut e = base_entity();
    e.descriptions = Some(Vec::new());
    e.aliases = Some(vec![LangList {
        lang: "en".to_string(),
        texts: vec![
            "Douglas Adams".to_string(),
            "DNA".to_string(),
            "Douglas Noel Adams".to_string(),
        ],
    }]);
    let row = process_record(Some(&e), &store(), &resolver(), &ctx()).unwrap();
    assert_eq!(row.sentences, "Douglas Adams is also known as DNA and Douglas Noel Adams.");
}

#[test]
fn media_and_unknown_statements_are_dropped() {
    let mut e = base_entity();
    e.descriptions = Some(Vec::new());
    e.claims = Some(vec![
        Claim {
            key: "P19".to_string(),
            statements: vec![StatementValue::Media { name: "photo.jpg".to_string() }],
        },
        Claim { key: "P20".to_string(), statements: vec![StatementValue::Unknown] },
    ]);
    assert!(process_record(Some(&e), &store(), &resolver(), &ctx()).is_none());
}

#[test]
fn quantity_units_resolve_through_the_cache() {
    let mut e = base_entity();
    e.descriptions = Some(Vec::new());
    let mut m = resolver();
    cache_insert(&mut m, 11573, "metre".to_string());
    e.claims = Some(vec![Claim {
        key: "P19".to_string(),
        statements: vec![StatementValue::Quantity {
            amount: "+30".to_string(),
            unit: "http://www.wikidata.org/entity/Q11573".to_string(),
        }],
    }]);
    let row = process_record(Some(&e), &store(), &m, &ctx()).unwrap();
    assert_eq!(row.sentences, "Douglas Adams was born in +30 metre.");
    // An unresolvable entity-reference unit keeps its raw text.
    e.claims = Some(vec![Claim {
        key: "P19".to_string(),
        statements: vec![StatementValue::Quantity {
            amount: "+2".to_string(),
            unit: "http://www.wikidata.org/entity/Q999999".to_string(),
        }],
    }]);
    let row = process_record(Some(&e), &store(), &m, &ctx()).unwrap();
    assert_eq!(
        row.sentences,
        "Douglas Adams was born in +2 http://www.wikidata.org/entity/Q999999."
    );
    // A dimensionless quantity renders its amount alone.
    e.claims = Some(vec![Claim {
        key: "P19".to_string(),
        statements: vec![StatementValue::Quantity {
            amount: "42".to_string(),
            unit: "1".to_string(),
        }],
    }]);
    let row = process_record(Some(&e), &store(), &m, &ctx()).unwrap();
    assert_eq!(row.sentences, "Douglas Adams was born in 42.");
}

#[test]
fn only_the_first_statement_of_a_claim_is_consulted() {
    let mut e = base_entity();
    e.descriptions = Some(Vec::new());
    e.claims = Some(vec![Claim {
        key: "P19".to_string(),
        statements: vec![
            StatementValue::EntityRef { numeric_id: 84 },
            StatementValue::EntityRef { numeric_id: 515 },
        ],
    }]);
    let row = process_record(Some(&e), &store(), &resolver(), &ctx()).unwrap();
    assert_eq!(row.sentences, "Douglas Adams was born in London.");
}

#[test]
fn line_cleaning_skips_structure_and_strips_commas() {
    assert_eq!(clean_line("   "), None);
    assert_eq!(clean_line(""), None);
    assert_eq!(clean_line("["), None);
    assert_eq!(clean_line("]"), None);
    assert_eq!(clean_line("{\"id\":\"Q1\"},"), Some("{\"id\":\"Q1\"}".to_string()));
    assert_eq!(clean_line("{},,,"), Some("{}".to_string()));
}

#[test]
fn the_prepass_takes_identifier_and_label() {
    let e = base_entity();
    assert_eq!(prefill_entry(&e, "en"), Some((42, "Douglas Adams".to_string())));
    assert_eq!(prefill_entry(&e, "de"), None);
    let mut bad = base_entity();
    bad.id = "P42".to_string();
    assert_eq!(prefill_entry(&bad, "en"), None);
}

#[test]
fn a_malformed_line_amid_good_ones_leaves_the_rest_intact() {
    // The scanner hands each cleaned line to the JSON reader; a line that
    // does not parse reaches the orchestrator as no record at all.
    let lines = ["{\"id\": \"Q1\"}", "{oops", "{\"id\": \"Q2\"}"];
    let parsed: Vec<bool> = lines
        .iter()
        .map(|l| serde_json::from_str::<serde_json::Value>(l).is_ok())
        .collect();
    assert_eq!(parsed, vec![true, false, true]);

    let mut city = base_entity();
    city.labels = Some(vec![lt("en", "Berlin")]);
    city.claims = Some(vec![Claim {
        key: "P31".to_string(),
        statements: vec![StatementValue::EntityRef { numeric_id: 515 }],
    }]);
    let mut writer = base_entity();
    writer.claims = Some(vec![Claim {
        key: "P31".to_string(),
        statements: vec![StatementValue::EntityRef { numeric_id: 5 }],
    }]);

    let records = [Some(&city), None, Some(&writer)];
    let mut pool = CsvWriterPool::new("out/en");
    let mut rows = 0;
    for record in records {
        if let Some(row) = process_record(record, &store(), &resolver(), &ctx()) {
            pool.write(&row.category, &(row.label, row.sentences, row.questions));
            rows += 1;
        }
    }
    assert_eq!(rows, 2);
    let files = pool.flush_all();
    assert_eq!(files.len(), 2);
    assert_eq!(files[0].0, "out/en/city.csv");
    assert!(files[0].1.starts_with("label;sentences;questions\nBerlin;"));
    assert_eq!(files[1].0, "out/en/human.csv");
    assert!(files[1].1.contains("Douglas Adams"));
}

fn labelled(id: &str, label: &str) -> Entity {
    Entity {
        id: id.to_string(),
        claims: None,
        labels: Some(vec![lt("en", label)]),
        descriptions: None,
        aliases: None,
        sitelink_count: None,
    }
}

fn prepass_scan() -> Vec<Option<Entity>> {
    vec![
        Some(labelled("Q5", "human")),
        None,
        Some(labelled("Q84", "London")),
        Some(labelled("P6", "head of government")),
        Some(labelled("Q5", "human being")),
    ]
}

#[test]
fn running_the_prepass_twice_builds_and_persists_one_mapping() {
    let m1 = build_prefill_cache(&prepass_scan(), "en");
    let m2 = build_prefill_cache(&prepass_scan(), "en");
    assert_eq!(cache_get(&m1, 5), Some("human being".to_string()));
    assert_eq!(cache_get(&m1, 84), Some("London".to_string()));
    assert_eq!(cache_get(&m1, 6), None);
    let back1 = load_cache(&save_cache(&m1)).unwrap();
    let back2 = load_cache(&save_cache(&m2)).unwrap();
    for id in [5u32, 84, 6, 7] {
        assert_eq!(cache_get(&back1, id), cache_get(&back2, id));
        assert_eq!(cache_get(&back1, id), cache_get(&m1, id));
    }
}
