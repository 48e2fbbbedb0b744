use wikicorpus::codec::{parse_kv_file, render_kv_file};
use wikicorpus::processing_error::ProcessingError;

fn tricky_pairs() -> Vec<(String, String)> {
    vec![
        ("Q5".to_string(), "human".to_string()),
        ("Q6".to_string(), "with,comma".to_string()),
        ("Q7".to_string(), "with \"quote\"".to_string()),
        ("Q8".to_string(), "multi\nline".to_string()),
        ("Q9".to_string(), "".to_string()),
    ]
}

#[test]
fn kv_file_round_trip_preserves_every_field() {
    let pairs = tricky_pairs();
    let content = render_kv_file(&pairs, ',');
    let back = parse_kv_file(&content, ',').unwrap();
    assert_eq!(back, pairs);
}

#[test]
fn kv_rendering_matches_the_csv_crate() {
    let pairs = tricky_pairs();
    let mine = render_kv_file(&pairs, ',');
    let mut wtr = csv::WriterBuilder::new()
        .has_headers(false)
        .from_writer(Vec::new());
    for (k, v) in &pairs {
        wtr.write_record(&[k.as_str(), v.as_str()]).unwrap();
    }
    let theirs = String::from_utf8(wtr.into_inner().unwrap()).unwrap();
    assert_eq!(mine, theirs);
}

#[test]
fn unterminated_quote_is_a_fatal_parse_error() {
    let r = parse_kv_file("\"unterminated", ',');
    match r {
        Err(e) => {
            let msg = e.message();
            assert!(msg.starts_with("CSV Error: "));
        },
        Ok(_) => panic!("malformed file accepted"),
    }
}

#[test]
fn record_with_one_column_is_a_fatal_parse_error() {
    assert!(parse_kv_file("justonefield\n", ',').is_err());
}

#[test]
fn error_messages_name_their_kind() {
    assert_eq!(
        ProcessingError::IoError("gone".to_string()).message(),
        "IO Error: gone"
    );
    assert_eq!(
        ProcessingError::JsonError("bad".to_string()).message(),
        "JSON Error: bad"
    );
    assert_eq!(
        ProcessingError::CsvError("short".to_string()).message(),
        "CSV Error: short"
    );
}
