use wikicorpus::batched_writer::BatchedWriter;
use wikicorpus::csv_writer_pool::{sanitize_filename, CsvWriterPool};

#[test]
fn filenames_are_sanitized() {
    assert_eq!(sanitize_filename("Human Settlement"), "human_settlement");
    assert_eq!(sanitize_filename("--Ab1--"), "ab1");
    assert_eq!(sanitize_filename("Großstadt (Deutschland)"), "gro_stadt_deutschland");
    assert_eq!(sanitize_filename("###"), "");
}

#[test]
fn sanitization_matches_the_regex_construction() {
    let re = regex::Regex::new(r"[^a-z0-9]+").unwrap();
    for cat in ["Human Settlement", "--Ab1--", "A  B", "C3PO unit", "###", "mixed CASE 42"] {
        let lowered = cat.to_lowercase();
        let replaced = re.replace_all(&lowered, "_");
        let expected = replaced.trim_matches('_').to_string();
        assert_eq!(sanitize_filename(cat), expected);
    }
}

fn row(a: &str, b: &str, c: &str) -> (String, String, String) {
    (a.to_string(), b.to_string(), c.to_string())
}

#[test]
fn the_pool_renders_one_headered_file_per_category() {
    let mut pool = CsvWriterPool::new("out/en");
    pool.write("City", &row("Berlin", "Berlin is a city.", "What is Berlin? [a city]"));
    pool.write("Human", &row("Ada", "Ada was a writer.", "Who was Ada? [a writer]"));
    pool.write("City", &row("Paris", "Paris; capital.", "line1\nline2"));
    let files = pool.flush_all();
    assert_eq!(files.len(), 2);
    assert_eq!(files[0].0, "out/en/city.csv");
    assert_eq!(
        files[0].1,
        "label;sentences;questions\n\
         Berlin;Berlin is a city.;What is Berlin? [a city]\n\
         Paris;\"Paris; capital.\";\"line1\nline2\"\n"
    );
    assert_eq!(files[1].0, "out/en/human.csv");
    assert_eq!(
        files[1].1,
        "label;sentences;questions\nAda;Ada was a writer.;Who was Ada? [a writer]\n"
    );
}

#[test]
fn pool_rows_match_the_csv_crate_rendering() {
    let mut pool = CsvWriterPool::new("o");
    pool.write("t", &row("a;b", "with \"q\"", "plain"));
    let files = pool.flush_all();
    let mut wtr = csv::WriterBuilder::new()
        .delimiter(b';')
        .has_headers(false)
        .from_writer(Vec::new());
    wtr.write_record(&["label", "sentences", "questions"]).unwrap();
    wtr.write_record(&["a;b", "with \"q\"", "plain"]).unwrap();
    let theirs = String::from_utf8(wtr.into_inner().unwrap()).unwrap();
    assert_eq!(files[0].1, theirs);
}

fn records_for<'a>(w: &'a BatchedWriter, cat: &str) -> Option<&'a Vec<String>> {
    for (i, n) in w.emitted_names.iter().enumerate() {
        if n == cat {
            return Some(&w.emitted[i]);
        }
    }
    None
}

fn drive(batch_size: usize) -> BatchedWriter {
    let mut w = BatchedWriter::new(batch_size);
    w.add_csv_entry("a".to_string(), "r1".to_string()).unwrap();
    w.add_kv_entry().unwrap();
    w.add_csv_entry("a".to_string(), "r2".to_string()).unwrap();
    w.add_csv_entry("b".to_string(), "r3".to_string()).unwrap();
    w.add_kv_entry().unwrap();
    w.add_csv_entry("a".to_string(), "r4".to_string()).unwrap();
    w.finalize().unwrap();
    w
}

#[test]
fn batched_and_unbatched_modes_agree_on_final_contents() {
    let tight = drive(1);
    let loose = drive(100);
    for cat in ["a", "b", "c"] {
        assert_eq!(records_for(&tight, cat), records_for(&loose, cat));
    }
    assert_eq!(
        records_for(&tight, "a"),
        Some(&vec!["r1".to_string(), "r2".to_string(), "r4".to_string()])
    );
    assert_eq!(records_for(&tight, "b"), Some(&vec!["r3".to_string()]));
    assert!(records_for(&tight, "c").is_none());
    assert!(tight.pending_names.is_empty());
    assert!(loose.pending_names.is_empty());
}

#[test]
fn the_counter_drains_exactly_at_the_threshold() {
    let mut w = BatchedWriter::new(2);
    w.add_csv_entry("a".to_string(), "r1".to_string()).unwrap();
    w.add_kv_entry().unwrap();
    // One logical entry of two: nothing drained, the counter stepped.
    assert_eq!(w.kv_entries, 1);
    assert_eq!(w.pending_names.len(), 1);
    assert!(records_for(&w, "a").is_none());
    w.add_kv_entry().unwrap();
    // The batch filled: buffers drained, counter reset.
    assert_eq!(w.kv_entries, 0);
    assert!(w.pending_names.is_empty());
    assert_eq!(records_for(&w, "a"), Some(&vec!["r1".to_string()]));
    // A record added while the batch is below the threshold drains nothing.
    w.add_csv_entry("b".to_string(), "r2".to_string()).unwrap();
    assert!(records_for(&w, "b").is_none());
    assert_eq!(w.kv_entries, 0);
}

#[test]
fn finalize_drains_the_remainder() {
    let mut w = BatchedWriter::new(1000);
    w.add_csv_entry("x".to_string(), "only".to_string()).unwrap();
    assert!(records_for(&w, "x").is_none());
    w.finalize().unwrap();
    assert_eq!(records_for(&w, "x"), Some(&vec!["only".to_string()]));
}
