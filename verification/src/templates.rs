use vstd::prelude::*;
use crate::processing_error::ProcessingError;
use crate::utils::{
    adjust_article, adjust_article_spec, join_with_conjunction, replace_all_exec,
    replace_all_markers, replace_first_exec, replace_first_marker, split_char, split_str,
    str_views, vec_to_and_string,
};

verus! {

// ----------------------------------------------------------------------------
// The template store: the property-key to display-value / sentence-template /
// question-template mapping, loaded once from a semicolon-delimited file with
// a header row, and immutable for the run.
// ----------------------------------------------------------------------------

/// One row of the template store.
pub struct TemplateEntry {
    /// The property key the templates belong to.
    pub key: String,
    /// The display value column.
    pub value: String,
    /// The sentence template, with placeholders for subject and value.
    pub sentence: String,
    /// The question template, with a placeholder for the subject.
    pub question: String,
}

/// The views of one row: key, value, sentence, question.
pub open spec fn entry_views(e: TemplateEntry) -> (Seq<char>, Seq<char>, Seq<char>, Seq<char>) {
    (e.key@, e.value@, e.sentence@, e.question@)
}

/// The views of a row listing.
pub open spec fn row_views(rows: Seq<TemplateEntry>) -> Seq<
    (Seq<char>, Seq<char>, Seq<char>, Seq<char>),
> {
    rows.map_values(|e: TemplateEntry| entry_views(e))
}

/// The first row with the given key: value, sentence and question columns.
pub open spec fn lookup_rows(
    rows: Seq<(Seq<char>, Seq<char>, Seq<char>, Seq<char>)>,
    key: Seq<char>,
) -> Option<(Seq<char>, Seq<char>, Seq<char>)>
    decreases rows.len(),
{
    if rows.len() == 0 {
        None
    } else if rows[0].0 == key {
        Some((rows[0].1, rows[0].2, rows[0].3))
    } else {
        lookup_rows(rows.drop_first(), key)
    }
}

/// A line with any Windows-style carriage return removed.
pub open spec fn bare_line(l: Seq<char>) -> Seq<char> {
    if l.len() > 0 && l.last() == '\r' {
        l.drop_last()
    } else {
        l
    }
}

/// The rows a template file's lines stand for: the line split at semicolons,
/// four columns to a row, empty lines skipped, anything else a fault.
pub open spec fn rows_of_lines(lines: Seq<Seq<char>>) -> Option<
    Seq<(Seq<char>, Seq<char>, Seq<char>, Seq<char>)>,
>
    decreases lines.len(),
{
    if lines.len() == 0 {
        Some(Seq::empty())
    } else {
        let rest = rows_of_lines(lines.drop_first());
        let l = bare_line(lines[0]);
        if l.len() == 0 {
            rest
        } else {
            let cols = split_char(l, ';');
            if cols.len() == 4 {
                match rest {
                    Some(t) => Some(Seq::empty().push((cols[0], cols[1], cols[2], cols[3])) + t),
                    None => None,
                }
            } else {
                None
            }
        }
    }
}

/// What a template file means: its rows after the header line, or nothing
/// when some line does not have exactly four columns.
pub open spec fn parse_templates_spec(content: Seq<char>) -> Option<
    Seq<(Seq<char>, Seq<char>, Seq<char>, Seq<char>)>,
> {
    rows_of_lines(split_char(content, '\n').drop_first())
}

/// The loaded template store.
pub struct TemplateStore {
    /// The rows, in file order.
    pub entries: Vec<TemplateEntry>,
}

impl TemplateStore {
    /// Reads a template store out of the file content handed in by the
    /// caller. The header line is skipped; a line without exactly four
    /// semicolon-separated columns is a fatal fault, since the store is a
    /// prerequisite of the run.
    pub fn load(content: &str) -> (r: Result<TemplateStore, ProcessingError>)
        ensures
            match r {
                Ok(st) => parse_templates_spec(content@) == Some(row_views(st.entries@)),
                Err(_) => parse_templates_spec(content@) is None,
            },
    {
        let lines = split_str(content, '\n');
        let n = lines.len();
        let mut entries: Vec<TemplateEntry> = Vec::new();
        let mut i: usize = n;
        proof {
            assert(split_char(content@, '\n').len() >= 1);
            assert(str_views(lines@).len() == n);
            assert(str_views(lines@).subrange(n as int, n as int) =~= Seq::<Seq<char>>::empty());
            assert(row_views(entries@) =~= Seq::empty());
        }
        while i > 1
            invariant
                1 <= i <= n,
                n == lines@.len(),
                str_views(lines@) == split_char(content@, '\n'),
                rows_of_lines(str_views(lines@).subrange(i as int, n as int)) == Some(
                    row_views(entries@),
                ),
            decreases i,
        {
            let raw = &lines[i - 1];
            let ghost lv = str_views(lines@);
            let ghost seen = lv.subrange(i as int, n as int);
            proof {
                assert(lv.subrange(i - 1, n as int).drop_first() =~= seen);
                assert(lv.subrange(i - 1, n as int)[0] == lv[i - 1]);
                assert(lv[i - 1] == raw@);
            }
            let rn = raw.as_str().unicode_len();
            let line = if rn > 0 && raw.as_str().get_char(rn - 1) == '\r' {
                raw.as_str().substring_char(0, rn - 1).to_owned()
            } else {
                raw.clone()
            };
            proof {
                if rn > 0 {
                    assert(raw@.last() == raw@[rn - 1]);
                }
                assert(line@ =~= bare_line(raw@));
            }
            if !line.as_str().is_empty() {
                let cols = split_str(line.as_str(), ';');
                let ghost sv = str_views(cols@);
                proof {
                    assert(sv == split_char(line@, ';'));
                }
                if cols.len() != 4 {
                    proof {
                        assert(rows_of_lines(lv.subrange(i - 1, n as int)) is None);
                        lemma_rows_prefix_none(lv, i - 1);
                    }
                    return Err(ProcessingError::CsvError("template row".to_owned()));
                }
                let mut cs = cols;
                let question = cs.pop().unwrap();
                let sentence = cs.pop().unwrap();
                let value = cs.pop().unwrap();
                let key = cs.pop().unwrap();
                let entry = TemplateEntry { key, value, sentence, question };
                proof {
                    assert(entry_views(entry) == (sv[0], sv[1], sv[2], sv[3]));
                }
                let ghost entries0 = entries@;
                entries.insert(0, entry);
                proof {
                    assert(entries@ == entries0.insert(0, entry));
                    assert(entries@.drop_first() =~= entries0);
                    assert(entries@[0] == entry);
                    assert(row_views(entries@).drop_first() =~= row_views(entries0));
                    assert(row_views(entries@)[0] == entry_views(entry));
                    assert(Seq::empty().push(entry_views(entry)) + row_views(entries0)
                        =~= row_views(entries@));
                }
            }
            i -= 1;
        }
        proof {
            assert(str_views(lines@).subrange(1, n as int) =~= str_views(lines@).drop_first());
        }
        Ok(TemplateStore { entries })
    }

    /// The first row with the given key.
    pub fn get(&self, key: &str) -> (r: Option<(String, String, String)>)
        ensures
            match r {
                Some(t) => lookup_rows(row_views(self.entries@), key@) == Some(
                    (t.0@, t.1@, t.2@),
                ),
                None => lookup_rows(row_views(self.entries@), key@) is None,
            },
    {
        let n = self.entries.len();
        let mut i: usize = 0;
        proof {
            assert(row_views(self.entries@).subrange(0, n as int) =~= row_views(self.entries@));
        }
        while i < n
            invariant
                i <= n,
                n == self.entries@.len(),
                lookup_rows(row_views(self.entries@).subrange(i as int, n as int), key@)
                    == lookup_rows(row_views(self.entries@), key@),
            decreases n - i,
        {
            let e = &self.entries[i];
            let ghost rv = row_views(self.entries@);
            proof {
                assert(rv.subrange(i as int, n as int)[0] == entry_views(self.entries@[i as int]));
                assert(rv.subrange(i as int, n as int).drop_first() =~= rv.subrange(
                    i + 1,
                    n as int,
                ));
            }
            if crate::utils::str_eq(e.key.as_str(), key) {
                return Some((e.value.clone(), e.sentence.clone(), e.question.clone()));
            }
            i += 1;
        }
        proof {
            assert(row_views(self.entries@).subrange(n as int, n as int) =~= Seq::<
                (Seq<char>, Seq<char>, Seq<char>, Seq<char>),
            >::empty());
        }
        None
    }

    /// The localized conjunction word: the sentence column of the `list`
    /// row, or `and` when the store has none.
    pub fn and_symbol(&self) -> (r: String)
        ensures
            r@ == and_symbol_spec(row_views(self.entries@)),
    {
        match self.get("list") {
            Some(t) => t.1,
            None => "and".to_owned(),
        }
    }

    /// The date pattern: the sentence column of the `date_format` row, or
    /// the year-month-day pattern when the store has none.
    pub fn date_format(&self) -> (r: String)
        ensures
            r@ == date_format_spec(row_views(self.entries@)),
    {
        match self.get("date_format") {
            Some(t) => t.1,
            None => "%Y-%m-%d".to_owned(),
        }
    }

    /// The marker written for dates that are absent or unreadable: the
    /// sentence column of the `missing_date` row, or `missing date` when the
    /// store has none.
    pub fn missing_date(&self) -> (r: String)
        ensures
            r@ == missing_date_spec(row_views(self.entries@)),
    {
        match self.get("missing_date") {
            Some(t) => t.1,
            None => "missing date".to_owned(),
        }
    }
}

/// What `and_symbol` returns.
pub open spec fn and_symbol_spec(rows: Seq<(Seq<char>, Seq<char>, Seq<char>, Seq<char>)>) -> Seq<
    char,
> {
    match lookup_rows(rows, "list"@) {
        Some(t) => t.1,
        None => "and"@,
    }
}

/// What `date_format` returns.
pub open spec fn date_format_spec(rows: Seq<(Seq<char>, Seq<char>, Seq<char>, Seq<char>)>) -> Seq<
    char,
> {
    match lookup_rows(rows, "date_format"@) {
        Some(t) => t.1,
        None => "%Y-%m-%d"@,
    }
}

/// What `missing_date` returns.
pub open spec fn missing_date_spec(rows: Seq<(Seq<char>, Seq<char>, Seq<char>, Seq<char>)>) -> Seq<
    char,
> {
    match lookup_rows(rows, "missing_date"@) {
        Some(t) => t.1,
        None => "missing date"@,
    }
}

// ----------------------------------------------------------------------------
// Sentence and question generation.
// ----------------------------------------------------------------------------

/// The lines one generation step appends: none or one.
pub open spec fn opt_out(o: Option<Seq<char>>) -> Seq<Seq<char>> {
    match o {
        Some(s) => seq![s],
        None => Seq::empty(),
    }
}

/// What one generation step produces: the joined value substituted into the
/// property's sentence template (article-adjusted, subject first), and the
/// question template with the subject substituted and the value appended in
/// brackets as the answer key. A property without templates, or an empty
/// joined value, produces nothing.
pub open spec fn generate_text_spec(
    rows: Seq<(Seq<char>, Seq<char>, Seq<char>, Seq<char>)>,
    and_sym: Seq<char>,
    key: Seq<char>,
    label: Seq<char>,
    values: Seq<Seq<char>>,
) -> (Option<Seq<char>>, Option<Seq<char>>) {
    let value = join_with_conjunction(values, and_sym);
    match lookup_rows(rows, key) {
        None => (None, None),
        Some(t) => if value.len() == 0 {
            (None, None)
        } else {
            let sentence = replace_first_marker(
                replace_first_marker(adjust_article_spec(t.1, value), label),
                value,
            );
            let question = replace_all_markers(t.2, label) + seq![' ', '['] + value + seq![']'];
            (
                if sentence.len() == 0 {
                    None
                } else {
                    Some(sentence)
                },
                if t.2.len() == 0 {
                    None
                } else {
                    Some(question)
                },
            )
        },
    }
}

/// Appends the sentence and question for one property to the record's
/// accumulating lists.
pub fn generate_text(
    property_map: &TemplateStore,
    sentences: &mut Vec<String>,
    questions: &mut Vec<String>,
    and_symbol: &str,
    prop_key: &str,
    prop_label: &str,
    prop_value: &Vec<String>,
)
    ensures
        ({
            let g = generate_text_spec(
                row_views(property_map.entries@),
                and_symbol@,
                prop_key@,
                prop_label@,
                str_views(prop_value@),
            );
            str_views(final(sentences)@) == str_views(old(sentences)@) + opt_out(g.0)
                && str_views(final(questions)@) == str_views(old(questions)@) + opt_out(g.1)
        }),
{
    let value = vec_to_and_string(prop_value, and_symbol);
    match property_map.get(prop_key) {
        None => {
            proof {
                assert(str_views(sentences@) + opt_out(None) =~= str_views(sentences@));
                assert(str_views(questions@) + opt_out(None) =~= str_views(questions@));
            }
        },
        Some(t) => {
            let (_display, sentence_t, question_t) = t;
            if value.as_str().is_empty() {
                proof {
                    assert(str_views(sentences@) + opt_out(None) =~= str_views(sentences@));
                    assert(str_views(questions@) + opt_out(None) =~= str_views(questions@));
                }
            } else {
                let s1 = adjust_article(sentence_t.as_str(), value.as_str());
                let s2 = replace_first_exec(s1.as_str(), prop_label);
                let s3 = replace_first_exec(s2.as_str(), value.as_str());
                if !s3.as_str().is_empty() {
                    let ghost sv0 = str_views(sentences@);
                    let ghost s3v = s3@;
                    sentences.push(s3);
                    proof {
                        assert(str_views(sentences@) =~= sv0 + seq![s3v]);
                    }
                } else {
                    proof {
                        assert(str_views(sentences@) + opt_out(None) =~= str_views(sentences@));
                    }
                }
                if !question_t.as_str().is_empty() {
                    let mut q = replace_all_exec(question_t.as_str(), prop_label);
                    q.append(" [");
                    q.append(value.as_str());
                    q.append("]");
                    proof {
                        reveal_strlit(" [");
                        reveal_strlit("]");
                        assert(" ["@ =~= seq![' ', '[']);
                        assert("]"@ =~= seq![']']);
                    }
                    let ghost qv0 = str_views(questions@);
                    let ghost qv = q@;
                    questions.push(q);
                    proof {
                        assert(str_views(questions@) =~= qv0 + seq![qv]);
                    }
                } else {
                    proof {
                        assert(str_views(questions@) + opt_out(None) =~= str_views(questions@));
                    }
                }
            }
        },
    }
}

/// A fault in some line of a listing faults every listing it closes.
proof fn lemma_rows_prefix_none(lines: Seq<Seq<char>>, i: int)
    requires
        0 <= i < lines.len(),
        rows_of_lines(lines.subrange(i, lines.len() as int)) is None,
    ensures
        forall|j: int|
            0 <= j <= i ==> rows_of_lines(#[trigger] lines.subrange(j, lines.len() as int))
                is None,
    decreases i,
{
    if i > 0 {
        let cur = lines.subrange(i - 1, lines.len() as int);
        assert(cur.drop_first() =~= lines.subrange(i, lines.len() as int));
        assert(rows_of_lines(cur) is None);
        lemma_rows_prefix_none(lines, i - 1);
    }
}

} // verus!
