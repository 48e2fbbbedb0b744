use vstd::prelude::*;
use crate::cache::{
    cache_entries, cache_get, cache_insert, cache_new, lemma_cache_round_trip, load_numeric_spec,
    pairs_to_map, render_numeric, LabelCache,
};
use crate::coords::format_coordinates;
use crate::dates::{format_date, format_date_spec};
use crate::entity::{
    alias_list_lookup, alias_lookup, claim_lookup, collect_refs, find_claim, lang_lookup,
    lang_text_lookup, refs_of, Claim, Entity, StatementValue,
};
use crate::templates::{
    generate_text, generate_text_spec, opt_out, row_views, TemplateStore,
};
use crate::utils::{
    all_digits, digits_val, join_lines, lower_first_spec, lowercase_first, nl_join,
    parse_u32_digits, str_eq, str_views,
};

verus! {

// ----------------------------------------------------------------------------
// Property extraction and the per-record orchestration: a pure function
// from one entity record, the template store and the label cache to at most
// one output row.
// ----------------------------------------------------------------------------

/// The per-run settings extraction works under.
pub struct ExtractionContext {
    /// The configured language code.
    pub lang: String,
    /// The localized conjunction word.
    pub and_symbol: String,
    /// The configured date pattern.
    pub date_format: String,
    /// The marker written for absent or unreadable dates.
    pub missing_date: String,
    /// The property keys whose absent statement is reported as a missing
    /// date instead of being omitted.
    pub date_property_keys: Vec<String>,
}

/// The identifier a unit given as an entity-reference address stands for.
pub open spec fn unit_ref_spec(unit: Seq<char>) -> Option<nat> {
    if unit.len() >= 33 && unit.subrange(0, 32) == "http://www.wikidata.org/entity/Q"@ {
        let rest = unit.subrange(32, unit.len() as int);
        if all_digits(rest) && digits_val(rest) < 0x1_0000_0000 {
            Some(digits_val(rest))
        } else {
            None
        }
    } else {
        None
    }
}

/// What a quantity renders to: a dimensionless amount alone; an amount with
/// its unit's label where the unit is an entity reference the cache
/// resolves, or with the raw unit text where it does not; no value for any
/// other unit form.
pub open spec fn quantity_spec(
    amount: Seq<char>,
    unit: Seq<char>,
    cache: Map<u32, Seq<char>>,
) -> Option<Seq<char>> {
    if unit == seq!['1'] {
        Some(amount)
    } else {
        match unit_ref_spec(unit) {
            Some(id) => {
                let k = id as u32;
                Some(
                    amount + seq![' '] + (if cache.dom().contains(k) {
                        cache[k]
                    } else {
                        unit
                    }),
                )
            },
            None => None,
        }
    }
}

/// What one statement decodes to, per its type tag. Every branch has a
/// no-value outcome; none faults.
pub open spec fn decode_statement_spec(
    st: StatementValue,
    cache: Map<u32, Seq<char>>,
    date_format: Seq<char>,
    missing_date: Seq<char>,
) -> Option<Seq<char>> {
    match st {
        StatementValue::EntityRef { numeric_id } => {
            let k = (numeric_id % 0x1_0000_0000) as u32;
            if cache.dom().contains(k) {
                Some(cache[k])
            } else {
                None
            }
        },
        StatementValue::ExternalId { value } => Some(value@),
        StatementValue::Coordinate { latitude, longitude, altitude } => {
            let av = match altitude {
                Some(a) => Some(a@),
                None => None,
            };
            crate::coords::format_coordinates_spec(latitude@, longitude@, av)
        },
        StatementValue::Quantity { amount, unit } => quantity_spec(amount@, unit@, cache),
        StatementValue::MonolingualText { text } => Some(text@),
        StatementValue::Time { time } => Some(format_date_spec(time@, date_format, missing_date)),
        StatementValue::PlainText { value } => Some(value@),
        StatementValue::Media { .. } => None,
        StatementValue::Unknown => None,
    }
}

/// Decodes one statement against the label cache.
pub fn decode_statement(
    st: &StatementValue,
    resolver: &LabelCache,
    date_format: &str,
    missing_date: &str,
) -> (r: Option<String>)
    ensures
        (match r {
            Some(v) => decode_statement_spec(
                *st,
                cache_entries(*resolver),
                date_format@,
                missing_date@,
            ) == Some(v@),
            None => decode_statement_spec(
                *st,
                cache_entries(*resolver),
                date_format@,
                missing_date@,
            ) is None,
        }),
{
    match st {
        StatementValue::EntityRef { numeric_id } => {
            let key: u32 = (*numeric_id % 0x1_0000_0000u64) as u32;
            cache_get(resolver, key)
        },
        StatementValue::ExternalId { value } => Some(value.clone()),
        StatementValue::Coordinate { latitude, longitude, altitude } => {
            let alt: Option<&str> = match altitude {
                Some(a) => Some(a.as_str()),
                None => None,
            };
            format_coordinates(latitude.as_str(), longitude.as_str(), alt)
        },
        StatementValue::Quantity { amount, unit } => {
            if str_eq(unit.as_str(), "1") {
                proof {
                    reveal_strlit("1");
                    assert("1"@ =~= seq!['1']);
                }
                Some(amount.clone())
            } else {
                proof {
                    reveal_strlit("1");
                    assert("1"@ =~= seq!['1']);
                }
                let un = unit.unicode_len();
                if un >= 33 && str_eq(unit.as_str().substring_char(0, 32),
                    "http://www.wikidata.org/entity/Q") {
                    match parse_u32_digits(unit.as_str(), 32) {
                        Some(id) => {
                            let label = match cache_get(resolver, id) {
                                Some(l) => l,
                                None => unit.clone(),
                            };
                            let mut out = amount.clone();
                            out.append(" ");
                            out.append(label.as_str());
                            proof {
                                reveal_strlit(" ");
                                assert(" "@ =~= seq![' ']);
                            }
                            Some(out)
                        },
                        None => None,
                    }
                } else {
                    None
                }
            }
        },
        StatementValue::MonolingualText { text } => Some(text.clone()),
        StatementValue::Time { time } => Some(
            format_date(time.as_str(), date_format, missing_date),
        ),
        StatementValue::PlainText { value } => Some(value.clone()),
        StatementValue::Media { .. } => None,
        StatementValue::Unknown => None,
    }
}

/// Whether a key is one of the flagged date properties.
pub open spec fn is_flagged(flagged: Seq<Seq<char>>, key: Seq<char>) -> bool {
    exists|i: int| 0 <= i < flagged.len() && flagged[i] == key
}

fn key_flagged(flagged: &Vec<String>, key: &str) -> (r: bool)
    ensures
        r == is_flagged(str_views(flagged@), key@),
{
    let n = flagged.len();
    let mut i: usize = 0;
    while i < n
        invariant
            i <= n,
            n == flagged@.len(),
            forall|j: int| 0 <= j < i ==> str_views(flagged@)[j] != key@,
        decreases n - i,
    {
        if str_eq(flagged[i].as_str(), key) {
            assert(str_views(flagged@)[i as int] == key@);
            return true;
        }
        i += 1;
    }
    false
}

/// What one claim contributes: its first statement's decoded value; for a
/// flagged date property whose statement is absent or yields no value, the
/// missing-date marker; no value otherwise.
pub open spec fn extract_claim_spec(
    key: Seq<char>,
    sts: Seq<StatementValue>,
    cache: Map<u32, Seq<char>>,
    ctx: ExtractionContext,
) -> Option<Seq<char>> {
    let decoded = if sts.len() > 0 {
        decode_statement_spec(sts[0], cache, ctx.date_format@, ctx.missing_date@)
    } else {
        None
    };
    match decoded {
        Some(v) => Some(v),
        None => if is_flagged(str_views(ctx.date_property_keys@), key) {
            Some(ctx.missing_date@)
        } else {
            None
        },
    }
}

/// Extracts the value of one claim: the first statement only.
pub fn extract_claim(
    key: &str,
    sts: &Vec<StatementValue>,
    resolver: &LabelCache,
    ctx: &ExtractionContext,
) -> (r: Option<String>)
    ensures
        (match r {
            Some(v) => extract_claim_spec(key@, sts@, cache_entries(*resolver), *ctx) == Some(v@),
            None => extract_claim_spec(key@, sts@, cache_entries(*resolver), *ctx) is None,
        }),
{
    let decoded: Option<String> = if sts.len() > 0 {
        decode_statement(&sts[0], resolver, ctx.date_format.as_str(), ctx.missing_date.as_str())
    } else {
        None
    };
    match decoded {
        Some(v) => Some(v),
        None => {
            if key_flagged(&ctx.date_property_keys, key) {
                Some(ctx.missing_date.clone())
            } else {
                None
            }
        },
    }
}

/// The texts of a list that differ from the label, in order.
pub open spec fn filter_ne(texts: Seq<Seq<char>>, label: Seq<char>) -> Seq<Seq<char>>
    decreases texts.len(),
{
    if texts.len() == 0 {
        Seq::empty()
    } else {
        filter_ne(texts.drop_last(), label) + (if texts.last() == label {
            Seq::empty()
        } else {
            seq![texts.last()]
        })
    }
}

fn filter_aliases(texts: &Vec<String>, label: &str) -> (r: Vec<String>)
    ensures
        str_views(r@) == filter_ne(str_views(texts@), label@),
{
    let n = texts.len();
    let mut out: Vec<String> = Vec::new();
    let mut i: usize = 0;
    proof {
        assert(str_views(texts@).subrange(0, 0) =~= Seq::<Seq<char>>::empty());
        assert(str_views(out@) =~= Seq::<Seq<char>>::empty());
    }
    while i < n
        invariant
            i <= n,
            n == texts@.len(),
            str_views(out@) == filter_ne(str_views(texts@).subrange(0, i as int), label@),
        decreases n - i,
    {
        proof {
            let tv = str_views(texts@);
            assert(tv.subrange(0, i + 1).drop_last() =~= tv.subrange(0, i as int));
            assert(tv.subrange(0, i + 1).last() == tv[i as int]);
        }
        if !str_eq(texts[i].as_str(), label) {
            let ghost before = str_views(out@);
            out.push(texts[i].clone());
            proof {
                assert(str_views(out@) =~= before + seq![texts@[i as int]@]);
            }
        } else {
            proof {
                assert(str_views(out@) + Seq::<Seq<char>>::empty() =~= str_views(out@));
            }
        }
        i += 1;
    }
    proof {
        assert(str_views(texts@).subrange(0, n as int) =~= str_views(texts@));
    }
    out
}

/// The instance-of references of a record, in order.
pub open spec fn instance_ids(claims: Seq<Claim>) -> Seq<u64> {
    match claim_lookup(claims, "P31"@) {
        Some(sts) => refs_of(sts),
        None => Seq::empty(),
    }
}

/// Whether the instance-of references classify the record as a human or
/// fictional human.
pub open spec fn is_human_ids(inst: Seq<u64>) -> bool {
    inst.contains(5u64) || inst.contains(15632617u64)
}

fn contains_u64(v: &Vec<u64>, x: u64) -> (r: bool)
    ensures
        r == v@.contains(x),
{
    let n = v.len();
    let mut i: usize = 0;
    while i < n
        invariant
            i <= n,
            n == v@.len(),
            forall|j: int| 0 <= j < i ==> v@[j] != x,
        decreases n - i,
    {
        if v[i] == x {
            return true;
        }
        i += 1;
    }
    false
}

/// The category a record's rows are routed to: the label its first
/// instance-of reference resolves to, or the sentinel category.
pub open spec fn category_spec(inst: Seq<u64>, cache: Map<u32, Seq<char>>) -> Seq<char> {
    if inst.len() > 0 {
        let k = (inst[0] % 0x1_0000_0000) as u32;
        if cache.dom().contains(k) {
            cache[k]
        } else {
            "misc"@
        }
    } else {
        "misc"@
    }
}

/// What the record's claims contribute, claim by claim, in order.
pub open spec fn claims_outputs(
    claims: Seq<Claim>,
    rows: Seq<(Seq<char>, Seq<char>, Seq<char>, Seq<char>)>,
    cache: Map<u32, Seq<char>>,
    label: Seq<char>,
    ctx: ExtractionContext,
) -> (Seq<Seq<char>>, Seq<Seq<char>>)
    decreases claims.len(),
{
    if claims.len() == 0 {
        (Seq::empty(), Seq::empty())
    } else {
        let p = claims_outputs(claims.drop_last(), rows, cache, label, ctx);
        let c = claims.last();
        match extract_claim_spec(c.key@, c.statements@, cache, ctx) {
            None => p,
            Some(v) => {
                let g = generate_text_spec(rows, ctx.and_symbol@, c.key@, label, seq![v]);
                (p.0 + opt_out(g.0), p.1 + opt_out(g.1))
            },
        }
    }
}

/// One output row: the category sink it goes to, and the label, sentence
/// block and question block written there.
pub struct OutputRow {
    /// The category sink.
    pub category: String,
    /// The record's display label.
    pub label: String,
    /// The generated sentences, one per line.
    pub sentences: String,
    /// The generated questions, one per line.
    pub questions: String,
}

/// What one record produces. A record missing any content field, or a label
/// in the configured language, produces nothing; a human record without an
/// external reference page produces nothing; otherwise the description,
/// alias and claim texts are generated in order and a single row is routed
/// to the record's single category — none at all when nothing was
/// generated.
pub open spec fn process_record_spec(
    e: Entity,
    rows: Seq<(Seq<char>, Seq<char>, Seq<char>, Seq<char>)>,
    cache: Map<u32, Seq<char>>,
    ctx: ExtractionContext,
) -> Option<(Seq<char>, Seq<char>, Seq<char>, Seq<char>)> {
    match (e.claims, e.labels, e.descriptions, e.aliases) {
        (Some(claims), Some(labels), Some(descriptions), Some(aliases)) => {
            match lang_lookup(labels@, ctx.lang@) {
                None => None,
                Some(label) => {
                    let inst = instance_ids(claims@);
                    let human = is_human_ids(inst);
                    let famous = match e.sitelink_count {
                        Some(c) => c > 0,
                        None => false,
                    };
                    if human && !famous {
                        None
                    } else {
                        let desc = match lang_lookup(descriptions@, ctx.lang@) {
                            Some(d) => lower_first_spec(d),
                            None => Seq::empty(),
                        };
                        let g1 = if desc.len() > 0 {
                            generate_text_spec(
                                rows,
                                ctx.and_symbol@,
                                if human {
                                    "person_descriptions"@
                                } else {
                                    "descriptions"@
                                },
                                label,
                                seq![desc],
                            )
                        } else {
                            (None, None)
                        };
                        let al = match alias_lookup(aliases@, ctx.lang@) {
                            Some(t) => filter_ne(t, label),
                            None => Seq::empty(),
                        };
                        let g2 = if al.len() > 0 {
                            generate_text_spec(
                                rows,
                                ctx.and_symbol@,
                                if human {
                                    "person_aliases"@
                                } else {
                                    "aliases"@
                                },
                                label,
                                al,
                            )
                        } else {
                            (None, None)
                        };
                        let cp = claims_outputs(claims@, rows, cache, label, ctx);
                        let sentences = opt_out(g1.0) + opt_out(g2.0) + cp.0;
                        let questions = opt_out(g1.1) + opt_out(g2.1) + cp.1;
                        if sentences.len() > 0 || questions.len() > 0 {
                            Some(
                                (
                                    category_spec(inst, cache),
                                    label,
                                    nl_join(sentences),
                                    nl_join(questions),
                                ),
                            )
                        } else {
                            None
                        }
                    }
                },
            }
        },
        _ => None,
    }
}

/// Processes one record against the template store and the label cache:
/// at most one row comes out, already routed to its single category. A line
/// that did not parse contributes nothing.
pub fn process_record(
    entity: Option<&Entity>,
    templates: &TemplateStore,
    resolver: &LabelCache,
    ctx: &ExtractionContext,
) -> (r: Option<OutputRow>)
    ensures
        (match entity {
            None => r is None,
            Some(ent) => (match r {
                Some(row) => process_record_spec(
                    *ent,
                    row_views(templates.entries@),
                    cache_entries(*resolver),
                    *ctx,
                ) == Some((row.category@, row.label@, row.sentences@, row.questions@)),
                None => process_record_spec(
                    *ent,
                    row_views(templates.entries@),
                    cache_entries(*resolver),
                    *ctx,
                ) is None,
            }),
        }),
{
    let ent = match entity {
        None => {
            return None;
        },
        Some(e) => e,
    };
    let (claims, labels, descriptions, aliases) = match (
        &ent.claims,
        &ent.labels,
        &ent.descriptions,
        &ent.aliases,
    ) {
        (Some(c), Some(l), Some(d), Some(a)) => (c, l, d, a),
        _ => {
            return None;
        },
    };
    let label = match lang_text_lookup(labels, ctx.lang.as_str()) {
        None => {
            return None;
        },
        Some(l) => l,
    };
    let inst = match find_claim(claims, "P31") {
        Some(i) => collect_refs(&claims[i].statements),
        None => {
            proof {
                assert(instance_ids(claims@) =~= Seq::<u64>::empty());
            }
            Vec::new()
        },
    };
    proof {
        assert(inst@ == instance_ids(claims@));
    }
    let human = contains_u64(&inst, 5) || contains_u64(&inst, 15632617);
    let famous = match ent.sitelink_count {
        Some(c) => c > 0,
        None => false,
    };
    if human && !famous {
        return None;
    }
    let ghost rows = row_views(templates.entries@);
    let ghost cache = cache_entries(*resolver);
    let mut sentences: Vec<String> = Vec::new();
    let mut questions: Vec<String> = Vec::new();
    let description = match lang_text_lookup(descriptions, ctx.lang.as_str()) {
        Some(d) => lowercase_first(d.as_str()),
        None => String::new(),
    };
    let ghost desc = description@;
    let ghost g1 = if desc.len() > 0 {
        generate_text_spec(
            rows,
            ctx.and_symbol@,
            if human {
                "person_descriptions"@
            } else {
                "descriptions"@
            },
            label@,
            seq![desc],
        )
    } else {
        (None::<Seq<char>>, None::<Seq<char>>)
    };
    if !description.as_str().is_empty() {
        let prop_key = if human {
            "person_descriptions"
        } else {
            "descriptions"
        };
        let values = vec![description];
        proof {
            assert(str_views(values@) =~= seq![desc]);
        }
        generate_text(
            templates,
            &mut sentences,
            &mut questions,
            ctx.and_symbol.as_str(),
            prop_key,
            label.as_str(),
            &values,
        );
    }
    proof {
        assert(str_views(sentences@) =~= opt_out(g1.0));
        assert(str_views(questions@) =~= opt_out(g1.1));
    }
    let alias_texts = match alias_list_lookup(aliases, ctx.lang.as_str()) {
        Some(t) => filter_aliases(&t, label.as_str()),
        None => Vec::new(),
    };
    let ghost al = match alias_lookup(aliases@, ctx.lang@) {
        Some(t) => filter_ne(t, label@),
        None => Seq::<Seq<char>>::empty(),
    };
    proof {
        assert(str_views(alias_texts@) == al);
    }
    let ghost g2 = if al.len() > 0 {
        generate_text_spec(
            rows,
            ctx.and_symbol@,
            if human {
                "person_aliases"@
            } else {
                "aliases"@
            },
            label@,
            al,
        )
    } else {
        (None::<Seq<char>>, None::<Seq<char>>)
    };
    if alias_texts.len() > 0 {
        let prop_key = if human {
            "person_aliases"
        } else {
            "aliases"
        };
        generate_text(
            templates,
            &mut sentences,
            &mut questions,
            ctx.and_symbol.as_str(),
            prop_key,
            label.as_str(),
            &alias_texts,
        );
    }
    proof {
        assert(str_views(sentences@) =~= opt_out(g1.0) + opt_out(g2.0));
        assert(str_views(questions@) =~= opt_out(g1.1) + opt_out(g2.1));
    }
    let n = claims.len();
    let mut i: usize = 0;
    proof {
        assert(claims@.subrange(0, 0) =~= Seq::<Claim>::empty());
    }
    while i < n
        invariant
            i <= n,
            n == claims@.len(),
            rows == row_views(templates.entries@),
            cache == cache_entries(*resolver),
            str_views(sentences@) == opt_out(g1.0) + opt_out(g2.0) + claims_outputs(
                claims@.subrange(0, i as int),
                rows,
                cache,
                label@,
                *ctx,
            ).0,
            str_views(questions@) == opt_out(g1.1) + opt_out(g2.1) + claims_outputs(
                claims@.subrange(0, i as int),
                rows,
                cache,
                label@,
                *ctx,
            ).1,
        decreases n - i,
    {
        let c = &claims[i];
        proof {
            let pre = claims@.subrange(0, i + 1);
            assert(pre.drop_last() =~= claims@.subrange(0, i as int));
            assert(pre.last() == claims@[i as int]);
        }
        let ghost s_before = str_views(sentences@);
        let ghost q_before = str_views(questions@);
        match extract_claim(c.key.as_str(), &c.statements, resolver, ctx) {
            None => {
                proof {
                    assert(str_views(sentences@) =~= s_before + Seq::<Seq<char>>::empty());
                    assert(str_views(questions@) =~= q_before + Seq::<Seq<char>>::empty());
                }
            },
            Some(v) => {
                let ghost vv = v@;
                let values = vec![v];
                proof {
                    assert(str_views(values@) =~= seq![vv]);
                }
                generate_text(
                    templates,
                    &mut sentences,
                    &mut questions,
                    ctx.and_symbol.as_str(),
                    c.key.as_str(),
                    label.as_str(),
                    &values,
                );
                proof {
                    let g = generate_text_spec(rows, ctx.and_symbol@, c.key@, label@, seq![vv]);
                    assert(str_views(sentences@) =~= (opt_out(g1.0) + opt_out(g2.0)
                        + claims_outputs(claims@.subrange(0, i as int), rows, cache, label@, *ctx).0)
                        + opt_out(g.0));
                    assert((opt_out(g1.0) + opt_out(g2.0) + claims_outputs(
                        claims@.subrange(0, i as int),
                        rows,
                        cache,
                        label@,
                        *ctx,
                    ).0) + opt_out(g.0) =~= opt_out(g1.0) + opt_out(g2.0) + (claims_outputs(
                        claims@.subrange(0, i as int),
                        rows,
                        cache,
                        label@,
                        *ctx,
                    ).0 + opt_out(g.0)));
                    assert(str_views(questions@) =~= opt_out(g1.1) + opt_out(g2.1) + (
                    claims_outputs(claims@.subrange(0, i as int), rows, cache, label@, *ctx).1
                        + opt_out(g.1)));
                }
            },
        }
        i += 1;
    }
    proof {
        assert(claims@.subrange(0, n as int) =~= claims@);
    }
    if sentences.len() == 0 && questions.len() == 0 {
        return None;
    }
    let category = if inst.len() > 0 {
        let key: u32 = (inst[0] % 0x1_0000_0000u64) as u32;
        match cache_get(resolver, key) {
            Some(l) => l,
            None => "misc".to_owned(),
        }
    } else {
        "misc".to_owned()
    };
    let sentence_block = join_lines(&sentences);
    let question_block = join_lines(&questions);
    proof {
        if str_views(sentences@).len() == 0 {
            assert(sentences@.len() == 0);
        }
    }
    Some(OutputRow { category, label, sentences: sentence_block, questions: question_block })
}

// ----------------------------------------------------------------------------
// Line cleaning and the pre-pass entry.
// ----------------------------------------------------------------------------

/// The whitespace the line filter looks at.
pub open spec fn is_ws(c: char) -> bool {
    c == ' ' || c == '\t' || c == '\r' || c == '\n'
}

/// Whether a line is blank.
pub open spec fn all_ws(s: Seq<char>) -> bool {
    forall|i: int| 0 <= i < s.len() ==> is_ws(#[trigger] s[i])
}

/// Trailing commas removed.
pub open spec fn strip_commas(s: Seq<char>) -> Seq<char>
    decreases s.len(),
{
    if s.len() > 0 && s.last() == ',' {
        strip_commas(s.drop_last())
    } else {
        s
    }
}

/// What the line filter keeps: blank lines and the dump's structural
/// bracket lines are dropped; any other line is kept with its trailing
/// commas removed.
pub open spec fn clean_line_spec(s: Seq<char>) -> Option<Seq<char>> {
    if all_ws(s) {
        None
    } else if s[0] == '[' || s[0] == ']' {
        None
    } else {
        Some(strip_commas(s))
    }
}

fn is_ws_exec(c: char) -> (r: bool)
    ensures
        r == is_ws(c),
{
    c == ' ' || c == '\t' || c == '\r' || c == '\n'
}

/// Filters one raw input line down to the text handed to the JSON reader.
pub fn clean_line(line: &str) -> (r: Option<String>)
    ensures
        (match r {
            Some(t) => clean_line_spec(line@) == Some(t@),
            None => clean_line_spec(line@) is None,
        }),
{
    let n = line.unicode_len();
    let mut i: usize = 0;
    while i < n && is_ws_exec(line.get_char(i))
        invariant
            i <= n,
            n == line@.len(),
            forall|j: int| 0 <= j < i ==> is_ws(#[trigger] line@[j]),
        decreases n - i,
    {
        i += 1;
    }
    if i == n {
        return None;
    }
    assert(!is_ws(line@[i as int]));
    let first = line.get_char(0);
    if first == '[' || first == ']' {
        return None;
    }
    let mut b: usize = n;
    proof {
        assert(line@.subrange(0, n as int) =~= line@);
    }
    while b > 0 && line.get_char(b - 1) == ','
        invariant
            b <= n,
            n == line@.len(),
            strip_commas(line@) == strip_commas(line@.subrange(0, b as int)),
        decreases b,
    {
        proof {
            let cur = line@.subrange(0, b as int);
            assert(cur.last() == line@[b - 1]);
            assert(cur.drop_last() =~= line@.subrange(0, b - 1));
        }
        b -= 1;
    }
    proof {
        let cur = line@.subrange(0, b as int);
        if b > 0 {
            assert(cur.last() == line@[b - 1]);
        }
        assert(strip_commas(cur) == cur);
    }
    Some(line.substring_char(0, b).to_owned())
}

/// What the pre-pass takes from one record: its numeric identifier and its
/// label in the configured language, when it has both.
pub open spec fn prefill_entry_spec(e: Entity, lang: Seq<char>) -> Option<(u32, Seq<char>)> {
    if crate::cache::valid_q_key(e.id@) {
        match e.labels {
            Some(labels) => match lang_lookup(labels@, lang) {
                Some(l) => Some(((crate::cache::q_key_val(e.id@) as u32), l)),
                None => None,
            },
            None => None,
        }
    } else {
        None
    }
}

/// Reads the pre-pass entry out of one record.
pub fn prefill_entry(e: &Entity, lang: &str) -> (r: Option<(u32, String)>)
    ensures
        (match r {
            Some(p) => prefill_entry_spec(*e, lang@) == Some((p.0, p.1@)),
            None => prefill_entry_spec(*e, lang@) is None,
        }),
{
    match crate::cache::parse_q_key(e.id.as_str()) {
        None => None,
        Some(id) => match &e.labels {
            None => None,
            Some(labels) => match lang_text_lookup(labels, lang) {
                None => None,
                Some(label) => Some((id, label)),
            },
        },
    }
}

/// The mapping the pre-pass builds from a scan's records, in order, later
/// records winning: a function of the scanned records and the language
/// alone.
pub open spec fn prefill_fold(records: Seq<Option<Entity>>, lang: Seq<char>) -> Map<
    u32,
    Seq<char>,
>
    decreases records.len(),
{
    if records.len() == 0 {
        Map::empty()
    } else {
        let m = prefill_fold(records.drop_last(), lang);
        match records.last() {
            None => m,
            Some(e) => match prefill_entry_spec(e, lang) {
                Some(p) => m.insert(p.0, p.1),
                None => m,
            },
        }
    }
}

/// Builds the pre-pass cache from a scan's records: lines that did not
/// parse contribute nothing, every other record its identifier and label.
pub fn build_prefill_cache(records: &Vec<Option<Entity>>, lang: &str) -> (r: LabelCache)
    ensures
        cache_entries(r) == prefill_fold(records@, lang@),
{
    let n = records.len();
    let mut m = cache_new();
    let mut i: usize = 0;
    proof {
        assert(records@.subrange(0, 0) =~= Seq::<Option<Entity>>::empty());
    }
    while i < n
        invariant
            i <= n,
            n == records@.len(),
            cache_entries(m) == prefill_fold(records@.subrange(0, i as int), lang@),
        decreases n - i,
    {
        proof {
            let pre = records@.subrange(0, i + 1);
            assert(pre.drop_last() =~= records@.subrange(0, i as int));
            assert(pre.last() == records@[i as int]);
        }
        match &records[i] {
            None => {},
            Some(e) => match prefill_entry(e, lang) {
                None => {},
                Some((id, label)) => {
                    cache_insert(&mut m, id, label);
                },
            },
        }
        i += 1;
    }
    proof {
        assert(records@.subrange(0, n as int) =~= records@);
    }
    m
}

/// Law: the pre-pass is idempotent. The mapping it builds is a function of
/// the scanned records alone, so two passes over the same records build one
/// mapping; and however each pass's entries happen to be listed when
/// persisting, both persisted files reload to exactly that mapping.
pub proof fn lemma_prepass_idempotent(
    records: Seq<Option<Entity>>,
    lang: Seq<char>,
    p1: Seq<(u32, Seq<char>)>,
    p2: Seq<(u32, Seq<char>)>,
)
    requires
        pairs_to_map(p1) == prefill_fold(records, lang),
        pairs_to_map(p2) == prefill_fold(records, lang),
    ensures
        load_numeric_spec(render_numeric(p1)) == Some(prefill_fold(records, lang)),
        load_numeric_spec(render_numeric(p1)) == load_numeric_spec(render_numeric(p2)),
{
    lemma_cache_round_trip(p1);
    lemma_cache_round_trip(p2);
}

// ----------------------------------------------------------------------------
// Laws about what a record can produce.
// ----------------------------------------------------------------------------

/// Law: a record that produces anything produces exactly one row, and the
/// row is routed to exactly one category: the one its first instance-of
/// reference resolves to in the cache, or the sentinel category.
pub proof fn lemma_single_row_single_category(
    e: Entity,
    rows: Seq<(Seq<char>, Seq<char>, Seq<char>, Seq<char>)>,
    cache: Map<u32, Seq<char>>,
    ctx: ExtractionContext,
)
    requires
        process_record_spec(e, rows, cache, ctx) is Some,
    ensures
        e.claims is Some,
        process_record_spec(e, rows, cache, ctx)->Some_0.0 == category_spec(
            instance_ids(e.claims->Some_0@),
            cache,
        ),
{
}

/// Law: a non-notable human record — classified human or fictional human by
/// its instance-of references, with no external reference page — produces
/// no row at all.
pub proof fn lemma_non_notable_human_filtered(
    e: Entity,
    rows: Seq<(Seq<char>, Seq<char>, Seq<char>, Seq<char>)>,
    cache: Map<u32, Seq<char>>,
    ctx: ExtractionContext,
)
    requires
        e.claims is Some,
        is_human_ids(instance_ids(e.claims->Some_0@)),
        !(match e.sitelink_count {
            Some(c) => c > 0,
            None => false,
        }),
    ensures
        process_record_spec(e, rows, cache, ctx) is None,
{
}

} // verus!
