use vstd::prelude::*;
use crate::utils::str_eq;

verus! {

// ----------------------------------------------------------------------------
// The entity record: one parsed input line, reduced to plain values. A
// statement's value is a tagged union; unknown or absent payloads are the
// `Unknown` variant and always decode to no value.
// ----------------------------------------------------------------------------

/// One statement's typed value.
pub enum StatementValue {
    /// A reference to another entity, by its numeric identifier.
    EntityRef { numeric_id: u64 },
    /// An external identifier, passed through.
    ExternalId { value: String },
    /// A geographic coordinate, in decimal-degree strings.
    Coordinate { latitude: String, longitude: String, altitude: Option<String> },
    /// An amount with a unit; the unit `1` is dimensionless, a unit given as
    /// an entity reference is resolved through the label cache.
    Quantity { amount: String, unit: String },
    /// Localized text, passed through.
    MonolingualText { text: String },
    /// A timestamp in the dump's fixed layout.
    Time { time: String },
    /// A plain string, passed through.
    PlainText { value: String },
    /// A media reference: intentionally dropped, never rendered.
    Media { name: String },
    /// An unknown or absent payload: no value.
    Unknown,
}

/// One claim: a property key and its ordered statements.
pub struct Claim {
    /// The property key.
    pub key: String,
    /// The statements asserted under the key, in dump order.
    pub statements: Vec<StatementValue>,
}

/// One language-tagged text.
pub struct LangText {
    /// The language code.
    pub lang: String,
    /// The text in that language.
    pub text: String,
}

/// One language-tagged list of texts.
pub struct LangList {
    /// The language code.
    pub lang: String,
    /// The texts in that language.
    pub texts: Vec<String>,
}

/// One entity record. A field the input line lacked is `None`; a record is
/// only processed when all four content fields are present.
pub struct Entity {
    /// The string identifier, e.g. `Q42`.
    pub id: String,
    /// The claims, in dump order.
    pub claims: Option<Vec<Claim>>,
    /// The labels by language.
    pub labels: Option<Vec<LangText>>,
    /// The descriptions by language.
    pub descriptions: Option<Vec<LangText>>,
    /// The aliases by language.
    pub aliases: Option<Vec<LangList>>,
    /// How many external reference pages the entity has, when the field was
    /// present at all.
    pub sitelink_count: Option<usize>,
}

// ----------------------------------------------------------------------------
// Lookups by language and property key: always the first match, as in a
// JSON object with unique keys.
// ----------------------------------------------------------------------------

/// The first text for a language.
pub open spec fn lang_lookup(items: Seq<LangText>, lang: Seq<char>) -> Option<Seq<char>>
    decreases items.len(),
{
    if items.len() == 0 {
        None
    } else if items[0].lang@ == lang {
        Some(items[0].text@)
    } else {
        lang_lookup(items.drop_first(), lang)
    }
}

/// The first text list for a language.
pub open spec fn alias_lookup(items: Seq<LangList>, lang: Seq<char>) -> Option<Seq<Seq<char>>>
    decreases items.len(),
{
    if items.len() == 0 {
        None
    } else if items[0].lang@ == lang {
        Some(items[0].texts@.map_values(|t: String| t@))
    } else {
        alias_lookup(items.drop_first(), lang)
    }
}

/// The statements of the first claim with the given key.
pub open spec fn claim_lookup(claims: Seq<Claim>, key: Seq<char>) -> Option<Seq<StatementValue>>
    decreases claims.len(),
{
    if claims.len() == 0 {
        None
    } else if claims[0].key@ == key {
        Some(claims[0].statements@)
    } else {
        claim_lookup(claims.drop_first(), key)
    }
}

/// Finds the first text for a language.
pub fn lang_text_lookup(items: &Vec<LangText>, lang: &str) -> (r: Option<String>)
    ensures
        match r {
            Some(t) => lang_lookup(items@, lang@) == Some(t@),
            None => lang_lookup(items@, lang@) is None,
        },
{
    let n = items.len();
    let mut i: usize = 0;
    proof {
        assert(items@.subrange(0, n as int) =~= items@);
    }
    while i < n
        invariant
            i <= n,
            n == items@.len(),
            lang_lookup(items@.subrange(i as int, n as int), lang@) == lang_lookup(items@, lang@),
        decreases n - i,
    {
        proof {
            assert(items@.subrange(i as int, n as int)[0] == items@[i as int]);
            assert(items@.subrange(i as int, n as int).drop_first() =~= items@.subrange(
                i + 1,
                n as int,
            ));
        }
        if str_eq(items[i].lang.as_str(), lang) {
            return Some(items[i].text.clone());
        }
        i += 1;
    }
    proof {
        assert(items@.subrange(n as int, n as int) =~= Seq::<LangText>::empty());
    }
    None
}

/// Finds the first text list for a language.
pub fn alias_list_lookup(items: &Vec<LangList>, lang: &str) -> (r: Option<Vec<String>>)
    ensures
        match r {
            Some(t) => alias_lookup(items@, lang@) == Some(crate::utils::str_views(t@)),
            None => alias_lookup(items@, lang@) is None,
        },
{
    let n = items.len();
    let mut i: usize = 0;
    proof {
        assert(items@.subrange(0, n as int) =~= items@);
    }
    while i < n
        invariant
            i <= n,
            n == items@.len(),
            alias_lookup(items@.subrange(i as int, n as int), lang@) == alias_lookup(
                items@,
                lang@,
            ),
        decreases n - i,
    {
        proof {
            assert(items@.subrange(i as int, n as int)[0] == items@[i as int]);
            assert(items@.subrange(i as int, n as int).drop_first() =~= items@.subrange(
                i + 1,
                n as int,
            ));
        }
        if str_eq(items[i].lang.as_str(), lang) {
            let texts = &items[i].texts;
            let m = texts.len();
            let mut out: Vec<String> = Vec::new();
            let mut j: usize = 0;
            while j < m
                invariant
                    j <= m,
                    m == texts@.len(),
                    crate::utils::str_views(out@) =~= texts@.map_values(|t: String| t@).subrange(
                        0,
                        j as int,
                    ),
                decreases m - j,
            {
                let ghost before = crate::utils::str_views(out@);
                out.push(texts[j].clone());
                proof {
                    assert(crate::utils::str_views(out@) =~= before.push(texts@[j as int]@));
                    assert(before.push(texts@[j as int]@) =~= texts@.map_values(
                        |t: String| t@,
                    ).subrange(0, j + 1));
                }
                j += 1;
            }
            proof {
                assert(texts@.map_values(|t: String| t@).subrange(0, m as int) =~= texts@
                    .map_values(|t: String| t@));
            }
            return Some(out);
        }
        i += 1;
    }
    proof {
        assert(items@.subrange(n as int, n as int) =~= Seq::<LangList>::empty());
    }
    None
}

/// Finds the position of the first claim with the given key.
pub fn find_claim(claims: &Vec<Claim>, key: &str) -> (r: Option<usize>)
    ensures
        match r {
            Some(i) => i < claims@.len() && claim_lookup(claims@, key@) == Some(
                claims@[i as int].statements@,
            ),
            None => claim_lookup(claims@, key@) is None,
        },
{
    let n = claims.len();
    let mut i: usize = 0;
    proof {
        assert(claims@.subrange(0, n as int) =~= claims@);
    }
    while i < n
        invariant
            i <= n,
            n == claims@.len(),
            claim_lookup(claims@.subrange(i as int, n as int), key@) == claim_lookup(
                claims@,
                key@,
            ),
        decreases n - i,
    {
        proof {
            assert(claims@.subrange(i as int, n as int)[0] == claims@[i as int]);
            assert(claims@.subrange(i as int, n as int).drop_first() =~= claims@.subrange(
                i + 1,
                n as int,
            ));
        }
        if str_eq(claims[i].key.as_str(), key) {
            return Some(i);
        }
        i += 1;
    }
    proof {
        assert(claims@.subrange(n as int, n as int) =~= Seq::<Claim>::empty());
    }
    None
}

/// The entity references among a claim's statements, in order.
pub open spec fn refs_of(sts: Seq<StatementValue>) -> Seq<u64>
    decreases sts.len(),
{
    if sts.len() == 0 {
        Seq::empty()
    } else {
        refs_of(sts.drop_last()) + (match sts.last() {
            StatementValue::EntityRef { numeric_id } => seq![numeric_id],
            _ => Seq::empty(),
        })
    }
}

/// Collects the entity references among a claim's statements.
pub fn collect_refs(sts: &Vec<StatementValue>) -> (r: Vec<u64>)
    ensures
        r@ == refs_of(sts@),
{
    let n = sts.len();
    let mut out: Vec<u64> = Vec::new();
    let mut i: usize = 0;
    proof {
        assert(sts@.subrange(0, 0) =~= Seq::<StatementValue>::empty());
    }
    while i < n
        invariant
            i <= n,
            n == sts@.len(),
            out@ == refs_of(sts@.subrange(0, i as int)),
        decreases n - i,
    {
        proof {
            let pre = sts@.subrange(0, i + 1);
            assert(pre.drop_last() =~= sts@.subrange(0, i as int));
            assert(pre.last() == sts@[i as int]);
        }
        match &sts[i] {
            StatementValue::EntityRef { numeric_id } => {
                let ghost before = out@;
                out.push(*numeric_id);
                proof {
                    assert(out@ =~= before + seq![sts@[i as int]->EntityRef_numeric_id]);
                }
            },
            _ => {
                proof {
                    assert(out@ + Seq::<u64>::empty() =~= out@);
                }
            },
        }
        i += 1;
    }
    proof {
        assert(sts@.subrange(0, n as int) =~= sts@);
    }
    out
}

} // verus!
