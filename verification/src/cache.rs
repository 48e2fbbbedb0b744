use vstd::prelude::*;
use crate::codec::{
    lemma_parse_render_round_trip, pair_views, parse_kv_file, parse_kv_records, render_kv_file,
    render_kv_records,
};
use crate::processing_error::ProcessingError;
use crate::utils::{
    all_digits, char_digit_exec, dec_digits, digits_val, lemma_dec_digits_val,
    lemma_digits_prefix_le, push_char, push_dec_digits,
};
use dashmap::DashMap;

verus! {

// ----------------------------------------------------------------------------
// The label cache: a concurrent map from numeric entity identifier to the
// display label in the configured language. The map itself comes from the
// dashmap crate; the contracts below speak of its contents through
// `cache_entries`.
// ----------------------------------------------------------------------------

#[verifier::external_type_specification]
#[verifier::external_body]
#[verifier::reject_recursive_types(K)]
#[verifier::reject_recursive_types(V)]
#[verifier::reject_recursive_types(S)]
pub struct ExDashMap<K, V, S>(DashMap<K, V, S>);

/// The concurrent identifier-to-label map the run shares.
pub type LabelCache = DashMap<u32, String>;

/// What the label cache holds: its identifier-to-label mapping.
pub uninterp spec fn cache_entries(m: LabelCache) -> Map<u32, Seq<char>>;

/// The mapping of a cache with nothing in it.
pub open spec fn no_entries() -> Map<u32, Seq<char>> {
    Map::empty()
}

/// Relies on DashMap::new: creates an empty map.
#[verifier::external_body]
pub fn cache_new() -> (r: LabelCache)
    ensures
        cache_entries(r) == no_entries(),
{
    DashMap::new()
}

/// Relies on DashMap::insert: maps the key to the value, replacing any
/// earlier value for that key.
#[verifier::external_body]
pub fn cache_insert(m: &mut LabelCache, key: u32, value: String)
    ensures
        cache_entries(*final(m)) == cache_entries(*old(m)).insert(key, value@),
{
    m.insert(key, value);
}

/// Relies on DashMap::get: returns the value mapped to the key, if any.
#[verifier::external_body]
pub fn cache_get(m: &LabelCache, key: u32) -> (r: Option<String>)
    ensures
        match r {
            Some(v) => cache_entries(*m).dom().contains(key) && v@ == cache_entries(*m)[key],
            None => !cache_entries(*m).dom().contains(key),
        },
{
    m.get(&key).map(|e| e.value().clone())
}

/// A sequence of identifier-label pairs with no identifier repeated.
pub open spec fn unique_keys(pairs: Seq<(u32, Seq<char>)>) -> bool {
    forall|i: int, j: int| 0 <= i < j < pairs.len() ==> (#[trigger] pairs[i]).0 != (
    #[trigger] pairs[j]).0
}

/// The mapping a pair listing stands for, later entries winning.
pub open spec fn pairs_to_map(pairs: Seq<(u32, Seq<char>)>) -> Map<u32, Seq<char>>
    decreases pairs.len(),
{
    if pairs.len() == 0 {
        Map::empty()
    } else {
        pairs_to_map(pairs.drop_last()).insert(pairs.last().0, pairs.last().1)
    }
}

/// The views of a sequence of identifier-label pairs.
pub open spec fn num_pair_views(pairs: Seq<(u32, String)>) -> Seq<(u32, Seq<char>)> {
    pairs.map_values(|p: (u32, String)| (p.0, p.1@))
}

/// Relies on DashMap::iter: yields each entry of the map exactly once, in no
/// promised order.
#[verifier::external_body]
pub fn cache_pairs(m: &LabelCache) -> (r: Vec<(u32, String)>)
    ensures
        unique_keys(num_pair_views(r@)),
        pairs_to_map(num_pair_views(r@)) == cache_entries(*m),
{
    m.iter().map(|e| (*e.key(), e.value().clone())).collect()
}

// ----------------------------------------------------------------------------
// The persisted form: one `Q<number>,<label>` record per entry.
// ----------------------------------------------------------------------------

/// A well-formed persisted cache key: `Q` followed by decimal digits whose
/// value fits an identifier.
pub open spec fn valid_q_key(k: Seq<char>) -> bool {
    k.len() >= 2 && k[0] == 'Q' && all_digits(k.subrange(1, k.len() as int)) && digits_val(
        k.subrange(1, k.len() as int),
    ) < 0x1_0000_0000
}

/// The identifier a well-formed persisted key denotes.
pub open spec fn q_key_val(k: Seq<char>) -> nat {
    digits_val(k.subrange(1, k.len() as int))
}

/// The persisted key for an identifier.
pub open spec fn q_key_of(id: u32) -> Seq<char> {
    seq!['Q'] + dec_digits(id as nat)
}

/// The mapping a parsed cache file stands for: records with a well-formed
/// key land in the map, later records winning; other records are skipped.
pub open spec fn numeric_fold(recs: Seq<(Seq<char>, Seq<char>)>) -> Map<u32, Seq<char>>
    decreases recs.len(),
{
    if recs.len() == 0 {
        Map::empty()
    } else {
        let m = numeric_fold(recs.drop_last());
        if valid_q_key(recs.last().0) {
            m.insert(q_key_val(recs.last().0) as u32, recs.last().1)
        } else {
            m
        }
    }
}

/// What a persisted cache file means: nothing when it is structurally
/// unreadable, else the mapping of its well-keyed records.
pub open spec fn load_numeric_spec(content: Seq<char>) -> Option<Map<u32, Seq<char>>> {
    match parse_kv_records(content, ',') {
        None => None,
        Some(recs) => Some(numeric_fold(recs)),
    }
}

/// Reads an identifier out of a persisted cache key.
pub fn parse_q_key(k: &str) -> (r: Option<u32>)
    ensures
        match r {
            Some(id) => valid_q_key(k@) && id == q_key_val(k@),
            None => !valid_q_key(k@),
        },
{
    let n = k.unicode_len();
    if n < 2 || k.get_char(0) != 'Q' {
        return None;
    }
    let mut val: u64 = 0;
    let mut i: usize = 1;
    while i < n
        invariant
            1 <= i <= n,
            2 <= n,
            n == k@.len(),
            k@[0] == 'Q',
            all_digits(k@.subrange(1, i as int)),
            val == digits_val(k@.subrange(1, i as int)),
            val < 0x1_0000_0000,
        decreases n - i,
    {
        let c = k.get_char(i);
        match char_digit_exec(c) {
            None => {
                proof {
                    assert(k@.subrange(1, n as int)[i - 1] == k@[i as int]);
                }
                return None;
            },
            Some(d) => {
                val = val * 10 + d;
                proof {
                    let pre = k@.subrange(1, i + 1);
                    assert(pre.drop_last() =~= k@.subrange(1, i as int));
                    assert(pre.last() == k@[i as int]);
                }
                if val >= 0x1_0000_0000 {
                    proof {
                        let whole = k@.subrange(1, n as int);
                        assert(whole.subrange(0, i as int) =~= k@.subrange(1, i + 1));
                        lemma_digits_prefix_le(whole, i as int);
                    }
                    return None;
                }
                i += 1;
            },
        }
    }
    proof {
        assert(k@.subrange(1, i as int) =~= k@.subrange(1, n as int));
    }
    Some(val as u32)
}

/// A rendered key is well-formed and denotes the identifier it came from.
proof fn lemma_q_key_round_trip(id: u32)
    ensures
        valid_q_key(q_key_of(id)),
        q_key_val(q_key_of(id)) == id,
{
    lemma_dec_digits_val(id as nat);
    let k = q_key_of(id);
    assert(k.subrange(1, k.len() as int) =~= dec_digits(id as nat));
}

/// Renders the persisted key of an identifier.
pub fn render_q_key(id: u32) -> (r: String)
    ensures
        r@ == q_key_of(id),
{
    let mut r = String::new();
    push_char(&mut r, 'Q');
    push_dec_digits(id as u64, &mut r);
    assert(r@ =~= q_key_of(id));
    r
}

/// Folding the rendered key forms of a pair listing gives the listing's own
/// mapping back.
proof fn lemma_numeric_fold_of_rendered(
    pairs: Seq<(u32, Seq<char>)>,
    recs: Seq<(Seq<char>, Seq<char>)>,
)
    requires
        recs.len() == pairs.len(),
        forall|j: int|
            0 <= j < pairs.len() ==> (#[trigger] recs[j]).0 == q_key_of(pairs[j].0) && recs[j].1
                == pairs[j].1,
    ensures
        numeric_fold(recs) == pairs_to_map(pairs),
    decreases pairs.len(),
{
    if pairs.len() > 0 {
        lemma_numeric_fold_of_rendered(pairs.drop_last(), recs.drop_last());
        lemma_q_key_round_trip(pairs.last().0);
        assert(recs.last().0 == q_key_of(pairs.last().0));
    }
}

// ----------------------------------------------------------------------------
// Persisting and reloading the cache.
// ----------------------------------------------------------------------------

/// Renders the whole cache into the persisted two-column form. The entry
/// order is whatever the underlying map yields; what the rendered text means
/// is pinned exactly: it reloads to this cache's mapping.
pub fn save_cache(m: &LabelCache) -> (r: String)
    ensures
        load_numeric_spec(r@) == Some(cache_entries(*m)),
{
    let pairs = cache_pairs(m);
    let n = pairs.len();
    let mut spairs: Vec<(String, String)> = Vec::new();
    let mut i: usize = 0;
    while i < n
        invariant
            i <= n,
            n == pairs@.len(),
            spairs@.len() == i,
            forall|j: int|
                0 <= j < i ==> (#[trigger] spairs@[j]).0@ == q_key_of(pairs@[j].0)
                    && spairs@[j].1@ == pairs@[j].1@,
        decreases n - i,
    {
        let key = render_q_key(pairs[i].0);
        spairs.push((key, pairs[i].1.clone()));
        i += 1;
    }
    let content = render_kv_file(&spairs, ',');
    proof {
        lemma_parse_render_round_trip(pair_views(spairs@), ',');
        assert(pair_views(spairs@).len() == num_pair_views(pairs@).len());
        assert(forall|j: int|
            0 <= j < pairs@.len() ==> (#[trigger] pair_views(spairs@)[j]).0 == q_key_of(
                num_pair_views(pairs@)[j].0,
            ) && pair_views(spairs@)[j].1 == num_pair_views(pairs@)[j].1);
        lemma_numeric_fold_of_rendered(num_pair_views(pairs@), pair_views(spairs@));
    }
    content
}

/// Reads a persisted cache file back into a cache: records with a
/// well-formed `Q<number>` key are inserted, later records winning; other
/// records are skipped; a structurally unreadable file is an error.
pub fn load_cache(content: &str) -> (r: Result<LabelCache, ProcessingError>)
    ensures
        match r {
            Ok(m) => load_numeric_spec(content@) == Some(cache_entries(m)),
            Err(_) => load_numeric_spec(content@) is None,
        },
{
    match parse_kv_file(content, ',') {
        Err(e) => Err(e),
        Ok(recs) => {
            let n = recs.len();
            let mut m = cache_new();
            let mut i: usize = 0;
            while i < n
                invariant
                    i <= n,
                    n == recs@.len(),
                    cache_entries(m) == numeric_fold(pair_views(recs@).subrange(0, i as int)),
                decreases n - i,
            {
                let ghost pre = pair_views(recs@).subrange(0, i + 1);
                proof {
                    assert(pre.drop_last() =~= pair_views(recs@).subrange(0, i as int));
                    assert(pre.last() == pair_views(recs@)[i as int]);
                }
                match parse_q_key(recs[i].0.as_str()) {
                    Some(id) => {
                        let label = recs[i].1.clone();
                        cache_insert(&mut m, id, label);
                    },
                    None => {},
                }
                i += 1;
            }
            proof {
                assert(pair_views(recs@).subrange(0, n as int) =~= pair_views(recs@));
            }
            Ok(m)
        },
    }
}

// ----------------------------------------------------------------------------
// Laws about the persisted form.
// ----------------------------------------------------------------------------

/// The rendered form of a cache listing.
pub open spec fn render_numeric(pairs: Seq<(u32, Seq<char>)>) -> Seq<char> {
    render_kv_records(pairs.map_values(|p: (u32, Seq<char>)| (q_key_of(p.0), p.1)), ',')
}

/// Law: persisting a cache listing and reloading it yields exactly the
/// mapping the listing stands for, whatever order its entries were
/// listed in.
pub proof fn lemma_cache_round_trip(pairs: Seq<(u32, Seq<char>)>)
    ensures
        load_numeric_spec(render_numeric(pairs)) == Some(pairs_to_map(pairs)),
{
    let recs = pairs.map_values(|p: (u32, Seq<char>)| (q_key_of(p.0), p.1));
    lemma_parse_render_round_trip(recs, ',');
    lemma_numeric_fold_of_rendered(pairs, recs);
}

/// Law: rebuilding and re-persisting the same mapping gives a file with the
/// same meaning: two renderings whose listings stand for one mapping reload
/// to one and the same mapping, so re-running the pre-pass can reorder the
/// persisted rows but never changes what they say.
pub proof fn lemma_cache_rewrite_equivalent(p1: Seq<(u32, Seq<char>)>, p2: Seq<(u32, Seq<char>)>)
    requires
        pairs_to_map(p1) == pairs_to_map(p2),
    ensures
        load_numeric_spec(render_numeric(p1)) == load_numeric_spec(render_numeric(p2)),
{
    lemma_cache_round_trip(p1);
    lemma_cache_round_trip(p2);
}

} // verus!
