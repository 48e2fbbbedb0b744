use vstd::prelude::*;
use crate::codec::{
    lemma_parse_render_round_trip, pair_views, parse_kv_file, parse_kv_records, render_kv_file,
    render_kv_records,
};
use crate::utils::{all_digits, find_char, str_eq, str_views};

verus! {

// ----------------------------------------------------------------------------
// The string-keyed resolver cache and the resolver's decision logic. The
// network lookups themselves happen outside; this module decides which
// identifiers need resolving, folds fetched labels into the cache, applies
// resolved labels to a property listing, and renders and reloads the
// persisted form.
// ----------------------------------------------------------------------------

/// The mapping a listing of string pairs stands for, later entries winning.
pub open spec fn str_pairs_map(pairs: Seq<(Seq<char>, Seq<char>)>) -> Map<Seq<char>, Seq<char>>
    decreases pairs.len(),
{
    if pairs.len() == 0 {
        Map::empty()
    } else {
        str_pairs_map(pairs.drop_last()).insert(pairs.last().0, pairs.last().1)
    }
}

/// The identifier-to-label cache the resolver keeps in memory.
pub struct EntityCache {
    /// The entries, no identifier repeated.
    pub entries: Vec<(String, String)>,
}

impl EntityCache {
    /// No identifier occurs twice.
    pub open spec fn wf(&self) -> bool {
        forall|i: int, j: int|
            0 <= i < j < self.entries@.len() ==> (#[trigger] self.entries@[i]).0@ != (
            #[trigger] self.entries@[j]).0@
    }

    /// The mapping the cache holds.
    pub open spec fn view(&self) -> Map<Seq<char>, Seq<char>> {
        str_pairs_map(pair_views(self.entries@))
    }

    /// An empty cache.
    pub fn new() -> (r: Self)
        ensures
            r.wf(),
            r.view() == Map::<Seq<char>, Seq<char>>::empty(),
    {
        let r = EntityCache { entries: Vec::new() };
        proof {
            assert(pair_views(r.entries@) =~= Seq::<(Seq<char>, Seq<char>)>::empty());
        }
        r
    }

    /// The label of an identifier, if the cache holds one.
    pub fn get(&self, id: &str) -> (r: Option<String>)
        requires
            self.wf(),
        ensures
            match r {
                Some(v) => self.view().dom().contains(id@) && v@ == self.view()[id@],
                None => !self.view().dom().contains(id@),
            },
    {
        let n = self.entries.len();
        let mut i: usize = 0;
        while i < n
            invariant
                i <= n,
                n == self.entries@.len(),
                self.wf(),
                forall|j: int| 0 <= j < i ==> (#[trigger] self.entries@[j]).0@ != id@,
            decreases n - i,
        {
            if str_eq(self.entries[i].0.as_str(), id) {
                proof {
                    lemma_str_pairs_found(pair_views(self.entries@), i as int);
                }
                return Some(self.entries[i].1.clone());
            }
            i += 1;
        }
        proof {
            lemma_str_pairs_absent(pair_views(self.entries@), id@);
        }
        None
    }

    /// Maps an identifier to a label, replacing any earlier label.
    pub fn insert(&mut self, id: String, label: String)
        requires
            old(self).wf(),
        ensures
            final(self).wf(),
            final(self).view() == old(self).view().insert(id@, label@),
    {
        let n = self.entries.len();
        let mut i: usize = 0;
        while i < n
            invariant
                i <= n,
                n == self.entries@.len(),
                self.wf(),
                self == old(self),
                forall|j: int| 0 <= j < i ==> (#[trigger] self.entries@[j]).0@ != id@,
            decreases n - i,
        {
            if str_eq(self.entries[i].0.as_str(), id.as_str()) {
                let ghost before = pair_views(self.entries@);
                self.entries.set(i, (id, label));
                proof {
                    assert(pair_views(self.entries@) =~= before.update(
                        i as int,
                        (before[i as int].0, pair_views(self.entries@)[i as int].1),
                    ));
                    lemma_str_pairs_update(before, i as int, pair_views(self.entries@)[i as int].1);
                }
                return;
            }
            i += 1;
        }
        let ghost before = pair_views(self.entries@);
        self.entries.push((id, label));
        proof {
            assert(pair_views(self.entries@).drop_last() =~= before);
            assert(pair_views(self.entries@).last() == pair_views(self.entries@)[n as int]);
        }
    }

    /// Reads a persisted cache file back into a cache; an unreadable file
    /// yields an empty cache, as a prior run's absence would.
    pub fn load_from_csv(content: &str) -> (r: EntityCache)
        ensures
            r.wf(),
            r.view() == load_resolver_spec(content@),
    {
        match parse_kv_file(content, ',') {
            Err(_) => EntityCache::new(),
            Ok(recs) => {
                let n = recs.len();
                let mut cache = EntityCache::new();
                let mut i: usize = 0;
                while i < n
                    invariant
                        i <= n,
                        n == recs@.len(),
                        cache.wf(),
                        cache.view() == str_pairs_map(pair_views(recs@).subrange(0, i as int)),
                    decreases n - i,
                {
                    proof {
                        let pv = pair_views(recs@);
                        assert(pv.subrange(0, i + 1).drop_last() =~= pv.subrange(0, i as int));
                        assert(pv.subrange(0, i + 1).last() == pv[i as int]);
                    }
                    let id = recs[i].0.clone();
                    let label = recs[i].1.clone();
                    cache.insert(id, label);
                    i += 1;
                }
                proof {
                    assert(pair_views(recs@).subrange(0, n as int) =~= pair_views(recs@));
                }
                cache
            },
        }
    }

    /// Renders the cache into its persisted two-column form.
    pub fn save_to_csv(&self) -> (r: String)
        ensures
            r@ == render_kv_records(pair_views(self.entries@), ','),
            load_resolver_spec(r@) == self.view(),
    {
        let out = render_kv_file(&self.entries, ',');
        proof {
            lemma_parse_render_round_trip(pair_views(self.entries@), ',');
        }
        out
    }
}

/// What a persisted resolver file means: the mapping of its records, or an
/// empty mapping when it is unreadable.
pub open spec fn load_resolver_spec(content: Seq<char>) -> Map<Seq<char>, Seq<char>> {
    match parse_kv_records(content, ',') {
        None => Map::empty(),
        Some(recs) => str_pairs_map(recs),
    }
}

/// An entry of a pair listing with no later entry for its key indexes the
/// listing's mapping.
proof fn lemma_str_pairs_found(pairs: Seq<(Seq<char>, Seq<char>)>, i: int)
    requires
        0 <= i < pairs.len(),
        forall|j: int| i < j < pairs.len() ==> (#[trigger] pairs[j]).0 != pairs[i].0,
    ensures
        str_pairs_map(pairs).dom().contains(pairs[i].0),
        str_pairs_map(pairs)[pairs[i].0] == pairs[i].1,
    decreases pairs.len(),
{
    if i == pairs.len() - 1 {
    } else {
        assert(pairs.drop_last()[i] == pairs[i]);
        lemma_str_pairs_found(pairs.drop_last(), i);
        assert(pairs.last().0 != pairs[i].0);
    }
}

/// A key no entry holds is not in the listing's mapping.
proof fn lemma_str_pairs_absent(pairs: Seq<(Seq<char>, Seq<char>)>, k: Seq<char>)
    requires
        forall|j: int| 0 <= j < pairs.len() ==> (#[trigger] pairs[j]).0 != k,
    ensures
        !str_pairs_map(pairs).dom().contains(k),
    decreases pairs.len(),
{
    if pairs.len() > 0 {
        assert(forall|j: int|
            0 <= j < pairs.drop_last().len() ==> (#[trigger] pairs.drop_last()[j]).0 != k);
        lemma_str_pairs_absent(pairs.drop_last(), k);
    }
}

/// Replacing the value at an entry whose key occurs once replaces it in the
/// listing's mapping.
proof fn lemma_str_pairs_update(pairs: Seq<(Seq<char>, Seq<char>)>, i: int, v: Seq<char>)
    requires
        0 <= i < pairs.len(),
        forall|j: int, l: int|
            0 <= j < l < pairs.len() ==> (#[trigger] pairs[j]).0 != (#[trigger] pairs[l]).0,
    ensures
        str_pairs_map(pairs.update(i, (pairs[i].0, v))) == str_pairs_map(pairs).insert(
            pairs[i].0,
            v,
        ),
    decreases pairs.len(),
{
    let up = pairs.update(i, (pairs[i].0, v));
    if i == pairs.len() - 1 {
        assert(up.drop_last() =~= pairs.drop_last());
        assert(up.last() == (pairs[i].0, v));
    } else {
        assert(up.drop_last() =~= pairs.drop_last().update(i, (pairs[i].0, v)));
        assert(pairs.drop_last()[i] == pairs[i]);
        lemma_str_pairs_update(pairs.drop_last(), i, v);
        assert(up.last() == pairs.last());
        assert(pairs.last().0 != pairs[i].0);
        assert(str_pairs_map(pairs.drop_last()).insert(pairs[i].0, v).insert(
            pairs.last().0,
            pairs.last().1,
        ) =~= str_pairs_map(pairs.drop_last()).insert(pairs.last().0, pairs.last().1).insert(
            pairs[i].0,
            v,
        ));
    }
}

// ----------------------------------------------------------------------------
// The resolver itself.
// ----------------------------------------------------------------------------

/// The base identifier of a property value: everything before the first
/// `$`, or the whole value.
pub open spec fn base_of(v: Seq<char>) -> Seq<char> {
    let k = find_char(v, '$');
    if 0 <= k < v.len() {
        v.subrange(0, k)
    } else {
        v
    }
}

/// Whether a base identifier has the entity shape: `Q` followed by digits.
pub open spec fn is_q_id(v: Seq<char>) -> bool {
    v.len() > 1 && v[0] == 'Q' && all_digits(v.subrange(1, v.len() as int))
}

/// How many cache updates pass between two persistences of the cache.
pub open spec fn save_period() -> int {
    100
}

/// The resolver: the shared cache, where it persists to, the lookup
/// service's address, and the configured languages.
pub struct EntityResolver {
    /// The identifier-to-label cache.
    pub cache: EntityCache,
    /// The path the cache persists to.
    pub cache_file_path: String,
    /// How many batch updates the cache has received.
    pub save_counter: u64,
    /// The lookup service's address.
    pub api_base_url: String,
    /// The configured language.
    pub language: String,
    /// The languages requested from the lookup service: the configured
    /// language, with English appended as the fallback when it is not
    /// already English.
    pub languages: String,
}

impl EntityResolver {
    /// A resolver over a cache reloaded from the persisted content the
    /// caller read, or over an empty cache when there was none.
    pub fn new(cache_file_path: String, api_base_url: String, language: &str, persisted: Option<
        &str,
    >) -> (r: Self)
        ensures
            r.cache.wf(),
            r.cache.view() == (match persisted {
                Some(c) => load_resolver_spec(c@),
                None => Map::<Seq<char>, Seq<char>>::empty(),
            }),
            r.save_counter == 0,
            r.language@ == language@,
            r.languages@ == (if language@ == "en"@ {
                "en"@
            } else {
                language@ + ","@ + "en"@
            }),
    {
        let cache = match persisted {
            Some(c) => EntityCache::load_from_csv(c),
            None => EntityCache::new(),
        };
        let languages = if str_eq(language, "en") {
            "en".to_owned()
        } else {
            let mut l = language.to_owned();
            l.append(",");
            l.append("en");
            l
        };
        EntityResolver {
            cache,
            cache_file_path,
            save_counter: 0,
            api_base_url,
            language: language.to_owned(),
            languages,
        }
    }

    /// The cached label of an identifier, without blocking other readers.
    pub fn get_cached_label(&self, id: &str) -> (r: Option<String>)
        requires
            self.cache.wf(),
        ensures
            match r {
                Some(v) => self.cache.view().dom().contains(id@) && v@ == self.cache.view()[id@],
                None => !self.cache.view().dom().contains(id@),
            },
    {
        self.cache.get(id)
    }

    /// The base identifiers among the property values that have the entity
    /// shape and are not in the cache yet, each once.
    pub fn ids_needing_resolution(&self, properties: &Vec<(String, String)>) -> (r: Vec<String>)
        requires
            self.cache.wf(),
        ensures
            forall|x: Seq<char>|
                #[trigger] str_views(r@).contains(x) <==> ((exists|j: int|
                    0 <= j < properties@.len() && base_of(
                        (#[trigger] properties@[j]).1@,
                    ) == x) && is_q_id(x) && !self.cache.view().dom().contains(x)),
    {
        let n = properties.len();
        let mut out: Vec<String> = Vec::new();
        let mut i: usize = 0;
        while i < n
            invariant
                i <= n,
                n == properties@.len(),
                self.cache.wf(),
                forall|x: Seq<char>|
                    #[trigger] str_views(out@).contains(x) <==> ((exists|j: int|
                        0 <= j < i && base_of((#[trigger] properties@[j]).1@) == x) && is_q_id(x)
                        && !self.cache.view().dom().contains(x)),
            decreases n - i,
        {
            let value = &properties[i].1;
            let base = base_id_of(value.as_str());
            let keep = is_q_id_exec(base.as_str()) && match self.cache.get(base.as_str()) {
                Some(_) => false,
                None => true,
            };
            if keep && !crate::utils::str_in_vec(&out, base.as_str()) {
                let ghost before = str_views(out@);
                let ghost basev = base@;
                out.push(base);
                proof {
                    assert(str_views(out@) =~= before.push(basev));
                    assert forall|x: Seq<char>| #[trigger] str_views(out@).contains(x) implies ((
                    exists|j: int|
                        0 <= j < i + 1 && base_of((#[trigger] properties@[j]).1@) == x) && is_q_id(
                        x,
                    ) && !self.cache.view().dom().contains(x)) by {
                        if x == basev {
                            assert(base_of(properties@[i as int].1@) == x);
                        } else {
                            assert(before.contains(x));
                        }
                    }
                    assert forall|x: Seq<char>|
                        ((exists|j: int|
                            0 <= j < i + 1 && base_of((#[trigger] properties@[j]).1@) == x)
                            && is_q_id(x) && !self.cache.view().dom().contains(
                            x,
                        )) implies #[trigger] str_views(out@).contains(x) by {
                        if x == basev {
                            assert(str_views(out@)[str_views(out@).len() - 1] == basev);
                        } else {
                            let j = choose|j: int|
                                0 <= j < i + 1 && base_of((#[trigger] properties@[j]).1@) == x;
                            assert(0 <= j < i && base_of(properties@[j].1@) == x);
                            assert(before.contains(x));
                            let l = choose|l: int| 0 <= l < before.len() && before[l] == x;
                            assert(str_views(out@)[l] == x);
                        }
                    }
                }
            } else {
                proof {
                    assert forall|x: Seq<char>|
                        ((exists|j: int|
                            0 <= j < i + 1 && base_of((#[trigger] properties@[j]).1@) == x)
                            && is_q_id(x) && !self.cache.view().dom().contains(
                            x,
                        )) implies #[trigger] str_views(out@).contains(x) by {
                        let j = choose|j: int|
                            0 <= j < i + 1 && base_of((#[trigger] properties@[j]).1@) == x;
                        if j == i {
                            assert(x == base@);
                            assert(str_views(out@).contains(x));
                        } else {
                            assert(str_views(out@).contains(x));
                        }
                    }
                }
            }
            i += 1;
        }
        out
    }

    /// Folds one batch of fetched labels into the cache and advances the
    /// persistence counter; the result says whether this update is one the
    /// periodic-persistence policy writes to disk.
    pub fn batch_update_cache(&mut self, labels: &Vec<(String, String)>) -> (persist: bool)
        requires
            old(self).cache.wf(),
            old(self).save_counter < u64::MAX,
        ensures
            final(self).cache.wf(),
            final(self).cache.view() == fold_labels(
                old(self).cache.view(),
                pair_views(labels@),
            ),
            final(self).save_counter == old(self).save_counter + 1,
            persist == (final(self).save_counter as int % save_period() == 0),
            final(self).cache_file_path == old(self).cache_file_path,
            final(self).language == old(self).language,
            final(self).languages == old(self).languages,
            final(self).api_base_url == old(self).api_base_url,
    {
        let n = labels.len();
        let mut i: usize = 0;
        proof {
            assert(pair_views(labels@).subrange(0, 0) =~= Seq::<(Seq<char>, Seq<char>)>::empty());
        }
        while i < n
            invariant
                i <= n,
                n == labels@.len(),
                self.cache.wf(),
                self.cache.view() == fold_labels(
                    old(self).cache.view(),
                    pair_views(labels@).subrange(0, i as int),
                ),
                self.save_counter == old(self).save_counter,
                self.cache_file_path == old(self).cache_file_path,
                self.language == old(self).language,
                self.languages == old(self).languages,
                self.api_base_url == old(self).api_base_url,
            decreases n - i,
        {
            proof {
                let pv = pair_views(labels@);
                assert(pv.subrange(0, i + 1).drop_last() =~= pv.subrange(0, i as int));
                assert(pv.subrange(0, i + 1).last() == pv[i as int]);
            }
            let id = labels[i].0.clone();
            let label = labels[i].1.clone();
            self.cache.insert(id, label);
            i += 1;
        }
        proof {
            assert(pair_views(labels@).subrange(0, n as int) =~= pair_views(labels@));
        }
        self.save_counter = self.save_counter + 1;
        self.save_counter % 100 == 0
    }

    /// Replaces property values whose base identifier the cache resolves:
    /// a resolved non-empty label replaces the value, a resolved empty
    /// label drops the property entirely, and an unresolved value stays.
    pub fn resolve_entity_ids(&self, properties: &Vec<(String, String)>) -> (r: Vec<
        (String, String),
    >)
        requires
            self.cache.wf(),
        ensures
            pair_views(r@) == apply_resolved_spec(self.cache.view(), pair_views(properties@)),
    {
        let n = properties.len();
        let mut out: Vec<(String, String)> = Vec::new();
        let mut i: usize = 0;
        proof {
            assert(pair_views(properties@).subrange(0, 0) =~= Seq::<
                (Seq<char>, Seq<char>),
            >::empty());
            assert(pair_views(out@) =~= Seq::<(Seq<char>, Seq<char>)>::empty());
        }
        while i < n
            invariant
                i <= n,
                n == properties@.len(),
                self.cache.wf(),
                pair_views(out@) == apply_resolved_spec(
                    self.cache.view(),
                    pair_views(properties@).subrange(0, i as int),
                ),
            decreases n - i,
        {
            proof {
                let pv = pair_views(properties@);
                assert(pv.subrange(0, i + 1).drop_last() =~= pv.subrange(0, i as int));
                assert(pv.subrange(0, i + 1).last() == pv[i as int]);
            }
            let key = properties[i].0.clone();
            let value = &properties[i].1;
            let base = base_id_of(value.as_str());
            let ghost before = pair_views(out@);
            match self.cache.get(base.as_str()) {
                Some(label) => {
                    if !label.as_str().is_empty() {
                        let ghost kv = (key@, label@);
                        out.push((key, label));
                        proof {
                            assert(pair_views(out@) =~= before + seq![kv]);
                        }
                    } else {
                        proof {
                            assert(pair_views(out@) + Seq::<(Seq<char>, Seq<char>)>::empty()
                                =~= pair_views(out@));
                        }
                    }
                },
                None => {
                    let ghost kv = (key@, value@);
                    out.push((key, value.clone()));
                    proof {
                        assert(pair_views(out@) =~= before + seq![kv]);
                    }
                },
            }
            i += 1;
        }
        proof {
            assert(pair_views(properties@).subrange(0, n as int) =~= pair_views(properties@));
        }
        out
    }
}

/// The label a fetched entity contributes: the configured language first,
/// the secondary language as the fallback, and the empty label when neither
/// is present — the empty label later drops the referencing property from
/// output rather than rendering empty text.
pub open spec fn select_label_spec(primary: Option<Seq<char>>, secondary: Option<Seq<char>>) -> Seq<
    char,
> {
    match primary {
        Some(p) => p,
        None => match secondary {
            Some(s) => s,
            None => Seq::empty(),
        },
    }
}

/// Picks the label to cache for a fetched entity.
pub fn select_label(primary: Option<String>, secondary: Option<String>) -> (r: String)
    ensures
        r@ == select_label_spec(
            (match primary {
                Some(p) => Some(p@),
                None => None,
            }),
            (match secondary {
                Some(s) => Some(s@),
                None => None,
            }),
        ),
{
    match primary {
        Some(p) => p,
        None => match secondary {
            Some(s) => s,
            None => String::new(),
        },
    }
}

/// A batch of labels folded into a mapping, in order, later entries
/// winning.
pub open spec fn fold_labels(
    base: Map<Seq<char>, Seq<char>>,
    labels: Seq<(Seq<char>, Seq<char>)>,
) -> Map<Seq<char>, Seq<char>>
    decreases labels.len(),
{
    if labels.len() == 0 {
        base
    } else {
        fold_labels(base, labels.drop_last()).insert(labels.last().0, labels.last().1)
    }
}

/// What applying the cache to a property listing yields, property by
/// property.
pub open spec fn apply_resolved_spec(
    cache: Map<Seq<char>, Seq<char>>,
    props: Seq<(Seq<char>, Seq<char>)>,
) -> Seq<(Seq<char>, Seq<char>)>
    decreases props.len(),
{
    if props.len() == 0 {
        Seq::empty()
    } else {
        let rest = apply_resolved_spec(cache, props.drop_last());
        let p = props.last();
        let b = base_of(p.1);
        if cache.dom().contains(b) {
            if cache[b].len() > 0 {
                rest + seq![(p.0, cache[b])]
            } else {
                rest
            }
        } else {
            rest + seq![p]
        }
    }
}

/// The base identifier of a property value: everything before the first
/// `$`.
pub fn base_id_of(v: &str) -> (r: String)
    ensures
        r@ == base_of(v@),
{
    let n = v.unicode_len();
    let mut i: usize = 0;
    while i < n && v.get_char(i) != '$'
        invariant
            i <= n,
            n == v@.len(),
            forall|j: int| 0 <= j < i ==> v@[j] != '$',
        decreases n - i,
    {
        i += 1;
    }
    proof {
        if i < n {
            crate::utils::lemma_find_char_at(v@, '$', i as int);
        } else {
            crate::utils::lemma_find_char_none(v@, '$');
        }
    }
    if i < n {
        v.substring_char(0, i).to_owned()
    } else {
        proof {
            assert(v@.subrange(0, n as int) =~= v@);
        }
        v.to_owned()
    }
}

/// Whether a base identifier has the entity shape.
pub fn is_q_id_exec(v: &str) -> (r: bool)
    ensures
        r == is_q_id(v@),
{
    let n = v.unicode_len();
    if n <= 1 || v.get_char(0) != 'Q' {
        return false;
    }
    let mut i: usize = 1;
    while i < n
        invariant
            1 <= i <= n,
            n == v@.len(),
            all_digits(v@.subrange(1, i as int)),
        decreases n - i,
    {
        match crate::utils::char_digit_exec(v.get_char(i)) {
            None => {
                proof {
                    assert(v@.subrange(1, n as int)[i - 1] == v@[i as int]);
                }
                return false;
            },
            Some(_) => {
                proof {
                    let pre = v@.subrange(1, i + 1);
                    assert(pre.drop_last() =~= v@.subrange(1, i as int));
                    assert(pre.last() == v@[i as int]);
                }
                i += 1;
            },
        }
    }
    proof {
        assert(v@.subrange(1, i as int) =~= v@.subrange(1, n as int));
    }
    true
}

} // verus!
