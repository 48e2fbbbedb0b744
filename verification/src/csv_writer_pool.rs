use vstd::prelude::*;
use crate::codec::{append_3line, render_3line, render_3records};
use crate::utils::{lower_seq, lowercase_all, push_char, str_eq, suffix_of};

verus! {

// ----------------------------------------------------------------------------
// The category-keyed output writer pool. Each category owns one sink,
// created on first use; rows accumulate per sink and `flush_all` renders
// every sink's full file: a fixed header and one semicolon-delimited row
// per record.
// ----------------------------------------------------------------------------

/// A character a sanitized file name may keep.
pub open spec fn keep_char(c: char) -> bool {
    ('a' <= c && c <= 'z') || ('0' <= c && c <= '9')
}

/// Runs of characters a file name cannot keep, collapsed to single
/// underscores, left to right; `prev_sep` says whether a run is already
/// open.
pub open spec fn collapse_from(s: Seq<char>, prev_sep: bool) -> Seq<char>
    decreases s.len(),
{
    if s.len() == 0 {
        Seq::empty()
    } else if keep_char(s[0]) {
        seq![s[0]] + collapse_from(s.drop_first(), false)
    } else if prev_sep {
        collapse_from(s.drop_first(), true)
    } else {
        seq!['_'] + collapse_from(s.drop_first(), true)
    }
}

/// Leading underscores removed.
pub open spec fn trim_front(s: Seq<char>) -> Seq<char>
    decreases s.len(),
{
    if s.len() > 0 && s[0] == '_' {
        trim_front(s.drop_first())
    } else {
        s
    }
}

/// Trailing underscores removed.
pub open spec fn trim_back(s: Seq<char>) -> Seq<char>
    decreases s.len(),
{
    if s.len() > 0 && s.last() == '_' {
        trim_back(s.drop_last())
    } else {
        s
    }
}

/// The sanitized file stem of a category label: lowercased character by
/// character, runs outside `a-z0-9` collapsed to single underscores, and
/// underscores trimmed from both ends.
pub open spec fn sanitize_spec(category: Seq<char>) -> Seq<char> {
    trim_back(trim_front(collapse_from(lower_seq(category), false)))
}

fn keep_char_exec(c: char) -> (r: bool)
    ensures
        r == keep_char(c),
{
    ('a' <= c && c <= 'z') || ('0' <= c && c <= '9')
}

/// Sanitizes a category label into a file stem.
pub fn sanitize_filename(category: &str) -> (r: String)
    ensures
        r@ == sanitize_spec(category@),
{
    let lowered = lowercase_all(category);
    let n = lowered.as_str().unicode_len();
    let mut collapsed = String::new();
    let mut prev_sep = false;
    let mut i: usize = 0;
    proof {
        assert(suffix_of(lowered@, 0) =~= lowered@);
        assert(collapsed@ + collapse_from(lowered@, false) =~= collapse_from(lowered@, false));
    }
    while i < n
        invariant
            i <= n,
            n == lowered@.len(),
            collapsed@ + collapse_from(suffix_of(lowered@, i as int), prev_sep) == collapse_from(
                lowered@,
                false,
            ),
        decreases n - i,
    {
        let c = lowered.as_str().get_char(i);
        proof {
            let suf = suffix_of(lowered@, i as int);
            assert(suf[0] == c);
            assert(suf.drop_first() =~= suffix_of(lowered@, i + 1));
        }
        let ghost col0 = collapsed@;
        if keep_char_exec(c) {
            push_char(&mut collapsed, c);
            proof {
                assert(collapsed@ =~= col0 + seq![c]);
                assert(col0 + (seq![c] + collapse_from(suffix_of(lowered@, i + 1), false))
                    =~= collapsed@ + collapse_from(suffix_of(lowered@, i + 1), false));
            }
            prev_sep = false;
        } else if prev_sep {
        } else {
            push_char(&mut collapsed, '_');
            proof {
                assert(collapsed@ =~= col0 + seq!['_']);
                assert(col0 + (seq!['_'] + collapse_from(suffix_of(lowered@, i + 1), true))
                    =~= collapsed@ + collapse_from(suffix_of(lowered@, i + 1), true));
            }
            prev_sep = true;
        }
        i += 1;
    }
    proof {
        assert(suffix_of(lowered@, n as int) =~= Seq::<char>::empty());
        assert(collapsed@ + Seq::<char>::empty() =~= collapsed@);
    }
    // Trim underscores from both ends.
    let m = collapsed.as_str().unicode_len();
    let mut a: usize = 0;
    proof {
        assert(suffix_of(collapsed@, 0) =~= collapsed@);
    }
    while a < m && collapsed.as_str().get_char(a) == '_'
        invariant
            a <= m,
            m == collapsed@.len(),
            trim_front(collapsed@) == trim_front(suffix_of(collapsed@, a as int)),
        decreases m - a,
    {
        proof {
            let suf = suffix_of(collapsed@, a as int);
            assert(suf[0] == collapsed@[a as int]);
            assert(suf.drop_first() =~= suffix_of(collapsed@, a + 1));
        }
        a += 1;
    }
    proof {
        let suf = suffix_of(collapsed@, a as int);
        if a < m {
            assert(suf[0] == collapsed@[a as int]);
        }
        assert(trim_front(suf) == suf);
    }
    let ghost fronted = suffix_of(collapsed@, a as int);
    let mut b: usize = m;
    while b > a && collapsed.as_str().get_char(b - 1) == '_'
        invariant
            a <= b <= m,
            m == collapsed@.len(),
            trim_back(fronted) == trim_back(collapsed@.subrange(a as int, b as int)),
            fronted == suffix_of(collapsed@, a as int),
        decreases b,
    {
        proof {
            let cur = collapsed@.subrange(a as int, b as int);
            assert(cur.last() == collapsed@[b - 1]);
            assert(cur.drop_last() =~= collapsed@.subrange(a as int, b - 1));
        }
        b -= 1;
    }
    proof {
        let cur = collapsed@.subrange(a as int, b as int);
        if b > a {
            assert(cur.last() == collapsed@[b - 1]);
        }
        assert(trim_back(cur) == cur);
    }
    collapsed.as_str().substring_char(a, b).to_owned()
}

// ----------------------------------------------------------------------------
// The pool.
// ----------------------------------------------------------------------------

/// The views of one sink's rows.
pub open spec fn row3_views(rows: Seq<(String, String, String)>) -> Seq<
    (Seq<char>, Seq<char>, Seq<char>),
> {
    rows.map_values(|r: (String, String, String)| (r.0@, r.1@, r.2@))
}

/// The rows the pool holds for a sink name; empty for a sink that does not
/// exist yet. Later sinks shadow none: names are unique.
pub open spec fn pool_at(
    names: Seq<String>,
    rows: Seq<Vec<(String, String, String)>>,
    k: Seq<char>,
) -> Seq<(Seq<char>, Seq<char>, Seq<char>)>
    decreases names.len(),
{
    if names.len() == 0 {
        Seq::empty()
    } else if names.last()@ == k {
        row3_views(rows.last()@)
    } else {
        pool_at(names.drop_last(), rows.drop_last(), k)
    }
}

/// Thread-contention-free category-keyed writer pool: one sink per
/// sanitized category name, created on first use.
pub struct CsvWriterPool {
    /// The directory the files go to.
    pub output_dir: String,
    /// The sanitized sink names, in creation order, unique.
    pub names: Vec<String>,
    /// Each sink's rows, in write order, parallel to `names`.
    pub rows: Vec<Vec<(String, String, String)>>,
}

impl CsvWriterPool {
    /// The two listings agree and no sink name repeats.
    pub open spec fn wf(&self) -> bool {
        &&& self.names@.len() == self.rows@.len()
        &&& forall|i: int, j: int|
            0 <= i < j < self.names@.len() ==> (#[trigger] self.names@[i])@ != (
            #[trigger] self.names@[j])@
    }

    /// A pool with no sinks yet, writing under the given directory.
    pub fn new(output_dir: &str) -> (r: Self)
        ensures
            r.wf(),
            r.output_dir@ == output_dir@,
            forall|k: Seq<char>| pool_at(r.names@, r.rows@, k) == Seq::<
                (Seq<char>, Seq<char>, Seq<char>),
            >::empty(),
    {
        CsvWriterPool { output_dir: output_dir.to_owned(), names: Vec::new(), rows: Vec::new() }
    }

    /// Appends one record to the sink of its category, creating the sink on
    /// first use; no other sink changes.
    pub fn write(&mut self, category: &str, record: &(String, String, String))
        requires
            old(self).wf(),
        ensures
            final(self).wf(),
            final(self).output_dir == old(self).output_dir,
            pool_at(final(self).names@, final(self).rows@, sanitize_spec(category@)) == pool_at(
                old(self).names@,
                old(self).rows@,
                sanitize_spec(category@),
            ).push((record.0@, record.1@, record.2@)),
            forall|k2: Seq<char>|
                k2 != sanitize_spec(category@) ==> pool_at(
                    final(self).names@,
                    final(self).rows@,
                    k2,
                ) == pool_at(old(self).names@, old(self).rows@, k2),
    {
        let name = sanitize_filename(category);
        let n = self.names.len();
        let mut i: usize = 0;
        while i < n
            invariant
                i <= n,
                self.wf(),
                self == old(self),
                n == self.names@.len(),
                name@ == sanitize_spec(category@),
                forall|j: int| 0 <= j < i ==> (#[trigger] self.names@[j])@ != name@,
            decreases n - i,
        {
            if str_eq(self.names[i].as_str(), name.as_str()) {
                let ghost names0 = self.names@;
                let ghost rows0 = self.rows@;
                let mut sink = self.rows.remove(i);
                sink.push((record.0.clone(), record.1.clone(), record.2.clone()));
                self.rows.insert(i, sink);
                proof {
                    assert(self.rows@ =~= rows0.update(i as int, self.rows@[i as int]));
                    assert(row3_views(self.rows@[i as int]@) =~= row3_views(rows0[i as int]@).push(
                        (record.0@, record.1@, record.2@),
                    ));
                    lemma_pool_at_found(names0, rows0, i as int);
                    lemma_pool_at_update(
                        names0,
                        rows0,
                        i as int,
                        self.rows@[i as int],
                        name@,
                    );
                }
                return;
            }
            i += 1;
        }
        let ghost names0 = self.names@;
        let ghost rows0 = self.rows@;
        let mut sink: Vec<(String, String, String)> = Vec::new();
        sink.push((record.0.clone(), record.1.clone(), record.2.clone()));
        self.names.push(name);
        self.rows.push(sink);
        proof {
            assert(self.names@.drop_last() =~= names0);
            assert(self.rows@.drop_last() =~= rows0);
            assert(row3_views(self.rows@.last()@) =~= Seq::<
                (Seq<char>, Seq<char>, Seq<char>),
            >::empty().push((record.0@, record.1@, record.2@)));
            lemma_pool_at_absent(names0, rows0, self.names@.last()@);
            assert(Seq::<(Seq<char>, Seq<char>, Seq<char>)>::empty().push(
                (record.0@, record.1@, record.2@),
            ) =~= pool_at(names0, rows0, self.names@.last()@).push(
                (record.0@, record.1@, record.2@),
            ));
            assert forall|k2: Seq<char>| k2 != self.names@.last()@ implies pool_at(
                self.names@,
                self.rows@,
                k2,
            ) == pool_at(names0, rows0, k2) by {
                assert(pool_at(self.names@, self.rows@, k2) == pool_at(
                    self.names@.drop_last(),
                    self.rows@.drop_last(),
                    k2,
                ));
            }
        }
    }
}

impl CsvWriterPool {
    /// Renders every sink's full file: its path under the output directory
    /// and its contents, one entry per sink, in creation order.
    pub fn flush_all(&self) -> (r: Vec<(String, String)>)
        requires
            self.wf(),
        ensures
            r@.len() == self.names@.len(),
            forall|i: int|
                0 <= i < r@.len() ==> (#[trigger] r@[i]).0@ == sink_path_spec(
                    self.output_dir@,
                    self.names@[i]@,
                ) && r@[i].1@ == file_contents_spec(row3_views(self.rows@[i]@)),
    {
        let n = self.names.len();
        let mut out: Vec<(String, String)> = Vec::new();
        let mut i: usize = 0;
        while i < n
            invariant
                i <= n,
                self.wf(),
                n == self.names@.len(),
                out@.len() == i,
                forall|j: int|
                    0 <= j < i ==> (#[trigger] out@[j]).0@ == sink_path_spec(
                        self.output_dir@,
                        self.names@[j]@,
                    ) && out@[j].1@ == file_contents_spec(row3_views(self.rows@[j]@)),
            decreases n - i,
        {
            let mut path = self.output_dir.clone();
            push_char(&mut path, '/');
            path.append(self.names[i].as_str());
            path.append(".csv");
            let mut contents = "label;sentences;questions\n".to_owned();
            let rows = &self.rows[i];
            let m = rows.len();
            let mut j: usize = 0;
            proof {
                assert(row3_views(rows@).subrange(0, 0) =~= Seq::<
                    (Seq<char>, Seq<char>, Seq<char>),
                >::empty());
            }
            while j < m
                invariant
                    j <= m,
                    m == rows@.len(),
                    contents@ == "label;sentences;questions\n"@ + render_3records(
                        row3_views(rows@).subrange(0, j as int),
                        ';',
                    ),
                decreases m - j,
            {
                proof {
                    let rv = row3_views(rows@);
                    assert(rv.subrange(0, j + 1).drop_last() =~= rv.subrange(0, j as int));
                    assert(rv.subrange(0, j + 1).last() == rv[j as int]);
                }
                append_3line(
                    rows[j].0.as_str(),
                    rows[j].1.as_str(),
                    rows[j].2.as_str(),
                    ';',
                    &mut contents,
                );
                j += 1;
            }
            proof {
                assert(row3_views(rows@).subrange(0, m as int) =~= row3_views(rows@));
                assert(path@ =~= sink_path_spec(self.output_dir@, self.names@[i as int]@));
            }
            out.push((path, contents));
            i += 1;
        }
        out
    }
}

/// The sink of a name holds exactly its rows.
proof fn lemma_pool_at_found(
    names: Seq<String>,
    rows: Seq<Vec<(String, String, String)>>,
    i: int,
)
    requires
        names.len() == rows.len(),
        0 <= i < names.len(),
        forall|j: int, l: int|
            0 <= j < l < names.len() ==> (#[trigger] names[j])@ != (#[trigger] names[l])@,
    ensures
        pool_at(names, rows, names[i]@) == row3_views(rows[i]@),
    decreases names.len(),
{
    if i == names.len() - 1 {
    } else {
        assert(names.last()@ != names[i]@);
        assert(names.drop_last()[i] == names[i]);
        lemma_pool_at_found(names.drop_last(), rows.drop_last(), i);
    }
}

/// What one sink's whole file holds: the fixed header, then one
/// semicolon-delimited line per row, in write order.
pub open spec fn file_contents_spec(rows: Seq<(Seq<char>, Seq<char>, Seq<char>)>) -> Seq<char> {
    "label;sentences;questions\n"@ + render_3records(rows, ';')
}

/// The path one sink's file is written to.
pub open spec fn sink_path_spec(dir: Seq<char>, name: Seq<char>) -> Seq<char> {
    dir + seq!['/'] + name + ".csv"@
}

/// A name no sink carries holds no rows.
proof fn lemma_pool_at_absent(
    names: Seq<String>,
    rows: Seq<Vec<(String, String, String)>>,
    k: Seq<char>,
)
    requires
        names.len() == rows.len(),
        forall|j: int| 0 <= j < names.len() ==> (#[trigger] names[j])@ != k,
    ensures
        pool_at(names, rows, k) == Seq::<(Seq<char>, Seq<char>, Seq<char>)>::empty(),
    decreases names.len(),
{
    if names.len() > 0 {
        lemma_pool_at_absent(names.drop_last(), rows.drop_last(), k);
    }
}

/// Replacing the sink of one name changes that name's rows and no others.
proof fn lemma_pool_at_update(
    names: Seq<String>,
    rows: Seq<Vec<(String, String, String)>>,
    i: int,
    sink: Vec<(String, String, String)>,
    k: Seq<char>,
)
    requires
        names.len() == rows.len(),
        0 <= i < names.len(),
        names[i]@ == k,
        forall|j: int, l: int|
            0 <= j < l < names.len() ==> (#[trigger] names[j])@ != (#[trigger] names[l])@,
    ensures
        pool_at(names, rows.update(i, sink), k) == row3_views(sink@),
        forall|k2: Seq<char>|
            k2 != k ==> pool_at(names, rows.update(i, sink), k2) == pool_at(names, rows, k2),
    decreases names.len(),
{
    let up = rows.update(i, sink);
    if i == names.len() - 1 {
        assert(up.last() == sink);
        assert(up.drop_last() =~= rows.drop_last());
        assert forall|k2: Seq<char>| k2 != k implies pool_at(names, up, k2) == pool_at(
            names,
            rows,
            k2,
        ) by {
            assert(names.last()@ == k);
        }
    } else {
        assert(up.last() == rows.last());
        assert(up.drop_last() =~= rows.drop_last().update(i, sink));
        assert(names.drop_last()[i] == names[i]);
        lemma_pool_at_update(names.drop_last(), rows.drop_last(), i, sink, k);
        assert(names.last()@ != k);
        assert forall|k2: Seq<char>| k2 != k implies pool_at(names, up, k2) == pool_at(
            names,
            rows,
            k2,
        ) by {
            if names.last()@ == k2 {
            } else {
                assert(pool_at(names.drop_last(), rows.drop_last().update(i, sink), k2)
                    == pool_at(names.drop_last(), rows.drop_last(), k2));
            }
        }
    }
}

} // verus!
