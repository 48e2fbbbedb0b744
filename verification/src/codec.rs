use vstd::prelude::*;
use crate::processing_error::ProcessingError;
use crate::utils::{push_char, suffix_of};

verus! {

// ----------------------------------------------------------------------------
// A small delimited-record format: fields separated by a configurable
// delimiter, records separated by newlines, fields quoted with doubled
// inner quotes exactly when they hold a delimiter, a quote, or a line break.
// The persisted label cache uses two comma-separated columns; output files
// use semicolon-separated columns.
// ----------------------------------------------------------------------------

/// A delimiter the format can use: anything but the characters that carry
/// the format's own structure.
pub open spec fn valid_delim(delim: char) -> bool {
    delim != '"' && delim != '\n' && delim != '\r'
}

/// Whether `c` forces the field that holds it to be quoted.
pub open spec fn is_special(c: char, delim: char) -> bool {
    c == delim || c == '"' || c == '\n' || c == '\r'
}

/// Whether a field must be quoted to survive a round trip.
pub open spec fn needs_quote(f: Seq<char>, delim: char) -> bool {
    exists|i: int| 0 <= i < f.len() && is_special(#[trigger] f[i], delim)
}

/// A field's characters with every quote doubled.
pub open spec fn escape_quotes(f: Seq<char>) -> Seq<char>
    decreases f.len(),
{
    if f.len() == 0 {
        Seq::empty()
    } else if f[0] == '"' {
        seq!['"', '"'] + escape_quotes(f.drop_first())
    } else {
        seq![f[0]] + escape_quotes(f.drop_first())
    }
}

/// How one field appears on disk.
pub open spec fn render_field(f: Seq<char>, delim: char) -> Seq<char> {
    if needs_quote(f, delim) {
        seq!['"'] + escape_quotes(f) + seq!['"']
    } else {
        f
    }
}

/// How one two-column record appears on disk: both fields, the delimiter
/// between them, a newline after them.
pub open spec fn render_kv_line(k: Seq<char>, v: Seq<char>, delim: char) -> Seq<char> {
    render_field(k, delim) + seq![delim] + render_field(v, delim) + seq!['\n']
}

/// How a whole two-column file appears on disk, one record per pair, in order.
pub open spec fn render_kv_records(pairs: Seq<(Seq<char>, Seq<char>)>, delim: char) -> Seq<char>
    decreases pairs.len(),
{
    if pairs.len() == 0 {
        Seq::empty()
    } else {
        render_kv_line(pairs[0].0, pairs[0].1, delim) + render_kv_records(pairs.drop_first(), delim)
    }
}

// ----------------------------------------------------------------------------
// Parsing, written over the remaining input so that each step peels
// characters off the front.
// ----------------------------------------------------------------------------

/// Parses the body of a quoted field, the opening quote already consumed:
/// yields the field and the input after the closing quote, or nothing when
/// the quote is never closed.
pub open spec fn parse_quoted_body(s: Seq<char>) -> Option<(Seq<char>, Seq<char>)>
    decreases s.len(),
{
    if s.len() == 0 {
        None
    } else if s[0] == '"' {
        if s.len() >= 2 && s[1] == '"' {
            match parse_quoted_body(s.subrange(2, s.len() as int)) {
                Some(p) => Some((seq!['"'] + p.0, p.1)),
                None => None,
            }
        } else {
            Some((Seq::empty(), s.drop_first()))
        }
    } else {
        match parse_quoted_body(s.drop_first()) {
            Some(p) => Some((seq![s[0]] + p.0, p.1)),
            None => None,
        }
    }
}

/// Parses an unquoted field: everything up to the next delimiter or line
/// break, which is left in the remaining input.
pub open spec fn parse_unquoted(s: Seq<char>, delim: char) -> (Seq<char>, Seq<char>)
    decreases s.len(),
{
    if s.len() == 0 {
        (Seq::empty(), s)
    } else if s[0] == delim || s[0] == '\n' {
        (Seq::empty(), s)
    } else {
        let p = parse_unquoted(s.drop_first(), delim);
        (seq![s[0]] + p.0, p.1)
    }
}

/// Parses one field, quoted or not.
pub open spec fn parse_field(s: Seq<char>, delim: char) -> Option<(Seq<char>, Seq<char>)> {
    if s.len() > 0 && s[0] == '"' {
        parse_quoted_body(s.drop_first())
    } else {
        Some(parse_unquoted(s, delim))
    }
}

/// Parses one two-column record and its line ending; the line ending may be
/// missing only at the end of the input.
pub open spec fn parse_kv_line(s: Seq<char>, delim: char) -> Option<
    ((Seq<char>, Seq<char>), Seq<char>),
> {
    match parse_field(s, delim) {
        None => None,
        Some(p1) => {
            let r1 = p1.1;
            if r1.len() > 0 && r1[0] == delim {
                match parse_field(r1.drop_first(), delim) {
                    None => None,
                    Some(p2) => {
                        let r2 = p2.1;
                        if r2.len() > 0 && r2[0] == '\n' {
                            Some(((p1.0, p2.0), r2.drop_first()))
                        } else if r2.len() == 0 {
                            Some(((p1.0, p2.0), r2))
                        } else {
                            None
                        }
                    },
                }
            } else {
                None
            }
        },
    }
}

/// Parses a whole two-column file into its records, in order; any structural
/// fault makes the whole file unreadable.
pub open spec fn parse_kv_records(s: Seq<char>, delim: char) -> Option<Seq<(Seq<char>, Seq<char>)>>
    decreases s.len(),
{
    if s.len() == 0 {
        Some(Seq::empty())
    } else {
        match parse_kv_line(s, delim) {
            None => None,
            Some(p) => {
                let rest = p.1;
                if rest.len() < s.len() {
                    match parse_kv_records(rest, delim) {
                        Some(t) => Some(Seq::empty().push(p.0) + t),
                        None => None,
                    }
                } else {
                    None
                }
            },
        }
    }
}

// ----------------------------------------------------------------------------
// The round trip: parsing what was rendered gives back the records.
// ----------------------------------------------------------------------------

proof fn lemma_parse_quoted_escaped(f: Seq<char>, rest: Seq<char>)
    requires
        rest.len() == 0 || rest[0] != '"',
    ensures
        parse_quoted_body(escape_quotes(f) + seq!['"'] + rest) == Some::<(Seq<char>, Seq<char>)>(
            (f, rest),
        ),
    decreases f.len(),
{
    let s = escape_quotes(f) + seq!['"'] + rest;
    if f.len() == 0 {
        assert(s =~= seq!['"'] + rest);
        assert(s[0] == '"');
        if s.len() >= 2 {
            assert(s[1] == rest[0]);
        }
        assert(s.drop_first() =~= rest);
    } else if f[0] == '"' {
        lemma_parse_quoted_escaped(f.drop_first(), rest);
        assert(s[0] == '"' && s[1] == '"');
        assert(s.subrange(2, s.len() as int) =~= escape_quotes(f.drop_first()) + seq!['"'] + rest);
        assert(seq!['"'] + f.drop_first() =~= f);
    } else {
        lemma_parse_quoted_escaped(f.drop_first(), rest);
        assert(s[0] == f[0]);
        assert(s[0] != '"');
        assert(s.drop_first() =~= escape_quotes(f.drop_first()) + seq!['"'] + rest);
        assert(seq![f[0]] + f.drop_first() =~= f);
    }
}

proof fn lemma_parse_unquoted_plain(f: Seq<char>, rest: Seq<char>, delim: char)
    requires
        !needs_quote(f, delim),
        rest.len() == 0 || rest[0] == delim || rest[0] == '\n',
    ensures
        parse_unquoted(f + rest, delim) == (f, rest),
    decreases f.len(),
{
    let s = f + rest;
    if f.len() == 0 {
        assert(s =~= rest);
    } else {
        assert(!is_special(f[0], delim));
        assert(s[0] == f[0]);
        assert(!needs_quote(f.drop_first(), delim)) by {
            assert(forall|i: int|
                0 <= i < f.drop_first().len() ==> f.drop_first()[i] == f[i + 1]);
        }
        lemma_parse_unquoted_plain(f.drop_first(), rest, delim);
        assert(s.drop_first() =~= f.drop_first() + rest);
        assert(seq![f[0]] + f.drop_first() =~= f);
    }
}

proof fn lemma_parse_field_rendered(f: Seq<char>, rest: Seq<char>, delim: char)
    requires
        valid_delim(delim),
        rest.len() == 0 || rest[0] == delim || rest[0] == '\n',
    ensures
        parse_field(render_field(f, delim) + rest, delim) == Some::<(Seq<char>, Seq<char>)>(
            (f, rest),
        ),
{
    let s = render_field(f, delim) + rest;
    if needs_quote(f, delim) {
        assert(s[0] == '"');
        assert(s.drop_first() =~= escape_quotes(f) + seq!['"'] + rest);
        lemma_parse_quoted_escaped(f, rest);
    } else {
        assert(s =~= f + rest);
        if s.len() > 0 && s[0] == '"' {
            if f.len() > 0 {
                assert(f[0] == '"');
                assert(is_special(f[0], delim));
                assert(false);
            } else {
                assert(rest[0] == '"');
                assert(false);
            }
        }
        lemma_parse_unquoted_plain(f, rest, delim);
    }
}

proof fn lemma_parse_kv_line_rendered(k: Seq<char>, v: Seq<char>, rest: Seq<char>, delim: char)
    requires
        valid_delim(delim),
    ensures
        parse_kv_line(render_kv_line(k, v, delim) + rest, delim) == Some::<
            ((Seq<char>, Seq<char>), Seq<char>),
        >(((k, v), rest)),
{
    let s = render_kv_line(k, v, delim) + rest;
    let tail1 = seq![delim] + render_field(v, delim) + seq!['\n'] + rest;
    assert(s =~= render_field(k, delim) + tail1);
    assert(tail1[0] == delim);
    lemma_parse_field_rendered(k, tail1, delim);
    let tail2 = seq!['\n'] + rest;
    assert(tail1.drop_first() =~= render_field(v, delim) + tail2);
    assert(tail2[0] == '\n');
    lemma_parse_field_rendered(v, tail2, delim);
    assert(tail2.drop_first() =~= rest);
}

/// The round trip at the file level: parsing a rendered two-column file
/// yields exactly the records that were rendered, in order.
pub proof fn lemma_parse_render_round_trip(pairs: Seq<(Seq<char>, Seq<char>)>, delim: char)
    requires
        valid_delim(delim),
    ensures
        parse_kv_records(render_kv_records(pairs, delim), delim) == Some(pairs),
    decreases pairs.len(),
{
    if pairs.len() == 0 {
    } else {
        let line = render_kv_line(pairs[0].0, pairs[0].1, delim);
        let tail = render_kv_records(pairs.drop_first(), delim);
        let s = render_kv_records(pairs, delim);
        assert(s =~= line + tail);
        lemma_parse_kv_line_rendered(pairs[0].0, pairs[0].1, tail, delim);
        assert(line.len() > 0) by {
            assert(line.last() == '\n');
        }
        assert(tail.len() < s.len());
        lemma_parse_render_round_trip(pairs.drop_first(), delim);
        assert(s.len() > 0);
        assert(Seq::empty().push(pairs[0]) + pairs.drop_first() =~= pairs);
    }
}

// ----------------------------------------------------------------------------
// Executable rendering.
// ----------------------------------------------------------------------------

/// Escaping distributes over concatenation.
proof fn lemma_escape_append(a: Seq<char>, b: Seq<char>)
    ensures
        escape_quotes(a + b) == escape_quotes(a) + escape_quotes(b),
    decreases a.len(),
{
    if a.len() == 0 {
        assert(a + b =~= b);
        assert(escape_quotes(a) + escape_quotes(b) =~= escape_quotes(b));
    } else {
        assert((a + b).drop_first() =~= a.drop_first() + b);
        lemma_escape_append(a.drop_first(), b);
        assert(escape_quotes(a) + escape_quotes(b) =~= (if a[0] == '"' {
            seq!['"', '"']
        } else {
            seq![a[0]]
        }) + (escape_quotes(a.drop_first()) + escape_quotes(b)));
    }
}

/// Rendering distributes over concatenation of record lists.
proof fn lemma_render_records_append(
    a: Seq<(Seq<char>, Seq<char>)>,
    b: Seq<(Seq<char>, Seq<char>)>,
    delim: char,
)
    ensures
        render_kv_records(a + b, delim) == render_kv_records(a, delim) + render_kv_records(
            b,
            delim,
        ),
    decreases a.len(),
{
    if a.len() == 0 {
        assert(a + b =~= b);
        assert(render_kv_records(a, delim) + render_kv_records(b, delim) =~= render_kv_records(
            b,
            delim,
        ));
    } else {
        assert((a + b).drop_first() =~= a.drop_first() + b);
        lemma_render_records_append(a.drop_first(), b, delim);
        assert((a + b)[0] == a[0]);
        assert(render_kv_records(a, delim) + render_kv_records(b, delim) =~= render_kv_line(
            a[0].0,
            a[0].1,
            delim,
        ) + (render_kv_records(a.drop_first(), delim) + render_kv_records(b, delim)));
    }
}

fn is_special_exec(c: char, delim: char) -> (r: bool)
    ensures
        r == is_special(c, delim),
{
    c == delim || c == '"' || c == '\n' || c == '\r'
}

fn field_needs_quote(f: &str, delim: char) -> (r: bool)
    ensures
        r == needs_quote(f@, delim),
{
    let n = f.unicode_len();
    let mut i: usize = 0;
    while i < n
        invariant
            i <= n,
            n == f@.len(),
            forall|j: int| 0 <= j < i ==> !is_special(#[trigger] f@[j], delim),
        decreases n - i,
    {
        if is_special_exec(f.get_char(i), delim) {
            return true;
        }
        i += 1;
    }
    false
}

fn append_escaped(f: &str, out: &mut String)
    ensures
        final(out)@ == old(out)@ + escape_quotes(f@),
{
    let n = f.unicode_len();
    let mut i: usize = 0;
    while i < n
        invariant
            i <= n,
            n == f@.len(),
            out@ == old(out)@ + escape_quotes(f@.subrange(0, i as int)),
        decreases n - i,
    {
        let c = f.get_char(i);
        if c == '"' {
            push_char(out, '"');
            push_char(out, '"');
        } else {
            push_char(out, c);
        }
        proof {
            let pre = f@.subrange(0, i as int);
            assert(f@.subrange(0, i + 1) =~= pre + seq![c]);
            lemma_escape_append(pre, seq![c]);
            assert(seq![c].drop_first() =~= Seq::<char>::empty());
            assert(escape_quotes(Seq::<char>::empty()) == Seq::<char>::empty());
            assert(escape_quotes(seq![c]) == (if c == '"' {
                seq!['"', '"']
            } else {
                seq![c]
            }) + Seq::<char>::empty());
            assert(escape_quotes(seq![c]) =~= (if c == '"' {
                seq!['"', '"']
            } else {
                seq![c]
            }));
        }
        i += 1;
    }
    assert(f@.subrange(0, n as int) =~= f@);
}

/// Appends one field in its on-disk form.
fn append_field(f: &str, delim: char, out: &mut String)
    ensures
        final(out)@ == old(out)@ + render_field(f@, delim),
{
    if field_needs_quote(f, delim) {
        push_char(out, '"');
        append_escaped(f, out);
        push_char(out, '"');
        assert(out@ =~= old(out)@ + (seq!['"'] + escape_quotes(f@) + seq!['"']));
    } else {
        out.append(f);
    }
}

/// Appends one two-column record line.
fn append_kv_line(k: &str, v: &str, delim: char, out: &mut String)
    ensures
        final(out)@ == old(out)@ + render_kv_line(k@, v@, delim),
{
    append_field(k, delim, out);
    push_char(out, delim);
    append_field(v, delim, out);
    push_char(out, '\n');
    assert(out@ =~= old(out)@ + render_kv_line(k@, v@, delim));
}

/// The views of a sequence of string pairs.
pub open spec fn pair_views(pairs: Seq<(String, String)>) -> Seq<(Seq<char>, Seq<char>)> {
    pairs.map_values(|p: (String, String)| (p.0@, p.1@))
}

/// Renders a whole two-column file, one line per pair, in order.
pub fn render_kv_file(pairs: &Vec<(String, String)>, delim: char) -> (r: String)
    ensures
        r@ == render_kv_records(pair_views(pairs@), delim),
{
    let mut out = String::new();
    let n = pairs.len();
    let mut i: usize = 0;
    while i < n
        invariant
            i <= n,
            n == pairs@.len(),
            out@ == render_kv_records(pair_views(pairs@).subrange(0, i as int), delim),
        decreases n - i,
    {
        append_kv_line(pairs[i].0.as_str(), pairs[i].1.as_str(), delim, &mut out);
        proof {
            let vs = pair_views(pairs@);
            let single = seq![vs[i as int]];
            assert(vs.subrange(0, i + 1) =~= vs.subrange(0, i as int) + single);
            lemma_render_records_append(vs.subrange(0, i as int), single, delim);
            assert(single.drop_first() =~= Seq::<(Seq<char>, Seq<char>)>::empty());
            assert(render_kv_records(single, delim) == render_kv_line(
                vs[i as int].0,
                vs[i as int].1,
                delim,
            ) + render_kv_records(single.drop_first(), delim));
            assert(render_kv_records(single, delim) =~= render_kv_line(
                vs[i as int].0,
                vs[i as int].1,
                delim,
            ));
        }
        i += 1;
    }
    assert(pair_views(pairs@).subrange(0, n as int) =~= pair_views(pairs@));
    out
}

/// How one three-column record appears on disk.
pub open spec fn render_3line(a: Seq<char>, b: Seq<char>, c: Seq<char>, delim: char) -> Seq<
    char,
> {
    render_field(a, delim) + seq![delim] + render_field(b, delim) + seq![delim] + render_field(
        c,
        delim,
    ) + seq!['\n']
}

/// How a listing of three-column records appears on disk, in order.
pub open spec fn render_3records(
    rows: Seq<(Seq<char>, Seq<char>, Seq<char>)>,
    delim: char,
) -> Seq<char>
    decreases rows.len(),
{
    if rows.len() == 0 {
        Seq::empty()
    } else {
        render_3records(rows.drop_last(), delim) + render_3line(
            rows.last().0,
            rows.last().1,
            rows.last().2,
            delim,
        )
    }
}

/// Appends one three-column record line.
pub fn append_3line(a: &str, b: &str, c: &str, delim: char, out: &mut String)
    ensures
        final(out)@ == old(out)@ + render_3line(a@, b@, c@, delim),
{
    append_field(a, delim, out);
    push_char(out, delim);
    append_field(b, delim, out);
    push_char(out, delim);
    append_field(c, delim, out);
    push_char(out, '\n');
    assert(out@ =~= old(out)@ + render_3line(a@, b@, c@, delim));
}

// ----------------------------------------------------------------------------
// Executable parsing.
// ----------------------------------------------------------------------------

fn parse_field_at(v: &Vec<char>, i: usize, delim: char) -> (r: Option<(String, usize)>)
    requires
        i <= v@.len(),
    ensures
        match r {
            Some(p) => i <= p.1 <= v@.len() && parse_field(suffix_of(v@, i as int), delim)
                == Some((p.0@, suffix_of(v@, p.1 as int))),
            None => parse_field(suffix_of(v@, i as int), delim) is None,
        },
{
    let n = v.len();
    if i < n && v[i] == '"' {
        assert(suffix_of(v@, i as int)[0] == '"');
        assert(suffix_of(v@, i as int).drop_first() =~= suffix_of(v@, i + 1));
        let mut f = String::new();
        let mut cur: usize = i + 1;
        loop
            invariant
                i + 1 <= cur <= n,
                n == v@.len(),
                i < n,
                v@[i as int] == '"',
                (match parse_quoted_body(suffix_of(v@, cur as int)) {
                    Some(p) => parse_quoted_body(suffix_of(v@, i + 1)) == Some::<
                        (Seq<char>, Seq<char>),
                    >((f@ + p.0, p.1)),
                    None => parse_quoted_body(suffix_of(v@, i + 1)) is None,
                }),
            decreases n - cur,
        {
            proof {
                assert(suffix_of(v@, i as int)[0] == '"');
                assert(suffix_of(v@, i as int).drop_first() =~= suffix_of(v@, i + 1));
            }
            if cur >= n {
                proof {
                    assert(suffix_of(v@, cur as int) =~= Seq::<char>::empty());
                }
                return None;
            }
            let c = v[cur];
            proof {
                assert(suffix_of(v@, cur as int)[0] == c);
            }
            if c == '"' {
                if cur + 1 < n && v[cur + 1] == '"' {
                    let ghost f0 = f@;
                    push_char(&mut f, '"');
                    proof {
                        assert(f@ =~= f0 + seq!['"']);
                        let scur = suffix_of(v@, cur as int);
                        assert(scur.len() >= 2 && scur[1] == '"');
                        assert(scur.subrange(2, scur.len() as int) =~= suffix_of(v@, cur + 2));
                        if let Some(p) = parse_quoted_body(suffix_of(v@, cur + 2)) {
                            assert(parse_quoted_body(scur) == Some::<(Seq<char>, Seq<char>)>((
                                seq!['"'] + p.0,
                                p.1,
                            )));
                            assert(f0 + (seq!['"'] + p.0) =~= f@ + p.0);
                        }
                    }
                    cur += 2;
                } else {
                    proof {
                        let scur = suffix_of(v@, cur as int);
                        if scur.len() >= 2 {
                            assert(scur[1] == v@[cur + 1]);
                        }
                        assert(parse_quoted_body(scur) == Some::<(Seq<char>, Seq<char>)>((
                            Seq::empty(),
                            scur.drop_first(),
                        )));
                        assert(scur.drop_first() =~= suffix_of(v@, cur + 1));
                        assert(f@ + Seq::<char>::empty() =~= f@);
                    }
                    return Some((f, cur + 1));
                }
            } else {
                let ghost f0 = f@;
                push_char(&mut f, c);
                proof {
                    assert(f@ =~= f0 + seq![c]);
                    let scur = suffix_of(v@, cur as int);
                    assert(scur.drop_first() =~= suffix_of(v@, cur + 1));
                    if let Some(p) = parse_quoted_body(suffix_of(v@, cur + 1)) {
                        assert(parse_quoted_body(scur) == Some::<(Seq<char>, Seq<char>)>((
                            seq![c] + p.0,
                            p.1,
                        )));
                        assert(f0 + (seq![c] + p.0) =~= f@ + p.0);
                    }
                }
                cur += 1;
            }
        }
    } else {
        let mut f = String::new();
        let mut cur: usize = i;
        loop
            invariant
                i <= cur <= n,
                n == v@.len(),
                parse_unquoted(suffix_of(v@, i as int), delim).0 == f@ + parse_unquoted(
                    suffix_of(v@, cur as int),
                    delim,
                ).0,
                parse_unquoted(suffix_of(v@, i as int), delim).1 == parse_unquoted(
                    suffix_of(v@, cur as int),
                    delim,
                ).1,
                !(i < v@.len() && v@[i as int] == '"'),
            decreases n - cur,
        {
            proof {
                if i < n {
                    assert(suffix_of(v@, i as int)[0] == v@[i as int]);
                }
            }
            if cur >= n {
                proof {
                    assert(suffix_of(v@, cur as int) =~= Seq::<char>::empty());
                    assert(f@ + Seq::<char>::empty() =~= f@);
                }
                return Some((f, cur));
            }
            let c = v[cur];
            proof {
                assert(suffix_of(v@, cur as int)[0] == c);
            }
            if c == delim || c == '\n' {
                proof {
                    assert(parse_unquoted(suffix_of(v@, cur as int), delim).0
                        =~= Seq::<char>::empty());
                    assert(f@ + Seq::<char>::empty() =~= f@);
                }
                return Some((f, cur));
            }
            let ghost f0 = f@;
            push_char(&mut f, c);
            proof {
                assert(f@ =~= f0 + seq![c]);
                let scur = suffix_of(v@, cur as int);
                assert(scur.drop_first() =~= suffix_of(v@, cur + 1));
                let p = parse_unquoted(suffix_of(v@, cur + 1), delim);
                assert(parse_unquoted(scur, delim).0 == seq![c] + p.0);
                assert(f0 + (seq![c] + p.0) =~= f@ + p.0);
            }
            cur += 1;
        }
    }
}

fn parse_kv_line_at(v: &Vec<char>, i: usize, delim: char) -> (r: Option<(String, String, usize)>)
    requires
        i <= v@.len(),
    ensures
        match r {
            Some(p) => i <= p.2 <= v@.len() && parse_kv_line(suffix_of(v@, i as int), delim)
                == Some(((p.0@, p.1@), suffix_of(v@, p.2 as int))),
            None => parse_kv_line(suffix_of(v@, i as int), delim) is None,
        },
{
    let n = v.len();
    match parse_field_at(v, i, delim) {
        None => None,
        Some((k, j1)) => {
            if j1 < n && v[j1] == delim {
                proof {
                    assert(suffix_of(v@, j1 as int)[0] == delim);
                    assert(suffix_of(v@, j1 as int).drop_first() =~= suffix_of(v@, j1 + 1));
                }
                match parse_field_at(v, j1 + 1, delim) {
                    None => None,
                    Some((val, j2)) => {
                        if j2 < n && v[j2] == '\n' {
                            proof {
                                assert(suffix_of(v@, j2 as int)[0] == '\n');
                                assert(suffix_of(v@, j2 as int).drop_first() =~= suffix_of(
                                    v@,
                                    j2 + 1,
                                ));
                            }
                            Some((k, val, j2 + 1))
                        } else if j2 == n {
                            proof {
                                assert(suffix_of(v@, j2 as int).len() == 0);
                            }
                            Some((k, val, j2))
                        } else {
                            proof {
                                assert(suffix_of(v@, j2 as int)[0] == v@[j2 as int]);
                            }
                            None
                        }
                    },
                }
            } else {
                proof {
                    if j1 < n {
                        assert(suffix_of(v@, j1 as int)[0] == v@[j1 as int]);
                    } else {
                        assert(suffix_of(v@, j1 as int).len() == 0);
                    }
                }
                None
            }
        },
    }
}

/// Parses a whole two-column file into its records, in order. A structural
/// fault (an unclosed quote, a record without exactly two columns) is an
/// error: such a file is a prerequisite and must be readable as a whole.
pub fn parse_kv_file(content: &str, delim: char) -> (r: Result<
    Vec<(String, String)>,
    ProcessingError,
>)
    ensures
        match r {
            Ok(pairs) => parse_kv_records(content@, delim) == Some(pair_views(pairs@)),
            Err(_) => parse_kv_records(content@, delim) is None,
        },
{
    let v = crate::utils::str_chars(content);
    let n = v.len();
    let mut out: Vec<(String, String)> = Vec::new();
    let mut cur: usize = 0;
    proof {
        assert(suffix_of(v@, 0) =~= v@);
        if let Some(t) = parse_kv_records(v@, delim) {
            assert(pair_views(out@) + t =~= t);
        }
    }
    while cur < n
        invariant
            cur <= n,
            n == v@.len(),
            v@ == content@,
            (match parse_kv_records(suffix_of(v@, cur as int), delim) {
                Some(t) => parse_kv_records(v@, delim) == Some(pair_views(out@) + t),
                None => parse_kv_records(v@, delim) is None,
            }),
        decreases n - cur,
    {
        proof {
            assert(suffix_of(v@, cur as int).len() > 0);
        }
        match parse_kv_line_at(&v, cur, delim) {
            None => {
                return Err(ProcessingError::CsvError("malformed record".to_owned()));
            },
            Some((k, val, j)) => {
                if j <= cur {
                    return Err(ProcessingError::CsvError("malformed record".to_owned()));
                }
                proof {
                    let scur = suffix_of(v@, cur as int);
                    let srest = suffix_of(v@, j as int);
                    assert(srest.len() < scur.len());
                    let old_views = pair_views(out@);
                    if let Some(t) = parse_kv_records(srest, delim) {
                        assert(parse_kv_records(scur, delim) == Some(
                            Seq::empty().push((k@, val@)) + t,
                        ));
                        assert(pair_views(out@.push((k, val))) =~= old_views.push((k@, val@)));
                        assert(old_views + (Seq::empty().push((k@, val@)) + t) =~= old_views.push(
                            (k@, val@),
                        ) + t);
                    }
                }
                out.push((k, val));
                cur = j;
            },
        }
    }
    proof {
        assert(suffix_of(v@, cur as int) =~= Seq::<char>::empty());
        assert(pair_views(out@) + Seq::<(Seq<char>, Seq<char>)>::empty() =~= pair_views(out@));
    }
    Ok(out)
}

} // verus!
