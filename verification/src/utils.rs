use vstd::prelude::*;

verus! {

// ----------------------------------------------------------------------------
// Character and string helpers shared by the whole crate.
// ----------------------------------------------------------------------------

/// Relies on String::push: appends the given character to the end of the string.
#[verifier::external_body]
pub fn push_char(s: &mut String, c: char)
    ensures
        final(s)@ == old(s)@.push(c),
{
    s.push(c);
}

/// The characters of `s` collected into a vector.
pub fn str_chars(s: &str) -> (r: Vec<char>)
    ensures
        r@ == s@,
{
    let n = s.unicode_len();
    let mut r: Vec<char> = Vec::new();
    let mut i: usize = 0;
    while i < n
        invariant
            i <= n,
            n == s@.len(),
            r@ == s@.subrange(0, i as int),
        decreases n - i,
    {
        r.push(s.get_char(i));
        assert(r@ =~= s@.subrange(0, i + 1));
        i += 1;
    }
    assert(r@ =~= s@);
    r
}

/// Character-wise string equality.
pub fn str_eq(a: &str, b: &str) -> (r: bool)
    ensures
        r == (a@ == b@),
{
    let na = a.unicode_len();
    let nb = b.unicode_len();
    if na != nb {
        assert(a@ != b@);
        return false;
    }
    let mut i: usize = 0;
    while i < na
        invariant
            i <= na,
            na == a@.len(),
            na == b@.len(),
            forall|j: int| 0 <= j < i ==> a@[j] == b@[j],
        decreases na - i,
    {
        if a.get_char(i) != b.get_char(i) {
            assert(a@ != b@);
            return false;
        }
        i += 1;
    }
    assert(a@ =~= b@);
    true
}

/// Progress quantized to per-mille granularity: how many thousandths of
/// `total` the `processed` count has covered.
pub fn promille(processed: u64, total: u64) -> (r: u64)
    requires
        0 < total,
        processed <= total,
    ensures
        r == (processed as int) * 1000 / (total as int),
        r <= 1000,
{
    let r = ((processed as u128) * 1000 / (total as u128)) as u64;
    proof {
        assert((processed as int) * 1000 / (total as int) <= 1000) by (nonlinear_arith)
            requires
                0 < total,
                processed <= total,
        ;
    }
    r
}

/// Whether some string of `v` has the view `x`.
pub fn str_in_vec(v: &Vec<String>, x: &str) -> (r: bool)
    ensures
        r == str_views(v@).contains(x@),
{
    let n = v.len();
    let mut i: usize = 0;
    while i < n
        invariant
            i <= n,
            n == v@.len(),
            forall|j: int| 0 <= j < i ==> str_views(v@)[j] != x@,
        decreases n - i,
    {
        if str_eq(v[i].as_str(), x) {
            assert(str_views(v@)[i as int] == x@);
            return true;
        }
        i += 1;
    }
    false
}

// ----------------------------------------------------------------------------
// Decimal rendering of unsigned integers.
// ----------------------------------------------------------------------------

/// The character for a single decimal digit.
pub open spec fn digit_char(d: int) -> char {
    if d == 0 {
        '0'
    } else if d == 1 {
        '1'
    } else if d == 2 {
        '2'
    } else if d == 3 {
        '3'
    } else if d == 4 {
        '4'
    } else if d == 5 {
        '5'
    } else if d == 6 {
        '6'
    } else if d == 7 {
        '7'
    } else if d == 8 {
        '8'
    } else {
        '9'
    }
}

/// The usual decimal rendering of `n`, most significant digit first.
pub open spec fn dec_digits(n: nat) -> Seq<char>
    decreases n,
{
    if n < 10 {
        seq![digit_char(n as int)]
    } else {
        dec_digits(n / 10).push(digit_char((n % 10) as int))
    }
}

fn exec_digit_char(d: u64) -> (c: char)
    requires
        d < 10,
    ensures
        c == digit_char(d as int),
{
    if d == 0 {
        '0'
    } else if d == 1 {
        '1'
    } else if d == 2 {
        '2'
    } else if d == 3 {
        '3'
    } else if d == 4 {
        '4'
    } else if d == 5 {
        '5'
    } else if d == 6 {
        '6'
    } else if d == 7 {
        '7'
    } else if d == 8 {
        '8'
    } else {
        '9'
    }
}

/// Appends the decimal rendering of `n` to `out`.
pub fn push_dec_digits(n: u64, out: &mut String)
    ensures
        final(out)@ == old(out)@ + dec_digits(n as nat),
    decreases n,
{
    if n >= 10 {
        push_dec_digits(n / 10, out);
    }
    push_char(out, exec_digit_char(n % 10));
}

/// The decimal rendering of `n` as a string.
pub fn u64_to_string(n: u64) -> (r: String)
    ensures
        r@ == dec_digits(n as nat),
{
    let mut r = String::new();
    push_dec_digits(n, &mut r);
    assert(r@ =~= dec_digits(n as nat));
    r
}

// ----------------------------------------------------------------------------
// Decimal parsing.
// ----------------------------------------------------------------------------

/// Whether `c` is a decimal digit.
pub open spec fn char_digit(c: char) -> bool {
    c == '0' || c == '1' || c == '2' || c == '3' || c == '4' || c == '5' || c == '6' || c == '7'
        || c == '8' || c == '9'
}

/// The value of a decimal digit; zero for other characters.
pub open spec fn char_digit_val(c: char) -> nat {
    if c == '1' {
        1
    } else if c == '2' {
        2
    } else if c == '3' {
        3
    } else if c == '4' {
        4
    } else if c == '5' {
        5
    } else if c == '6' {
        6
    } else if c == '7' {
        7
    } else if c == '8' {
        8
    } else if c == '9' {
        9
    } else {
        0
    }
}

/// Whether every character of `s` is a decimal digit.
pub open spec fn all_digits(s: Seq<char>) -> bool {
    forall|i: int| 0 <= i < s.len() ==> char_digit(#[trigger] s[i])
}

/// The number a digit string denotes, most significant digit first.
pub open spec fn digits_val(s: Seq<char>) -> nat
    decreases s.len(),
{
    if s.len() == 0 {
        0
    } else {
        digits_val(s.drop_last()) * 10 + char_digit_val(s.last())
    }
}

/// Reading back a decimal rendering gives the number it came from.
pub proof fn lemma_dec_digits_val(n: nat)
    ensures
        all_digits(dec_digits(n)),
        digits_val(dec_digits(n)) == n,
        dec_digits(n).len() >= 1,
    decreases n,
{
    if n < 10 {
        let s = dec_digits(n);
        assert(s =~= seq![digit_char(n as int)]);
        assert(s.drop_last() =~= Seq::<char>::empty());
        assert(digits_val(Seq::<char>::empty()) == 0);
        assert(char_digit_val(digit_char(n as int)) == n);
    } else {
        lemma_dec_digits_val(n / 10);
        let s = dec_digits(n);
        assert(s.drop_last() =~= dec_digits(n / 10));
        assert(s.last() == digit_char((n % 10) as int));
    }
}

/// A prefix of a digit string never denotes more than the whole string.
pub proof fn lemma_digits_prefix_le(s: Seq<char>, i: int)
    requires
        0 <= i <= s.len(),
    ensures
        digits_val(s.subrange(0, i)) <= digits_val(s),
    decreases s.len() - i,
{
    if i == s.len() {
        assert(s.subrange(0, i) =~= s);
    } else {
        lemma_digits_prefix_le(s.drop_last(), i);
        assert(s.drop_last().subrange(0, i) =~= s.subrange(0, i));
        assert(digits_val(s.drop_last()) * 10 >= digits_val(s.drop_last()));
    }
}

/// Classifies a character as a decimal digit.
pub fn char_digit_exec(c: char) -> (r: Option<u64>)
    ensures
        match r {
            Some(d) => char_digit(c) && d == char_digit_val(c) && d < 10,
            None => !char_digit(c),
        },
{
    if c == '0' {
        Some(0)
    } else if c == '1' {
        Some(1)
    } else if c == '2' {
        Some(2)
    } else if c == '3' {
        Some(3)
    } else if c == '4' {
        Some(4)
    } else if c == '5' {
        Some(5)
    } else if c == '6' {
        Some(6)
    } else if c == '7' {
        Some(7)
    } else if c == '8' {
        Some(8)
    } else if c == '9' {
        Some(9)
    } else {
        None
    }
}

// ----------------------------------------------------------------------------
// List joining with a final conjunction.
// ----------------------------------------------------------------------------

/// The views of a sequence of strings.
pub open spec fn str_views(items: Seq<String>) -> Seq<Seq<char>> {
    items.map_values(|s: String| s@)
}

/// All items joined with ", " between them.
pub open spec fn comma_join(items: Seq<Seq<char>>) -> Seq<char>
    decreases items.len(),
{
    if items.len() == 0 {
        Seq::empty()
    } else if items.len() == 1 {
        items[0]
    } else {
        comma_join(items.drop_last()) + seq![',', ' '] + items.last()
    }
}

/// Items joined with commas, with the localized conjunction before the last
/// item: an empty list yields the empty string, a single item is returned
/// unchanged, and two or more items become
/// `a, b, ..., y <conjunction> z`.
pub open spec fn join_with_conjunction(items: Seq<Seq<char>>, conj: Seq<char>) -> Seq<char> {
    if items.len() == 0 {
        Seq::empty()
    } else if items.len() == 1 {
        items[0]
    } else {
        comma_join(items.drop_last()) + seq![' '] + conj + seq![' '] + items.last()
    }
}

/// Joins `items` with commas and a final `delimiter` word, oxford-less.
pub fn vec_to_and_string(items: &Vec<String>, delimiter: &str) -> (r: String)
    ensures
        r@ == join_with_conjunction(str_views(items@), delimiter@),
{
    let len = items.len();
    if len == 0 {
        String::new()
    } else if len == 1 {
        let r = items[0].clone();
        assert(str_views(items@)[0] == items@[0]@);
        r
    } else {
        let mut joined = items[0].clone();
        let mut i: usize = 1;
        assert(str_views(items@).subrange(0, 1) =~= seq![items@[0]@]);
        while i < len - 1
            invariant
                1 <= i <= len - 1,
                len == items@.len(),
                joined@ == comma_join(str_views(items@).subrange(0, i as int)),
            decreases len - 1 - i,
        {
            joined.append(", ");
            joined.append(items[i].as_str());
            proof {
                reveal_strlit(", ");
                assert(", "@ =~= seq![',', ' ']);
                let vs = str_views(items@);
                assert(vs.subrange(0, i + 1).drop_last() =~= vs.subrange(0, i as int));
                assert(vs.subrange(0, i + 1).last() == items@[i as int]@);
            }
            i += 1;
        }
        joined.append(" ");
        joined.append(delimiter);
        joined.append(" ");
        joined.append(items[len - 1].as_str());
        proof {
            reveal_strlit(" ");
            assert(" "@ =~= seq![' ']);
            let vs = str_views(items@);
            assert(vs.drop_last() =~= vs.subrange(0, (len - 1) as int));
            assert(vs.last() == items@[len - 1]@);
        }
        joined
    }
}

/// All items joined with a line break between them.
pub open spec fn nl_join(items: Seq<Seq<char>>) -> Seq<char>
    decreases items.len(),
{
    if items.len() == 0 {
        Seq::empty()
    } else if items.len() == 1 {
        items[0]
    } else {
        nl_join(items.drop_last()) + seq!['\n'] + items.last()
    }
}

/// Joins strings with line breaks.
pub fn join_lines(items: &Vec<String>) -> (r: String)
    ensures
        r@ == nl_join(str_views(items@)),
{
    let len = items.len();
    if len == 0 {
        return String::new();
    }
    let mut joined = items[0].clone();
    proof {
        assert(str_views(items@).subrange(0, 1) =~= seq![items@[0]@]);
    }
    let mut i: usize = 1;
    while i < len
        invariant
            1 <= i <= len,
            len == items@.len(),
            joined@ == nl_join(str_views(items@).subrange(0, i as int)),
        decreases len - i,
    {
        push_char(&mut joined, '\n');
        joined.append(items[i].as_str());
        proof {
            let vs = str_views(items@);
            assert(vs.subrange(0, i + 1).drop_last() =~= vs.subrange(0, i as int));
            assert(vs.subrange(0, i + 1).last() == items@[i as int]@);
        }
        i += 1;
    }
    proof {
        assert(str_views(items@).subrange(0, len as int) =~= str_views(items@));
    }
    joined
}

/// Reads an unsigned 32-bit number out of the digits of `s` from `from` on.
pub fn parse_u32_digits(s: &str, from: usize) -> (r: Option<u32>)
    requires
        from <= s@.len(),
    ensures
        ({
            let part = s@.subrange(from as int, s@.len() as int);
            match r {
                Some(v) => part.len() > 0 && all_digits(part) && v == digits_val(part)
                    && digits_val(part) < 0x1_0000_0000,
                None => !(part.len() > 0 && all_digits(part) && digits_val(part)
                    < 0x1_0000_0000),
            }
        }),
{
    let n = s.unicode_len();
    if from == n {
        return None;
    }
    let mut val: u64 = 0;
    let mut i: usize = from;
    while i < n
        invariant
            from <= i <= n,
            n == s@.len(),
            all_digits(s@.subrange(from as int, i as int)),
            val == digits_val(s@.subrange(from as int, i as int)),
            val < 0x1_0000_0000,
        decreases n - i,
    {
        let c = s.get_char(i);
        match char_digit_exec(c) {
            None => {
                proof {
                    assert(s@.subrange(from as int, n as int)[i - from] == s@[i as int]);
                }
                return None;
            },
            Some(d) => {
                val = val * 10 + d;
                proof {
                    let pre = s@.subrange(from as int, i + 1);
                    assert(pre.drop_last() =~= s@.subrange(from as int, i as int));
                    assert(pre.last() == s@[i as int]);
                }
                if val >= 0x1_0000_0000 {
                    proof {
                        let whole = s@.subrange(from as int, n as int);
                        assert(whole.subrange(0, i + 1 - from) =~= s@.subrange(
                            from as int,
                            i + 1,
                        ));
                        lemma_digits_prefix_le(whole, i + 1 - from);
                    }
                    return None;
                }
                i += 1;
            },
        }
    }
    proof {
        assert(s@.subrange(from as int, i as int) =~= s@.subrange(from as int, n as int));
    }
    Some(val as u32)
}

// ----------------------------------------------------------------------------
// Splitting on a separator character.
// ----------------------------------------------------------------------------

/// The position of the first `sep` in `s`, or -1 when there is none.
pub open spec fn find_char(s: Seq<char>, sep: char) -> int
    decreases s.len(),
{
    if s.len() == 0 {
        -1
    } else if s[0] == sep {
        0
    } else {
        let k = find_char(s.drop_first(), sep);
        if k < 0 {
            -1
        } else {
            k + 1
        }
    }
}

/// `find_char` returns the least occurrence.
pub proof fn lemma_find_char_at(s: Seq<char>, sep: char, i: int)
    requires
        0 <= i < s.len(),
        s[i] == sep,
        forall|j: int| 0 <= j < i ==> s[j] != sep,
    ensures
        find_char(s, sep) == i,
    decreases i,
{
    if i > 0 {
        assert forall|j: int| 0 <= j < i - 1 implies s.drop_first()[j] != sep by {
            assert(s[j + 1] != sep);
        }
        lemma_find_char_at(s.drop_first(), sep, i - 1);
    }
}

/// `find_char` is -1 when the separator does not occur.
pub proof fn lemma_find_char_none(s: Seq<char>, sep: char)
    requires
        forall|j: int| 0 <= j < s.len() ==> s[j] != sep,
    ensures
        find_char(s, sep) == -1,
    decreases s.len(),
{
    if s.len() > 0 {
        assert forall|j: int| 0 <= j < s.drop_first().len() implies s.drop_first()[j] != sep by {
            assert(s[j + 1] != sep);
        }
        lemma_find_char_none(s.drop_first(), sep);
    }
}

/// `s` split at every `sep`: one piece more than there are separators, in
/// order, separators dropped.
pub open spec fn split_char(s: Seq<char>, sep: char) -> Seq<Seq<char>>
    decreases s.len(),
{
    let k = find_char(s, sep);
    if 0 <= k < s.len() {
        seq![s.subrange(0, k)] + split_char(s.subrange(k + 1, s.len() as int), sep)
    } else {
        seq![s]
    }
}

/// Splits a string at every occurrence of `sep`.
pub fn split_str(s: &str, sep: char) -> (r: Vec<String>)
    ensures
        str_views(r@) == split_char(s@, sep),
{
    let n = s.unicode_len();
    let mut out: Vec<String> = Vec::new();
    let mut start: usize = 0;
    let mut i: usize = 0;
    proof {
        assert(suffix_of(s@, 0) =~= s@);
        assert(str_views(out@) + split_char(s@, sep) =~= split_char(s@, sep));
    }
    while i < n
        invariant
            start <= i <= n,
            n == s@.len(),
            str_views(out@) + split_char(suffix_of(s@, start as int), sep) == split_char(s@, sep),
            forall|j: int| start <= j < i ==> s@[j] != sep,
        decreases n - i,
    {
        if s.get_char(i) == sep {
            let piece = s.substring_char(start, i).to_owned();
            proof {
                let suf = suffix_of(s@, start as int);
                assert(suf[i - start] == sep);
                assert forall|j: int| 0 <= j < i - start implies suf[j] != sep by {
                    assert(s@[start + j] != sep);
                }
                lemma_find_char_at(suf, sep, i - start);
                assert(suf.subrange(0, i - start) =~= s@.subrange(start as int, i as int));
                assert(suf.subrange(i - start + 1, suf.len() as int) =~= suffix_of(s@, i + 1));
                let ghost ov = str_views(out@);
                assert(str_views(out@.push(piece)) =~= ov.push(piece@));
                assert(ov.push(piece@) + split_char(suffix_of(s@, i + 1), sep) =~= ov + (seq![
                    piece@,
                ] + split_char(suffix_of(s@, i + 1), sep)));
            }
            out.push(piece);
            start = i + 1;
        }
        i += 1;
    }
    let piece = s.substring_char(start, n).to_owned();
    proof {
        let suf = suffix_of(s@, start as int);
        assert forall|j: int| 0 <= j < suf.len() implies suf[j] != sep by {
            assert(s@[start + j] != sep);
        }
        lemma_find_char_none(suf, sep);
        assert(suf =~= s@.subrange(start as int, n as int));
        let ghost ov = str_views(out@);
        assert(str_views(out@.push(piece)) =~= ov.push(piece@));
        assert(ov.push(piece@) =~= ov + seq![piece@]);
    }
    out.push(piece);
    out
}

/// The input from position `i` on.
pub open spec fn suffix_of(s: Seq<char>, i: int) -> Seq<char> {
    s.subrange(i, s.len() as int)
}

// ----------------------------------------------------------------------------
// Lowercasing.
// ----------------------------------------------------------------------------

/// The characters that `c` lowercases to.
pub uninterp spec fn lower_chars(c: char) -> Seq<char>;

/// Relies on char::to_lowercase: the lowercase mapping of a character depends
/// on the character alone.
#[verifier::external_body]
pub fn char_lower(c: char) -> (r: String)
    ensures
        r@ == lower_chars(c),
{
    c.to_lowercase().collect()
}

/// `s` with its first character lowercased.
pub open spec fn lower_first_spec(s: Seq<char>) -> Seq<char> {
    if s.len() == 0 {
        s
    } else {
        lower_chars(s[0]) + s.subrange(1, s.len() as int)
    }
}

/// Lowercases the first character of a string.
pub fn lowercase_first(s: &str) -> (r: String)
    ensures
        r@ == lower_first_spec(s@),
{
    let n = s.unicode_len();
    if n == 0 {
        String::new()
    } else {
        let mut r = char_lower(s.get_char(0));
        r.append(s.substring_char(1, n));
        r
    }
}

/// Every character of `s` lowercased, character by character.
pub open spec fn lower_seq(s: Seq<char>) -> Seq<char>
    decreases s.len(),
{
    if s.len() == 0 {
        Seq::empty()
    } else {
        lower_seq(s.drop_last()) + lower_chars(s.last())
    }
}

/// Lowercases a whole string, character by character.
pub fn lowercase_all(s: &str) -> (r: String)
    ensures
        r@ == lower_seq(s@),
{
    let n = s.unicode_len();
    let mut r = String::new();
    let mut i: usize = 0;
    while i < n
        invariant
            i <= n,
            n == s@.len(),
            r@ == lower_seq(s@.subrange(0, i as int)),
        decreases n - i,
    {
        let low = char_lower(s.get_char(i));
        r.append(low.as_str());
        proof {
            let pre = s@.subrange(0, i + 1);
            assert(pre.drop_last() =~= s@.subrange(0, i as int));
            assert(pre.last() == s@[i as int]);
        }
        i += 1;
    }
    assert(s@.subrange(0, n as int) =~= s@);
    r
}

// ----------------------------------------------------------------------------
// Article adjustment.
// ----------------------------------------------------------------------------

/// The English vowels the article rule looks at.
pub open spec fn is_vowel(c: char) -> bool {
    c == 'a' || c == 'e' || c == 'i' || c == 'o' || c == 'u'
}

/// The trailing template shape that triggers the article rule.
pub open spec fn a_marker() -> Seq<char> {
    seq![' ', 'a', ' ', '{', '}', '.']
}

/// The replacement tail once the rule fires.
pub open spec fn an_marker() -> Seq<char> {
    seq![' ', 'a', 'n', ' ', '{', '}', '.']
}

/// The article rule: a template ending in `" a {}."` whose substituted value
/// starts with a vowel ends in `" an {}."` instead; any other template is
/// returned unchanged.
pub open spec fn adjust_article_spec(first: Seq<char>, second: Seq<char>) -> Seq<char> {
    if first.len() >= 6 && first.subrange(first.len() - 6, first.len() as int) == a_marker()
        && second.len() > 0 && is_vowel(second[0]) {
        first.subrange(0, first.len() - 6) + an_marker()
    } else {
        first
    }
}

fn exec_is_vowel(c: char) -> (r: bool)
    ensures
        r == is_vowel(c),
{
    c == 'a' || c == 'e' || c == 'i' || c == 'o' || c == 'u'
}

/// Adjusts the indefinite article of a sentence template for the value that
/// will be substituted into it.
pub fn adjust_article(first: &str, second: &str) -> (r: String)
    ensures
        r@ == adjust_article_spec(first@, second@),
{
    let n = first.unicode_len();
    let fires = n >= 6 && first.get_char(n - 6) == ' ' && first.get_char(n - 5) == 'a'
        && first.get_char(n - 4) == ' ' && first.get_char(n - 3) == '{'
        && first.get_char(n - 2) == '}' && first.get_char(n - 1) == '.'
        && second.unicode_len() > 0 && exec_is_vowel(second.get_char(0));
    proof {
        if n >= 6 {
            assert(fires == (first@.subrange(n - 6, n as int) =~= a_marker() && second@.len() > 0
                && is_vowel(second@[0])));
        }
    }
    if fires {
        let mut r = first.substring_char(0, n - 6).to_owned();
        r.append(" an {}.");
        proof {
            reveal_strlit(" an {}.");
            assert(" an {}."@ =~= an_marker());
        }
        r
    } else {
        first.to_owned()
    }
}

// ----------------------------------------------------------------------------
// Template placeholder substitution.
// ----------------------------------------------------------------------------

/// Whether a `{}` placeholder sits at position `i` of `s`.
pub open spec fn marker_at(s: Seq<char>, i: int) -> bool {
    0 <= i && i + 1 < s.len() && s[i] == '{' && s[i + 1] == '}'
}

/// The position of the first `{}` placeholder in `s`, or -1 when there is none.
pub open spec fn find_marker(s: Seq<char>) -> int
    decreases s.len(),
{
    if s.len() < 2 {
        -1
    } else if s[0] == '{' && s[1] == '}' {
        0
    } else {
        let k = find_marker(s.drop_first());
        if k < 0 {
            -1
        } else {
            k + 1
        }
    }
}

/// `find_marker` returns the least placeholder position.
proof fn lemma_find_marker_at(s: Seq<char>, i: int)
    requires
        marker_at(s, i),
        forall|j: int| 0 <= j < i ==> !marker_at(s, j),
    ensures
        find_marker(s) == i,
    decreases i,
{
    if i == 0 {
    } else {
        assert(!marker_at(s, 0));
        assert(1 < s.len());
        assert(!(s[0] == '{' && s[1] == '}'));
        assert(marker_at(s.drop_first(), i - 1));
        assert forall|j: int| 0 <= j < i - 1 implies !marker_at(s.drop_first(), j) by {
            assert(!marker_at(s, j + 1));
        }
        lemma_find_marker_at(s.drop_first(), i - 1);
    }
}

/// `find_marker` is -1 when there is no placeholder.
proof fn lemma_find_marker_none(s: Seq<char>)
    requires
        forall|j: int| !marker_at(s, j),
    ensures
        find_marker(s) == -1,
    decreases s.len(),
{
    if s.len() >= 2 {
        assert(!marker_at(s, 0));
        assert forall|j: int| !marker_at(s.drop_first(), j) by {
            if 0 <= j {
                assert(!marker_at(s, j + 1));
            }
        }
        lemma_find_marker_none(s.drop_first());
    }
}

/// Finds the first `{}` placeholder of a string.
pub fn find_marker_exec(s: &str) -> (r: Option<usize>)
    ensures
        match r {
            Some(i) => find_marker(s@) == i && i + 1 < s@.len(),
            None => find_marker(s@) == -1,
        },
{
    let n = s.unicode_len();
    if n < 2 {
        proof {
            assert(forall|j: int| !marker_at(s@, j));
            lemma_find_marker_none(s@);
        }
        return None;
    }
    let mut i: usize = 0;
    while i < n - 1
        invariant
            i <= n - 1,
            n == s@.len(),
            2 <= n,
            forall|j: int| 0 <= j < i ==> !marker_at(s@, j),
        decreases n - i,
    {
        if s.get_char(i) == '{' && s.get_char(i + 1) == '}' {
            proof {
                lemma_find_marker_at(s@, i as int);
            }
            return Some(i);
        }
        i += 1;
    }
    proof {
        assert(forall|j: int| !marker_at(s@, j));
        lemma_find_marker_none(s@);
    }
    None
}

/// `s` with its first `{}` placeholder replaced by `rep`; `s` itself when it
/// has no placeholder.
pub open spec fn replace_first_marker(s: Seq<char>, rep: Seq<char>) -> Seq<char> {
    let k = find_marker(s);
    if k < 0 {
        s
    } else {
        s.subrange(0, k) + rep + s.subrange(k + 2, s.len() as int)
    }
}

/// `s` with every `{}` placeholder replaced by `rep`, left to right.
pub open spec fn replace_all_markers(s: Seq<char>, rep: Seq<char>) -> Seq<char>
    decreases s.len(),
{
    let k = find_marker(s);
    if 0 <= k && k + 2 <= s.len() {
        s.subrange(0, k) + rep + replace_all_markers(s.subrange(k + 2, s.len() as int), rep)
    } else {
        s
    }
}

/// Replaces the first `{}` placeholder of a template.
pub fn replace_first_exec(s: &str, rep: &str) -> (r: String)
    ensures
        r@ == replace_first_marker(s@, rep@),
{
    match find_marker_exec(s) {
        None => s.to_owned(),
        Some(k) => {
            let n = s.unicode_len();
            let mut r = s.substring_char(0, k).to_owned();
            r.append(rep);
            r.append(s.substring_char(k + 2, n));
            r
        },
    }
}

/// Replaces every `{}` placeholder of a template, left to right.
pub fn replace_all_exec(s: &str, rep: &str) -> (r: String)
    ensures
        r@ == replace_all_markers(s@, rep@),
    decreases s@.len(),
{
    match find_marker_exec(s) {
        None => s.to_owned(),
        Some(k) => {
            let n = s.unicode_len();
            let mut r = s.substring_char(0, k).to_owned();
            r.append(rep);
            let rest = replace_all_exec(s.substring_char(k + 2, n), rep);
            r.append(rest.as_str());
            r
        },
    }
}

} // verus!
