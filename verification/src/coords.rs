use vstd::prelude::*;
use crate::utils::{
    all_digits, char_digit_exec, char_digit_val, dec_digits, digits_val, find_char,
    lemma_digits_prefix_le, push_char, suffix_of, u64_to_string,
};

verus! {

// ----------------------------------------------------------------------------
// Geographic coordinates. The dump carries decimal-degree strings; they are
// rendered as degree/minute/second with a hemisphere letter, the fraction
// handled as an exact scaled integer.
// ----------------------------------------------------------------------------

/// Ten to the `k`.
pub open spec fn pow10(k: nat) -> nat
    decreases k,
{
    if k == 0 {
        1
    } else {
        10 * pow10((k - 1) as nat)
    }
}

/// A digit string of length `k` denotes less than ten to the `k`.
proof fn lemma_digits_val_bound(s: Seq<char>)
    ensures
        digits_val(s) < pow10(s.len()),
    decreases s.len(),
{
    if s.len() == 0 {
    } else {
        lemma_digits_val_bound(s.drop_last());
        assert(pow10(s.len()) == 10 * pow10((s.len() - 1) as nat));
        assert(char_digit_val(s.last()) <= 9);
    }
}

/// A run of `k` zero digits.
pub open spec fn zero_digits(k: nat) -> Seq<char> {
    Seq::new(k, |i: int| '0')
}

/// Appending zero digits multiplies the denoted value by a power of ten.
proof fn lemma_digits_append_zeros(s: Seq<char>, k: nat)
    ensures
        digits_val(s + zero_digits(k)) == digits_val(s) * pow10(k),
    decreases k,
{
    if k == 0 {
        assert(s + zero_digits(0) =~= s);
        assert(digits_val(s) * 1 == digits_val(s)) by (nonlinear_arith);
    } else {
        lemma_digits_append_zeros(s, (k - 1) as nat);
        let whole = s + zero_digits(k);
        assert(whole.drop_last() =~= s + zero_digits((k - 1) as nat));
        assert(whole.last() == '0');
        assert(digits_val(whole) == digits_val(s) * pow10((k - 1) as nat) * 10);
        assert(digits_val(s) * pow10((k - 1) as nat) * 10 == digits_val(s) * (10 * pow10(
            (k - 1) as nat,
        ))) by (nonlinear_arith);
    }
}

/// The small powers of ten, spelled out.
proof fn lemma_pow10_small()
    ensures
        pow10(0) == 1,
        pow10(1) == 10,
        pow10(2) == 100,
        pow10(3) == 1000,
        pow10(4) == 10000,
        pow10(5) == 100000,
        pow10(6) == 1000000,
        pow10(7) == 10000000,
        pow10(8) == 100000000,
        pow10(9) == 1000000000,
        pow10(12) == 1000000000000,
{
    assert(pow10(0) == 1);
    assert(pow10(1) == 10);
    assert(pow10(2) == 100);
    assert(pow10(3) == 1000);
    assert(pow10(4) == 10000);
    assert(pow10(5) == 100000);
    assert(pow10(6) == 1000000);
    assert(pow10(7) == 10000000);
    assert(pow10(8) == 100000000);
    assert(pow10(9) == 1000000000);
    assert(pow10(10) == 10000000000);
    assert(pow10(11) == 100000000000);
    assert(pow10(12) == 1000000000000);
}

/// The first nine fraction digits, zero-padded on the right.
pub open spec fn frac9(fd: Seq<char>) -> Seq<char> {
    if fd.len() >= 9 {
        fd.subrange(0, 9)
    } else {
        fd + zero_digits((9 - fd.len()) as nat)
    }
}

/// The fraction digits as an integer scaled to nine decimal places.
pub open spec fn frac_scaled(fd: Seq<char>) -> nat {
    digits_val(frac9(fd))
}

/// What a decimal-degree string parses to: its sign, integer part and
/// scaled fraction; nothing when it is not a plain decimal number or its
/// integer part is out of machine range.
pub open spec fn parse_decimal(s: Seq<char>) -> Option<(bool, nat, nat)> {
    let neg = s.len() > 0 && s[0] == '-';
    let body = if s.len() > 0 && (s[0] == '-' || s[0] == '+') {
        s.drop_first()
    } else {
        s
    };
    let k = find_char(body, '.');
    if 0 <= k < body.len() {
        let ipart = body.subrange(0, k);
        let fpart = body.subrange(k + 1, body.len() as int);
        if ipart.len() > 0 && all_digits(ipart) && digits_val(ipart) < 1000000000000
            && fpart.len() > 0 && all_digits(fpart) {
            Some((neg, digits_val(ipart), frac_scaled(fpart)))
        } else {
            None
        }
    } else {
        if body.len() > 0 && all_digits(body) && digits_val(body) < 1000000000000 {
            Some((neg, digits_val(body), 0))
        } else {
            None
        }
    }
}

/// The scaled fraction always has nine decimal places.
proof fn lemma_frac_scaled_bound(fd: Seq<char>)
    ensures
        frac_scaled(fd) < 1000000000,
{
    lemma_digits_val_bound(frac9(fd));
    lemma_pow10_small();
}

/// Reads a digit run of `s` from `from` up to `stop` or the end, requiring
/// at least one digit and a bounded value.
fn parse_digit_run(s: &str, from: usize, stop: usize) -> (r: Option<u64>)
    requires
        from <= stop <= s@.len(),
    ensures
        ({
            let part = s@.subrange(from as int, stop as int);
            match r {
                Some(v) => part.len() > 0 && all_digits(part) && v == digits_val(part) && v
                    < 1000000000000,
                None => !(part.len() > 0 && all_digits(part) && digits_val(part)
                    < 1000000000000),
            }
        }),
{
    if from == stop {
        return None;
    }
    let mut val: u64 = 0;
    let mut i: usize = from;
    while i < stop
        invariant
            from <= i <= stop <= s@.len(),
            all_digits(s@.subrange(from as int, i as int)),
            val == digits_val(s@.subrange(from as int, i as int)),
            val < 1000000000000,
        decreases stop - i,
    {
        let c = s.get_char(i);
        match char_digit_exec(c) {
            None => {
                proof {
                    assert(s@.subrange(from as int, stop as int)[i - from] == s@[i as int]);
                }
                return None;
            },
            Some(d) => {
                val = val * 10 + d;
                proof {
                    let pre = s@.subrange(from as int, i + 1);
                    assert(pre.drop_last() =~= s@.subrange(from as int, i as int));
                    assert(pre.last() == s@[i as int]);
                }
                if val >= 1000000000000 {
                    proof {
                        let whole = s@.subrange(from as int, stop as int);
                        assert(whole.subrange(0, i + 1 - from) =~= s@.subrange(
                            from as int,
                            i + 1,
                        ));
                        lemma_digits_prefix_le(whole, i + 1 - from);
                    }
                    return None;
                }
                i += 1;
            },
        }
    }
    Some(val)
}

/// Ten to a small power, executably.
fn pow10_exec(k: usize) -> (r: u64)
    requires
        k <= 9,
    ensures
        r == pow10(k as nat),
{
    proof {
        lemma_pow10_small();
    }
    if k == 0 {
        1
    } else if k == 1 {
        10
    } else if k == 2 {
        100
    } else if k == 3 {
        1000
    } else if k == 4 {
        10000
    } else if k == 5 {
        100000
    } else if k == 6 {
        1000000
    } else if k == 7 {
        10000000
    } else if k == 8 {
        100000000
    } else {
        1000000000
    }
}

/// Reads the fraction digits of `s` from `from` to the end: all must be
/// digits, and the first nine carry the value, scaled to nine places.
fn parse_frac_run(s: &str, from: usize) -> (r: Option<u64>)
    requires
        from <= s@.len(),
    ensures
        ({
            let part = s@.subrange(from as int, s@.len() as int);
            match r {
                Some(v) => part.len() > 0 && all_digits(part) && v == frac_scaled(part) && v
                    < 1000000000,
                None => !(part.len() > 0 && all_digits(part)),
            }
        }),
{
    let n = s.unicode_len();
    if from == n {
        return None;
    }
    let mut fval: u64 = 0;
    let mut taken: usize = 0;
    let mut j: usize = from;
    while j < n
        invariant
            from <= j <= n,
            n == s@.len(),
            taken <= 9,
            taken == if j - from <= 9 {
                j - from
            } else {
                9
            },
            all_digits(s@.subrange(from as int, j as int)),
            fval == digits_val(s@.subrange(from as int, from + taken)),
            fval < pow10(taken as nat),
        decreases n - j,
    {
        let c = s.get_char(j);
        match char_digit_exec(c) {
            None => {
                proof {
                    assert(s@.subrange(from as int, n as int)[j - from] == s@[j as int]);
                }
                return None;
            },
            Some(d) => {
                proof {
                    let pre = s@.subrange(from as int, j + 1);
                    assert(pre.drop_last() =~= s@.subrange(from as int, j as int));
                    assert(pre.last() == s@[j as int]);
                }
                if taken < 9 {
                    proof {
                        lemma_pow10_small();
                        assert(pow10((taken + 1) as nat) == 10 * pow10(taken as nat));
                        let pre = s@.subrange(from as int, from + taken + 1);
                        assert(pre.drop_last() =~= s@.subrange(from as int, from + taken));
                        assert(pre.last() == s@[j as int]);
                    }
                    fval = fval * 10 + d;
                    taken += 1;
                }
                j += 1;
            },
        }
    }
    let scale = pow10_exec(9 - taken);
    proof {
        lemma_pow10_small();
        assert(fval * scale < pow10(taken as nat) * pow10((9 - taken) as nat))
            by (nonlinear_arith)
            requires
                fval < pow10(taken as nat),
                scale == pow10((9 - taken) as nat),
                scale >= 1,
        ;
        lemma_pow_mul(taken as nat, (9 - taken) as nat);
    }
    let scaled = fval * scale;
    proof {
        let part = s@.subrange(from as int, n as int);
        let flen = (n - from) as nat;
        assert(part.len() == flen);
        if flen >= 9 {
            assert(taken == 9);
            assert(frac9(part) =~= s@.subrange(from as int, from + 9));
            assert(scale == 1);
            assert(fval * 1 == fval) by (nonlinear_arith);
        } else {
            assert(taken == flen);
            assert(s@.subrange(from as int, from + taken) =~= part);
            lemma_digits_append_zeros(part, (9 - flen) as nat);
            assert(frac9(part) == part + zero_digits((9 - flen) as nat));
        }
        lemma_frac_scaled_bound(part);
    }
    Some(scaled)
}

/// Parses a decimal-degree string into sign, integer part and scaled
/// fraction.
pub fn parse_decimal_exec(s: &str) -> (r: Option<(bool, u64, u64)>)
    ensures
        (match r {
            Some(p) => parse_decimal(s@) == Some(((p.0, p.1 as nat, p.2 as nat))) && p.2
                < 1000000000,
            None => parse_decimal(s@) is None,
        }),
{
    let n = s.unicode_len();
    let signed = n > 0 && (s.get_char(0) == '-' || s.get_char(0) == '+');
    let neg = n > 0 && s.get_char(0) == '-';
    let start: usize = if signed {
        1
    } else {
        0
    };
    let ghost body = if signed {
        s@.drop_first()
    } else {
        s@
    };
    proof {
        assert(body =~= suffix_of(s@, start as int));
    }
    // Find the dot, if any.
    let mut i: usize = start;
    while i < n && s.get_char(i) != '.'
        invariant
            start <= i <= n,
            n == s@.len(),
            forall|j: int| start <= j < i ==> s@[j] != '.',
        decreases n - i,
    {
        i += 1;
    }
    let dot: usize = i;
    proof {
        if dot < n {
            assert(body[dot - start] == '.');
            assert forall|j: int| 0 <= j < dot - start implies body[j] != '.' by {
                assert(s@[start + j] != '.');
            }
            crate::utils::lemma_find_char_at(body, '.', dot - start);
        } else {
            assert forall|j: int| 0 <= j < body.len() implies body[j] != '.' by {
                assert(s@[start + j] != '.');
            }
            crate::utils::lemma_find_char_none(body, '.');
        }
    }
    if dot == n {
        // No fraction.
        match parse_digit_run(s, start, n) {
            None => {
                proof {
                    assert(body =~= s@.subrange(start as int, n as int));
                }
                None
            },
            Some(ip) => {
                proof {
                    assert(body =~= s@.subrange(start as int, n as int));
                }
                Some((neg, ip, 0))
            },
        }
    } else {
        let ghost ipart = body.subrange(0, dot - start);
        let ghost fpart = body.subrange(dot - start + 1, body.len() as int);
        proof {
            assert(ipart =~= s@.subrange(start as int, dot as int));
            assert(fpart =~= s@.subrange(dot + 1, n as int));
        }
        match parse_digit_run(s, start, dot) {
            None => None,
            Some(ip) => {
                if dot + 1 == n {
                    proof {
                        assert(fpart.len() == 0);
                    }
                    return None;
                }
                match parse_frac_run(s, dot + 1) {
                    None => None,
                    Some(scaled) => {
                        proof {
                            assert(fpart =~= s@.subrange(dot + 1, n as int));
                        }
                        Some((neg, ip, scaled))
                    },
                }
            },
        }
    }
}

/// Powers of ten multiply by adding exponents.
proof fn lemma_pow_mul(a: nat, b: nat)
    ensures
        pow10(a) * pow10(b) == pow10(a + b),
    decreases a,
{
    if a == 0 {
        assert(1 * pow10(b) == pow10(b)) by (nonlinear_arith);
    } else {
        lemma_pow_mul((a - 1) as nat, b);
        assert(pow10(a) * pow10(b) == 10 * (pow10((a - 1) as nat) * pow10(b)))
            by (nonlinear_arith)
            requires
                pow10(a) == 10 * pow10((a - 1) as nat),
        ;
    }
}

/// The hemisphere letter for an axis and sign.
pub open spec fn hemisphere(is_latitude: bool, neg: bool) -> char {
    if is_latitude {
        if neg {
            'S'
        } else {
            'N'
        }
    } else {
        if neg {
            'W'
        } else {
            'E'
        }
    }
}

/// The degree, minute and second a scaled fraction stands for, the seconds
/// rounded to the nearest whole.
pub open spec fn dms_minutes(frac: nat) -> nat {
    (60 * frac) / 1000000000
}

/// The rounded seconds of a scaled fraction, after its whole minutes.
pub open spec fn dms_seconds(frac: nat) -> nat {
    (120 * ((60 * frac) % 1000000000) + 1000000000) / 2000000000
}

/// What one axis renders to: degrees, minutes, seconds and the hemisphere
/// letter; nothing when the string is not a readable decimal.
pub open spec fn format_coordinate_spec(s: Seq<char>, is_latitude: bool) -> Option<Seq<char>> {
    match parse_decimal(s) {
        None => None,
        Some(p) => Some(
            dec_digits(p.1) + seq!['\u{b0}'] + dec_digits(dms_minutes(p.2)) + seq!['\'']
                + dec_digits(dms_seconds(p.2)) + seq!['"'] + seq![
                hemisphere(is_latitude, p.0),
            ],
        ),
    }
}

/// Renders one decimal-degree axis as degree/minute/second with its
/// hemisphere letter; an unreadable value yields nothing rather than a
/// fault.
pub fn format_coordinate(value: &str, is_latitude: bool) -> (r: Option<String>)
    ensures
        (match r {
            Some(t) => format_coordinate_spec(value@, is_latitude) == Some(t@),
            None => format_coordinate_spec(value@, is_latitude) is None,
        }),
{
    match parse_decimal_exec(value) {
        None => None,
        Some((neg, ip, frac)) => {
            let minutes = (60 * frac) / 1000000000;
            let seconds = (120 * ((60 * frac) % 1000000000) + 1000000000) / 2000000000;
            let mut out = u64_to_string(ip);
            push_char(&mut out, '\u{b0}');
            let m = u64_to_string(minutes);
            out.append(m.as_str());
            push_char(&mut out, '\'');
            let sec = u64_to_string(seconds);
            out.append(sec.as_str());
            push_char(&mut out, '"');
            let dir = if is_latitude {
                if neg {
                    'S'
                } else {
                    'N'
                }
            } else {
                if neg {
                    'W'
                } else {
                    'E'
                }
            };
            push_char(&mut out, dir);
            proof {
                assert(out@ =~= dec_digits(ip as nat) + seq!['\u{b0}'] + dec_digits(
                    dms_minutes(frac as nat),
                ) + seq!['\''] + dec_digits(dms_seconds(frac as nat)) + seq!['"'] + seq![
                    hemisphere(is_latitude, neg),
                ]);
            }
            Some(out)
        },
    }
}

/// The rounded whole-meter altitude a decimal string stands for, away from
/// zero, with its sign.
pub open spec fn rounded_altitude(s: Seq<char>) -> Option<(bool, nat)> {
    match parse_decimal(s) {
        None => None,
        Some(p) => Some(
            (
                p.0,
                if p.2 >= 500000000 {
                    p.1 + 1
                } else {
                    p.1
                },
            ),
        ),
    }
}

/// What a coordinate pair renders to: both axes, comma-separated, with the
/// rounded altitude appended when one is present and readable.
pub open spec fn format_coordinates_spec(
    lat: Seq<char>,
    lon: Seq<char>,
    alt: Option<Seq<char>>,
) -> Option<Seq<char>> {
    match format_coordinate_spec(lat, true) {
        None => None,
        Some(la) => match format_coordinate_spec(lon, false) {
            None => None,
            Some(lo) => {
                let base = la + seq![',', ' '] + lo;
                match alt {
                    None => Some(base),
                    Some(a) => match rounded_altitude(a) {
                        None => Some(base),
                        Some(v) => Some(
                            base + seq![' ', '('] + (if v.0 && v.1 > 0 {
                                seq!['-']
                            } else {
                                Seq::empty()
                            }) + dec_digits(v.1) + seq!['m', ')'],
                        ),
                    },
                }
            },
        },
    }
}

/// Renders a latitude/longitude pair, optionally suffixed with a rounded
/// altitude in meters; an unreadable axis yields nothing and an unreadable
/// altitude is left off.
pub fn format_coordinates(lat: &str, lon: &str, alt: Option<&str>) -> (r: Option<String>)
    ensures
        ({
            let av = match alt {
                Some(a) => Some(a@),
                None => None,
            };
            match r {
                Some(t) => format_coordinates_spec(lat@, lon@, av) == Some(t@),
                None => format_coordinates_spec(lat@, lon@, av) is None,
            }
        }),
{
    match format_coordinate(lat, true) {
        None => None,
        Some(la) => match format_coordinate(lon, false) {
            None => None,
            Some(lo) => {
                let mut out = la;
                out.append(", ");
                out.append(lo.as_str());
                proof {
                    reveal_strlit(", ");
                    assert(", "@ =~= seq![',', ' ']);
                }
                proof {
                    assert(out@ =~= la@ + seq![',', ' '] + lo@);
                }
                match alt {
                    None => Some(out),
                    Some(a) => match parse_decimal_exec(a) {
                        None => Some(out),
                        Some((neg, ip, frac)) => {
                            let v: u64 = if frac >= 500000000 {
                                ip + 1
                            } else {
                                ip
                            };
                            out.append(" (");
                            if neg && v > 0 {
                                push_char(&mut out, '-');
                            }
                            let vs = u64_to_string(v);
                            out.append(vs.as_str());
                            out.append("m)");
                            proof {
                                reveal_strlit(" (");
                                reveal_strlit("m)");
                                assert(" ("@ =~= seq![' ', '(']);
                                assert("m)"@ =~= seq!['m', ')']);
                                if !(neg && v > 0) {
                                    assert((if neg && v > 0 {
                                        seq!['-']
                                    } else {
                                        Seq::<char>::empty()
                                    }) =~= Seq::<char>::empty());
                                }
                                let ghost av = a@;
                                assert(rounded_altitude(av) == Some((neg, v as nat)));
                                assert(out@ =~= (la@ + seq![',', ' '] + lo@) + seq![' ', '(']
                                    + (if neg && v > 0 {
                                    seq!['-']
                                } else {
                                    Seq::<char>::empty()
                                }) + dec_digits(v as nat) + seq!['m', ')']);
                            }
                            Some(out)
                        },
                    },
                }
            },
        },
    }
}

} // verus!
