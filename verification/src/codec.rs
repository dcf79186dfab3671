//! The zone file text format: a canonical, human-readable notation with a
//! serializer and a parser that are exact inverses.
//!
//! Every value has exactly one rendering (`spec_ser_*`), and each parser is
//! proved sound (whatever it accepts is the rendering of the value it
//! returns) and complete (the rendering of any value, followed by anything,
//! is accepted and returns that value). Parsing a serialized file therefore
//! yields the file back.

use vstd::prelude::*;
use vstd::string::StrSliceExecFns;
use crate::zone_file::{CustomProp, CustomPropView, CustomPropsMap, TransformSimple, Vec3, ZoneEntity,
    ZoneEntityView, ZoneFile, props_entries_view, zone_entities_view};
use crate::text::{char_digit_val, digit_to_char, digit_val, is_digit, is_digit_char,
    lemma_digit_char_inverse, lemma_digit_char_val, lemma_skip_split, lemma_subrange_join, push_char, push_str_chars, spec_digit_char};

verus! {

/// Canonical decimal rendering of a non-negative number.
pub open spec fn spec_dec(n: int) -> Seq<char>
    recommends
        n >= 0,
    decreases n,
{
    if n < 10 {
        seq![spec_digit_char(if n < 0 { 0 } else { n })]
    } else {
        spec_dec(n / 10) + seq![spec_digit_char(n % 10)]
    }
}

/// The number a digit string denotes.
pub open spec fn spec_dec_val(s: Seq<char>) -> int
    decreases s.len(),
{
    if s.len() == 0 {
        0
    } else {
        spec_dec_val(s.drop_last()) * 10 + digit_val(s.last())
    }
}

/// Every character of `s` is a digit.
pub open spec fn all_digits(s: Seq<char>) -> bool {
    forall|k: int| 0 <= k < s.len() ==> is_digit(#[trigger] s[k])
}

pub proof fn lemma_dec_shape(n: int)
    requires
        n >= 0,
    ensures
        spec_dec(n).len() >= 1,
        all_digits(spec_dec(n)),
        spec_dec(n)[0] == '0' <==> n == 0,
    decreases n,
{
    assert(spec_digit_char(0) == '0');
    if n < 10 {
        lemma_digit_char_val(n);
        if n != 0 {
            assert(spec_digit_char(n) != '0') by {
                lemma_digit_char_val(0);
            }
        }
    } else {
        lemma_dec_shape(n / 10);
        lemma_digit_char_val(n % 10);
        assert(n / 10 >= 1);
        let a = spec_dec(n / 10);
        let b = seq![spec_digit_char(n % 10)];
        assert(spec_dec(n) == a + b);
        assert(forall|k: int| 0 <= k < a.len() ==> (a + b)[k] == a[k]);
        assert((a + b)[a.len() as int] == b[0]);
    }
}

pub proof fn lemma_dec_val_of_dec(n: int)
    requires
        n >= 0,
    ensures
        spec_dec_val(spec_dec(n)) == n,
    decreases n,
{
    if n < 10 {
        lemma_digit_char_val(n);
        let s = spec_dec(n);
        assert(s.len() == 1);
        assert(s.drop_last() =~= Seq::<char>::empty());
        assert(s.last() == spec_digit_char(n));
        assert(spec_dec_val(Seq::<char>::empty()) == 0);
        assert(spec_dec_val(s) == 0 * 10 + digit_val(spec_digit_char(n)));
    } else {
        lemma_dec_val_of_dec(n / 10);
        lemma_digit_char_val(n % 10);
        let a = spec_dec(n / 10);
        let s = spec_dec(n);
        assert(s.drop_last() =~= a);
        assert(s.last() == spec_digit_char(n % 10));
        assert((n / 10) * 10 + n % 10 == n) by (nonlinear_arith);
    }
}

/// A digit string without a leading zero is the canonical rendering of its
/// value.
pub proof fn lemma_canonical_digits(s: Seq<char>)
    requires
        s.len() >= 1,
        all_digits(s),
        s[0] == '0' ==> s.len() == 1,
    ensures
        spec_dec_val(s) >= 0,
        spec_dec(spec_dec_val(s)) == s,
        s[0] == '0' ==> spec_dec_val(s) == 0,
    decreases s.len(),
{
    assert(spec_digit_char(0) == '0');
    if s.len() == 1 {
        let d = digit_val(s[0]);
        assert(is_digit(s[0]));
        assert(0 <= d < 10);
        assert(spec_dec_val(s) == spec_dec_val(s.drop_last()) * 10 + d);
        assert(s.drop_last().len() == 0);
        assert(spec_dec_val(s) == d);
        assert(spec_digit_char(d) == s[0]) by {
            lemma_digit_char_inverse(s[0]);
        }
        assert(spec_dec(d) =~= s);
    } else {
        let p = s.drop_last();
        assert(p[0] == s[0]);
        assert(all_digits(p)) by {
            assert(forall|k: int| 0 <= k < p.len() ==> p[k] == #[trigger] s[k]);
        }
        assert(p[0] != '0') by {
            if s[0] == '0' {
            }
        }
        lemma_canonical_digits(p);
        let pv = spec_dec_val(p);
        assert(pv >= 1) by {
            if pv == 0 {
                lemma_dec_shape(0);
                assert(spec_dec(0) == seq![spec_digit_char(0)]);
                assert(p == spec_dec(0));
                assert(p[0] == '0');
            }
        }
        let d = digit_val(s.last());
        assert(is_digit(s.last()));
        assert(0 <= d < 10);
        let v = spec_dec_val(s);
        assert(v == pv * 10 + d);
        assert(v >= 10) by (nonlinear_arith)
            requires
                pv >= 1,
                d >= 0,
                v == pv * 10 + d,
        ;
        assert(v / 10 == pv && v % 10 == d) by (nonlinear_arith)
            requires
                v == pv * 10 + d,
                0 <= d < 10,
                pv >= 0,
        ;
        assert(spec_dec(v) == spec_dec(pv) + seq![spec_digit_char(d)]);
        assert(spec_digit_char(d) == s.last()) by {
            lemma_digit_char_inverse(s.last());
        }
        assert(spec_dec(v) =~= s);
    }
}

/// A digit string denotes a non-negative number.
pub proof fn lemma_dec_val_nonneg(p: Seq<char>)
    requires
        all_digits(p),
    ensures
        spec_dec_val(p) >= 0,
    decreases p.len(),
{
    if p.len() > 0 {
        assert(spec_dec_val(p) == spec_dec_val(p.drop_last()) * 10 + digit_val(p.last()));
        assert(all_digits(p.drop_last())) by {
            assert(forall|k: int| 0 <= k < p.len() - 1 ==> p.drop_last()[k] == #[trigger] p[k]);
        }
        lemma_dec_val_nonneg(p.drop_last());
        assert(spec_dec_val(p.drop_last()) * 10 >= 0) by (nonlinear_arith)
            requires
                spec_dec_val(p.drop_last()) >= 0,
        ;
        assert(is_digit(p.last()));
    }
}

/// Appending digits never lowers the value.
pub proof fn lemma_dec_val_prefix(p: Seq<char>, q: Seq<char>)
    requires
        all_digits(p),
        all_digits(q),
    ensures
        spec_dec_val(p + q) >= spec_dec_val(p),
        spec_dec_val(p) >= 0,
    decreases q.len(),
{
    lemma_dec_val_nonneg(p);
    if q.len() == 0 {
        assert(p + q =~= p);
    } else {
        let q1 = q.drop_last();
        assert(all_digits(q1)) by {
            assert(forall|k: int| 0 <= k < q1.len() ==> q1[k] == #[trigger] q[k]);
        }
        lemma_dec_val_prefix(p, q1);
        assert((p + q).drop_last() =~= p + q1);
        assert((p + q).last() == q.last());
        assert(is_digit(q.last()));
        assert(spec_dec_val(p + q) == spec_dec_val(p + q1) * 10 + digit_val(q.last()));
        assert(spec_dec_val(p + q1) * 10 >= spec_dec_val(p)) by (nonlinear_arith)
            requires
                spec_dec_val(p + q1) >= spec_dec_val(p),
                spec_dec_val(p) >= 0,
        ;
    }
}

/// Serializes `n` in canonical decimal onto `out`.
pub fn push_u32(out: &mut Vec<char>, n: u32)
    ensures
        final(out)@ == old(out)@ + spec_dec(n as int),
    decreases n,
{
    if n < 10 {
        let c = digit_to_char(n);
        out.push(c);
        proof {
            assert(old(out)@ + spec_dec(n as int) =~= old(out)@.push(c));
        }
    } else {
        assert(n / 10 < n) by (nonlinear_arith)
            requires
                n >= 10,
        ;
        push_u32(out, n / 10);
        let c = digit_to_char(n % 10);
        out.push(c);
        proof {
            assert(old(out)@ + spec_dec(n as int) =~= (old(out)@ + spec_dec(n as int / 10)).push(
                c,
            ));
        }
    }
}

/// Parses a canonical decimal number fitting `u32`.
///
/// Sound: on success the consumed slice is the canonical rendering of the
/// result. Complete: an input continuing with the rendering of `n` and then
/// anything that does not start with a digit yields exactly `n`; this is the
/// round-trip guarantee for numbers.
pub fn parse_u32(s: &Vec<char>, i: usize) -> (r: Option<(u32, usize)>)
    requires
        i <= s@.len(),
    ensures
        r matches Some((n, j)) ==> i < j <= s@.len() && s@.subrange(i as int, j as int)
            == spec_dec(n as int),
        forall|n: u32, rest: Seq<char>|
            (s@.skip(i as int) == spec_dec(n as int) + rest && (rest.len() == 0 || !is_digit(
                rest[0],
            ))) ==> (r matches Some((m, j)) && m == n && j == i + spec_dec(n as int).len()),
{
    let len = s.len();
    if i >= len || !is_digit_char(s[i]) {
        proof {
            assert forall|n: u32, rest: Seq<char>|
                (s@.skip(i as int) == spec_dec(n as int) + rest && (rest.len() == 0 || !is_digit(
                    rest[0],
                ))) implies false by {
                lemma_dec_shape(n as int);
                lemma_skip_split(s@, i as int, spec_dec(n as int), rest);
                assert(s@[i as int] == spec_dec(n as int)[0]) by {
                    assert(s@.subrange(i as int, i + spec_dec(n as int).len())[0] == s@[i as int]);
                }
                assert(is_digit(s@[i as int]));
            }
        }
        return None;
    }
    let mut j: usize = i + 1;
    let mut acc: u64 = char_digit_val(s[i]) as u64;
    proof {
        let s1 = s@.subrange(i as int, j as int);
        assert(s1.len() == 1);
        assert(s1[0] == s@[i as int]);
        assert(s1.drop_last() =~= Seq::<char>::empty());
        assert(s1.last() == s@[i as int]);
        assert(spec_dec_val(Seq::<char>::empty()) == 0);
        assert(spec_dec_val(s1) == 0 * 10 + digit_val(s@[i as int]));
    }
    while j < len && is_digit_char(s[j])
        invariant
            i < j <= len == s@.len(),
            all_digits(s@.subrange(i as int, j as int)),
            acc == spec_dec_val(s@.subrange(i as int, j as int)),
            acc <= u32::MAX,
        decreases len - j,
    {
        let d = char_digit_val(s[j]);
        let next: u64 = acc * 10 + d as u64;
        proof {
            let p = s@.subrange(i as int, j as int);
            let p2 = s@.subrange(i as int, j + 1);
            assert(p2.drop_last() =~= p);
            assert(p2.last() == s@[j as int]);
            assert(next == spec_dec_val(p2));
            assert(all_digits(p2));
        }
        if next > u32::MAX as u64 {
            proof {
                assert forall|n: u32, rest: Seq<char>|
                    (s@.skip(i as int) == spec_dec(n as int) + rest && (rest.len() == 0
                        || !is_digit(rest[0]))) implies false by {
                    lemma_dec_shape(n as int);
                    lemma_dec_val_of_dec(n as int);
                    lemma_skip_split(s@, i as int, spec_dec(n as int), rest);
                    let dn = spec_dec(n as int);
                    let e = i + dn.len();
                    // the scanned digits lie inside the rendering of n
                    assert(j + 1 <= e) by {
                        if j + 1 > e {
                            // then position e is within the scanned digit run
                            assert(e <= j);
                            if e < s@.len() {
                                assert(s@[e as int] == rest[0]) by {
                                    assert(s@.skip(e as int) == rest);
                                    assert(s@.skip(e as int)[0] == s@[e as int]);
                                }
                                assert(is_digit(s@[e as int])) by {
                                    assert(s@.subrange(i as int, j + 1)[e - i] == s@[e as int]);
                                    assert(all_digits(s@.subrange(i as int, j + 1)));
                                }
                            } else {
                                assert(e == s@.len());
                                assert(j + 1 <= s@.len());
                            }
                        }
                    }
                    // so the value scanned so far is at most n
                    let p2 = s@.subrange(i as int, j + 1);
                    let q = s@.subrange(j + 1, e as int);
                    assert(dn == s@.subrange(i as int, e as int));
                    lemma_subrange_join(s@, i as int, j + 1, e as int);
                    assert(all_digits(q)) by {
                        assert forall|k: int| 0 <= k < q.len() implies is_digit(q[k]) by {
                            assert(q[k] == s@[j + 1 + k]);
                            assert(dn[j + 1 - i + k] == s@[i + (j + 1 - i + k)]);
                            assert(is_digit(dn[j + 1 - i + k]));
                        }
                    }
                    lemma_dec_val_prefix(p2, q);
                    assert(spec_dec_val(p2 + q) == spec_dec_val(dn));
                    assert(next <= n);
                }
            }
            return None;
        }
        acc = next as u64;
        j += 1;
    }
    // canonical form: a leading zero stands alone
    if j > i + 1 {
        let first = s[i];
        if first == '0' {
            proof {
                assert(spec_digit_char(0) == '0');
                assert forall|n: u32, rest: Seq<char>|
                    (s@.skip(i as int) == spec_dec(n as int) + rest && (rest.len() == 0
                        || !is_digit(rest[0]))) implies false by {
                    lemma_dec_shape(n as int);
                    lemma_skip_split(s@, i as int, spec_dec(n as int), rest);
                    let dn = spec_dec(n as int);
                    assert(s@[i as int] == dn[0]) by {
                        assert(s@.subrange(i as int, i + dn.len())[0] == s@[i as int]);
                    }
                    assert(n == 0);
                    assert(dn.len() == 1);
                    // the next character is a digit inside the scanned run
                    let e = i + 1;
                    assert(s@.skip(e as int) == rest);
                    assert(e < s@.len()) by {
                        assert(j >= i + 2);
                    }
                    assert(rest[0] == s@[e as int]) by {
                        assert(s@.skip(e as int)[0] == s@[e as int]);
                    }
                    assert(is_digit(s@[e as int])) by {
                        assert(s@.subrange(i as int, j as int)[1] == s@[e as int]);
                        assert(all_digits(s@.subrange(i as int, j as int)));
                    }
                }
            }
            return None;
        }
    }
    let n32: u32 = acc as u32;
    proof {
        let run = s@.subrange(i as int, j as int);
        assert(run[0] == s@[i as int]);
        assert(run[0] == '0' ==> run.len() == 1) by {
            assert(spec_digit_char(0) == '0');
        }
        lemma_canonical_digits(run);
        assert(spec_dec(n32 as int) == run);
        // completeness: the rendering of any matching n is this very run
        assert forall|n: u32, rest: Seq<char>|
            (s@.skip(i as int) == spec_dec(n as int) + rest && (rest.len() == 0 || !is_digit(
                rest[0],
            ))) implies (n32 == n && j == i + spec_dec(n as int).len()) by {
            lemma_dec_shape(n as int);
            lemma_dec_val_of_dec(n as int);
            lemma_skip_split(s@, i as int, spec_dec(n as int), rest);
            let dn = spec_dec(n as int);
            let e = i + dn.len();
            assert(e <= s@.len());
            // the run cannot stop inside the rendering
            assert(j >= e) by {
                if j < e {
                    assert(is_digit(s@[j as int])) by {
                        assert(dn[j - i] == s@[j as int]) by {
                            assert(s@.subrange(i as int, e as int)[j - i] == s@[j as int]);
                        }
                        assert(all_digits(dn));
                    }
                    assert(j < len);
                    assert(!is_digit(s@[j as int]));
                }
            }
            // nor run past it
            assert(j <= e) by {
                if j > e {
                    if e < s@.len() {
                        assert(s@[e as int] == rest[0]) by {
                            assert(s@.skip(e as int) == rest);
                            assert(s@.skip(e as int)[0] == s@[e as int]);
                        }
                        assert(is_digit(s@[e as int])) by {
                            assert(run[e - i] == s@[e as int]);
                            assert(all_digits(run));
                        }
                    }
                }
            }
            assert(run == dn);
            assert(spec_dec_val(run) == n);
        }
    }
    Some((n32, j))
}

/// Canonical rendering of a signed number.
pub open spec fn spec_ser_i32(v: int) -> Seq<char> {
    if v >= 0 {
        spec_dec(v)
    } else {
        seq!['-'] + spec_dec(-v)
    }
}

/// Serializes a signed number onto `out`.
pub fn push_i32(out: &mut Vec<char>, v: i32)
    ensures
        final(out)@ == old(out)@ + spec_ser_i32(v as int),
{
    if v >= 0 {
        push_u32(out, v as u32);
    } else {
        out.push('-');
        let mag: u32 = (-(v as i64)) as u32;
        push_u32(out, mag);
        proof {
            assert(old(out)@ + spec_ser_i32(v as int) =~= old(out)@.push('-') + spec_dec(
                mag as int,
            ));
        }
    }
}

/// Parses a canonical signed number fitting `i32`, with the same soundness
/// and completeness guarantees as the unsigned parser.
pub fn parse_i32(s: &Vec<char>, i: usize) -> (r: Option<(i32, usize)>)
    requires
        i <= s@.len(),
    ensures
        r matches Some((v, j)) ==> i < j <= s@.len() && s@.subrange(i as int, j as int)
            == spec_ser_i32(v as int),
        forall|v: i32, rest: Seq<char>|
            (s@.skip(i as int) == spec_ser_i32(v as int) + rest && (rest.len() == 0 || !is_digit(
                rest[0],
            ))) ==> (r matches Some((w, j)) && w == v && j == i + spec_ser_i32(v as int).len()),
{
    let len = s.len();
    if i < len && s[i] == '-' {
        let r1 = parse_u32(s, i + 1);
        match r1 {
            Some((n, j)) => {
                if n >= 1 && n <= 2147483648 {
                    let w: i32 = (-(n as i64)) as i32;
                    proof {
                        assert(s@.subrange(i as int, j as int) =~= seq!['-'] + s@.subrange(
                            i + 1,
                            j as int,
                        ));
                        assert(spec_ser_i32(w as int) == seq!['-'] + spec_dec(n as int));
                        assert forall|v: i32, rest: Seq<char>|
                            (s@.skip(i as int) == spec_ser_i32(v as int) + rest && (rest.len() == 0
                                || !is_digit(rest[0]))) implies (w == v && j == i + spec_ser_i32(
                            v as int,
                        ).len()) by {
                            lemma_i32_negative_case(s@, i as int, v as int, rest);
                        }
                    }
                    Some((w, j))
                } else {
                    proof {
                        assert forall|v: i32, rest: Seq<char>|
                            (s@.skip(i as int) == spec_ser_i32(v as int) + rest && (rest.len() == 0
                                || !is_digit(rest[0]))) implies false by {
                            lemma_i32_negative_case(s@, i as int, v as int, rest);
                        }
                    }
                    None
                }
            },
            None => {
                proof {
                    assert forall|v: i32, rest: Seq<char>|
                        (s@.skip(i as int) == spec_ser_i32(v as int) + rest && (rest.len() == 0
                            || !is_digit(rest[0]))) implies false by {
                        lemma_i32_negative_case(s@, i as int, v as int, rest);
                    }
                }
                None
            },
        }
    } else {
        let r1 = parse_u32(s, i);
        match r1 {
            Some((n, j)) => {
                if n <= 2147483647 {
                    let w: i32 = n as i32;
                    proof {
                        assert forall|v: i32, rest: Seq<char>|
                            (s@.skip(i as int) == spec_ser_i32(v as int) + rest && (rest.len() == 0
                                || !is_digit(rest[0]))) implies (w == v && j == i + spec_ser_i32(
                            v as int,
                        ).len()) by {
                            lemma_i32_positive_case(s@, i as int, v as int, rest);
                        }
                    }
                    Some((w, j))
                } else {
                    proof {
                        assert forall|v: i32, rest: Seq<char>|
                            (s@.skip(i as int) == spec_ser_i32(v as int) + rest && (rest.len() == 0
                                || !is_digit(rest[0]))) implies false by {
                            lemma_i32_positive_case(s@, i as int, v as int, rest);
                        }
                    }
                    None
                }
            },
            None => {
                proof {
                    assert forall|v: i32, rest: Seq<char>|
                        (s@.skip(i as int) == spec_ser_i32(v as int) + rest && (rest.len() == 0
                            || !is_digit(rest[0]))) implies false by {
                        lemma_i32_positive_case(s@, i as int, v as int, rest);
                    }
                }
                None
            },
        }
    }
}

/// When the input continues with the rendering of a negative number, it
/// starts with the sign and then the magnitude's digits.
proof fn lemma_i32_negative_case(s: Seq<char>, i: int, v: int, rest: Seq<char>)
    requires
        0 <= i <= s.len(),
        i32::MIN <= v <= i32::MAX,
        s.skip(i) == spec_ser_i32(v) + rest,
    ensures
        v < 0 ==> i < s.len() && s[i] == '-' && s.skip(i + 1) == spec_dec(-v) + rest && 1 <= -v
            <= 2147483648,
        v >= 0 ==> !(i < s.len() && s[i] == '-'),
{
    if v < 0 {
        assert(spec_ser_i32(v) == seq!['-'] + spec_dec(-v));
        assert(s.skip(i) =~= seq!['-'] + (spec_dec(-v) + rest));
        lemma_skip_split(s, i, seq!['-'], spec_dec(-v) + rest);
        assert(s[i] == '-') by {
            assert(s.subrange(i, i + 1)[0] == s[i]);
        }
        lemma_dec_shape(-v);
    } else {
        lemma_dec_shape(v);
        lemma_skip_split(s, i, spec_dec(v), rest);
        if i < s.len() {
            assert(s[i] == spec_dec(v)[0]) by {
                assert(s.subrange(i, i + spec_dec(v).len())[0] == s[i]);
            }
            assert(is_digit(s[i]));
            assert(s[i] != '-') by {
                assert('-' as u32 == 45);
            }
        }
    }
}

/// When the input continues with the rendering of a non-negative number,
/// the digits follow directly and the value fits below the sign bound.
proof fn lemma_i32_positive_case(s: Seq<char>, i: int, v: int, rest: Seq<char>)
    requires
        0 <= i <= s.len(),
        i32::MIN <= v <= i32::MAX,
        s.skip(i) == spec_ser_i32(v) + rest,
        !(i < s.len() && s[i] == '-'),
    ensures
        v >= 0 && s.skip(i) == spec_dec(v) + rest && v <= 2147483647,
{
    if v < 0 {
        lemma_i32_negative_case(s, i, v, rest);
    }
}

/// How one character is escaped: a quote or backslash gets a backslash
/// before it; every other character stands for itself.
pub open spec fn spec_esc_char(c: char) -> Seq<char> {
    if c == '"' || c == '\\' {
        seq!['\\', c]
    } else {
        seq![c]
    }
}

/// The escaped body of a string.
pub open spec fn spec_esc(s: Seq<char>) -> Seq<char>
    decreases s.len(),
{
    if s.len() == 0 {
        Seq::empty()
    } else {
        spec_esc_char(s[0]) + spec_esc(s.skip(1))
    }
}

/// Canonical rendering of a string: the escaped body between quotes.
pub open spec fn spec_ser_string(s: Seq<char>) -> Seq<char> {
    seq!['"'] + spec_esc(s) + seq!['"']
}

pub proof fn lemma_esc_char_shape(c: char)
    ensures
        1 <= spec_esc_char(c).len() <= 2,
        spec_esc_char(c)[0] != '"',
        spec_esc_char(c)[0] == '\\' <==> (c == '"' || c == '\\'),
        (c == '"' || c == '\\') ==> spec_esc_char(c) == seq!['\\', c],
        !(c == '"' || c == '\\') ==> spec_esc_char(c) == seq![c],
{
}

pub proof fn lemma_esc_empty(s: Seq<char>)
    ensures
        spec_esc(s).len() == 0 <==> s.len() == 0,
        s.len() > 0 ==> spec_esc(s).len() >= 1,
{
    if s.len() > 0 {
        lemma_esc_char_shape(s[0]);
    }
}

/// Escaping distributes over concatenation.
pub proof fn lemma_esc_append(a: Seq<char>, b: Seq<char>)
    ensures
        spec_esc(a + b) == spec_esc(a) + spec_esc(b),
    decreases a.len(),
{
    if a.len() == 0 {
        assert(a + b =~= b);
        assert(spec_esc(a) + spec_esc(b) =~= spec_esc(b));
    } else {
        assert((a + b).len() > 0);
        assert((a + b)[0] == a[0]);
        assert((a + b).skip(1) =~= a.skip(1) + b);
        lemma_esc_append(a.skip(1), b);
        assert(spec_esc(a + b) == spec_esc_char(a[0]) + (spec_esc(a.skip(1)) + spec_esc(b)));
        assert(spec_esc_char(a[0]) + (spec_esc(a.skip(1)) + spec_esc(b)) =~= (spec_esc_char(a[0])
            + spec_esc(a.skip(1))) + spec_esc(b));
    }
}

pub proof fn lemma_esc_push(a: Seq<char>, c: char)
    ensures
        spec_esc(a.push(c)) == spec_esc(a) + spec_esc_char(c),
{
    assert(a.push(c) =~= a + seq![c]);
    lemma_esc_append(a, seq![c]);
    assert(spec_esc(seq![c]) == spec_esc_char(c) + spec_esc(seq![c].skip(1)));
    assert(seq![c].skip(1) =~= Seq::<char>::empty());
    assert(spec_esc_char(c) + spec_esc(Seq::<char>::empty()) =~= spec_esc_char(c));
}

/// If the escaped form of `a` is a prefix of the escaped form of `v`, then
/// `a` itself is a prefix of `v` and the remainders line up.
pub proof fn lemma_esc_prefix(a: Seq<char>, v: Seq<char>)
    requires
        spec_esc(a).len() <= spec_esc(v).len(),
        spec_esc(v).subrange(0, spec_esc(a).len() as int) == spec_esc(a),
    ensures
        a.len() <= v.len(),
        v.subrange(0, a.len() as int) == a,
        spec_esc(v).skip(spec_esc(a).len() as int) == spec_esc(v.skip(a.len() as int)),
    decreases a.len(),
{
    if a.len() == 0 {
        assert(v.subrange(0, 0) =~= a);
        assert(spec_esc(v).skip(0) =~= spec_esc(v));
        assert(v.skip(0) =~= v);
    } else {
        lemma_esc_char_shape(a[0]);
        lemma_esc_empty(a);
        if v.len() == 0 {
            assert(spec_esc(a).len() == 0);
            assert(false);
        }
        lemma_esc_char_shape(v[0]);
        let ua = spec_esc_char(a[0]);
        let uv = spec_esc_char(v[0]);
        // the escaped forms agree where both are defined
        assert(forall|k: int|
            0 <= k < spec_esc(a).len() ==> spec_esc(v)[k] == #[trigger] spec_esc(a)[k]) by {
            assert(forall|k: int|
                0 <= k < spec_esc(a).len() ==> spec_esc(v).subrange(0, spec_esc(a).len() as int)[k]
                    == #[trigger] spec_esc(v)[k]);
        }
        assert(spec_esc(a)[0] == ua[0]);
        assert(spec_esc(v)[0] == uv[0]);
        // the heads agree, so the first characters agree
        assert(a[0] == v[0]) by {
            if a[0] == '"' || a[0] == '\\' {
                assert(ua[0] == '\\');
                assert(uv[0] == '\\');
                assert(v[0] == '"' || v[0] == '\\');
                assert(spec_esc(a).len() >= 2);
                assert(spec_esc(a)[1] == ua[1]);
                assert(spec_esc(v)[1] == uv[1]);
                assert(ua[1] == a[0] && uv[1] == v[0]);
            } else {
                assert(ua[0] == a[0]);
                if v[0] == '"' || v[0] == '\\' {
                    assert(uv[0] == '\\');
                } else {
                    assert(uv[0] == v[0]);
                }
            }
        }
        let a1 = a.skip(1);
        let v1 = v.skip(1);
        assert(spec_esc(a) == ua + spec_esc(a1));
        assert(spec_esc(v) == ua + spec_esc(v1));
        assert(spec_esc(a1).len() <= spec_esc(v1).len());
        assert(spec_esc(v1).subrange(0, spec_esc(a1).len() as int) =~= spec_esc(a1)) by {
            assert forall|k: int| 0 <= k < spec_esc(a1).len() implies spec_esc(v1)[k] == spec_esc(
                a1,
            )[k] by {
                assert(spec_esc(a)[ua.len() + k] == (ua + spec_esc(a1))[ua.len() + k]);
                assert(spec_esc(v)[ua.len() + k] == (ua + spec_esc(v1))[ua.len() + k]);
            }
        }
        lemma_esc_prefix(a1, v1);
        assert(v.subrange(0, a.len() as int) =~= a) by {
            assert forall|k: int| 0 <= k < a.len() implies v[k] == a[k] by {
                if k == 0 {
                } else {
                    assert(v1.subrange(0, a1.len() as int)[k - 1] == a1[k - 1]);
                    assert(v1[k - 1] == v[k]);
                    assert(a1[k - 1] == a[k]);
                }
            }
        }
        assert(v1.skip(a1.len() as int) =~= v.skip(a.len() as int));
        assert(spec_esc(v).skip(spec_esc(a).len() as int) =~= spec_esc(v1).skip(
            spec_esc(a1).len() as int,
        )) by {
            assert forall|k: int|
                0 <= k < spec_esc(v).len() - spec_esc(a).len() implies spec_esc(v).skip(
                spec_esc(a).len() as int,
            )[k] == spec_esc(v1).skip(spec_esc(a1).len() as int)[k] by {
                assert(spec_esc(v).skip(spec_esc(a).len() as int)[k] == spec_esc(v)[spec_esc(
                    a,
                ).len() + k]);
                assert(spec_esc(v)[ua.len() + (spec_esc(a1).len() + k)] == (ua + spec_esc(
                    v1,
                ))[ua.len() + (spec_esc(a1).len() + k)]);
                assert(spec_esc(v1).skip(spec_esc(a1).len() as int)[k] == spec_esc(v1)[spec_esc(
                    a1,
                ).len() + k]);
            }
        }
    }
}

/// Serializes a string in its canonical quoted form onto `out`.
pub fn push_string(out: &mut Vec<char>, s: &str)
    ensures
        final(out)@ == old(out)@ + spec_ser_string(s@),
{
    out.push('"');
    let n = s.unicode_len();
    let mut k: usize = 0;
    while k < n
        invariant
            n == s@.len(),
            k <= n,
            out@ == old(out)@ + seq!['"'] + spec_esc(s@.subrange(0, k as int)),
        decreases n - k,
    {
        let c = s.get_char(k);
        proof {
            lemma_esc_push(s@.subrange(0, k as int), c);
            assert(s@.subrange(0, k + 1) =~= s@.subrange(0, k as int).push(c));
        }
        if c == '"' || c == '\\' {
            out.push('\\');
            out.push(c);
            proof {
                assert(out@ =~= old(out)@ + seq!['"'] + spec_esc(s@.subrange(0, k + 1)));
            }
        } else {
            out.push(c);
            proof {
                assert(out@ =~= old(out)@ + seq!['"'] + spec_esc(s@.subrange(0, k + 1)));
            }
        }
        k += 1;
    }
    out.push('"');
    proof {
        assert(s@.subrange(0, n as int) =~= s@);
        assert(out@ =~= old(out)@ + spec_ser_string(s@));
    }
}

/// Where each part of a serialized string stands in the input.
proof fn lemma_ser_string_layout(s: Seq<char>, i: int, v: Seq<char>, rest: Seq<char>)
    requires
        0 <= i <= s.len(),
        s.skip(i) == spec_ser_string(v) + rest,
    ensures
        spec_ser_string(v).len() == spec_esc(v).len() + 2,
        i + spec_esc(v).len() + 2 <= s.len(),
        s[i] == '"',
        s.subrange(i + 1, i + 1 + spec_esc(v).len()) == spec_esc(v),
        s[i + 1 + spec_esc(v).len()] == '"',
        s.skip(i + spec_esc(v).len() + 2) == rest,
{
    let ev = spec_esc(v);
    assert(s.skip(i) =~= seq!['"'] + (ev + (seq!['"'] + rest)));
    lemma_skip_split(s, i, seq!['"'], ev + (seq!['"'] + rest));
    assert(s[i] == '"') by {
        assert(s.subrange(i, i + 1)[0] == s[i]);
    }
    lemma_skip_split(s, i + 1, ev, seq!['"'] + rest);
    lemma_skip_split(s, i + 1 + ev.len(), seq!['"'], rest);
    assert(s[i + 1 + ev.len()] == '"') by {
        assert(s.subrange(i + 1 + ev.len(), i + 2 + ev.len())[0] == s[i + 1 + ev.len()]);
    }
}

/// Dichotomy of the string parser's progress: with `esc(acc)` consumed, the
/// cursor either stands on the closing quote with `acc == v`, or at the
/// start of the escape unit of the next character of `v`.
proof fn lemma_string_parse_state(
    s: Seq<char>,
    i: int,
    cur: int,
    acc: Seq<char>,
    v: Seq<char>,
    rest: Seq<char>,
)
    requires
        0 <= i,
        i + 1 <= cur <= s.len(),
        s.skip(i) == spec_ser_string(v) + rest,
        s.subrange(i + 1, cur) == spec_esc(acc),
    ensures
        i + spec_esc(v).len() + 2 <= s.len(),
        s[i + 1 + spec_esc(v).len()] == '"',
        (cur == i + 1 + spec_esc(v).len() && acc == v) || (acc.len() < v.len() && cur
            + spec_esc_char(v[acc.len() as int]).len() <= i + 1 + spec_esc(v).len() && s.subrange(
            cur,
            cur + spec_esc_char(v[acc.len() as int]).len(),
        ) == spec_esc_char(v[acc.len() as int])),
{
    lemma_ser_string_layout(s, i, v, rest);
    let ev = spec_esc(v);
    let ea = spec_esc(acc);
    let e = i + 1 + ev.len();
    assert(ea.len() == cur - (i + 1));
    if cur > e {
        // the closing quote would lie inside the consumed escape text
        assert(ev.len() < ea.len());
        assert(ea.subrange(0, ev.len() as int) =~= ev) by {
            assert forall|k: int| 0 <= k < ev.len() implies ea[k] == ev[k] by {
                assert(s.subrange(i + 1, cur)[k] == s[i + 1 + k]);
                assert(s.subrange(i + 1, e)[k] == s[i + 1 + k]);
            }
        }
        lemma_esc_prefix(v, acc);
        let w = acc.skip(v.len() as int);
        lemma_esc_empty(w);
        assert(w.len() > 0) by {
            if w.len() == 0 {
                assert(spec_esc(w).len() == 0);
                assert(ea.skip(ev.len() as int).len() == 0);
            }
        }
        lemma_esc_char_shape(w[0]);
        assert(spec_esc(w)[0] == spec_esc_char(w[0])[0]) by {
            assert(spec_esc(w) == spec_esc_char(w[0]) + spec_esc(w.skip(1)));
        }
        assert(ea[ev.len() as int] == spec_esc(w)[0]) by {
            assert(ea.skip(ev.len() as int)[0] == ea[ev.len() as int]);
        }
        assert(ea[ev.len() as int] == s[e]) by {
            assert(s.subrange(i + 1, cur)[ev.len() as int] == s[i + 1 + ev.len()]);
        }
        assert(false);
    } else if cur == e {
        assert(ea =~= ev) by {
            assert forall|k: int| 0 <= k < ev.len() implies ea[k] == ev[k] by {
                assert(s.subrange(i + 1, cur)[k] == s[i + 1 + k]);
                assert(s.subrange(i + 1, e)[k] == s[i + 1 + k]);
            }
        }
        assert(spec_esc(v).subrange(0, spec_esc(acc).len() as int) =~= spec_esc(acc));
        lemma_esc_prefix(acc, v);
        let w = v.skip(acc.len() as int);
        lemma_esc_empty(w);
        assert(spec_esc(w).len() == 0) by {
            assert(spec_esc(v).skip(spec_esc(acc).len() as int).len() == 0);
        }
        assert(acc =~= v);
    } else {
        // strictly inside: esc(acc) is a proper prefix of esc(v)
        assert(ea.len() < ev.len());
        assert(ev.subrange(0, ea.len() as int) =~= ea) by {
            assert forall|k: int| 0 <= k < ea.len() implies ev[k] == ea[k] by {
                assert(s.subrange(i + 1, cur)[k] == s[i + 1 + k]);
                assert(s.subrange(i + 1, e)[k] == s[i + 1 + k]);
            }
        }
        lemma_esc_prefix(acc, v);
        let w = v.skip(acc.len() as int);
        lemma_esc_empty(w);
        assert(w.len() > 0) by {
            if w.len() == 0 {
                assert(spec_esc(w).len() == 0);
                assert(ev.skip(ea.len() as int).len() == 0);
            }
        }
        assert(acc.len() < v.len());
        assert(w[0] == v[acc.len() as int]);
        let u = spec_esc_char(v[acc.len() as int]);
        lemma_esc_char_shape(v[acc.len() as int]);
        assert(spec_esc(w) == u + spec_esc(w.skip(1)));
        assert(ev.skip(ea.len() as int) == spec_esc(w));
        assert(u.len() <= spec_esc(w).len());
        assert(cur + u.len() <= e);
        assert(s.subrange(cur, cur + u.len()) =~= u) by {
            assert forall|k: int| 0 <= k < u.len() implies s[cur + k] == u[k] by {
                assert(s.subrange(i + 1, e)[cur - (i + 1) + k] == s[cur + k]);
                assert(ev[ea.len() + k] == ev.skip(ea.len() as int)[k]);
                assert(spec_esc(w)[k] == (u + spec_esc(w.skip(1)))[k]);
            }
        }
    }
}

/// Parses a canonical quoted string.
///
/// Sound: on success the consumed slice is the canonical rendering of the
/// result. Complete: an input continuing with the rendering of any string
/// yields exactly that string; this is the round-trip guarantee for strings.
pub fn parse_string(s: &Vec<char>, i: usize) -> (r: Option<(String, usize)>)
    requires
        i <= s@.len(),
    ensures
        r matches Some((w, j)) ==> i < j <= s@.len() && s@.subrange(i as int, j as int)
            == spec_ser_string(w@),
        forall|v: Seq<char>, rest: Seq<char>|
            s@.skip(i as int) == spec_ser_string(v) + rest ==> (r matches Some((w, j)) && w@ == v
                && j == i + spec_ser_string(v).len()),
{
    let len = s.len();
    if i >= len || s[i] != '"' {
        proof {
            assert forall|v: Seq<char>, rest: Seq<char>|
                s@.skip(i as int) == spec_ser_string(v) + rest implies false by {
                lemma_ser_string_layout(s@, i as int, v, rest);
            }
        }
        return None;
    }
    let mut cur: usize = i + 1;
    let mut acc = String::new();
    proof {
        assert(s@.subrange(i + 1, cur as int) =~= spec_esc(acc@));
    }
    loop
        invariant
            i + 1 <= cur <= len,
            len == s@.len(),
            i < len,
            s@[i as int] == '"',
            s@.subrange(i + 1, cur as int) == spec_esc(acc@),
        decreases len - cur,
    {
        if cur >= len {
            proof {
                assert forall|v: Seq<char>, rest: Seq<char>|
                    s@.skip(i as int) == spec_ser_string(v) + rest implies false by {
                    lemma_string_parse_state(s@, i as int, cur as int, acc@, v, rest);
                    if acc@.len() < v.len() {
                        lemma_esc_char_shape(v[acc@.len() as int]);
                    }
                }
            }
            return None;
        }
        let c = s[cur];
        if c == '"' {
            let j = cur + 1;
            proof {
                assert(s@.subrange(i as int, j as int) =~= spec_ser_string(acc@)) by {
                    assert forall|k: int|
                        0 <= k < j - i implies s@.subrange(i as int, j as int)[k]
                        == spec_ser_string(acc@)[k] by {
                        let body = spec_esc(acc@);
                        assert(spec_ser_string(acc@) == seq!['"'] + body + seq!['"']);
                        if k == 0 {
                        } else if k < j - i - 1 {
                            assert(s@.subrange(i + 1, cur as int)[k - 1] == s@[i + k]);
                            assert((seq!['"'] + body + seq!['"'])[k] == body[k - 1]);
                        } else {
                            assert((seq!['"'] + body + seq!['"'])[k] == '"');
                        }
                    }
                }
                assert forall|v: Seq<char>, rest: Seq<char>|
                    s@.skip(i as int) == spec_ser_string(v) + rest implies (acc@ == v && j == i
                    + spec_ser_string(v).len()) by {
                    lemma_string_parse_state(s@, i as int, cur as int, acc@, v, rest);
                    if acc@.len() < v.len() {
                        lemma_esc_char_shape(v[acc@.len() as int]);
                        assert(s@[cur as int] == spec_esc_char(v[acc@.len() as int])[0]) by {
                            let u = spec_esc_char(v[acc@.len() as int]);
                            assert(s@.subrange(cur as int, cur + u.len())[0] == s@[cur as int]);
                        }
                    }
                }
            }
            return Some((acc, j));
        } else if c == '\\' {
            if cur + 1 >= len {
                proof {
                    assert forall|v: Seq<char>, rest: Seq<char>|
                        s@.skip(i as int) == spec_ser_string(v) + rest implies false by {
                        lemma_string_parse_state(s@, i as int, cur as int, acc@, v, rest);
                        if acc@.len() < v.len() {
                            let h = v[acc@.len() as int];
                            lemma_esc_char_shape(h);
                            let u = spec_esc_char(h);
                            assert(s@[cur as int] == u[0]) by {
                                assert(s@.subrange(cur as int, cur + u.len())[0] == s@[cur as int]);
                            }
                            assert(h == '"' || h == '\\');
                        }
                    }
                }
                return None;
            }
            let c2 = s[cur + 1];
            if c2 == '"' || c2 == '\\' {
                let ghost prev = acc@;
                push_char(&mut acc, c2);
                proof {
                    lemma_esc_push(prev, c2);
                    assert(s@.subrange(i + 1, cur + 2) =~= spec_esc(acc@)) by {
                        assert(spec_esc(acc@) == spec_esc(prev) + spec_esc_char(c2));
                        assert(spec_esc_char(c2) == seq!['\\', c2]);
                        assert forall|k: int|
                            0 <= k < cur + 2 - (i + 1) implies s@.subrange(i + 1, cur + 2)[k]
                            == spec_esc(acc@)[k] by {
                            if k < cur - (i + 1) {
                                assert(s@.subrange(i + 1, cur as int)[k] == s@[i + 1 + k]);
                            } else if k == cur - (i + 1) {
                                assert((spec_esc(prev) + seq!['\\', c2])[k] == '\\');
                            } else {
                                assert((spec_esc(prev) + seq!['\\', c2])[k] == c2);
                            }
                        }
                    }
                }
                cur = cur + 2;
            } else {
                proof {
                    assert forall|v: Seq<char>, rest: Seq<char>|
                        s@.skip(i as int) == spec_ser_string(v) + rest implies false by {
                        lemma_string_parse_state(s@, i as int, cur as int, acc@, v, rest);
                        if acc@.len() < v.len() {
                            let h = v[acc@.len() as int];
                            lemma_esc_char_shape(h);
                            let u = spec_esc_char(h);
                            assert(s@[cur as int] == u[0]) by {
                                assert(s@.subrange(cur as int, cur + u.len())[0] == s@[cur as int]);
                            }
                            assert(h == '"' || h == '\\');
                            assert(s@[cur + 1] == u[1]) by {
                                assert(s@.subrange(cur as int, cur + u.len())[1] == s@[cur + 1]);
                            }
                        }
                    }
                }
                return None;
            }
        } else {
            let ghost prev = acc@;
            push_char(&mut acc, c);
            proof {
                lemma_esc_push(prev, c);
                assert(s@.subrange(i + 1, cur + 1) =~= spec_esc(acc@)) by {
                    assert(spec_esc(acc@) == spec_esc(prev) + spec_esc_char(c));
                    assert(spec_esc_char(c) == seq![c]);
                    assert forall|k: int|
                        0 <= k < cur + 1 - (i + 1) implies s@.subrange(i + 1, cur + 1)[k]
                        == spec_esc(acc@)[k] by {
                        if k < cur - (i + 1) {
                            assert(s@.subrange(i + 1, cur as int)[k] == s@[i + 1 + k]);
                        } else {
                            assert((spec_esc(prev) + seq![c])[k] == c);
                        }
                    }
                }
            }
            cur = cur + 1;
        }
    }
}

/// Consumes the exact characters of `pat`, telling apart whether they were
/// there: succeeds if and only if the input continues with `pat`.
pub fn expect_str(s: &Vec<char>, i: usize, pat: &str) -> (r: Option<usize>)
    requires
        i <= s@.len(),
    ensures
        r matches Some(j) ==> j == i + pat@.len() && j <= s@.len() && s@.subrange(
            i as int,
            j as int,
        ) == pat@,
        r is None ==> !(i + pat@.len() <= s@.len() && s@.subrange(i as int, i + pat@.len())
            == pat@),
{
    let len = s.len();
    let m = pat.unicode_len();
    if len - i < m {
        proof {
            assert(i + pat@.len() > s@.len());
        }
        return None;
    }
    let mut k: usize = 0;
    while k < m
        invariant
            i + m <= len,
            len == s@.len(),
            m == pat@.len(),
            k <= m,
            forall|t: int| 0 <= t < k ==> s@[i + t] == pat@[t],
        decreases m - k,
    {
        if s[i + k] != pat.get_char(k) {
            proof {
                assert(s@.subrange(i as int, i + pat@.len()) != pat@) by {
                    assert(s@.subrange(i as int, i + pat@.len())[k as int] == s@[i + k]);
                }
            }
            return None;
        }
        k += 1;
    }
    proof {
        assert(s@.subrange(i as int, i + pat@.len()) =~= pat@);
    }
    Some(i + m)
}

/// Canonical rendering of a truth value.
pub open spec fn spec_ser_bool(b: bool) -> Seq<char> {
    if b {
        "true"@
    } else {
        "false"@
    }
}

/// Serializes a truth value onto `out`.
pub fn push_bool(out: &mut Vec<char>, b: bool)
    ensures
        final(out)@ == old(out)@ + spec_ser_bool(b),
{
    if b {
        push_str_chars(out, "true");
    } else {
        push_str_chars(out, "false");
    }
}

/// Parses a truth value, sound and complete for the canonical renderings.
pub fn parse_bool(s: &Vec<char>, i: usize) -> (r: Option<(bool, usize)>)
    requires
        i <= s@.len(),
    ensures
        r matches Some((b, j)) ==> i < j <= s@.len() && s@.subrange(i as int, j as int)
            == spec_ser_bool(b),
        forall|b: bool, rest: Seq<char>|
            s@.skip(i as int) == spec_ser_bool(b) + rest ==> (r matches Some((w, j)) && w == b && j
                == i + spec_ser_bool(b).len()),
{
    proof {
        reveal_strlit("true");
        reveal_strlit("false");
    }
    let r1 = expect_str(s, i, "true");
    match r1 {
        Some(j) => {
            proof {
                assert forall|b: bool, rest: Seq<char>|
                    s@.skip(i as int) == spec_ser_bool(b) + rest implies (b == true && j == i
                    + spec_ser_bool(b).len()) by {
                    lemma_skip_split(s@, i as int, spec_ser_bool(b), rest);
                    if !b {
                        assert(s@[i as int] == 'f') by {
                            assert(s@.subrange(i as int, i + 5)[0] == s@[i as int]);
                        }
                        assert(s@[i as int] == 't') by {
                            assert(s@.subrange(i as int, i + 4)[0] == s@[i as int]);
                        }
                    }
                }
            }
            Some((true, j))
        },
        None => {
            let r2 = expect_str(s, i, "false");
            match r2 {
                Some(j) => {
                    proof {
                        assert forall|b: bool, rest: Seq<char>|
                            s@.skip(i as int) == spec_ser_bool(b) + rest implies (b == false && j
                            == i + spec_ser_bool(b).len()) by {
                            lemma_skip_split(s@, i as int, spec_ser_bool(b), rest);
                        }
                    }
                    Some((false, j))
                },
                None => {
                    proof {
                        assert forall|b: bool, rest: Seq<char>|
                            s@.skip(i as int) == spec_ser_bool(b) + rest implies false by {
                            lemma_skip_split(s@, i as int, spec_ser_bool(b), rest);
                        }
                    }
                    None
                },
            }
        },
    }
}

/// Canonical rendering of a three-component vector.
pub open spec fn spec_ser_vec3(v: Vec3) -> Seq<char> {
    "(x:"@ + spec_dec(v.x as int) + ",y:"@ + spec_dec(v.y as int) + ",z:"@ + spec_dec(v.z as int)
        + ")"@
}

/// Canonical rendering of a transform.
pub open spec fn spec_ser_transform(t: TransformSimple) -> Seq<char> {
    "(translation:"@ + spec_ser_vec3(t.translation) + ",rotation:"@ + spec_ser_vec3(t.rotation)
        + ",scale:"@ + spec_ser_vec3(t.scale) + ")"@
}

/// Canonical rendering of one property value.
pub open spec fn spec_ser_prop(p: CustomPropView) -> Seq<char> {
    match p {
        CustomPropView::Vec3(v) => "Vec3("@ + spec_ser_vec3(v) + ")"@,
        CustomPropView::Text(s) => "String("@ + spec_ser_string(s) + ")"@,
        CustomPropView::Float(b) => "Float("@ + spec_dec(b as int) + ")"@,
        CustomPropView::Integer(n) => "Integer("@ + spec_ser_i32(n as int) + ")"@,
        CustomPropView::Boolean(b) => "Boolean("@ + spec_ser_bool(b) + ")"@,
        CustomPropView::EmptyProp => "EmptyProp"@,
    }
}

/// Canonical rendering of one named property.
pub open spec fn spec_ser_prop_pair(p: (Seq<char>, CustomPropView)) -> Seq<char> {
    spec_ser_string(p.0) + seq![':'] + spec_ser_prop(p.1)
}

/// Canonical rendering of a property map.
pub open spec fn spec_ser_props_map(m: Seq<(Seq<char>, CustomPropView)>) -> Seq<char> {
    seq!['{'] + spec_pairs(m) + seq!['}']
}

/// Canonical rendering of an optional property map.
pub open spec fn spec_ser_opt_props(o: Option<Seq<(Seq<char>, CustomPropView)>>) -> Seq<char> {
    match o {
        None => "None"@,
        Some(m) => "Some("@ + spec_ser_props_map(m) + ")"@,
    }
}

/// Canonical rendering of one placed entity.
pub open spec fn spec_ser_entity(e: ZoneEntityView) -> Seq<char> {
    "(name:"@ + spec_ser_string(e.name) + ",transform:"@ + spec_ser_transform(e.transform)
        + ",custom_props:"@ + spec_ser_opt_props(e.custom_props) + ")"@
}

/// Canonical rendering of a whole zone file.
pub open spec fn spec_ser_zone_file(f: Seq<ZoneEntityView>) -> Seq<char> {
    "(entities:["@ + spec_entities(f) + "])"@
}

/// Comma-separated renderings of the later named properties.
pub open spec fn spec_pairs_rest(t: Seq<(Seq<char>, CustomPropView)>) -> Seq<char>
    decreases t.len(),
{
    if t.len() == 0 {
        Seq::empty()
    } else {
        seq![','] + spec_ser_prop_pair(t[0]) + spec_pairs_rest(t.skip(1))
    }
}

/// Comma-separated renderings of a list of named properties.
pub open spec fn spec_pairs(t: Seq<(Seq<char>, CustomPropView)>) -> Seq<char> {
    if t.len() == 0 {
        Seq::empty()
    } else {
        spec_ser_prop_pair(t[0]) + spec_pairs_rest(t.skip(1))
    }
}

proof fn lemma_pairs_rest_push(t: Seq<(Seq<char>, CustomPropView)>, p: (Seq<char>, CustomPropView))
    ensures
        spec_pairs_rest(t.push(p)) == spec_pairs_rest(t) + seq![','] + spec_ser_prop_pair(p),
    decreases t.len(),
{
    if t.len() == 0 {
        assert(t.push(p)[0] == p);
        assert(t.push(p).skip(1) =~= Seq::<(Seq<char>, CustomPropView)>::empty());
        assert(spec_pairs_rest(Seq::<(Seq<char>, CustomPropView)>::empty()) == Seq::<
            char,
        >::empty());
        assert(seq![','] + spec_ser_prop_pair(p) + Seq::<char>::empty() =~= Seq::<char>::empty()
            + seq![','] + spec_ser_prop_pair(p));
    } else {
        assert(t.push(p)[0] == t[0]);
        assert(t.push(p).skip(1) =~= t.skip(1).push(p));
        lemma_pairs_rest_push(t.skip(1), p);
        assert(seq![','] + spec_ser_prop_pair(t[0]) + (spec_pairs_rest(t.skip(1)) + seq![',']
            + spec_ser_prop_pair(p)) =~= (seq![','] + spec_ser_prop_pair(t[0]) + spec_pairs_rest(
            t.skip(1),
        )) + seq![','] + spec_ser_prop_pair(p));
    }
}

pub proof fn lemma_pairs_push(t: Seq<(Seq<char>, CustomPropView)>, p: (Seq<char>, CustomPropView))
    ensures
        t.len() == 0 ==> spec_pairs(t.push(p)) == spec_ser_prop_pair(p),
        t.len() > 0 ==> spec_pairs(t.push(p)) == spec_pairs(t) + seq![','] + spec_ser_prop_pair(p),
{
    if t.len() == 0 {
        assert(t.push(p)[0] == p);
        assert(t.push(p).skip(1) =~= Seq::<(Seq<char>, CustomPropView)>::empty());
        assert(spec_pairs_rest(Seq::<(Seq<char>, CustomPropView)>::empty()) == Seq::<
            char,
        >::empty());
        assert(spec_ser_prop_pair(p) + Seq::<char>::empty() =~= spec_ser_prop_pair(p));
    } else {
        assert(t.push(p)[0] == t[0]);
        assert(t.push(p).skip(1) =~= t.skip(1).push(p));
        lemma_pairs_rest_push(t.skip(1), p);
        assert(spec_ser_prop_pair(t[0]) + (spec_pairs_rest(t.skip(1)) + seq![',']
            + spec_ser_prop_pair(p)) =~= (spec_ser_prop_pair(t[0]) + spec_pairs_rest(t.skip(1)))
            + seq![','] + spec_ser_prop_pair(p));
    }
}

/// Comma-separated renderings of the later entities.
pub open spec fn spec_entities_rest(t: Seq<ZoneEntityView>) -> Seq<char>
    decreases t.len(),
{
    if t.len() == 0 {
        Seq::empty()
    } else {
        seq![','] + spec_ser_entity(t[0]) + spec_entities_rest(t.skip(1))
    }
}

/// Comma-separated renderings of a list of entities.
pub open spec fn spec_entities(t: Seq<ZoneEntityView>) -> Seq<char> {
    if t.len() == 0 {
        Seq::empty()
    } else {
        spec_ser_entity(t[0]) + spec_entities_rest(t.skip(1))
    }
}

proof fn lemma_entities_rest_push(t: Seq<ZoneEntityView>, e: ZoneEntityView)
    ensures
        spec_entities_rest(t.push(e)) == spec_entities_rest(t) + seq![','] + spec_ser_entity(e),
    decreases t.len(),
{
    if t.len() == 0 {
        assert(t.push(e)[0] == e);
        assert(t.push(e).skip(1) =~= Seq::<ZoneEntityView>::empty());
        assert(spec_entities_rest(Seq::<ZoneEntityView>::empty()) == Seq::<char>::empty());
        assert(seq![','] + spec_ser_entity(e) + Seq::<char>::empty() =~= Seq::<char>::empty()
            + seq![','] + spec_ser_entity(e));
    } else {
        assert(t.push(e)[0] == t[0]);
        assert(t.push(e).skip(1) =~= t.skip(1).push(e));
        lemma_entities_rest_push(t.skip(1), e);
        assert(seq![','] + spec_ser_entity(t[0]) + (spec_entities_rest(t.skip(1)) + seq![',']
            + spec_ser_entity(e)) =~= (seq![','] + spec_ser_entity(t[0]) + spec_entities_rest(
            t.skip(1),
        )) + seq![','] + spec_ser_entity(e));
    }
}

pub proof fn lemma_entities_push(t: Seq<ZoneEntityView>, e: ZoneEntityView)
    ensures
        t.len() == 0 ==> spec_entities(t.push(e)) == spec_ser_entity(e),
        t.len() > 0 ==> spec_entities(t.push(e)) == spec_entities(t) + seq![','] + spec_ser_entity(
            e,
        ),
{
    if t.len() == 0 {
        assert(t.push(e)[0] == e);
        assert(t.push(e).skip(1) =~= Seq::<ZoneEntityView>::empty());
        assert(spec_entities_rest(Seq::<ZoneEntityView>::empty()) == Seq::<char>::empty());
        assert(spec_ser_entity(e) + Seq::<char>::empty() =~= spec_ser_entity(e));
    } else {
        assert(t.push(e)[0] == t[0]);
        assert(t.push(e).skip(1) =~= t.skip(1).push(e));
        lemma_entities_rest_push(t.skip(1), e);
        assert(spec_ser_entity(t[0]) + (spec_entities_rest(t.skip(1)) + seq![',']
            + spec_ser_entity(e)) =~= (spec_ser_entity(t[0]) + spec_entities_rest(t.skip(1)))
            + seq![','] + spec_ser_entity(e));
    }
}

/// Serializes a three-component vector onto `out`.
pub fn push_vec3(out: &mut Vec<char>, v: &Vec3)
    ensures
        final(out)@ == old(out)@ + spec_ser_vec3(*v),
{
    push_str_chars(out, "(x:");
    push_u32(out, v.x);
    push_str_chars(out, ",y:");
    push_u32(out, v.y);
    push_str_chars(out, ",z:");
    push_u32(out, v.z);
    push_str_chars(out, ")");
    proof {
        assert(out@ =~= old(out)@ + spec_ser_vec3(*v));
    }
}

/// Serializes a transform onto `out`.
pub fn push_transform(out: &mut Vec<char>, t: &TransformSimple)
    ensures
        final(out)@ == old(out)@ + spec_ser_transform(*t),
{
    push_str_chars(out, "(translation:");
    push_vec3(out, &t.translation);
    push_str_chars(out, ",rotation:");
    push_vec3(out, &t.rotation);
    push_str_chars(out, ",scale:");
    push_vec3(out, &t.scale);
    push_str_chars(out, ")");
    proof {
        assert(out@ =~= old(out)@ + spec_ser_transform(*t));
    }
}

/// Serializes one property value onto `out`.
pub fn push_prop(out: &mut Vec<char>, p: &CustomProp)
    ensures
        final(out)@ == old(out)@ + spec_ser_prop(p@),
{
    match p {
        CustomProp::Vec3(v) => {
            push_str_chars(out, "Vec3(");
            push_vec3(out, v);
            push_str_chars(out, ")");
        },
        CustomProp::Text(s) => {
            push_str_chars(out, "String(");
            push_string(out, s.as_str());
            push_str_chars(out, ")");
        },
        CustomProp::Float(b) => {
            push_str_chars(out, "Float(");
            push_u32(out, *b);
            push_str_chars(out, ")");
        },
        CustomProp::Integer(n) => {
            push_str_chars(out, "Integer(");
            push_i32(out, *n);
            push_str_chars(out, ")");
        },
        CustomProp::Boolean(b) => {
            push_str_chars(out, "Boolean(");
            push_bool(out, *b);
            push_str_chars(out, ")");
        },
        CustomProp::EmptyProp => {
            push_str_chars(out, "EmptyProp");
        },
    }
    proof {
        assert(out@ =~= old(out)@ + spec_ser_prop(p@));
    }
}

/// Serializes a property map onto `out`.
pub fn push_props_map(out: &mut Vec<char>, m: &CustomPropsMap)
    ensures
        final(out)@ == old(out)@ + spec_ser_props_map(m@),
{
    out.push('{');
    let n = m.entries.len();
    let mut k: usize = 0;
    while k < n
        invariant
            n == m.entries@.len(),
            k <= n,
            m@.len() == n,
            out@ == old(out)@ + seq!['{'] + spec_pairs(m@.subrange(0, k as int)),
        decreases n - k,
    {
        proof {
            assert(m@[k as int] == (m.entries@[k as int].0@, m.entries@[k as int].1@));
            assert(m@.subrange(0, k + 1) =~= m@.subrange(0, k as int).push(m@[k as int]));
            lemma_pairs_push(m@.subrange(0, k as int), m@[k as int]);
        }
        if k > 0 {
            out.push(',');
        }
        let (name, value) = &m.entries[k];
        push_string(out, name.as_str());
        out.push(':');
        push_prop(out, value);
        proof {
            assert(out@ =~= old(out)@ + seq!['{'] + spec_pairs(m@.subrange(0, k + 1)));
        }
        k += 1;
    }
    out.push('}');
    proof {
        assert(m@.subrange(0, n as int) =~= m@);
        assert(out@ =~= old(out)@ + spec_ser_props_map(m@));
    }
}

/// Serializes an optional property map onto `out`.
pub fn push_opt_props(out: &mut Vec<char>, o: &Option<CustomPropsMap>)
    ensures
        final(out)@ == old(out)@ + spec_ser_opt_props(
            match o {
                Some(m) => Some(m@),
                None => None,
            },
        ),
{
    match o {
        None => {
            push_str_chars(out, "None");
        },
        Some(m) => {
            push_str_chars(out, "Some(");
            push_props_map(out, m);
            push_str_chars(out, ")");
            proof {
                assert(out@ =~= old(out)@ + spec_ser_opt_props(Some(m@)));
            }
        },
    }
}

/// Serializes one placed entity onto `out`.
pub fn push_entity(out: &mut Vec<char>, e: &ZoneEntity)
    ensures
        final(out)@ == old(out)@ + spec_ser_entity(e@),
{
    push_str_chars(out, "(name:");
    push_string(out, e.name.as_str());
    push_str_chars(out, ",transform:");
    push_transform(out, &e.transform);
    push_str_chars(out, ",custom_props:");
    push_opt_props(out, &e.custom_props);
    push_str_chars(out, ")");
    proof {
        assert(out@ =~= old(out)@ + spec_ser_entity(e@));
    }
}

/// Serializes a whole zone file into its canonical text.
pub fn serialize_zone_file(f: &ZoneFile) -> (out: Vec<char>)
    ensures
        out@ == spec_ser_zone_file(f@),
{
    let mut out: Vec<char> = Vec::new();
    push_str_chars(&mut out, "(entities:[");
    let n = f.entities.len();
    let mut k: usize = 0;
    while k < n
        invariant
            n == f.entities@.len(),
            k <= n,
            f@.len() == n,
            out@ == "(entities:["@ + spec_entities(f@.subrange(0, k as int)),
        decreases n - k,
    {
        proof {
            assert(f@[k as int] == f.entities@[k as int]@);
            assert(f@.subrange(0, k + 1) =~= f@.subrange(0, k as int).push(f@[k as int]));
            lemma_entities_push(f@.subrange(0, k as int), f@[k as int]);
        }
        if k > 0 {
            out.push(',');
        }
        push_entity(&mut out, &f.entities[k]);
        proof {
            assert(out@ =~= "(entities:["@ + spec_entities(f@.subrange(0, k + 1)));
        }
        k += 1;
    }
    push_str_chars(&mut out, "])");
    proof {
        assert(f@.subrange(0, n as int) =~= f@);
        assert(out@ =~= spec_ser_zone_file(f@));
    }
    out
}

/// Where each part of a serialized vector stands in the input.
proof fn lemma_vec3_positions(s: Seq<char>, i: int, v: Vec3, rest: Seq<char>)
    requires
        0 <= i <= s.len(),
        s.skip(i) == spec_ser_vec3(v) + rest,
    ensures
        ({
            let dx = spec_dec(v.x as int);
            let dy = spec_dec(v.y as int);
            let dz = spec_dec(v.z as int);
            let p1 = i + "(x:"@.len();
            let p2 = p1 + dx.len();
            let p3 = p2 + ",y:"@.len();
            let p4 = p3 + dy.len();
            let p5 = p4 + ",z:"@.len();
            let p6 = p5 + dz.len();
            let p7 = p6 + ")"@.len();
            &&& p7 <= s.len()
            &&& p7 == i + spec_ser_vec3(v).len()
            &&& s.subrange(i, p1) == "(x:"@
            &&& s.skip(p1) == dx + s.skip(p2)
            &&& s.subrange(p2, p3) == ",y:"@
            &&& s.skip(p3) == dy + s.skip(p4)
            &&& s.subrange(p4, p5) == ",z:"@
            &&& s.skip(p5) == dz + s.skip(p6)
            &&& s.subrange(p6, p7) == ")"@
            &&& s.skip(p7) == rest
            &&& !is_digit(s[p2])
            &&& !is_digit(s[p4])
            &&& !is_digit(s[p6])
        }),
{
    reveal_strlit("(x:");
    reveal_strlit(",y:");
    reveal_strlit(",z:");
    reveal_strlit(")");
    let dx = spec_dec(v.x as int);
    let dy = spec_dec(v.y as int);
    let dz = spec_dec(v.z as int);
    let t1 = dx + (",y:"@ + (dy + (",z:"@ + (dz + (")"@ + rest)))));
    assert(s.skip(i) =~= "(x:"@ + t1);
    lemma_skip_split(s, i, "(x:"@, t1);
    let p1 = i + "(x:"@.len();
    lemma_skip_split(s, p1, dx, ",y:"@ + (dy + (",z:"@ + (dz + (")"@ + rest)))));
    let p2 = p1 + dx.len();
    lemma_skip_split(s, p2, ",y:"@, dy + (",z:"@ + (dz + (")"@ + rest))));
    let p3 = p2 + ",y:"@.len();
    lemma_skip_split(s, p3, dy, ",z:"@ + (dz + (")"@ + rest)));
    let p4 = p3 + dy.len();
    lemma_skip_split(s, p4, ",z:"@, dz + (")"@ + rest));
    let p5 = p4 + ",z:"@.len();
    lemma_skip_split(s, p5, dz, ")"@ + rest);
    let p6 = p5 + dz.len();
    lemma_skip_split(s, p6, ")"@, rest);
    let p7 = p6 + 1;
    assert(s[p2] == ',') by {
        assert(s.subrange(p2, p3)[0] == s[p2]);
    }
    assert(s[p4] == ',') by {
        assert(s.subrange(p4, p5)[0] == s[p4]);
    }
    assert(s[p6] == ')') by {
        assert(s.subrange(p6, p7)[0] == s[p6]);
    }
}

/// Parses a serialized vector, sound and complete for canonical renderings.
#[verifier::rlimit(60)]
pub fn parse_vec3(s: &Vec<char>, i: usize) -> (r: Option<(Vec3, usize)>)
    requires
        i <= s@.len(),
    ensures
        r matches Some((v, j)) ==> i < j <= s@.len() && s@.subrange(i as int, j as int)
            == spec_ser_vec3(v),
        forall|v: Vec3, rest: Seq<char>|
            s@.skip(i as int) == #[trigger] (spec_ser_vec3(v) + rest) ==> (r matches Some((w, j))
                && w == v && j == i + spec_ser_vec3(v).len()),
{
    let j1 = match expect_str(s, i, "(x:") {
        Some(j) => j,
        None => {
            proof {
                assert forall|v: Vec3, rest: Seq<char>|
                    s@.skip(i as int) == #[trigger] (spec_ser_vec3(v) + rest) implies false by {
                    lemma_vec3_positions(s@, i as int, v, rest);
                }
            }
            return None;
        },
    };
    let (x, j2) = match parse_u32(s, j1) {
        Some(p) => p,
        None => {
            proof {
                assert forall|v: Vec3, rest: Seq<char>|
                    s@.skip(i as int) == #[trigger] (spec_ser_vec3(v) + rest) implies false by {
                    lemma_vec3_positions(s@, i as int, v, rest);
                }
            }
            return None;
        },
    };
    let j3 = match expect_str(s, j2, ",y:") {
        Some(j) => j,
        None => {
            proof {
                assert forall|v: Vec3, rest: Seq<char>|
                    s@.skip(i as int) == #[trigger] (spec_ser_vec3(v) + rest) implies false by {
                    lemma_vec3_positions(s@, i as int, v, rest);
                }
            }
            return None;
        },
    };
    let (y, j4) = match parse_u32(s, j3) {
        Some(p) => p,
        None => {
            proof {
                assert forall|v: Vec3, rest: Seq<char>|
                    s@.skip(i as int) == #[trigger] (spec_ser_vec3(v) + rest) implies false by {
                    lemma_vec3_positions(s@, i as int, v, rest);
                }
            }
            return None;
        },
    };
    let j5 = match expect_str(s, j4, ",z:") {
        Some(j) => j,
        None => {
            proof {
                assert forall|v: Vec3, rest: Seq<char>|
                    s@.skip(i as int) == #[trigger] (spec_ser_vec3(v) + rest) implies false by {
                    lemma_vec3_positions(s@, i as int, v, rest);
                }
            }
            return None;
        },
    };
    let (z, j6) = match parse_u32(s, j5) {
        Some(p) => p,
        None => {
            proof {
                assert forall|v: Vec3, rest: Seq<char>|
                    s@.skip(i as int) == #[trigger] (spec_ser_vec3(v) + rest) implies false by {
                    lemma_vec3_positions(s@, i as int, v, rest);
                }
            }
            return None;
        },
    };
    let j7 = match expect_str(s, j6, ")") {
        Some(j) => j,
        None => {
            proof {
                assert forall|v: Vec3, rest: Seq<char>|
                    s@.skip(i as int) == #[trigger] (spec_ser_vec3(v) + rest) implies false by {
                    lemma_vec3_positions(s@, i as int, v, rest);
                }
            }
            return None;
        },
    };
    let w = Vec3 { x, y, z };
    proof {
        lemma_subrange_join(s@, i as int, j1 as int, j2 as int);
        lemma_subrange_join(s@, i as int, j2 as int, j3 as int);
        lemma_subrange_join(s@, i as int, j3 as int, j4 as int);
        lemma_subrange_join(s@, i as int, j4 as int, j5 as int);
        lemma_subrange_join(s@, i as int, j5 as int, j6 as int);
        lemma_subrange_join(s@, i as int, j6 as int, j7 as int);
        assert(s@.subrange(i as int, j7 as int) == spec_ser_vec3(w));
        assert forall|v: Vec3, rest: Seq<char>|
            s@.skip(i as int) == #[trigger] (spec_ser_vec3(v) + rest) implies (w == v && j7 == i
            + spec_ser_vec3(v).len()) by {
            lemma_vec3_positions(s@, i as int, v, rest);
        }
    }
    Some((w, j7))
}

/// Where each part of a serialized transform stands in the input.
proof fn lemma_transform_positions(s: Seq<char>, i: int, t: TransformSimple, rest: Seq<char>)
    requires
        0 <= i <= s.len(),
        s.skip(i) == spec_ser_transform(t) + rest,
    ensures
        ({
            let st = spec_ser_vec3(t.translation);
            let sr = spec_ser_vec3(t.rotation);
            let sc = spec_ser_vec3(t.scale);
            let p1 = i + "(translation:"@.len();
            let p2 = p1 + st.len();
            let p3 = p2 + ",rotation:"@.len();
            let p4 = p3 + sr.len();
            let p5 = p4 + ",scale:"@.len();
            let p6 = p5 + sc.len();
            let p7 = p6 + ")"@.len();
            &&& p7 <= s.len()
            &&& p7 == i + spec_ser_transform(t).len()
            &&& s.subrange(i, p1) == "(translation:"@
            &&& s.skip(p1) == st + s.skip(p2)
            &&& s.subrange(p2, p3) == ",rotation:"@
            &&& s.skip(p3) == sr + s.skip(p4)
            &&& s.subrange(p4, p5) == ",scale:"@
            &&& s.skip(p5) == sc + s.skip(p6)
            &&& s.subrange(p6, p7) == ")"@
            &&& s.skip(p7) == rest
        }),
{
    let st = spec_ser_vec3(t.translation);
    let sr = spec_ser_vec3(t.rotation);
    let sc = spec_ser_vec3(t.scale);
    let t1 = st + (",rotation:"@ + (sr + (",scale:"@ + (sc + (")"@ + rest)))));
    assert(s.skip(i) =~= "(translation:"@ + t1);
    lemma_skip_split(s, i, "(translation:"@, t1);
    let p1 = i + "(translation:"@.len();
    lemma_skip_split(s, p1, st, ",rotation:"@ + (sr + (",scale:"@ + (sc + (")"@ + rest)))));
    let p2 = p1 + st.len();
    lemma_skip_split(s, p2, ",rotation:"@, sr + (",scale:"@ + (sc + (")"@ + rest))));
    let p3 = p2 + ",rotation:"@.len();
    lemma_skip_split(s, p3, sr, ",scale:"@ + (sc + (")"@ + rest)));
    let p4 = p3 + sr.len();
    lemma_skip_split(s, p4, ",scale:"@, sc + (")"@ + rest));
    let p5 = p4 + ",scale:"@.len();
    lemma_skip_split(s, p5, sc, ")"@ + rest);
    let p6 = p5 + sc.len();
    lemma_skip_split(s, p6, ")"@, rest);
}

/// Parses a serialized transform, sound and complete for canonical
/// renderings.
#[verifier::rlimit(60)]
pub fn parse_transform(s: &Vec<char>, i: usize) -> (r: Option<(TransformSimple, usize)>)
    requires
        i <= s@.len(),
    ensures
        r matches Some((t, j)) ==> i < j <= s@.len() && s@.subrange(i as int, j as int)
            == spec_ser_transform(t),
        forall|t: TransformSimple, rest: Seq<char>|
            s@.skip(i as int) == #[trigger] (spec_ser_transform(t) + rest) ==> (r matches Some(
                (w, j),
            ) && w == t && j == i + spec_ser_transform(t).len()),
{
    let j1 = match expect_str(s, i, "(translation:") {
        Some(j) => j,
        None => {
            proof {
                assert forall|t: TransformSimple, rest: Seq<char>|
                    s@.skip(i as int) == #[trigger] (spec_ser_transform(t) + rest) implies false by {
                    lemma_transform_positions(s@, i as int, t, rest);
                }
            }
            return None;
        },
    };
    let (tr, j2) = match parse_vec3(s, j1) {
        Some(p) => p,
        None => {
            proof {
                assert forall|t: TransformSimple, rest: Seq<char>|
                    s@.skip(i as int) == #[trigger] (spec_ser_transform(t) + rest) implies false by {
                    lemma_transform_positions(s@, i as int, t, rest);
                }
            }
            return None;
        },
    };
    let j3 = match expect_str(s, j2, ",rotation:") {
        Some(j) => j,
        None => {
            proof {
                assert forall|t: TransformSimple, rest: Seq<char>|
                    s@.skip(i as int) == #[trigger] (spec_ser_transform(t) + rest) implies false by {
                    lemma_transform_positions(s@, i as int, t, rest);
                }
            }
            return None;
        },
    };
    let (ro, j4) = match parse_vec3(s, j3) {
        Some(p) => p,
        None => {
            proof {
                assert forall|t: TransformSimple, rest: Seq<char>|
                    s@.skip(i as int) == #[trigger] (spec_ser_transform(t) + rest) implies false by {
                    lemma_transform_positions(s@, i as int, t, rest);
                }
            }
            return None;
        },
    };
    let j5 = match expect_str(s, j4, ",scale:") {
        Some(j) => j,
        None => {
            proof {
                assert forall|t: TransformSimple, rest: Seq<char>|
                    s@.skip(i as int) == #[trigger] (spec_ser_transform(t) + rest) implies false by {
                    lemma_transform_positions(s@, i as int, t, rest);
                }
            }
            return None;
        },
    };
    let (sc, j6) = match parse_vec3(s, j5) {
        Some(p) => p,
        None => {
            proof {
                assert forall|t: TransformSimple, rest: Seq<char>|
                    s@.skip(i as int) == #[trigger] (spec_ser_transform(t) + rest) implies false by {
                    lemma_transform_positions(s@, i as int, t, rest);
                }
            }
            return None;
        },
    };
    let j7 = match expect_str(s, j6, ")") {
        Some(j) => j,
        None => {
            proof {
                assert forall|t: TransformSimple, rest: Seq<char>|
                    s@.skip(i as int) == #[trigger] (spec_ser_transform(t) + rest) implies false by {
                    lemma_transform_positions(s@, i as int, t, rest);
                }
            }
            return None;
        },
    };
    let w = TransformSimple { translation: tr, rotation: ro, scale: sc };
    proof {
        lemma_subrange_join(s@, i as int, j1 as int, j2 as int);
        lemma_subrange_join(s@, i as int, j2 as int, j3 as int);
        lemma_subrange_join(s@, i as int, j3 as int, j4 as int);
        lemma_subrange_join(s@, i as int, j4 as int, j5 as int);
        lemma_subrange_join(s@, i as int, j5 as int, j6 as int);
        lemma_subrange_join(s@, i as int, j6 as int, j7 as int);
        assert(s@.subrange(i as int, j7 as int) == spec_ser_transform(w));
        assert forall|t: TransformSimple, rest: Seq<char>|
            s@.skip(i as int) == #[trigger] (spec_ser_transform(t) + rest) implies (w == t && j7
            == i + spec_ser_transform(t).len()) by {
            lemma_transform_positions(s@, i as int, t, rest);
        }
    }
    Some((w, j7))
}

/// Where each part of a serialized property stands in the input, and which
/// tag character it starts with.
proof fn lemma_prop_positions(s: Seq<char>, i: int, p: CustomPropView, rest: Seq<char>)
    requires
        0 <= i <= s.len(),
        s.skip(i) == spec_ser_prop(p) + rest,
    ensures
        i < s.len(),
        i + spec_ser_prop(p).len() <= s.len(),
        s.skip(i + spec_ser_prop(p).len()) == rest,
        match p {
            CustomPropView::Vec3(v) => {
                let p1 = i + "Vec3("@.len();
                let p2 = p1 + spec_ser_vec3(v).len();
                &&& s[i] == 'V'
                &&& s.subrange(i, p1) == "Vec3("@
                &&& s.skip(p1) == spec_ser_vec3(v) + s.skip(p2)
                &&& s.subrange(p2, p2 + 1) == ")"@
            },
            CustomPropView::Text(t) => {
                let p1 = i + "String("@.len();
                let p2 = p1 + spec_ser_string(t).len();
                &&& s[i] == 'S'
                &&& s.subrange(i, p1) == "String("@
                &&& s.skip(p1) == spec_ser_string(t) + s.skip(p2)
                &&& s.subrange(p2, p2 + 1) == ")"@
            },
            CustomPropView::Float(b) => {
                let p1 = i + "Float("@.len();
                let p2 = p1 + spec_dec(b as int).len();
                &&& s[i] == 'F'
                &&& s.subrange(i, p1) == "Float("@
                &&& s.skip(p1) == spec_dec(b as int) + s.skip(p2)
                &&& s.subrange(p2, p2 + 1) == ")"@
                &&& !is_digit(s[p2])
            },
            CustomPropView::Integer(n) => {
                let p1 = i + "Integer("@.len();
                let p2 = p1 + spec_ser_i32(n as int).len();
                &&& s[i] == 'I'
                &&& s.subrange(i, p1) == "Integer("@
                &&& s.skip(p1) == spec_ser_i32(n as int) + s.skip(p2)
                &&& s.subrange(p2, p2 + 1) == ")"@
                &&& !is_digit(s[p2])
            },
            CustomPropView::Boolean(b) => {
                let p1 = i + "Boolean("@.len();
                let p2 = p1 + spec_ser_bool(b).len();
                &&& s[i] == 'B'
                &&& s.subrange(i, p1) == "Boolean("@
                &&& s.skip(p1) == spec_ser_bool(b) + s.skip(p2)
                &&& s.subrange(p2, p2 + 1) == ")"@
            },
            CustomPropView::EmptyProp => {
                &&& s[i] == 'E'
                &&& s.subrange(i, i + "EmptyProp"@.len()) == "EmptyProp"@
            },
        },
{
    reveal_strlit("Vec3(");
    reveal_strlit("String(");
    reveal_strlit("Float(");
    reveal_strlit("Integer(");
    reveal_strlit("Boolean(");
    reveal_strlit("EmptyProp");
    reveal_strlit(")");
    match p {
        CustomPropView::Vec3(v) => {
            let body = spec_ser_vec3(v);
            let t1 = body + (")"@ + rest);
            assert(s.skip(i) =~= "Vec3("@ + t1);
            lemma_skip_split(s, i, "Vec3("@, t1);
            let p1 = i + "Vec3("@.len();
            lemma_skip_split(s, p1, body, ")"@ + rest);
            let p2 = p1 + body.len();
            lemma_skip_split(s, p2, ")"@, rest);
            assert(s[i] == 'V') by {
                assert(s.subrange(i, p1)[0] == s[i]);
            }
        },
        CustomPropView::Text(t) => {
            let body = spec_ser_string(t);
            let t1 = body + (")"@ + rest);
            assert(s.skip(i) =~= "String("@ + t1);
            lemma_skip_split(s, i, "String("@, t1);
            let p1 = i + "String("@.len();
            lemma_skip_split(s, p1, body, ")"@ + rest);
            let p2 = p1 + body.len();
            lemma_skip_split(s, p2, ")"@, rest);
            assert(s[i] == 'S') by {
                assert(s.subrange(i, p1)[0] == s[i]);
            }
        },
        CustomPropView::Float(b) => {
            let body = spec_dec(b as int);
            let t1 = body + (")"@ + rest);
            assert(s.skip(i) =~= "Float("@ + t1);
            lemma_skip_split(s, i, "Float("@, t1);
            let p1 = i + "Float("@.len();
            lemma_skip_split(s, p1, body, ")"@ + rest);
            let p2 = p1 + body.len();
            lemma_skip_split(s, p2, ")"@, rest);
            assert(s[i] == 'F') by {
                assert(s.subrange(i, p1)[0] == s[i]);
            }
            assert(s[p2] == ')') by {
                assert(s.subrange(p2, p2 + 1)[0] == s[p2]);
            }
        },
        CustomPropView::Integer(n) => {
            let body = spec_ser_i32(n as int);
            let t1 = body + (")"@ + rest);
            assert(s.skip(i) =~= "Integer("@ + t1);
            lemma_skip_split(s, i, "Integer("@, t1);
            let p1 = i + "Integer("@.len();
            lemma_skip_split(s, p1, body, ")"@ + rest);
            let p2 = p1 + body.len();
            lemma_skip_split(s, p2, ")"@, rest);
            assert(s[i] == 'I') by {
                assert(s.subrange(i, p1)[0] == s[i]);
            }
            assert(s[p2] == ')') by {
                assert(s.subrange(p2, p2 + 1)[0] == s[p2]);
            }
        },
        CustomPropView::Boolean(b) => {
            let body = spec_ser_bool(b);
            let t1 = body + (")"@ + rest);
            assert(s.skip(i) =~= "Boolean("@ + t1);
            lemma_skip_split(s, i, "Boolean("@, t1);
            let p1 = i + "Boolean("@.len();
            lemma_skip_split(s, p1, body, ")"@ + rest);
            let p2 = p1 + body.len();
            lemma_skip_split(s, p2, ")"@, rest);
            assert(s[i] == 'B') by {
                assert(s.subrange(i, p1)[0] == s[i]);
            }
        },
        CustomPropView::EmptyProp => {
            lemma_skip_split(s, i, "EmptyProp"@, rest);
            assert(s[i] == 'E') by {
                assert(s.subrange(i, i + "EmptyProp"@.len())[0] == s[i]);
            }
        },
    }
}

/// The first character of each property tag tells the variants apart.
proof fn lemma_prop_first_char(s: Seq<char>, i: int, p: CustomPropView, rest: Seq<char>, c: char)
    requires
        0 <= i <= s.len(),
        s.skip(i) == spec_ser_prop(p) + rest,
        s[i] == c,
    ensures
        c == 'V' ==> p is Vec3,
        c == 'S' ==> p is Text,
        c == 'F' ==> p is Float,
        c == 'I' ==> p is Integer,
        c == 'B' ==> p is Boolean,
        c == 'E' ==> p is EmptyProp,
{
    lemma_prop_positions(s, i, p, rest);
}

/// Parses a serialized property, sound and complete for canonical
/// renderings.
#[verifier::rlimit(100)]
#[verifier::spinoff_prover]
pub fn parse_prop(s: &Vec<char>, i: usize) -> (r: Option<(CustomProp, usize)>)
    requires
        i <= s@.len(),
    ensures
        r matches Some((p, j)) ==> i < j <= s@.len() && s@.subrange(i as int, j as int)
            == spec_ser_prop(p@),
        forall|p: CustomPropView, rest: Seq<char>|
            s@.skip(i as int) == #[trigger] (spec_ser_prop(p) + rest) ==> (r matches Some((w, j))
                && w@ == p && j == i + spec_ser_prop(p).len()),
{
    proof {
        reveal_strlit("Vec3(");
        reveal_strlit("String(");
        reveal_strlit("Float(");
        reveal_strlit("Integer(");
        reveal_strlit("Boolean(");
        reveal_strlit("EmptyProp");
        reveal_strlit(")");
    }
    let len = s.len();
    if i >= len {
        proof {
            assert forall|p: CustomPropView, rest: Seq<char>|
                s@.skip(i as int) == #[trigger] (spec_ser_prop(p) + rest) implies false by {
                lemma_prop_positions(s@, i as int, p, rest);
            }
        }
        return None;
    }
    let c = s[i];
    if c == 'V' {
        let r1 = match expect_str(s, i, "Vec3(") {
            Some(j) => j,
            None => {
                proof {
                    assert forall|p: CustomPropView, rest: Seq<char>|
                        s@.skip(i as int) == #[trigger] (spec_ser_prop(p) + rest) implies false by {
                        lemma_prop_positions(s@, i as int, p, rest);
                        lemma_prop_first_char(s@, i as int, p, rest, c);
                    }
                }
                return None;
            },
        };
        let (v, j2) = match parse_vec3(s, r1) {
            Some(q) => q,
            None => {
                proof {
                    assert forall|p: CustomPropView, rest: Seq<char>|
                        s@.skip(i as int) == #[trigger] (spec_ser_prop(p) + rest) implies false by {
                        lemma_prop_positions(s@, i as int, p, rest);
                        lemma_prop_first_char(s@, i as int, p, rest, c);
                    }
                }
                return None;
            },
        };
        let j3 = match expect_str(s, j2, ")") {
            Some(j) => j,
            None => {
                proof {
                    assert forall|p: CustomPropView, rest: Seq<char>|
                        s@.skip(i as int) == #[trigger] (spec_ser_prop(p) + rest) implies false by {
                        lemma_prop_positions(s@, i as int, p, rest);
                        lemma_prop_first_char(s@, i as int, p, rest, c);
                    }
                }
                return None;
            },
        };
        let w = CustomProp::Vec3(v);
        proof {
            lemma_subrange_join(s@, i as int, r1 as int, j2 as int);
            lemma_subrange_join(s@, i as int, j2 as int, j3 as int);
            assert(s@.subrange(i as int, j3 as int) == spec_ser_prop(w@));
            assert forall|p: CustomPropView, rest: Seq<char>|
                s@.skip(i as int) == #[trigger] (spec_ser_prop(p) + rest) implies (w@ == p && j3
                == i + spec_ser_prop(p).len()) by {
                lemma_prop_positions(s@, i as int, p, rest);
                lemma_prop_first_char(s@, i as int, p, rest, c);
            }
        }
        Some((w, j3))
    } else if c == 'S' {
        let r1 = match expect_str(s, i, "String(") {
            Some(j) => j,
            None => {
                proof {
                    assert forall|p: CustomPropView, rest: Seq<char>|
                        s@.skip(i as int) == #[trigger] (spec_ser_prop(p) + rest) implies false by {
                        lemma_prop_positions(s@, i as int, p, rest);
                        lemma_prop_first_char(s@, i as int, p, rest, c);
                    }
                }
                return None;
            },
        };
        let (t, j2) = match parse_string(s, r1) {
            Some(q) => q,
            None => {
                proof {
                    assert forall|p: CustomPropView, rest: Seq<char>|
                        s@.skip(i as int) == #[trigger] (spec_ser_prop(p) + rest) implies false by {
                        lemma_prop_positions(s@, i as int, p, rest);
                        lemma_prop_first_char(s@, i as int, p, rest, c);
                    }
                }
                return None;
            },
        };
        let j3 = match expect_str(s, j2, ")") {
            Some(j) => j,
            None => {
                proof {
                    assert forall|p: CustomPropView, rest: Seq<char>|
                        s@.skip(i as int) == #[trigger] (spec_ser_prop(p) + rest) implies false by {
                        lemma_prop_positions(s@, i as int, p, rest);
                        lemma_prop_first_char(s@, i as int, p, rest, c);
                    }
                }
                return None;
            },
        };
        let w = CustomProp::Text(t);
        proof {
            lemma_subrange_join(s@, i as int, r1 as int, j2 as int);
            lemma_subrange_join(s@, i as int, j2 as int, j3 as int);
            assert(s@.subrange(i as int, j3 as int) == spec_ser_prop(w@));
            assert forall|p: CustomPropView, rest: Seq<char>|
                s@.skip(i as int) == #[trigger] (spec_ser_prop(p) + rest) implies (w@ == p && j3
                == i + spec_ser_prop(p).len()) by {
                lemma_prop_positions(s@, i as int, p, rest);
                lemma_prop_first_char(s@, i as int, p, rest, c);
            }
        }
        Some((w, j3))
    } else if c == 'F' {
        let r1 = match expect_str(s, i, "Float(") {
            Some(j) => j,
            None => {
                proof {
                    assert forall|p: CustomPropView, rest: Seq<char>|
                        s@.skip(i as int) == #[trigger] (spec_ser_prop(p) + rest) implies false by {
                        lemma_prop_positions(s@, i as int, p, rest);
                        lemma_prop_first_char(s@, i as int, p, rest, c);
                    }
                }
                return None;
            },
        };
        let (b, j2) = match parse_u32(s, r1) {
            Some(q) => q,
            None => {
                proof {
                    assert forall|p: CustomPropView, rest: Seq<char>|
                        s@.skip(i as int) == #[trigger] (spec_ser_prop(p) + rest) implies false by {
                        lemma_prop_positions(s@, i as int, p, rest);
                        lemma_prop_first_char(s@, i as int, p, rest, c);
                    }
                }
                return None;
            },
        };
        let j3 = match expect_str(s, j2, ")") {
            Some(j) => j,
            None => {
                proof {
                    assert forall|p: CustomPropView, rest: Seq<char>|
                        s@.skip(i as int) == #[trigger] (spec_ser_prop(p) + rest) implies false by {
                        lemma_prop_positions(s@, i as int, p, rest);
                        lemma_prop_first_char(s@, i as int, p, rest, c);
                    }
                }
                return None;
            },
        };
        let w = CustomProp::Float(b);
        proof {
            lemma_subrange_join(s@, i as int, r1 as int, j2 as int);
            lemma_subrange_join(s@, i as int, j2 as int, j3 as int);
            assert(s@.subrange(i as int, j3 as int) == spec_ser_prop(w@));
            assert forall|p: CustomPropView, rest: Seq<char>|
                s@.skip(i as int) == #[trigger] (spec_ser_prop(p) + rest) implies (w@ == p && j3
                == i + spec_ser_prop(p).len()) by {
                lemma_prop_positions(s@, i as int, p, rest);
                lemma_prop_first_char(s@, i as int, p, rest, c);
            }
        }
        Some((w, j3))
    } else if c == 'I' {
        let r1 = match expect_str(s, i, "Integer(") {
            Some(j) => j,
            None => {
                proof {
                    assert forall|p: CustomPropView, rest: Seq<char>|
                        s@.skip(i as int) == #[trigger] (spec_ser_prop(p) + rest) implies false by {
                        lemma_prop_positions(s@, i as int, p, rest);
                        lemma_prop_first_char(s@, i as int, p, rest, c);
                    }
                }
                return None;
            },
        };
        let (n, j2) = match parse_i32(s, r1) {
            Some(q) => q,
            None => {
                proof {
                    assert forall|p: CustomPropView, rest: Seq<char>|
                        s@.skip(i as int) == #[trigger] (spec_ser_prop(p) + rest) implies false by {
                        lemma_prop_positions(s@, i as int, p, rest);
                        lemma_prop_first_char(s@, i as int, p, rest, c);
                    }
                }
                return None;
            },
        };
        let j3 = match expect_str(s, j2, ")") {
            Some(j) => j,
            None => {
                proof {
                    assert forall|p: CustomPropView, rest: Seq<char>|
                        s@.skip(i as int) == #[trigger] (spec_ser_prop(p) + rest) implies false by {
                        lemma_prop_positions(s@, i as int, p, rest);
                        lemma_prop_first_char(s@, i as int, p, rest, c);
                    }
                }
                return None;
            },
        };
        let w = CustomProp::Integer(n);
        proof {
            lemma_subrange_join(s@, i as int, r1 as int, j2 as int);
            lemma_subrange_join(s@, i as int, j2 as int, j3 as int);
            assert(s@.subrange(i as int, j3 as int) == spec_ser_prop(w@));
            assert forall|p: CustomPropView, rest: Seq<char>|
                s@.skip(i as int) == #[trigger] (spec_ser_prop(p) + rest) implies (w@ == p && j3
                == i + spec_ser_prop(p).len()) by {
                lemma_prop_positions(s@, i as int, p, rest);
                lemma_prop_first_char(s@, i as int, p, rest, c);
            }
        }
        Some((w, j3))
    } else if c == 'B' {
        let r1 = match expect_str(s, i, "Boolean(") {
            Some(j) => j,
            None => {
                proof {
                    assert forall|p: CustomPropView, rest: Seq<char>|
                        s@.skip(i as int) == #[trigger] (spec_ser_prop(p) + rest) implies false by {
                        lemma_prop_positions(s@, i as int, p, rest);
                        lemma_prop_first_char(s@, i as int, p, rest, c);
                    }
                }
                return None;
            },
        };
        let (b, j2) = match parse_bool(s, r1) {
            Some(q) => q,
            None => {
                proof {
                    assert forall|p: CustomPropView, rest: Seq<char>|
                        s@.skip(i as int) == #[trigger] (spec_ser_prop(p) + rest) implies false by {
                        lemma_prop_positions(s@, i as int, p, rest);
                        lemma_prop_first_char(s@, i as int, p, rest, c);
                    }
                }
                return None;
            },
        };
        let j3 = match expect_str(s, j2, ")") {
            Some(j) => j,
            None => {
                proof {
                    assert forall|p: CustomPropView, rest: Seq<char>|
                        s@.skip(i as int) == #[trigger] (spec_ser_prop(p) + rest) implies false by {
                        lemma_prop_positions(s@, i as int, p, rest);
                        lemma_prop_first_char(s@, i as int, p, rest, c);
                    }
                }
                return None;
            },
        };
        let w = CustomProp::Boolean(b);
        proof {
            lemma_subrange_join(s@, i as int, r1 as int, j2 as int);
            lemma_subrange_join(s@, i as int, j2 as int, j3 as int);
            assert(s@.subrange(i as int, j3 as int) == spec_ser_prop(w@));
            assert forall|p: CustomPropView, rest: Seq<char>|
                s@.skip(i as int) == #[trigger] (spec_ser_prop(p) + rest) implies (w@ == p && j3
                == i + spec_ser_prop(p).len()) by {
                lemma_prop_positions(s@, i as int, p, rest);
                lemma_prop_first_char(s@, i as int, p, rest, c);
            }
        }
        Some((w, j3))
    } else if c == 'E' {
        let j1 = match expect_str(s, i, "EmptyProp") {
            Some(j) => j,
            None => {
                proof {
                    assert forall|p: CustomPropView, rest: Seq<char>|
                        s@.skip(i as int) == #[trigger] (spec_ser_prop(p) + rest) implies false by {
                        lemma_prop_positions(s@, i as int, p, rest);
                        lemma_prop_first_char(s@, i as int, p, rest, c);
                    }
                }
                return None;
            },
        };
        let w = CustomProp::EmptyProp;
        proof {
            assert(s@.subrange(i as int, j1 as int) == spec_ser_prop(w@));
            assert forall|p: CustomPropView, rest: Seq<char>|
                s@.skip(i as int) == #[trigger] (spec_ser_prop(p) + rest) implies (w@ == p && j1
                == i + spec_ser_prop(p).len()) by {
                lemma_prop_positions(s@, i as int, p, rest);
                lemma_prop_first_char(s@, i as int, p, rest, c);
            }
        }
        Some((w, j1))
    } else {
        proof {
            assert forall|p: CustomPropView, rest: Seq<char>|
                s@.skip(i as int) == #[trigger] (spec_ser_prop(p) + rest) implies false by {
                lemma_prop_positions(s@, i as int, p, rest);
            }
        }
        None
    }
}

/// Where each part of one serialized named property stands in the input.
proof fn lemma_pair_at(s: Seq<char>, i: int, p: (Seq<char>, CustomPropView), tail: Seq<char>)
    requires
        0 <= i <= s.len(),
        s.skip(i) == spec_ser_prop_pair(p) + tail,
    ensures
        ({
            let pa = i + spec_ser_string(p.0).len();
            let pb = pa + 1 + spec_ser_prop(p.1).len();
            &&& pb <= s.len()
            &&& pb == i + spec_ser_prop_pair(p).len()
            &&& s[i] == '"'
            &&& s.skip(i) == spec_ser_string(p.0) + s.skip(pa)
            &&& s.subrange(pa, pa + ":"@.len()) == ":"@
            &&& ":"@.len() == 1
            &&& s.skip(pa + 1) == spec_ser_prop(p.1) + s.skip(pb)
            &&& s.skip(pb) == tail
        }),
{
    reveal_strlit(":");
    assert(":"@ =~= seq![':']);
    let a = spec_ser_string(p.0);
    let b = spec_ser_prop(p.1);
    let t1 = ":"@ + (b + tail);
    assert(s.skip(i) =~= a + t1);
    lemma_skip_split(s, i, a, t1);
    let pa = i + a.len();
    lemma_skip_split(s, pa, ":"@, b + tail);
    lemma_skip_split(s, pa + 1, b, tail);
    lemma_ser_string_layout(s, i, p.0, s.skip(pa));
}

/// Where the remaining named properties and the closing brace stand.
proof fn lemma_pairs_rest_positions(
    s: Seq<char>,
    i: int,
    t: Seq<(Seq<char>, CustomPropView)>,
    rest: Seq<char>,
)
    requires
        0 <= i <= s.len(),
        s.skip(i) == spec_pairs_rest(t) + seq!['}'] + rest,
    ensures
        i < s.len(),
        "}"@.len() == 1,
        ","@.len() == 1,
        t.len() == 0 ==> s[i] == '}' && s.subrange(i, i + 1) == "}"@ && s.skip(i + 1) == rest,
        t.len() > 0 ==> s[i] == ',' && s.skip(i + 1) == spec_ser_prop_pair(t[0]) + (spec_pairs_rest(
            t.skip(1),
        ) + seq!['}'] + rest),
{
    reveal_strlit("}");
    reveal_strlit(",");
    assert("}"@ =~= seq!['}']);
    if t.len() == 0 {
        assert(s.skip(i) =~= seq!['}'] + rest);
        lemma_skip_split(s, i, seq!['}'], rest);
        assert(s[i] == '}') by {
            assert(s.subrange(i, i + 1)[0] == s[i]);
        }
        assert(s.subrange(i, i + 1) =~= "}"@);
    } else {
        let tail1 = spec_ser_prop_pair(t[0]) + (spec_pairs_rest(t.skip(1)) + seq!['}'] + rest);
        assert(s.skip(i) =~= seq![','] + tail1);
        lemma_skip_split(s, i, seq![','], tail1);
        assert(s[i] == ',') by {
            assert(s.subrange(i, i + 1)[0] == s[i]);
        }
    }
}

/// Parses the remainder of a property map: further `,`-separated named
/// properties up to and including the closing brace.
#[verifier::rlimit(100)]
#[verifier::spinoff_prover]
fn parse_pairs_more(s: &Vec<char>, i: usize) -> (r: Option<(Vec<(String, CustomProp)>, usize)>)
    requires
        i <= s@.len(),
    ensures
        r matches Some((w, j)) ==> i < j <= s@.len() && s@.subrange(i as int, j as int)
            == spec_pairs_rest(props_entries_view(w@)) + seq!['}'],
        forall|t: Seq<(Seq<char>, CustomPropView)>, rest: Seq<char>|
            s@.skip(i as int) == #[trigger] (spec_pairs_rest(t) + seq!['}'] + rest) ==> (
            r matches Some((w, j)) && props_entries_view(w@) == t && j == i + spec_pairs_rest(
                t,
            ).len() + 1),
    decreases s@.len() - i,
{
    proof {
        reveal_strlit("}");
        reveal_strlit(",");
        reveal_strlit(":");
        assert("}"@ =~= seq!['}']);
    }
    match expect_str(s, i, "}") {
        Some(j) => {
            let w: Vec<(String, CustomProp)> = Vec::new();
            proof {
                assert(props_entries_view(w@) =~= Seq::<(Seq<char>, CustomPropView)>::empty());
                assert(spec_pairs_rest(props_entries_view(w@)) == Seq::<char>::empty());
                assert(s@.subrange(i as int, j as int) =~= spec_pairs_rest(props_entries_view(w@))
                    + seq!['}']);
                assert forall|t: Seq<(Seq<char>, CustomPropView)>, rest: Seq<char>|
                    s@.skip(i as int) == #[trigger] (spec_pairs_rest(t) + seq!['}'] + rest) implies (
                props_entries_view(w@) == t && j == i + spec_pairs_rest(t).len() + 1) by {
                    lemma_pairs_rest_positions(s@, i as int, t, rest);
                    if t.len() > 0 {
                        assert(s@[i as int] == ',');
                        assert(s@[i as int] == '}') by {
                            assert(s@.subrange(i as int, i + 1)[0] == s@[i as int]);
                        }
                    }
                }
            }
            return Some((w, j));
        },
        None => {},
    }
    let j1 = match expect_str(s, i, ",") {
        Some(j) => j,
        None => {
            proof {
                assert forall|t: Seq<(Seq<char>, CustomPropView)>, rest: Seq<char>|
                    s@.skip(i as int) == #[trigger] (spec_pairs_rest(t) + seq!['}'] + rest) implies false by {
                    lemma_pairs_rest_positions(s@, i as int, t, rest);
                    if t.len() == 0 {
                    } else {
                        assert(s@.subrange(i as int, i + 1) =~= ","@);
                    }
                }
            }
            return None;
        },
    };
    let (k, j2) = match parse_string(s, j1) {
        Some(q) => q,
        None => {
            proof {
                assert forall|t: Seq<(Seq<char>, CustomPropView)>, rest: Seq<char>|
                    s@.skip(i as int) == #[trigger] (spec_pairs_rest(t) + seq!['}'] + rest) implies false by {
                    lemma_pairs_rest_positions(s@, i as int, t, rest);
                    if t.len() > 0 {
                        lemma_pair_at(
                            s@,
                            i + 1,
                            t[0],
                            spec_pairs_rest(t.skip(1)) + seq!['}'] + rest,
                        );
                    } else {
                        assert(s@.subrange(i as int, i + 1) =~= "}"@);
                    }
                }
            }
            return None;
        },
    };
    let j3 = match expect_str(s, j2, ":") {
        Some(j) => j,
        None => {
            proof {
                assert forall|t: Seq<(Seq<char>, CustomPropView)>, rest: Seq<char>|
                    s@.skip(i as int) == #[trigger] (spec_pairs_rest(t) + seq!['}'] + rest) implies false by {
                    lemma_pairs_rest_positions(s@, i as int, t, rest);
                    if t.len() > 0 {
                        lemma_pair_at(
                            s@,
                            i + 1,
                            t[0],
                            spec_pairs_rest(t.skip(1)) + seq!['}'] + rest,
                        );
                    } else {
                        assert(s@.subrange(i as int, i + 1) =~= "}"@);
                    }
                }
            }
            return None;
        },
    };
    let (v0, j4) = match parse_prop(s, j3) {
        Some(q) => q,
        None => {
            proof {
                assert forall|t: Seq<(Seq<char>, CustomPropView)>, rest: Seq<char>|
                    s@.skip(i as int) == #[trigger] (spec_pairs_rest(t) + seq!['}'] + rest) implies false by {
                    lemma_pairs_rest_positions(s@, i as int, t, rest);
                    if t.len() > 0 {
                        lemma_pair_at(
                            s@,
                            i + 1,
                            t[0],
                            spec_pairs_rest(t.skip(1)) + seq!['}'] + rest,
                        );
                    } else {
                        assert(s@.subrange(i as int, i + 1) =~= "}"@);
                    }
                }
            }
            return None;
        },
    };
    let (tail, j5) = match parse_pairs_more(s, j4) {
        Some(q) => q,
        None => {
            proof {
                assert forall|t: Seq<(Seq<char>, CustomPropView)>, rest: Seq<char>|
                    s@.skip(i as int) == #[trigger] (spec_pairs_rest(t) + seq!['}'] + rest) implies false by {
                    lemma_pairs_rest_positions(s@, i as int, t, rest);
                    if t.len() > 0 {
                        lemma_pair_at(
                            s@,
                            i + 1,
                            t[0],
                            spec_pairs_rest(t.skip(1)) + seq!['}'] + rest,
                        );
                    } else {
                        assert(s@.subrange(i as int, i + 1) =~= "}"@);
                    }
                }
            }
            return None;
        },
    };
    let mut w = tail;
    w.insert(0, (k, v0));
    proof {
        let pv = (k@, v0@);
        let tv = props_entries_view(tail@);
        assert(props_entries_view(w@) =~= seq![pv] + tv);
        assert((seq![pv] + tv)[0] == pv);
        assert((seq![pv] + tv).skip(1) =~= tv);
        assert(spec_pairs_rest(props_entries_view(w@)) == seq![','] + spec_ser_prop_pair(pv)
            + spec_pairs_rest(tv));
        // soundness: join the consumed pieces
        assert(s@.subrange(i as int, i + 1) =~= seq![',']);
        lemma_subrange_join(s@, i as int, j1 as int, j2 as int);
        lemma_subrange_join(s@, i as int, j2 as int, j3 as int);
        lemma_subrange_join(s@, i as int, j3 as int, j4 as int);
        assert(s@.subrange(i as int, j4 as int) == seq![','] + spec_ser_string(k@) + ":"@
            + spec_ser_prop(v0@));
        lemma_subrange_join(s@, i as int, j4 as int, j5 as int);
        assert(s@.subrange(i as int, j5 as int) =~= spec_pairs_rest(props_entries_view(w@))
            + seq!['}']);
        assert forall|t: Seq<(Seq<char>, CustomPropView)>, rest: Seq<char>|
            s@.skip(i as int) == #[trigger] (spec_pairs_rest(t) + seq!['}'] + rest) implies (
        props_entries_view(w@) == t && j5 == i + spec_pairs_rest(t).len() + 1) by {
            lemma_pairs_rest_positions(s@, i as int, t, rest);
            if t.len() == 0 {
                assert(s@.subrange(i as int, i + 1) =~= "}"@);
            } else {
                lemma_pair_at(s@, i + 1, t[0], spec_pairs_rest(t.skip(1)) + seq!['}'] + rest);
                assert(props_entries_view(w@) =~= t) by {
                    assert(props_entries_view(tail@) == t.skip(1));
                    assert(pv == t[0]);
                    assert(t =~= seq![t[0]] + t.skip(1));
                }
            }
        }
    }
    Some((w, j5))
}

/// Where each part of a serialized property map stands in the input.
proof fn lemma_props_map_positions(
    s: Seq<char>,
    i: int,
    m: Seq<(Seq<char>, CustomPropView)>,
    rest: Seq<char>,
)
    requires
        0 <= i <= s.len(),
        s.skip(i) == spec_ser_props_map(m) + rest,
    ensures
        i < s.len(),
        "{"@.len() == 1,
        i + spec_ser_props_map(m).len() <= s.len(),
        spec_ser_props_map(m).len() == spec_pairs(m).len() + 2,
        s[i] == '{',
        s.subrange(i, i + 1) == "{"@,
        m.len() == 0 ==> s.skip(i + 1) == seq!['}'] + rest && s.subrange(i + 1, i + 2) == "}"@,
        m.len() > 0 ==> s.skip(i + 1) == spec_ser_prop_pair(m[0]) + (spec_pairs_rest(m.skip(1))
            + seq!['}'] + rest),
        s.skip(i + spec_ser_props_map(m).len()) == rest,
{
    reveal_strlit("{");
    reveal_strlit("}");
    assert("{"@ =~= seq!['{']);
    assert("}"@ =~= seq!['}']);
    if m.len() == 0 {
        assert(spec_pairs(m) == Seq::<char>::empty());
        assert(s.skip(i) =~= seq!['{'] + (seq!['}'] + rest));
        lemma_skip_split(s, i, seq!['{'], seq!['}'] + rest);
        lemma_skip_split(s, i + 1, seq!['}'], rest);
        assert(s[i] == '{') by {
            assert(s.subrange(i, i + 1)[0] == s[i]);
        }
        assert(s.subrange(i, i + 1) =~= "{"@);
        assert(s.subrange(i + 1, i + 2) =~= "}"@);
    } else {
        let t1 = spec_ser_prop_pair(m[0]) + (spec_pairs_rest(m.skip(1)) + seq!['}'] + rest);
        assert(s.skip(i) =~= seq!['{'] + t1) by {
            assert(spec_ser_props_map(m) == seq!['{'] + (spec_ser_prop_pair(m[0])
                + spec_pairs_rest(m.skip(1))) + seq!['}']);
        }
        lemma_skip_split(s, i, seq!['{'], t1);
        assert(s[i] == '{') by {
            assert(s.subrange(i, i + 1)[0] == s[i]);
        }
        assert(s.subrange(i, i + 1) =~= "{"@);
        lemma_skip_split(s, i + 1, spec_ser_prop_pair(m[0]), spec_pairs_rest(m.skip(1))
            + seq!['}'] + rest);
        assert(spec_pairs_rest(m.skip(1)) + seq!['}'] + rest =~= spec_pairs_rest(m.skip(1)) + (
        seq!['}'] + rest));
        lemma_skip_split(
            s,
            i + 1 + spec_ser_prop_pair(m[0]).len(),
            spec_pairs_rest(m.skip(1)),
            seq!['}'] + rest,
        );
        lemma_skip_split(
            s,
            i + 1 + spec_ser_prop_pair(m[0]).len() + spec_pairs_rest(m.skip(1)).len(),
            seq!['}'],
            rest,
        );
    }
}

/// Parses a serialized property map, sound and complete for canonical
/// renderings.
#[verifier::rlimit(100)]
#[verifier::spinoff_prover]
pub fn parse_props_map(s: &Vec<char>, i: usize) -> (r: Option<(CustomPropsMap, usize)>)
    requires
        i <= s@.len(),
    ensures
        r matches Some((m, j)) ==> i < j <= s@.len() && s@.subrange(i as int, j as int)
            == spec_ser_props_map(m@),
        forall|m: Seq<(Seq<char>, CustomPropView)>, rest: Seq<char>|
            s@.skip(i as int) == #[trigger] (spec_ser_props_map(m) + rest) ==> (r matches Some(
                (w, j),
            ) && w@ == m && j == i + spec_ser_props_map(m).len()),
{
    proof {
        reveal_strlit("{");
        reveal_strlit("}");
        reveal_strlit(":");
        assert("{"@ =~= seq!['{']);
        assert("}"@ =~= seq!['}']);
        assert(":"@ =~= seq![':']);
    }
    let j1 = match expect_str(s, i, "{") {
        Some(j) => j,
        None => {
            proof {
                assert forall|m: Seq<(Seq<char>, CustomPropView)>, rest: Seq<char>|
                    s@.skip(i as int) == #[trigger] (spec_ser_props_map(m) + rest) implies false by {
                    lemma_props_map_positions(s@, i as int, m, rest);
                }
            }
            return None;
        },
    };
    match expect_str(s, j1, "}") {
        Some(j2) => {
            let w = CustomPropsMap { entries: Vec::new() };
            proof {
                assert(w@ =~= Seq::<(Seq<char>, CustomPropView)>::empty());
                assert(spec_pairs(w@) == Seq::<char>::empty());
                assert(s@.subrange(i as int, j2 as int) =~= spec_ser_props_map(w@));
                assert forall|m: Seq<(Seq<char>, CustomPropView)>, rest: Seq<char>|
                    s@.skip(i as int) == #[trigger] (spec_ser_props_map(m) + rest) implies (w@ == m
                    && j2 == i + spec_ser_props_map(m).len()) by {
                    lemma_props_map_positions(s@, i as int, m, rest);
                    if m.len() > 0 {
                        lemma_pair_at(
                            s@,
                            j1 as int,
                            m[0],
                            spec_pairs_rest(m.skip(1)) + seq!['}'] + rest,
                        );
                        assert(s@[j1 as int] == '"');
                        assert(s@[j1 as int] == '}') by {
                            assert(s@.subrange(j1 as int, j1 + 1)[0] == s@[j1 as int]);
                        }
                    }
                }
            }
            return Some((w, j2));
        },
        None => {},
    }
    let (k, j2) = match parse_string(s, j1) {
        Some(q) => q,
        None => {
            proof {
                assert forall|m: Seq<(Seq<char>, CustomPropView)>, rest: Seq<char>|
                    s@.skip(i as int) == #[trigger] (spec_ser_props_map(m) + rest) implies false by {
                    lemma_props_map_positions(s@, i as int, m, rest);
                    if m.len() > 0 {
                        lemma_pair_at(
                            s@,
                            j1 as int,
                            m[0],
                            spec_pairs_rest(m.skip(1)) + seq!['}'] + rest,
                        );
                    } else {
                        assert(s@.subrange(j1 as int, j1 + 1) =~= "}"@);
                    }
                }
            }
            return None;
        },
    };
    let j3 = match expect_str(s, j2, ":") {
        Some(j) => j,
        None => {
            proof {
                assert forall|m: Seq<(Seq<char>, CustomPropView)>, rest: Seq<char>|
                    s@.skip(i as int) == #[trigger] (spec_ser_props_map(m) + rest) implies false by {
                    lemma_props_map_positions(s@, i as int, m, rest);
                    if m.len() > 0 {
                        lemma_pair_at(
                            s@,
                            j1 as int,
                            m[0],
                            spec_pairs_rest(m.skip(1)) + seq!['}'] + rest,
                        );
                    } else {
                        assert(s@.subrange(j1 as int, j1 + 1) =~= "}"@);
                    }
                }
            }
            return None;
        },
    };
    let (v0, j4) = match parse_prop(s, j3) {
        Some(q) => q,
        None => {
            proof {
                assert forall|m: Seq<(Seq<char>, CustomPropView)>, rest: Seq<char>|
                    s@.skip(i as int) == #[trigger] (spec_ser_props_map(m) + rest) implies false by {
                    lemma_props_map_positions(s@, i as int, m, rest);
                    if m.len() > 0 {
                        lemma_pair_at(
                            s@,
                            j1 as int,
                            m[0],
                            spec_pairs_rest(m.skip(1)) + seq!['}'] + rest,
                        );
                    } else {
                        assert(s@.subrange(j1 as int, j1 + 1) =~= "}"@);
                    }
                }
            }
            return None;
        },
    };
    let (tail, j5) = match parse_pairs_more(s, j4) {
        Some(q) => q,
        None => {
            proof {
                assert forall|m: Seq<(Seq<char>, CustomPropView)>, rest: Seq<char>|
                    s@.skip(i as int) == #[trigger] (spec_ser_props_map(m) + rest) implies false by {
                    lemma_props_map_positions(s@, i as int, m, rest);
                    if m.len() > 0 {
                        lemma_pair_at(
                            s@,
                            j1 as int,
                            m[0],
                            spec_pairs_rest(m.skip(1)) + seq!['}'] + rest,
                        );
                    } else {
                        assert(s@.subrange(j1 as int, j1 + 1) =~= "}"@);
                    }
                }
            }
            return None;
        },
    };
    let mut entries = tail;
    entries.insert(0, (k, v0));
    let w = CustomPropsMap { entries };
    proof {
        let pv = (k@, v0@);
        let tv = props_entries_view(tail@);
        assert(w@ =~= seq![pv] + tv);
        assert((seq![pv] + tv)[0] == pv);
        assert((seq![pv] + tv).skip(1) =~= tv);
        assert(spec_pairs(w@) == spec_ser_prop_pair(pv) + spec_pairs_rest(tv));
        assert(s@.subrange(i as int, j1 as int) =~= seq!['{']);
        lemma_subrange_join(s@, i as int, j1 as int, j2 as int);
        lemma_subrange_join(s@, i as int, j2 as int, j3 as int);
        lemma_subrange_join(s@, i as int, j3 as int, j4 as int);
        lemma_subrange_join(s@, i as int, j4 as int, j5 as int);
        assert(s@.subrange(i as int, j5 as int) =~= spec_ser_props_map(w@));
        assert forall|m: Seq<(Seq<char>, CustomPropView)>, rest: Seq<char>|
            s@.skip(i as int) == #[trigger] (spec_ser_props_map(m) + rest) implies (w@ == m && j5
            == i + spec_ser_props_map(m).len()) by {
            lemma_props_map_positions(s@, i as int, m, rest);
            if m.len() == 0 {
                assert(s@.subrange(j1 as int, j1 + 1) =~= "}"@);
            } else {
                lemma_pair_at(s@, j1 as int, m[0], spec_pairs_rest(m.skip(1)) + seq!['}'] + rest);
                assert(w@ =~= m) by {
                    assert(props_entries_view(tail@) == m.skip(1));
                    assert(pv == m[0]);
                    assert(m =~= seq![m[0]] + m.skip(1));
                }
            }
        }
    }
    Some((w, j5))
}

/// Where a serialized optional property map stands in the input.
proof fn lemma_opt_props_positions(
    s: Seq<char>,
    i: int,
    o: Option<Seq<(Seq<char>, CustomPropView)>>,
    rest: Seq<char>,
)
    requires
        0 <= i <= s.len(),
        s.skip(i) == spec_ser_opt_props(o) + rest,
    ensures
        i < s.len(),
        i + spec_ser_opt_props(o).len() <= s.len(),
        s.skip(i + spec_ser_opt_props(o).len()) == rest,
        o is None ==> s[i] == 'N' && s.subrange(i, i + "None"@.len()) == "None"@,
        o matches Some(m) ==> s[i] == 'S' && s.subrange(i, i + "Some("@.len()) == "Some("@
            && s.skip(i + "Some("@.len()) == spec_ser_props_map(m) + s.skip(
            i + "Some("@.len() + spec_ser_props_map(m).len(),
        ) && s.subrange(
            i + "Some("@.len() + spec_ser_props_map(m).len(),
            i + "Some("@.len() + spec_ser_props_map(m).len() + 1,
        ) == ")"@,
{
    reveal_strlit("None");
    reveal_strlit("Some(");
    reveal_strlit(")");
    match o {
        None => {
            lemma_skip_split(s, i, "None"@, rest);
            assert(s[i] == 'N') by {
                assert(s.subrange(i, i + "None"@.len())[0] == s[i]);
            }
        },
        Some(m) => {
            let body = spec_ser_props_map(m);
            let t1 = body + (")"@ + rest);
            assert(s.skip(i) =~= "Some("@ + t1);
            lemma_skip_split(s, i, "Some("@, t1);
            let p1 = i + "Some("@.len();
            lemma_skip_split(s, p1, body, ")"@ + rest);
            let p2 = p1 + body.len();
            lemma_skip_split(s, p2, ")"@, rest);
            assert(s[i] == 'S') by {
                assert(s.subrange(i, p1)[0] == s[i]);
            }
        },
    }
}

/// Parses a serialized optional property map, sound and complete for
/// canonical renderings.
#[verifier::rlimit(60)]
pub fn parse_opt_props(s: &Vec<char>, i: usize) -> (r: Option<
    (Option<CustomPropsMap>, usize),
>)
    requires
        i <= s@.len(),
    ensures
        r matches Some((o, j)) ==> i < j <= s@.len() && s@.subrange(i as int, j as int)
            == spec_ser_opt_props(
            match o {
                Some(m) => Some(m@),
                None => None,
            },
        ),
        forall|o: Option<Seq<(Seq<char>, CustomPropView)>>, rest: Seq<char>|
            s@.skip(i as int) == #[trigger] (spec_ser_opt_props(o) + rest) ==> (r matches Some(
                (w, j),
            ) && (match w {
                Some(m) => (o matches Some(mv) && m@ == mv),
                None => o is None,
            }) && j == i + spec_ser_opt_props(o).len()),
{
    proof {
        reveal_strlit("None");
        reveal_strlit("Some(");
        reveal_strlit(")");
    }
    match expect_str(s, i, "None") {
        Some(j) => {
            proof {
                assert forall|o: Option<Seq<(Seq<char>, CustomPropView)>>, rest: Seq<char>|
                    s@.skip(i as int) == #[trigger] (spec_ser_opt_props(o) + rest) implies (
                o is None && j == i + spec_ser_opt_props(o).len()) by {
                    lemma_opt_props_positions(s@, i as int, o, rest);
                    if o is Some {
                        assert(s@[i as int] == 'N') by {
                            assert(s@.subrange(i as int, i + "None"@.len())[0] == s@[i as int]);
                        }
                    }
                }
            }
            return Some((None, j));
        },
        None => {},
    }
    let j1 = match expect_str(s, i, "Some(") {
        Some(j) => j,
        None => {
            proof {
                assert forall|o: Option<Seq<(Seq<char>, CustomPropView)>>, rest: Seq<char>|
                    s@.skip(i as int) == #[trigger] (spec_ser_opt_props(o) + rest) implies false by {
                    lemma_opt_props_positions(s@, i as int, o, rest);
                }
            }
            return None;
        },
    };
    let (m, j2) = match parse_props_map(s, j1) {
        Some(q) => q,
        None => {
            proof {
                assert forall|o: Option<Seq<(Seq<char>, CustomPropView)>>, rest: Seq<char>|
                    s@.skip(i as int) == #[trigger] (spec_ser_opt_props(o) + rest) implies false by {
                    lemma_opt_props_positions(s@, i as int, o, rest);
                }
            }
            return None;
        },
    };
    let j3 = match expect_str(s, j2, ")") {
        Some(j) => j,
        None => {
            proof {
                assert forall|o: Option<Seq<(Seq<char>, CustomPropView)>>, rest: Seq<char>|
                    s@.skip(i as int) == #[trigger] (spec_ser_opt_props(o) + rest) implies false by {
                    lemma_opt_props_positions(s@, i as int, o, rest);
                }
            }
            return None;
        },
    };
    proof {
        lemma_subrange_join(s@, i as int, j1 as int, j2 as int);
        lemma_subrange_join(s@, i as int, j2 as int, j3 as int);
        assert(s@.subrange(i as int, j3 as int) == spec_ser_opt_props(Some(m@)));
        assert forall|o: Option<Seq<(Seq<char>, CustomPropView)>>, rest: Seq<char>|
            s@.skip(i as int) == #[trigger] (spec_ser_opt_props(o) + rest) implies (
        o matches Some(mv) && m@ == mv && j3 == i + spec_ser_opt_props(o).len()) by {
            lemma_opt_props_positions(s@, i as int, o, rest);
            if o is None {
                assert(s@[i as int] == 'S') by {
                    assert(s@.subrange(i as int, i + "Some("@.len())[0] == s@[i as int]);
                }
            }
        }
    }
    Some((Some(m), j3))
}

/// Where each part of one serialized entity stands in the input.
proof fn lemma_entity_positions(s: Seq<char>, i: int, e: ZoneEntityView, rest: Seq<char>)
    requires
        0 <= i <= s.len(),
        s.skip(i) == spec_ser_entity(e) + rest,
    ensures
        ({
            let sn = spec_ser_string(e.name);
            let st = spec_ser_transform(e.transform);
            let so = spec_ser_opt_props(e.custom_props);
            let p1 = i + "(name:"@.len();
            let p2 = p1 + sn.len();
            let p3 = p2 + ",transform:"@.len();
            let p4 = p3 + st.len();
            let p5 = p4 + ",custom_props:"@.len();
            let p6 = p5 + so.len();
            let p7 = p6 + ")"@.len();
            &&& i < s.len()
            &&& p7 <= s.len()
            &&& p7 == i + spec_ser_entity(e).len()
            &&& s[i] == '('
            &&& s.subrange(i, p1) == "(name:"@
            &&& s.skip(p1) == sn + s.skip(p2)
            &&& s.subrange(p2, p3) == ",transform:"@
            &&& s.skip(p3) == st + s.skip(p4)
            &&& s.subrange(p4, p5) == ",custom_props:"@
            &&& s.skip(p5) == so + s.skip(p6)
            &&& s.subrange(p6, p7) == ")"@
            &&& s.skip(p7) == rest
        }),
{
    reveal_strlit("(name:");
    let sn = spec_ser_string(e.name);
    let st = spec_ser_transform(e.transform);
    let so = spec_ser_opt_props(e.custom_props);
    let t1 = sn + (",transform:"@ + (st + (",custom_props:"@ + (so + (")"@ + rest)))));
    assert(s.skip(i) =~= "(name:"@ + t1);
    lemma_skip_split(s, i, "(name:"@, t1);
    let p1 = i + "(name:"@.len();
    lemma_skip_split(s, p1, sn, ",transform:"@ + (st + (",custom_props:"@ + (so + (")"@
        + rest)))));
    let p2 = p1 + sn.len();
    lemma_skip_split(s, p2, ",transform:"@, st + (",custom_props:"@ + (so + (")"@ + rest))));
    let p3 = p2 + ",transform:"@.len();
    lemma_skip_split(s, p3, st, ",custom_props:"@ + (so + (")"@ + rest)));
    let p4 = p3 + st.len();
    lemma_skip_split(s, p4, ",custom_props:"@, so + (")"@ + rest));
    let p5 = p4 + ",custom_props:"@.len();
    lemma_skip_split(s, p5, so, ")"@ + rest);
    let p6 = p5 + so.len();
    lemma_skip_split(s, p6, ")"@, rest);
    assert(s[i] == '(') by {
        assert(s.subrange(i, p1)[0] == s[i]);
    }
}

/// Parses one serialized entity, sound and complete for canonical
/// renderings.
#[verifier::rlimit(100)]
#[verifier::spinoff_prover]
pub fn parse_entity(s: &Vec<char>, i: usize) -> (r: Option<(ZoneEntity, usize)>)
    requires
        i <= s@.len(),
    ensures
        r matches Some((e, j)) ==> i < j <= s@.len() && s@.subrange(i as int, j as int)
            == spec_ser_entity(e@),
        forall|e: ZoneEntityView, rest: Seq<char>|
            s@.skip(i as int) == #[trigger] (spec_ser_entity(e) + rest) ==> (r matches Some((w, j))
                && w@ == e && j == i + spec_ser_entity(e).len()),
{
    let j1 = match expect_str(s, i, "(name:") {
        Some(j) => j,
        None => {
            proof {
                assert forall|e: ZoneEntityView, rest: Seq<char>|
                    s@.skip(i as int) == #[trigger] (spec_ser_entity(e) + rest) implies false by {
                    lemma_entity_positions(s@, i as int, e, rest);
                }
            }
            return None;
        },
    };
    let (name, j2) = match parse_string(s, j1) {
        Some(q) => q,
        None => {
            proof {
                assert forall|e: ZoneEntityView, rest: Seq<char>|
                    s@.skip(i as int) == #[trigger] (spec_ser_entity(e) + rest) implies false by {
                    lemma_entity_positions(s@, i as int, e, rest);
                }
            }
            return None;
        },
    };
    let j3 = match expect_str(s, j2, ",transform:") {
        Some(j) => j,
        None => {
            proof {
                assert forall|e: ZoneEntityView, rest: Seq<char>|
                    s@.skip(i as int) == #[trigger] (spec_ser_entity(e) + rest) implies false by {
                    lemma_entity_positions(s@, i as int, e, rest);
                }
            }
            return None;
        },
    };
    let (tf, j4) = match parse_transform(s, j3) {
        Some(q) => q,
        None => {
            proof {
                assert forall|e: ZoneEntityView, rest: Seq<char>|
                    s@.skip(i as int) == #[trigger] (spec_ser_entity(e) + rest) implies false by {
                    lemma_entity_positions(s@, i as int, e, rest);
                }
            }
            return None;
        },
    };
    let j5 = match expect_str(s, j4, ",custom_props:") {
        Some(j) => j,
        None => {
            proof {
                assert forall|e: ZoneEntityView, rest: Seq<char>|
                    s@.skip(i as int) == #[trigger] (spec_ser_entity(e) + rest) implies false by {
                    lemma_entity_positions(s@, i as int, e, rest);
                }
            }
            return None;
        },
    };
    let (props, j6) = match parse_opt_props(s, j5) {
        Some(q) => q,
        None => {
            proof {
                assert forall|e: ZoneEntityView, rest: Seq<char>|
                    s@.skip(i as int) == #[trigger] (spec_ser_entity(e) + rest) implies false by {
                    lemma_entity_positions(s@, i as int, e, rest);
                }
            }
            return None;
        },
    };
    let j7 = match expect_str(s, j6, ")") {
        Some(j) => j,
        None => {
            proof {
                assert forall|e: ZoneEntityView, rest: Seq<char>|
                    s@.skip(i as int) == #[trigger] (spec_ser_entity(e) + rest) implies false by {
                    lemma_entity_positions(s@, i as int, e, rest);
                }
            }
            return None;
        },
    };
    let w = ZoneEntity { name, transform: tf, custom_props: props };
    proof {
        lemma_subrange_join(s@, i as int, j1 as int, j2 as int);
        lemma_subrange_join(s@, i as int, j2 as int, j3 as int);
        lemma_subrange_join(s@, i as int, j3 as int, j4 as int);
        lemma_subrange_join(s@, i as int, j4 as int, j5 as int);
        lemma_subrange_join(s@, i as int, j5 as int, j6 as int);
        lemma_subrange_join(s@, i as int, j6 as int, j7 as int);
        assert(s@.subrange(i as int, j7 as int) == spec_ser_entity(w@));
        assert forall|e: ZoneEntityView, rest: Seq<char>|
            s@.skip(i as int) == #[trigger] (spec_ser_entity(e) + rest) implies (w@ == e && j7 == i
            + spec_ser_entity(e).len()) by {
            lemma_entity_positions(s@, i as int, e, rest);
            assert(w@ =~= e);
        }
    }
    Some((w, j7))
}

/// Where the remaining entities and the closing bracket stand.
proof fn lemma_entities_rest_positions(s: Seq<char>, i: int, t: Seq<ZoneEntityView>, rest: Seq<char>)
    requires
        0 <= i <= s.len(),
        s.skip(i) == spec_entities_rest(t) + seq![']'] + rest,
    ensures
        i < s.len(),
        "]"@.len() == 1,
        ","@.len() == 1,
        t.len() == 0 ==> s[i] == ']' && s.subrange(i, i + 1) == "]"@ && s.skip(i + 1) == rest,
        t.len() > 0 ==> s[i] == ',' && s.skip(i + 1) == spec_ser_entity(t[0]) + (spec_entities_rest(
            t.skip(1),
        ) + seq![']'] + rest),
{
    reveal_strlit("]");
    reveal_strlit(",");
    assert("]"@ =~= seq![']']);
    if t.len() == 0 {
        assert(s.skip(i) =~= seq![']'] + rest);
        lemma_skip_split(s, i, seq![']'], rest);
        assert(s[i] == ']') by {
            assert(s.subrange(i, i + 1)[0] == s[i]);
        }
        assert(s.subrange(i, i + 1) =~= "]"@);
    } else {
        let tail1 = spec_ser_entity(t[0]) + (spec_entities_rest(t.skip(1)) + seq![']'] + rest);
        assert(s.skip(i) =~= seq![','] + tail1);
        lemma_skip_split(s, i, seq![','], tail1);
        assert(s[i] == ',') by {
            assert(s.subrange(i, i + 1)[0] == s[i]);
        }
    }
}

/// Parses the remainder of the entity list: further `,`-separated entities
/// up to and including the closing bracket.
#[verifier::rlimit(100)]
#[verifier::spinoff_prover]
fn parse_entities_more(s: &Vec<char>, i: usize) -> (r: Option<(Vec<ZoneEntity>, usize)>)
    requires
        i <= s@.len(),
    ensures
        r matches Some((w, j)) ==> i < j <= s@.len() && s@.subrange(i as int, j as int)
            == spec_entities_rest(zone_entities_view(w@)) + seq![']'],
        forall|t: Seq<ZoneEntityView>, rest: Seq<char>|
            s@.skip(i as int) == #[trigger] (spec_entities_rest(t) + seq![']'] + rest) ==> (
            r matches Some((w, j)) && zone_entities_view(w@) == t && j == i + spec_entities_rest(
                t,
            ).len() + 1),
    decreases s@.len() - i,
{
    proof {
        reveal_strlit("]");
        reveal_strlit(",");
        assert("]"@ =~= seq![']']);
    }
    match expect_str(s, i, "]") {
        Some(j) => {
            let w: Vec<ZoneEntity> = Vec::new();
            proof {
                assert(zone_entities_view(w@) =~= Seq::<ZoneEntityView>::empty());
                assert(spec_entities_rest(zone_entities_view(w@)) == Seq::<char>::empty());
                assert(s@.subrange(i as int, j as int) =~= spec_entities_rest(
                    zone_entities_view(w@),
                ) + seq![']']);
                assert forall|t: Seq<ZoneEntityView>, rest: Seq<char>|
                    s@.skip(i as int) == #[trigger] (spec_entities_rest(t) + seq![']'] + rest) implies (
                zone_entities_view(w@) == t && j == i + spec_entities_rest(t).len() + 1) by {
                    lemma_entities_rest_positions(s@, i as int, t, rest);
                    if t.len() > 0 {
                        assert(s@[i as int] == ',');
                        assert(s@[i as int] == ']') by {
                            assert(s@.subrange(i as int, i + 1)[0] == s@[i as int]);
                        }
                    }
                }
            }
            return Some((w, j));
        },
        None => {},
    }
    let j1 = match expect_str(s, i, ",") {
        Some(j) => j,
        None => {
            proof {
                assert forall|t: Seq<ZoneEntityView>, rest: Seq<char>|
                    s@.skip(i as int) == #[trigger] (spec_entities_rest(t) + seq![']'] + rest) implies false by {
                    lemma_entities_rest_positions(s@, i as int, t, rest);
                    if t.len() == 0 {
                    } else {
                        assert(s@.subrange(i as int, i + 1) =~= ","@);
                    }
                }
            }
            return None;
        },
    };
    let (e0, j2) = match parse_entity(s, j1) {
        Some(q) => q,
        None => {
            proof {
                assert forall|t: Seq<ZoneEntityView>, rest: Seq<char>|
                    s@.skip(i as int) == #[trigger] (spec_entities_rest(t) + seq![']'] + rest) implies false by {
                    lemma_entities_rest_positions(s@, i as int, t, rest);
                    if t.len() == 0 {
                        assert(s@.subrange(i as int, i + 1) =~= "]"@);
                    } else {
                        assert(s@.skip(j1 as int) == spec_ser_entity(t[0]) + (spec_entities_rest(
                            t.skip(1),
                        ) + seq![']'] + rest));
                    }
                }
            }
            return None;
        },
    };
    let (tail, j3) = match parse_entities_more(s, j2) {
        Some(q) => q,
        None => {
            proof {
                assert forall|t: Seq<ZoneEntityView>, rest: Seq<char>|
                    s@.skip(i as int) == #[trigger] (spec_entities_rest(t) + seq![']'] + rest) implies false by {
                    lemma_entities_rest_positions(s@, i as int, t, rest);
                    if t.len() == 0 {
                        assert(s@.subrange(i as int, i + 1) =~= "]"@);
                    } else {
                        assert(s@.skip(j1 as int) == spec_ser_entity(t[0]) + (spec_entities_rest(
                            t.skip(1),
                        ) + seq![']'] + rest));
                        lemma_entity_positions(
                            s@,
                            j1 as int,
                            t[0],
                            spec_entities_rest(t.skip(1)) + seq![']'] + rest,
                        );
                    }
                }
            }
            return None;
        },
    };
    let mut w = tail;
    w.insert(0, e0);
    proof {
        let ev = e0@;
        let tv = zone_entities_view(tail@);
        assert(zone_entities_view(w@) =~= seq![ev] + tv);
        assert((seq![ev] + tv)[0] == ev);
        assert((seq![ev] + tv).skip(1) =~= tv);
        assert(spec_entities_rest(zone_entities_view(w@)) == seq![','] + spec_ser_entity(ev)
            + spec_entities_rest(tv));
        assert(s@.subrange(i as int, j1 as int) =~= seq![',']);
        lemma_subrange_join(s@, i as int, j1 as int, j2 as int);
        lemma_subrange_join(s@, i as int, j2 as int, j3 as int);
        assert(s@.subrange(i as int, j3 as int) =~= spec_entities_rest(zone_entities_view(w@))
            + seq![']']);
        assert forall|t: Seq<ZoneEntityView>, rest: Seq<char>|
            s@.skip(i as int) == #[trigger] (spec_entities_rest(t) + seq![']'] + rest) implies (
        zone_entities_view(w@) == t && j3 == i + spec_entities_rest(t).len() + 1) by {
            lemma_entities_rest_positions(s@, i as int, t, rest);
            if t.len() == 0 {
                assert(s@.subrange(i as int, i + 1) =~= "]"@);
            } else {
                assert(s@.skip(j1 as int) == spec_ser_entity(t[0]) + (spec_entities_rest(
                    t.skip(1),
                ) + seq![']'] + rest));
                lemma_entity_positions(
                    s@,
                    j1 as int,
                    t[0],
                    spec_entities_rest(t.skip(1)) + seq![']'] + rest,
                );
                assert(zone_entities_view(w@) =~= t) by {
                    assert(zone_entities_view(tail@) == t.skip(1));
                    assert(ev == t[0]);
                    assert(t =~= seq![t[0]] + t.skip(1));
                }
            }
        }
    }
    Some((w, j3))
}

/// Where each part of a serialized zone file stands in the input.
proof fn lemma_zone_file_positions(s: Seq<char>, f: Seq<ZoneEntityView>)
    requires
        s == spec_ser_zone_file(f),
    ensures
        "(entities:["@.len() + 2 <= s.len(),
        s.len() == "(entities:["@.len() + spec_entities(f).len() + 2,
        s.subrange(0, "(entities:["@.len() as int) == "(entities:["@,
        f.len() == 0 ==> s.skip("(entities:["@.len() as int) == "])"@,
        f.len() > 0 ==> s.skip("(entities:["@.len() as int) == spec_ser_entity(f[0]) + (
        spec_entities_rest(f.skip(1)) + seq![']'] + ")"@),
        f.len() > 0 ==> s["(entities:["@.len() as int] == '(',
{
    reveal_strlit("(entities:[");
    reveal_strlit("])");
    reveal_strlit("]");
    reveal_strlit(")");
    let h = "(entities:["@.len() as int;
    if f.len() == 0 {
        assert(spec_entities(f) == Seq::<char>::empty());
        assert(s.skip(0) =~= "(entities:["@ + ("])"@ + Seq::<char>::empty()));
        lemma_skip_split(s, 0, "(entities:["@, "])"@ + Seq::<char>::empty());
        assert(s.skip(h) =~= "])"@);
    } else {
        let t1 = spec_ser_entity(f[0]) + (spec_entities_rest(f.skip(1)) + seq![']'] + ")"@);
        assert(s.skip(0) =~= "(entities:["@ + t1) by {
            assert("])"@ =~= seq![']'] + ")"@);
        }
        lemma_skip_split(s, 0, "(entities:["@, t1);
        lemma_entity_positions(s, h, f[0], spec_entities_rest(f.skip(1)) + seq![']'] + ")"@);
    }
}

/// Parses the canonical text of a whole zone file.
///
/// This carries the round-trip law: together with `serialize_zone_file`,
/// the completeness clause states that parsing the serialization of any
/// zone file succeeds and yields a file with the same mathematical value,
/// and the soundness clause states that nothing else is accepted — a parse
/// error occurs exactly on text that is no zone file's rendering.
#[verifier::rlimit(100)]
#[verifier::spinoff_prover]
pub fn parse_zone_file(text: &Vec<char>) -> (r: Option<ZoneFile>)
    ensures
        r matches Some(f) ==> text@ == spec_ser_zone_file(f@),
        forall|f: Seq<ZoneEntityView>|
            text@ == #[trigger] spec_ser_zone_file(f) ==> (r matches Some(g) && g@ == f),
        r is None ==> forall|f: Seq<ZoneEntityView>| text@ != #[trigger] spec_ser_zone_file(f),
{
    proof {
        reveal_strlit("(entities:[");
        reveal_strlit("])");
        reveal_strlit("]");
        reveal_strlit(")");
        assert("]"@ =~= seq![']']);
    }
    let len = text.len();
    let j1 = match expect_str(text, 0, "(entities:[") {
        Some(j) => j,
        None => {
            proof {
                assert forall|f: Seq<ZoneEntityView>|
                    text@ == #[trigger] spec_ser_zone_file(f) implies false by {
                    lemma_zone_file_positions(text@, f);
                }
            }
            return None;
        },
    };
    match expect_str(text, j1, "])") {
        Some(j2) => {
            if j2 == len {
                let w = ZoneFile { entities: Vec::new() };
                proof {
                    assert(w@ =~= Seq::<ZoneEntityView>::empty());
                    assert(spec_entities(w@) == Seq::<char>::empty());
                    assert(text@ =~= spec_ser_zone_file(w@)) by {
                        assert(text@ == text@.subrange(0, len as int));
                        lemma_subrange_join(text@, 0, j1 as int, j2 as int);
                    }
                    assert forall|f: Seq<ZoneEntityView>|
                        text@ == #[trigger] spec_ser_zone_file(f) implies (w@ == f) by {
                        lemma_zone_file_positions(text@, f);
                        if f.len() > 0 {
                            assert(text@[j1 as int] == '(');
                            assert(text@[j1 as int] == ']') by {
                                assert(text@.subrange(j1 as int, j1 + 2)[0] == text@[j1 as int]);
                            }
                        }
                    }
                }
                return Some(w);
            } else {
                proof {
                    assert forall|f: Seq<ZoneEntityView>|
                        text@ == #[trigger] spec_ser_zone_file(f) implies false by {
                        lemma_zone_file_positions(text@, f);
                        if f.len() > 0 {
                            assert(text@[j1 as int] == '(');
                            assert(text@[j1 as int] == ']') by {
                                assert(text@.subrange(j1 as int, j1 + 2)[0] == text@[j1 as int]);
                            }
                        }
                    }
                }
                return None;
            }
        },
        None => {},
    }
    let (e0, j2) = match parse_entity(text, j1) {
        Some(q) => q,
        None => {
            proof {
                assert forall|f: Seq<ZoneEntityView>|
                    text@ == #[trigger] spec_ser_zone_file(f) implies false by {
                    lemma_zone_file_positions(text@, f);
                    if f.len() == 0 {
                        assert(text@.subrange(j1 as int, j1 + 2) =~= "])"@) by {
                            assert(text@.skip(j1 as int) == "])"@);
                        }
                    } else {
                        lemma_entity_positions(
                            text@,
                            j1 as int,
                            f[0],
                            spec_entities_rest(f.skip(1)) + seq![']'] + ")"@,
                        );
                    }
                }
            }
            return None;
        },
    };
    let (tail, j3) = match parse_entities_more(text, j2) {
        Some(q) => q,
        None => {
            proof {
                assert forall|f: Seq<ZoneEntityView>|
                    text@ == #[trigger] spec_ser_zone_file(f) implies false by {
                    lemma_zone_file_positions(text@, f);
                    if f.len() == 0 {
                        assert(text@.subrange(j1 as int, j1 + 2) =~= "])"@) by {
                            assert(text@.skip(j1 as int) == "])"@);
                        }
                    } else {
                        lemma_entity_positions(
                            text@,
                            j1 as int,
                            f[0],
                            spec_entities_rest(f.skip(1)) + seq![']'] + ")"@,
                        );
                    }
                }
            }
            return None;
        },
    };
    let j4 = match expect_str(text, j3, ")") {
        Some(j) => j,
        None => {
            proof {
                assert forall|f: Seq<ZoneEntityView>|
                    text@ == #[trigger] spec_ser_zone_file(f) implies false by {
                    lemma_zone_file_positions(text@, f);
                    if f.len() == 0 {
                        assert(text@.subrange(j1 as int, j1 + 2) =~= "])"@) by {
                            assert(text@.skip(j1 as int) == "])"@);
                        }
                    } else {
                        lemma_entity_positions(
                            text@,
                            j1 as int,
                            f[0],
                            spec_entities_rest(f.skip(1)) + seq![']'] + ")"@,
                        );
                        lemma_skip_split(
                            text@,
                            j2 as int,
                            spec_entities_rest(f.skip(1)) + seq![']'],
                            ")"@,
                        );
                        assert(text@.subrange(j3 as int, j3 + 1) =~= ")"@) by {
                            assert(text@.skip(j3 as int) == ")"@);
                            assert(text@.skip(j3 as int)[0] == text@[j3 as int]);
                        }
                    }
                }
            }
            return None;
        },
    };
    if j4 != len {
        proof {
            assert forall|f: Seq<ZoneEntityView>|
                text@ == #[trigger] spec_ser_zone_file(f) implies false by {
                lemma_zone_file_positions(text@, f);
                if f.len() == 0 {
                    assert(text@.subrange(j1 as int, j1 + 2) =~= "])"@) by {
                        assert(text@.skip(j1 as int) == "])"@);
                    }
                } else {
                    lemma_entity_positions(
                        text@,
                        j1 as int,
                        f[0],
                        spec_entities_rest(f.skip(1)) + seq![']'] + ")"@,
                    );
                    lemma_skip_split(
                        text@,
                        j2 as int,
                        spec_entities_rest(f.skip(1)) + seq![']'],
                        ")"@,
                    );
                }
            }
        }
        return None;
    }
    let mut entities = tail;
    entities.insert(0, e0);
    let w = ZoneFile { entities };
    proof {
        let ev = e0@;
        let tv = zone_entities_view(tail@);
        assert(w@ =~= seq![ev] + tv);
        assert((seq![ev] + tv)[0] == ev);
        assert((seq![ev] + tv).skip(1) =~= tv);
        assert(spec_entities(w@) == spec_ser_entity(ev) + spec_entities_rest(tv));
        assert(text@.subrange(0, j1 as int) =~= "(entities:["@);
        lemma_subrange_join(text@, 0, j1 as int, j2 as int);
        lemma_subrange_join(text@, 0, j2 as int, j3 as int);
        lemma_subrange_join(text@, 0, j3 as int, j4 as int);
        assert(text@ == text@.subrange(0, len as int));
        assert(text@ =~= spec_ser_zone_file(w@)) by {
            assert("])"@ =~= seq![']'] + ")"@);
        }
        assert forall|f: Seq<ZoneEntityView>|
            text@ == #[trigger] spec_ser_zone_file(f) implies (w@ == f) by {
            lemma_zone_file_positions(text@, f);
            if f.len() == 0 {
                assert(text@.subrange(j1 as int, j1 + 2) =~= "])"@) by {
                    assert(text@.skip(j1 as int) == "])"@);
                }
            } else {
                lemma_entity_positions(
                    text@,
                    j1 as int,
                    f[0],
                    spec_entities_rest(f.skip(1)) + seq![']'] + ")"@,
                );
                assert(w@ =~= f) by {
                    assert(zone_entities_view(tail@) == f.skip(1));
                    assert(ev == f[0]);
                    assert(f =~= seq![f[0]] + f.skip(1));
                }
            }
        }
    }
    Some(w)
}

} // verus!
