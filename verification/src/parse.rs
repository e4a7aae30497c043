//! Verified text utilities: character access, whitespace tokenizing, signed
//! 64-bit integer parsing, and the `-to-` header splitting used by table
//! headers.
//!
//! Every executable function here is proved against a small recursive
//! specification over `Seq<char>`, so the contracts of the table and almanac
//! constructors can state exactly which lines are accepted and what is read
//! from them.

use vstd::prelude::*;
use vstd::string::StrSliceExecFns;

verus! {

/// The whitespace characters recognised between tokens.
pub open spec fn is_ws(c: char) -> bool {
    c == ' ' || c == '\t' || c == '\r' || c == '\n'
}

/// A decimal digit, by code point.
pub open spec fn is_digit(c: char) -> bool {
    48 <= c as int <= 57
}

/// The numeric value of a decimal digit.
pub open spec fn digit_val(c: char) -> int {
    c as int - 48
}

/// Every character of `s` is a decimal digit.
pub open spec fn all_digits(s: Seq<char>) -> bool {
    forall|i: int| 0 <= i < s.len() ==> is_digit(s[i])
}

/// The value of a digit string read left to right in base 10.
pub open spec fn digits_val(s: Seq<char>) -> int
    decreases s.len(),
{
    if s.len() == 0 {
        0
    } else {
        digits_val(s.drop_last()) * 10 + digit_val(s.last())
    }
}

/// What parsing a token as a signed 64-bit integer yields: an optional
/// leading `+` or `-` sign followed by at least one digit, with the value
/// required to fit in `i64`.
pub open spec fn parse_signed(s: Seq<char>) -> Option<int> {
    if s.len() > 0 && (s[0] == '-' || s[0] == '+') {
        if s.len() > 1 && all_digits(s.skip(1)) {
            let v: int = if s[0] == '-' {
                -digits_val(s.skip(1))
            } else {
                digits_val(s.skip(1))
            };
            if i64::MIN as int <= v <= i64::MAX as int {
                Some(v)
            } else {
                None
            }
        } else {
            None
        }
    } else if s.len() > 0 && all_digits(s) {
        if digits_val(s) <= i64::MAX as int {
            Some(digits_val(s))
        } else {
            None
        }
    } else {
        None
    }
}

/// The whitespace-separated tokens of `s`, in order, each non-empty.
pub open spec fn split_ws(s: Seq<char>) -> Seq<Seq<char>>
    decreases s.len(),
{
    if s.len() == 0 {
        Seq::empty()
    } else if is_ws(s[0]) {
        split_ws(s.drop_first())
    } else if s.len() == 1 || is_ws(s[1]) {
        seq![seq![s[0]]] + split_ws(s.drop_first())
    } else {
        let rest = split_ws(s.drop_first());
        seq![seq![s[0]] + rest[0]] + rest.drop_first()
    }
}

/// The literal separator `-to-` occurs in `s` starting at index `i`.
pub open spec fn has_to_at(s: Seq<char>, i: int) -> bool {
    &&& 0 <= i
    &&& i + 4 <= s.len()
    &&& s[i] == '-'
    &&& s[i + 1] == 't'
    &&& s[i + 2] == 'o'
    &&& s[i + 3] == '-'
}

/// The fragments of `s` around each (leftmost-first, non-overlapping)
/// occurrence of the separator `-to-`.  A string without the separator is a
/// single fragment; fragments may be empty.
pub open spec fn split_to(s: Seq<char>) -> Seq<Seq<char>>
    decreases s.len(),
{
    if has_to_at(s, 0) {
        seq![Seq::<char>::empty()] + split_to(s.skip(4))
    } else if s.len() == 0 {
        seq![Seq::<char>::empty()]
    } else {
        let rest = split_to(s.drop_first());
        seq![seq![s[0]] + rest[0]] + rest.drop_first()
    }
}

/// `s` ends with the literal suffix ` map`.
pub open spec fn ends_with_map(s: Seq<char>) -> bool {
    &&& s.len() >= 4
    &&& s[s.len() - 4] == ' '
    &&& s[s.len() - 3] == 'm'
    &&& s[s.len() - 2] == 'a'
    &&& s[s.len() - 1] == 'p'
}

/// `s` with every trailing ` map` suffix removed.
pub open spec fn strip_map_suffix(s: Seq<char>) -> Seq<char>
    decreases s.len(),
{
    if ends_with_map(s) {
        strip_map_suffix(s.take(s.len() - 4))
    } else {
        s
    }
}

/// `s` starts with the literal prefix `seeds: `.
pub open spec fn starts_with_seeds(s: Seq<char>) -> bool {
    &&& s.len() >= 7
    &&& s[0] == 's'
    &&& s[1] == 'e'
    &&& s[2] == 'e'
    &&& s[3] == 'd'
    &&& s[4] == 's'
    &&& s[5] == ':'
    &&& s[6] == ' '
}

/// `s` with every leading `seeds: ` prefix removed.
pub open spec fn strip_seeds_prefix(s: Seq<char>) -> Seq<char>
    decreases s.len(),
{
    if starts_with_seeds(s) {
        strip_seeds_prefix(s.skip(7))
    } else {
        s
    }
}

/// The two category names of a table header: the header with its ` map`
/// suffix stripped, split on `-to-`.
pub open spec fn header_parts(line: Seq<char>) -> Seq<Seq<char>> {
    split_to(strip_map_suffix(line))
}

/// A header is valid iff the split yields exactly two non-empty names.
pub open spec fn header_ok(line: Seq<char>) -> bool {
    let parts = header_parts(line);
    parts.len() == 2 && parts[0].len() > 0 && parts[1].len() > 0
}

/// A digit string has a non-negative value.
proof fn lemma_digits_val_nonneg(s: Seq<char>)
    requires
        all_digits(s),
    ensures
        digits_val(s) >= 0,
    decreases s.len(),
{
    if s.len() > 0 {
        lemma_digits_val_nonneg(s.drop_last());
    }
}

/// Extending a digit string never decreases its value.
proof fn lemma_digits_val_mono(s: Seq<char>, k: int)
    requires
        all_digits(s),
        0 <= k <= s.len(),
    ensures
        digits_val(s.take(k)) <= digits_val(s),
    decreases s.len() - k,
{
    if k == s.len() {
        assert(s.take(k) =~= s);
    } else {
        assert(s.take(k + 1).drop_last() =~= s.take(k));
        assert(all_digits(s.take(k + 1)));
        lemma_digits_val_nonneg(s.take(k));
        lemma_digits_val_mono(s, k + 1);
    }
}

/// A maximal run of `k` non-whitespace characters at the front of `t` is the
/// first token of `t`.
proof fn lemma_split_ws_token(t: Seq<char>, k: int)
    requires
        0 < k <= t.len(),
        forall|j: int| 0 <= j < k ==> !is_ws(t[j]),
        k == t.len() || is_ws(t[k]),
    ensures
        split_ws(t) == seq![t.take(k)] + split_ws(t.skip(k)),
    decreases k,
{
    if k == 1 {
        assert(t.take(1) =~= seq![t[0]]);
        assert(t.drop_first() =~= t.skip(1));
        assert(split_ws(t) =~~= seq![t.take(1)] + split_ws(t.skip(1)));
    } else {
        let t1 = t.drop_first();
        lemma_split_ws_token(t1, k - 1);
        let rest = split_ws(t1);
        assert(rest == seq![t1.take(k - 1)] + split_ws(t1.skip(k - 1)));
        assert(rest[0] == t1.take(k - 1));
        assert(seq![t[0]] + t1.take(k - 1) =~= t.take(k));
        assert(t1.skip(k - 1) =~= t.skip(k));
        assert(rest.drop_first() =~= split_ws(t.skip(k)));
        assert(split_ws(t) =~~= seq![t.take(k)] + split_ws(t.skip(k)));
    }
}

/// Without any `-to-` occurrence, the whole string is the only fragment.
proof fn lemma_split_to_no_sep(s: Seq<char>)
    requires
        forall|i: int| !(#[trigger] has_to_at(s, i)),
    ensures
        split_to(s) == seq![s],
    decreases s.len(),
{
    assert(!has_to_at(s, 0));
    if s.len() == 0 {
        assert(split_to(s) =~~= seq![s]);
    } else {
        let s1 = s.drop_first();
        assert forall|i: int| !(#[trigger] has_to_at(s1, i)) by {
            if has_to_at(s1, i) {
                assert(has_to_at(s, i + 1));
            }
        }
        lemma_split_to_no_sep(s1);
        assert(seq![s[0]] + s1 =~= s);
        assert(split_to(s) =~~= seq![s]);
    }
}

/// `split_to` always yields at least one fragment.
proof fn lemma_split_to_len(s: Seq<char>)
    ensures
        split_to(s).len() >= 1,
    decreases s.len(),
{
    if has_to_at(s, 0) {
        lemma_split_to_len(s.skip(4));
    } else if s.len() > 0 {
        lemma_split_to_len(s.drop_first());
    }
}

/// Splitting at the first `-to-` occurrence: everything before it is the
/// first fragment, and the rest splits independently.
proof fn lemma_split_to_at(s: Seq<char>, p: int)
    requires
        has_to_at(s, p),
        forall|i: int| 0 <= i < p ==> !(#[trigger] has_to_at(s, i)),
    ensures
        split_to(s) == seq![s.take(p)] + split_to(s.skip(p + 4)),
    decreases p,
{
    if p == 0 {
        assert(s.take(0) =~= Seq::<char>::empty());
        assert(split_to(s) =~~= seq![s.take(0)] + split_to(s.skip(4)));
    } else {
        let s1 = s.drop_first();
        assert(has_to_at(s1, p - 1));
        assert forall|i: int| 0 <= i < p - 1 implies !(#[trigger] has_to_at(s1, i)) by {
            if has_to_at(s1, i) {
                assert(has_to_at(s, i + 1));
            }
        }
        lemma_split_to_at(s1, p - 1);
        let rest = split_to(s1);
        assert(rest == seq![s1.take(p - 1)] + split_to(s1.skip(p + 3)));
        assert(rest[0] == s1.take(p - 1));
        assert(seq![s[0]] + s1.take(p - 1) =~= s.take(p));
        assert(s1.skip(p + 3) =~= s.skip(p + 4));
        assert(rest.drop_first() =~= split_to(s.skip(p + 4)));
        assert(!has_to_at(s, 0));
        assert(split_to(s) =~~= seq![s.take(p)] + split_to(s.skip(p + 4)));
    }
}

/// The characters of `s`, in order, as a vector.
pub fn to_chars(s: &str) -> (r: Vec<char>)
    ensures
        r@ == s@,
{
    let n = s.unicode_len();
    let mut r: Vec<char> = Vec::new();
    let mut i: usize = 0;
    while i < n
        invariant
            i <= n,
            n == s@.len(),
            r@ == s@.take(i as int),
        decreases n - i,
    {
        let c = s.get_char(i);
        r.push(c);
        proof {
            assert(s@.take(i + 1) =~= s@.take(i as int).push(s@[i as int]));
        }
        i += 1;
    }
    proof {
        assert(s@.take(n as int) =~= s@);
    }
    r
}

/// A copy of `s[a..b]`.
pub fn subvec(s: &Vec<char>, a: usize, b: usize) -> (r: Vec<char>)
    requires
        a <= b <= s@.len(),
    ensures
        r@ == s@.subrange(a as int, b as int),
{
    let mut r: Vec<char> = Vec::new();
    let mut i: usize = a;
    while i < b
        invariant
            a <= i <= b <= s@.len(),
            r@ == s@.subrange(a as int, i as int),
        decreases b - i,
    {
        r.push(s[i]);
        proof {
            assert(s@.subrange(a as int, i + 1) =~= s@.subrange(a as int, i as int).push(
                s@[i as int],
            ));
        }
        i += 1;
    }
    r
}

fn is_ws_exec(c: char) -> (r: bool)
    ensures
        r == is_ws(c),
{
    c == ' ' || c == '\t' || c == '\r' || c == '\n'
}

/// The whitespace-separated tokens of `s`, matching `split_ws`.
pub fn split_ws_exec(s: &Vec<char>) -> (toks: Vec<Vec<char>>)
    ensures
        toks@.len() == split_ws(s@).len(),
        forall|k: int| 0 <= k < toks@.len() ==> toks@[k]@ == split_ws(s@)[k],
{
    let n = s.len();
    let mut toks: Vec<Vec<char>> = Vec::new();
    let ghost mut done: Seq<Seq<char>> = Seq::empty();
    let mut i: usize = 0;
    proof {
        assert(s@.skip(0) =~= s@);
        assert(split_ws(s@) =~= done + split_ws(s@.skip(0)));
    }
    while i < n
        invariant
            i <= n,
            n == s@.len(),
            split_ws(s@) == done + split_ws(s@.skip(i as int)),
            toks@.len() == done.len(),
            forall|k: int| 0 <= k < done.len() ==> toks@[k]@ == done[k],
        decreases n - i,
    {
        if is_ws_exec(s[i]) {
            proof {
                assert(s@.skip(i as int).drop_first() =~= s@.skip(i + 1));
            }
            i += 1;
        } else {
            let start = i;
            let mut tok: Vec<char> = Vec::new();
            while i < n && !is_ws_exec(s[i])
                invariant
                    start <= i <= n,
                    n == s@.len(),
                    tok@ == s@.subrange(start as int, i as int),
                    forall|j: int| start <= j < i ==> !is_ws(s@[j]),
                decreases n - i,
            {
                tok.push(s[i]);
                proof {
                    assert(s@.subrange(start as int, i + 1) =~= s@.subrange(
                        start as int,
                        i as int,
                    ).push(s@[i as int]));
                }
                i += 1;
            }
            proof {
                let t = s@.skip(start as int);
                let k = i - start;
                assert(forall|j: int| 0 <= j < k ==> !is_ws(t[j]));
                assert(k == t.len() || is_ws(t[k as int]));
                lemma_split_ws_token(t, k as int);
                assert(t.take(k as int) =~= s@.subrange(start as int, i as int));
                assert(t.skip(k as int) =~= s@.skip(i as int));
                done = done.push(tok@);
                assert(split_ws(s@) =~= done + split_ws(s@.skip(i as int)));
            }
            toks.push(tok);
        }
    }
    proof {
        assert(s@.skip(n as int) =~= Seq::<char>::empty());
        assert(split_ws(s@) =~= done);
    }
    toks
}

/// Parses one token as a signed 64-bit integer, matching `parse_signed`.
pub fn parse_i64_chars(tok: &Vec<char>) -> (r: Option<i64>)
    ensures
        match r {
            Some(v) => parse_signed(tok@) == Some(v as int),
            None => parse_signed(tok@) is None,
        },
{
    let n = tok.len();
    if n == 0 {
        return None;
    }
    let c0 = tok[0];
    let neg = c0 == '-';
    let signed = neg || c0 == '+';
    let start: usize = if signed {
        1
    } else {
        0
    };
    if n == start {
        return None;
    }
    let ghost body = if signed {
        tok@.skip(1)
    } else {
        tok@
    };
    let limit: u128 = if neg {
        9223372036854775808
    } else {
        9223372036854775807
    };
    let mut acc: u128 = 0;
    let mut j: usize = start;
    while j < n
        invariant
            start <= j <= n,
            n == tok@.len(),
            start == 1 <==> (tok@[0] == '-' || tok@[0] == '+'),
            start <= 1,
            neg <==> tok@[0] == '-',
            body == if start == 1 {
                tok@.skip(1)
            } else {
                tok@
            },
            n > start,
            forall|q: int| 0 <= q < j - start ==> is_digit(body[q]),
            acc == digits_val(body.take(j - start)),
            acc <= limit,
            limit == if neg {
                9223372036854775808u128
            } else {
                9223372036854775807u128
            },
        decreases n - j,
    {
        let c = tok[j];
        let d: u128 = if c == '0' {
            0
        } else if c == '1' {
            1
        } else if c == '2' {
            2
        } else if c == '3' {
            3
        } else if c == '4' {
            4
        } else if c == '5' {
            5
        } else if c == '6' {
            6
        } else if c == '7' {
            7
        } else if c == '8' {
            8
        } else if c == '9' {
            9
        } else {
            10
        };
        if d > 9 {
            proof {
                assert(!is_digit(body[j - start]));
            }
            return None;
        }
        proof {
            let k = j - start;
            assert(body.take(k + 1).drop_last() =~= body.take(k as int));
            assert(body.take(k + 1).last() == body[k as int]);
            assert(body[k as int] == tok@[j as int]);
            assert(d as int == digit_val(body[k as int]));
            assert(digits_val(body.take(k + 1)) == acc * 10 + d);
        }
        acc = acc * 10 + d;
        j += 1;
        if acc > limit {
            proof {
                if all_digits(body) {
                    lemma_digits_val_mono(body, j - start);
                }
            }
            return None;
        }
    }
    proof {
        assert(body.take(n - start) =~= body);
        assert(all_digits(body));
    }
    if neg {
        if acc == 9223372036854775808 {
            Some(i64::MIN)
        } else {
            let m = acc as i64;
            Some(-m)
        }
    } else {
        Some(acc as i64)
    }
}

fn ends_with_map_exec(chars: &Vec<char>, l: usize) -> (r: bool)
    requires
        l <= chars@.len(),
    ensures
        r == ends_with_map(chars@.take(l as int)),
{
    l >= 4 && chars[l - 4] == ' ' && chars[l - 3] == 'm' && chars[l - 2] == 'a' && chars[l - 1]
        == 'p'
}

/// The position of the first `-to-` occurrence in `chars[..end]`, if any.
fn find_to(chars: &Vec<char>, end: usize) -> (r: Option<usize>)
    requires
        end <= chars@.len(),
    ensures
        match r {
            Some(p) => has_to_at(chars@.take(end as int), p as int) && forall|i: int|
                0 <= i < p ==> !(#[trigger] has_to_at(chars@.take(end as int), i)),
            None => forall|i: int| !(#[trigger] has_to_at(chars@.take(end as int), i)),
        },
{
    let ghost t = chars@.take(end as int);
    let mut p: usize = 0;
    while end >= 4 && p <= end - 4
        invariant
            p <= end <= chars@.len(),
            t == chars@.take(end as int),
            forall|i: int| 0 <= i < p ==> !(#[trigger] has_to_at(t, i)),
        decreases end - p,
    {
        if chars[p] == '-' && chars[p + 1] == 't' && chars[p + 2] == 'o' && chars[p + 3] == '-' {
            return Some(p);
        }
        p += 1;
    }
    proof {
        assert forall|i: int| !(#[trigger] has_to_at(t, i)) by {
            if has_to_at(t, i) {
                assert(0 <= i < p);
            }
        }
    }
    None
}

/// Parses a table header line: strips the trailing ` map` suffix and splits
/// the remainder on `-to-`.  Returns the two category names exactly when the
/// split yields two non-empty parts.
pub fn parse_header(line: &String) -> (r: Option<(String, String)>)
    ensures
        match r {
            Some(p) => header_ok(line@) && p.0@ == header_parts(line@)[0] && p.1@ == header_parts(
                line@,
            )[1],
            None => !header_ok(line@),
        },
{
    let chars = to_chars(line.as_str());
    let n = chars.len();
    let mut l: usize = n;
    proof {
        assert(line@.take(n as int) =~= line@);
    }
    while ends_with_map_exec(&chars, l)
        invariant
            l <= n,
            n == chars@.len(),
            chars@ == line@,
            strip_map_suffix(line@) == strip_map_suffix(line@.take(l as int)),
        decreases l,
    {
        proof {
            assert(line@.take(l as int).take(l - 4) =~= line@.take(l - 4));
        }
        l -= 4;
    }
    let ghost stripped = strip_map_suffix(line@);
    proof {
        assert(stripped == line@.take(l as int));
    }
    match find_to(&chars, l) {
        None => {
            proof {
                lemma_split_to_no_sep(stripped);
            }
            None
        },
        Some(p) => {
            proof {
                lemma_split_to_at(stripped, p as int);
            }
            let rem_start = p + 4;
            let rem = subvec(&chars, rem_start, l);
            proof {
                assert(rem@ =~= stripped.skip(rem_start as int));
            }
            match find_to(&rem, rem.len()) {
                Some(q) => {
                    proof {
                        assert(rem@.take(rem@.len() as int) =~= rem@);
                        lemma_split_to_at(rem@, q as int);
                        lemma_split_to_len(rem@.skip(q + 4));
                        assert(header_parts(line@).len() >= 3);
                    }
                    None
                },
                None => {
                    proof {
                        assert(rem@.take(rem@.len() as int) =~= rem@);
                        lemma_split_to_no_sep(rem@);
                        assert(header_parts(line@) =~~= seq![stripped.take(p as int), rem@]);
                    }
                    if p == 0 || rem.len() == 0 {
                        None
                    } else {
                        proof {
                            assert(stripped.take(p as int) =~= line@.subrange(0, p as int));
                            assert(rem@ =~= line@.subrange(rem_start as int, l as int));
                        }
                        let f = line.as_str().substring_char(0, p).to_owned();
                        let t = line.as_str().substring_char(rem_start, l).to_owned();
                        Some((f, t))
                    }
                },
            }
        },
    }
}

} // verus!
