//! Small verified string utilities: equality, decimal rendering, and
//! character search, shared by the whole pipeline.

use vstd::prelude::*;

verus! {

/// The decimal digit character for `d`.
pub open spec fn digit_char(d: int) -> char
    recommends
        0 <= d < 10,
{
    ((d + 0x30) as u8) as char
}

/// The decimal representation of `n`, most significant digit first.
pub open spec fn dec_rep(n: nat) -> Seq<char>
    decreases n,
{
    if n < 10 {
        seq![digit_char(n as int)]
    } else {
        dec_rep(n / 10) + seq![digit_char((n % 10) as int)]
    }
}

fn digit_str(d: u64) -> (r: &'static str)
    requires
        d < 10,
    ensures
        r@ =~= seq![digit_char(d as int)],
{
    proof {
        reveal_strlit("0");
        reveal_strlit("1");
        reveal_strlit("2");
        reveal_strlit("3");
        reveal_strlit("4");
        reveal_strlit("5");
        reveal_strlit("6");
        reveal_strlit("7");
        reveal_strlit("8");
        reveal_strlit("9");
    }
    if d == 0 {
        "0"
    } else if d == 1 {
        "1"
    } else if d == 2 {
        "2"
    } else if d == 3 {
        "3"
    } else if d == 4 {
        "4"
    } else if d == 5 {
        "5"
    } else if d == 6 {
        "6"
    } else if d == 7 {
        "7"
    } else if d == 8 {
        "8"
    } else {
        "9"
    }
}

/// Render `n` in decimal.
pub fn usize_to_string(n: usize) -> (r: String)
    ensures
        r@ == dec_rep(n as nat),
    decreases n,
{
    if n < 10 {
        let d = digit_str(n as u64);
        d.to_owned()
    } else {
        let mut s = usize_to_string(n / 10);
        s.append(digit_str((n % 10) as u64));
        s
    }
}

/// The decimal representation of a signed value.
pub open spec fn int_dec_rep(v: int) -> Seq<char> {
    if v < 0 {
        seq!['-'] + dec_rep((-v) as nat)
    } else {
        dec_rep(v as nat)
    }
}

/// Render `v` in decimal, with a leading minus sign when negative.
pub fn i64_to_string(v: i64) -> (r: String)
    ensures
        r@ == int_dec_rep(v as int),
{
    if v >= 0 {
        let mag = v as u64;
        u64_to_string(mag)
    } else {
        let mag = (-(v as i128)) as u64;
        let mut s = String::new();
        s.append("-");
        let digits = u64_to_string(mag);
        s.append(digits.as_str());
        proof {
            reveal_strlit("-");
            assert(s@ =~= int_dec_rep(v as int));
        }
        s
    }
}

/// Render `n` in decimal.
pub fn u64_to_string(n: u64) -> (r: String)
    ensures
        r@ == dec_rep(n as nat),
    decreases n,
{
    if n < 10 {
        let d = digit_str(n);
        d.to_owned()
    } else {
        let mut s = u64_to_string(n / 10);
        s.append(digit_str(n % 10));
        s
    }
}

/// Copy a vector of strings.
pub fn clone_strings(v: &Vec<String>) -> (r: Vec<String>)
    ensures
        r@.len() == v@.len(),
        forall|i: int| 0 <= i < v@.len() ==> (#[trigger] r@[i])@ == v@[i]@,
{
    let n = v.len();
    let mut r: Vec<String> = Vec::new();
    let mut i: usize = 0;
    while i < n
        invariant
            i <= n,
            n == v@.len(),
            r@.len() == i,
            forall|k: int| 0 <= k < i ==> (#[trigger] r@[k])@ == v@[k]@,
        decreases n - i,
    {
        r.push(v[i].clone());
        i += 1;
    }
    r
}

/// Character-wise string equality.
pub fn str_eq(a: &str, b: &str) -> (r: bool)
    ensures
        r == (a@ == b@),
{
    let la = a.unicode_len();
    let lb = b.unicode_len();
    if la != lb {
        return false;
    }
    let mut i: usize = 0;
    while i < la
        invariant
            i <= la,
            la == a@.len(),
            la == b@.len(),
            forall|k: int| 0 <= k < i ==> a@[k] == b@[k],
        decreases la - i,
    {
        if a.get_char(i) != b.get_char(i) {
            return false;
        }
        i += 1;
    }
    proof {
        assert(a@ =~= b@);
    }
    true
}

/// Whether `s` occurs among the strings of `vs`.
pub open spec fn seq_contains_str(vs: Seq<String>, s: Seq<char>) -> bool {
    exists|i: int| 0 <= i < vs.len() && #[trigger] vs[i]@ == s
}

/// Whether `s` occurs in `v`.
pub fn contains_str(v: &Vec<String>, s: &str) -> (r: bool)
    ensures
        r == seq_contains_str(v@, s@),
{
    let n = v.len();
    let mut i: usize = 0;
    while i < n
        invariant
            i <= n,
            n == v@.len(),
            forall|k: int| 0 <= k < i ==> #[trigger] v@[k]@ != s@,
        decreases n - i,
    {
        if str_eq(v[i].as_str(), s) {
            return true;
        }
        i += 1;
    }
    false
}

/// The first index of `s` in `v`, if any.
pub fn position_str(v: &Vec<String>, s: &str) -> (r: Option<usize>)
    ensures
        match r {
            Some(i) => i < v@.len() && v@[i as int]@ == s@ && forall|k: int|
                0 <= k < i ==> #[trigger] v@[k]@ != s@,
            None => forall|k: int| 0 <= k < v@.len() ==> #[trigger] v@[k]@ != s@,
        },
{
    let n = v.len();
    let mut i: usize = 0;
    while i < n
        invariant
            i <= n,
            n == v@.len(),
            forall|k: int| 0 <= k < i ==> #[trigger] v@[k]@ != s@,
        decreases n - i,
    {
        if str_eq(v[i].as_str(), s) {
            return Some(i);
        }
        i += 1;
    }
    None
}

/// The last index of `s` in `v`, if any.
pub fn last_position_str(v: &Vec<String>, s: &str) -> (r: Option<usize>)
    ensures
        match r {
            Some(i) => i < v@.len() && v@[i as int]@ == s@ && forall|k: int|
                i < k < v@.len() ==> #[trigger] v@[k]@ != s@,
            None => forall|k: int| 0 <= k < v@.len() ==> #[trigger] v@[k]@ != s@,
        },
{
    let n = v.len();
    let mut i: usize = n;
    while i > 0
        invariant
            i <= n,
            n == v@.len(),
            forall|k: int| i <= k < n ==> #[trigger] v@[k]@ != s@,
        decreases i,
    {
        i -= 1;
        if str_eq(v[i].as_str(), s) {
            return Some(i);
        }
    }
    None
}

/// A decimal digit.
pub open spec fn is_digit(c: char) -> bool {
    0x30 <= c as int <= 0x39
}

/// The value of a decimal digit.
pub open spec fn digit_val(c: char) -> int {
    c as int - 0x30
}

/// The value of a digit sequence, most significant digit first.
pub open spec fn digits_val(s: Seq<char>) -> int
    decreases s.len(),
{
    if s.len() == 0 {
        0
    } else {
        digits_val(s.drop_last()) * 10 + digit_val(s.last())
    }
}

pub open spec fn all_digits(s: Seq<char>) -> bool {
    forall|i: int| 0 <= i < s.len() ==> is_digit(#[trigger] s[i])
}

/// The digits of an integer literal, the optional sign stripped.
pub open spec fn int_body(s: Seq<char>) -> Seq<char> {
    if s.len() > 0 && (s[0] == '+' || s[0] == '-') {
        s.drop_first()
    } else {
        s
    }
}

pub open spec fn int_sign(s: Seq<char>) -> int {
    if s.len() > 0 && s[0] == '-' {
        -1
    } else {
        1
    }
}

/// An optional sign followed by one or more decimal digits.
pub open spec fn is_int_string(s: Seq<char>) -> bool {
    int_body(s).len() > 0 && all_digits(int_body(s))
}

/// The integer denoted by `s`.
pub open spec fn int_value(s: Seq<char>) -> int {
    int_sign(s) * digits_val(int_body(s))
}

/// An integer literal whose value fits in an `i64`.
pub open spec fn is_i64_string(s: Seq<char>) -> bool {
    is_int_string(s) && i64::MIN <= int_value(s) <= i64::MAX
}

proof fn lemma_digits_val_extend(s: Seq<char>, i: int)
    requires
        0 <= i < s.len(),
    ensures
        digits_val(s.take(i + 1)) == digits_val(s.take(i)) * 10 + digit_val(s[i]),
{
    assert(s.take(i + 1).drop_last() =~= s.take(i));
    assert(s.take(i + 1).last() == s[i]);
}

proof fn lemma_digits_val_nonneg(s: Seq<char>)
    requires
        all_digits(s),
    ensures
        digits_val(s) >= 0,
    decreases s.len(),
{
    if s.len() > 0 {
        assert(all_digits(s.drop_last()));
        lemma_digits_val_nonneg(s.drop_last());
    }
}

proof fn lemma_digits_val_monotone(s: Seq<char>, i: int)
    requires
        all_digits(s),
        0 <= i <= s.len(),
    ensures
        digits_val(s) >= digits_val(s.take(i)),
    decreases s.len() - i,
{
    assert(all_digits(s.take(i)));
    lemma_digits_val_nonneg(s.take(i));
    if i < s.len() {
        lemma_digits_val_extend(s, i);
        lemma_digits_val_monotone(s, i + 1);
        lemma_digits_val_nonneg(s.take(i + 1));
    } else {
        assert(s.take(i) =~= s);
    }
}

/// Parse a decimal integer as `str::parse::<i64>` accepts it: an optional
/// sign, one or more digits, and a value within the `i64` range.
pub fn parse_i64(s: &str) -> (r: Option<i64>)
    ensures
        r is Some <==> is_i64_string(s@),
        match r {
            Some(v) => v as int == int_value(s@),
            None => true,
        },
{
    let n = s.unicode_len();
    if n == 0 {
        return None;
    }
    let first = s.get_char(0);
    let neg = first == '-';
    let start: usize = if first == '-' || first == '+' {
        1
    } else {
        0
    };
    proof {
        assert(int_body(s@) =~= s@.skip(start as int));
    }
    if start == n {
        return None;
    }
    let ghost body = s@.skip(start as int);
    let mut acc: i128 = 0;
    let mut i: usize = start;
    while i < n
        invariant
            start <= i <= n,
            n == s@.len(),
            n > 0,
            neg == (s@[0] == '-'),
            body == s@.skip(start as int),
            int_body(s@) == body,
            body.len() == n - start,
            forall|k: int| 0 <= k < i - start ==> #[trigger] body[k] == s@[k + start],
            all_digits(body.take(i - start)),
            acc as int == digits_val(body.take(i - start)),
            0 <= acc <= 0x8000_0000_0000_0000i128,
        decreases n - i,
    {
        let c = s.get_char(i);
        let cu = c as u32;
        if cu < 0x30 || cu > 0x39 {
            proof {
                assert(body[i - start] == s@[i as int]);
                assert(!is_digit(body[i - start]));
            }
            return None;
        }
        let d = cu - 0x30;
        proof {
            assert(body[i - start] == s@[i as int]);
            assert(body.take(i - start + 1).drop_last() =~= body.take(i - start));
            lemma_digits_val_extend(body, i - start);
        }
        acc = acc * 10 + (d as i128);
        if acc > 0x8000_0000_0000_0000i128 {
            proof {
                if is_i64_string(s@) {
                    lemma_digits_val_monotone(body, i - start + 1);
                    assert(false);
                }
            }
            return None;
        }
        i += 1;
    }
    proof {
        assert(body.take(n - start) =~= body);
        assert(is_int_string(s@));
    }
    if neg {
        let v = -acc;
        Some(v as i64)
    } else {
        if acc > 0x7FFF_FFFF_FFFF_FFFFi128 {
            return None;
        }
        Some(acc as i64)
    }
}

/// Lexicographic order on character sequences by code point, which for
/// UTF-8 encoded strings coincides with byte-wise order.
pub open spec fn chars_lt(a: Seq<char>, b: Seq<char>) -> bool
    decreases a.len(),
{
    if b.len() == 0 {
        false
    } else if a.len() == 0 {
        true
    } else if a[0] != b[0] {
        (a[0] as int) < (b[0] as int)
    } else {
        chars_lt(a.drop_first(), b.drop_first())
    }
}

/// Dropping an equal prefix does not change the order.
pub proof fn lemma_chars_lt_skip(a: Seq<char>, b: Seq<char>, i: int)
    requires
        0 <= i <= a.len(),
        i <= b.len(),
        forall|k: int| 0 <= k < i ==> a[k] == b[k],
    ensures
        chars_lt(a, b) == chars_lt(a.skip(i), b.skip(i)),
    decreases i,
{
    if i == 0 {
        assert(a.skip(0) =~= a);
        assert(b.skip(0) =~= b);
    } else {
        assert(a[0] == b[0]);
        lemma_chars_lt_skip(a.drop_first(), b.drop_first(), i - 1);
        assert(a.drop_first().skip(i - 1) =~= a.skip(i));
        assert(b.drop_first().skip(i - 1) =~= b.skip(i));
    }
}

/// Two distinct sequences are ordered one way or the other.
pub proof fn lemma_chars_lt_connected(a: Seq<char>, b: Seq<char>)
    requires
        a != b,
    ensures
        chars_lt(a, b) || chars_lt(b, a),
    decreases a.len(),
{
    if a.len() == 0 {
        if b.len() == 0 {
            assert(a =~= b);
        }
    } else if b.len() == 0 {
    } else if a[0] != b[0] {
    } else {
        assert(a.drop_first() != b.drop_first()) by {
            if a.drop_first() == b.drop_first() {
                assert(a.drop_first().len() == a.len() - 1);
                assert(b.drop_first().len() == b.len() - 1);
                assert(a.len() == b.len());
                assert forall|k: int| 0 <= k < a.len() implies a[k] == b[k] by {
                    if k > 0 {
                        assert(a.drop_first()[k - 1] == b.drop_first()[k - 1]);
                    }
                }
                assert(a =~= b);
            }
        }
        lemma_chars_lt_connected(a.drop_first(), b.drop_first());
    }
}

/// The order is transitive.
pub proof fn lemma_chars_lt_trans(a: Seq<char>, b: Seq<char>, c: Seq<char>)
    requires
        chars_lt(a, b),
        chars_lt(b, c),
    ensures
        chars_lt(a, c),
    decreases a.len() + b.len() + c.len(),
{
    if a.len() == 0 {
        assert(b.len() > 0);
        assert(c.len() > 0);
    } else {
        assert(b.len() > 0);
        assert(c.len() > 0);
        if a[0] == b[0] && b[0] == c[0] {
            lemma_chars_lt_trans(a.drop_first(), b.drop_first(), c.drop_first());
        }
    }
}

/// The order is irreflexive.
pub proof fn lemma_chars_lt_irrefl(a: Seq<char>)
    ensures
        !chars_lt(a, a),
    decreases a.len(),
{
    if a.len() > 0 {
        lemma_chars_lt_irrefl(a.drop_first());
    }
}

/// Character-wise lexicographic comparison.
pub fn str_lt(a: &str, b: &str) -> (r: bool)
    ensures
        r == chars_lt(a@, b@),
{
    let la = a.unicode_len();
    let lb = b.unicode_len();
    let n = if la < lb {
        la
    } else {
        lb
    };
    let mut i: usize = 0;
    while i < n
        invariant
            i <= n,
            la == a@.len(),
            lb == b@.len(),
            n == if la < lb {
                la
            } else {
                lb
            },
            forall|k: int| 0 <= k < i ==> a@[k] == b@[k],
        decreases n - i,
    {
        let ca = a.get_char(i);
        let cb = b.get_char(i);
        if ca != cb {
            proof {
                lemma_chars_lt_skip(a@, b@, i as int);
                assert(a@.skip(i as int)[0] == ca);
                assert(b@.skip(i as int)[0] == cb);
            }
            return (ca as u32) < (cb as u32);
        }
        i += 1;
    }
    proof {
        lemma_chars_lt_skip(a@, b@, n as int);
        if la < lb {
            assert(a@.skip(n as int).len() == 0);
            assert(b@.skip(n as int).len() > 0);
        } else {
            assert(b@.skip(n as int).len() == 0);
        }
    }
    la < lb
}

/// The part of a path after the last `/`.
pub open spec fn spec_basename(s: Seq<char>) -> Seq<char>
    decreases s.len(),
{
    if s.len() == 0 {
        s
    } else if s.last() == '/' {
        Seq::empty()
    } else {
        spec_basename(s.drop_last()) + seq![s.last()]
    }
}

/// The last index of `.` in `b`, or -1.
pub open spec fn last_dot(b: Seq<char>) -> int
    decreases b.len(),
{
    if b.len() == 0 {
        -1
    } else if b.last() == '.' {
        b.len() - 1
    } else {
        last_dot(b.drop_last())
    }
}

/// A file name without its extension: cut at the last `.` unless it is the
/// leading character.
pub open spec fn spec_stem(b: Seq<char>) -> Seq<char> {
    if last_dot(b) > 0 {
        b.take(last_dot(b))
    } else {
        b
    }
}

proof fn lemma_basename_at(s: Seq<char>, i: int)
    requires
        0 <= i < s.len(),
        s[i] == '/',
        forall|k: int| i < k < s.len() ==> s[k] != '/',
    ensures
        spec_basename(s) =~= s.skip(i + 1),
    decreases s.len(),
{
    if i == s.len() - 1 {
    } else {
        assert(s.last() != '/');
        assert(s.drop_last()[i] == '/');
        lemma_basename_at(s.drop_last(), i);
        assert(s.drop_last().skip(i + 1) =~= s.skip(i + 1).drop_last());
    }
}

proof fn lemma_basename_none(s: Seq<char>)
    requires
        forall|k: int| 0 <= k < s.len() ==> s[k] != '/',
    ensures
        spec_basename(s) =~= s,
    decreases s.len(),
{
    if s.len() > 0 {
        lemma_basename_none(s.drop_last());
    }
}

pub proof fn lemma_last_dot_at(b: Seq<char>, i: int)
    requires
        0 <= i < b.len(),
        b[i] == '.',
        forall|k: int| i < k < b.len() ==> b[k] != '.',
    ensures
        last_dot(b) == i,
    decreases b.len(),
{
    if i < b.len() - 1 {
        assert(b.drop_last()[i] == '.');
        lemma_last_dot_at(b.drop_last(), i);
    }
}

pub proof fn lemma_last_dot_none(b: Seq<char>)
    requires
        forall|k: int| 0 <= k < b.len() ==> b[k] != '.',
    ensures
        last_dot(b) == -1,
    decreases b.len(),
{
    if b.len() > 0 {
        lemma_last_dot_none(b.drop_last());
    }
}

/// The part of `path` after the last `/`.
pub fn basename(path: &str) -> (r: String)
    ensures
        r@ == spec_basename(path@),
{
    let n = path.unicode_len();
    match rfind_char(path, '/') {
        Some(i) => {
            proof {
                lemma_basename_at(path@, i as int);
            }
            let b = path.substring_char(i + 1, n);
            b.to_owned()
        },
        None => {
            proof {
                lemma_basename_none(path@);
            }
            path.to_owned()
        },
    }
}

/// The file name of `path` without its extension, or `None` when `path`
/// has no file name part.
pub fn file_stem(path: &str) -> (r: Option<String>)
    ensures
        r is Some <==> spec_basename(path@).len() > 0,
        r matches Some(stem) ==> stem@ == spec_stem(spec_basename(path@)),
{
    let base = basename(path);
    let bs = base.as_str();
    let n = bs.unicode_len();
    if n == 0 {
        return None;
    }
    match rfind_char(bs, '.') {
        Some(i) => {
            proof {
                lemma_last_dot_at(base@, i as int);
            }
            if i > 0 {
                let stem = bs.substring_char(0, i);
                Some(stem.to_owned())
            } else {
                Some(base)
            }
        },
        None => {
            proof {
                lemma_last_dot_none(base@);
            }
            Some(base)
        },
    }
}

/// The last index of character `c` in `s`, if any.
pub fn rfind_char(s: &str, c: char) -> (r: Option<usize>)
    ensures
        match r {
            Some(i) => i < s@.len() && s@[i as int] == c && forall|k: int|
                i < k < s@.len() ==> s@[k] != c,
            None => forall|k: int| 0 <= k < s@.len() ==> s@[k] != c,
        },
{
    let n = s.unicode_len();
    let mut i: usize = n;
    while i > 0
        invariant
            i <= n,
            n == s@.len(),
            forall|k: int| i <= k < n ==> s@[k] != c,
        decreases i,
    {
        i -= 1;
        if s.get_char(i) == c {
            return Some(i);
        }
    }
    None
}

} // verus!
