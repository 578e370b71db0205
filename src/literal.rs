//! The textual forms of scalar values: integers, floating-point numbers and
//! booleans, tried in that order.
use vstd::prelude::*;

verus! {

pub open spec fn is_digit(c: char) -> bool {
    '0' <= c && c <= '9'
}

pub open spec fn all_digits(s: Seq<char>) -> bool {
    forall|i: int| 0 <= i < s.len() ==> is_digit(#[trigger] s[i])
}

/// The number written by the decimal digits `s`.
pub open spec fn digits_value(s: Seq<char>) -> int
    decreases s.len(),
{
    if s.len() == 0 {
        0
    } else {
        10 * digits_value(s.drop_last()) + (s.last() as u32 - '0' as u32)
    }
}

/// Whether a leading `+` or `-` is present, and what follows it.
pub open spec fn sign_split(s: Seq<char>) -> (bool, Seq<char>) {
    if s.len() > 0 && (s[0] == '+' || s[0] == '-') {
        (true, s.skip(1))
    } else {
        (false, s)
    }
}

/// The `i32` written by `s`: an optional sign and at least one decimal
/// digit, nothing else, and a value in range.
pub open spec fn int_literal(s: Seq<char>) -> Option<i32> {
    let d = sign_split(s).1;
    let v = if sign_split(s).0 && s[0] == '-' {
        -digits_value(d)
    } else {
        digits_value(d)
    };
    if d.len() > 0 && all_digits(d) && i32::MIN <= v <= i32::MAX {
        Some(v as i32)
    } else {
        None
    }
}

proof fn lemma_digits_grow(d: Seq<char>, k: int)
    requires
        0 <= k <= d.len(),
        all_digits(d),
    ensures
        0 <= digits_value(d.take(k)) <= digits_value(d),
    decreases d.len() - k,
{
    if k < d.len() {
        lemma_digits_grow(d, k + 1);
        assert(d.take(k + 1).drop_last() =~= d.take(k));
        assert(is_digit(d[k]));
    } else {
        assert(d.take(k) =~= d);
        lemma_digits_nonneg(d);
    }
}

proof fn lemma_digits_nonneg(d: Seq<char>)
    requires
        all_digits(d),
    ensures
        digits_value(d) >= 0,
    decreases d.len(),
{
    if d.len() > 0 {
        assert(is_digit(d[d.len() - 1]));
        lemma_digits_nonneg(d.drop_last());
    }
}

/// The `i32` that `s` writes, as `str::parse::<i32>` reads it.
fn parse_i32(s: &str) -> (r: Option<i32>)
    ensures
        r == int_literal(s@),
{
    let cs = crate::text::chars_of(s);
    let n = cs.len();
    let mut start: usize = 0;
    let mut neg = false;
    if n > 0 && (cs[0] == '+' || cs[0] == '-') {
        start = 1;
        neg = cs[0] == '-';
    }
    let ghost d = sign_split(s@).1;
    assert(d =~= cs@.subrange(start as int, n as int));
    if start == n {
        return None;
    }
    let mut v: i64 = 0;
    let mut i: usize = start;
    assert(cs@.subrange(start as int, start as int) =~= Seq::<char>::empty());
    while i < n
        invariant
            n == cs@.len(),
            cs@ == s@,
            start <= i <= n,
            d == cs@.subrange(start as int, n as int),
            d == sign_split(s@).1,
            neg == (sign_split(s@).0 && s@[0] == '-'),
            all_digits(cs@.subrange(start as int, i as int)),
            v == digits_value(cs@.subrange(start as int, i as int)),
            0 <= v <= 2147483648,
        decreases n - i,
    {
        let c = cs[i];
        assert(d[i - start] == c);
        if !digit(c) {
            assert(!is_digit(d[i - start]));
            return None;
        }
        let ghost pre = cs@.subrange(start as int, i as int);
        let ghost now = cs@.subrange(start as int, i + 1);
        assert(now.drop_last() =~= pre);
        assert(now.last() == c);
        assert forall|k: int| 0 <= k < now.len() implies is_digit(#[trigger] now[k]) by {
            if k < pre.len() {
                assert(now[k] == pre[k]);
            }
        }
        let nv: i64 = v * 10 + (c as u32 - '0' as u32) as i64;
        if nv > 2147483648 {
            proof {
                assert(digits_value(now) == nv);
                if all_digits(d) {
                    assert(d.take(i + 1 - start) =~= now);
                    lemma_digits_grow(d, i + 1 - start);
                    assert(digits_value(d) > 2147483648);
                }
            }
            return None;
        }
        v = nv;
        i = i + 1;
    }
    assert(cs@.subrange(start as int, n as int) =~= d);
    if neg {
        Some((-v) as i32)
    } else if v <= 2147483647 {
        Some(v as i32)
    } else {
        None
    }
}

/// Decimal digits with at most one `.`, and not the `.` alone.
pub open spec fn mantissa(m: Seq<char>) -> bool {
    &&& m.len() > 0
    &&& !(m.len() == 1 && m[0] == '.')
    &&& forall|i: int| 0 <= i < m.len() ==> is_digit(#[trigger] m[i]) || m[i] == '.'
    &&& forall|i: int, j: int| 0 <= i < j < m.len() && #[trigger] m[i] == '.' ==> #[trigger] m[j] != '.'
}

pub open spec fn is_exp_mark(c: char) -> bool {
    c == 'e' || c == 'E'
}

/// An optional sign and at least one decimal digit.
pub open spec fn exponent(x: Seq<char>) -> bool {
    sign_split(x).1.len() > 0 && all_digits(sign_split(x).1)
}

/// A mantissa, optionally followed by `e` or `E` and an exponent.
pub open spec fn number(n: Seq<char>) -> bool {
    ||| mantissa(n)
    ||| exists|k: int|
        0 <= k < n.len() && is_exp_mark(#[trigger] n[k]) && mantissa(n.take(k)) && exponent(
            n.skip(k + 1),
        )
}

/// `s` spells the lower-case word `w`, ignoring the case of ASCII letters.
pub open spec fn word_ci(s: Seq<char>, w: Seq<char>) -> bool {
    s.len() == w.len() && forall|i: int|
        0 <= i < s.len() ==> #[trigger] s[i] == w[i] || s[i] as u32 + 32 == w[i] as u32
}

/// The syntax that `f32` accepts: an optional sign, then `inf`, `infinity`,
/// `nan` (in any case) or a decimal number with an optional exponent.
pub open spec fn float_literal(s: Seq<char>) -> bool {
    let b = sign_split(s).1;
    ||| word_ci(b, seq!['i', 'n', 'f'])
    ||| word_ci(b, seq!['i', 'n', 'f', 'i', 'n', 'i', 't', 'y'])
    ||| word_ci(b, seq!['n', 'a', 'n'])
    ||| number(b)
}

/// `true` and `false`, exactly.
pub open spec fn bool_literal(s: Seq<char>) -> Option<bool> {
    if s == seq!['t', 'r', 'u', 'e'] {
        Some(true)
    } else if s == seq!['f', 'a', 'l', 's', 'e'] {
        Some(false)
    } else {
        None
    }
}

fn digit(c: char) -> (r: bool)
    ensures
        r == is_digit(c),
{
    '0' <= c && c <= '9'
}

/// Whether `s[from..to]` is a mantissa.
fn check_mantissa(s: &Vec<char>, from: usize, to: usize) -> (r: bool)
    requires
        from <= to <= s@.len(),
    ensures
        r == mantissa(s@.subrange(from as int, to as int)),
{
    let ghost m = s@.subrange(from as int, to as int);
    if from == to {
        return false;
    }
    if to - from == 1 && s[from] == '.' {
        return false;
    }
    let mut dot: Option<usize> = None;
    let mut i: usize = from;
    while i < to
        invariant
            from <= i <= to <= s@.len(),
            m == s@.subrange(from as int, to as int),
            forall|k: int| from <= k < i ==> is_digit(#[trigger] s@[k]) || s@[k] == '.',
            match dot {
                None => forall|k: int| from <= k < i ==> #[trigger] s@[k] != '.',
                Some(d) => from <= d < i && s@[d as int] == '.' && forall|k: int|
                    from <= k < i && k != d ==> #[trigger] s@[k] != '.',
            },
        decreases to - i,
    {
        let c = s[i];
        if c == '.' {
            if dot.is_some() {
                let d = dot.unwrap();
                assert(m[d - from] == '.' && m[i - from] == '.');
                return false;
            }
            dot = Some(i);
        } else if !digit(c) {
            assert(m[i - from] == c);
            return false;
        }
        i = i + 1;
    }
    assert forall|a: int| 0 <= a < m.len() implies is_digit(#[trigger] m[a]) || m[a] == '.' by {
        assert(m[a] == s@[from + a]);
    }
    assert forall|a: int, b: int| 0 <= a < b < m.len() && #[trigger] m[a] == '.' implies #[trigger] m[b]
        != '.' by {
        assert(m[a] == s@[from + a]);
        assert(m[b] == s@[from + b]);
    }
    true
}

/// Whether `s[from..]` is an exponent.
fn check_exponent(s: &Vec<char>, from: usize) -> (r: bool)
    requires
        from <= s@.len(),
    ensures
        r == exponent(s@.skip(from as int)),
{
    let ghost x = s@.skip(from as int);
    let mut start = from;
    if start < s.len() && (s[start] == '+' || s[start] == '-') {
        start = start + 1;
    }
    assert(sign_split(x).1 =~= s@.skip(start as int));
    if start == s.len() {
        assert(s@.skip(start as int).len() == 0);
        return false;
    }
    let mut i = start;
    while i < s.len()
        invariant
            start <= i <= s@.len(),
            x == s@.skip(from as int),
            sign_split(x).1 == s@.skip(start as int),
            forall|k: int| start <= k < i ==> is_digit(#[trigger] s@[k]),
        decreases s@.len() - i,
    {
        if !digit(s[i]) {
            assert(s@.skip(start as int)[i - start] == s@[i as int]);
            return false;
        }
        i = i + 1;
    }
    assert forall|a: int| 0 <= a < s@.skip(start as int).len() implies is_digit(
        #[trigger] s@.skip(start as int)[a],
    ) by {
        assert(s@.skip(start as int)[a] == s@[start + a]);
    }
    true
}

/// Whether `s[from..]` spells the lower-case word `w`, in any case.
fn check_word(s: &Vec<char>, from: usize, w: &Vec<char>) -> (r: bool)
    requires
        from <= s@.len(),
        forall|i: int| 0 <= i < w@.len() ==> 'a' <= #[trigger] w@[i] <= 'z',
    ensures
        r == word_ci(s@.skip(from as int), w@),
{
    let ghost b = s@.skip(from as int);
    if s.len() - from != w.len() {
        return false;
    }
    let n = s.len();
    let mut i: usize = 0;
    while i < w.len()
        invariant
            n == s@.len(),
            from <= s@.len(),
            s@.len() - from == w@.len(),
            b == s@.skip(from as int),
            i <= w@.len(),
            forall|k: int| 0 <= k < i ==> #[trigger] b[k] == w@[k] || b[k] as u32 + 32 == w@[k] as u32,
            forall|i: int| 0 <= i < w@.len() ==> 'a' <= #[trigger] w@[i] <= 'z',
        decreases w@.len() - i,
    {
        let c = s[from + i];
        let l = w[i];
        assert(b[i as int] == c);
        if !(c == l || c as u32 == (l as u32) - 32) {
            return false;
        }
        i = i + 1;
    }
    true
}

/// Whether `s` has the syntax that `f32` accepts.
pub fn is_float_literal(s: &Vec<char>) -> (r: bool)
    ensures
        r == float_literal(s@),
{
    let mut start: usize = 0;
    if s.len() > 0 && (s[0] == '+' || s[0] == '-') {
        start = 1;
    }
    let ghost b = sign_split(s@).1;
    assert(b =~= s@.skip(start as int));
    let inf = vec!['i', 'n', 'f'];
    let infinity = vec!['i', 'n', 'f', 'i', 'n', 'i', 't', 'y'];
    let nan = vec!['n', 'a', 'n'];
    assert(inf@ =~= seq!['i', 'n', 'f']);
    assert(infinity@ =~= seq!['i', 'n', 'f', 'i', 'n', 'i', 't', 'y']);
    assert(nan@ =~= seq!['n', 'a', 'n']);
    if check_word(s, start, &inf) || check_word(s, start, &infinity) || check_word(s, start, &nan) {
        return true;
    }
    // the first exponent mark, if any
    let mut e = start;
    while e < s.len() && !(s[e] == 'e' || s[e] == 'E')
        invariant
            start <= e <= s@.len(),
            forall|k: int| start <= k < e ==> !is_exp_mark(#[trigger] s@[k]),
        decreases s@.len() - e,
    {
        e = e + 1;
    }
    if e == s.len() {
        let r = check_mantissa(s, start, e);
        assert(s@.subrange(start as int, e as int) =~= b);
        assert forall|k: int| 0 <= k < b.len() implies !is_exp_mark(#[trigger] b[k]) by {
            assert(b[k] == s@[start + k]);
        }
        return r;
    }
    let m = check_mantissa(s, start, e);
    let x = check_exponent(s, e + 1);
    let ghost k = e - start;
    assert(b[k] == s@[e as int]);
    assert(b.take(k) =~= s@.subrange(start as int, e as int));
    assert(b.skip(k + 1) =~= s@.skip(e + 1));
    // a mantissa holds no exponent mark
    assert(!mantissa(b)) by {
        if mantissa(b) {
            assert(is_digit(b[k]) || b[k] == '.');
        }
    }
    assert forall|j: int|
        0 <= j < b.len() && is_exp_mark(#[trigger] b[j]) && mantissa(b.take(j)) implies j == k by {
        assert(b[j] == s@[start + j]);
        if j > k {
            assert(b.take(j)[k] == b[k]);
        }
    }
    m && x
}

/// The scalar value written by `s`, if it is an integer, a floating-point
/// number or a boolean, tried in that order.
pub enum Literal {
    Integer(i32),
    Float,
    Bool(bool),
    Text,
}

pub open spec fn literal_kind(s: Seq<char>) -> Literal {
    match int_literal(s) {
        Some(i) => Literal::Integer(i),
        None => if float_literal(s) {
            Literal::Float
        } else {
            match bool_literal(s) {
                Some(b) => Literal::Bool(b),
                None => Literal::Text,
            }
        },
    }
}

/// Classifies `s` as the kind of scalar it writes.
pub fn classify(s: &str) -> (r: Literal)
    ensures
        r == literal_kind(s@),
{
    if let Some(i) = parse_i32(s) {
        return Literal::Integer(i);
    }
    let cs = crate::text::chars_of(s);
    if is_float_literal(&cs) {
        return Literal::Float;
    }
    if cs.len() == 4 && cs[0] == 't' && cs[1] == 'r' && cs[2] == 'u' && cs[3] == 'e' {
        assert(s@ =~= seq!['t', 'r', 'u', 'e']);
        return Literal::Bool(true);
    }
    if cs.len() == 5 && cs[0] == 'f' && cs[1] == 'a' && cs[2] == 'l' && cs[3] == 's' && cs[4]
        == 'e' {
        assert(s@ =~= seq!['f', 'a', 'l', 's', 'e']);
        return Literal::Bool(false);
    }
    assert(s@ != seq!['t', 'r', 'u', 'e']) by {
        if s@ == seq!['t', 'r', 'u', 'e'] {
            assert(cs@[0] == 't' && cs@[1] == 'r' && cs@[2] == 'u' && cs@[3] == 'e');
        }
    }
    assert(s@ != seq!['f', 'a', 'l', 's', 'e']) by {
        if s@ == seq!['f', 'a', 'l', 's', 'e'] {
            assert(cs@[0] == 'f' && cs@[1] == 'a' && cs@[2] == 'l' && cs@[3] == 's' && cs@[4]
                == 'e');
        }
    }
    Literal::Text
}

} // verus!
