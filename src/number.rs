//! Recognition of integer and floating-point literals, and decimal rendering.
use vstd::prelude::*;
use crate::text::{string_from_chars, is_token, is_ws};

verus! {

pub open spec fn is_digit(c: char) -> bool {
    '0' <= c && c <= '9'
}

pub open spec fn all_digits(s: Seq<char>) -> bool {
    forall|i: int| 0 <= i < s.len() ==> is_digit(#[trigger] s[i])
}

pub open spec fn digit_value(c: char) -> nat {
    (c as u32 - '0' as u32) as nat
}

/// The value of a string of decimal digits.
pub open spec fn digits_value(s: Seq<char>) -> nat
    decreases s.len(),
{
    if s.len() == 0 {
        0
    } else {
        digits_value(s.drop_last()) * 10 + digit_value(s.last())
    }
}

pub open spec fn is_sign(c: char) -> bool {
    c == '+' || c == '-'
}

/// `s` without a leading sign character.
pub open spec fn unsigned_part(s: Seq<char>) -> Seq<char> {
    if s.len() > 0 && is_sign(s[0]) {
        s.drop_first()
    } else {
        s
    }
}

pub open spec fn is_negative(s: Seq<char>) -> bool {
    s.len() > 0 && s[0] == '-'
}

/// The integer a literal `[+-]?[0-9]+` denotes, or `None` for any other text.
pub open spec fn integer_literal(s: Seq<char>) -> Option<int> {
    let body = unsigned_part(s);
    if body.len() > 0 && all_digits(body) {
        Some(if is_negative(s) { -digits_value(body) } else { digits_value(body) as int })
    } else {
        None
    }
}

/// What parsing `s` as an integer between `lo` and `hi` gives.
pub open spec fn integer_in(s: Seq<char>, lo: int, hi: int) -> Option<int> {
    match integer_literal(s) {
        Some(v) => if lo <= v <= hi { Some(v) } else { None },
        None => None,
    }
}

proof fn lemma_digits_value_prefix(s: Seq<char>, k: int)
    requires
        all_digits(s),
        0 <= k <= s.len(),
    ensures
        digits_value(s.take(k)) <= digits_value(s),
    decreases s.len(),
{
    if k < s.len() {
        let d = s.drop_last();
        assert(d.take(k) =~= s.take(k));
        lemma_digits_value_prefix(d, k);
    } else {
        assert(s.take(k) =~= s);
    }
}

/// Parses a decimal integer literal, as `i64`'s `FromStr` does.
pub fn parse_i64(s: &Vec<char>) -> (r: Option<i64>)
    ensures
        r matches Some(v) ==> integer_in(s@, i64::MIN as int, i64::MAX as int) == Some(v as int),
        r is None ==> integer_in(s@, i64::MIN as int, i64::MAX as int) is None,
{
    let n = s.len();
    let mut start: usize = 0;
    let mut neg = false;
    if n > 0 && (s[0] == '+' || s[0] == '-') {
        start = 1;
        neg = s[0] == '-';
    }
    let ghost body = unsigned_part(s@);
    assert(body =~= s@.skip(start as int));
    if start >= n {
        return None;
    }
    let mut acc: u128 = 0;
    let mut i: usize = start;
    let limit: u128 = 0x8000_0000_0000_0000;
    assert(body.take(0) =~= seq![]);
    while i < n
        invariant
            start <= i <= n,
            n == s@.len(),
            body == s@.skip(start as int),
            body == unsigned_part(s@),
            neg == is_negative(s@),
            all_digits(body.take(i - start)),
            acc == digits_value(body.take(i - start)),
            acc <= limit,
            limit == 0x8000_0000_0000_0000u128,
        decreases n - i,
    {
        let c = s[i];
        if !('0' <= c && c <= '9') {
            assert(body[i - start] == c);
            assert(!all_digits(body));
            return None;
        }
        let ghost t = body.take(i + 1 - start);
        assert(t.drop_last() =~= body.take(i - start));
        assert(t.last() == c);
        acc = acc * 10 + (c as u32 - '0' as u32) as u128;
        i += 1;
        assert(all_digits(body.take(i - start)));
        if acc > limit {
            proof {
                if all_digits(body) {
                    lemma_digits_value_prefix(body, i - start);
                    assert(digits_value(body) > 0x8000_0000_0000_0000);
                }
            }
            return None;
        }
    }
    assert(body.take(n - start) =~= body);
    if neg {
        Some((0i128 - acc as i128) as i64)
    } else if acc < limit {
        Some(acc as i64)
    } else {
        None
    }
}

pub open spec fn is_exp_mark(c: char) -> bool {
    c == 'e' || c == 'E'
}

/// Index of the first exponent mark of `s`, or its length.
pub open spec fn exp_index(s: Seq<char>) -> int
    decreases s.len(),
{
    if s.len() == 0 {
        0
    } else if is_exp_mark(s[0]) {
        0
    } else {
        1 + exp_index(s.drop_first())
    }
}

pub open spec fn count_dots(s: Seq<char>) -> nat
    decreases s.len(),
{
    if s.len() == 0 {
        0
    } else {
        count_dots(s.drop_last()) + if s.last() == '.' { 1nat } else { 0nat }
    }
}

/// `Digit+ | Digit+ '.' Digit* | Digit* '.' Digit+`
pub open spec fn is_mantissa(m: Seq<char>) -> bool {
    &&& forall|i: int| 0 <= i < m.len() ==> is_digit(#[trigger] m[i]) || m[i] == '.'
    &&& count_dots(m) <= 1
    &&& exists|i: int| 0 <= i < m.len() && is_digit(#[trigger] m[i])
}

/// Empty, or `[eE] [+-]? Digit+`.
pub open spec fn is_exponent(e: Seq<char>) -> bool {
    e.len() == 0 || (is_exp_mark(e[0]) && unsigned_part(e.drop_first()).len() > 0 && all_digits(
        unsigned_part(e.drop_first()),
    ))
}

/// `c` is the letter `l` (one of those of `inf`, `infinity`, `nan`) in either case.
pub open spec fn same_letter(c: char, l: char) -> bool {
    c == l || (l == 'i' && c == 'I') || (l == 'n' && c == 'N') || (l == 'f' && c == 'F') || (l
        == 't' && c == 'T') || (l == 'y' && c == 'Y') || (l == 'a' && c == 'A')
}

fn is_same_letter(c: char, l: char) -> (r: bool)
    ensures
        r == same_letter(c, l),
{
    c == l || (l == 'i' && c == 'I') || (l == 'n' && c == 'N') || (l == 'f' && c == 'F') || (l
        == 't' && c == 'T') || (l == 'y' && c == 'Y') || (l == 'a' && c == 'A')
}

/// `s` spells the lower-case word `w` in any mix of cases.
pub open spec fn spells_caseless(s: Seq<char>, w: Seq<char>) -> bool {
    s.len() == w.len() && forall|i: int| 0 <= i < s.len() ==> same_letter(#[trigger] s[i], w[i])
}

pub open spec fn is_special_float(b: Seq<char>) -> bool {
    spells_caseless(b, seq!['i', 'n', 'f']) || spells_caseless(
        b,
        seq!['i', 'n', 'f', 'i', 'n', 'i', 't', 'y'],
    ) || spells_caseless(b, seq!['n', 'a', 'n'])
}

/// The text of a floating-point literal, in the grammar that `f32`'s
/// `FromStr` accepts: `[+-]? ('inf' | 'infinity' | 'nan' | Number)`,
/// letters in any case, `Number ::= Mantissa Exp?`.
pub open spec fn is_float_literal(s: Seq<char>) -> bool {
    let b = unsigned_part(s);
    is_special_float(b) || (is_mantissa(b.take(exp_index(b))) && is_exponent(
        b.skip(exp_index(b)),
    ))
}

proof fn lemma_exp_index(b: Seq<char>, p: int)
    requires
        0 <= p <= b.len(),
        forall|j: int| 0 <= j < p ==> !is_exp_mark(#[trigger] b[j]),
        p == b.len() || is_exp_mark(b[p]),
    ensures
        exp_index(b) == p,
    decreases p,
{
    if p > 0 {
        let t = b.drop_first();
        assert forall|j: int| 0 <= j < p - 1 implies !is_exp_mark(#[trigger] t[j]) by {
            assert(t[j] == b[j + 1]);
        }
        assert(!is_exp_mark(b[0]));
        lemma_exp_index(t, p - 1);
    }
}

/// Whether `s[from..]` spells the lower-case word `w`, letters in any case.
fn spells_caseless_from(s: &Vec<char>, from: usize, w: &Vec<char>) -> (r: bool)
    requires
        from <= s@.len(),
    ensures
        r == spells_caseless(s@.skip(from as int), w@),
{
    let ghost b = s@.skip(from as int);
    if s.len() - from != w.len() {
        return false;
    }
    let mut k: usize = from;
    while k < s.len()
        invariant
            b == s@.skip(from as int),
            b.len() == w@.len(),
            from <= k <= s@.len(),
            forall|j: int| 0 <= j < k - from ==> same_letter(#[trigger] b[j], w@[j]),
        decreases s@.len() - k,
    {
        assert(b[k - from] == s@[k as int]);
        if !is_same_letter(s[k], w[k - from]) {
            return false;
        }
        k += 1;
    }
    true
}

/// Whether `s` is a floating-point literal that `f32`'s `FromStr` accepts.
pub fn is_float_text(s: &Vec<char>) -> (r: bool)
    ensures
        r == is_float_literal(s@),
{
    let n = s.len();
    let mut start: usize = 0;
    if n > 0 && (s[0] == '+' || s[0] == '-') {
        start = 1;
    }
    let ghost b = unsigned_part(s@);
    assert(b =~= s@.skip(start as int));
    let w_inf = vec!['i', 'n', 'f'];
    let w_infinity = vec!['i', 'n', 'f', 'i', 'n', 'i', 't', 'y'];
    let w_nan = vec!['n', 'a', 'n'];
    assert(w_inf@ =~= seq!['i', 'n', 'f']);
    assert(w_infinity@ =~= seq!['i', 'n', 'f', 'i', 'n', 'i', 't', 'y']);
    assert(w_nan@ =~= seq!['n', 'a', 'n']);
    if spells_caseless_from(s, start, &w_inf) || spells_caseless_from(s, start, &w_infinity)
        || spells_caseless_from(s, start, &w_nan) {
        return true;
    }
    // locate the exponent mark
    let mut p: usize = start;
    while p < n && !(s[p] == 'e' || s[p] == 'E')
        invariant
            start <= p <= n,
            n == s@.len(),
            b == s@.skip(start as int),
            b == unsigned_part(s@),
            !is_special_float(b),
            forall|j: int| 0 <= j < p - start ==> !is_exp_mark(#[trigger] b[j]),
        decreases n - p,
    {
        assert(b[p - start] == s@[p as int]);
        p += 1;
    }
    proof {
        if p < n {
            assert(b[p - start] == s@[p as int]);
        }
        lemma_exp_index(b, p - start);
    }
    assert(b.take(p - start) =~= s@.subrange(start as int, p as int));
    assert(b.skip(p - start) =~= s@.skip(p as int));
    mantissa_ok(s, start, p) && exponent_ok(s, p)
}

/// Whether `s[from..to]` is a mantissa.
fn mantissa_ok(s: &Vec<char>, from: usize, to: usize) -> (r: bool)
    requires
        from <= to <= s@.len(),
    ensures
        r == is_mantissa(s@.subrange(from as int, to as int)),
{
    let ghost m = s@.subrange(from as int, to as int);
    let mut i: usize = from;
    let mut dots: usize = 0;
    let mut seen_digit = false;
    assert(m.take(0) =~= seq![]);
    while i < to
        invariant
            from <= i <= to <= s@.len(),
            m == s@.subrange(from as int, to as int),
            forall|j: int| 0 <= j < i - from ==> is_digit(#[trigger] m[j]) || m[j] == '.',
            dots == count_dots(m.take(i - from)),
            dots <= 1,
            seen_digit == exists|j: int| 0 <= j < i - from && is_digit(#[trigger] m[j]),
        decreases to - i,
    {
        let c = s[i];
        assert(m[i - from] == c);
        assert(m.take(i + 1 - from).drop_last() =~= m.take(i - from));
        if c == '.' {
            if dots == 1 {
                assert(count_dots(m.take(i + 1 - from)) == 2);
                proof { lemma_count_dots_prefix(m, i + 1 - from); }
                return false;
            }
            dots = 1;
        } else if '0' <= c && c <= '9' {
            seen_digit = true;
        } else {
            return false;
        }
        i += 1;
    }
    assert(m.take(to - from) =~= m);
    seen_digit
}

/// Whether `s[from..]` is empty or an exponent.
fn exponent_ok(s: &Vec<char>, from: usize) -> (r: bool)
    requires
        from <= s@.len(),
    ensures
        r == is_exponent(s@.skip(from as int)),
{
    let n = s.len();
    let ghost e = s@.skip(from as int);
    if from == n {
        return true;
    }
    assert(e[0] == s@[from as int]);
    if !(s[from] == 'e' || s[from] == 'E') {
        return false;
    }
    let mut q: usize = from + 1;
    if q < n && (s[q] == '+' || s[q] == '-') {
        q += 1;
    }
    let ghost t = unsigned_part(e.drop_first());
    assert(t =~= s@.skip(q as int));
    if q == n {
        return false;
    }
    let mut k: usize = q;
    while k < n
        invariant
            q <= k <= n,
            n == s@.len(),
            t == s@.skip(q as int),
            e == s@.skip(from as int),
            e.len() > 0,
            is_exp_mark(e[0]),
            t == unsigned_part(e.drop_first()),
            forall|j: int| 0 <= j < k - q ==> is_digit(#[trigger] t[j]),
        decreases n - k,
    {
        assert(t[k - q] == s@[k as int]);
        if !('0' <= s[k] && s[k] <= '9') {
            return false;
        }
        k += 1;
    }
    true
}

proof fn lemma_count_dots_prefix(m: Seq<char>, k: int)
    requires
        0 <= k <= m.len(),
    ensures
        count_dots(m.take(k)) <= count_dots(m),
    decreases m.len(),
{
    if k < m.len() {
        assert(m.drop_last().take(k) =~= m.take(k));
        lemma_count_dots_prefix(m.drop_last(), k);
    } else {
        assert(m.take(k) =~= m);
    }
}

/// A floating-point value, held as the literal that denotes it.
///
/// Holding the literal keeps values exact through a read and a write; a
/// caller that needs an `f32` parses [`Real::as_str`].
pub struct Real {
    text: String,
}

impl View for Real {
    type V = Seq<char>;

    closed spec fn view(&self) -> Seq<char> {
        self.text@
    }
}

impl Real {
    /// A `Real` from the characters of a floating-point literal.
    pub fn from_chars(v: &Vec<char>) -> (r: Option<Real>)
        ensures
            r is Some <==> is_float_literal(v@),
            r matches Some(x) ==> x@ == v@,
    {
        if is_float_text(v) {
            Some(Real { text: string_from_chars(v) })
        } else {
            None
        }
    }

    /// A `Real` from a floating-point literal, `None` for any other text.
    pub fn parse(s: &str) -> (r: Option<Real>)
        ensures
            r is Some <==> is_float_literal(s@),
            r matches Some(x) ==> x@ == s@,
    {
        let v = crate::text::chars_of(s);
        Real::from_chars(&v)
    }

    /// The literal.
    pub fn as_str(&self) -> (r: &str)
        ensures
            r@ == self@,
    {
        self.text.as_str()
    }

    /// A copy holding the same literal.
    pub fn copy(&self) -> (r: Real)
        ensures
            r@ == self@,
    {
        Real { text: self.text.clone() }
    }
}

impl PartialEq for Real {
    fn eq(&self, other: &Real) -> (r: bool) {
        self.text == other.text
    }
}

impl vstd::std_specs::cmp::PartialEqSpecImpl for Real {
    open spec fn obeys_eq_spec() -> bool {
        true
    }

    open spec fn eq_spec(&self, other: &Real) -> bool {
        self@ == other@
    }
}

pub open spec fn digit_char(d: nat) -> char {
    seq!['0', '1', '2', '3', '4', '5', '6', '7', '8', '9'][d as int]
}

/// The decimal numeral of `n`, without leading zeros.
pub open spec fn decimal(n: nat) -> Seq<char>
    decreases n,
{
    if n < 10 {
        seq![digit_char(n)]
    } else {
        decimal(n / 10).push(digit_char(n % 10))
    }
}

/// Appends the decimal numeral of `n` to `out`.
pub fn push_decimal(out: &mut Vec<char>, n: u128)
    ensures
        final(out)@ == old(out)@ + decimal(n as nat),
    decreases n,
{
    let digits = ['0', '1', '2', '3', '4', '5', '6', '7', '8', '9'];
    assert(digits@ =~= seq!['0', '1', '2', '3', '4', '5', '6', '7', '8', '9']);
    if n >= 10 {
        push_decimal(out, n / 10);
    }
    out.push(digits[(n % 10) as usize]);
    assert(final(out)@ =~= old(out)@ + decimal(n as nat));
}

/// A numeral reads back as the number it was written for.
pub proof fn lemma_decimal_digits(n: nat)
    ensures
        decimal(n).len() > 0,
        all_digits(decimal(n)),
        digits_value(decimal(n)) == n,
    decreases n,
{
    let ds = seq!['0', '1', '2', '3', '4', '5', '6', '7', '8', '9'];
    assert(forall|d: int| 0 <= d < 10 ==> is_digit(#[trigger] ds[d]) && digit_value(ds[d]) == d) by {
        assert(ds[0] == '0' && ds[1] == '1' && ds[2] == '2' && ds[3] == '3' && ds[4] == '4');
        assert(ds[5] == '5' && ds[6] == '6' && ds[7] == '7' && ds[8] == '8' && ds[9] == '9');
    }
    if n < 10 {
        assert(digit_char(n) == ds[n as int]);
        assert(decimal(n).drop_last() =~= Seq::<char>::empty());
        assert(digits_value(decimal(n)) == digits_value(Seq::<char>::empty()) * 10 + digit_value(
            digit_char(n),
        ));
    } else {
        lemma_decimal_digits(n / 10);
        let s = decimal(n);
        assert(digit_char(n % 10) == ds[(n % 10) as int]);
        assert(s.drop_last() =~= decimal(n / 10));
        assert(s.last() == digit_char(n % 10));
        assert((n / 10) * 10 + n % 10 == n) by (nonlinear_arith);
        assert(digits_value(s) == digits_value(decimal(n / 10)) * 10 + digit_value(s.last()));
        assert forall|i: int| 0 <= i < s.len() implies is_digit(#[trigger] s[i]) by {
            if i < s.len() - 1 {
                assert(s[i] == decimal(n / 10)[i]);
            }
        }
    }
}

/// The integer literals of a numeral and of its negation.
pub proof fn lemma_decimal_literal(n: nat)
    ensures
        integer_literal(decimal(n)) == Some(n as int),
        integer_literal(seq!['-'] + decimal(n)) == Some(-(n as int)),
{
    lemma_decimal_digits(n);
    let d = decimal(n);
    assert(is_digit(d[0]));
    assert(unsigned_part(d) == d);
    let m = seq!['-'] + d;
    assert(m[0] == '-');
    assert(m.drop_first() =~= d);
    assert(unsigned_part(m) == d);
}

/// A floating-point literal is non-empty and holds no whitespace.
pub proof fn lemma_float_literal_is_token(s: Seq<char>)
    requires
        is_float_literal(s),
    ensures
        is_token(s),
{
    let b = unsigned_part(s);
    assert forall|i: int| 0 <= i < b.len() implies !is_ws(#[trigger] b[i]) by {
        if is_special_float(b) {
            if spells_caseless(b, seq!['i', 'n', 'f']) {
                assert(same_letter(b[i], seq!['i', 'n', 'f'][i]));
            } else if spells_caseless(b, seq!['i', 'n', 'f', 'i', 'n', 'i', 't', 'y']) {
                assert(same_letter(b[i], seq!['i', 'n', 'f', 'i', 'n', 'i', 't', 'y'][i]));
            } else {
                assert(same_letter(b[i], seq!['n', 'a', 'n'][i]));
            }
        } else {
            let p = exp_index(b);
            lemma_exp_index_bound(b);
            if i < p {
                assert(b[i] == b.take(p)[i]);
                assert(is_digit(b.take(p)[i]) || b.take(p)[i] == '.');
            } else {
                let e = b.skip(p);
                assert(b[i] == e[i - p]);
                if i > p {
                    let d = e.drop_first();
                    assert(e[i - p] == d[i - p - 1]);
                    let t = unsigned_part(d);
                    if d.len() > 0 && is_sign(d[0]) {
                        if i - p - 1 > 0 {
                            assert(d[i - p - 1] == t[i - p - 2]);
                            assert(is_digit(t[i - p - 2]));
                        }
                    } else {
                        assert(is_digit(t[i - p - 1]));
                    }
                }
            }
        }
    }
    if !is_special_float(b) {
        lemma_exp_index_bound(b);
        let m = b.take(exp_index(b));
        let j = choose|j: int| 0 <= j < m.len() && is_digit(#[trigger] m[j]);
        assert(b.len() > 0);
    }
    assert(b.len() > 0);
    assert forall|i: int| 0 <= i < s.len() implies !is_ws(#[trigger] s[i]) by {
        if s.len() > 0 && is_sign(s[0]) {
            if i > 0 {
                assert(s[i] == b[i - 1]);
            }
        } else {
            assert(s[i] == b[i]);
        }
    }
}

proof fn lemma_exp_index_bound(b: Seq<char>)
    ensures
        0 <= exp_index(b) <= b.len(),
    decreases b.len(),
{
    if b.len() > 0 {
        lemma_exp_index_bound(b.drop_first());
    }
}

} // verus!
