use vstd::prelude::*;

verus! {

pub open spec fn is_digit(c: char) -> bool {
    '0' <= c <= '9'
}

pub open spec fn digit_value(c: char) -> int {
    c as int - '0' as int
}

/// Length of the longest prefix of `s` made of decimal digits.
pub open spec fn digit_run(s: Seq<char>) -> nat
    decreases s.len(),
{
    if s.len() == 0 || !is_digit(s[0]) {
        0
    } else {
        1 + digit_run(s.drop_first())
    }
}

/// The number written by the decimal digits `d`.
pub open spec fn decimal_value(d: Seq<char>) -> int
    decreases d.len(),
{
    if d.len() == 0 {
        0
    } else {
        decimal_value(d.drop_last()) * 10 + digit_value(d.last())
    }
}

/// Why a text is not an index, in the order `usize::from_str` checks.
#[derive(Clone, Copy, Debug, PartialEq, Eq, Structural)]
pub enum IndexError {
    /// The text is empty.
    Empty,
    /// A character other than a decimal digit, or a lone sign.
    InvalidDigit,
    /// The number does not fit in `usize`.
    Overflow,
}

/// The text after one leading `+`, if there is one.
pub open spec fn unsigned_digits(s: Seq<char>) -> Seq<char> {
    if s.len() > 0 && s[0] == '+' {
        s.drop_first()
    } else {
        s
    }
}

/// What `usize::from_str` gives for `s`: an optional `+` followed by decimal
/// digits whose value fits in `usize`. Digits are read from the left and the
/// first position that holds a non-digit or makes the value overflow decides
/// the error.
pub open spec fn index_value(s: Seq<char>) -> Result<usize, IndexError> {
    let d = unsigned_digits(s);
    if s.len() == 0 {
        Err(IndexError::Empty)
    } else if d.len() == 0 {
        Err(IndexError::InvalidDigit)
    } else if decimal_value(d.take(digit_run(d) as int)) > usize::MAX {
        Err(IndexError::Overflow)
    } else if digit_run(d) < d.len() {
        Err(IndexError::InvalidDigit)
    } else {
        Ok(decimal_value(d) as usize)
    }
}

/// `s` with one leading sign removed, if it has one.
pub open spec fn strip_sign(s: Seq<char>) -> Seq<char> {
    if s.len() > 0 && (s[0] == '+' || s[0] == '-') {
        s.drop_first()
    } else {
        s
    }
}

/// The code of `c` with ASCII upper-case letters taken to lower case.
pub open spec fn ascii_lower_code(c: char) -> int {
    if 'A' <= c <= 'Z' {
        c as int + 32
    } else {
        c as int
    }
}

/// `s` spells the lower-case word `w` with any mix of ASCII case.
pub open spec fn spells_ignoring_case(s: Seq<char>, w: Seq<char>) -> bool {
    &&& s.len() == w.len()
    &&& forall|i: int| 0 <= i < s.len() ==> ascii_lower_code(#[trigger] s[i]) == w[i] as int
}

/// An exponent: `e` or `E`, an optional sign, and at least one digit.
pub open spec fn is_exponent(s: Seq<char>) -> bool {
    &&& s.len() > 0
    &&& (s[0] == 'e' || s[0] == 'E')
    &&& strip_sign(s.drop_first()).len() > 0
    &&& digit_run(strip_sign(s.drop_first())) == strip_sign(s.drop_first()).len()
}

/// A decimal number: digits with an optional fraction, at least one digit in
/// all, then an optional exponent.
pub open spec fn is_decimal_number(s: Seq<char>) -> bool {
    let i = digit_run(s);
    let rest = s.skip(i as int);
    if rest.len() > 0 && rest[0] == '.' {
        let f = rest.drop_first();
        let j = digit_run(f);
        &&& i + j > 0
        &&& (f.skip(j as int).len() == 0 || is_exponent(f.skip(j as int)))
    } else {
        &&& i > 0
        &&& (rest.len() == 0 || is_exponent(rest))
    }
}

/// The texts that `f32::from_str` accepts, by the grammar its documentation
/// gives: an optional sign, then `inf`, `infinity` or `nan` in any ASCII
/// case, or a decimal number.
pub open spec fn is_float_literal(s: Seq<char>) -> bool {
    let b = strip_sign(s);
    ||| spells_ignoring_case(b, seq!['i', 'n', 'f'])
    ||| spells_ignoring_case(b, seq!['i', 'n', 'f', 'i', 'n', 'i', 't', 'y'])
    ||| spells_ignoring_case(b, seq!['n', 'a', 'n'])
    ||| is_decimal_number(b)
}

proof fn lemma_digit_run(s: Seq<char>, n: int)
    requires
        0 <= n <= s.len(),
        forall|j: int| 0 <= j < n ==> is_digit(#[trigger] s[j]),
        n == s.len() || !is_digit(s[n]),
    ensures
        digit_run(s) == n,
    decreases n,
{
    if n > 0 {
        lemma_digit_run(s.drop_first(), n - 1);
    }
}

proof fn lemma_digit_run_bound(s: Seq<char>)
    ensures
        digit_run(s) <= s.len(),
        forall|j: int| 0 <= j < digit_run(s) ==> is_digit(#[trigger] s[j]),
    decreases s.len(),
{
    if s.len() > 0 {
        lemma_digit_run_bound(s.drop_first());
        assert forall|j: int| 0 <= j < digit_run(s) implies is_digit(#[trigger] s[j]) by {
            if j > 0 {
                assert(s[j] == s.drop_first()[j - 1]);
            }
        }
    }
}

/// A longer run of digits never writes a smaller number.
proof fn lemma_decimal_value_grows(d: Seq<char>, j: int, k: int)
    requires
        0 <= j <= k <= d.len(),
        forall|i: int| 0 <= i < k ==> is_digit(#[trigger] d[i]),
    ensures
        0 <= decimal_value(d.take(j)) <= decimal_value(d.take(k)),
    decreases k - j,
{
    if j < k {
        lemma_decimal_value_grows(d, j, k - 1);
        assert(d.take(k).drop_last() == d.take(k - 1));
        assert(is_digit(d[k - 1]));
    } else {
        lemma_decimal_value_nonneg(d.take(j));
    }
}

proof fn lemma_decimal_value_nonneg(d: Seq<char>)
    requires
        forall|i: int| 0 <= i < d.len() ==> is_digit(#[trigger] d[i]),
    ensures
        decimal_value(d) >= 0,
    decreases d.len(),
{
    if d.len() > 0 {
        lemma_decimal_value_nonneg(d.drop_last());
    }
}

/// End of the run of digits that starts at `from`.
fn scan_digits(s: &Vec<char>, from: usize) -> (end: usize)
    requires
        from <= s.len(),
    ensures
        from <= end <= s.len(),
        end - from == digit_run(s@.skip(from as int)),
{
    let mut i = from;
    while i < s.len() && '0' <= s[i] && s[i] <= '9'
        invariant
            from <= i <= s.len(),
            forall|j: int| from <= j < i ==> is_digit(#[trigger] s@[j]),
        decreases s.len() - i,
    {
        i += 1;
    }
    proof {
        let t = s@.skip(from as int);
        assert forall|j: int| 0 <= j < i - from implies is_digit(#[trigger] t[j]) by {
            assert(t[j] == s@[from + j]);
        }
        lemma_digit_run(t, i - from);
    }
    i
}

/// Parses `s` as `usize::from_str` does.
pub fn parse_index(s: &Vec<char>) -> (r: Result<usize, IndexError>)
    ensures
        r == index_value(s@),
{
    let n = s.len();
    if n == 0 {
        return Err(IndexError::Empty);
    }
    let start: usize = if s[0] == '+' { 1 } else { 0 };
    let ghost d = unsigned_digits(s@);
    assert(d == s@.skip(start as int));
    if start == n {
        return Err(IndexError::InvalidDigit);
    }
    let mut v: usize = 0;
    let mut i = start;
    assert(d.take(0) == Seq::<char>::empty());
    while i < n
        invariant
            n == s.len(),
            d == s@.skip(start as int),
            d == unsigned_digits(s@),
            d.len() > 0,
            start <= i <= n,
            forall|j: int| start <= j < i ==> is_digit(#[trigger] s@[j]),
            v == decimal_value(d.take(i - start)),
        decreases n - i,
    {
        let c = s[i];
        proof {
            assert forall|j: int| 0 <= j < i - start implies is_digit(#[trigger] d[j]) by {
                assert(d[j] == s@[start + j]);
            }
        }
        if !('0' <= c && c <= '9') {
            proof {
                assert(d[i - start] == c);
                lemma_digit_run(d, i - start);
            }
            return Err(IndexError::InvalidDigit);
        }
        let dv = (c as u32 - '0' as u32) as usize;
        proof {
            assert(d.take(i - start + 1).drop_last() == d.take(i - start));
            assert(d.take(i - start + 1).last() == c);
            lemma_digit_run_bound(d);
        }
        match v.checked_mul(10) {
            None => {
                proof {
                    overflow_decides(d, i - start + 1);
                }
                return Err(IndexError::Overflow);
            },
            Some(m) => match m.checked_add(dv) {
                None => {
                    proof {
                        overflow_decides(d, i - start + 1);
                    }
                    return Err(IndexError::Overflow);
                },
                Some(x) => {
                    v = x;
                },
            },
        }
        i += 1;
    }
    proof {
        assert forall|j: int| 0 <= j < n - start implies is_digit(#[trigger] d[j]) by {
            assert(d[j] == s@[start + j]);
        }
        lemma_digit_run(d, n - start);
        assert(d.take(n - start) == d);
    }
    Ok(v)
}

/// Once a prefix of the leading digits is too large, so is the whole run.
proof fn overflow_decides(d: Seq<char>, k: int)
    requires
        0 < k <= d.len(),
        forall|j: int| 0 <= j < k ==> is_digit(#[trigger] d[j]),
        decimal_value(d.take(k)) > usize::MAX,
    ensures
        decimal_value(d.take(digit_run(d) as int)) > usize::MAX,
{
    lemma_digit_run_bound(d);
    if digit_run(d) < k {
        // the run ends where a non-digit stands, so it covers the first k characters
        let r = digit_run(d) as int;
        lemma_digit_run_prefix(d, r);
        assert(is_digit(d[r]));
    }
    lemma_decimal_value_grows(d, k, digit_run(d) as int);
}

proof fn lemma_digit_run_prefix(d: Seq<char>, r: int)
    requires
        0 <= r < d.len(),
        r == digit_run(d),
    ensures
        !is_digit(d[r]),
    decreases r,
{
    if r > 0 {
        lemma_digit_run_prefix(d.drop_first(), r - 1);
    }
}

/// Whether `s[from..]` spells `w` ignoring ASCII case, where `up` is `w` in upper case.
fn spells_from(s: &Vec<char>, from: usize, w: &Vec<char>, up: &Vec<char>) -> (r: bool)
    requires
        from <= s.len(),
        up.len() == w.len(),
        forall|j: int| 0 <= j < w.len() ==> 'a' <= #[trigger] w@[j] <= 'z',
        forall|j: int| 0 <= j < w.len() ==> #[trigger] up@[j] as int + 32 == w@[j] as int,
    ensures
        r == spells_ignoring_case(s@.skip(from as int), w@),
{
    let ghost t = s@.skip(from as int);
    if s.len() - from != w.len() {
        return false;
    }
    let mut i: usize = 0;
    while i < w.len()
        invariant
            t == s@.skip(from as int),
            t.len() == w.len(),
            up.len() == w.len(),
            from + w.len() == s.len(),
            i <= w.len(),
            forall|j: int| 0 <= j < w.len() ==> 'a' <= #[trigger] w@[j] <= 'z',
            forall|j: int| 0 <= j < w.len() ==> #[trigger] up@[j] as int + 32 == w@[j] as int,
            forall|j: int| 0 <= j < i ==> ascii_lower_code(#[trigger] t[j]) == w@[j] as int,
        decreases w.len() - i,
    {
        let c = s[from + i];
        assert(t[i as int] == c);
        let lw = w[i];
        let uw = up[i];
        assert(up@[i as int] as int + 32 == w@[i as int] as int);
        if !(c == lw || c == uw) {
            return false;
        }
        i += 1;
    }
    true
}

/// Whether `s[from..]` is an exponent.
fn exponent_from(s: &Vec<char>, from: usize) -> (r: bool)
    requires
        from <= s.len(),
    ensures
        r == is_exponent(s@.skip(from as int)),
{
    let n = s.len();
    if from == n {
        return false;
    }
    let c = s[from];
    if !(c == 'e' || c == 'E') {
        return false;
    }
    let p = from + 1;
    let q = if p < n && (s[p] == '+' || s[p] == '-') { p + 1 } else { p };
    assert(s@.skip(from as int).drop_first() == s@.skip(p as int));
    assert(strip_sign(s@.skip(p as int)) == s@.skip(q as int));
    if q == n {
        return false;
    }
    let e = scan_digits(s, q);
    e == n
}

/// Whether `s` is a text that `f32::from_str` accepts.
pub fn check_float_literal(s: &Vec<char>) -> (r: bool)
    ensures
        r == is_float_literal(s@),
{
    let n = s.len();
    let b0: usize = if n > 0 && (s[0] == '+' || s[0] == '-') { 1 } else { 0 };
    let ghost b = strip_sign(s@);
    assert(b == s@.skip(b0 as int));
    if spells_from(s, b0, &vec!['i', 'n', 'f'], &vec!['I', 'N', 'F']) || spells_from(
        s,
        b0,
        &vec!['i', 'n', 'f', 'i', 'n', 'i', 't', 'y'],
        &vec!['I', 'N', 'F', 'I', 'N', 'I', 'T', 'Y'],
    ) || spells_from(s, b0, &vec!['n', 'a', 'n'], &vec!['N', 'A', 'N']) {
        return true;
    }
    let i_end = scan_digits(s, b0);
    let ghost i = digit_run(b);
    assert(b.skip(i as int) == s@.skip(i_end as int));
    if i_end < n && s[i_end] == '.' {
        let j_end = scan_digits(s, i_end + 1);
        assert(b.skip(i as int).drop_first() == s@.skip(i_end + 1));
        assert(s@.skip(i_end + 1).skip(j_end - i_end - 1) == s@.skip(j_end as int));
        if i_end - b0 + (j_end - i_end - 1) == 0 {
            return false;
        }
        j_end == n || exponent_from(s, j_end)
    } else {
        if i_end == b0 {
            return false;
        }
        i_end == n || exponent_from(s, i_end)
    }
}

/// Every character of `d` is a decimal digit.
pub open spec fn all_digits(d: Seq<char>) -> bool {
    forall|i: int| 0 <= i < d.len() ==> is_digit(#[trigger] d[i])
}

/// No sign, `+` or `-`.
pub open spec fn is_sign_text(s: Seq<char>) -> bool {
    s == Seq::<char>::empty() || s == seq!['+'] || s == seq!['-']
}

proof fn lemma_digit_run_concat(d: Seq<char>, rest: Seq<char>)
    requires
        all_digits(d),
        rest.len() == 0 || !is_digit(rest[0]),
    ensures
        digit_run(d + rest) == d.len(),
{
    let s = d + rest;
    assert forall|j: int| 0 <= j < d.len() implies is_digit(#[trigger] s[j]) by {
        assert(s[j] == d[j]);
    }
    if rest.len() > 0 {
        assert(s[d.len() as int] == rest[0]);
    }
    lemma_digit_run(s, d.len() as int);
}

proof fn lemma_strip_sign_concat(sign: Seq<char>, body: Seq<char>)
    requires
        is_sign_text(sign),
        body.len() > 0,
        body[0] != '+' && body[0] != '-',
    ensures
        strip_sign(sign + body) == body,
{
    if sign.len() == 0 {
        assert(sign + body =~= body);
    } else {
        assert((sign + body).drop_first() =~= body);
    }
}

/// An exponent `e` or `E`, an optional sign and at least one digit is an exponent.
proof fn lemma_exponent_accepted(e: char, es: Seq<char>, ed: Seq<char>)
    requires
        e == 'e' || e == 'E',
        is_sign_text(es),
        all_digits(ed),
        ed.len() > 0,
    ensures
        is_exponent(seq![e] + es + ed),
{
    let x = seq![e] + es + ed;
    assert(x.drop_first() =~= es + ed);
    assert(is_digit(ed[0]));
    lemma_strip_sign_concat(es, ed);
    lemma_digit_run_concat(ed, Seq::<char>::empty());
    assert(ed + Seq::<char>::empty() =~= ed);
}

/// Every text of the decimal form of the `f32` grammar is accepted: an
/// optional sign, integer digits, optionally a point and fraction digits (at
/// least one digit in all), and optionally an exponent `e`/`E`, an optional
/// sign and at least one digit. The exponent is accepted the same way
/// whether or not a fraction precedes it.
pub proof fn lemma_decimal_literals_accepted(
    sign: Seq<char>,
    int_digits: Seq<char>,
    with_point: bool,
    frac_digits: Seq<char>,
    with_exp: bool,
    e: char,
    exp_sign: Seq<char>,
    exp_digits: Seq<char>,
)
    requires
        is_sign_text(sign),
        all_digits(int_digits),
        all_digits(frac_digits),
        with_point ==> int_digits.len() + frac_digits.len() > 0,
        !with_point ==> int_digits.len() > 0 && frac_digits.len() == 0,
        with_exp ==> (e == 'e' || e == 'E') && is_sign_text(exp_sign) && all_digits(exp_digits)
            && exp_digits.len() > 0,
    ensures
        is_float_literal(
            sign + int_digits + (if with_point {
                seq!['.']
            } else {
                Seq::<char>::empty()
            }) + frac_digits + (if with_exp {
                seq![e] + exp_sign + exp_digits
            } else {
                Seq::<char>::empty()
            }),
        ),
{
    let point = if with_point { seq!['.'] } else { Seq::<char>::empty() };
    let exp = if with_exp { seq![e] + exp_sign + exp_digits } else { Seq::<char>::empty() };
    let body = int_digits + point + frac_digits + exp;
    let text = sign + int_digits + point + frac_digits + exp;
    assert(text =~= sign + body);
    if with_exp {
        lemma_exponent_accepted(e, exp_sign, exp_digits);
    }
    if with_point {
        let rest = point + frac_digits + exp;
        assert(body =~= int_digits + rest);
        assert(rest[0] == '.');
        lemma_digit_run_concat(int_digits, rest);
        assert(body.skip(int_digits.len() as int) =~= rest);
        let f = frac_digits + exp;
        assert(rest.drop_first() =~= f);
        if with_exp {
            assert(exp[0] == e);
        }
        lemma_digit_run_concat(frac_digits, exp);
        assert(f.skip(frac_digits.len() as int) =~= exp);
        if int_digits.len() > 0 {
            assert(body[0] == int_digits[0]);
            assert(is_digit(int_digits[0]));
        } else {
            assert(body[0] == '.');
        }
    } else {
        assert(frac_digits =~= Seq::<char>::empty());
        assert(body =~= int_digits + exp);
        if with_exp {
            assert(exp[0] == e);
        }
        lemma_digit_run_concat(int_digits, exp);
        assert(body.skip(int_digits.len() as int) =~= exp);
        assert(body[0] == int_digits[0]);
        assert(is_digit(int_digits[0]));
    }
    lemma_strip_sign_concat(sign, body);
    assert(is_decimal_number(body));
}

} // verus!
