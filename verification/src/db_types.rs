//! The values the store holds, and their text form in the log.

use vstd::prelude::*;

use crate::text::{chars_of, push_char};

verus! {

/// A stored value.  A floating-point value is carried by its decimal text,
/// since the library does no float arithmetic: a float read from text keeps
/// the literal as written (`3.50`, `1e3`); a caller that holds an `f64`
/// stores the text its `Display` gives, and re-renders floats read from text
/// in that form (`3.5`, `1000`) where it needs them.
#[allow(inconsistent_fields)]
#[derive(Debug)]
pub enum DataType {
    Integer { value: i64 },
    Float { text: String },
    Text { value: String },
}

impl Clone for DataType {
    fn clone(&self) -> (r: Self)
        ensures
            r@ == self@,
    {
        match self {
            DataType::Integer { value } => DataType::Integer { value: *value },
            DataType::Float { text } => DataType::Float { text: text.clone() },
            DataType::Text { value } => DataType::Text { value: value.clone() },
        }
    }
}

/// The mathematical model of a `DataType`.
pub enum DataValue {
    Integer(i64),
    Float(Seq<char>),
    Text(Seq<char>),
}

impl View for DataType {
    type V = DataValue;

    open spec fn view(&self) -> DataValue {
        match self {
            DataType::Integer { value } => DataValue::Integer(*value),
            DataType::Float { text } => DataValue::Float(text@),
            DataType::Text { value } => DataValue::Text(value@),
        }
    }
}

// ---------------------------------------------------------------- digits

pub open spec fn is_digit(c: char) -> bool {
    48 <= (c as u32) <= 57
}

pub open spec fn digit_val(c: char) -> int {
    (c as u32) - 48
}

pub open spec fn digit_char(d: int) -> char {
    (d + 48) as char
}

pub open spec fn all_digits(s: Seq<char>) -> bool {
    forall|i: int| 0 <= i < s.len() ==> #[trigger] is_digit(s[i])
}

/// The number that the decimal digits `s` denote.
pub open spec fn digits_value(s: Seq<char>) -> int
    decreases s.len(),
{
    if s.len() == 0 {
        0
    } else {
        digits_value(s.drop_last()) * 10 + digit_val(s.last())
    }
}

/// What `i64::from_str` accepts and returns: an optional `+` or `-`, then one
/// or more ASCII digits, denoting a number in the range of `i64`.
pub open spec fn parse_i64_spec(s: Seq<char>) -> Option<i64> {
    let signed = s.len() > 0 && (s[0] == '-' || s[0] == '+');
    let body = if signed {
        s.drop_first()
    } else {
        s
    };
    let v = if s.len() > 0 && s[0] == '-' {
        -digits_value(body)
    } else {
        digits_value(body)
    };
    if body.len() > 0 && all_digits(body) && i64::MIN <= v <= i64::MAX {
        Some(v as i64)
    } else {
        None
    }
}

/// Decimal digits of a natural number, most significant first, no leading zeros.
pub open spec fn nat_text(n: nat) -> Seq<char>
    decreases n,
{
    if n < 10 {
        seq![digit_char(n as int)]
    } else {
        nat_text(n / 10).push(digit_char((n % 10) as int))
    }
}

/// The decimal text of an integer (what `i64`'s `Display` gives).
pub open spec fn int_text(v: int) -> Seq<char> {
    if v < 0 {
        seq!['-'] + nat_text((-v) as nat)
    } else {
        nat_text(v as nat)
    }
}

// ---------------------------------------------------------------- float literals

/// The first index at or after `i` that does not hold a digit (or the length).
pub open spec fn digit_run_end(s: Seq<char>, i: int) -> int
    decreases s.len() - i,
{
    if 0 <= i < s.len() && is_digit(s[i]) {
        digit_run_end(s, i + 1)
    } else {
        i
    }
}

/// `s[k..]` is an exponent's tail: an optional sign, then one or more digits, to the end.
pub open spec fn exponent_tail(s: Seq<char>, k: int) -> bool {
    let k2 = if k < s.len() && (s[k] == '+' || s[k] == '-') {
        k + 1
    } else {
        k
    };
    let e = digit_run_end(s, k2);
    e > k2 && e == s.len()
}

/// `b` is `Digit+ | Digit+ '.' Digit* | Digit* '.' Digit+`, then an optional
/// exponent `('e' | 'E') Sign? Digit+`.
pub open spec fn is_decimal_literal(b: Seq<char>) -> bool {
    let i = digit_run_end(b, 0);
    let has_dot = i < b.len() && b[i] == '.';
    let j = if has_dot {
        digit_run_end(b, i + 1)
    } else {
        i
    };
    let frac = if has_dot {
        j - (i + 1)
    } else {
        0
    };
    (i > 0 || frac > 0) && (j == b.len() || ((b[j] == 'e' || b[j] == 'E') && exponent_tail(
        b,
        j + 1,
    )))
}

pub open spec fn ascii_lower(c: char) -> char {
    if 65 <= (c as u32) <= 90 {
        ((c as u32) + 32) as char
    } else {
        c
    }
}

/// `s` equals the lower-case word `w` when ASCII letters are compared without case.
pub open spec fn eq_ignore_ascii_case(s: Seq<char>, w: Seq<char>) -> bool {
    s.len() == w.len() && forall|i: int| 0 <= i < s.len() ==> ascii_lower(#[trigger] s[i]) == w[i]
}

/// What `f64::from_str` accepts: an optional sign, then `inf`, `infinity`,
/// `nan` (in any case) or a decimal literal.
pub open spec fn is_float_literal(s: Seq<char>) -> bool {
    let b = if s.len() > 0 && (s[0] == '-' || s[0] == '+') {
        s.drop_first()
    } else {
        s
    };
    ||| is_decimal_literal(b)
    ||| eq_ignore_ascii_case(b, seq!['i', 'n', 'f'])
    ||| eq_ignore_ascii_case(b, seq!['i', 'n', 'f', 'i', 'n', 'i', 't', 'y'])
    ||| eq_ignore_ascii_case(b, seq!['n', 'a', 'n'])
}

// ---------------------------------------------------------------- values

impl DataValue {
    /// The text of a value (what `DataType::to_str` gives).
    pub open spec fn text(self) -> Seq<char> {
        match self {
            DataValue::Integer(i) => int_text(i as int),
            DataValue::Float(t) => t,
            DataValue::Text(t) => t,
        }
    }
}

/// The value the text `s` denotes when read back: an integer if `s` is an
/// `i64` literal, else a float if `s` is a float literal, else `s` as text.
pub open spec fn value_from_text(s: Seq<char>) -> DataValue {
    match parse_i64_spec(s) {
        Some(i) => DataValue::Integer(i),
        None => if is_float_literal(s) {
            DataValue::Float(s)
        } else {
            DataValue::Text(s)
        },
    }
}


// ---------------------------------------------------------------- executable parts

/// The bound `2^63` on the magnitude of an `i64`.
const MAGNITUDE_LIMIT: u64 = 9223372036854775808;

/// Whether `c` is an ASCII digit.
pub fn char_is_digit(c: char) -> (r: bool)
    ensures
        r == is_digit(c),
{
    let u = c as u32;
    48 <= u && u <= 57
}

/// Parses `s` as `i64::from_str` does.
pub fn parse_i64(s: &str) -> (r: Option<i64>)
    ensures
        r == parse_i64_spec(s@),
{
    let v = chars_of(s);
    let n = v.len();
    if n == 0 {
        return None;
    }
    let neg = v[0] == '-';
    let start: usize = if v[0] == '-' || v[0] == '+' {
        1
    } else {
        0
    };
    let ghost body = v@.subrange(start as int, n as int);
    proof {
        if start == 1 {
            assert(body =~= s@.drop_first());
        } else {
            assert(body =~= s@);
        }
    }
    if start == n {
        return None;
    }
    let mut mag: u64 = 0;
    let mut big = false;
    let mut i = start;
    while i < n
        invariant
            start <= i <= n == v.len(),
            v@ == s@,
            start < n,
            body == v@.subrange(start as int, n as int),
            body == (if s@.len() > 0 && (s@[0] == '-' || s@[0] == '+') {
                s@.drop_first()
            } else {
                s@
            }),
            neg == (s@[0] == '-'),
            forall|j: int| start <= j < i ==> is_digit(#[trigger] v@[j]),
            !big ==> mag == digits_value(v@.subrange(start as int, i as int)),
            !big ==> mag <= MAGNITUDE_LIMIT,
            big ==> digits_value(v@.subrange(start as int, i as int)) > MAGNITUDE_LIMIT,
        decreases n - i,
    {
        let c = v[i];
        if !char_is_digit(c) {
            proof {
                assert(body[i - start] == c);
                assert(!is_digit(body[i - start]));
                assert(!all_digits(body));
            }
            return None;
        }
        let d = (c as u32 - 48) as u64;
        let ghost pre = v@.subrange(start as int, i as int);
        proof {
            assert(v@.subrange(start as int, i + 1).drop_last() =~= pre);
            assert(v@.subrange(start as int, i + 1).last() == c);
        }
        if !big {
            if mag > (MAGNITUDE_LIMIT - d) / 10 {
                assert(mag * 10 + d > MAGNITUDE_LIMIT) by (nonlinear_arith)
                    requires
                        mag > (MAGNITUDE_LIMIT - d) / 10,
                        d <= 9,
                ;
                big = true;
            } else {
                assert(mag * 10 + d <= MAGNITUDE_LIMIT) by (nonlinear_arith)
                    requires
                        mag <= (MAGNITUDE_LIMIT - d) / 10,
                        d <= 9,
                ;
                mag = mag * 10 + d;
            }
        }
        i = i + 1;
    }
    proof {
        assert(v@.subrange(start as int, n as int) == body);
        assert forall|j: int| 0 <= j < body.len() implies #[trigger] is_digit(body[j]) by {
            assert(body[j] == v@[start + j]);
        }
    }
    if big {
        return None;
    }
    if neg {
        if mag == MAGNITUDE_LIMIT {
            Some(i64::MIN)
        } else {
            Some(-(mag as i64))
        }
    } else {
        if mag <= 9223372036854775807 {
            Some(mag as i64)
        } else {
            None
        }
    }
}

/// Appends the decimal digits of `n` to `out`.
fn push_nat_text(out: &mut String, n: u64)
    ensures
        final(out)@ == old(out)@ + nat_text(n as nat),
    decreases n,
{
    if n >= 10 {
        push_nat_text(out, n / 10);
    }
    let d = (n % 10) as u8;
    let c = (48u8 + d) as char;
    assert(c == digit_char((n % 10) as int));
    push_char(out, c);
    proof {
        if n < 10 {
            assert(old(out)@ + nat_text(n as nat) =~= old(out)@.push(c));
        } else {
            assert(old(out)@ + nat_text(n as nat) =~= (old(out)@ + nat_text((n / 10) as nat)).push(c));
        }
    }
}

/// The decimal text of `v`.
pub fn int_to_text(v: i64) -> (r: String)
    ensures
        r@ == int_text(v as int),
{
    let mut out = String::new();
    if v < 0 {
        push_char(&mut out, '-');
        let mag: u64 = if v == i64::MIN {
            MAGNITUDE_LIMIT
        } else {
            (-v) as u64
        };
        push_nat_text(&mut out, mag);
        assert(out@ =~= seq!['-'] + nat_text((-v) as nat));
    } else {
        push_nat_text(&mut out, v as u64);
        assert(out@ =~= nat_text(v as nat));
    }
    out
}

/// `digit_run_end(v, i)`, computed.
fn digit_run(v: &Vec<char>, i: usize) -> (r: usize)
    requires
        i <= v.len(),
    ensures
        r as int == digit_run_end(v@, i as int),
        i <= r <= v.len(),
{
    let mut j = i;
    while j < v.len() && char_is_digit(v[j])
        invariant
            i <= j <= v.len(),
            digit_run_end(v@, i as int) == digit_run_end(v@, j as int),
        decreases v.len() - j,
    {
        j = j + 1;
    }
    j
}

/// `v[k..]`.
fn suffix_from(v: &Vec<char>, k: usize) -> (r: Vec<char>)
    requires
        k <= v.len(),
    ensures
        r@ == v@.subrange(k as int, v.len() as int),
{
    let mut out: Vec<char> = Vec::new();
    let mut i = k;
    while i < v.len()
        invariant
            k <= i <= v.len(),
            out@ == v@.subrange(k as int, i as int),
        decreases v.len() - i,
    {
        out.push(v[i]);
        i = i + 1;
        assert(out@ =~= v@.subrange(k as int, i as int));
    }
    out
}

fn exponent_tail_at(b: &Vec<char>, k: usize) -> (r: bool)
    requires
        k <= b.len(),
    ensures
        r == exponent_tail(b@, k as int),
{
    let k2 = if k < b.len() && (b[k] == '+' || b[k] == '-') {
        k + 1
    } else {
        k
    };
    let e = digit_run(b, k2);
    e > k2 && e == b.len()
}

fn decimal_literal(b: &Vec<char>) -> (r: bool)
    ensures
        r == is_decimal_literal(b@),
{
    let i = digit_run(b, 0);
    let has_dot = i < b.len() && b[i] == '.';
    let j = if has_dot {
        digit_run(b, i + 1)
    } else {
        i
    };
    let some_frac = has_dot && j > i + 1;
    (i > 0 || some_frac) && (j == b.len() || ((b[j] == 'e' || b[j] == 'E') && exponent_tail_at(
        b,
        j + 1,
    )))
}

fn lower_ascii(c: char) -> (r: char)
    ensures
        r == ascii_lower(c),
{
    let u = c as u32;
    if 65 <= u && u <= 90 {
        let l = (u + 32) as u8;
        l as char
    } else {
        c
    }
}

fn word_ignore_ascii_case(b: &Vec<char>, w: &Vec<char>) -> (r: bool)
    ensures
        r == eq_ignore_ascii_case(b@, w@),
{
    if b.len() != w.len() {
        return false;
    }
    let mut i: usize = 0;
    while i < b.len()
        invariant
            i <= b.len() == w.len(),
            forall|j: int| 0 <= j < i ==> ascii_lower(#[trigger] b@[j]) == w@[j],
        decreases b.len() - i,
    {
        if lower_ascii(b[i]) != w[i] {
            return false;
        }
        i = i + 1;
    }
    true
}

/// Whether `s` is accepted by `f64::from_str`.
pub fn is_float_text(s: &str) -> (r: bool)
    ensures
        r == is_float_literal(s@),
{
    let v = chars_of(s);
    let b = if v.len() > 0 && (v[0] == '-' || v[0] == '+') {
        let t = suffix_from(&v, 1);
        assert(t@ =~= s@.drop_first());
        t
    } else {
        assert(v@.subrange(0, v.len() as int) =~= v@);
        suffix_from(&v, 0)
    };
    let inf = vec!['i', 'n', 'f'];
    let infinity = vec!['i', 'n', 'f', 'i', 'n', 'i', 't', 'y'];
    let nan = vec!['n', 'a', 'n'];
    decimal_literal(&b) || word_ignore_ascii_case(&b, &inf) || word_ignore_ascii_case(
        &b,
        &infinity,
    ) || word_ignore_ascii_case(&b, &nan)
}

impl DataType {
    /// The text of the value: the decimal form of an integer, the stored
    /// text of a float or a text.
    pub fn to_str(&self) -> (r: String)
        ensures
            r@ == self@.text(),
    {
        match self {
            DataType::Integer { value } => int_to_text(*value),
            DataType::Float { text } => text.clone(),
            DataType::Text { value } => value.clone(),
        }
    }

    /// Reads a value from its text: an integer if `s` is an `i64` literal,
    /// else a float if `s` is a float literal (kept as the literal's text),
    /// else the text itself.
    pub fn from_text(s: &str) -> (r: DataType)
        ensures
            r@ == value_from_text(s@),
    {
        match parse_i64(s) {
            Some(value) => DataType::Integer { value },
            None => {
                if is_float_text(s) {
                    DataType::Float { text: s.to_owned() }
                } else {
                    DataType::Text { value: s.to_owned() }
                }
            },
        }
    }
}


// ---------------------------------------------------------------- round trip

pub proof fn lemma_nat_text(n: nat)
    ensures
        nat_text(n).len() >= 1,
        all_digits(nat_text(n)),
        digits_value(nat_text(n)) == n,
        is_digit(nat_text(n)[0]),
    decreases n,
{
    if n < 10 {
        assert(digit_val(digit_char(n as int)) == n);
        assert(nat_text(n).drop_last() =~= Seq::<char>::empty());
        assert(digits_value(nat_text(n).drop_last()) == 0);
    } else {
        lemma_nat_text(n / 10);
        let t = nat_text(n);
        assert(t.drop_last() == nat_text(n / 10));
        assert(digit_val(digit_char((n % 10) as int)) == n % 10);
        assert(t.last() == digit_char((n % 10) as int));
        assert(digits_value(t) == digits_value(t.drop_last()) * 10 + digit_val(t.last()));
        assert((n / 10) * 10 + n % 10 == n);
        assert forall|i: int| 0 <= i < t.len() implies #[trigger] is_digit(t[i]) by {
            if i < t.len() - 1 {
                assert(t[i] == nat_text(n / 10)[i]);
            }
        }
    }
}

/// The text of an integer reads back as the same integer: `i64::from_str`
/// inverts `i64`'s `Display`.
pub proof fn lemma_int_text_round_trip(v: i64)
    ensures
        parse_i64_spec(int_text(v as int)) == Some(v),
        value_from_text(int_text(v as int)) == DataValue::Integer(v),
{
    if v < 0 {
        let m = (-v) as nat;
        lemma_nat_text(m);
        let s = int_text(v as int);
        assert(s.drop_first() =~= nat_text(m));
        assert(s[0] == '-');
    } else {
        lemma_nat_text(v as nat);
        let s = int_text(v as int);
        assert(s[0] != '-' && s[0] != '+');
    }
}


// ---------------------------------------------------------------- conversions

// ---------------------------------------------------------------- laws of reading values

proof fn lemma_digit_run(s: Seq<char>, i: int, j: int)
    requires
        0 <= i <= j <= s.len(),
        forall|k: int| i <= k < j ==> is_digit(#[trigger] s[k]),
        j == s.len() || !is_digit(s[j]),
    ensures
        digit_run_end(s, i) == j,
    decreases j - i,
{
    if i < j {
        lemma_digit_run(s, i + 1, j);
    }
}

/// A text that is not an integer literal reads back as a value whose text is
/// that same text: a float keeps its sign and digits, a text stays itself.
pub proof fn lemma_non_integer_text_round_trip(s: Seq<char>)
    requires
        parse_i64_spec(s) is None,
    ensures
        value_from_text(s).text() == s,
{
}

/// A float value's text is the text it holds.
pub proof fn lemma_float_text(t: Seq<char>)
    ensures
        DataValue::Float(t).text() == t,
{
}

/// A decimal fraction, `d1.d2` with digits on at least one side and an
/// optional sign in front, reads as a float, whatever the number of digits,
/// and renders as the same text.
pub proof fn lemma_fraction_reads_as_float(sign: Seq<char>, d1: Seq<char>, d2: Seq<char>)
    requires
        sign == Seq::<char>::empty() || sign == seq!['-'] || sign == seq!['+'],
        all_digits(d1),
        all_digits(d2),
        d1.len() + d2.len() > 0,
    ensures
        value_from_text(sign + d1 + seq!['.'] + d2) == DataValue::Float(sign + d1 + seq!['.'] + d2),
        value_from_text(sign + d1 + seq!['.'] + d2).text() == sign + d1 + seq!['.'] + d2,
{
    let b = d1 + seq!['.'] + d2;
    let s = sign + d1 + seq!['.'] + d2;
    assert(s =~= sign + b);
    let n1 = d1.len() as int;
    assert(b[n1] == '.');
    assert(!is_digit('.'));
    assert forall|k: int| 0 <= k < n1 implies is_digit(#[trigger] b[k]) by {
        assert(b[k] == d1[k]);
    }
    lemma_digit_run(b, 0, n1);
    assert forall|k: int| n1 + 1 <= k < b.len() implies is_digit(#[trigger] b[k]) by {
        assert(b[k] == d2[k - n1 - 1]);
    }
    lemma_digit_run(b, n1 + 1, b.len() as int);
    assert(is_decimal_literal(b));
    if sign.len() == 0 {
        assert(s =~= b);
        if n1 > 0 {
            assert(is_digit(b[0]));
        }
        assert(b[0] != '-' && b[0] != '+');
    } else {
        assert(s.drop_first() =~= b);
        assert(s[0] == sign[0]);
    }
    let body = if s.len() > 0 && (s[0] == '-' || s[0] == '+') {
        s.drop_first()
    } else {
        s
    };
    assert(body == b);
    assert(!all_digits(body)) by {
        assert(!is_digit(body[n1]));
    }
    assert(is_float_literal(s));
}

/// Digits, an `e` or `E`, and digits read as a float, and render as the same text.
pub proof fn lemma_exponent_reads_as_float(d1: Seq<char>, e: char, d3: Seq<char>)
    requires
        all_digits(d1),
        all_digits(d3),
        d1.len() > 0,
        d3.len() > 0,
        e == 'e' || e == 'E',
    ensures
        value_from_text(d1 + seq![e] + d3) == DataValue::Float(d1 + seq![e] + d3),
        value_from_text(d1 + seq![e] + d3).text() == d1 + seq![e] + d3,
{
    let b = d1 + seq![e] + d3;
    let n1 = d1.len() as int;
    assert(b[n1] == e);
    assert(!is_digit(e));
    assert forall|k: int| 0 <= k < n1 implies is_digit(#[trigger] b[k]) by {
        assert(b[k] == d1[k]);
    }
    lemma_digit_run(b, 0, n1);
    assert forall|k: int| n1 + 1 <= k < b.len() implies is_digit(#[trigger] b[k]) by {
        assert(b[k] == d3[k - n1 - 1]);
    }
    assert(is_digit(b[n1 + 1]));
    lemma_digit_run(b, n1 + 1, b.len() as int);
    assert(exponent_tail(b, n1 + 1));
    assert(is_decimal_literal(b));
    assert(is_digit(b[0]));
    assert(!all_digits(b)) by {
        assert(!is_digit(b[n1]));
    }
    assert(is_float_literal(b));
}

impl From<i64> for DataType {
    fn from(value: i64) -> (r: Self) {
        DataType::Integer { value }
    }
}

impl vstd::std_specs::convert::FromSpecImpl<i64> for DataType {
    open spec fn obeys_from_spec() -> bool {
        true
    }

    open spec fn from_spec(value: i64) -> Self {
        DataType::Integer { value }
    }
}

impl From<String> for DataType {
    fn from(value: String) -> (r: Self) {
        DataType::Text { value }
    }
}

impl vstd::std_specs::convert::FromSpecImpl<String> for DataType {
    open spec fn obeys_from_spec() -> bool {
        true
    }

    open spec fn from_spec(value: String) -> Self {
        DataType::Text { value }
    }
}


impl From<&str> for DataType {
    fn from(value: &str) -> (r: Self)
        ensures
            r@ == DataValue::Text(value@),
    {
        DataType::Text { value: value.to_owned() }
    }
}

/// A spec function cannot build a `String` from a `&str`, so the conversion is
/// not claimed through `from_spec` (`obeys_from_spec` is false); what `from`
/// returns is stated by its own `ensures`: the text, as a text value.
impl vstd::std_specs::convert::FromSpecImpl<&str> for DataType {
    open spec fn obeys_from_spec() -> bool {
        false
    }

    open spec fn from_spec(value: &str) -> Self {
        DataType::Text { value: choose|s: String| s@ == value@ }
    }
}

impl std::str::FromStr for DataType {
    type Err = core::convert::Infallible;

    fn from_str(s: &str) -> (parsed: Result<DataType, core::convert::Infallible>)
        ensures
            match parsed {
                Result::Ok(v) => v@ == value_from_text(s@),
                Result::Err(_) => false,
            },
    {
        Ok(DataType::from_text(s))
    }
}

} // verus!
