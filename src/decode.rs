//! Decoding JSON text into values.
use vstd::prelude::*;
use crate::number::{lemma_pow10_positive, pow10, strip_zeros, Float, Number};
use crate::text::{char_from_code, chars_of, code_char, string_of};
use crate::value::{insert_entry, lemma_trees_of, trees_of, Object, Tree, Value};

verus! {

/// Why text could not be decoded.
#[derive(Clone, Debug, PartialEq, Eq)]
pub enum Error {
    /// The text holds no value at all.
    NonParseble,
    /// The text is malformed; the message says where.
    NonParsebleMsg(String),
}

pub open spec fn is_ws(c: char) -> bool {
    c == ' ' || c == '\t' || c == '\n' || c == '\r'
}

/// The first position at or after `i` that is not whitespace.
pub open spec fn skip_ws(s: Seq<char>, i: int) -> int
    decreases s.len() - i,
{
    if 0 <= i < s.len() && is_ws(s[i]) {
        skip_ws(s, i + 1)
    } else {
        i
    }
}

pub open spec fn is_digit(c: char) -> bool {
    '0' <= c && c <= '9'
}

pub open spec fn digit_val(c: char) -> nat {
    (c as u32 - '0' as u32) as nat
}

/// The end of the run of digits that starts at `i`.
pub open spec fn digits_end(s: Seq<char>, i: int) -> int
    decreases s.len() - i,
{
    if 0 <= i < s.len() && is_digit(s[i]) {
        digits_end(s, i + 1)
    } else {
        i
    }
}

/// The number a sequence of decimal digits denotes.
pub open spec fn digits_value(d: Seq<char>) -> nat
    decreases d.len(),
{
    if d.len() == 0 {
        0
    } else {
        digits_value(d.drop_last()) * 10 + digit_val(d.last())
    }
}

/// The narrowest integer kind that holds `x`: unsigned for non-negative
/// values, signed otherwise.
pub open spec fn narrowest(x: int) -> Option<Number> {
    if 0 <= x {
        if x <= u8::MAX {
            Some(Number::U8(x as u8))
        } else if x <= u16::MAX {
            Some(Number::U16(x as u16))
        } else if x <= u32::MAX {
            Some(Number::U32(x as u32))
        } else if x <= u64::MAX {
            Some(Number::U64(x as u64))
        } else if x <= u128::MAX {
            Some(Number::U128(x as u128))
        } else {
            None
        }
    } else {
        if i8::MIN <= x {
            Some(Number::I8(x as i8))
        } else if i16::MIN <= x {
            Some(Number::I16(x as i16))
        } else if i32::MIN <= x {
            Some(Number::I32(x as i32))
        } else if i64::MIN <= x {
            Some(Number::I64(x as i64))
        } else if i128::MIN <= x {
            Some(Number::I128(x as i128))
        } else {
            None
        }
    }
}

/// Where the parts of a number literal lie: an optional minus sign, the
/// integer digits `a..b`, optional fraction digits `b+1..c`, and an optional
/// exponent whose digits are `es..d`.
pub struct NumberShape {
    pub neg: bool,
    pub a: int,
    pub b: int,
    pub frac: bool,
    pub c: int,
    pub exp: bool,
    pub exp_neg: bool,
    pub es: int,
    pub d: int,
}

/// The shape of the JSON number literal starting at `i`.
pub open spec fn number_shape(s: Seq<char>, i: int) -> Option<NumberShape> {
    let neg = 0 <= i < s.len() && s[i] == '-';
    let a = if neg {
        i + 1
    } else {
        i
    };
    if !(0 <= a < s.len() && is_digit(s[a])) {
        None
    } else {
        let b = if s[a] == '0' {
            a + 1
        } else {
            digits_end(s, a)
        };
        let frac = b < s.len() && s[b] == '.';
        let c = if frac {
            digits_end(s, b + 1)
        } else {
            b
        };
        let exp = c < s.len() && (s[c] == 'e' || s[c] == 'E');
        let signed = exp && c + 1 < s.len() && (s[c + 1] == '+' || s[c + 1] == '-');
        let es = if signed {
            c + 2
        } else if exp {
            c + 1
        } else {
            c
        };
        let d = if exp {
            digits_end(s, es)
        } else {
            c
        };
        if frac && c == b + 1 {
            None
        } else if exp && d == es {
            None
        } else {
            Some(
                NumberShape {
                    neg,
                    a,
                    b,
                    frac,
                    c,
                    exp,
                    exp_neg: signed && s[c + 1] == '-',
                    es,
                    d,
                },
            )
        }
    }
}

/// The number a literal of the given shape denotes. Without a fraction or an
/// exponent it is an integer of the narrowest kind; otherwise a float whose
/// mantissa is all its digits and whose exponent is the written one less the
/// number of fraction digits, with trailing zeros of the mantissa moved into
/// the exponent. A float whose mantissa then exceeds 128 bits or whose
/// exponent falls outside 32 bits, or whose magnitude lies outside the range
/// of 64-bit floats, is rejected.
pub open spec fn number_value(s: Seq<char>, sh: NumberShape) -> Option<Number> {
    let int_digits = s.subrange(sh.a, sh.b);
    let frac_digits = if sh.frac {
        s.subrange(sh.b + 1, sh.c)
    } else {
        Seq::empty()
    };
    let mag = digits_value(int_digits);
    let x = if sh.neg {
        -(mag as int)
    } else {
        mag as int
    };
    if !sh.frac && !sh.exp && narrowest(x) is Some {
        narrowest(x)
    } else {
        let raw = digits_value(int_digits + frac_digits);
        let exp_val = if sh.exp {
            digits_value(s.subrange(sh.es, sh.d))
        } else {
            0
        };
        let exponent = (if sh.exp_neg {
            -(exp_val as int)
        } else {
            exp_val as int
        }) - frac_digits.len();
        let (m, e) = strip_zeros(raw, exponent);
        if m > u128::MAX || exp_val > u64::MAX || e < i32::MIN || e > i32::MAX
            || !in_float_range(m, e) {
            None
        } else {
            Some(
                Number::F64(
                    Float::Finite { negative: sh.neg, mantissa: m as u128, exponent: e as i32 },
                ),
            )
        }
    }
}

/// The decimal `m * 10^e` is zero or has an order of magnitude within that
/// of 64-bit floats: at least `10^-324` and below `10^309`.
pub open spec fn in_float_range(m: nat, e: int) -> bool {
    m == 0 || (-323 <= crate::json::decimal(m).len() + e && crate::json::decimal(m).len() + e
        <= 309)
}

/// A JSON number starting at `i`, and the position after it.
pub open spec fn parse_number(s: Seq<char>, i: int) -> Option<(Tree, int)> {
    match number_shape(s, i) {
        None => None,
        Some(sh) => match number_value(s, sh) {
            Some(n) => Some((Tree::Number(n), sh.d)),
            None => None,
        },
    }
}

pub open spec fn hex_val(c: char) -> Option<nat> {
    if '0' <= c && c <= '9' {
        Some((c as u32 - '0' as u32) as nat)
    } else if 'a' <= c && c <= 'f' {
        Some((c as u32 - 'a' as u32 + 10) as nat)
    } else if 'A' <= c && c <= 'F' {
        Some((c as u32 - 'A' as u32 + 10) as nat)
    } else {
        None
    }
}

/// Four hexadecimal digits at `i`.
pub open spec fn hex4(s: Seq<char>, i: int) -> Option<nat> {
    if 0 <= i && i + 4 <= s.len() && hex_val(s[i]) is Some && hex_val(s[i + 1]) is Some
        && hex_val(s[i + 2]) is Some && hex_val(s[i + 3]) is Some {
        Some(
            ((hex_val(s[i])->0 * 16 + hex_val(s[i + 1])->0) * 16 + hex_val(s[i + 2])->0) * 16
                + hex_val(s[i + 3])->0,
        )
    } else {
        None
    }
}

/// The character a one-letter escape stands for.
pub open spec fn simple_escape(e: char) -> Option<char> {
    if e == '"' {
        Some('"')
    } else if e == '\\' {
        Some('\\')
    } else if e == '/' {
        Some('/')
    } else if e == 'b' {
        Some('\x08')
    } else if e == 'f' {
        Some('\x0c')
    } else if e == 'n' {
        Some('\n')
    } else if e == 'r' {
        Some('\r')
    } else if e == 't' {
        Some('\t')
    } else {
        None
    }
}

/// The rest of a JSON string whose opening quote precedes `i`, after the
/// characters `acc` already read: the characters and the position after the
/// closing quote.
pub open spec fn parse_string(s: Seq<char>, i: int, acc: Seq<char>) -> Option<(Seq<char>, int)>
    decreases s.len() - i,
{
    if i < 0 || i >= s.len() {
        None
    } else if s[i] == '"' {
        Some((acc, i + 1))
    } else if s[i] == '\\' {
        if i + 1 >= s.len() {
            None
        } else if s[i + 1] == 'u' {
            match hex4(s, i + 2) {
                None => None,
                Some(u) => if 0xD800 <= u && u < 0xDC00 {
                    if i + 7 < s.len() && s[i + 6] == '\\' && s[i + 7] == 'u' && hex4(s, i + 8)
                        is Some && 0xDC00 <= hex4(s, i + 8)->0 && hex4(s, i + 8)->0 < 0xE000 {
                        parse_string(
                            s,
                            i + 12,
                            acc.push(
                                code_char(
                                    (0x10000 + (u - 0xD800) * 0x400 + (hex4(s, i + 8)->0
                                        - 0xDC00)) as nat,
                                ),
                            ),
                        )
                    } else {
                        None
                    }
                } else if 0xDC00 <= u && u < 0xE000 {
                    None
                } else {
                    parse_string(s, i + 6, acc.push(code_char(u)))
                },
            }
        } else {
            match simple_escape(s[i + 1]) {
                Some(c) => parse_string(s, i + 2, acc.push(c)),
                None => None,
            }
        }
    } else if (s[i] as u32) < 0x20 {
        None
    } else {
        parse_string(s, i + 1, acc.push(s[i]))
    }
}

pub open spec fn has_word(s: Seq<char>, i: int, w: Seq<char>) -> bool {
    0 <= i && i + w.len() <= s.len() && s.subrange(i, i + w.len()) == w
}

/// A JSON value, after any whitespace, starting at `i`.
pub open spec fn parse_value(s: Seq<char>, i: int) -> Option<(Tree, int)>
    decreases s.len() - i, 3nat,
{
    let j = skip_ws(s, i);
    if i < 0 || i > s.len() || j < i || j >= s.len() {
        None
    } else if s[j] == '{' {
        parse_object(s, j)
    } else if s[j] == '[' {
        parse_array(s, j)
    } else if s[j] == '"' {
        match parse_string(s, j + 1, Seq::empty()) {
            Some((t, k)) => Some((Tree::String(t), k)),
            None => None,
        }
    } else if has_word(s, j, seq!['t', 'r', 'u', 'e']) {
        Some((Tree::Boolean(true), j + 4))
    } else if has_word(s, j, seq!['f', 'a', 'l', 's', 'e']) {
        Some((Tree::Boolean(false), j + 5))
    } else if has_word(s, j, seq!['n', 'u', 'l', 'l']) {
        Some((Tree::Null, j + 4))
    } else if s[j] == '-' || is_digit(s[j]) {
        parse_number(s, j)
    } else {
        None
    }
}

/// An array whose `[` stands at `i`.
pub open spec fn parse_array(s: Seq<char>, i: int) -> Option<(Tree, int)>
    decreases s.len() - i, 2nat,
{
    let j = skip_ws(s, i + 1);
    if i < 0 || i >= s.len() || j < i + 1 {
        None
    } else if j < s.len() && s[j] == ']' {
        Some((Tree::Array(Seq::empty()), j + 1))
    } else {
        parse_items(s, i + 1, Seq::empty())
    }
}

/// The remaining elements of an array, after the elements `acc`.
pub open spec fn parse_items(s: Seq<char>, i: int, acc: Seq<Tree>) -> Option<(Tree, int)>
    decreases s.len() - i, 4nat,
{
    if i < 0 || i > s.len() {
        None
    } else {
        match parse_value(s, i) {
            None => None,
            Some((v, k)) => {
                let m = skip_ws(s, k);
                if k <= i || m < k || m >= s.len() {
                    None
                } else if s[m] == ',' {
                    parse_items(s, m + 1, acc.push(v))
                } else if s[m] == ']' {
                    Some((Tree::Array(acc.push(v)), m + 1))
                } else {
                    None
                }
            },
        }
    }
}

/// An object whose `{` stands at `i`.
pub open spec fn parse_object(s: Seq<char>, i: int) -> Option<(Tree, int)>
    decreases s.len() - i, 2nat,
{
    let j = skip_ws(s, i + 1);
    if i < 0 || i >= s.len() || j < i + 1 {
        None
    } else if j < s.len() && s[j] == '}' {
        Some((Tree::Object(Seq::empty()), j + 1))
    } else {
        parse_members(s, i + 1, Seq::empty())
    }
}

/// The remaining members of an object, after the entries `acc`; a later
/// member wins over an earlier one with the same key.
pub open spec fn parse_members(s: Seq<char>, i: int, acc: Seq<(Seq<char>, Tree)>) -> Option<
    (Tree, int),
>
    decreases s.len() - i, 4nat,
{
    let j = skip_ws(s, i);
    if i < 0 || i > s.len() || j < i || j >= s.len() || s[j] != '"' {
        None
    } else {
        match parse_string(s, j + 1, Seq::empty()) {
            None => None,
            Some((key, k)) => {
                let c = skip_ws(s, k);
                if k <= j || c < k || c >= s.len() || s[c] != ':' {
                    None
                } else {
                    match parse_value(s, c + 1) {
                        None => None,
                        Some((v, e)) => {
                            let m = skip_ws(s, e);
                            if e <= c || m < e || m >= s.len() {
                                None
                            } else if s[m] == ',' {
                                parse_members(s, m + 1, insert_entry(acc, key, v))
                            } else if s[m] == '}' {
                                Some((Tree::Object(insert_entry(acc, key, v)), m + 1))
                            } else {
                                None
                            }
                        },
                    }
                }
            },
        }
    }
}

/// The value a complete JSON text denotes.
pub open spec fn json_parse(s: Seq<char>) -> Option<Tree> {
    match parse_value(s, 0) {
        Some((t, k)) => if skip_ws(s, k) == s.len() {
            Some(t)
        } else {
            None
        },
        None => None,
    }
}

/// The exec result agrees with the spec result: the same value and end
/// position, or an error where the spec finds none.
pub open spec fn agrees(r: Result<(Value, usize), Error>, o: Option<(Tree, int)>) -> bool {
    match o {
        Some((t, k)) => r matches Ok((v, k2)) && v@ == t && k2 as int == k,
        None => r matches Err(Error::NonParsebleMsg(_)),
    }
}

/// An error that names the position where decoding stopped.
pub fn malformed(pos: usize) -> (r: Error)
    ensures
        r matches Error::NonParsebleMsg(m) && m@ == "malformed input at character "@
            + crate::json::decimal(pos as nat),
{
    let mut msg: Vec<char> = Vec::new();
    crate::text::push_str(&mut msg, "malformed input at character ");
    crate::json::push_decimal(&mut msg, pos as u128);
    Error::NonParsebleMsg(string_of(&msg))
}

pub fn skip_ws_exec(s: &Vec<char>, i: usize) -> (r: usize)
    requires
        i <= s@.len(),
    ensures
        r as int == skip_ws(s@, i as int),
        i <= r <= s@.len(),
{
    let mut j = i;
    while j < s.len() && (s[j] == ' ' || s[j] == '\t' || s[j] == '\n' || s[j] == '\r')
        invariant
            i <= j <= s@.len(),
            skip_ws(s@, j as int) == skip_ws(s@, i as int),
        decreases s@.len() - j,
    {
        j = j + 1;
    }
    j
}

fn is_digit_exec(c: char) -> (r: bool)
    ensures
        r == is_digit(c),
{
    '0' <= c && c <= '9'
}

fn digits_end_exec(s: &Vec<char>, i: usize) -> (r: usize)
    requires
        i <= s@.len(),
    ensures
        r as int == digits_end(s@, i as int),
        i <= r <= s@.len(),
        forall|k: int| i <= k < r ==> is_digit(#[trigger] s@[k]),
{
    let mut j = i;
    while j < s.len() && is_digit_exec(s[j])
        invariant
            i <= j <= s@.len(),
            digits_end(s@, j as int) == digits_end(s@, i as int),
            forall|k: int| i <= k < j ==> is_digit(#[trigger] s@[k]),
        decreases s@.len() - j,
    {
        j = j + 1;
    }
    j
}

proof fn lemma_digits_value_grows(pre: Seq<char>, x: Seq<char>)
    ensures
        digits_value(pre) <= digits_value(pre + x),
    decreases x.len(),
{
    if x.len() > 0 {
        lemma_digits_value_grows(pre, x.drop_last());
        assert((pre + x).drop_last() =~= pre + x.drop_last());
    }
}

/// Continues a digit value over `s[lo..hi]`; `None` once it exceeds 128 bits.
fn extend_digits(acc: Option<u128>, s: &Vec<char>, lo: usize, hi: usize, Ghost(pre): Ghost<Seq<char>>) -> (r: Option<u128>)
    requires
        lo <= hi <= s@.len(),
        forall|k: int| lo <= k < hi ==> is_digit(#[trigger] s@[k]),
        acc == (if digits_value(pre) <= u128::MAX {
            Some(digits_value(pre) as u128)
        } else {
            None::<u128>
        }),
    ensures
        r == (if digits_value(pre + s@.subrange(lo as int, hi as int)) <= u128::MAX {
            Some(digits_value(pre + s@.subrange(lo as int, hi as int)) as u128)
        } else {
            None::<u128>
        }),
{
    let mut cur = acc;
    let mut j = lo;
    proof {
        assert(pre + s@.subrange(lo as int, lo as int) =~= pre);
    }
    while j < hi
        invariant
            lo <= j <= hi <= s@.len(),
            forall|k: int| lo <= k < hi ==> is_digit(#[trigger] s@[k]),
            cur == (if digits_value(pre + s@.subrange(lo as int, j as int)) <= u128::MAX {
                Some(digits_value(pre + s@.subrange(lo as int, j as int)) as u128)
            } else {
                None::<u128>
            }),
        decreases hi - j,
    {
        let ghost before = pre + s@.subrange(lo as int, j as int);
        let ghost after = pre + s@.subrange(lo as int, j + 1);
        proof {
            assert(after.drop_last() =~= before);
            assert(after.last() == s@[j as int]);
            assert(digits_value(after) == digits_value(before) * 10 + digit_val(s@[j as int]));
        }
        let d = (s[j] as u32 - '0' as u32) as u128;
        cur = match cur {
            Some(m) => if m <= (u128::MAX - d) / 10 {
                Some(m * 10 + d)
            } else {
                None
            },
            None => None,
        };
        j = j + 1;
    }
    cur
}

pub proof fn lemma_digits_concat(x: Seq<char>, y: Seq<char>)
    ensures
        digits_value(x + y) == digits_value(x) * pow10(y.len()) + digits_value(y),
    decreases y.len(),
{
    if y.len() == 0 {
        assert(x + y =~= x);
        assert(pow10(0) == 1);
    } else {
        let y2 = y.drop_last();
        lemma_digits_concat(x, y2);
        assert((x + y).drop_last() =~= x + y2);
        assert((x + y).last() == y.last());
        assert(pow10(y.len()) == 10 * pow10(y2.len()));
        let a = digits_value(x);
        let p = pow10(y2.len());
        let b = digits_value(y2);
        assert((a * p + b) * 10 == a * (10 * p) + b * 10) by (nonlinear_arith);
    }
}

/// A run of zero digits has the value zero.
pub proof fn lemma_digits_zeros(z: Seq<char>)
    requires
        forall|k: int| 0 <= k < z.len() ==> #[trigger] z[k] == '0',
    ensures
        digits_value(z) == 0,
    decreases z.len(),
{
    if z.len() > 0 {
        lemma_digits_zeros(z.drop_last());
    }
}

/// Trailing zeros of a value move into the exponent when it is normalized.
pub proof fn lemma_strip_shift(v: nat, k: nat, e: int)
    requires
        v > 0,
    ensures
        strip_zeros(v * pow10(k), e) == strip_zeros(v, e + k),
    decreases k,
{
    if k > 0 {
        lemma_strip_shift(v, (k - 1) as nat, e + 1);
        lemma_pow10_positive((k - 1) as nat);
        let w = v * pow10((k - 1) as nat);
        assert(pow10(k) == 10 * pow10((k - 1) as nat));
        assert(v * pow10(k) == 10 * w) by (nonlinear_arith)
            requires
                pow10(k) == 10 * pow10((k - 1) as nat),
                w == v * pow10((k - 1) as nat),
        ;
        assert(w > 0) by (nonlinear_arith)
            requires
                v > 0,
                pow10((k - 1) as nat) >= 1,
                w == v * pow10((k - 1) as nat),
        ;
        assert((10 * w) % 10 == 0 && (10 * w) / 10 == w);
    } else {
        assert(pow10(0) == 1);
    }
}

/// The significant part of the digits `s[a..b] + s[lo..hi]`: their value
/// without trailing zeros (when it fits 128 bits) and the number of those zeros.
fn significant(s: &Vec<char>, a: usize, b: usize, lo: usize, hi: usize) -> (r: (Option<u128>, usize, Ghost<nat>))
    requires
        a <= b <= lo <= hi <= s@.len(),
        forall|k: int| a <= k < b ==> is_digit(#[trigger] s@[k]),
        forall|k: int| lo <= k < hi ==> is_digit(#[trigger] s@[k]),
    ensures
        ({
            let v = digits_value(s@.subrange(a as int, b as int) + s@.subrange(lo as int, hi as int));
            &&& v == 0 ==> r.0 == Some(0u128)
            &&& v > 0 ==> r.2@ > 0 && r.2@ % 10 != 0 && v == r.2@ * pow10(r.1 as nat) && r.0 == (
                if r.2@ <= u128::MAX {
                    Some(r.2@ as u128)
                } else {
                    None::<u128>
                })
        }),
{
    let ghost ints = s@.subrange(a as int, b as int);
    let ghost fracs = s@.subrange(lo as int, hi as int);
    let ghost v = digits_value(ints + fracs);
    let mut t = hi;
    while t > lo && s[t - 1] == '0'
        invariant
            lo <= t <= hi <= s@.len(),
            forall|k: int| t <= k < hi ==> #[trigger] s@[k] == '0',
        decreases t,
    {
        t = t - 1;
    }
    if t > lo {
        proof {
            assert(Seq::<char>::empty() + ints =~= ints);
        }
        let m0 = extend_digits(Some(0), s, a, b, Ghost(Seq::empty()));
        let m = extend_digits(m0, s, lo, t, Ghost(ints));
        proof {
            let p = ints + s@.subrange(lo as int, t as int);
            let z = s@.subrange(t as int, hi as int);
            assert(ints + fracs =~= p + z);
            lemma_digits_concat(p, z);
            lemma_digits_zeros(z);
            assert(p.last() == s@[t - 1]);
            assert(p.drop_last().len() < p.len());
            let mv = digits_value(p);
            assert(mv == digits_value(p.drop_last()) * 10 + digit_val(s@[t - 1]));
            assert(digit_val(s@[t - 1]) > 0 && digit_val(s@[t - 1]) < 10);
            assert(mv % 10 != 0);
            assert(mv > 0);
            assert(z.len() == hi - t);
            assert(v == mv * pow10((hi - t) as nat));
            lemma_pow10_positive((hi - t) as nat);
            assert(v > 0) by (nonlinear_arith)
                requires
                    v == mv * pow10((hi - t) as nat),
                    mv > 0,
                    pow10((hi - t) as nat) >= 1,
            ;
            assert(m == (if mv <= u128::MAX {
                Some(mv as u128)
            } else {
                None::<u128>
            }));
        }
        let ghost w = digits_value(ints + s@.subrange(lo as int, t as int));
        return (m, hi - t, Ghost(w));
    }
    let mut u = b;
    while u > a && s[u - 1] == '0'
        invariant
            a <= u <= b,
            b <= s@.len(),
            forall|k: int| u <= k < b ==> #[trigger] s@[k] == '0',
        decreases u,
    {
        u = u - 1;
    }
    if u > a {
        proof {
            assert(Seq::<char>::empty() + s@.subrange(a as int, u as int) =~= s@.subrange(
                a as int,
                u as int,
            ));
        }
        let m = extend_digits(Some(0), s, a, u, Ghost(Seq::empty()));
        proof {
            let p = s@.subrange(a as int, u as int);
            let z = s@.subrange(u as int, b as int) + fracs;
            assert(ints + fracs =~= p + z);
            assert forall|k: int| 0 <= k < z.len() implies #[trigger] z[k] == '0' by {
                if k < b - u {
                    assert(z[k] == s@[u + k]);
                } else {
                    assert(z[k] == fracs[k - (b - u)]);
                    assert(fracs[k - (b - u)] == s@[lo + k - (b - u)]);
                }
            }
            lemma_digits_concat(p, z);
            lemma_digits_zeros(z);
            assert(p.last() == s@[u - 1]);
            let mv = digits_value(p);
            assert(mv == digits_value(p.drop_last()) * 10 + digit_val(s@[u - 1]));
            assert(digit_val(s@[u - 1]) > 0 && digit_val(s@[u - 1]) < 10);
            assert(mv % 10 != 0);
            assert(mv > 0);
            assert(z.len() == (b - u) + (hi - lo));
            assert(v == mv * pow10(((b - u) + (hi - lo)) as nat));
            lemma_pow10_positive(((b - u) + (hi - lo)) as nat);
            assert(v > 0) by (nonlinear_arith)
                requires
                    v == mv * pow10(((b - u) + (hi - lo)) as nat),
                    mv > 0,
                    pow10(((b - u) + (hi - lo)) as nat) >= 1,
            ;
            assert(m == (if mv <= u128::MAX {
                Some(mv as u128)
            } else {
                None::<u128>
            }));
        }
        let ghost w = digits_value(s@.subrange(a as int, u as int));
        return (m, (b - u) + (hi - lo), Ghost(w));
    }
    proof {
        let z = ints + fracs;
        assert forall|k: int| 0 <= k < z.len() implies #[trigger] z[k] == '0' by {
            if k < ints.len() {
                assert(z[k] == s@[a + k]);
            } else {
                assert(z[k] == s@[lo + k - ints.len()]);
            }
        }
        lemma_digits_zeros(z);
    }
    (Some(0), 0, Ghost(0))
}

/// The narrowest integer kind for a sign and magnitude.
fn narrowest_exec(neg: bool, mag: u128) -> (r: Option<Number>)
    ensures
        r == narrowest(if neg { -(mag as int) } else { mag as int }),
{
    if !neg || mag == 0 {
        if mag <= u8::MAX as u128 {
            Some(Number::U8(mag as u8))
        } else if mag <= u16::MAX as u128 {
            Some(Number::U16(mag as u16))
        } else if mag <= u32::MAX as u128 {
            Some(Number::U32(mag as u32))
        } else if mag <= u64::MAX as u128 {
            Some(Number::U64(mag as u64))
        } else {
            Some(Number::U128(mag))
        }
    } else if mag <= 128 {
        Some(Number::I8((0i128 - mag as i128) as i8))
    } else if mag <= 32768 {
        Some(Number::I16((0i128 - mag as i128) as i16))
    } else if mag <= 0x8000_0000 {
        Some(Number::I32((0i128 - mag as i128) as i32))
    } else if mag <= 0x8000_0000_0000_0000 {
        Some(Number::I64((0i128 - mag as i128) as i64))
    } else if mag < 0x8000_0000_0000_0000_0000_0000_0000_0000 {
        Some(Number::I128(0i128 - mag as i128))
    } else if mag == 0x8000_0000_0000_0000_0000_0000_0000_0000 {
        Some(Number::I128(i128::MIN))
    } else {
        None
    }
}

/// The shape of the number literal at `i`, as positions.
fn number_shape_exec(s: &Vec<char>, i: usize) -> (r: Option<(bool, usize, usize, bool, usize, bool, bool, usize, usize)>)
    requires
        i < s@.len(),
    ensures
        match number_shape(s@, i as int) {
            None => r is None,
            Some(sh) => r matches Some((neg, a, b, frac, c, exp, exp_neg, es, d)) && sh == (NumberShape {
                neg,
                a: a as int,
                b: b as int,
                frac,
                c: c as int,
                exp,
                exp_neg,
                es: es as int,
                d: d as int,
            }) && a <= b <= c <= es <= d <= s@.len(),
        },
        r matches Some((neg, a, b, frac, c, exp, exp_neg, es, d)) ==> {
            &&& forall|k: int| a <= k < b ==> is_digit(#[trigger] s@[k])
            &&& frac ==> b < c && forall|k: int| b + 1 <= k < c ==> is_digit(#[trigger] s@[k])
            &&& !frac ==> b == c
            &&& exp ==> forall|k: int| es <= k < d ==> is_digit(#[trigger] s@[k])
        },
{
    let n = s.len();
    let neg = s[i] == '-';
    let a = if neg {
        i + 1
    } else {
        i
    };
    if !(a < n && is_digit_exec(s[a])) {
        return None;
    }
    let b = if s[a] == '0' {
        a + 1
    } else {
        digits_end_exec(s, a)
    };
    let frac = b < n && s[b] == '.';
    let c = if frac {
        digits_end_exec(s, b + 1)
    } else {
        b
    };
    if frac && c == b + 1 {
        return None;
    }
    let exp = c < n && (s[c] == 'e' || s[c] == 'E');
    let signed = exp && c + 1 < n && (s[c + 1] == '+' || s[c + 1] == '-');
    let es = if signed {
        c + 2
    } else if exp {
        c + 1
    } else {
        c
    };
    let d = if exp {
        digits_end_exec(s, es)
    } else {
        c
    };
    if exp && d == es {
        return None;
    }
    Some((neg, a, b, frac, c, exp, signed && s[c + 1] == '-', es, d))
}

/// Decodes the number at `i`.
pub fn parse_number_exec(s: &Vec<char>, i: usize) -> (r: Result<(Value, usize), Error>)
    requires
        i < s@.len(),
    ensures
        agrees(r, parse_number(s@, i as int)),
        r matches Ok((_, k)) ==> k <= s@.len(),
{
    let (neg, a, b, frac, c, exp, exp_neg, es, d) = match number_shape_exec(s, i) {
        Some(t) => t,
        None => {
            return Err(malformed(i));
        },
    };
    let ghost sh = number_shape(s@, i as int)->0;
    proof {
        assert(Seq::<char>::empty() + s@.subrange(a as int, b as int) =~= s@.subrange(
            a as int,
            b as int,
        ));
    }
    let int_val = extend_digits(Some(0), s, a, b, Ghost(Seq::empty()));
    if !frac && !exp {
        if let Some(mag) = int_val {
            if let Some(num) = narrowest_exec(neg, mag) {
                return Ok((Value::Number(num), d));
            }
        }
    }
    let frac_lo = if frac {
        b + 1
    } else {
        b
    };
    let frac_hi = if frac {
        c
    } else {
        b
    };
    let (sig, tz, Ghost(mv)) = significant(s, a, b, frac_lo, frac_hi);
    let ghost raw = digits_value(s@.subrange(a as int, b as int) + s@.subrange(
        frac_lo as int,
        frac_hi as int,
    ));
    proof {
        if !frac {
            assert(s@.subrange(b as int, b as int) =~= Seq::<char>::empty());
        }
    }
    let exp_val = if exp {
        proof {
            assert(Seq::<char>::empty() + s@.subrange(es as int, d as int) =~= s@.subrange(
                es as int,
                d as int,
            ));
        }
        extend_digits(Some(0), s, es, d, Ghost(Seq::empty()))
    } else {
        Some(0)
    };
    match (sig, exp_val) {
        (Some(m), Some(ev)) => {
            if ev > u64::MAX as u128 {
                return Err(malformed(es));
            }
            let frac_len = (frac_hi - frac_lo) as i128;
            let e0: i128 = if exp_neg {
                0i128 - ev as i128
            } else {
                ev as i128
            } - frac_len;
            let e: i128 = if m == 0 {
                0
            } else {
                e0 + tz as i128
            };
            proof {
                if raw > 0 {
                    lemma_strip_shift(mv, tz as nat, e0 as int);
                    assert(strip_zeros(raw, e0 as int) == (mv, e0 + tz));
                } else {
                    assert(strip_zeros(raw, e0 as int) == (0nat, 0int));
                }
            }
            if e < i32::MIN as i128 || e > i32::MAX as i128 {
                return Err(malformed(d));
            }
            if m != 0 {
                let mut ds: Vec<char> = Vec::new();
                crate::json::push_decimal(&mut ds, m);
                proof {
                    assert(ds@ =~= crate::json::decimal(m as nat));
                }
                let order = ds.len() as i128 + e;
                if order < -323 || order > 309 {
                    return Err(malformed(d));
                }
            }
            let f = Float::Finite { negative: neg, mantissa: m, exponent: e as i32 };
            Ok((Value::Number(Number::F64(f)), d))
        },
        (None, _) => {
            proof {
                let e0 = (if exp_neg {
                    -(digits_value(s@.subrange(es as int, d as int)) as int)
                } else {
                    digits_value(s@.subrange(es as int, d as int)) as int
                }) - (frac_hi - frac_lo);
                lemma_strip_shift(mv, tz as nat, e0);
            }
            Err(malformed(i))
        },
        _ => Err(malformed(i)),
    }
}

fn hex_val_exec(c: char) -> (r: Option<u32>)
    ensures
        match hex_val(c) {
            Some(v) => r == Some(v as u32),
            None => r is None,
        },
{
    if '0' <= c && c <= '9' {
        Some(c as u32 - '0' as u32)
    } else if 'a' <= c && c <= 'f' {
        Some(c as u32 - 'a' as u32 + 10)
    } else if 'A' <= c && c <= 'F' {
        Some(c as u32 - 'A' as u32 + 10)
    } else {
        None
    }
}

fn hex4_exec(s: &Vec<char>, i: usize) -> (r: Option<u32>)
    ensures
        match hex4(s@, i as int) {
            Some(v) => r == Some(v as u32) && v < 0x10000,
            None => r is None,
        },
{
    if i > s.len() || s.len() - i < 4 {
        return None;
    }
    match (hex_val_exec(s[i]), hex_val_exec(s[i + 1]), hex_val_exec(s[i + 2]), hex_val_exec(s[i + 3])) {
        (Some(a), Some(b), Some(c), Some(d)) => Some(((a * 16 + b) * 16 + c) * 16 + d),
        _ => None,
    }
}

fn simple_escape_exec(e: char) -> (r: Option<char>)
    ensures
        r == simple_escape(e),
{
    if e == '"' {
        Some('"')
    } else if e == '\\' {
        Some('\\')
    } else if e == '/' {
        Some('/')
    } else if e == 'b' {
        Some('\x08')
    } else if e == 'f' {
        Some('\x0c')
    } else if e == 'n' {
        Some('\n')
    } else if e == 'r' {
        Some('\r')
    } else if e == 't' {
        Some('\t')
    } else {
        None
    }
}

/// Decodes the rest of a string whose opening quote precedes `i`.
pub fn parse_string_exec(s: &Vec<char>, i: usize) -> (r: Result<(String, usize), Error>)
    ensures
        match parse_string(s@, i as int, Seq::empty()) {
            Some((t, k)) => r matches Ok((v, k2)) && v@ == t && k2 as int == k,
            None => r matches Err(Error::NonParsebleMsg(_)),
        },
        r matches Ok((_, k)) ==> k <= s@.len(),
{
    let mut acc: Vec<char> = Vec::new();
    let mut j = i;
    while j < s.len()
        invariant
            parse_string(s@, i as int, Seq::empty()) == parse_string(s@, j as int, acc@),
        decreases s@.len() - j,
    {
        let c = s[j];
        if c == '"' {
            return Ok((string_of(&acc), j + 1));
        } else if c == '\\' {
            if j + 1 >= s.len() {
                return Err(malformed(j));
            }
            if s[j + 1] == 'u' {
                let u = match hex4_exec(s, j + 2) {
                    Some(u) => u,
                    None => {
                        return Err(malformed(j));
                    },
                };
                if 0xD800 <= u && u < 0xDC00 {
                    if s.len() - j > 7 && s[j + 6] == '\\' && s[j + 7] == 'u' {
                        match hex4_exec(s, j + 8) {
                            Some(l) => {
                                if 0xDC00 <= l && l < 0xE000 {
                                    let code = 0x10000 + (u - 0xD800) * 0x400 + (l - 0xDC00);
                                    match char_from_code(code) {
                                        Some(ch) => {
                                            acc.push(ch);
                                            j = j + 12;
                                        },
                                        None => {
                                            return Err(malformed(j));
                                        },
                                    }
                                } else {
                                    return Err(malformed(j));
                                }
                            },
                            None => {
                                return Err(malformed(j));
                            },
                        }
                    } else {
                        return Err(malformed(j));
                    }
                } else if 0xDC00 <= u && u < 0xE000 {
                    return Err(malformed(j));
                } else {
                    match char_from_code(u) {
                        Some(ch) => {
                            acc.push(ch);
                            j = j + 6;
                        },
                        None => {
                            return Err(malformed(j));
                        },
                    }
                }
            } else {
                match simple_escape_exec(s[j + 1]) {
                    Some(ch) => {
                        acc.push(ch);
                        j = j + 2;
                    },
                    None => {
                        return Err(malformed(j));
                    },
                }
            }
        } else if (c as u32) < 0x20 {
            return Err(malformed(j));
        } else {
            acc.push(c);
            j = j + 1;
        }
    }
    Err(malformed(j))
}

proof fn lemma_trees_of_push(s: Seq<Value>, v: Value)
    ensures
        trees_of(s.push(v)) == trees_of(s).push(v@),
{
    assert(s.push(v).subrange(0, s.len() as int) =~= s);
}

/// Whether the word `w` stands at position `j`.
fn word_at(s: &Vec<char>, j: usize, w: &str) -> (r: bool)
    requires
        j <= s@.len(),
    ensures
        r == has_word(s@, j as int, w@),
{
    let cs = chars_of(w);
    if s.len() - j < cs.len() {
        return false;
    }
    let mut k: usize = 0;
    while k < cs.len()
        invariant
            k <= cs@.len(),
            cs@ == w@,
            j + cs@.len() <= s@.len(),
            s@.len() == s.len(),
            forall|x: int| 0 <= x < k ==> s@[j + x] == cs@[x],
        decreases cs@.len() - k,
    {
        if s[j + k] != cs[k] {
            proof {
                if has_word(s@, j as int, w@) {
                    assert(s@.subrange(j as int, j + w@.len())[k as int] == s@[j + k]);
                }
            }
            return false;
        }
        k = k + 1;
    }
    proof {
        assert(s@.subrange(j as int, j + w@.len()) =~= w@);
    }
    true
}

/// Decodes the value, after any whitespace, at `i`.
pub fn parse_value_exec(s: &Vec<char>, i: usize) -> (r: Result<(Value, usize), Error>)
    requires
        i <= s@.len(),
    ensures
        agrees(r, parse_value(s@, i as int)),
        r matches Ok((_, k)) ==> k <= s@.len(),
    decreases s@.len() - i, 3nat,
{
    let j = skip_ws_exec(s, i);
    if j >= s.len() {
        return Err(malformed(j));
    }
    let c = s[j];
    proof {
        reveal_strlit("true");
        reveal_strlit("false");
        reveal_strlit("null");
        assert("true"@ =~= seq!['t', 'r', 'u', 'e']);
        assert("false"@ =~= seq!['f', 'a', 'l', 's', 'e']);
        assert("null"@ =~= seq!['n', 'u', 'l', 'l']);
    }
    if c == '{' {
        parse_object_exec(s, j)
    } else if c == '[' {
        parse_array_exec(s, j)
    } else if c == '"' {
        match parse_string_exec(s, j + 1) {
            Ok((t, k)) => Ok((Value::String(t), k)),
            Err(e) => Err(e),
        }
    } else if word_at(s, j, "true") {
        Ok((Value::Boolean(true), j + 4))
    } else if word_at(s, j, "false") {
        Ok((Value::Boolean(false), j + 5))
    } else if word_at(s, j, "null") {
        Ok((Value::Null, j + 4))
    } else if c == '-' || is_digit_exec(c) {
        parse_number_exec(s, j)
    } else {
        Err(malformed(j))
    }
}

/// Decodes the array whose `[` stands at `i`.
fn parse_array_exec(s: &Vec<char>, i: usize) -> (r: Result<(Value, usize), Error>)
    requires
        i < s@.len(),
    ensures
        agrees(r, parse_array(s@, i as int)),
        r matches Ok((_, k)) ==> k <= s@.len(),
    decreases s@.len() - i, 2nat,
{
    let _n = s.len();
    let j = skip_ws_exec(s, i + 1);
    if j < s.len() && s[j] == ']' {
        return Ok((Value::Array(Vec::new()), j + 1));
    }
    let mut items: Vec<Value> = Vec::new();
    let mut p = i + 1;
    proof {
        lemma_trees_of(items@);
        assert(trees_of(items@) =~= Seq::<Tree>::empty());
    }
    loop
        invariant
            i + 1 <= p <= s@.len(),
            parse_array(s@, i as int) == parse_items(s@, p as int, trees_of(items@)),
        decreases s@.len() - p,
    {
        let (v, k) = match parse_value_exec(s, p) {
            Ok(x) => x,
            Err(e) => {
                return Err(e);
            },
        };
        let m = skip_ws_exec(s, k);
        if k <= p || m >= s.len() {
            return Err(malformed(m));
        }
        proof {
            lemma_trees_of_push(items@, v);
        }
        if s[m] == ',' {
            items.push(v);
            p = m + 1;
        } else if s[m] == ']' {
            items.push(v);
            return Ok((Value::Array(items), m + 1));
        } else {
            return Err(malformed(m));
        }
    }
}

/// Decodes the object whose `{` stands at `i`.
fn parse_object_exec(s: &Vec<char>, i: usize) -> (r: Result<(Value, usize), Error>)
    requires
        i < s@.len(),
    ensures
        agrees(r, parse_object(s@, i as int)),
        r matches Ok((_, k)) ==> k <= s@.len(),
    decreases s@.len() - i, 2nat,
{
    let _n = s.len();
    let j = skip_ws_exec(s, i + 1);
    if j < s.len() && s[j] == '}' {
        return Ok((Value::Object(Object::new()), j + 1));
    }
    let mut obj = Object::new();
    let mut p = i + 1;
    loop
        invariant
            i + 1 <= p <= s@.len(),
            parse_object(s@, i as int) == parse_members(s@, p as int, obj@),
        decreases s@.len() - p,
    {
        let j = skip_ws_exec(s, p);
        if j >= s.len() || s[j] != '"' {
            return Err(malformed(j));
        }
        let (key, k) = match parse_string_exec(s, j + 1) {
            Ok(x) => x,
            Err(e) => {
                return Err(e);
            },
        };
        let c = skip_ws_exec(s, k);
        if k <= j || c >= s.len() || s[c] != ':' {
            return Err(malformed(c));
        }
        let (v, e) = match parse_value_exec(s, c + 1) {
            Ok(x) => x,
            Err(err) => {
                return Err(err);
            },
        };
        let m = skip_ws_exec(s, e);
        if e <= c || m >= s.len() {
            return Err(malformed(m));
        }
        if s[m] == ',' {
            obj.insert(key, v);
            p = m + 1;
        } else if s[m] == '}' {
            obj.insert(key, v);
            return Ok((Value::Object(obj), m + 1));
        } else {
            return Err(malformed(m));
        }
    }
}

impl Value {
    /// Decodes a JSON text.
    pub fn json_to_value(s: &str) -> (r: Result<Value, Error>)
        ensures
            match json_parse(s@) {
                Some(t) => r matches Ok(v) && v@ == t,
                None => r matches Err(Error::NonParsebleMsg(_)),
            },
    {
        let cs = chars_of(s);
        json_chars_to_value(&cs)
    }
}

/// Decodes a JSON text given as characters.
pub fn json_chars_to_value(cs: &Vec<char>) -> (r: Result<Value, Error>)
    ensures
        match json_parse(cs@) {
            Some(t) => r matches Ok(v) && v@ == t,
            None => r matches Err(Error::NonParsebleMsg(_)),
        },
{
    let (v, k) = match parse_value_exec(cs, 0) {
        Ok(x) => x,
        Err(e) => {
            return Err(e);
        },
    };
    let m = skip_ws_exec(cs, k);
    if m == cs.len() {
        Ok(v)
    } else {
        Err(malformed(m))
    }
}

} // verus!
