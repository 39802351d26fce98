//! Decoding the JSON text of a value gives the value back.
use vstd::prelude::*;
use crate::decode::{
    digits_end, digits_value, has_word, is_digit, is_ws, json_parse, narrowest, number_shape,
    parse_items, parse_members, parse_number, parse_string, parse_value,
    in_float_range, skip_ws,
};
use crate::decode::{digit_val, lemma_digits_concat, lemma_digits_zeros, lemma_strip_shift};
use crate::number::{pow10, strip_zeros, Float, Number};
use crate::json::{
    closing, colon, decimal, decimal_point_text, digit_of, float_text, repeat_char, entries_text, escape, escape_char, int_text, items_text,
    hex_digit, json_text, opening, quoted, separator, JsonMode,
};
use crate::value::{has_key, insert_entry, key_index, unique_keys, Tree};

verus! {

/// The array members from the `k`-th on, each preceded by a separator.
pub open spec fn items_from(items: Seq<Tree>, k: int, mode: JsonMode, level: nat) -> Seq<char>
    decreases items.len() - k,
{
    if k < 0 || k >= items.len() {
        Seq::empty()
    } else {
        separator(mode, level) + json_text(items[k], mode, level + 1) + items_from(
            items,
            k + 1,
            mode,
            level,
        )
    }
}

/// One object member: quoted key, colon, value.
pub open spec fn member_text(e: (Seq<char>, Tree), mode: JsonMode, level: nat) -> Seq<char> {
    quoted(e.0) + colon(mode) + json_text(e.1, mode, level + 1)
}

/// The object members from the `k`-th on, each preceded by a separator.
pub open spec fn entries_from(es: Seq<(Seq<char>, Tree)>, k: int, mode: JsonMode, level: nat) -> Seq<
    char,
>
    decreases es.len() - k,
{
    if k < 0 || k >= es.len() {
        Seq::empty()
    } else {
        separator(mode, level) + member_text(es[k], mode, level) + entries_from(
            es,
            k + 1,
            mode,
            level,
        )
    }
}

proof fn lemma_items_from_push(s: Seq<Tree>, x: Tree, k: int, mode: JsonMode, level: nat)
    requires
        0 <= k <= s.len(),
    ensures
        items_from(s.push(x), k, mode, level) == items_from(s, k, mode, level) + separator(
            mode,
            level,
        ) + json_text(x, mode, level + 1),
    decreases s.len() - k,
{
    if k == s.len() {
        assert(items_from(s.push(x), k + 1, mode, level) == Seq::<char>::empty());
        assert(items_from(s, k, mode, level) == Seq::<char>::empty());
        assert(s.push(x)[k] == x);
        assert(items_from(s.push(x), k, mode, level) =~= items_from(s, k, mode, level)
            + separator(mode, level) + json_text(x, mode, level + 1));
    } else {
        lemma_items_from_push(s, x, k + 1, mode, level);
        assert(s.push(x)[k] == s[k]);
        assert(items_from(s.push(x), k, mode, level) =~= items_from(s, k, mode, level)
            + separator(mode, level) + json_text(x, mode, level + 1));
    }
}

proof fn lemma_items_front(items: Seq<Tree>, mode: JsonMode, level: nat)
    requires
        items.len() >= 1,
    ensures
        items_text(items, mode, level) == json_text(items[0], mode, level + 1) + items_from(
            items,
            1,
            mode,
            level,
        ),
    decreases items.len(),
{
    if items.len() == 1 {
        assert(items_from(items, 1, mode, level) == Seq::<char>::empty());
        assert(items_text(items, mode, level) =~= json_text(items[0], mode, level + 1)
            + items_from(items, 1, mode, level));
    } else {
        let init = items.subrange(0, items.len() - 1);
        lemma_items_front(init, mode, level);
        lemma_items_from_push(init, items[items.len() - 1], 1, mode, level);
        assert(init.push(items[items.len() - 1]) =~= items);
        assert(init[0] == items[0]);
        assert(items_text(items, mode, level) =~= json_text(items[0], mode, level + 1)
            + items_from(items, 1, mode, level));
    }
}

proof fn lemma_entries_from_push(
    s: Seq<(Seq<char>, Tree)>,
    x: (Seq<char>, Tree),
    k: int,
    mode: JsonMode,
    level: nat,
)
    requires
        0 <= k <= s.len(),
    ensures
        entries_from(s.push(x), k, mode, level) == entries_from(s, k, mode, level) + separator(
            mode,
            level,
        ) + member_text(x, mode, level),
    decreases s.len() - k,
{
    if k == s.len() {
        assert(entries_from(s.push(x), k + 1, mode, level) == Seq::<char>::empty());
        assert(entries_from(s, k, mode, level) == Seq::<char>::empty());
        assert(s.push(x)[k] == x);
        assert(entries_from(s.push(x), k, mode, level) =~= entries_from(s, k, mode, level)
            + separator(mode, level) + member_text(x, mode, level));
    } else {
        lemma_entries_from_push(s, x, k + 1, mode, level);
        assert(s.push(x)[k] == s[k]);
        assert(entries_from(s.push(x), k, mode, level) =~= entries_from(s, k, mode, level)
            + separator(mode, level) + member_text(x, mode, level));
    }
}

proof fn lemma_entries_front(es: Seq<(Seq<char>, Tree)>, mode: JsonMode, level: nat)
    requires
        es.len() >= 1,
    ensures
        entries_text(es, mode, level) == member_text(es[0], mode, level) + entries_from(
            es,
            1,
            mode,
            level,
        ),
    decreases es.len(),
{
    if es.len() == 1 {
        assert(entries_from(es, 1, mode, level) == Seq::<char>::empty());
        assert(entries_text(es, mode, level) =~= member_text(es[0], mode, level) + entries_from(
            es,
            1,
            mode,
            level,
        ));
    } else {
        let init = es.subrange(0, es.len() - 1);
        lemma_entries_front(init, mode, level);
        lemma_entries_from_push(init, es[es.len() - 1], 1, mode, level);
        assert(init.push(es[es.len() - 1]) =~= es);
        assert(init[0] == es[0]);
        assert(entries_text(es, mode, level) =~= member_text(es[0], mode, level) + entries_from(
            es,
            1,
            mode,
            level,
        ));
    }
}

/// Values whose JSON text decodes back to an equal value: no undefined, no
/// dates, only finite floats within the range of 64-bit floats (whose
/// canonical exponent fits 32 bits), strings and keys without a backslash
/// right before a quote, and objects with unique keys.
pub open spec fn encodable(t: Tree) -> bool
    decreases t,
{
    match t {
        Tree::Null => true,
        Tree::Boolean(_) => true,
        Tree::Number(n) => encodable_number(n),
        Tree::String(s) => readable_text(s),
        Tree::Array(items) => forall|i: int|
            0 <= i < items.len() ==> encodable(#[trigger] items[i]),
        Tree::Object(es) => unique_keys(es) && forall|i: int|
            0 <= i < es.len() ==> readable_text((#[trigger] es[i]).0) && encodable(es[i].1),
        _ => false,
    }
}

/// Integers, and finite floats within the range of 64-bit floats whose
/// canonical exponent fits 32 bits.
pub open spec fn encodable_number(n: Number) -> bool {
    n.int_value() is Some || (n.float_value() is Finite && i32::MIN <= n.float_value().parts().2
        <= i32::MAX && in_float_range(n.float_value().parts().1, n.float_value().parts().2))
}

pub open spec fn all_ws(w: Seq<char>) -> bool {
    forall|k: int| 0 <= k < w.len() ==> is_ws(#[trigger] w[k])
}

/// A character that may follow a value inside the text of a container.
pub open spec fn is_follow(c: char) -> bool {
    c == ',' || c == ']' || c == '}' || c == '\n'
}

proof fn lemma_skip_ws_run(s: Seq<char>, p: int, q: int)
    requires
        0 <= p <= q <= s.len(),
        forall|k: int| p <= k < q ==> is_ws(#[trigger] s[k]),
        q == s.len() || !is_ws(s[q]),
    ensures
        skip_ws(s, p) == q,
    decreases q - p,
{
    if p < q {
        lemma_skip_ws_run(s, p + 1, q);
    }
}

/// Whitespace before a value does not change what is read.
proof fn lemma_parse_value_after_ws(s: Seq<char>, p: int, q: int)
    requires
        0 <= p <= q <= s.len(),
        forall|k: int| p <= k < q ==> is_ws(#[trigger] s[k]),
        q == s.len() || !is_ws(s[q]),
    ensures
        parse_value(s, p) == parse_value(s, q),
{
    lemma_skip_ws_run(s, p, q);
    lemma_skip_ws_run(s, q, q);
}

proof fn lemma_layout(mode: JsonMode, level: nat)
    ensures
        all_ws(opening(mode, level)),
        all_ws(closing(mode, level)),
        separator(mode, level).len() >= 1 && separator(mode, level)[0] == ',' && all_ws(
            separator(mode, level).drop_first(),
        ),
        colon(mode).len() >= 1 && colon(mode)[0] == ':' && all_ws(colon(mode).drop_first()),
        closing(mode, level).len() == 0 || closing(mode, level)[0] == '\n',
{
    match mode {
        JsonMode::Inline => {
            assert(separator(mode, level).drop_first() =~= Seq::<char>::empty());
            assert(colon(mode).drop_first() =~= Seq::<char>::empty());
        },
        JsonMode::Indented => {
            assert(separator(mode, level).drop_first() =~= seq!['\n'] + crate::json::indent(
                level + 1,
            ));
            assert(colon(mode).drop_first() =~= seq![' ']);
        },
    }
}

proof fn lemma_decimal(n: nat)
    ensures
        decimal(n).len() >= 1,
        forall|k: int| 0 <= k < decimal(n).len() ==> is_digit(#[trigger] decimal(n)[k]),
        digits_value(decimal(n)) == n,
        decimal(n)[0] == '0' ==> n == 0 && decimal(n).len() == 1,
    decreases n,
{
    assert(digit_val(digit_of(n % 10)) == n % 10) by {
        assert(('0' as u8) == 48);
        assert(((48 + (n % 10) as u8) as u8) as char as u32 == 48 + n % 10);
    }
    if n < 10 {
        assert(decimal(n) == seq![digit_of(n)]);
        assert(seq![digit_of(n)].drop_last() =~= Seq::<char>::empty());
        assert(digits_value(Seq::<char>::empty()) == 0);
    } else {
        lemma_decimal(n / 10);
        let d = decimal(n / 10);
        assert(decimal(n) == d.push(digit_of(n % 10)));
        assert(d.push(digit_of(n % 10)).drop_last() =~= d);
        assert(decimal(n)[0] == d[0]);
    }
}

proof fn lemma_digits_end_at(s: Seq<char>, i: int, j: int)
    requires
        0 <= i <= j <= s.len(),
        forall|k: int| i <= k < j ==> is_digit(#[trigger] s[k]),
        j == s.len() || !is_digit(s[j]),
    ensures
        digits_end(s, i) == j,
    decreases j - i,
{
    if i < j {
        lemma_digits_end_at(s, i + 1, j);
    }
}

pub open spec fn may_follow(post: Seq<char>) -> bool {
    post.len() == 0 || is_follow(post[0])
}

/// The text of an integer, wherever it stands, reads back as that integer.
proof fn lemma_int_at(pre: Seq<char>, x: int, post: Seq<char>)
    requires
        i128::MIN <= x <= u128::MAX,
        may_follow(post),
    ensures
        parse_value(pre + int_text(x) + post, pre.len() as int) == Some(
            (Tree::Number(narrowest(x)->0), (pre.len() + int_text(x).len()) as int),
        ),
        narrowest(x) matches Some(n) && n.int_value() == Some(x),
{
    let mag: nat = if x < 0 {
        (-x) as nat
    } else {
        x as nat
    };
    lemma_decimal(mag);
    let ds = decimal(mag);
    let t = int_text(x);
    let s = pre + t + post;
    let i = pre.len() as int;
    let a: int = if x < 0 {
        i + 1
    } else {
        i
    };
    let end = i + t.len();
    assert(s.subrange(a, end) =~= ds);
    assert(forall|k: int| a <= k < end ==> is_digit(#[trigger] s[k])) by {
        assert forall|k: int| a <= k < end implies is_digit(#[trigger] s[k]) by {
            assert(s[k] == ds[k - a]);
        }
    }
    if end < s.len() {
        assert(s[end] == post[0]);
    }
    lemma_digits_end_at(s, a, end);
    assert(s[a] == ds[0]);
    assert(s[i] == t[0]);
    let sh = number_shape(s, i)->0;
    assert(number_shape(s, i) is Some);
    assert(sh.b == end);
    assert(!sh.frac && !sh.exp);
    assert(s.subrange(sh.a, sh.b) =~= ds);
    assert(parse_number(s, i) == Some((Tree::Number(narrowest(x)->0), end)));
    lemma_skip_ws_run(s, i, i);
    assert(!has_word(s, i, seq!['t', 'r', 'u', 'e'])) by {
        if has_word(s, i, seq!['t', 'r', 'u', 'e']) {
            assert(s.subrange(i, i + 4)[0] == s[i]);
        }
    }
    assert(!has_word(s, i, seq!['f', 'a', 'l', 's', 'e'])) by {
        if has_word(s, i, seq!['f', 'a', 'l', 's', 'e']) {
            assert(s.subrange(i, i + 5)[0] == s[i]);
        }
    }
    assert(!has_word(s, i, seq!['n', 'u', 'l', 'l'])) by {
        if has_word(s, i, seq!['n', 'u', 'l', 'l']) {
            assert(s.subrange(i, i + 4)[0] == s[i]);
        }
    }
}

/// No backslash in the text stands right before a quote: such a pair is
/// written through unchanged and would read back as a lone quote.
pub open spec fn readable_text(s: Seq<char>) -> bool {
    forall|i: int| 0 <= i < s.len() - 1 ==> !(s[i] == '\\' && #[trigger] s[i + 1] == '"')
}

proof fn lemma_hex_digit(d: nat)
    requires
        d < 16,
    ensures
        crate::decode::hex_val(hex_digit(d)) == Some(d),
{
    if d < 10 {
        assert(('0' as u8) == 48);
        assert(((48 + (d % 10) as u8) as u8) as char as u32 == 48 + d);
    } else {
        assert(('a' as u8) == 97);
        assert(((97 + (d - 10) as u8) as u8) as char as u32 == 97 + d - 10);
    }
}

/// A control character written as `\u00XY` reads back as itself.
proof fn lemma_unicode_escape(s: Seq<char>, i: int, c: char)
    requires
        (c as u32) < 0x20,
        0 <= i,
        i + 6 <= s.len(),
        s.subrange(i, i + 6) == seq!['\\', 'u', '0', '0', hex_digit((c as u32 / 16) as nat), hex_digit(
            (c as u32 % 16) as nat,
        )],
    ensures
        crate::decode::hex4(s, i + 2) == Some(c as nat),
        crate::text::code_char(c as nat) == c,
{
    let hi = (c as u32 / 16) as nat;
    let lo = (c as u32 % 16) as nat;
    lemma_hex_digit(0);
    lemma_hex_digit(hi);
    lemma_hex_digit(lo);
    assert(s[i + 2] == s.subrange(i, i + 6)[2]);
    assert(s[i + 3] == s.subrange(i, i + 6)[3]);
    assert(s[i + 4] == s.subrange(i, i + 6)[4]);
    assert(s[i + 5] == s.subrange(i, i + 6)[5]);
    assert(hex_digit(0) == '0');
    let w = crate::text::code_char(c as nat);
    assert(crate::text::char_code(c) == c as nat);
    assert(crate::text::char_code(w) == c as nat);
}

/// The string reader takes back what the escaper wrote.
#[verifier::rlimit(100)]
#[verifier::spinoff_prover]
proof fn lemma_escaped_parses(pre: Seq<char>, r: Seq<char>, post: Seq<char>, acc: Seq<char>)
    requires
        readable_text(r),
    ensures
        parse_string(pre + escape(r) + seq!['"'] + post, pre.len() as int, acc) == Some(
            (acc + r, (pre.len() + escape(r).len() + 1) as int),
        ),
    decreases r.len(),
{
    let s = pre + escape(r) + seq!['"'] + post;
    let i = pre.len() as int;
    if r.len() == 0 {
        assert(escape(r) =~= Seq::<char>::empty());
        assert(s[i] == '"');
        assert(acc + r =~= acc);
    } else {
        let rest = r.subrange(1, r.len() as int);
        assert(readable_text(rest)) by {
            assert forall|k: int| 0 <= k < rest.len() - 1 implies !(rest[k] == '\\' && #[trigger] rest[k
                + 1] == '"') by {
                assert(rest[k] == r[k + 1]);
                assert(rest[k + 1] == r[k + 2]);
            }
        }
        if r.len() >= 2 {
            assert(!(r[0] == '\\' && r[1] == '"'));
        }
        assert(escape(r) == escape_char(r[0]) + escape(rest));
        let c = r[0];
        let ec = escape_char(c);
        let pre2 = pre + ec;
        lemma_escaped_parses(pre2, rest, post, acc.push(c));
        assert(s =~= pre2 + escape(rest) + seq!['"'] + post);
        assert(acc.push(c) + rest =~= acc + r);
        assert(s.subrange(i, i + ec.len()) =~= ec);
        assert(s[i] == ec[0]);
        if ec.len() >= 2 {
            assert(s[i + 1] == ec[1]);
        }
        if c != '"' && c != '\\' && c != '\n' && c != '\r' && c != '\t' && c != '\x08' && c
            != '\x0c' && (c as u32) < 0x20 {
            lemma_unicode_escape(s, i, c);
        }
    }
}

/// A quoted string, wherever it stands, reads back as its text.
proof fn lemma_quoted_at(pre: Seq<char>, r: Seq<char>, post: Seq<char>)
    requires
        readable_text(r),
    ensures
        parse_string(pre + quoted(r) + post, pre.len() + 1int, Seq::empty()) == Some(
            (r, (pre.len() + quoted(r).len()) as int),
        ),
        (pre + quoted(r) + post)[pre.len() as int] == '"',
{
    lemma_escaped_parses(pre.push('"'), r, post, Seq::empty());
    assert(pre + quoted(r) + post =~= pre.push('"') + escape(r) + seq!['"'] + post);
    assert(Seq::<char>::empty() + r =~= r);
}

/// The text of an encodable value is not empty and starts with a character
/// that is neither whitespace nor a closing bracket nor a comma.
proof fn lemma_text_start(t: Tree, mode: JsonMode, level: nat)
    requires
        encodable(t),
    ensures
        json_text(t, mode, level).len() >= 1,
        !is_ws(json_text(t, mode, level)[0]),
        json_text(t, mode, level)[0] != ']',
        json_text(t, mode, level)[0] != '}',
        json_text(t, mode, level)[0] != ',',
{
    match t {
        Tree::Number(n) => {
            if n.int_value() is Some {
                let x = n.int_value()->0;
                let mag: nat = if x < 0 {
                    (-x) as nat
                } else {
                    x as nat
                };
                lemma_decimal(mag);
                if x < 0 {
                    assert(int_text(x)[0] == '-');
                } else {
                    assert(int_text(x)[0] == decimal(mag)[0]);
                }
            } else {
                let f = n.float_value();
                let (neg, mant, ex) = match f {
                    Float::Finite { negative, mantissa, exponent } => (negative, mantissa, exponent),
                    _ => (false, 0u128, 0i32),
                };
                lemma_strip_canonical(mant as nat, ex as int);
                lemma_point_text(f.parts().1, f.parts().2);
                let ip = int_part(f.parts().1, f.parts().2);
                if neg {
                    assert(float_text(f)[0] == '-');
                } else {
                    assert(float_text(f)[0] == ip[0]);
                }
            }
        },
        _ => {},
    }
}

/// The text of an encodable value, wherever it stands and whatever may follow
/// it inside a container, reads back as an equal value ending where the text
/// ends.
#[verifier::rlimit(100)]
#[verifier::spinoff_prover]
proof fn lemma_value_at(t: Tree, mode: JsonMode, level: nat, pre: Seq<char>, post: Seq<char>)
    requires
        encodable(t),
        may_follow(post),
    ensures
        parse_value(pre + json_text(t, mode, level) + post, pre.len() as int) matches Some((u, k))
            && u.same(t) && k == pre.len() + json_text(t, mode, level).len(),
    decreases t, 2nat,
{
    let text = json_text(t, mode, level);
    let s = pre + text + post;
    let i = pre.len() as int;
    lemma_text_start(t, mode, level);
    assert(s[i] == text[0]);
    lemma_skip_ws_run(s, i, i);
    match t {
        Tree::Null => {
            assert(s.subrange(i, i + 4) =~= seq!['n', 'u', 'l', 'l']);
            assert(!has_word(s, i, seq!['t', 'r', 'u', 'e'])) by {
                if has_word(s, i, seq!['t', 'r', 'u', 'e']) {
                    assert(s.subrange(i, i + 4)[0] == s[i]);
                }
            }
            assert(!has_word(s, i, seq!['f', 'a', 'l', 's', 'e'])) by {
                if has_word(s, i, seq!['f', 'a', 'l', 's', 'e']) {
                    assert(s.subrange(i, i + 5)[0] == s[i]);
                }
            }
        },
        Tree::Boolean(b) => {
            if b {
                assert(s.subrange(i, i + 4) =~= seq!['t', 'r', 'u', 'e']);
            } else {
                assert(s.subrange(i, i + 5) =~= seq!['f', 'a', 'l', 's', 'e']);
                assert(!has_word(s, i, seq!['t', 'r', 'u', 'e'])) by {
                    if has_word(s, i, seq!['t', 'r', 'u', 'e']) {
                        assert(s.subrange(i, i + 4)[0] == s[i]);
                    }
                }
            }
        },
        Tree::Number(n) => {
            if n.int_value() is Some {
                lemma_int_at(pre, n.int_value()->0, post);
            } else {
                lemma_float_at(pre, n.float_value(), post);
            }
        },
        Tree::String(str) => {
            lemma_quoted_at(pre, str, post);
        },
        Tree::Array(items) => {
            lemma_array_at(t, mode, level, pre, post);
        },
        Tree::Object(es) => {
            lemma_object_at(t, mode, level, pre, post);
        },
        _ => {},
    }
}

/// The array case of `lemma_value_at`.
#[verifier::rlimit(100)]
#[verifier::spinoff_prover]
proof fn lemma_array_at(t: Tree, mode: JsonMode, level: nat, pre: Seq<char>, post: Seq<char>)
    requires
        t is Array,
        encodable(t),
        may_follow(post),
    ensures
        parse_value(pre + json_text(t, mode, level) + post, pre.len() as int) matches Some((u, k))
            && u.same(t) && k == pre.len() + json_text(t, mode, level).len(),
    decreases t, 1nat,
{
    let text = json_text(t, mode, level);
    let s = pre + text + post;
    let i = pre.len() as int;
    lemma_skip_ws_run(s, i, i);
    let items = t->Array_0;
    if items.len() == 0 {
        assert(s[i + 1] == ']');
        lemma_skip_ws_run(s, i + 1, i + 1);
    } else {
        lemma_layout(mode, level);
        lemma_items_front(items, mode, level);
        let o = opening(mode, level);
        let first = i + 1 + o.len();
        lemma_text_start(items[0], mode, level + 1);
        let rest = o + json_text(items[0], mode, level + 1) + items_from(
            items,
            1,
            mode,
            level,
        ) + closing(mode, level) + seq![']'];
        assert(s =~= pre.push('[') + rest + post);
        assert(s[first] == json_text(items[0], mode, level + 1)[0]);
        lemma_skip_ws_run(s, i + 1, first);
        lemma_items_at(items, 0, mode, level, pre.push('['), o, post, Seq::empty());
    }
}

/// The object case of `lemma_value_at`.
#[verifier::rlimit(100)]
#[verifier::spinoff_prover]
proof fn lemma_object_at(t: Tree, mode: JsonMode, level: nat, pre: Seq<char>, post: Seq<char>)
    requires
        t is Object,
        encodable(t),
        may_follow(post),
    ensures
        parse_value(pre + json_text(t, mode, level) + post, pre.len() as int) matches Some((u, k))
            && u.same(t) && k == pre.len() + json_text(t, mode, level).len(),
    decreases t, 1nat,
{
    let text = json_text(t, mode, level);
    let s = pre + text + post;
    let i = pre.len() as int;
    lemma_skip_ws_run(s, i, i);
    let es = t->Object_0;
    if es.len() == 0 {
        assert(s[i + 1] == '}');
        lemma_skip_ws_run(s, i + 1, i + 1);
    } else {
        lemma_layout(mode, level);
        lemma_entries_front(es, mode, level);
        let o = opening(mode, level);
        let first = i + 1 + o.len();
        let rest = o + member_text(es[0], mode, level) + entries_from(es, 1, mode, level)
            + closing(mode, level) + seq!['}'];
        assert(s =~= pre.push('{') + rest + post);
        assert(s[first] == '"');
        lemma_skip_ws_run(s, i + 1, first);
        lemma_members_at(es, 0, mode, level, pre.push('{'), o, post, Seq::empty());
    }
}

/// Reading one element after whitespace.
#[verifier::rlimit(100)]
#[verifier::spinoff_prover]
proof fn lemma_item_head(t: Tree, mode: JsonMode, level: nat, pre: Seq<char>, ws: Seq<char>, post: Seq<char>)
    requires
        encodable(t),
        all_ws(ws),
        may_follow(post),
    ensures
        parse_value(pre + ws + json_text(t, mode, level) + post, pre.len() as int) matches Some((u, e))
            && u.same(t) && e == pre.len() + ws.len() + json_text(t, mode, level).len(),
    decreases t, 3nat,
{
    let jt = json_text(t, mode, level);
    let s = pre + ws + jt + post;
    let p = pre.len() as int;
    let vs = p + ws.len();
    lemma_text_start(t, mode, level);
    assert(s[vs] == jt[0]);
    assert forall|x: int| p <= x < vs implies is_ws(#[trigger] s[x]) by {
        assert(s[x] == ws[x - p]);
    }
    lemma_parse_value_after_ws(s, p, vs);
    assert(s =~= (pre + ws) + jt + post);
    lemma_value_at(t, mode, level, pre + ws, post);
}

/// The elements of an array from the `k`-th on, preceded by whitespace, read
/// back as equal elements after the equal elements `acc`.
#[verifier::rlimit(100)]
#[verifier::spinoff_prover]
proof fn lemma_items_at(
    items: Seq<Tree>,
    k: int,
    mode: JsonMode,
    level: nat,
    pre: Seq<char>,
    ws: Seq<char>,
    post: Seq<char>,
    acc: Seq<Tree>,
)
    requires
        0 <= k < items.len(),
        forall|j: int| 0 <= j < items.len() ==> encodable(#[trigger] items[j]),
        all_ws(ws),
        acc.len() == k,
        forall|j: int| 0 <= j < k ==> (#[trigger] acc[j]).same(items[j]),
        may_follow(post),
    ensures
        parse_items(
            pre + (ws + json_text(items[k], mode, level + 1) + items_from(items, k + 1, mode, level)
                + closing(mode, level) + seq![']']) + post,
            pre.len() as int,
            acc,
        ) matches Some((u, e)) && u.same(Tree::Array(items)) && e == pre.len() + (ws + json_text(
            items[k],
            mode,
            level + 1,
        ) + items_from(items, k + 1, mode, level) + closing(mode, level) + seq![']']).len(),
    decreases items, items.len() - k,
{
    lemma_layout(mode, level);
    let jt = json_text(items[k], mode, level + 1);
    let tail = items_from(items, k + 1, mode, level);
    let c = closing(mode, level);
    let rest = ws + jt + tail + c + seq![']'];
    let s = pre + rest + post;
    let p = pre.len() as int;
    let vs = p + ws.len();
    let post2 = tail + c + seq![']'] + post;
    assert(may_follow(post2)) by {
        if k + 1 < items.len() {
            assert(post2[0] == ',');
        } else {
            assert(tail =~= Seq::<char>::empty());
            if c.len() > 0 {
                assert(post2[0] == '\n');
            } else {
                assert(post2[0] == ']');
            }
        }
    }
    assert(s =~= pre + ws + jt + post2);
    lemma_item_head(items[k], mode, level + 1, pre, ws, post2);
    let pr = parse_value(s, p)->0;
    let u = pr.0;
    let e = vs + jt.len();
    let acc2 = acc.push(u);
    if k + 1 < items.len() {
        let sep = separator(mode, level);
        let jt2 = json_text(items[k + 1], mode, level + 1);
        assert(tail == sep + jt2 + items_from(items, k + 2, mode, level));
        assert(s[e] == ',');
        lemma_skip_ws_run(s, e, e);
        let pre2 = pre + ws + jt + seq![','];
        let ws2 = sep.drop_first();
        assert(sep =~= seq![','] + ws2);
        assert(s =~= pre2 + (ws2 + jt2 + items_from(items, k + 2, mode, level) + c + seq![']'])
            + post);
        lemma_items_at(items, k + 1, mode, level, pre2, ws2, post, acc2);
    } else {
        assert(tail =~= Seq::<char>::empty());
        let m = e + c.len();
        assert forall|x: int| e <= x < m implies is_ws(#[trigger] s[x]) by {
            assert(s[x] == c[x - e]);
        }
        assert(s[m] == ']');
        lemma_skip_ws_run(s, e, m);
        lemma_array_same(items, acc, u);
    }
}

/// Elements equal one by one make equal arrays.
proof fn lemma_array_same(items: Seq<Tree>, acc: Seq<Tree>, u: Tree)
    requires
        acc.len() + 1 == items.len(),
        forall|j: int| 0 <= j < acc.len() ==> (#[trigger] acc[j]).same(items[j]),
        u.same(items[acc.len() as int]),
    ensures
        Tree::Array(acc.push(u)).same(Tree::Array(items)),
{
    let acc2 = acc.push(u);
    assert forall|j: int| 0 <= j < acc2.len() implies (#[trigger] acc2[j]).same(items[j]) by {
        if j < acc.len() {
            assert(acc2[j] == acc[j]);
        }
    }
}

/// An object whose members have the keys of `es` in order and values equal
/// to those of `es` equals the object `es`.
proof fn lemma_object_same(es: Seq<(Seq<char>, Tree)>, acc: Seq<(Seq<char>, Tree)>)
    requires
        unique_keys(es),
        acc.len() == es.len(),
        forall|j: int| 0 <= j < acc.len() ==> (#[trigger] acc[j]).0 == es[j].0 && acc[j].1.same(es[j].1),
    ensures
        Tree::Object(acc).same(Tree::Object(es)),
{
    assert forall|j: int| 0 <= j < acc.len() implies has_key(es, (#[trigger] acc[j]).0) && acc[j].1.same(
        es[key_index(es, acc[j].0)].1,
    ) by {
        assert(acc[j].0 == es[j].0);
        assert(has_key(es, es[j].0));
        let x = key_index(es, es[j].0);
        assert(es[x].0 == es[j].0);
        if x != j {
            if x < j {
                assert(es[x].0 != es[j].0);
            } else {
                assert(es[j].0 != es[x].0);
            }
        }
    }
}

/// A key that comes after the keys already read is new to them.
proof fn lemma_new_key(es: Seq<(Seq<char>, Tree)>, k: int, acc: Seq<(Seq<char>, Tree)>)
    requires
        unique_keys(es),
        0 <= k < es.len(),
        acc.len() == k,
        forall|j: int| 0 <= j < k ==> (#[trigger] acc[j]).0 == es[j].0,
    ensures
        insert_entry(acc, es[k].0, es[k].1) == acc.push((es[k].0, es[k].1)),
        forall|v: Tree| #[trigger] insert_entry(acc, es[k].0, v) == acc.push((es[k].0, v)),
{
    assert(!has_key(acc, es[k].0)) by {
        if has_key(acc, es[k].0) {
            let j = choose|j: int| 0 <= j < acc.len() && acc[j].0 == es[k].0;
            assert(es[j].0 == es[k].0);
        }
    }
}

/// Reading one member: whitespace, the quoted key, the colon, and the value.
#[verifier::rlimit(100)]
#[verifier::spinoff_prover]
proof fn lemma_member_head(
    e: (Seq<char>, Tree),
    mode: JsonMode,
    level: nat,
    pre: Seq<char>,
    ws: Seq<char>,
    post: Seq<char>,
)
    requires
        readable_text(e.0),
        encodable(e.1),
        all_ws(ws),
        may_follow(post),
    ensures
        ({
            let s = pre + ws + member_text(e, mode, level) + post;
            let qs = (pre.len() + ws.len()) as int;
            let k2 = qs + quoted(e.0).len() as int;
            &&& skip_ws(s, pre.len() as int) == qs
            &&& s[qs] == '"'
            &&& parse_string(s, qs + 1, Seq::empty()) == Some((e.0, k2))
            &&& skip_ws(s, k2) == k2
            &&& s[k2] == ':'
            &&& parse_value(s, k2 + 1) matches Some((u, end)) && u.same(e.1) && end == s.len()
                - post.len()
        }),
    decreases e.1, 3nat,
{
    lemma_layout(mode, level);
    let q = quoted(e.0);
    let col = colon(mode);
    let jt = json_text(e.1, mode, level + 1);
    let s = pre + ws + member_text(e, mode, level) + post;
    let p = pre.len() as int;
    let qs = p + ws.len();
    assert(s =~= (pre + ws) + q + (col + jt + post));
    lemma_quoted_at(pre + ws, e.0, col + jt + post);
    assert forall|x: int| p <= x < qs implies is_ws(#[trigger] s[x]) by {
        assert(s[x] == ws[x - p]);
    }
    lemma_skip_ws_run(s, p, qs);
    let k2 = qs + q.len();
    assert(s[k2] == ':');
    lemma_skip_ws_run(s, k2, k2);
    let vs = k2 + col.len();
    lemma_text_start(e.1, mode, level + 1);
    assert(s[vs] == jt[0]);
    assert forall|x: int| k2 + 1 <= x < vs implies is_ws(#[trigger] s[x]) by {
        assert(s[x] == col.drop_first()[x - k2 - 1]);
    }
    lemma_parse_value_after_ws(s, k2 + 1, vs);
    assert(s =~= (pre + ws + q + col) + jt + post);
    lemma_value_at(e.1, mode, level + 1, pre + ws + q + col, post);
}

/// The members of an object from the `k`-th on, preceded by whitespace, read
/// back as equal members after the equal members `acc`.
#[verifier::rlimit(100)]
#[verifier::spinoff_prover]
proof fn lemma_members_at(
    es: Seq<(Seq<char>, Tree)>,
    k: int,
    mode: JsonMode,
    level: nat,
    pre: Seq<char>,
    ws: Seq<char>,
    post: Seq<char>,
    acc: Seq<(Seq<char>, Tree)>,
)
    requires
        0 <= k < es.len(),
        unique_keys(es),
        forall|j: int| 0 <= j < es.len() ==> readable_text((#[trigger] es[j]).0) && encodable(es[j].1),
        all_ws(ws),
        acc.len() == k,
        forall|j: int| 0 <= j < k ==> (#[trigger] acc[j]).0 == es[j].0 && acc[j].1.same(es[j].1),
        may_follow(post),
    ensures
        parse_members(
            pre + (ws + member_text(es[k], mode, level) + entries_from(es, k + 1, mode, level)
                + closing(mode, level) + seq!['}']) + post,
            pre.len() as int,
            acc,
        ) matches Some((u, e)) && u.same(Tree::Object(es)) && e == pre.len() + (ws + member_text(
            es[k],
            mode,
            level,
        ) + entries_from(es, k + 1, mode, level) + closing(mode, level) + seq!['}']).len(),
    decreases es, es.len() - k,
{
    lemma_layout(mode, level);
    let mt = member_text(es[k], mode, level);
    let tail = entries_from(es, k + 1, mode, level);
    let c = closing(mode, level);
    let s = pre + (ws + mt + tail + c + seq!['}']) + post;
    let post2 = tail + c + seq!['}'] + post;
    assert(may_follow(post2)) by {
        if k + 1 < es.len() {
            assert(post2[0] == ',');
        } else {
            assert(tail =~= Seq::<char>::empty());
            if c.len() > 0 {
                assert(post2[0] == '\n');
            } else {
                assert(post2[0] == '}');
            }
        }
    }
    assert(s =~= pre + ws + mt + post2);
    assert(decreases_to!(es => es[k].1)) by {
        assert(decreases_to!(es => es[k]));
    }
    lemma_member_head(es[k], mode, level, pre, ws, post2);
    let qs = (pre.len() + ws.len()) as int;
    let k2 = qs + quoted(es[k].0).len() as int;
    let pr = parse_value(s, k2 + 1)->0;
    let u = pr.0;
    let e = pr.1;
    assert(e == pre.len() + ws.len() + mt.len());
    lemma_new_key(es, k, acc);
    let acc2 = acc.push((es[k].0, u));
    assert(insert_entry(acc, es[k].0, u) == acc2);
    if k + 1 < es.len() {
        let sep = separator(mode, level);
        let mt2 = member_text(es[k + 1], mode, level);
        assert(tail == sep + mt2 + entries_from(es, k + 2, mode, level));
        assert(s[e] == ',');
        lemma_skip_ws_run(s, e, e);
        let pre2 = pre + ws + mt + seq![','];
        let ws2 = sep.drop_first();
        assert(sep =~= seq![','] + ws2);
        assert(s =~= pre2 + (ws2 + mt2 + entries_from(es, k + 2, mode, level) + c + seq!['}'])
            + post);
        lemma_members_at(es, k + 1, mode, level, pre2, ws2, post, acc2);
    } else {
        assert(tail =~= Seq::<char>::empty());
        let m = e + c.len();
        assert forall|x: int| e <= x < m implies is_ws(#[trigger] s[x]) by {
            assert(s[x] == c[x - e]);
        }
        assert(s[m] == '}');
        lemma_skip_ws_run(s, e, m);
        lemma_object_same(es, acc2);
    }
}

/// Encoding a value as JSON, in either layout, and decoding the text gives
/// back an equal value (numbers by value, objects up to entry order), for
/// values without undefined, dates or non-finite floats, whose floats lie in
/// the range of 64-bit floats with a canonical exponent that fits 32 bits, and
/// whose strings and keys hold no backslash right before a quote.
pub proof fn law_json_round_trip(t: Tree, mode: JsonMode)
    requires
        encodable(t),
    ensures
        json_parse(json_text(t, mode, 0)) matches Some(u) && u.same(t),
{
    let text = json_text(t, mode, 0);
    lemma_value_at(t, mode, 0, Seq::empty(), Seq::empty());
    assert(Seq::<char>::empty() + text + Seq::<char>::empty() =~= text);
    lemma_skip_ws_run(text, text.len() as int, text.len() as int);
}

/// The digits before the decimal point in `decimal_point_text(m, e)`.
pub open spec fn int_part(m: nat, e: int) -> Seq<char> {
    let ds = decimal(m);
    let n = ds.len() as int;
    if e >= 0 {
        ds + repeat_char('0', e as nat)
    } else if n > -e {
        ds.subrange(0, n + e)
    } else {
        seq!['0']
    }
}

/// The digits after the decimal point in `decimal_point_text(m, e)`.
pub open spec fn frac_part(m: nat, e: int) -> Seq<char> {
    let ds = decimal(m);
    let n = ds.len() as int;
    if e >= 0 {
        seq!['0']
    } else if n > -e {
        ds.subrange(n + e, n)
    } else {
        repeat_char('0', (-e - n) as nat) + ds
    }
}

pub open spec fn all_digits(d: Seq<char>) -> bool {
    forall|k: int| 0 <= k < d.len() ==> is_digit(#[trigger] d[k])
}

/// A canonical mantissa has no trailing zero, and zero has exponent zero.
pub open spec fn canonical(m: nat, e: int) -> bool {
    m % 10 != 0 || (m == 0 && e == 0)
}

proof fn lemma_strip_canonical(m: nat, e: int)
    ensures
        canonical(strip_zeros(m, e).0, strip_zeros(m, e).1),
        strip_zeros(m, e).0 <= m,
    decreases m,
{
    if m != 0 && m % 10 == 0 {
        lemma_strip_canonical(m / 10, e + 1);
    }
}

/// How the positional text of a canonical decimal splits, and what its digits
/// denote.
#[verifier::rlimit(100)]
#[verifier::spinoff_prover]
proof fn lemma_point_text(m: nat, e: int)
    requires
        canonical(m, e),
    ensures
        decimal_point_text(m, e) == int_part(m, e) + seq!['.'] + frac_part(m, e),
        int_part(m, e).len() >= 1,
        frac_part(m, e).len() >= 1,
        all_digits(int_part(m, e)),
        all_digits(frac_part(m, e)),
        int_part(m, e)[0] == '0' ==> int_part(m, e).len() == 1,
        strip_zeros(
            digits_value(int_part(m, e) + frac_part(m, e)),
            -(frac_part(m, e).len() as int),
        ) == (m, e),
{
    lemma_decimal(m);
    let ds = decimal(m);
    let n = ds.len() as int;
    let ip = int_part(m, e);
    let fp = frac_part(m, e);
    if e >= 0 {
        let z = repeat_char('0', e as nat);
        assert(decimal_point_text(m, e) =~= ip + seq!['.'] + fp);
        assert(ip[0] == ds[0]);
        if m == 0 {
            assert(ds.len() == 1);
            assert(e == 0);
            assert(z =~= Seq::<char>::empty());
        }
        assert(all_digits(ip)) by {
            assert forall|k: int| 0 <= k < ip.len() implies is_digit(#[trigger] ip[k]) by {
                if k < n {
                    assert(ip[k] == ds[k]);
                } else {
                    assert(ip[k] == z[k - n]);
                }
            }
        }
        assert(ip + fp =~= ds + (z + seq!['0']));
        let zz = z + seq!['0'];
        assert forall|k: int| 0 <= k < zz.len() implies #[trigger] zz[k] == '0' by {}
        lemma_digits_concat(ds, zz);
        lemma_digits_zeros(zz);
        if m == 0 {
            assert(digits_value(ip + fp) == 0) by (nonlinear_arith)
                requires
                    digits_value(ip + fp) == digits_value(ds) * pow10(zz.len()) + digits_value(zz),
                    digits_value(ds) == 0,
                    digits_value(zz) == 0,
            ;
        } else {
            lemma_strip_shift(m, zz.len(), -1);
            assert(zz.len() == e + 1);
        }
    } else if n > -e {
        assert(decimal_point_text(m, e) =~= ip + seq!['.'] + fp);
        assert(ip + fp =~= ds);
        assert(ip[0] == ds[0]);
        if m == 0 {
            assert(false);
        }
        assert(all_digits(ip)) by {
            assert forall|k: int| 0 <= k < ip.len() implies is_digit(#[trigger] ip[k]) by {
                assert(ip[k] == ds[k]);
            }
        }
        assert(all_digits(fp)) by {
            assert forall|k: int| 0 <= k < fp.len() implies is_digit(#[trigger] fp[k]) by {
                assert(fp[k] == ds[k + n + e]);
            }
        }
    } else {
        let z = repeat_char('0', (-e - n) as nat);
        assert(decimal_point_text(m, e) =~= ip + seq!['.'] + fp);
        assert(all_digits(fp)) by {
            assert forall|k: int| 0 <= k < fp.len() implies is_digit(#[trigger] fp[k]) by {
                if k < z.len() {
                    assert(fp[k] == z[k]);
                } else {
                    assert(fp[k] == ds[k - z.len()]);
                }
            }
        }
        let zz = seq!['0'] + z;
        assert(ip + fp =~= zz + ds);
        assert forall|k: int| 0 <= k < zz.len() implies #[trigger] zz[k] == '0' by {}
        lemma_digits_concat(zz, ds);
        lemma_digits_zeros(zz);
        assert(digits_value(ip + fp) == m) by (nonlinear_arith)
            requires
                digits_value(ip + fp) == digits_value(zz) * pow10(ds.len()) + digits_value(ds),
                digits_value(zz) == 0,
                digits_value(ds) == m,
        ;
        assert(fp.len() == -e);
        if m == 0 {
            assert(false);
        }
    }
}

/// A decimal literal with a point, wherever it stands, reads back as the
/// float of its digits.
#[verifier::rlimit(100)]
#[verifier::spinoff_prover]
proof fn lemma_float_literal_at(
    pre: Seq<char>,
    neg: bool,
    ip: Seq<char>,
    fp: Seq<char>,
    post: Seq<char>,
)
    requires
        ip.len() >= 1,
        fp.len() >= 1,
        all_digits(ip),
        all_digits(fp),
        ip[0] == '0' ==> ip.len() == 1,
        may_follow(post),
        strip_zeros(digits_value(ip + fp), -(fp.len() as int)).0 <= u128::MAX,
        i32::MIN <= strip_zeros(digits_value(ip + fp), -(fp.len() as int)).1 <= i32::MAX,
        in_float_range(
            strip_zeros(digits_value(ip + fp), -(fp.len() as int)).0,
            strip_zeros(digits_value(ip + fp), -(fp.len() as int)).1,
        ),
    ensures
        ({
            let sign = if neg {
                seq!['-']
            } else {
                Seq::<char>::empty()
            };
            let t = sign + ip + seq!['.'] + fp;
            let (m, e) = strip_zeros(digits_value(ip + fp), -(fp.len() as int));
            parse_value(pre + t + post, pre.len() as int) == Some(
                (
                    Tree::Number(
                        Number::F64(
                            Float::Finite { negative: neg, mantissa: m as u128, exponent: e as i32 },
                        ),
                    ),
                    (pre.len() + t.len()) as int,
                ),
            )
        }),
{
    let sign = if neg {
        seq!['-']
    } else {
        Seq::<char>::empty()
    };
    let t = sign + ip + seq!['.'] + fp;
    let s = pre + t + post;
    let i = pre.len() as int;
    let a = i + sign.len();
    let b = a + ip.len();
    let c = b + 1 + fp.len();
    assert(s[a] == ip[0]);
    assert(forall|k: int| a <= k < b ==> is_digit(#[trigger] s[k])) by {
        assert forall|k: int| a <= k < b implies is_digit(#[trigger] s[k]) by {
            assert(s[k] == ip[k - a]);
        }
    }
    assert(s[b] == '.');
    lemma_digits_end_at(s, a, b);
    assert(forall|k: int| b + 1 <= k < c ==> is_digit(#[trigger] s[k])) by {
        assert forall|k: int| b + 1 <= k < c implies is_digit(#[trigger] s[k]) by {
            assert(s[k] == fp[k - b - 1]);
        }
    }
    if c < s.len() {
        assert(s[c] == post[0]);
    }
    lemma_digits_end_at(s, b + 1, c);
    if neg {
        assert(s[i] == '-');
    } else {
        assert(s[i] == ip[0]);
    }
    assert(s.subrange(a, b) =~= ip);
    assert(s.subrange(b + 1, c) =~= fp);
    lemma_skip_ws_run(s, i, i);
    assert(!has_word(s, i, seq!['t', 'r', 'u', 'e'])) by {
        if has_word(s, i, seq!['t', 'r', 'u', 'e']) {
            assert(s.subrange(i, i + 4)[0] == s[i]);
        }
    }
    assert(!has_word(s, i, seq!['f', 'a', 'l', 's', 'e'])) by {
        if has_word(s, i, seq!['f', 'a', 'l', 's', 'e']) {
            assert(s.subrange(i, i + 5)[0] == s[i]);
        }
    }
    assert(!has_word(s, i, seq!['n', 'u', 'l', 'l'])) by {
        if has_word(s, i, seq!['n', 'u', 'l', 'l']) {
            assert(s.subrange(i, i + 4)[0] == s[i]);
        }
    }
    let sh = number_shape(s, i)->0;
    assert(number_shape(s, i) is Some);
    assert(sh.a == a && sh.b == b && sh.frac && sh.c == c && !sh.exp && sh.d == c);
}

/// The text of a finite float, wherever it stands, reads back as an equal
/// float.
proof fn lemma_float_at(pre: Seq<char>, f: Float, post: Seq<char>)
    requires
        f is Finite,
        i32::MIN <= f.parts().2 <= i32::MAX,
        in_float_range(f.parts().1, f.parts().2),
        may_follow(post),
    ensures
        parse_value(pre + float_text(f) + post, pre.len() as int) matches Some((u, k)) && u
            is Number && u->Number_0.int_value() is None && u->Number_0.float_value().same_value(f)
            && k == pre.len() + float_text(f).len(),
{
    let (neg, mant, ex) = match f {
        Float::Finite { negative, mantissa, exponent } => (negative, mantissa, exponent),
        _ => (false, 0u128, 0i32),
    };
    let pm = f.parts().1;
    let pe = f.parts().2;
    lemma_strip_canonical(mant as nat, ex as int);
    lemma_point_text(pm, pe);
    let ip = int_part(pm, pe);
    let fp = frac_part(pm, pe);
    let sign = if neg {
        seq!['-']
    } else {
        Seq::<char>::empty()
    };
    assert(float_text(f) =~= sign + ip + seq!['.'] + fp);
    lemma_float_literal_at(pre, neg, ip, fp, post);
    let g = Float::Finite { negative: neg, mantissa: pm as u128, exponent: pe as i32 };
    assert(strip_zeros(pm, pe) == (pm, pe));
    assert(g.parts() == f.parts());
}

} // verus!
