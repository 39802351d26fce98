use vstd::prelude::*;
use crate::number::{Float, Number};
use crate::text::{chars_of, push_all, push_str, string_of};
use crate::value::{Tree, Value};

verus! {

/// How JSON text is laid out.
#[derive(Clone, Copy, Debug, PartialEq, Eq, Structural)]
pub enum JsonMode {
    /// One entry per line, nested levels indented by two spaces.
    Indented,
    /// A single line without insignificant whitespace.
    Inline,
}

pub open spec fn digit_of(d: nat) -> char {
    (('0' as u8) + (d % 10) as u8) as char
}

/// The decimal digits of `n`, without leading zeros.
pub open spec fn decimal(n: nat) -> Seq<char>
    decreases n,
{
    if n < 10 {
        seq![digit_of(n)]
    } else {
        decimal(n / 10).push(digit_of(n % 10))
    }
}

pub open spec fn repeat_char(c: char, n: nat) -> Seq<char> {
    Seq::new(n, |i: int| c)
}

/// The text of an integer.
pub open spec fn int_text(x: int) -> Seq<char> {
    if x < 0 {
        seq!['-'] + decimal((-x) as nat)
    } else {
        decimal(x as nat)
    }
}

/// Positional decimal text of `m * 10^e`, always with a fractional part.
pub open spec fn decimal_point_text(m: nat, e: int) -> Seq<char> {
    let ds = decimal(m);
    let n = ds.len() as int;
    if e >= 0 {
        ds + repeat_char('0', e as nat) + seq!['.', '0']
    } else if n > -e {
        ds.subrange(0, n + e) + seq!['.'] + ds.subrange(n + e, n)
    } else {
        seq!['0', '.'] + repeat_char('0', (-e - n) as nat) + ds
    }
}

/// The text of a float: positional decimal notation; the non-finite values,
/// which JSON cannot express, render as `null`.
pub open spec fn float_text(f: Float) -> Seq<char> {
    match f {
        Float::Finite { negative, .. } => (if negative {
            seq!['-']
        } else {
            Seq::empty()
        }) + decimal_point_text(f.parts().1, f.parts().2),
        _ => seq!['n', 'u', 'l', 'l'],
    }
}

/// The text of a number: never quoted.
pub open spec fn number_text(n: Number) -> Seq<char> {
    match n.int_value() {
        Some(x) => int_text(x),
        None => float_text(n.float_value()),
    }
}

pub open spec fn hex_digit(d: nat) -> char {
    if d < 10 {
        digit_of(d)
    } else {
        (('a' as u8) + (d - 10) as u8) as char
    }
}

/// How one character is written inside a JSON string.
pub open spec fn escape_char(c: char) -> Seq<char> {
    if c == '"' {
        seq!['\\', '"']
    } else if c == '\\' {
        seq!['\\', '\\']
    } else if c == '\n' {
        seq!['\\', 'n']
    } else if c == '\r' {
        seq!['\\', 'r']
    } else if c == '\t' {
        seq!['\\', 't']
    } else if c == '\x08' {
        seq!['\\', 'b']
    } else if c == '\x0c' {
        seq!['\\', 'f']
    } else if (c as u32) < 0x20 {
        seq!['\\', 'u', '0', '0', hex_digit((c as u32 / 16) as nat), hex_digit((c as u32 % 16) as nat)]
    } else {
        seq![c]
    }
}

/// The body of a JSON string. A quote is escaped unless it already follows a
/// backslash, in which case the pair passes through unchanged; every other
/// character goes through `escape_char`.
pub open spec fn escape(s: Seq<char>) -> Seq<char>
    decreases s.len(),
{
    if s.len() == 0 {
        Seq::empty()
    } else if s.len() >= 2 && s[0] == '\\' && s[1] == '"' {
        seq!['\\', '"'] + escape(s.subrange(2, s.len() as int))
    } else {
        escape_char(s[0]) + escape(s.subrange(1, s.len() as int))
    }
}

pub open spec fn quoted(s: Seq<char>) -> Seq<char> {
    seq!['"'] + escape(s) + seq!['"']
}

/// Two spaces per nesting level.
pub open spec fn indent(level: nat) -> Seq<char> {
    repeat_char(' ', 2 * level)
}

/// What stands between two members of a container.
pub open spec fn separator(mode: JsonMode, level: nat) -> Seq<char> {
    match mode {
        JsonMode::Inline => seq![','],
        JsonMode::Indented => seq![',', '\n'] + indent(level + 1),
    }
}

/// What follows an opening bracket of a non-empty container.
pub open spec fn opening(mode: JsonMode, level: nat) -> Seq<char> {
    match mode {
        JsonMode::Inline => Seq::empty(),
        JsonMode::Indented => seq!['\n'] + indent(level + 1),
    }
}

/// What precedes the closing bracket of a non-empty container.
pub open spec fn closing(mode: JsonMode, level: nat) -> Seq<char> {
    match mode {
        JsonMode::Inline => Seq::empty(),
        JsonMode::Indented => seq!['\n'] + indent(level),
    }
}

pub open spec fn colon(mode: JsonMode) -> Seq<char> {
    match mode {
        JsonMode::Inline => seq![':'],
        JsonMode::Indented => seq![':', ' '],
    }
}

/// The JSON text of a value at nesting depth `level`.
pub open spec fn json_text(t: Tree, mode: JsonMode, level: nat) -> Seq<char>
    decreases t,
{
    match t {
        Tree::Null => seq!['n', 'u', 'l', 'l'],
        Tree::Undefined => seq!['u', 'n', 'd', 'e', 'f', 'i', 'n', 'e', 'd'],
        Tree::Boolean(b) => if b {
            seq!['t', 'r', 'u', 'e']
        } else {
            seq!['f', 'a', 'l', 's', 'e']
        },
        Tree::Number(n) => number_text(n),
        Tree::String(s) => quoted(s),
        Tree::DateTime(d) => seq!['"'] + d.iso_text() + seq!['"'],
        Tree::Array(items) => if items.len() == 0 {
            seq!['[', ']']
        } else {
            seq!['['] + opening(mode, level) + items_text(items, mode, level) + closing(
                mode,
                level,
            ) + seq![']']
        },
        Tree::Object(entries) => if entries.len() == 0 {
            seq!['{', '}']
        } else {
            seq!['{'] + opening(mode, level) + entries_text(entries, mode, level) + closing(
                mode,
                level,
            ) + seq!['}']
        },
    }
}

/// The members of an array, separated.
pub open spec fn items_text(items: Seq<Tree>, mode: JsonMode, level: nat) -> Seq<char>
    decreases items,
{
    if items.len() == 0 {
        Seq::empty()
    } else if items.len() == 1 {
        json_text(items[0], mode, level + 1)
    } else {
        items_text(items.subrange(0, items.len() - 1), mode, level) + separator(mode, level)
            + json_text(items[items.len() - 1], mode, level + 1)
    }
}

/// The members of an object, separated.
pub open spec fn entries_text(entries: Seq<(Seq<char>, Tree)>, mode: JsonMode, level: nat) -> Seq<
    char,
>
    decreases entries,
{
    if entries.len() == 0 {
        Seq::empty()
    } else if entries.len() == 1 {
        quoted(entries[0].0) + colon(mode) + json_text(entries[0].1, mode, level + 1)
    } else {
        entries_text(entries.subrange(0, entries.len() - 1), mode, level) + separator(mode, level)
            + quoted(entries[entries.len() - 1].0) + colon(mode) + json_text(
            entries[entries.len() - 1].1,
            mode,
            level + 1,
        )
    }
}

pub fn digit_exec(d: u128) -> (r: char)
    requires
        d < 10,
    ensures
        r == digit_of(d as nat),
{
    (('0' as u8) + d as u8) as char
}

/// Appends the decimal digits of `n`.
pub fn push_decimal(out: &mut Vec<char>, n: u128)
    ensures
        final(out)@ == old(out)@ + decimal(n as nat),
    decreases n,
{
    if n < 10 {
        out.push(digit_exec(n));
    } else {
        push_decimal(out, n / 10);
        out.push(digit_exec(n % 10));
    }
    proof {
        assert(final(out)@ =~= old(out)@ + decimal(n as nat));
    }
}

/// Appends `n` copies of `c`.
pub fn push_repeat(out: &mut Vec<char>, c: char, n: u64)
    ensures
        final(out)@ == old(out)@ + repeat_char(c, n as nat),
{
    let mut i: u64 = 0;
    while i < n
        invariant
            i <= n,
            out@ == old(out)@ + repeat_char(c, i as nat),
        decreases n - i,
    {
        out.push(c);
        i = i + 1;
        proof {
            assert(repeat_char(c, i as nat) =~= repeat_char(c, (i - 1) as nat).push(c));
        }
    }
}

/// Appends the text of a number.
pub fn push_number(out: &mut Vec<char>, n: &Number)
    ensures
        final(out)@ == old(out)@ + number_text(*n),
{
    if n.is_integer() {
        let (neg, mag) = n.magnitude();
        if neg {
            out.push('-');
        }
        push_decimal(out, mag);
        proof {
            if neg {
                assert(final(out)@ =~= old(out)@ + (seq!['-'] + decimal(mag as nat)));
            }
        }
        return;
    }
    match n.to_float() {
        None => {
            push_float(out, &Float::NaN);
        },
        Some(f) => {
            push_float(out, &f);
        },
    }
}

/// Appends `ds` with a decimal point inserted before position `cut`.
fn push_split(out: &mut Vec<char>, ds: &Vec<char>, cut: usize)
    requires
        cut <= ds@.len(),
    ensures
        final(out)@ == old(out)@ + ds@.subrange(0, cut as int) + seq!['.'] + ds@.subrange(
            cut as int,
            ds@.len() as int,
        ),
{
    let n = ds.len();
    let mut i: usize = 0;
    while i < cut
        invariant
            i <= cut,
            cut <= n,
            n == ds@.len(),
            out@ == old(out)@ + ds@.subrange(0, i as int),
        decreases cut - i,
    {
        out.push(ds[i]);
        i = i + 1;
        proof {
            assert(ds@.subrange(0, i as int) =~= ds@.subrange(0, i - 1).push(ds@[i - 1]));
        }
    }
    out.push('.');
    let ghost mid = out@;
    while i < n
        invariant
            cut <= i <= n,
            n == ds@.len(),
            out@ == mid + ds@.subrange(cut as int, i as int),
        decreases n - i,
    {
        out.push(ds[i]);
        i = i + 1;
        proof {
            assert(ds@.subrange(cut as int, i as int) =~= ds@.subrange(cut as int, i - 1).push(
                ds@[i - 1],
            ));
        }
    }
    proof {
        assert(final(out)@ =~= old(out)@ + ds@.subrange(0, cut as int) + seq!['.']
            + ds@.subrange(cut as int, ds@.len() as int));
    }
}

/// Appends the positional text of `m * 10^e`.
fn push_decimal_point(out: &mut Vec<char>, m: u128, e: i64)
    ensures
        final(out)@ == old(out)@ + decimal_point_text(m as nat, e as int),
{
    let mut ds: Vec<char> = Vec::new();
    push_decimal(&mut ds, m);
    assert(ds@ =~= decimal(m as nat));
    let n = ds.len();
    if e >= 0 {
        push_all(out, &ds);
        push_repeat(out, '0', e as u64);
        out.push('.');
        out.push('0');
    } else if n as i128 > -(e as i128) {
        push_split(out, &ds, (n as i128 + e as i128) as usize);
    } else {
        out.push('0');
        out.push('.');
        push_repeat(out, '0', (-(e as i128) - n as i128) as u64);
        push_all(out, &ds);
    }
    proof {
        assert(final(out)@ =~= old(out)@ + decimal_point_text(m as nat, e as int));
    }
}

/// Appends the text of a float.
pub fn push_float(out: &mut Vec<char>, f: &Float)
    ensures
        final(out)@ == old(out)@ + float_text(*f),
{
    match *f {
        Float::Finite { negative, .. } => {
            if negative {
                out.push('-');
            }
            let (_, m, e) = f.canonical();
            push_decimal_point(out, m, e);
            proof {
                assert(final(out)@ =~= old(out)@ + float_text(*f));
            }
        },
        _ => {
            push_str(out, "null");
            proof {
                reveal_strlit("null");
                assert(final(out)@ =~= old(out)@ + float_text(*f));
            }
        },
    }
}

fn hex_exec(d: u32) -> (r: char)
    requires
        d < 16,
    ensures
        r == hex_digit(d as nat),
{
    if d < 10 {
        (('0' as u8) + d as u8) as char
    } else {
        (('a' as u8) + (d - 10) as u8) as char
    }
}

/// Appends the escaped form of one character.
fn push_escaped_char(out: &mut Vec<char>, c: char)
    ensures
        final(out)@ == old(out)@ + escape_char(c),
{
    if c == '"' {
        out.push('\\');
        out.push('"');
    } else if c == '\\' {
        out.push('\\');
        out.push('\\');
    } else if c == '\n' {
        out.push('\\');
        out.push('n');
    } else if c == '\r' {
        out.push('\\');
        out.push('r');
    } else if c == '\t' {
        out.push('\\');
        out.push('t');
    } else if c == '\x08' {
        out.push('\\');
        out.push('b');
    } else if c == '\x0c' {
        out.push('\\');
        out.push('f');
    } else if (c as u32) < 0x20 {
        out.push('\\');
        out.push('u');
        out.push('0');
        out.push('0');
        out.push(hex_exec(c as u32 / 16));
        out.push(hex_exec(c as u32 % 16));
    } else {
        out.push(c);
    }
    proof {
        assert(final(out)@ =~= old(out)@ + escape_char(c));
    }
}

/// Appends the escaped body of a string.
pub fn push_escaped(out: &mut Vec<char>, cs: &Vec<char>)
    ensures
        final(out)@ == old(out)@ + escape(cs@),
{
    let n = cs.len();
    let mut i: usize = 0;
    proof {
        assert(cs@.subrange(0, n as int) =~= cs@);
    }
    while i < n
        invariant
            i <= n,
            n == cs@.len(),
            old(out)@ + escape(cs@) == out@ + escape(cs@.subrange(i as int, n as int)),
        decreases n - i,
    {
        let ghost rest = cs@.subrange(i as int, n as int);
        if cs[i] == '\\' && i + 1 < n && cs[i + 1] == '"' {
            out.push('\\');
            out.push('"');
            proof {
                assert(rest.subrange(2, rest.len() as int) =~= cs@.subrange(i + 2, n as int));
                assert(escape(rest) == seq!['\\', '"'] + escape(rest.subrange(2, rest.len() as int)));
                assert(old(out)@ + escape(cs@) =~= out@ + escape(cs@.subrange(i + 2, n as int)));
            }
            i = i + 2;
        } else {
            let ghost before = out@;
            push_escaped_char(out, cs[i]);
            proof {
                assert(rest.subrange(1, rest.len() as int) =~= cs@.subrange(i + 1, n as int));
                assert(escape(rest) == escape_char(rest[0]) + escape(rest.subrange(1, rest.len() as int)));
                assert(old(out)@ + escape(cs@) =~= out@ + escape(cs@.subrange(i + 1, n as int)));
            }
            i = i + 1;
        }
    }
    proof {
        assert(cs@.subrange(n as int, n as int) =~= Seq::<char>::empty());
        assert(out@ + escape(Seq::<char>::empty()) =~= out@);
    }
}

/// Appends a quoted, escaped string.
fn push_quoted(out: &mut Vec<char>, s: &str)
    ensures
        final(out)@ == old(out)@ + quoted(s@),
{
    let cs = chars_of(s);
    out.push('"');
    push_escaped(out, &cs);
    out.push('"');
    proof {
        assert(final(out)@ =~= old(out)@ + quoted(s@));
    }
}

/// The indentation of the next nesting level.
fn deeper(pad: &Vec<char>, Ghost(level): Ghost<nat>) -> (r: Vec<char>)
    requires
        pad@ == indent(level),
    ensures
        r@ == indent(level + 1),
{
    let mut r: Vec<char> = Vec::new();
    push_all(&mut r, pad);
    r.push(' ');
    r.push(' ');
    proof {
        assert(r@ =~= indent(level + 1));
    }
    r
}

fn push_opening(out: &mut Vec<char>, mode: JsonMode, inner: &Vec<char>, Ghost(level): Ghost<nat>)
    requires
        inner@ == indent(level + 1),
    ensures
        final(out)@ == old(out)@ + opening(mode, level),
{
    if mode == JsonMode::Indented {
        out.push('\n');
        push_all(out, inner);
    }
    proof {
        assert(final(out)@ =~= old(out)@ + opening(mode, level));
    }
}

fn push_separator(out: &mut Vec<char>, mode: JsonMode, inner: &Vec<char>, Ghost(level): Ghost<nat>)
    requires
        inner@ == indent(level + 1),
    ensures
        final(out)@ == old(out)@ + separator(mode, level),
{
    out.push(',');
    if mode == JsonMode::Indented {
        out.push('\n');
        push_all(out, inner);
    }
    proof {
        assert(final(out)@ =~= old(out)@ + separator(mode, level));
    }
}

fn push_closing(out: &mut Vec<char>, mode: JsonMode, pad: &Vec<char>, Ghost(level): Ghost<nat>)
    requires
        pad@ == indent(level),
    ensures
        final(out)@ == old(out)@ + closing(mode, level),
{
    if mode == JsonMode::Indented {
        out.push('\n');
        push_all(out, pad);
    }
    proof {
        assert(final(out)@ =~= old(out)@ + closing(mode, level));
    }
}

fn push_colon(out: &mut Vec<char>, mode: JsonMode)
    ensures
        final(out)@ == old(out)@ + colon(mode),
{
    out.push(':');
    if mode == JsonMode::Indented {
        out.push(' ');
    }
    proof {
        assert(final(out)@ =~= old(out)@ + colon(mode));
    }
}

/// Appends the JSON text of `v` at nesting depth `level`, whose indentation is `pad`.
fn render(v: &Value, mode: JsonMode, Ghost(level): Ghost<nat>, pad: &Vec<char>, out: &mut Vec<char>)
    requires
        pad@ == indent(level),
    ensures
        final(out)@ == old(out)@ + json_text(v@, mode, level),
    decreases v, 1nat,
{
    match v {
        Value::Null => {
            push_str(out, "null");
            proof {
                reveal_strlit("null");
            }
        },
        Value::Undefined => {
            push_str(out, "undefined");
            proof {
                reveal_strlit("undefined");
            }
        },
        Value::Boolean(b) => {
            if *b {
                push_str(out, "true");
                proof {
                    reveal_strlit("true");
                }
            } else {
                push_str(out, "false");
                proof {
                    reveal_strlit("false");
                }
            }
        },
        Value::Number(n) => push_number(out, n),
        Value::String(s) => push_quoted(out, s.as_str()),
        Value::DateTime(d) => {
            out.push('"');
            d.push_iso8601(out);
            out.push('"');
            proof {
                assert(final(out)@ =~= old(out)@ + json_text(v@, mode, level));
            }
        },
        Value::Array(_) => render_array(v, mode, Ghost(level), pad, out),
        Value::Object(_) => render_object(v, mode, Ghost(level), pad, out),
    }
}

/// Appends the JSON text of an array.
fn render_array(v: &Value, mode: JsonMode, Ghost(level): Ghost<nat>, pad: &Vec<char>, out: &mut Vec<char>)
    requires
        pad@ == indent(level),
        *v is Array,
    ensures
        final(out)@ == old(out)@ + json_text(v@, mode, level),
    decreases v, 0nat,
{
    match v {
        Value::Array(items) => {
            proof {
                v.lemma_array_view();
            }
            if items.len() == 0 {
                out.push('[');
                out.push(']');
                proof {
                    assert(final(out)@ =~= old(out)@ + json_text(v@, mode, level));
                }
            } else {
                let ghost trees = v@->Array_0;
                let inner = deeper(pad, Ghost(level));
                out.push('[');
                push_opening(out, mode, &inner, Ghost(level));
                let ghost start = out@;
                let mut i: usize = 0;
                while i < items.len()
                    invariant
                        i <= items@.len(),
                        items@.len() == trees.len(),
                        trees.len() > 0,
                        inner@ == indent(level + 1),
                        v is Array,
                        v->Array_0 == *items,
                        forall|j: int| 0 <= j < items@.len() ==> #[trigger] trees[j] == items@[j]@,
                        out@ == start + items_text(trees.subrange(0, i as int), mode, level),
                    decreases items@.len() - i,
                {
                    proof {
                        vstd::std_specs::vec::axiom_vec_index_decreases(*items, i as int);
                        assert(decreases_to!(v => v->Array_0));
                    }
                    let ghost prev = trees.subrange(0, i as int);
                    let ghost next = trees.subrange(0, i + 1);
                    if i > 0 {
                        push_separator(out, mode, &inner, Ghost(level));
                    }
                    render(&items[i], mode, Ghost(level + 1), &inner, out);
                    proof {
                        assert(next.subrange(0, i as int) =~= prev);
                        assert(next[i as int] == trees[i as int]);
                        if i == 0 {
                            assert(items_text(next, mode, level) == json_text(next[0], mode, level + 1));
                        }
                        assert(out@ =~= start + items_text(next, mode, level));
                    }
                    i = i + 1;
                }
                push_closing(out, mode, pad, Ghost(level));
                out.push(']');
                proof {
                    assert(trees.subrange(0, trees.len() as int) =~= trees);
                    assert(final(out)@ =~= old(out)@ + json_text(v@, mode, level));
                }
            }
        },
        _ => {},
    }
}

/// Appends the JSON text of an object.
fn render_object(v: &Value, mode: JsonMode, Ghost(level): Ghost<nat>, pad: &Vec<char>, out: &mut Vec<char>)
    requires
        pad@ == indent(level),
        *v is Object,
    ensures
        final(out)@ == old(out)@ + json_text(v@, mode, level),
    decreases v, 0nat,
{
    match v {
        Value::Object(o) => {
            if o.len() == 0 {
                out.push('{');
                out.push('}');
                proof {
                    assert(final(out)@ =~= old(out)@ + json_text(v@, mode, level));
                }
            } else {
                let ghost es = o@;
                let inner = deeper(pad, Ghost(level));
                out.push('{');
                push_opening(out, mode, &inner, Ghost(level));
                let ghost start = out@;
                let mut i: usize = 0;
                while i < o.len()
                    invariant
                        i <= es.len(),
                        es.len() > 0,
                        es == o@,
                        inner@ == indent(level + 1),
                        v is Object,
                        v->Object_0 == *o,
                        out@ == start + entries_text(es.subrange(0, i as int), mode, level),
                    decreases es.len() - i,
                {
                    let (k, val) = o.entry(i);
                    proof {
                        o.lemma_value_at_decreases(i as int);
                        assert(decreases_to!(v => v->Object_0));
                    }
                    let ghost prev = es.subrange(0, i as int);
                    let ghost next = es.subrange(0, i + 1);
                    if i > 0 {
                        push_separator(out, mode, &inner, Ghost(level));
                    }
                    push_quoted(out, k.as_str());
                    push_colon(out, mode);
                    render(val, mode, Ghost(level + 1), &inner, out);
                    proof {
                        assert(next.subrange(0, i as int) =~= prev);
                        assert(next[i as int] == es[i as int]);
                        assert(out@ =~= start + entries_text(next, mode, level));
                    }
                    i = i + 1;
                }
                push_closing(out, mode, pad, Ghost(level));
                out.push('}');
                proof {
                    assert(es.subrange(0, es.len() as int) =~= es);
                    assert(final(out)@ =~= old(out)@ + json_text(v@, mode, level));
                }
            }
        },
        _ => {},
    }
}

impl Value {
    /// The JSON text of the value in the given layout.
    pub fn to_json(&self, mode: JsonMode) -> (r: String)
        ensures
            r@ == json_text(self@, mode, 0),
    {
        let mut out: Vec<char> = Vec::new();
        let pad: Vec<char> = Vec::new();
        proof {
            assert(pad@ =~= indent(0));
        }
        render(self, mode, Ghost(0), &pad, &mut out);
        proof {
            assert(out@ =~= json_text(self@, mode, 0));
        }
        string_of(&out)
    }

    /// The JSON text of the value, one entry per line.
    pub fn to_json_idented(&self) -> (r: String)
        ensures
            r@ == json_text(self@, JsonMode::Indented, 0),
    {
        self.to_json(JsonMode::Indented)
    }

    /// The JSON text of the value on a single line.
    pub fn to_json_inline(&self) -> (r: String)
        ensures
            r@ == json_text(self@, JsonMode::Inline, 0),
    {
        self.to_json(JsonMode::Inline)
    }
}

/// The text has no backslash and no control character.
pub open spec fn plain_text(s: Seq<char>) -> bool {
    forall|i: int| 0 <= i < s.len() ==> s[i] != '\\' && (s[i] as u32) >= 0x20
}

proof fn lemma_escape_prefix(p: Seq<char>, rest: Seq<char>)
    requires
        p.len() == 1,
        p[0] != '\\',
    ensures
        escape(p + rest) == escape_char(p[0]) + escape(rest),
{
    let s = p + rest;
    assert(s.subrange(1, s.len() as int) =~= rest);
}

/// Escaping text without backslashes or control characters, then escaping
/// the result again, changes nothing more: an escaped quote is not escaped
/// twice.
pub proof fn law_escape_idempotent(s: Seq<char>)
    requires
        plain_text(s),
    ensures
        escape(escape(s)) == escape(s),
    decreases s.len(),
{
    if s.len() > 0 {
        let rest = s.subrange(1, s.len() as int);
        assert(plain_text(rest)) by {
            assert forall|i: int| 0 <= i < rest.len() implies rest[i] != '\\' && (rest[i] as u32)
                >= 0x20 by {
                assert(rest[i] == s[i + 1]);
            }
        }
        law_escape_idempotent(rest);
        let er = escape(rest);
        assert(escape(s) == escape_char(s[0]) + er);
        if s[0] == '"' {
            let t = seq!['\\', '"'] + er;
            assert(t.subrange(2, t.len() as int) =~= er);
            assert(escape(t) == seq!['\\', '"'] + escape(er));
        } else {
            assert(escape_char(s[0]) == seq![s[0]]);
            lemma_escape_prefix(seq![s[0]], er);
        }
    }
}

/// A quote in plain text is written escaped.
pub proof fn law_quote_escaped(a: Seq<char>, b: Seq<char>)
    requires
        plain_text(a),
        plain_text(b),
    ensures
        escape(a + seq!['"'] + b) == escape(a) + seq!['\\', '"'] + escape(b),
    decreases a.len(),
{
    if a.len() == 0 {
        let s = seq!['"'] + b;
        assert(a + seq!['"'] + b =~= s);
        assert(s.subrange(1, s.len() as int) =~= b);
        assert(escape(a) =~= Seq::<char>::empty());
        assert(escape(s) == escape_char('"') + escape(b));
    } else {
        let rest = a.subrange(1, a.len() as int);
        assert(plain_text(rest)) by {
            assert forall|i: int| 0 <= i < rest.len() implies rest[i] != '\\' && (rest[i] as u32)
                >= 0x20 by {
                assert(rest[i] == a[i + 1]);
            }
        }
        law_quote_escaped(rest, b);
        let whole = a + seq!['"'] + b;
        assert(whole.subrange(1, whole.len() as int) =~= rest + seq!['"'] + b);
        assert(whole[0] == a[0]);
        assert(a.subrange(1, a.len() as int) =~= rest);
        assert(escape(whole) == escape_char(a[0]) + escape(rest + seq!['"'] + b));
        assert(escape(a) == escape_char(a[0]) + escape(rest));
        assert(escape(whole) =~= escape(a) + seq!['\\', '"'] + escape(b));
    }
}

} // verus!
