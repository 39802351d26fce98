//! Decoding a YAML subset into values: block mappings (`key: value`), block
//! sequences (`- item`) nested by indentation, and scalars. A scalar that is
//! a JSON value (a quoted string, a number, `true`, `false`, `null`, or a flow
//! sequence such as `[1, 2]`) means that value; any other scalar is a plain
//! string.
use vstd::prelude::*;
use crate::decode::{json_chars_to_value, json_parse, parse_string, parse_string_exec, Error};
use crate::text::{chars_of, string_of};
use crate::value::{insert_entry, lemma_trees_of, trees_of, Object, Tree, Value};

verus! {

/// A non-blank line: its indentation and its text without the indentation
/// and without trailing blanks.
pub struct Line {
    pub indent: nat,
    pub content: Seq<char>,
}

pub open spec fn is_blank(c: char) -> bool {
    c == ' ' || c == '\t' || c == '\r'
}

/// The number of leading spaces from `i` on.
pub open spec fn leading_spaces(s: Seq<char>, i: int) -> int
    decreases s.len() - i,
{
    if 0 <= i < s.len() && s[i] == ' ' {
        leading_spaces(s, i + 1)
    } else {
        i
    }
}

/// The end of `s` once trailing blanks are dropped, not going below `lo`.
pub open spec fn trimmed_end(s: Seq<char>, lo: int, hi: int) -> int
    decreases hi - lo,
{
    if lo < hi && hi <= s.len() && is_blank(s[hi - 1]) {
        trimmed_end(s, lo, hi - 1)
    } else {
        hi
    }
}

pub open spec fn line_of(raw: Seq<char>) -> Line {
    let ind = leading_spaces(raw, 0);
    Line { indent: ind as nat, content: raw.subrange(ind, trimmed_end(raw, ind, raw.len() as int)) }
}

/// Blank lines and comment lines carry nothing.
pub open spec fn kept(l: Line) -> bool {
    l.content.len() > 0 && l.content[0] != '#'
}

/// The first line break at or after `i`, or the end.
pub open spec fn line_end(s: Seq<char>, i: int) -> int
    decreases s.len() - i,
{
    if 0 <= i < s.len() && s[i] != '\n' {
        line_end(s, i + 1)
    } else {
        i
    }
}

/// The lines of `s` from position `i` on, after the lines `acc`.
pub open spec fn lines_from(s: Seq<char>, i: int, acc: Seq<Line>) -> Seq<Line>
    decreases s.len() - i,
{
    if i < 0 || i >= s.len() {
        acc
    } else {
        let e = line_end(s, i);
        let l = line_of(s.subrange(i, e));
        let acc2 = if kept(l) {
            acc.push(l)
        } else {
            acc
        };
        if e < i || e >= s.len() {
            acc2
        } else {
            lines_from(s, e + 1, acc2)
        }
    }
}

/// Drops leading spaces.
pub open spec fn ltrim(s: Seq<char>) -> Seq<char> {
    s.subrange(leading_spaces(s, 0), s.len() as int)
}

/// Drops trailing blanks.
pub open spec fn rtrim(s: Seq<char>) -> Seq<char> {
    s.subrange(0, trimmed_end(s, 0, s.len() as int))
}

/// A sequence entry: `-` alone or followed by a space.
pub open spec fn is_item(c: Seq<char>) -> bool {
    c.len() >= 1 && c[0] == '-' && (c.len() == 1 || c[1] == ' ')
}

/// The text after the dash of a sequence entry.
pub open spec fn item_text(c: Seq<char>) -> Seq<char> {
    if c.len() <= 1 {
        Seq::empty()
    } else {
        ltrim(c.subrange(2, c.len() as int))
    }
}

/// A colon that ends a key: followed by a space or by the end of the line.
pub open spec fn key_colon(c: Seq<char>, p: int) -> bool {
    0 <= p < c.len() && c[p] == ':' && (p + 1 == c.len() || c[p + 1] == ' ')
}

/// The first key colon at or after `p`.
pub open spec fn colon_pos(c: Seq<char>, p: int) -> Option<int>
    decreases c.len() - p,
{
    if p < 0 || p >= c.len() {
        None
    } else if key_colon(c, p) {
        Some(p)
    } else {
        colon_pos(c, p + 1)
    }
}

/// The key and the value text of a mapping entry. A key is either a quoted
/// string or the text before the first key colon.
pub open spec fn pair_split(c: Seq<char>) -> Option<(Seq<char>, Seq<char>)> {
    if c.len() > 0 && c[0] == '"' {
        match parse_string(c, 1, Seq::empty()) {
            Some((k, e)) => if key_colon(c, e) {
                Some((k, ltrim(c.subrange(e + 1, c.len() as int))))
            } else {
                None
            },
            None => None,
        }
    } else {
        match colon_pos(c, 0) {
            Some(p) => Some((rtrim(c.subrange(0, p)), ltrim(c.subrange(p + 1, c.len() as int)))),
            None => None,
        }
    }
}

/// What a scalar means: the JSON value it spells, else a plain string.
pub open spec fn scalar(x: Seq<char>) -> Tree {
    match json_parse(x) {
        Some(t) => t,
        None => Tree::String(x),
    }
}

/// The first line at or after `p` and before `hi` that is not indented deeper
/// than `base`: where the children of an entry end.
pub open spec fn next_entry(ls: Seq<Line>, p: int, hi: int, base: nat) -> int
    decreases hi - p,
{
    if p < hi && 0 <= p < ls.len() && ls[p].indent > base {
        next_entry(ls, p + 1, hi, base)
    } else {
        p
    }
}

/// The block of lines `lo..hi`: a sequence, a mapping, or a single scalar.
pub open spec fn parse_block(ls: Seq<Line>, lo: int, hi: int) -> Option<Tree>
    decreases hi - lo, 1nat,
{
    if lo < 0 || hi > ls.len() || lo >= hi {
        None
    } else if is_item(ls[lo].content) {
        parse_items_block(ls, lo, hi, ls[lo].indent, Seq::empty())
    } else if pair_split(ls[lo].content) is Some {
        parse_pairs_block(ls, lo, hi, ls[lo].indent, Seq::empty())
    } else if hi == lo + 1 {
        Some(scalar(ls[lo].content))
    } else {
        None
    }
}

/// The value of an entry on line `p` whose inline text is `rest` and whose
/// children are the lines `p+1..q`: the inline scalar (then there are no
/// children), the children's block, or null when there is neither.
pub open spec fn entry_value(ls: Seq<Line>, p: int, q: int, rest: Seq<char>) -> Option<Tree>
    decreases q - p - 1, 2nat,
{
    if rest.len() > 0 {
        if q == p + 1 {
            Some(scalar(rest))
        } else {
            None
        }
    } else if q <= p + 1 {
        Some(Tree::Null)
    } else {
        parse_block(ls, p + 1, q)
    }
}

/// The sequence entries on lines `p..hi`, indented by `base`, after the
/// elements `acc`.
pub open spec fn parse_items_block(ls: Seq<Line>, p: int, hi: int, base: nat, acc: Seq<Tree>) -> Option<
    Tree,
>
    decreases hi - p, 0nat,
{
    if p < 0 || hi > ls.len() {
        None
    } else if p >= hi {
        Some(Tree::Array(acc))
    } else if ls[p].indent != base || !is_item(ls[p].content) {
        None
    } else {
        let q = next_entry(ls, p + 1, hi, base);
        if q <= p || q > hi {
            None
        } else {
            match entry_value(ls, p, q, item_text(ls[p].content)) {
                None => None,
                Some(v) => parse_items_block(ls, q, hi, base, acc.push(v)),
            }
        }
    }
}

/// The mapping entries on lines `p..hi`, indented by `base`, after the
/// entries `acc`; a later entry wins over an earlier one with the same key.
pub open spec fn parse_pairs_block(
    ls: Seq<Line>,
    p: int,
    hi: int,
    base: nat,
    acc: Seq<(Seq<char>, Tree)>,
) -> Option<Tree>
    decreases hi - p, 0nat,
{
    if p < 0 || hi > ls.len() {
        None
    } else if p >= hi {
        Some(Tree::Object(acc))
    } else if ls[p].indent != base || is_item(ls[p].content) || pair_split(ls[p].content) is None {
        None
    } else {
        let q = next_entry(ls, p + 1, hi, base);
        let (k, rest) = pair_split(ls[p].content)->0;
        if q <= p || q > hi {
            None
        } else {
            match entry_value(ls, p, q, rest) {
                None => None,
                Some(v) => parse_pairs_block(ls, q, hi, base, insert_entry(acc, k, v)),
            }
        }
    }
}

/// The value a YAML text denotes.
pub open spec fn yaml_parse(s: Seq<char>) -> Option<Tree> {
    let ls = lines_from(s, 0, Seq::empty());
    if ls.len() == 0 {
        None
    } else {
        parse_block(ls, 0, ls.len() as int)
    }
}

/// A non-blank line of the input.
pub struct YamlLine {
    /// Where the line stands in the input, counting from one.
    pub number: usize,
    pub indent: usize,
    pub content: Vec<char>,
}

pub open spec fn lines_view(ls: Seq<YamlLine>) -> Seq<Line> {
    Seq::new(
        ls.len(),
        |i: int| Line { indent: ls[i].indent as nat, content: ls[i].content@ },
    )
}

/// The characters `lo..hi` of `cs`.
pub fn slice(cs: &Vec<char>, lo: usize, hi: usize) -> (r: Vec<char>)
    requires
        lo <= hi <= cs@.len(),
    ensures
        r@ == cs@.subrange(lo as int, hi as int),
{
    let mut r: Vec<char> = Vec::new();
    let mut i = lo;
    while i < hi
        invariant
            lo <= i <= hi <= cs@.len(),
            r@ == cs@.subrange(lo as int, i as int),
        decreases hi - i,
    {
        r.push(cs[i]);
        i = i + 1;
        proof {
            assert(r@ =~= cs@.subrange(lo as int, i as int));
        }
    }
    r
}

fn leading_spaces_exec(s: &Vec<char>, i: usize) -> (r: usize)
    requires
        i <= s@.len(),
    ensures
        r as int == leading_spaces(s@, i as int),
        i <= r <= s@.len(),
{
    let mut j = i;
    while j < s.len() && s[j] == ' '
        invariant
            i <= j <= s@.len(),
            leading_spaces(s@, j as int) == leading_spaces(s@, i as int),
        decreases s@.len() - j,
    {
        j = j + 1;
    }
    j
}

fn trimmed_end_exec(s: &Vec<char>, lo: usize, hi: usize) -> (r: usize)
    requires
        lo <= hi <= s@.len(),
    ensures
        r as int == trimmed_end(s@, lo as int, hi as int),
        lo <= r <= hi,
{
    let mut e = hi;
    while lo < e && (s[e - 1] == ' ' || s[e - 1] == '\t' || s[e - 1] == '\r')
        invariant
            lo <= e <= hi <= s@.len(),
            trimmed_end(s@, lo as int, e as int) == trimmed_end(s@, lo as int, hi as int),
        decreases e,
    {
        e = e - 1;
    }
    e
}

fn line_end_exec(s: &Vec<char>, i: usize) -> (r: usize)
    requires
        i <= s@.len(),
    ensures
        r as int == line_end(s@, i as int),
        i <= r <= s@.len(),
{
    let mut j = i;
    while j < s.len() && s[j] != '\n'
        invariant
            i <= j <= s@.len(),
            line_end(s@, j as int) == line_end(s@, i as int),
        decreases s@.len() - j,
    {
        j = j + 1;
    }
    j
}

/// The non-blank, non-comment lines of the text.
pub fn lines_exec(s: &Vec<char>) -> (r: Vec<YamlLine>)
    ensures
        lines_view(r@) == lines_from(s@, 0, Seq::empty()),
{
    let mut out: Vec<YamlLine> = Vec::new();
    let mut i: usize = 0;
    let mut seen: usize = 0;
    proof {
        assert(lines_view(out@) =~= Seq::<Line>::empty());
    }
    while i < s.len()
        invariant
            i <= s@.len(),
            seen <= i,
            lines_from(s@, i as int, lines_view(out@)) == lines_from(s@, 0, Seq::empty()),
        decreases s@.len() - i,
    {
        let e = line_end_exec(s, i);
        let raw = slice(s, i, e);
        let ind = leading_spaces_exec(&raw, 0);
        let end = trimmed_end_exec(&raw, ind, raw.len());
        let content = slice(&raw, ind, end);
        let ghost l = line_of(s@.subrange(i as int, e as int));
        proof {
            assert(l.indent == ind as nat);
            assert(l.content == content@);
        }
        if content.len() > 0 && content[0] != '#' {
            let ghost before = lines_view(out@);
            out.push(YamlLine { number: seen + 1, indent: ind, content });
            proof {
                assert(lines_view(out@) =~= before.push(l));
            }
        }
        if e >= s.len() {
            return out;
        }
        i = e + 1;
        seen = seen + 1;
    }
    out
}

fn ltrim_exec(c: &Vec<char>) -> (r: Vec<char>)
    ensures
        r@ == ltrim(c@),
{
    let k = leading_spaces_exec(c, 0);
    slice(c, k, c.len())
}

fn rtrim_exec(c: &Vec<char>) -> (r: Vec<char>)
    ensures
        r@ == rtrim(c@),
{
    let e = trimmed_end_exec(c, 0, c.len());
    slice(c, 0, e)
}

fn is_item_exec(c: &Vec<char>) -> (r: bool)
    ensures
        r == is_item(c@),
{
    c.len() >= 1 && c[0] == '-' && (c.len() == 1 || c[1] == ' ')
}

fn item_text_exec(c: &Vec<char>) -> (r: Vec<char>)
    ensures
        r@ == item_text(c@),
{
    if c.len() <= 1 {
        Vec::new()
    } else {
        let rest = slice(c, 2, c.len());
        ltrim_exec(&rest)
    }
}

fn key_colon_exec(c: &Vec<char>, p: usize) -> (r: bool)
    ensures
        r == key_colon(c@, p as int),
{
    p < c.len() && c[p] == ':' && (p + 1 == c.len() || c[p + 1] == ' ')
}

fn colon_pos_exec(c: &Vec<char>) -> (r: Option<usize>)
    ensures
        match colon_pos(c@, 0) {
            Some(p) => r == Some(p as usize) && 0 <= p < c@.len(),
            None => r is None,
        },
{
    let mut p: usize = 0;
    while p < c.len()
        invariant
            p <= c@.len(),
            colon_pos(c@, p as int) == colon_pos(c@, 0),
        decreases c@.len() - p,
    {
        if key_colon_exec(c, p) {
            return Some(p);
        }
        p = p + 1;
    }
    None
}

/// The key and the value text of a mapping entry.
fn pair_split_exec(c: &Vec<char>) -> (r: Option<(String, Vec<char>)>)
    ensures
        match pair_split(c@) {
            Some((k, rest)) => r matches Some((k2, rest2)) && k2@ == k && rest2@ == rest,
            None => r is None,
        },
{
    if c.len() > 0 && c[0] == '"' {
        match parse_string_exec(c, 1) {
            Ok((k, e)) => {
                if key_colon_exec(c, e) {
                    let rest = slice(c, e + 1, c.len());
                    Some((k, ltrim_exec(&rest)))
                } else {
                    None
                }
            },
            Err(_) => None,
        }
    } else {
        match colon_pos_exec(c) {
            Some(p) => {
                let key = slice(c, 0, p);
                let rest = slice(c, p + 1, c.len());
                Some((string_of(&rtrim_exec(&key)), ltrim_exec(&rest)))
            },
            None => None,
        }
    }
}

/// What a scalar means.
fn scalar_exec(x: &Vec<char>) -> (r: Value)
    ensures
        r@ == scalar(x@),
{
    match json_chars_to_value(x) {
        Ok(v) => v,
        Err(_) => Value::String(string_of(x)),
    }
}

fn next_entry_exec(ls: &Vec<YamlLine>, p: usize, hi: usize, base: usize) -> (r: usize)
    requires
        p <= hi <= ls@.len(),
    ensures
        r as int == next_entry(lines_view(ls@), p as int, hi as int, base as nat),
        p <= r <= hi,
{
    let mut q = p;
    while q < hi && ls[q].indent > base
        invariant
            p <= q <= hi <= ls@.len(),
            next_entry(lines_view(ls@), q as int, hi as int, base as nat) == next_entry(
                lines_view(ls@),
                p as int,
                hi as int,
                base as nat,
            ),
        decreases hi - q,
    {
        q = q + 1;
    }
    q
}

/// Decodes the value of the entry on line `p` with inline text `rest` and
/// children `p+1..q`.
fn entry_value_exec(ls: &Vec<YamlLine>, p: usize, q: usize, rest: &Vec<char>) -> (r: Result<Value, usize>)
    requires
        p < q <= ls@.len(),
    ensures
        match entry_value(lines_view(ls@), p as int, q as int, rest@) {
            Some(t) => r matches Ok(v) && v@ == t,
            None => r is Err,
        },
    decreases q - p - 1, 2nat,
{
    if rest.len() > 0 {
        if q == p + 1 {
            Ok(scalar_exec(rest))
        } else {
            Err(ls[p].number)
        }
    } else if q <= p + 1 {
        Ok(Value::Null)
    } else {
        parse_block_exec(ls, p + 1, q)
    }
}

/// Decodes the block of lines `lo..hi`.
fn parse_block_exec(ls: &Vec<YamlLine>, lo: usize, hi: usize) -> (r: Result<Value, usize>)
    requires
        lo <= hi <= ls@.len(),
    ensures
        match parse_block(lines_view(ls@), lo as int, hi as int) {
            Some(t) => r matches Ok(v) && v@ == t,
            None => r is Err,
        },
    decreases hi - lo, 1nat,
{
    let ghost lv = lines_view(ls@);
    if lo >= hi {
        return Err(0);
    }
    let base = ls[lo].indent;
    if is_item_exec(&ls[lo].content) {
        let mut items: Vec<Value> = Vec::new();
        let mut p = lo;
        proof {
            lemma_trees_of(items@);
            assert(trees_of(items@) =~= Seq::<Tree>::empty());
        }
        while p < hi
            invariant
                lo <= p <= hi <= ls@.len(),
                lv == lines_view(ls@),
                base == ls@[lo as int].indent,
                parse_block(lv, lo as int, hi as int) == parse_items_block(
                    lv,
                    p as int,
                    hi as int,
                    base as nat,
                    trees_of(items@),
                ),
            decreases hi - p,
        {
            if ls[p].indent != base || !is_item_exec(&ls[p].content) {
                return Err(ls[p].number);
            }
            let q = next_entry_exec(ls, p + 1, hi, base);
            let text = item_text_exec(&ls[p].content);
            match entry_value_exec(ls, p, q, &text) {
                Err(k) => {
                    return Err(k);
                },
                Ok(v) => {
                    proof {
                        assert(items@.push(v).subrange(0, items@.len() as int) =~= items@);
                    }
                    items.push(v);
                },
            }
            p = q;
        }
        Ok(Value::Array(items))
    } else if pair_split_exec(&ls[lo].content).is_some() {
        let mut obj = Object::new();
        let mut p = lo;
        while p < hi
            invariant
                lo <= p <= hi <= ls@.len(),
                lv == lines_view(ls@),
                base == ls@[lo as int].indent,
                parse_block(lv, lo as int, hi as int) == parse_pairs_block(
                    lv,
                    p as int,
                    hi as int,
                    base as nat,
                    obj@,
                ),
            decreases hi - p,
        {
            if ls[p].indent != base || is_item_exec(&ls[p].content) {
                return Err(ls[p].number);
            }
            let (k, rest) = match pair_split_exec(&ls[p].content) {
                Some(x) => x,
                None => {
                    return Err(ls[p].number);
                },
            };
            let q = next_entry_exec(ls, p + 1, hi, base);
            match entry_value_exec(ls, p, q, &rest) {
                Err(k) => {
                    return Err(k);
                },
                Ok(v) => {
                    obj.insert(k, v);
                },
            }
            p = q;
        }
        Ok(Value::Object(obj))
    } else if hi == lo + 1 {
        Ok(scalar_exec(&ls[lo].content))
    } else {
        Err(ls[lo].number)
    }
}

/// An error that names the line where decoding stopped.
pub fn malformed_line(line: usize) -> (r: Error)
    ensures
        r matches Error::NonParsebleMsg(m) && m@ == "malformed YAML at line "@
            + crate::json::decimal(line as nat),
{
    let mut msg: Vec<char> = Vec::new();
    crate::text::push_str(&mut msg, "malformed YAML at line ");
    crate::json::push_decimal(&mut msg, line as u128);
    Error::NonParsebleMsg(string_of(&msg))
}

impl Value {
    /// Decodes a YAML text.
    pub fn yaml_to_value(s: &str) -> (r: Result<Value, Error>)
        ensures
            match yaml_parse(s@) {
                Some(t) => r matches Ok(v) && v@ == t,
                None => r matches Err(Error::NonParsebleMsg(_)),
            },
    {
        let cs = chars_of(s);
        let ls = lines_exec(&cs);
        if ls.len() == 0 {
            return Err(Error::NonParsebleMsg(String::from_str("empty YAML document")));
        }
        match parse_block_exec(&ls, 0, ls.len()) {
            Ok(v) => Ok(v),
            Err(line) => Err(malformed_line(line)),
        }
    }
}

} // verus!
