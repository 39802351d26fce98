use vstd::prelude::*;
use crate::json::{digit_exec, digit_of};
use crate::number::Number;

verus! {

/// A calendar instant in UTC, to the second.
#[derive(Clone, Copy, Debug, PartialEq, Eq, Structural)]
pub struct DateTime {
    pub year: u16,
    pub month: u8,
    pub day: u8,
    pub hour: u8,
    pub minute: u8,
    pub second: u8,
}

/// A dynamically typed value: a tree that owns all of its children.
#[derive(Debug)]
pub enum Value {
    Null,
    Undefined,
    Boolean(bool),
    Number(Number),
    String(String),
    Array(Vec<Value>),
    Object(Object),
    DateTime(DateTime),
}

/// A mapping from string keys to values. Keys are unique; the order of the
/// entries carries no meaning.
#[derive(Debug)]
pub struct Object {
    entries: Vec<(String, Value)>,
}

/// The mathematical model of a value.
pub enum Tree {
    Null,
    Undefined,
    Boolean(bool),
    Number(Number),
    String(Seq<char>),
    Array(Seq<Tree>),
    Object(Seq<(Seq<char>, Tree)>),
    DateTime(DateTime),
}

/// The keys of a sequence of entries are pairwise distinct.
pub open spec fn unique_keys(s: Seq<(Seq<char>, Tree)>) -> bool {
    forall|i: int, j: int| 0 <= i < j < s.len() ==> s[i].0 != s[j].0
}

pub open spec fn has_key(s: Seq<(Seq<char>, Tree)>, k: Seq<char>) -> bool {
    exists|i: int| 0 <= i < s.len() && s[i].0 == k
}

/// Index of the entry with key `k`, for a key that is present.
pub open spec fn key_index(s: Seq<(Seq<char>, Tree)>, k: Seq<char>) -> int {
    choose|i: int| 0 <= i < s.len() && s[i].0 == k
}

/// The value stored under `k`, if any.
pub open spec fn lookup(s: Seq<(Seq<char>, Tree)>, k: Seq<char>) -> Option<Tree> {
    if has_key(s, k) {
        Some(s[key_index(s, k)].1)
    } else {
        None
    }
}

/// What inserting `(k, v)` does to a sequence of entries: the value of an
/// existing key is replaced in place, a new key is appended.
pub open spec fn insert_entry(s: Seq<(Seq<char>, Tree)>, k: Seq<char>, v: Tree) -> Seq<
    (Seq<char>, Tree),
> {
    if has_key(s, k) {
        s.update(key_index(s, k), (k, v))
    } else {
        s.push((k, v))
    }
}

/// The model of a value.
pub open spec fn tree_of(v: &Value) -> Tree
    decreases v,
{
    match v {
        Value::Null => Tree::Null,
        Value::Undefined => Tree::Undefined,
        Value::Boolean(b) => Tree::Boolean(*b),
        Value::Number(n) => Tree::Number(*n),
        Value::String(s) => Tree::String(s@),
        Value::Array(items) => Tree::Array(trees_of(items@)),
        Value::Object(o) => Tree::Object(o.view()),
        Value::DateTime(d) => Tree::DateTime(*d),
    }
}

/// The models of a sequence of values.
pub open spec fn trees_of(s: Seq<Value>) -> Seq<Tree>
    decreases s,
{
    if s.len() == 0 {
        Seq::empty()
    } else {
        trees_of(s.subrange(0, s.len() - 1)).push(tree_of(&s[s.len() - 1]))
    }
}

/// The models of a sequence of entries.
pub open spec fn entries_of(s: Seq<(String, Value)>) -> Seq<(Seq<char>, Tree)>
    decreases s,
{
    if s.len() == 0 {
        Seq::empty()
    } else {
        entries_of(s.subrange(0, s.len() - 1)).push(
            (s[s.len() - 1].0@, tree_of(&s[s.len() - 1].1)),
        )
    }
}

pub proof fn lemma_trees_of(s: Seq<Value>)
    ensures
        trees_of(s).len() == s.len(),
        forall|i: int| 0 <= i < s.len() ==> #[trigger] trees_of(s)[i] == s[i]@,
    decreases s.len(),
{
    if s.len() > 0 {
        lemma_trees_of(s.subrange(0, s.len() - 1));
    }
}

pub proof fn lemma_entries_of(s: Seq<(String, Value)>)
    ensures
        entries_of(s).len() == s.len(),
        forall|i: int|
            0 <= i < s.len() ==> #[trigger] entries_of(s)[i] == (s[i].0@, s[i].1@),
    decreases s.len(),
{
    if s.len() > 0 {
        lemma_entries_of(s.subrange(0, s.len() - 1));
    }
}

impl View for Object {
    type V = Seq<(Seq<char>, Tree)>;

    closed spec fn view(&self) -> Seq<(Seq<char>, Tree)>
        decreases self,
    {
        entries_of(self.entries@)
    }
}

impl View for Value {
    type V = Tree;

    open spec fn view(&self) -> Tree {
        tree_of(self)
    }
}

impl Object {
    /// The value of the `i`-th entry.
    pub closed spec fn value_at(self, i: int) -> Value {
        self.entries@[i].1
    }

    /// A value held by an object is smaller than the object.
    pub proof fn lemma_value_at_decreases(&self, i: int)
        requires
            0 <= i < self@.len(),
        ensures
            decreases_to!(self => self.value_at(i)),
    {
        self.lemma_view();
        vstd::std_specs::vec::axiom_vec_index_decreases(self.entries, i);
    }

    /// Every object has unique keys.
    #[verifier::type_invariant]
    spec fn inv(self) -> bool {
        unique_keys(self@)
    }

    pub fn new() -> (r: Object)
        ensures
            r@ == Seq::<(Seq<char>, Tree)>::empty(),
    {
        proof {
            lemma_entries_of(Seq::empty());
        }
        let r = Object { entries: Vec::new() };
        proof {
            r.lemma_view();
        }
        r
    }

    pub fn len(&self) -> (r: usize)
        ensures
            r == self@.len(),
    {
        proof {
            self.lemma_view();
        }
        self.entries.len()
    }

    pub fn is_empty(&self) -> (r: bool)
        ensures
            r == (self@.len() == 0),
    {
        proof {
            self.lemma_view();
        }
        self.entries.len() == 0
    }

    /// The key and value of the `i`-th entry.
    pub fn entry(&self, i: usize) -> (r: (&String, &Value))
        requires
            i < self@.len(),
        ensures
            r.0@ == self@[i as int].0,
            r.1@ == self@[i as int].1,
            *r.1 == self.value_at(i as int),
    {
        proof {
            self.lemma_view();
        }
        let e = &self.entries[i];
        (&e.0, &e.1)
    }

    /// Position of the entry with key `k`.
    pub fn find(&self, k: &str) -> (r: Option<usize>)
        ensures
            r is None ==> !has_key(self@, k@),
            r matches Some(i) ==> i < self@.len() && self@[i as int].0 == k@,
            r matches Some(i) ==> i == key_index(self@, k@),
    {
        proof {
            self.lemma_view();
            use_type_invariant(self);
        }
        let mut i: usize = 0;
        while i < self.entries.len()
            invariant
                i <= self@.len(),
                self@.len() == self.entries@.len(),
                forall|j: int|
                    0 <= j < self.entries@.len() ==> #[trigger] self@[j] == (
                        self.entries@[j].0@,
                        self.entries@[j].1@,
                    ),
                forall|j: int| 0 <= j < i ==> self@[j].0 != k@,
                unique_keys(self@),
            decreases self@.len() - i,
        {
            if str_eq(self.entries[i].0.as_str(), k) {
                proof {
                    assert(self@[i as int].0 == k@);
                    assert(has_key(self@, k@));
                    let j = key_index(self@, k@);
                    assert(self@[j].0 == k@);
                    if j < i {
                        assert(self@[j].0 != k@);
                    } else if j > i {
                        assert(self@[i as int].0 != self@[j].0);
                    }
                }
                return Some(i);
            }
            i = i + 1;
        }
        None
    }

    pub fn contains_key(&self, k: &str) -> (r: bool)
        ensures
            r == has_key(self@, k@),
    {
        self.find(k).is_some()
    }

    /// The value stored under `k`.
    pub fn get(&self, k: &str) -> (r: Option<&Value>)
        ensures
            r is None ==> lookup(self@, k@) is None,
            r matches Some(v) ==> lookup(self@, k@) == Some(v@),
    {
        proof {
            self.lemma_view();
        }
        match self.find(k) {
            Some(i) => Some(&self.entries[i].1),
            None => None,
        }
    }
}

/// Character-wise equality of two strings.
pub fn str_eq(a: &str, b: &str) -> (r: bool)
    ensures
        r == (a@ == b@),
{
    let n = a.unicode_len();
    let m = b.unicode_len();
    if n != m {
        return false;
    }
    let mut i: usize = 0;
    while i < n
        invariant
            n == a@.len(),
            m == b@.len(),
            n == m,
            i <= n,
            forall|j: int| 0 <= j < i ==> a@[j] == b@[j],
        decreases n - i,
    {
        if a.get_char(i) != b.get_char(i) {
            return false;
        }
        i = i + 1;
    }
    proof {
        assert(a@ =~= b@);
    }
    true
}

impl Object {
    /// Stores `v` under `k`, replacing the value of an existing key in place.
    pub fn insert(&mut self, k: String, v: Value)
        ensures
            final(self)@ == insert_entry(old(self)@, k@, v@),
    {
        let ghost before = *self;
        proof {
            before.lemma_view();
            use_type_invariant(&*self);
        }
        let ghost kv = k@;
        let ghost vv = v@;
        let found = self.find(k.as_str());
        let mut taken = Object::new();
        core::mem::swap(self, &mut taken);
        let mut entries = taken.entries;
        match found {
            Some(i) => {
                entries.set(i, (k, v));
            },
            None => {
                entries.push((k, v));
            },
        }
        let ghost after = Object { entries };
        proof {
            after.lemma_view();
            if let Some(i) = found {
                assert(after@ =~= before@.update(i as int, (kv, vv)));
            } else {
                assert(after@ =~= before@.push((kv, vv)));
            }
            assert forall|a: int, b: int| 0 <= a < b < after@.len() implies after@[a].0
                != after@[b].0 by {
                if let Some(i) = found {
                    if a != i && b != i {
                        assert(before@[a] == after@[a]);
                    }
                } else {
                    if b == before@.len() {
                        assert(after@[a] == before@[a]);
                    }
                }
            }
        }
        *self = Object { entries };
    }

    /// Builds an object from entries; a later entry wins over an earlier one
    /// with the same key.
    pub fn from_entries(entries: Vec<(String, Value)>) -> (r: Object)
        ensures
            r@ == entries@.fold_left(
                Seq::<(Seq<char>, Tree)>::empty(),
                |acc: Seq<(Seq<char>, Tree)>, e: (String, Value)| insert_entry(acc, e.0@, e.1@),
            ),
    {
        let mut out = Object::new();
        let mut rest = entries;
        let ghost mut taken: Seq<(String, Value)> = Seq::empty();
        let ghost all = entries@;
        proof {
            assert(taken =~= all.subrange(0, 0));
        }
        while rest.len() > 0
            invariant
                taken.len() + rest@.len() == all.len(),
                taken == all.subrange(0, taken.len() as int),
                rest@ == all.subrange(taken.len() as int, all.len() as int),
                out@ == taken.fold_left(
                    Seq::<(Seq<char>, Tree)>::empty(),
                    |acc: Seq<(Seq<char>, Tree)>, e: (String, Value)| insert_entry(acc, e.0@, e.1@),
                ),
            decreases rest@.len(),
        {
            let (k, v) = rest.remove(0);
            let ghost e = (k, v);
            proof {
                assert(e == all[taken.len() as int]);
            }
            let ghost before = taken;
            out.insert(k, v);
            proof {
                taken = taken.push(e);
                assert(taken.drop_last() =~= before);
                assert(taken =~= all.subrange(0, taken.len() as int));
            }
        }
        proof {
            assert(taken =~= all);
        }
        out
    }
}

impl Value {
    /// A full copy of the tree.
    pub fn deep_copy(&self) -> (r: Value)
        ensures
            r@ == self@,
        decreases self,
    {
        match self {
            Value::Null => Value::Null,
            Value::Undefined => Value::Undefined,
            Value::Boolean(b) => Value::Boolean(*b),
            Value::Number(n) => Value::Number(*n),
            Value::String(s) => Value::String(s.clone()),
            Value::Array(items) => {
                let mut out: Vec<Value> = Vec::new();
                let mut i: usize = 0;
                while i < items.len()
                    invariant
                        i <= items@.len(),
                        out@.len() == i,
                        self is Array,
                        self->Array_0 == *items,
                        forall|j: int| 0 <= j < i ==> out@[j]@ == items@[j]@,
                    decreases items@.len() - i,
                {
                    proof {
                        vstd::std_specs::vec::axiom_vec_index_decreases(*items, i as int);
                        assert(decreases_to!(self => self->Array_0));
                    }
                    out.push(items[i].deep_copy());
                    i = i + 1;
                }
                let r = Value::Array(out);
                proof {
                    r.lemma_array_view();
                    self.lemma_array_view();
                    assert(r@->Array_0 =~= self@->Array_0);
                }
                r
            },
            Value::Object(o) => Value::Object(o.deep_copy()),
            Value::DateTime(d) => Value::DateTime(*d),
        }
    }
}

impl Object {
    pub fn deep_copy(&self) -> (r: Object)
        ensures
            r@ == self@,
        decreases self,
    {
        let mut out: Vec<(String, Value)> = Vec::new();
        let mut i: usize = 0;
        while i < self.entries.len()
            invariant
                i <= self.entries@.len(),
                out@.len() == i,
                forall|j: int|
                    0 <= j < i ==> out@[j].0@ == self.entries@[j].0@ && out@[j].1@
                        == self.entries@[j].1@,
            decreases self.entries@.len() - i,
        {
            let e = &self.entries[i];
            assert(decreases_to!(*self => self.entries@[i as int].1));
            out.push((e.0.clone(), e.1.deep_copy()));
            i = i + 1;
        }
        proof {
            lemma_entries_of(out@);
            self.lemma_view();
            use_type_invariant(self);
            assert(entries_of(out@) =~= self@);
        }
        Object { entries: out }
    }
}

impl Clone for Value {
    fn clone(&self) -> (r: Value)
        ensures
            r@ == self@,
    {
        self.deep_copy()
    }
}

impl Clone for Object {
    fn clone(&self) -> (r: Object)
        ensures
            r@ == self@,
    {
        self.deep_copy()
    }
}

impl Value {
    /// How the model of an array relates to its elements.
    pub proof fn lemma_array_view(&self)
        requires
            *self is Array,
        ensures
            self@ is Array,
            self@->Array_0.len() == self->Array_0@.len(),
            forall|i: int|
                0 <= i < self->Array_0@.len() ==> #[trigger] self@->Array_0[i]
                    == self->Array_0@[i]@,
    {
        lemma_trees_of(self->Array_0@);
    }
}

impl Object {
    /// How the model of an object relates to its entries.
    proof fn lemma_view(self)
        ensures
            self@.len() == self.entries@.len(),
            forall|i: int|
                0 <= i < self.entries@.len() ==> #[trigger] self@[i] == (
                    self.entries@[i].0@,
                    self.entries@[i].1@,
                ),
    {
        lemma_entries_of(self.entries@);
    }
}

impl Tree {
    /// Equality of value trees: numbers compare by numeric value, objects as
    /// mappings (entry order is ignored), everything else structurally.
    pub open spec fn same(self, other: Tree) -> bool
        decreases self,
    {
        match (self, other) {
            (Tree::Null, Tree::Null) => true,
            (Tree::Undefined, Tree::Undefined) => true,
            (Tree::Boolean(a), Tree::Boolean(b)) => a == b,
            (Tree::Number(a), Tree::Number(b)) => a.same_value(b),
            (Tree::String(a), Tree::String(b)) => a == b,
            (Tree::DateTime(a), Tree::DateTime(b)) => a == b,
            (Tree::Array(a), Tree::Array(b)) => a.len() == b.len() && forall|i: int|
                0 <= i < a.len() ==> (#[trigger] a[i]).same(b[i]),
            (Tree::Object(a), Tree::Object(b)) => a.len() == b.len() && forall|i: int|
                0 <= i < a.len() ==> has_key(b, (#[trigger] a[i]).0) && a[i].1.same(
                    b[key_index(b, a[i].0)].1,
                ),
            _ => false,
        }
    }
}

impl Value {
    /// Value equality as `Tree::same` defines it.
    pub fn same_as(&self, other: &Value) -> (r: bool)
        ensures
            r == self@.same(other@),
        decreases self,
    {
        match (self, other) {
            (Value::Null, Value::Null) => true,
            (Value::Undefined, Value::Undefined) => true,
            (Value::Boolean(a), Value::Boolean(b)) => *a == *b,
            (Value::Number(a), Value::Number(b)) => a.same_as(b),
            (Value::String(a), Value::String(b)) => str_eq(a.as_str(), b.as_str()),
            (Value::DateTime(a), Value::DateTime(b)) => *a == *b,
            (Value::Array(a), Value::Array(b)) => {
                proof {
                    self.lemma_array_view();
                    other.lemma_array_view();
                }
                if a.len() != b.len() {
                    return false;
                }
                let mut i: usize = 0;
                while i < a.len()
                    invariant
                        i <= a@.len(),
                        a@.len() == b@.len(),
                        self is Array,
                        self->Array_0 == *a,
                        other is Array,
                        other->Array_0 == *b,
                        self@->Array_0.len() == a@.len(),
                        other@->Array_0.len() == b@.len(),
                        forall|j: int|
                            0 <= j < a@.len() ==> #[trigger] self@->Array_0[j] == a@[j]@,
                        forall|j: int|
                            0 <= j < b@.len() ==> #[trigger] other@->Array_0[j] == b@[j]@,
                        forall|j: int| 0 <= j < i ==> (#[trigger] a@[j]@).same(b@[j]@),
                    decreases a@.len() - i,
                {
                    proof {
                        vstd::std_specs::vec::axiom_vec_index_decreases(*a, i as int);
                        assert(decreases_to!(self => self->Array_0));
                    }
                    if !a[i].same_as(&b[i]) {
                        proof {
                            assert(!self@->Array_0[i as int].same(other@->Array_0[i as int]));
                        }
                        return false;
                    }
                    i = i + 1;
                }
                proof {
                    assert forall|j: int| 0 <= j < self@->Array_0.len() implies (
                    #[trigger] self@->Array_0[j]).same(other@->Array_0[j]) by {
                        assert(a@[j]@.same(b@[j]@));
                    }
                }
                true
            },
            (Value::Object(a), Value::Object(b)) => a.same_as(b),
            _ => false,
        }
    }
}

impl Object {
    /// Equality of objects as mappings.
    pub fn same_as(&self, other: &Object) -> (r: bool)
        ensures
            r == Tree::Object(self@).same(Tree::Object(other@)),
        decreases self,
    {
        proof {
            self.lemma_view();
            other.lemma_view();
        }
        if self.entries.len() != other.entries.len() {
            return false;
        }
        let mut i: usize = 0;
        while i < self.entries.len()
            invariant
                i <= self@.len(),
                self@.len() == other@.len(),
                self@.len() == self.entries@.len(),
                forall|k: int|
                    0 <= k < self.entries@.len() ==> #[trigger] self@[k] == (
                        self.entries@[k].0@,
                        self.entries@[k].1@,
                    ),
                forall|k: int|
                    0 <= k < i ==> has_key(other@, (#[trigger] self@[k]).0) && self@[k].1.same(
                        other@[key_index(other@, self@[k].0)].1,
                    ),
            decreases self@.len() - i,
        {
            let (ka, va) = (&self.entries[i].0, &self.entries[i].1);
            assert(decreases_to!(self => self.entries@[i as int].1));
            match other.find(ka.as_str()) {
                None => {
                    proof {
                        assert(!has_key(other@, self@[i as int].0));
                    }
                    return false;
                },
                Some(j) => {
                    let (_kb, vb) = other.entry(j);
                    if !va.same_as(vb) {
                        proof {
                            assert(!self@[i as int].1.same(
                                other@[key_index(other@, self@[i as int].0)].1,
                            ));
                        }
                        return false;
                    }
                },
            }
            i = i + 1;
        }
        true
    }
}

impl PartialEq for Value {
    fn eq(&self, other: &Value) -> (r: bool) {
        self.same_as(other)
    }
}

impl vstd::std_specs::cmp::PartialEqSpecImpl for Value {
    open spec fn obeys_eq_spec() -> bool {
        true
    }

    open spec fn eq_spec(&self, other: &Value) -> bool {
        self@.same(other@)
    }
}

impl PartialEq for Object {
    fn eq(&self, other: &Object) -> (r: bool) {
        self.same_as(other)
    }
}

impl vstd::std_specs::cmp::PartialEqSpecImpl for Object {
    open spec fn obeys_eq_spec() -> bool {
        true
    }

    open spec fn eq_spec(&self, other: &Object) -> bool {
        Tree::Object(self@).same(Tree::Object(other@))
    }
}

/// `n` written with exactly `width` decimal digits, zero-padded on the left.
pub open spec fn padded(n: nat, width: nat) -> Seq<char>
    decreases width,
{
    if width == 0 {
        Seq::empty()
    } else {
        padded(n / 10, (width - 1) as nat).push(digit_of(n % 10))
    }
}

/// Appends `n` to `out` as `width` zero-padded digits.
pub fn push_padded(out: &mut Vec<char>, n: u32, width: u32)
    requires
        width <= 10,
    ensures
        final(out)@ == old(out)@ + padded(n as nat, width as nat),
    decreases width,
{
    if width > 0 {
        push_padded(out, n / 10, width - 1);
        out.push(digit_exec((n % 10) as u128));
    }
}

impl DateTime {
    /// The ISO-8601 text `YYYY-MM-DDTHH:MM:SSZ`.
    pub open spec fn iso_text(self) -> Seq<char> {
        padded(self.year as nat, 4) + seq!['-'] + padded(self.month as nat, 2) + seq!['-']
            + padded(self.day as nat, 2) + seq!['T'] + padded(self.hour as nat, 2) + seq![':']
            + padded(self.minute as nat, 2) + seq![':'] + padded(self.second as nat, 2) + seq![
            'Z',
        ]
    }

    /// Appends the ISO-8601 text of the instant to `out`.
    pub fn push_iso8601(&self, out: &mut Vec<char>)
        ensures
            final(out)@ == old(out)@ + self.iso_text(),
    {
        push_padded(out, self.year as u32, 4);
        out.push('-');
        push_padded(out, self.month as u32, 2);
        out.push('-');
        push_padded(out, self.day as u32, 2);
        out.push('T');
        push_padded(out, self.hour as u32, 2);
        out.push(':');
        push_padded(out, self.minute as u32, 2);
        out.push(':');
        push_padded(out, self.second as u32, 2);
        out.push('Z');
        proof {
            assert(final(out)@ =~= old(out)@ + self.iso_text());
        }
    }
}

impl From<bool> for Value {
    fn from(v: bool) -> (r: Value) {
        Value::Boolean(v)
    }
}

impl vstd::std_specs::convert::FromSpecImpl<bool> for Value {
    open spec fn obeys_from_spec() -> bool {
        true
    }

    open spec fn from_spec(v: bool) -> Value {
        Value::Boolean(v)
    }
}

impl From<Number> for Value {
    fn from(v: Number) -> (r: Value) {
        Value::Number(v)
    }
}

impl vstd::std_specs::convert::FromSpecImpl<Number> for Value {
    open spec fn obeys_from_spec() -> bool {
        true
    }

    open spec fn from_spec(v: Number) -> Value {
        Value::Number(v)
    }
}

impl From<String> for Value {
    fn from(v: String) -> (r: Value) {
        Value::String(v)
    }
}

impl vstd::std_specs::convert::FromSpecImpl<String> for Value {
    open spec fn obeys_from_spec() -> bool {
        true
    }

    open spec fn from_spec(v: String) -> Value {
        Value::String(v)
    }
}

impl From<Vec<Value>> for Value {
    fn from(v: Vec<Value>) -> (r: Value) {
        Value::Array(v)
    }
}

impl vstd::std_specs::convert::FromSpecImpl<Vec<Value>> for Value {
    open spec fn obeys_from_spec() -> bool {
        true
    }

    open spec fn from_spec(v: Vec<Value>) -> Value {
        Value::Array(v)
    }
}

impl From<Object> for Value {
    fn from(v: Object) -> (r: Value) {
        Value::Object(v)
    }
}

impl vstd::std_specs::convert::FromSpecImpl<Object> for Value {
    open spec fn obeys_from_spec() -> bool {
        true
    }

    open spec fn from_spec(v: Object) -> Value {
        Value::Object(v)
    }
}

impl From<DateTime> for Value {
    fn from(v: DateTime) -> (r: Value) {
        Value::DateTime(v)
    }
}

impl vstd::std_specs::convert::FromSpecImpl<DateTime> for Value {
    open spec fn obeys_from_spec() -> bool {
        true
    }

    open spec fn from_spec(v: DateTime) -> Value {
        Value::DateTime(v)
    }
}

/// Conversion of native data into a value.
pub trait ToValueBehavior {
    /// The model of the value the conversion yields.
    spec fn value_model(&self) -> Tree;

    fn to_value(&self) -> (r: Value)
        ensures
            r@ == self.value_model(),
    ;
}

impl ToValueBehavior for bool {
    open spec fn value_model(&self) -> Tree {
        Tree::Boolean(*self)
    }

    fn to_value(&self) -> (r: Value) {
        Value::Boolean(*self)
    }
}

impl ToValueBehavior for str {
    open spec fn value_model(&self) -> Tree {
        Tree::String(self@)
    }

    fn to_value(&self) -> (r: Value) {
        Value::String(String::from_str(self))
    }
}

impl ToValueBehavior for String {
    open spec fn value_model(&self) -> Tree {
        Tree::String(self@)
    }

    fn to_value(&self) -> (r: Value) {
        Value::String(self.clone())
    }
}

impl ToValueBehavior for Value {
    open spec fn value_model(&self) -> Tree {
        self@
    }

    fn to_value(&self) -> (r: Value) {
        self.deep_copy()
    }
}

impl ToValueBehavior for Number {
    open spec fn value_model(&self) -> Tree {
        Tree::Number(*self)
    }

    fn to_value(&self) -> (r: Value) {
        Value::Number(*self)
    }
}

impl<T: ToValueBehavior> ToValueBehavior for Vec<T> {
    open spec fn value_model(&self) -> Tree {
        Tree::Array(
            Seq::new(
                self@.len(),
                |i: int|
                    if 0 <= i < self@.len() {
                        self@[i].value_model()
                    } else {
                        Tree::Null
                    },
            ),
        )
    }

    fn to_value(&self) -> (r: Value) {
        let mut out: Vec<Value> = Vec::new();
        let mut i: usize = 0;
        while i < self.len()
            invariant
                i <= self@.len(),
                out@.len() == i,
                forall|j: int| 0 <= j < i ==> #[trigger] out@[j]@ == self@[j].value_model(),
            decreases self@.len() - i,
        {
            out.push(self[i].to_value());
            i = i + 1;
        }
        let r = Value::Array(out);
        proof {
            r.lemma_array_view();
            assert(r@->Array_0 =~= self.value_model()->Array_0);
        }
        r
    }
}

impl ToValueBehavior for i8 {
    open spec fn value_model(&self) -> Tree {
        Tree::Number(Number::I8(*self))
    }

    fn to_value(&self) -> (r: Value) {
        Value::Number(Number::I8(*self))
    }
}

impl ToValueBehavior for i16 {
    open spec fn value_model(&self) -> Tree {
        Tree::Number(Number::I16(*self))
    }

    fn to_value(&self) -> (r: Value) {
        Value::Number(Number::I16(*self))
    }
}

impl ToValueBehavior for i32 {
    open spec fn value_model(&self) -> Tree {
        Tree::Number(Number::I32(*self))
    }

    fn to_value(&self) -> (r: Value) {
        Value::Number(Number::I32(*self))
    }
}

impl ToValueBehavior for i64 {
    open spec fn value_model(&self) -> Tree {
        Tree::Number(Number::I64(*self))
    }

    fn to_value(&self) -> (r: Value) {
        Value::Number(Number::I64(*self))
    }
}

impl ToValueBehavior for i128 {
    open spec fn value_model(&self) -> Tree {
        Tree::Number(Number::I128(*self))
    }

    fn to_value(&self) -> (r: Value) {
        Value::Number(Number::I128(*self))
    }
}

impl ToValueBehavior for u8 {
    open spec fn value_model(&self) -> Tree {
        Tree::Number(Number::U8(*self))
    }

    fn to_value(&self) -> (r: Value) {
        Value::Number(Number::U8(*self))
    }
}

impl ToValueBehavior for u16 {
    open spec fn value_model(&self) -> Tree {
        Tree::Number(Number::U16(*self))
    }

    fn to_value(&self) -> (r: Value) {
        Value::Number(Number::U16(*self))
    }
}

impl ToValueBehavior for u32 {
    open spec fn value_model(&self) -> Tree {
        Tree::Number(Number::U32(*self))
    }

    fn to_value(&self) -> (r: Value) {
        Value::Number(Number::U32(*self))
    }
}

impl ToValueBehavior for u64 {
    open spec fn value_model(&self) -> Tree {
        Tree::Number(Number::U64(*self))
    }

    fn to_value(&self) -> (r: Value) {
        Value::Number(Number::U64(*self))
    }
}

impl ToValueBehavior for u128 {
    open spec fn value_model(&self) -> Tree {
        Tree::Number(Number::U128(*self))
    }

    fn to_value(&self) -> (r: Value) {
        Value::Number(Number::U128(*self))
    }
}

impl Object {
    /// The entries of the object, in its order.
    pub fn into_entries(self) -> (r: Vec<(String, Value)>)
        ensures
            r@.len() == self@.len(),
            forall|i: int|
                0 <= i < r@.len() ==> (r@[i].0@, r@[i].1@) == #[trigger] self@[i],
    {
        proof {
            self.lemma_view();
        }
        self.entries
    }

    /// An object with the single entry `(k, v)`.
    pub fn single(k: String, v: Value) -> (r: Object)
        ensures
            r@ == seq![(k@, v@)],
    {
        let mut o = Object::new();
        o.insert(k, v);
        proof {
            assert(!has_key(Seq::<(Seq<char>, Tree)>::empty(), k@));
            assert(o@ =~= seq![(k@, v@)]);
        }
        o
    }
}

impl ToValueBehavior for char {
    open spec fn value_model(&self) -> Tree {
        Tree::String(seq![*self])
    }

    fn to_value(&self) -> (r: Value) {
        let mut cs: Vec<char> = Vec::new();
        cs.push(*self);
        proof {
            assert(cs@ =~= seq![*self]);
        }
        Value::String(crate::text::string_of(&cs))
    }
}

/// Converting native scalars keeps them: a boolean becomes that boolean, a
/// string or a character the same text, and an integer a number of its own
/// width holding it.
pub proof fn law_scalars_to_value(
    b: bool,
    s: &str,
    t: String,
    c: char,
    x0: i8,
    x1: i16,
    x2: i32,
    x3: i64,
    x4: i128,
    x5: u8,
    x6: u16,
    x7: u32,
    x8: u64,
    x9: u128,
)
    ensures
        b.value_model() == Tree::Boolean(b),
        s.value_model() == Tree::String(s@),
        t.value_model() == Tree::String(t@),
        c.value_model() == Tree::String(seq![c]),
        x0.value_model() == Tree::Number(Number::I8(x0)),
        x1.value_model() == Tree::Number(Number::I16(x1)),
        x2.value_model() == Tree::Number(Number::I32(x2)),
        x3.value_model() == Tree::Number(Number::I64(x3)),
        x4.value_model() == Tree::Number(Number::I128(x4)),
        x5.value_model() == Tree::Number(Number::U8(x5)),
        x6.value_model() == Tree::Number(Number::U16(x6)),
        x7.value_model() == Tree::Number(Number::U32(x7)),
        x8.value_model() == Tree::Number(Number::U64(x8)),
        x9.value_model() == Tree::Number(Number::U128(x9)),
{
}

} // verus!
