//! The value tree of a document, and its mathematical model.

use crate::error::ParserError;
use crate::grammar::{canonical_number, is_number_literal};
use crate::text::same_text;
use std::str::FromStr;
use vstd::prelude::*;

verus! {

/// The mathematical model of a document: what a `Value` stands for.
///
/// A number is its canonical text, so no digit is lost. An object is the
/// sequence of its members in stored order.
pub enum Json {
    Null,
    Bool(bool),
    Number(Seq<char>),
    String(Seq<char>),
    Array(Seq<Json>),
    Object(Seq<(Seq<char>, Json)>),
}

/// The first position from `from` on at which `ms` holds the key `key`.
pub open spec fn key_index(ms: Seq<(Seq<char>, Json)>, key: Seq<char>, from: int) -> Option<int>
    decreases ms.len() - from,
{
    if from < 0 || from >= ms.len() {
        None
    } else if ms[from].0 == key {
        Some(from)
    } else {
        key_index(ms, key, from + 1)
    }
}

/// The value that `ms` holds under `key`.
pub open spec fn lookup(ms: Seq<(Seq<char>, Json)>, key: Seq<char>) -> Option<Json> {
    match key_index(ms, key, 0) {
        Some(i) => Some(ms[i].1),
        None => None,
    }
}

/// `ms` with `value` under `key`: in the place of the member that had the
/// key, or at the end where none had it.
pub open spec fn insert(ms: Seq<(Seq<char>, Json)>, key: Seq<char>, value: Json) -> Seq<
    (Seq<char>, Json),
> {
    match key_index(ms, key, 0) {
        Some(i) => ms.update(i, (key, value)),
        None => ms.push((key, value)),
    }
}

/// No key occurs twice in `ms`.
pub open spec fn distinct_keys(ms: Seq<(Seq<char>, Json)>) -> bool {
    forall|i: int, j: int| 0 <= i < j < ms.len() ==> ms[i].0 != ms[j].0
}

impl Json {
    /// The document is well formed: each number is a number literal in
    /// canonical form, and no object holds a key twice.
    pub open spec fn wf(self) -> bool
        decreases self,
    {
        match self {
            Json::Number(t) => is_number_literal(t) && canonical_number(t) == t,
            Json::Array(xs) => forall|i: int| #![trigger xs[i]] 0 <= i < xs.len() ==> xs[i].wf(),
            Json::Object(ms) => distinct_keys(ms) && forall|i: int|
                #![trigger ms[i]]
                0 <= i < ms.len() ==> ms[i].1.wf(),
            _ => true,
        }
    }

    /// The member under `key`, where this is an object that has one.
    pub open spec fn member(self, key: Seq<char>) -> Option<Json> {
        match self {
            Json::Object(ms) => lookup(ms, key),
            _ => None,
        }
    }

    /// The element at `index`, where this is an array that has one.
    pub open spec fn element(self, index: int) -> Option<Json> {
        match self {
            Json::Array(xs) => if 0 <= index < xs.len() {
                Some(xs[index])
            } else {
                None
            },
            _ => None,
        }
    }
}

/// What `key_index` finds is the first member from `from` on with the key.
pub proof fn lemma_key_index(ms: Seq<(Seq<char>, Json)>, key: Seq<char>, from: int)
    requires
        0 <= from,
    ensures
        match key_index(ms, key, from) {
            Some(i) => from <= i < ms.len() && ms[i].0 == key && forall|j: int|
                from <= j < i ==> (#[trigger] ms[j]).0 != key,
            None => forall|j: int| from <= j < ms.len() ==> (#[trigger] ms[j]).0 != key,
        },
    decreases ms.len() - from,
{
    if from < ms.len() && ms[from].0 != key {
        lemma_key_index(ms, key, from + 1);
    }
}

/// After a value was put under a key, the key leads to that value, and each
/// other key to what it led to before.
pub proof fn lemma_lookup_after_insert(
    ms: Seq<(Seq<char>, Json)>,
    key: Seq<char>,
    value: Json,
    other: Seq<char>,
)
    ensures
        lookup(insert(ms, key, value), key) == Some(value),
        other != key ==> lookup(insert(ms, key, value), other) == lookup(ms, other),
{
    let after = insert(ms, key, value);
    lemma_key_index(ms, key, 0);
    lemma_key_index(after, key, 0);
    lemma_key_index(ms, other, 0);
    lemma_key_index(after, other, 0);
    match key_index(ms, key, 0) {
        Some(i) => {
            assert(after[i] == (key, value));
            assert forall|j: int| 0 <= j < ms.len() && j != i implies after[j] == ms[j] by {}
            if key_index(after, key, 0) is Some {
                let a = key_index(after, key, 0)->Some_0;
                if a < i {
                    assert(after[a] == ms[a]);
                }
            }
        },
        None => {
            assert(after[ms.len() as int] == (key, value));
            assert forall|j: int| 0 <= j < ms.len() implies after[j] == ms[j] by {}
            if key_index(after, key, 0) is Some {
                let a = key_index(after, key, 0)->Some_0;
                if a < ms.len() {
                    assert(after[a] == ms[a]);
                }
            }
        },
    }
    if other != key {
        match (key_index(ms, other, 0), key_index(after, other, 0)) {
            (Some(a), Some(b)) => {
                assert(after[a].0 == other);
                assert(ms[b].0 == other);
                if a < b {
                    assert(after[a].0 != other);
                }
                if b < a {
                    assert(ms[b].0 != other);
                }
            },
            (Some(a), None) => {
                assert(after[a].0 == other);
            },
            (None, Some(b)) => {
                assert(b < ms.len());
                assert(ms[b].0 == other);
            },
            (None, None) => {},
        }
    }
}

/// Putting a well-formed value under a key of a well-formed object leaves
/// the object well formed.
pub proof fn lemma_insert_wf(ms: Seq<(Seq<char>, Json)>, key: Seq<char>, value: Json)
    requires
        Json::Object(ms).wf(),
        value.wf(),
    ensures
        Json::Object(insert(ms, key, value)).wf(),
{
    lemma_key_index(ms, key, 0);
    let after = insert(ms, key, value);
    assert forall|i: int, j: int| 0 <= i < j < after.len() implies after[i].0 != after[j].0 by {
        if i < ms.len() {
            assert(after[i].0 == ms[i].0);
        }
        if j < ms.len() {
            assert(after[j].0 == ms[j].0);
        }
    }
    assert forall|i: int| 0 <= i < after.len() implies (#[trigger] after[i]).1.wf() by {
        if i < ms.len() && after[i] != (key, value) {
            assert(after[i] == ms[i]);
        }
    }
}

/// Each element of a well-formed array is well formed.
pub proof fn lemma_element_wf(xs: Seq<Json>, i: int)
    requires
        Json::Array(xs).wf(),
        0 <= i < xs.len(),
    ensures
        xs[i].wf(),
{
    let v = Json::Array(xs);
    assert(v->Array_0 == xs);
    assert(v->Array_0[i].wf());
}

/// An array of well-formed elements is well formed.
pub proof fn lemma_elements_wf(xs: Seq<Json>)
    requires
        forall|i: int| 0 <= i < xs.len() ==> (#[trigger] xs[i]).wf(),
    ensures
        Json::Array(xs).wf(),
{
    let v = Json::Array(xs);
    assert(v->Array_0 == xs);
    assert forall|i: int| 0 <= i < v->Array_0.len() implies (#[trigger] v->Array_0[i]).wf() by {
        assert(xs[i].wf());
    }
}

/// Each member of a well-formed object is well formed, and no two members
/// have the same key.
pub proof fn lemma_member_wf(ms: Seq<(Seq<char>, Json)>, i: int)
    requires
        Json::Object(ms).wf(),
        0 <= i < ms.len(),
    ensures
        ms[i].1.wf(),
        distinct_keys(ms),
{
    let v = Json::Object(ms);
    assert(v->Object_0 == ms);
    assert(v->Object_0[i].1.wf());
}

/// A well-formed array with one more well-formed element is well formed.
pub proof fn lemma_push_wf(xs: Seq<Json>, x: Json)
    requires
        Json::Array(xs).wf(),
        x.wf(),
    ensures
        Json::Array(xs.push(x)).wf(),
{
    let next = xs.push(x);
    assert forall|i: int| 0 <= i < next.len() implies (#[trigger] next[i]).wf() by {
        if i < xs.len() {
            assert(next[i] == xs[i]);
            lemma_element_wf(xs, i);
        }
    }
    lemma_elements_wf(next);
}

/// The error of serde_json, which `Number::from_str` returns.
#[verifier::external_type_specification]
#[verifier::external_body]
pub struct ExNumberError(serde_json::Error);

/// `serde_json::Number::from_str`, and the `Display` of the number that it
/// gives. serde_json is built with `arbitrary_precision`, under which a number
/// keeps the text it was parsed from. The call succeeds on exactly the number
/// literals of JSON, with nothing before or after them, and the text that
/// comes back is the literal as it was given, but for the exponent: its mark
/// is written as a small `e`, and a sign is put where none stood.
#[verifier::external_body]
fn number_text(literal: &str) -> (r: Result<String, serde_json::Error>)
    ensures
        r matches Ok(t) ==> is_number_literal(literal@) && t@ == canonical_number(literal@),
        r is Err ==> !is_number_literal(literal@),
{
    match serde_json::Number::from_str(literal) {
        Ok(n) => Ok(n.to_string()),
        Err(e) => Err(e),
    }
}

/// A number of a document, kept as its canonical text.
#[derive(Debug)]
pub struct Number {
    text: String,
}

impl View for Number {
    type V = Seq<char>;

    closed spec fn view(&self) -> Seq<char> {
        self.text@
    }
}

impl Number {
    /// The number that the literal `literal` spells, where it is a number
    /// literal of JSON.
    pub fn parse(literal: &str) -> (r: Result<Number, ParserError>)
        ensures
            is_number_literal(literal@) ==> (r matches Ok(n) && n@ == canonical_number(literal@)),
            !is_number_literal(literal@) ==> r == Err::<Number, ParserError>(
                ParserError::JsonParseError,
            ),
    {
        match number_text(literal) {
            Ok(text) => Ok(Number { text }),
            Err(_) => Err(ParserError::JsonParseError),
        }
    }

    /// The canonical text of the number.
    pub fn as_str(&self) -> (r: &str)
        ensures
            r@ == self@,
    {
        self.text.as_str()
    }
}

impl Clone for Number {
    fn clone(&self) -> (r: Self)
        ensures
            r@ == self@,
    {
        Number { text: self.text.clone() }
    }
}

/// A document, or a part of one.
#[derive(Debug)]
pub enum Value {
    Null,
    Bool(bool),
    Number(Number),
    String(String),
    /// The elements, in order.
    Array(Vec<Value>),
    /// The members, in stored order.
    Object(Vec<(String, Value)>),
}

impl View for Value {
    type V = Json;

    open spec fn view(&self) -> Json
        decreases self, 0nat,
    {
        match self {
            Value::Null => Json::Null,
            Value::Bool(b) => Json::Bool(*b),
            Value::Number(n) => Json::Number(n@),
            Value::String(s) => Json::String(s@),
            Value::Array(items) => Json::Array(first_items(items@, items@.len())),
            Value::Object(members) => Json::Object(first_members(members@, members@.len())),
        }
    }
}

/// What the first `n` of the elements `items` stand for.
pub open spec fn first_items(items: Seq<Value>, n: nat) -> Seq<Json>
    decreases items, n,
{
    if n == 0 || n > items.len() {
        Seq::empty()
    } else {
        first_items(items, (n - 1) as nat).push(items[n - 1]@)
    }
}

/// What the first `n` of the members `members` stand for.
pub open spec fn first_members(members: Seq<(String, Value)>, n: nat) -> Seq<(Seq<char>, Json)>
    decreases members, n,
{
    if n == 0 || n > members.len() {
        Seq::empty()
    } else {
        first_members(members, (n - 1) as nat).push((members[n - 1].0@, members[n - 1].1@))
    }
}

/// What the elements `items` stand for.
pub open spec fn items_view(items: Seq<Value>) -> Seq<Json> {
    Seq::new(items.len(), |i: int| items[i]@)
}

/// What the members `members` stand for.
pub open spec fn members_view(members: Seq<(String, Value)>) -> Seq<(Seq<char>, Json)> {
    Seq::new(members.len(), |i: int| (members[i].0@, members[i].1@))
}

/// The first `n` elements stand for the first `n` of what all stand for.
proof fn lemma_first_items(items: Seq<Value>, n: nat)
    requires
        n <= items.len(),
    ensures
        first_items(items, n) == items_view(items).take(n as int),
    decreases n,
{
    if n > 0 {
        lemma_first_items(items, (n - 1) as nat);
        assert(first_items(items, n) == first_items(items, (n - 1) as nat).push(items[n - 1]@));
        assert(items_view(items).take(n - 1).push(items[n - 1]@) =~= items_view(items).take(
            n as int,
        ));
    } else {
        assert(first_items(items, n) =~= items_view(items).take(n as int));
    }
}

/// The first `n` members stand for the first `n` of what all stand for.
proof fn lemma_first_members(members: Seq<(String, Value)>, n: nat)
    requires
        n <= members.len(),
    ensures
        first_members(members, n) == members_view(members).take(n as int),
    decreases n,
{
    if n > 0 {
        lemma_first_members(members, (n - 1) as nat);
        assert(first_members(members, n) == first_members(members, (n - 1) as nat).push(
            (members[n - 1].0@, members[n - 1].1@),
        ));
        assert(members_view(members).take(n - 1).push((members[n - 1].0@, members[n - 1].1@))
            =~= members_view(members).take(n as int));
    } else {
        assert(first_members(members, n) =~= members_view(members).take(n as int));
    }
}

/// An array stands for the array of what its elements stand for.
pub proof fn lemma_array_view(items: Vec<Value>)
    ensures
        Value::Array(items)@ == Json::Array(items_view(items@)),
{
    lemma_first_items(items@, items@.len());
    assert(items_view(items@).take(items@.len() as int) =~= items_view(items@));
}

/// An object stands for the object of what its members stand for.
pub proof fn lemma_object_view(members: Vec<(String, Value)>)
    ensures
        Value::Object(members)@ == Json::Object(members_view(members@)),
{
    lemma_first_members(members@, members@.len());
    assert(members_view(members@).take(members@.len() as int) =~= members_view(members@));
}

/// Pushing an element pushes what it stands for.
pub proof fn lemma_items_push(items: Seq<Value>, v: Value)
    ensures
        items_view(items.push(v)) == items_view(items).push(v@),
{
    assert(items_view(items.push(v)) =~= items_view(items).push(v@));
}

/// Pushing a member pushes what it stands for.
pub proof fn lemma_members_push(members: Seq<(String, Value)>, k: String, v: Value)
    ensures
        members_view(members.push((k, v))) == members_view(members).push((k@, v@)),
{
    assert(members_view(members.push((k, v))) =~= members_view(members).push((k@, v@)));
}

/// Replacing a member replaces what it stands for.
pub proof fn lemma_members_update(members: Seq<(String, Value)>, i: int, k: String, v: Value)
    requires
        0 <= i < members.len(),
    ensures
        members_view(members.update(i, (k, v))) == members_view(members).update(i, (k@, v@)),
{
    assert(members_view(members.update(i, (k, v))) =~= members_view(members).update(i, (k@, v@)));
}

/// The place of the key `key` among `members`.
pub fn find_key(members: &Vec<(String, Value)>, key: &str) -> (r: Option<usize>)
    ensures
        match key_index(members_view(members@), key@, 0) {
            Some(i) => r == Some(i as usize) && 0 <= i < members.len(),
            None => r is None,
        },
{
    let mut i: usize = 0;
    while i < members.len()
        invariant
            0 <= i <= members.len(),
            key_index(members_view(members@), key@, 0) == key_index(
                members_view(members@),
                key@,
                i as int,
            ),
        decreases members.len() - i,
    {
        if same_text(members[i].0.as_str(), key) {
            return Some(i);
        }
        i += 1;
    }
    None
}

impl Value {
    /// This is an object.
    pub fn is_object(&self) -> (b: bool)
        ensures
            b == (self@ is Object),
    {
        match self {
            Value::Object(_) => true,
            _ => false,
        }
    }

    /// This is an array.
    pub fn is_array(&self) -> (b: bool)
        ensures
            b == (self@ is Array),
    {
        match self {
            Value::Array(_) => true,
            _ => false,
        }
    }

    /// This is a string.
    pub fn is_string(&self) -> (b: bool)
        ensures
            b == (self@ is String),
    {
        match self {
            Value::String(_) => true,
            _ => false,
        }
    }

    /// The text, where this is a string.
    pub fn as_str(&self) -> (r: Option<&str>)
        ensures
            match self@ {
                Json::String(s) => r matches Some(t) && t@ == s,
                _ => r is None,
            },
    {
        match self {
            Value::String(s) => Some(s.as_str()),
            _ => None,
        }
    }

    /// The member under `key`, where this is an object that has one.
    pub fn get(&self, key: &str) -> (r: Option<&Value>)
        ensures
            match self@.member(key@) {
                Some(j) => r matches Some(v) && v@ == j,
                None => r is None,
            },
    {
        match self {
            Value::Object(members) => {
                proof {
                    lemma_object_view(*members);
                }
                match find_key(members, key) {
                    Some(i) => Some(&members[i].1),
                    None => None,
                }
            },
            _ => None,
        }
    }

    /// The element at `index`, where this is an array that has one.
    pub fn get_index(&self, index: usize) -> (r: Option<&Value>)
        ensures
            match self@.element(index as int) {
                Some(j) => r matches Some(v) && v@ == j,
                None => r is None,
            },
    {
        match self {
            Value::Array(items) => {
                proof {
                    lemma_array_view(*items);
                }
                if index < items.len() {
                    Some(&items[index])
                } else {
                    None
                }
            },
            _ => None,
        }
    }
}

impl Clone for Value {
    #[verifier::loop_isolation(false)]
    fn clone(&self) -> (r: Self)
        ensures
            r@ == self@,
        decreases self,
    {
        match self {
            Value::Null => Value::Null,
            Value::Bool(b) => Value::Bool(*b),
            Value::Number(n) => Value::Number(n.clone()),
            Value::String(s) => Value::String(s.clone()),
            Value::Array(items) => {
                let mut out: Vec<Value> = Vec::new();
                let mut i: usize = 0;
                while i < items.len()
                    invariant
                        0 <= i <= items.len(),
                        items_view(out@) == items_view(items@).take(i as int),
                    decreases items.len() - i,
                {
                    let item = items[i].clone();
                    proof {
                        lemma_items_push(out@, item);
                        assert(items_view(items@).take(i + 1) =~= items_view(items@).take(
                            i as int,
                        ).push(items@[i as int]@));
                    }
                    out.push(item);
                    i += 1;
                }
                proof {
                    lemma_array_view(*items);
                    lemma_array_view(out);
                    assert(items_view(items@).take(i as int) =~= items_view(items@));
                }
                Value::Array(out)
            },
            Value::Object(members) => {
                let mut out: Vec<(String, Value)> = Vec::new();
                let mut i: usize = 0;
                while i < members.len()
                    invariant
                        0 <= i <= members.len(),
                        members_view(out@) == members_view(members@).take(i as int),
                    decreases members.len() - i,
                {
                    let key = members[i].0.clone();
                    let value = members[i].1.clone();
                    proof {
                        lemma_members_push(out@, key, value);
                        assert(members_view(members@).take(i + 1) =~= members_view(
                            members@,
                        ).take(i as int).push((members@[i as int].0@, members@[i as int].1@)));
                    }
                    out.push((key, value));
                    i += 1;
                }
                proof {
                    lemma_object_view(*members);
                    lemma_object_view(out);
                    assert(members_view(members@).take(i as int) =~= members_view(members@));
                }
                Value::Object(out)
            },
        }
    }
}


impl PartialEq for Number {
    fn eq(&self, other: &Self) -> (r: bool) {
        self.text == other.text
    }
}

impl vstd::std_specs::cmp::PartialEqSpecImpl for Number {
    open spec fn obeys_eq_spec() -> bool {
        true
    }

    open spec fn eq_spec(&self, other: &Self) -> bool {
        self@ == other@
    }
}

/// `a` and `b` stand for the same document: the same kind of value, the
/// same text of a number or a string, the same elements, and the same
/// members in the same order.
#[verifier::loop_isolation(false)]
pub fn same_value(a: &Value, b: &Value) -> (r: bool)
    ensures
        r == (a@ == b@),
    decreases a,
{
    match (a, b) {
        (Value::Null, Value::Null) => true,
        (Value::Bool(x), Value::Bool(y)) => *x == *y,
        (Value::Number(x), Value::Number(y)) => *x == *y,
        (Value::String(x), Value::String(y)) => *x == *y,
        (Value::Array(x), Value::Array(y)) => {
            proof {
                lemma_array_view(*x);
                lemma_array_view(*y);
            }
            if x.len() != y.len() {
                assert(items_view(x@).len() != items_view(y@).len());
                return false;
            }
            let mut k: usize = 0;
            while k < x.len()
                invariant
                    0 <= k <= x.len(),
                    forall|i: int| 0 <= i < k ==> items_view(x@)[i] == items_view(y@)[i],
                decreases x.len() - k,
            {
                if !same_value(&x[k], &y[k]) {
                    assert(items_view(x@)[k as int] != items_view(y@)[k as int]);
                    return false;
                }
                k += 1;
            }
            assert(items_view(x@) =~= items_view(y@));
            true
        },
        (Value::Object(x), Value::Object(y)) => {
            proof {
                lemma_object_view(*x);
                lemma_object_view(*y);
            }
            if x.len() != y.len() {
                assert(members_view(x@).len() != members_view(y@).len());
                return false;
            }
            let mut k: usize = 0;
            while k < x.len()
                invariant
                    0 <= k <= x.len(),
                    forall|i: int| 0 <= i < k ==> members_view(x@)[i] == members_view(y@)[i],
                decreases x.len() - k,
            {
                if !(x[k].0 == y[k].0 && same_value(&x[k].1, &y[k].1)) {
                    assert(members_view(x@)[k as int] != members_view(y@)[k as int]);
                    return false;
                }
                k += 1;
            }
            assert(members_view(x@) =~= members_view(y@));
            true
        },
        _ => false,
    }
}

impl PartialEq for Value {
    fn eq(&self, other: &Self) -> (r: bool) {
        same_value(self, other)
    }
}

impl vstd::std_specs::cmp::PartialEqSpecImpl for Value {
    open spec fn obeys_eq_spec() -> bool {
        true
    }

    open spec fn eq_spec(&self, other: &Self) -> bool {
        self@ == other@
    }
}

} // verus!
