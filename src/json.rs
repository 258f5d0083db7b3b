use vstd::prelude::*;
use crate::number::{Integral, Floating};
use crate::text::{chars_order, compare_text, copy_text, lemma_chars_order_flip, lemma_chars_order_trans};

verus! {

/// A JSON value. Numbers keep the text they were written with; objects keep
/// their properties sorted by key, each key once.
#[derive(Debug)]
pub enum Json {
    Null,
    Bool(bool),
    Integer(Integral),
    Float(Floating),
    String(String),
    Array(Vec<Json>),
    Object(Vec<Property>),
    /// A value that failed to parse or validate, with its message.
    Error(String),
}

/// One member of an object: a key and its value.
#[derive(Debug)]
pub struct Property {
    pub key: String,
    pub value: Json,
}

impl Property {
    pub fn new(key: &str, value: Json) -> (r: Property)
        ensures
            r.key@ == key@,
            r.value == value,
    {
        Property { key: copy_text(key), value }
    }

    pub fn key_ref(&self) -> (r: &String)
        ensures
            r == &self.key,
    {
        &self.key
    }

    pub fn value_ref(&self) -> (r: &Json)
        ensures
            r == &self.value,
    {
        &self.value
    }
}

/// Keys strictly increase along the store, so no key occurs twice.
pub open spec fn props_sorted(ps: Seq<Property>) -> bool {
    forall|i: int, j: int|
        0 <= i < j < ps.len() ==> chars_order(#[trigger] ps[i].key@, #[trigger] ps[j].key@)
            == core::cmp::Ordering::Less
}

/// Every object reachable from the value keeps its store sorted.
pub open spec fn well_formed(j: Json) -> bool
    decreases j,
{
    match j {
        Json::Array(v) => forall|i: int| 0 <= i < v@.len() ==> well_formed(#[trigger] v@[i]),
        Json::Object(ps) => props_sorted(ps@) && forall|i: int|
            0 <= i < ps@.len() ==> well_formed(#[trigger] ps@[i].value),
        _ => true,
    }
}

/// `qs` is `ps` with `item` placed: over the member of the same key, else added.
pub open spec fn placed(ps: Seq<Property>, qs: Seq<Property>, item: Property) -> bool {
    ||| exists|i: int| 0 <= i < ps.len() && ps[i].key@ == item.key@ && qs == ps.update(i, item)
    ||| (forall|i: int| 0 <= i < ps.len() ==> ps[i].key@ != item.key@) && exists|i: int|
        0 <= i <= ps.len() && qs == ps.insert(i, item)
}

/// Binary search of a sorted store: the index of `key`, or where it would go.
pub fn search_by_key(ps: &Vec<Property>, key: &str) -> (r: Result<usize, usize>)
    requires
        props_sorted(ps@),
    ensures
        r matches Ok(i) ==> i < ps@.len() && ps@[i as int].key@ == key@,
        r matches Err(i) ==> i <= ps@.len()
            && (forall|j: int| 0 <= j < i ==> chars_order(#[trigger] ps@[j].key@, key@) == core::cmp::Ordering::Less)
            && (forall|j: int| i <= j < ps@.len() ==> chars_order(key@, #[trigger] ps@[j].key@) == core::cmp::Ordering::Less),
{
    let mut lo: usize = 0;
    let mut hi: usize = ps.len();
    while lo < hi
        invariant
            props_sorted(ps@),
            lo <= hi <= ps@.len(),
            forall|j: int| 0 <= j < lo ==> chars_order(#[trigger] ps@[j].key@, key@) == core::cmp::Ordering::Less,
            forall|j: int| hi <= j < ps@.len() ==> chars_order(key@, #[trigger] ps@[j].key@) == core::cmp::Ordering::Less,
        decreases hi - lo,
    {
        let mid = lo + (hi - lo) / 2;
        let c = compare_text(ps[mid].key.as_str(), key);
        match c {
            core::cmp::Ordering::Equal => {
                proof { lemma_chars_order_flip(ps@[mid as int].key@, key@); }
                return Ok(mid);
            },
            core::cmp::Ordering::Less => {
                assert forall|j: int| 0 <= j < mid + 1 implies chars_order(#[trigger] ps@[j].key@, key@)
                    == core::cmp::Ordering::Less by {
                    if j < mid {
                        lemma_chars_order_trans(ps@[j].key@, ps@[mid as int].key@, key@);
                    }
                }
                lo = mid + 1;
            },
            core::cmp::Ordering::Greater => {
                proof { lemma_chars_order_flip(key@, ps@[mid as int].key@); }
                assert forall|j: int| mid <= j < ps@.len() implies chars_order(key@, #[trigger] ps@[j].key@)
                    == core::cmp::Ordering::Less by {
                    if j > mid {
                        lemma_chars_order_trans(key@, ps@[mid as int].key@, ps@[j].key@);
                    }
                }
                hi = mid;
            },
        }
    }
    Err(lo)
}

/// Places `item` in a sorted store: over the member of the same key, else at
/// its sorted position.
pub fn insert_property(ps: &mut Vec<Property>, item: Property)
    requires
        props_sorted(old(ps)@),
    ensures
        props_sorted(final(ps)@),
        placed(old(ps)@, final(ps)@, item),
{
    match search_by_key(ps, item.key.as_str()) {
        Ok(off) => {
            ps.set(off, item);
            assert(forall|j: int| 0 <= j < ps@.len() ==> ps@[j].key@ == old(ps)@[j].key@);
            assert(placed(old(ps)@, ps@, item));
        },
        Err(off) => {
            proof {
                assert forall|j: int| 0 <= j < old(ps)@.len() implies old(ps)@[j].key@ != item.key@ by {
                    lemma_chars_order_flip(old(ps)@[j].key@, item.key@);
                    lemma_chars_order_flip(item.key@, old(ps)@[j].key@);
                }
            }
            ps.insert(off, item);
            assert(ps@ == old(ps)@.insert(off as int, item));
            assert forall|i: int, j: int| 0 <= i < j < ps@.len() implies chars_order(
                #[trigger] ps@[i].key@,
                #[trigger] ps@[j].key@,
            ) == core::cmp::Ordering::Less by {
                if j < off {
                } else if j == off {
                } else if i < off {
                    lemma_chars_order_trans(ps@[i].key@, item.key@, ps@[j].key@);
                } else if i == off {
                } else {
                    assert(old(ps)@[i - 1] == ps@[i]);
                    assert(old(ps)@[j - 1] == ps@[j]);
                }
            }
        },
    }
}

/// Places a property into an object value; any other value is left as it is.
pub fn insert(json: &mut Json, item: Property)
    requires
        *old(json) matches Json::Object(ps) ==> props_sorted(ps@),
    ensures
        match *old(json) {
            Json::Object(ps) => match *final(json) {
                Json::Object(qs) => props_sorted(qs@) && placed(ps@, qs@, item),
                _ => false,
            },
            _ => *final(json) == *old(json),
        },
{
    if let Json::Object(obj) = json {
        insert_property(obj, item);
    }
}

/// `b` is a copy of `a`: the same variant, the same texts and numbers, all the way down.
pub open spec fn same(a: Json, b: Json) -> bool
    decreases a,
{
    match a {
        Json::Null => b is Null,
        Json::Bool(x) => b == Json::Bool(x),
        Json::Integer(x) => match b {
            Json::Integer(y) => x.txt@ == y.txt@ && x.val == y.val,
            _ => false,
        },
        Json::Float(x) => match b {
            Json::Float(y) => x.txt@ == y.txt@ && x.bits == y.bits,
            _ => false,
        },
        Json::String(x) => match b {
            Json::String(y) => x@ == y@,
            _ => false,
        },
        Json::Array(v) => match b {
            Json::Array(w) => v@.len() == w@.len() && forall|i: int|
                0 <= i < v@.len() ==> same(#[trigger] v@[i], w@[i]),
            _ => false,
        },
        Json::Object(ps) => match b {
            Json::Object(qs) => ps@.len() == qs@.len() && forall|i: int|
                0 <= i < ps@.len() ==> (#[trigger] ps@[i]).key@ == qs@[i].key@ && same(ps@[i].value, qs@[i].value),
            _ => false,
        },
        Json::Error(x) => match b {
            Json::Error(y) => x@ == y@,
            _ => false,
        },
    }
}

pub open spec fn same_items(v: Seq<Json>, w: Seq<Json>) -> bool {
    v.len() == w.len() && forall|i: int| 0 <= i < v.len() ==> same(#[trigger] v[i], w[i])
}

pub open spec fn same_props(ps: Seq<Property>, qs: Seq<Property>) -> bool {
    ps.len() == qs.len() && forall|i: int|
        0 <= i < ps.len() ==> (#[trigger] ps[i]).key@ == qs[i].key@ && same(ps[i].value, qs[i].value)
}

/// Name of a value's variant, as diagnostics print it.
pub open spec fn kind_name(j: Json) -> Seq<char> {
    match j {
        Json::Null => "null"@,
        Json::Bool(_) => "bool"@,
        Json::Integer(_) => "integer"@,
        Json::Float(_) => "float"@,
        Json::String(_) => "string"@,
        Json::Array(_) => "array"@,
        Json::Object(_) => "object"@,
        Json::Error(_) => "error"@,
    }
}

/// Every integer numeral in the value denotes a 128-bit integer.
pub open spec fn numbers_valid(j: Json) -> bool
    decreases j,
{
    match j {
        Json::Integer(x) => x.value().is_some(),
        Json::Array(v) => forall|i: int| 0 <= i < v@.len() ==> numbers_valid(#[trigger] v@[i]),
        Json::Object(ps) => forall|i: int| 0 <= i < ps@.len() ==> numbers_valid(#[trigger] ps@[i].value),
        _ => true,
    }
}

/// Every integer numeral in the value keeps its computed value.
pub open spec fn numbers_computed(j: Json) -> bool
    decreases j,
{
    match j {
        Json::Integer(x) => x.val.is_some(),
        Json::Array(v) => forall|i: int| 0 <= i < v@.len() ==> numbers_computed(#[trigger] v@[i]),
        Json::Object(ps) => forall|i: int| 0 <= i < ps@.len() ==> numbers_computed(#[trigger] ps@[i].value),
        _ => true,
    }
}

/// `n` is `o` where some integer numerals have had their value computed and kept.
pub open spec fn computed_from(o: Json, n: Json) -> bool
    decreases o,
{
    match o {
        Json::Integer(x) => match n {
            Json::Integer(y) => y.txt == x.txt && (y.val == x.val || (x.val.is_none() && y.val == x.value())),
            _ => false,
        },
        Json::Array(v) => match n {
            Json::Array(w) => v@.len() == w@.len() && forall|i: int|
                0 <= i < v@.len() ==> computed_from(#[trigger] v@[i], w@[i]),
            _ => false,
        },
        Json::Object(ps) => match n {
            Json::Object(qs) => ps@.len() == qs@.len() && forall|i: int|
                0 <= i < ps@.len() ==> (#[trigger] ps@[i]).key == qs@[i].key && computed_from(ps@[i].value, qs@[i].value),
            _ => false,
        },
        _ => n == o,
    }
}

/// Index of the first element holding an invalid integer numeral, from `j` on.
pub open spec fn first_invalid(v: Seq<Json>, j: int) -> int
    decreases v.len() - j,
{
    if j < 0 || j >= v.len() {
        v.len() as int
    } else if !numbers_valid(v[j]) {
        j
    } else {
        first_invalid(v, j + 1)
    }
}

/// Index of the first member whose value holds an invalid integer numeral.
pub open spec fn first_invalid_prop(ps: Seq<Property>, j: int) -> int
    decreases ps.len() - j,
{
    if j < 0 || j >= ps.len() {
        ps.len() as int
    } else if !numbers_valid(ps[j].value) {
        j
    } else {
        first_invalid_prop(ps, j + 1)
    }
}

/// `n` is `o` after a computation that stopped at the first invalid integer
/// numeral: numerals before it may have been computed, the failing one and
/// everything after it are as they were.
pub open spec fn halted(o: Json, n: Json) -> bool
    decreases o,
{
    match o {
        Json::Array(v) => match n {
            Json::Array(w) => {
                let i = first_invalid(v@, 0);
                &&& v@.len() == w@.len()
                &&& 0 <= i < v@.len()
                &&& halted(v@[i], w@[i])
                &&& forall|k: int| 0 <= k < i ==> computed_from(#[trigger] v@[k], w@[k])
                &&& forall|k: int| i < k < v@.len() ==> #[trigger] w@[k] == v@[k]
            },
            _ => false,
        },
        Json::Object(ps) => match n {
            Json::Object(qs) => {
                let i = first_invalid_prop(ps@, 0);
                &&& ps@.len() == qs@.len()
                &&& 0 <= i < ps@.len()
                &&& ps@[i].key == qs@[i].key
                &&& halted(ps@[i].value, qs@[i].value)
                &&& forall|k: int| 0 <= k < i ==> (#[trigger] ps@[k]).key == qs@[k].key && computed_from(ps@[k].value, qs@[k].value)
                &&& forall|k: int| i < k < ps@.len() ==> #[trigger] qs@[k] == ps@[k]
            },
            _ => false,
        },
        _ => n == o,
    }
}

proof fn lemma_first_invalid(v: Seq<Json>, j: int, i: int)
    requires
        0 <= j <= i < v.len(),
        forall|k: int| j <= k < i ==> numbers_valid(#[trigger] v[k]),
        !numbers_valid(v[i]),
    ensures
        first_invalid(v, j) == i,
    decreases i - j,
{
    if j < i {
        lemma_first_invalid(v, j + 1, i);
    }
}

proof fn lemma_first_invalid_prop(ps: Seq<Property>, j: int, i: int)
    requires
        0 <= j <= i < ps.len(),
        forall|k: int| j <= k < i ==> numbers_valid(#[trigger] ps[k].value),
        !numbers_valid(ps[i].value),
    ensures
        first_invalid_prop(ps, j) == i,
    decreases i - j,
{
    if j < i {
        lemma_first_invalid_prop(ps, j + 1, i);
    }
}

fn copy_items(v: &Vec<Json>) -> (r: Vec<Json>)
    ensures
        same_items(v@, r@),
    decreases v@,
{
    let mut r: Vec<Json> = Vec::new();
    let mut i: usize = 0;
    while i < v.len()
        invariant
            i <= v@.len(),
            r@.len() == i,
            forall|k: int| 0 <= k < i ==> same(#[trigger] v@[k], r@[k]),
        decreases v@.len() - i,
    {
        assert(decreases_to!(v@ => v@[i as int]));
        let x = v[i].deep_copy();
        r.push(x);
        i = i + 1;
    }
    r
}

fn copy_props(ps: &Vec<Property>) -> (r: Vec<Property>)
    ensures
        same_props(ps@, r@),
    decreases ps@,
{
    let mut r: Vec<Property> = Vec::new();
    let mut i: usize = 0;
    while i < ps.len()
        invariant
            i <= ps@.len(),
            r@.len() == i,
            forall|k: int| 0 <= k < i ==> (#[trigger] ps@[k]).key@ == r@[k].key@ && same(ps@[k].value, r@[k].value),
        decreases ps@.len() - i,
    {
        assert(decreases_to!(ps@ => ps@[i as int].value));
        let x = ps[i].value.deep_copy();
        r.push(Property { key: copy_text(ps[i].key.as_str()), value: x });
        i = i + 1;
    }
    r
}

impl Clone for Json {
    fn clone(&self) -> Json {
        self.deep_copy()
    }
}

impl Clone for Property {
    fn clone(&self) -> Property {
        Property { key: copy_text(self.key.as_str()), value: self.value.deep_copy() }
    }
}

impl Json {
    /// A copy of the whole value.
    pub fn deep_copy(&self) -> (r: Json)
        ensures
            same(*self, r),
        decreases *self,
    {
        match self {
            Json::Null => Json::Null,
            Json::Bool(b) => Json::Bool(*b),
            Json::Integer(x) => Json::Integer(Integral { txt: copy_text(x.txt.as_str()), val: x.val }),
            Json::Float(x) => Json::Float(Floating { txt: copy_text(x.txt.as_str()), bits: x.bits }),
            Json::String(s) => Json::String(copy_text(s.as_str())),
            Json::Array(v) => Json::Array(copy_items(v)),
            Json::Object(ps) => Json::Object(copy_props(ps)),
            Json::Error(s) => Json::Error(copy_text(s.as_str())),
        }
    }
}

impl Json {
    pub fn typename(&self) -> (r: String)
        ensures
            r@ == kind_name(*self),
    {
        let s = match self {
            Json::Null => "null",
            Json::Bool(_) => "bool",
            Json::Integer(_) => "integer",
            Json::Float(_) => "float",
            Json::String(_) => "string",
            Json::Array(_) => "array",
            Json::Object(_) => "object",
            Json::Error(_) => "error",
        };
        String::from_str(s)
    }

    pub fn boolean(&self) -> (r: Option<bool>)
        ensures
            r == (match *self {
                Json::Bool(b) => Some(b),
                _ => None,
            }),
    {
        match self {
            Json::Bool(b) => Some(*b),
            _ => None,
        }
    }

    /// The integer held, computed from its text when need be; `None` for
    /// another variant or a numeral that is no 128-bit integer.
    pub fn integer(&self) -> (r: Option<i128>)
        ensures
            r == (match *self {
                Json::Integer(x) => x.value(),
                _ => None,
            }),
    {
        match self {
            Json::Integer(x) => x.integer(),
            _ => None,
        }
    }

    pub fn string(&self) -> (r: Option<String>)
        ensures
            match *self {
                Json::String(s) => r matches Some(t) && t@ == s@,
                _ => r is None,
            },
    {
        match self {
            Json::String(s) => Some(copy_text(s.as_str())),
            _ => None,
        }
    }

    pub fn array(&self) -> (r: Option<Vec<Json>>)
        ensures
            match *self {
                Json::Array(v) => r matches Some(w) && same_items(v@, w@),
                _ => r is None,
            },
    {
        match self {
            Json::Array(v) => Some(copy_items(v)),
            _ => None,
        }
    }

    pub fn object(&self) -> (r: Option<Vec<Property>>)
        ensures
            match *self {
                Json::Object(ps) => r matches Some(qs) && same_props(ps@, qs@),
                _ => r is None,
            },
    {
        match self {
            Json::Object(ps) => Some(copy_props(ps)),
            _ => None,
        }
    }

    pub fn is_error(&self) -> (r: bool)
        ensures
            r == (*self is Error),
    {
        match self {
            Json::Error(_) => true,
            _ => false,
        }
    }

    pub fn error(&self) -> (r: Option<String>)
        ensures
            match *self {
                Json::Error(s) => r matches Some(t) && t@ == s@,
                _ => r is None,
            },
    {
        match self {
            Json::Error(s) => Some(copy_text(s.as_str())),
            _ => None,
        }
    }

    /// Computes every integer numeral in the value and keeps the result,
    /// stopping at the first numeral that is no 128-bit integer and leaving
    /// the rest unvisited. The value stays equal to what it was.
    pub fn compute(&mut self) -> (r: Result<(), String>)
        ensures
            computed_from(*old(self), *final(self)),
            r.is_ok() == numbers_valid(*old(self)),
            r.is_ok() ==> numbers_computed(*final(self)),
            r.is_err() ==> halted(*old(self), *final(self)),
            crate::order::json_eq(*old(self), *final(self)),
    {
        let r = self.compute_numbers();
        proof {
            crate::order::lemma_computed_from_eq(*old(self), *self);
        }
        r
    }

    fn compute_numbers(&mut self) -> (r: Result<(), String>)
        ensures
            computed_from(*old(self), *final(self)),
            r.is_ok() == numbers_valid(*old(self)),
            r.is_ok() ==> numbers_computed(*final(self)),
            r.is_err() ==> halted(*old(self), *final(self)),
        decreases *old(self),
    {
        let mut cur = Json::Null;
        core::mem::swap(self, &mut cur);
        match cur {
            Json::Integer(mut x) => {
                let r = x.compute();
                *self = Json::Integer(x);
                r
            },
            Json::Array(mut items) => {
                let ghost v0 = items@;
                let n = items.len();
                let mut i: usize = 0;
                while i < n
                    invariant
                        *old(self) is Array,
                        (*old(self))->Array_0@ == v0,
                        n == v0.len(),
                        items@.len() == n,
                        i <= n,
                        forall|k: int| 0 <= k < i ==> computed_from(#[trigger] v0[k], items@[k]),
                        forall|k: int| 0 <= k < i ==> numbers_valid(#[trigger] v0[k]),
                        forall|k: int| 0 <= k < i ==> numbers_computed(#[trigger] items@[k]),
                        forall|k: int| i <= k < n ==> #[trigger] items@[k] == v0[k],
                    decreases n - i,
                {
                    assert(decreases_to!(v0 => v0[i as int]));
                    let res = items[i].compute_numbers();
                    if res.is_err() {
                        proof {
                            assert forall|k: int| i < k < n implies computed_from(#[trigger] v0[k], items@[k]) by {
                                lemma_computed_from_refl(v0[k]);
                            }
                            assert(halted(v0[i as int], items@[i as int]));
                            assert(forall|k: int| i < k < n ==> #[trigger] items@[k] == v0[k]);
                            assert(forall|k: int| 0 <= k < i ==> computed_from(#[trigger] v0[k], items@[k]));
                        }
                        *self = Json::Array(items);
                        proof {
                            lemma_first_invalid(v0, 0, i as int);
                        }
                        return res;
                    }
                    i = i + 1;
                }
                *self = Json::Array(items);
                Ok(())
            },
            Json::Object(mut props) => {
                let ghost v0 = props@;
                let n = props.len();
                let mut i: usize = 0;
                while i < n
                    invariant
                        *old(self) is Object,
                        (*old(self))->Object_0@ == v0,
                        n == v0.len(),
                        props@.len() == n,
                        i <= n,
                        forall|k: int| 0 <= k < i ==> (#[trigger] v0[k]).key == props@[k].key && computed_from(v0[k].value, props@[k].value),
                        forall|k: int| 0 <= k < i ==> numbers_valid(#[trigger] v0[k].value),
                        forall|k: int| 0 <= k < i ==> numbers_computed(#[trigger] props@[k].value),
                        forall|k: int| i <= k < n ==> #[trigger] props@[k] == v0[k],
                    decreases n - i,
                {
                    assert(decreases_to!(v0 => v0[i as int].value));
                    let res = props[i].value.compute_numbers();
                    if res.is_err() {
                        proof {
                            assert forall|k: int| i < k < n implies (#[trigger] v0[k]).key == props@[k].key && computed_from(v0[k].value, props@[k].value) by {
                                lemma_computed_from_refl(v0[k].value);
                            }
                            assert(halted(v0[i as int].value, props@[i as int].value));
                            assert(v0[i as int].key == props@[i as int].key);
                            assert(forall|k: int| i < k < n ==> #[trigger] props@[k] == v0[k]);
                        }
                        *self = Json::Object(props);
                        proof {
                            lemma_first_invalid_prop(v0, 0, i as int);
                        }
                        return res;
                    }
                    i = i + 1;
                }
                *self = Json::Object(props);
                Ok(())
            },
            other => {
                *self = other;
                Ok(())
            },
        }
    }

    /// Checks every numeral of the value; computed values are kept on the way.
    pub fn validate(&mut self) -> (r: Result<(), String>)
        ensures
            computed_from(*old(self), *final(self)),
            r.is_ok() == numbers_valid(*old(self)),
            r.is_err() ==> halted(*old(self), *final(self)),
            crate::order::json_eq(*old(self), *final(self)),
    {
        self.compute()
    }
}

proof fn lemma_computed_from_refl(j: Json)
    ensures
        computed_from(j, j),
    decreases j,
{
    match j {
        Json::Array(v) => {
            assert forall|i: int| 0 <= i < v@.len() implies computed_from(#[trigger] v@[i], v@[i]) by {
                lemma_computed_from_refl(v@[i]);
            }
        },
        Json::Object(ps) => {
            assert forall|i: int| 0 <= i < ps@.len() implies computed_from(#[trigger] ps@[i].value, ps@[i].value) by {
                lemma_computed_from_refl(ps@[i].value);
            }
        },
        _ => {},
    }
}

impl Json {
    /// Builds a value from a native one, through the matching `From` conversion.
    pub fn new<T>(value: T) -> (r: Json)
        where
            Json: From<T>,
        ensures
            <Json as vstd::std_specs::convert::FromSpec<T>>::obeys_from_spec() ==> r
                == <Json as vstd::std_specs::convert::FromSpec<T>>::from_spec(value),
    {
        Json::from(value)
    }

    pub fn from_integer(v: i128) -> (r: Json)
        ensures
            r matches Json::Integer(x) && x.val == Some(v) && x.value() == Some(v),
    {
        Json::Integer(Integral::new(v))
    }

    pub fn from_str_slice(s: &str) -> (r: Json)
        ensures
            r matches Json::String(t) && t@ == s@,
    {
        Json::String(copy_text(s))
    }

    /// An object holding the given properties sorted by key, each key once.
    pub fn from_properties(props: Vec<Property>) -> (r: Json)
        ensures
            r is Object,
            props_sorted(r->Object_0@),
            gathered(props@, props@.len() as int, r->Object_0@),
    {
        let mut ps: Vec<Property> = Vec::new();
        let mut rest = props;
        let ghost all = rest@;
        let n = rest.len();
        let mut i: usize = 0;
        proof {
            reveal(gathered);
        }
        while i < n
            invariant
                n == all.len(),
                i <= n,
                rest@ == all.skip(i as int),
                props_sorted(ps@),
                gathered(all, i as int, ps@),
            decreases n - i,
        {
            let item = rest.remove(0);
            assert(item == all[i as int]);
            assert(rest@ =~= all.skip(i + 1));
            let ghost before = ps@;
            insert_property(&mut ps, item);
            proof {
                lemma_gather_step(before, ps@, item, all, i as int);
            }
            i = i + 1;
        }
        assert(all == props@);
        proof {
            reveal(gathered);
        }
        Json::Object(ps)
    }
}

/// `ps` holds the key of each of the first `i` properties of `all`, and nothing else.
#[verifier::opaque]
pub open spec fn gathered(all: Seq<Property>, i: int, ps: Seq<Property>) -> bool {
    &&& forall|a: int| 0 <= a < i ==> exists|j: int| 0 <= j < ps.len() && #[trigger] ps[j].key@ == (#[trigger] all[a]).key@
    &&& forall|j: int| 0 <= j < ps.len() ==> exists|a: int| 0 <= a < i && #[trigger] ps[j] == #[trigger] all[a]
}

#[verifier::rlimit(60)]
proof fn lemma_gather_step(before: Seq<Property>, after: Seq<Property>, item: Property, all: Seq<Property>, i: int)
    requires
        0 <= i < all.len(),
        all[i] == item,
        placed(before, after, item),
        gathered(all, i, before),
    ensures
        gathered(all, i + 1, after),
{
    reveal(gathered);
    lemma_placed_keeps(before, after, item);
    assert forall|a: int| 0 <= a < i + 1 implies exists|j: int| 0 <= j < after.len() && #[trigger] after[j].key@ == (#[trigger] all[a]).key@ by {
        if a < i {
            let j0 = choose|j: int| 0 <= j < before.len() && #[trigger] before[j].key@ == all[a].key@;
            let m = choose|m: int| 0 <= m < after.len() && #[trigger] after[m].key@ == before[j0].key@;
            assert(after[m].key@ == all[a].key@);
        } else {
            let m = choose|m: int| 0 <= m < after.len() && after[m] == item;
            assert(after[m].key@ == all[a].key@);
        }
    }
    assert forall|j: int| 0 <= j < after.len() implies exists|a: int| 0 <= a < i + 1 && #[trigger] after[j] == #[trigger] all[a] by {
        if after[j] != item {
            let j0 = choose|m: int| 0 <= m < before.len() && after[j] == before[m];
            let a0 = choose|a: int| 0 <= a < i && #[trigger] before[j0] == #[trigger] all[a];
            assert(after[j] == all[a0]);
        } else {
            assert(after[j] == all[i]);
        }
    }
}

/// Placing a property keeps every key that was there, adds the new one, and
/// brings in nothing else.
pub proof fn lemma_placed_keeps(ps: Seq<Property>, qs: Seq<Property>, item: Property)
    requires
        placed(ps, qs, item),
    ensures
        forall|j: int| 0 <= j < ps.len() ==> exists|m: int| 0 <= m < qs.len() && #[trigger] qs[m].key@ == (#[trigger] ps[j]).key@,
        exists|m: int| 0 <= m < qs.len() && qs[m] == item,
        forall|m: int| 0 <= m < qs.len() ==> #[trigger] qs[m] == item || exists|j: int| 0 <= j < ps.len() && qs[m] == ps[j],
{
    if exists|i: int| 0 <= i < ps.len() && ps[i].key@ == item.key@ && qs == ps.update(i, item) {
        let i = choose|i: int| 0 <= i < ps.len() && ps[i].key@ == item.key@ && qs == ps.update(i, item);
        assert(qs[i] == item);
        assert forall|j: int| 0 <= j < ps.len() implies exists|m: int| 0 <= m < qs.len() && #[trigger] qs[m].key@ == (#[trigger] ps[j]).key@ by {
            assert(qs[j].key@ == ps[j].key@);
        }
        assert forall|m: int| 0 <= m < qs.len() implies #[trigger] qs[m] == item || exists|j: int| 0 <= j < ps.len() && qs[m] == ps[j] by {
            if m != i {
                assert(qs[m] == ps[m]);
            }
        }
    } else {
        let i = choose|i: int| 0 <= i <= ps.len() && qs == ps.insert(i, item);
        assert(qs[i] == item);
        assert forall|j: int| 0 <= j < ps.len() implies exists|m: int| 0 <= m < qs.len() && #[trigger] qs[m].key@ == (#[trigger] ps[j]).key@ by {
            if j < i {
                assert(qs[j] == ps[j]);
            } else {
                assert(qs[j + 1] == ps[j]);
            }
        }
        assert forall|m: int| 0 <= m < qs.len() implies #[trigger] qs[m] == item || exists|j: int| 0 <= j < ps.len() && qs[m] == ps[j] by {
            if m < i {
                assert(qs[m] == ps[m]);
            } else if m > i {
                assert(qs[m] == ps[m - 1]);
            }
        }
    }
}

impl Default for Json {
    fn default() -> (r: Json)
        ensures
            r is Null,
    {
        Json::Null
    }
}

impl From<bool> for Json {
    fn from(val: bool) -> Json {
        Json::Bool(val)
    }
}

impl vstd::std_specs::convert::FromSpecImpl<bool> for Json {
    open spec fn obeys_from_spec() -> bool {
        true
    }

    open spec fn from_spec(v: bool) -> Json {
        Json::Bool(v)
    }
}

impl From<i128> for Json {
    fn from(val: i128) -> Json {
        Json::from_integer(val)
    }
}

/// The numeral's text is built by the conversion, so the result is stated by
/// `Json::from_integer` rather than here.
impl vstd::std_specs::convert::FromSpecImpl<i128> for Json {
    open spec fn obeys_from_spec() -> bool {
        false
    }

    open spec fn from_spec(v: i128) -> Json {
        Json::Null
    }
}

impl From<String> for Json {
    fn from(val: String) -> Json {
        Json::String(val)
    }
}

impl vstd::std_specs::convert::FromSpecImpl<String> for Json {
    open spec fn obeys_from_spec() -> bool {
        true
    }

    open spec fn from_spec(v: String) -> Json {
        Json::String(v)
    }
}

impl<'a> From<&'a str> for Json {
    fn from(val: &'a str) -> Json {
        Json::from_str_slice(val)
    }
}

/// The text is copied by the conversion: `Json::from_str_slice` states the result.
impl<'a> vstd::std_specs::convert::FromSpecImpl<&'a str> for Json {
    open spec fn obeys_from_spec() -> bool {
        false
    }

    open spec fn from_spec(v: &'a str) -> Json {
        Json::Null
    }
}

impl From<Vec<Json>> for Json {
    fn from(val: Vec<Json>) -> Json {
        Json::Array(val)
    }
}

impl vstd::std_specs::convert::FromSpecImpl<Vec<Json>> for Json {
    open spec fn obeys_from_spec() -> bool {
        true
    }

    open spec fn from_spec(v: Vec<Json>) -> Json {
        Json::Array(v)
    }
}

impl From<Vec<Property>> for Json {
    fn from(val: Vec<Property>) -> Json {
        Json::from_properties(val)
    }
}

/// The store is sorted by the conversion: `Json::from_properties` states the result.
impl vstd::std_specs::convert::FromSpecImpl<Vec<Property>> for Json {
    open spec fn obeys_from_spec() -> bool {
        false
    }

    open spec fn from_spec(v: Vec<Property>) -> Json {
        Json::Null
    }
}

/// Truthiness: `null` and `false` are false, every other value is true.
impl From<Json> for bool {
    fn from(val: Json) -> bool {
        match val {
            Json::Null => false,
            Json::Bool(b) => b,
            _ => true,
        }
    }
}

impl vstd::std_specs::convert::FromSpecImpl<Json> for bool {
    open spec fn obeys_from_spec() -> bool {
        true
    }

    open spec fn from_spec(v: Json) -> bool {
        match v {
            Json::Null => false,
            Json::Bool(b) => b,
            _ => true,
        }
    }
}

} // verus!
