use vstd::prelude::*;
use core::cmp::Ordering;
use crate::json::{Json, Property};
use crate::number::{is_nan_bits, float_key, float_as_i128};
use crate::text::{chars_order, compare_text, same_text};

verus! {

/// Float equality for sorting: NaN equals NaN, otherwise equal as numbers
/// (both zeros meet, infinities match by sign).
pub open spec fn float_eq(a: u64, b: u64) -> bool {
    if is_nan_bits(a) || is_nan_bits(b) {
        is_nan_bits(a) && is_nan_bits(b)
    } else {
        float_key(a) == float_key(b)
    }
}

/// An integer equals a float when the float, truncated toward zero, is that
/// integer and neither NaN nor at the ends of the 128-bit range.
pub open spec fn int_float_eq(x: Option<i128>, f: u64) -> bool {
    match x {
        Some(v) => !is_nan_bits(f) && float_as_i128(f) != i128::MIN as int && float_as_i128(f)
            != i128::MAX as int && v as int == float_as_i128(f),
        None => false,
    }
}

/// Equality of values.
pub open spec fn json_eq(a: Json, b: Json) -> bool
    decreases a,
{
    match a {
        Json::Null => b is Null,
        Json::Bool(x) => b == Json::Bool(x),
        Json::Integer(x) => match b {
            Json::Integer(y) => x.value() == y.value(),
            Json::Float(y) => int_float_eq(x.value(), y.bits),
            _ => false,
        },
        Json::Float(x) => match b {
            Json::Float(y) => float_eq(x.bits, y.bits),
            Json::Integer(y) => int_float_eq(y.value(), x.bits),
            _ => false,
        },
        Json::String(x) => match b {
            Json::String(y) => x@ == y@,
            _ => false,
        },
        Json::Array(v) => match b {
            Json::Array(w) => v@.len() == w@.len() && forall|i: int|
                0 <= i < v@.len() ==> json_eq(#[trigger] v@[i], w@[i]),
            _ => false,
        },
        Json::Object(ps) => match b {
            Json::Object(qs) => ps@.len() == qs@.len() && forall|i: int|
                0 <= i < ps@.len() ==> (#[trigger] ps@[i]).key@ == qs@[i].key@ && json_eq(ps@[i].value, qs@[i].value),
            _ => false,
        },
        Json::Error(_) => b is Error,
    }
}

pub open spec fn int_order(x: int, y: int) -> Ordering {
    if x < y {
        Ordering::Less
    } else if x > y {
        Ordering::Greater
    } else {
        Ordering::Equal
    }
}

/// Integers that could not be computed sort below those that could.
pub open spec fn opt_order(x: Option<i128>, y: Option<i128>) -> Ordering {
    match x {
        Some(a) => match y {
            Some(b) => int_order(a as int, b as int),
            None => Ordering::Greater,
        },
        None => match y {
            Some(_) => Ordering::Less,
            None => Ordering::Equal,
        },
    }
}

/// Floats in numeric order, with NaN above every number and equal to itself.
pub open spec fn float_order(a: u64, b: u64) -> Ordering {
    if is_nan_bits(a) {
        if is_nan_bits(b) {
            Ordering::Equal
        } else {
            Ordering::Greater
        }
    } else if is_nan_bits(b) {
        Ordering::Less
    } else {
        int_order(float_key(a), float_key(b))
    }
}

/// Position of a variant among the others; integers and floats share a place
/// in practice, since they are compared with each other by value.
pub open spec fn rank(j: Json) -> int {
    match j {
        Json::Null => 0,
        Json::Bool(_) => 1,
        Json::Integer(_) => 2,
        Json::Float(_) => 3,
        Json::String(_) => 4,
        Json::Array(_) => 5,
        Json::Object(_) => 6,
        Json::Error(_) => 7,
    }
}

/// An integer against a float: NaN and floats at or past the top of the
/// 128-bit range sort above every integer, floats at or past the bottom sort
/// below; any other float goes by its value truncated toward zero.
pub open spec fn int_float_order(v: int, f: u64) -> Ordering {
    if is_nan_bits(f) || float_as_i128(f) == i128::MAX as int {
        Ordering::Less
    } else if float_as_i128(f) == i128::MIN as int {
        Ordering::Greater
    } else {
        int_order(v, float_as_i128(f))
    }
}

/// Order of values of different kinds: errors sort after everything else and
/// equal each other; the rest go by rank.
pub open spec fn mixed_order(a: Json, b: Json) -> Ordering {
    if a is Error && b is Error {
        Ordering::Equal
    } else if b is Error {
        Ordering::Less
    } else if a is Error {
        Ordering::Greater
    } else {
        int_order(rank(a), rank(b))
    }
}

/// Order of values.
pub open spec fn json_order(a: Json, b: Json) -> Ordering
    decreases a, 0int,
{
    match a {
        Json::Null => if b is Null {
            Ordering::Equal
        } else {
            mixed_order(a, b)
        },
        Json::Bool(x) => match b {
            Json::Bool(y) => int_order(if x { 1 } else { 0 }, if y { 1 } else { 0 }),
            _ => mixed_order(a, b),
        },
        Json::Integer(x) => match b {
            Json::Integer(y) => opt_order(x.value(), y.value()),
            Json::Float(y) => match x.value() {
                Some(v) => int_float_order(v as int, y.bits),
                None => Ordering::Less,
            },
            _ => mixed_order(a, b),
        },
        Json::Float(x) => match b {
            Json::Float(y) => float_order(x.bits, y.bits),
            Json::Integer(y) => match y.value() {
                Some(v) => flip(int_float_order(v as int, x.bits)),
                None => Ordering::Greater,
            },
            _ => mixed_order(a, b),
        },
        Json::String(x) => match b {
            Json::String(y) => chars_order(x@, y@),
            _ => mixed_order(a, b),
        },
        Json::Array(v) => match b {
            Json::Array(w) => items_order(v@, w@, 0),
            _ => mixed_order(a, b),
        },
        Json::Object(ps) => match b {
            Json::Object(qs) => props_order(ps@, qs@, 0),
            _ => mixed_order(a, b),
        },
        Json::Error(_) => mixed_order(a, b),
    }
}

/// Element-wise order of two arrays from index `i` on; a prefix sorts first.
pub open spec fn items_order(v: Seq<Json>, w: Seq<Json>, i: int) -> Ordering
    decreases v, v.len() - i,
{
    if i < 0 || i >= v.len() {
        if v.len() == w.len() {
            Ordering::Equal
        } else {
            Ordering::Less
        }
    } else if i >= w.len() {
        Ordering::Greater
    } else if json_order(v[i], w[i]) != Ordering::Equal {
        json_order(v[i], w[i])
    } else {
        items_order(v, w, i + 1)
    }
}

/// Member-wise order of two stores from index `i` on: key first, then value.
pub open spec fn props_order(ps: Seq<Property>, qs: Seq<Property>, i: int) -> Ordering
    decreases ps, ps.len() - i,
{
    if i < 0 || i >= ps.len() {
        if ps.len() == qs.len() {
            Ordering::Equal
        } else {
            Ordering::Less
        }
    } else if i >= qs.len() {
        Ordering::Greater
    } else if chars_order(ps[i].key@, qs[i].key@) != Ordering::Equal {
        chars_order(ps[i].key@, qs[i].key@)
    } else if json_order(ps[i].value, qs[i].value) != Ordering::Equal {
        json_order(ps[i].value, qs[i].value)
    } else {
        props_order(ps, qs, i + 1)
    }
}

fn compare_int(x: i128, y: i128) -> (r: Ordering)
    ensures
        r == int_order(x as int, y as int),
{
    if x < y {
        Ordering::Less
    } else if x > y {
        Ordering::Greater
    } else {
        Ordering::Equal
    }
}

fn rank_of(j: &Json) -> (r: u8)
    ensures
        r as int == rank(*j),
{
    match j {
        Json::Null => 0,
        Json::Bool(_) => 1,
        Json::Integer(_) => 2,
        Json::Float(_) => 3,
        Json::String(_) => 4,
        Json::Array(_) => 5,
        Json::Object(_) => 6,
        Json::Error(_) => 7,
    }
}

fn compare_int_float(v: i128, f: &crate::number::Floating) -> (r: Ordering)
    ensures
        r == int_float_order(v as int, f.bits),
{
    if f.is_nan() {
        return Ordering::Less;
    }
    let n = f.truncate();
    if n == i128::MAX {
        Ordering::Less
    } else if n == i128::MIN {
        Ordering::Greater
    } else {
        compare_int(v, n)
    }
}

fn reverse(o: Ordering) -> (r: Ordering)
    ensures
        r == flip(o),
{
    match o {
        Ordering::Less => Ordering::Greater,
        Ordering::Equal => Ordering::Equal,
        Ordering::Greater => Ordering::Less,
    }
}

fn compare_mixed(a: &Json, b: &Json) -> (r: Ordering)
    ensures
        r == mixed_order(*a, *b),
{
    if a.is_error() && b.is_error() {
        Ordering::Equal
    } else if b.is_error() {
        Ordering::Less
    } else if a.is_error() {
        Ordering::Greater
    } else {
        compare_int(rank_of(a) as i128, rank_of(b) as i128)
    }
}

/// Compares two values in the total order used to sort them.
pub fn json_compare(a: &Json, b: &Json) -> (r: Ordering)
    ensures
        r == json_order(*a, *b),
    decreases *a,
{
    match a {
        Json::Null => if let Json::Null = b {
            Ordering::Equal
        } else {
            compare_mixed(a, b)
        },
        Json::Bool(x) => match b {
            Json::Bool(y) => compare_int(if *x { 1 } else { 0 }, if *y { 1 } else { 0 }),
            _ => compare_mixed(a, b),
        },
        Json::Integer(x) => match b {
            Json::Integer(y) => match (x.integer(), y.integer()) {
                (Some(p), Some(q)) => compare_int(p, q),
                (Some(_), None) => Ordering::Greater,
                (None, Some(_)) => Ordering::Less,
                (None, None) => Ordering::Equal,
            },
            Json::Float(y) => match x.integer() {
                Some(v) => compare_int_float(v, y),
                None => Ordering::Less,
            },
            _ => compare_mixed(a, b),
        },
        Json::Float(x) => match b {
            Json::Float(y) => {
                if x.is_nan() {
                    if y.is_nan() {
                        Ordering::Equal
                    } else {
                        Ordering::Greater
                    }
                } else if y.is_nan() {
                    Ordering::Less
                } else {
                    compare_int(x.key(), y.key())
                }
            },
            Json::Integer(y) => match y.integer() {
                Some(v) => reverse(compare_int_float(v, x)),
                None => Ordering::Greater,
            },
            _ => compare_mixed(a, b),
        },
        Json::String(x) => match b {
            Json::String(y) => compare_text(x.as_str(), y.as_str()),
            _ => compare_mixed(a, b),
        },
        Json::Array(v) => match b {
            Json::Array(w) => {
                let mut i: usize = 0;
                while i < v.len()
                    invariant
                        *a is Array,
                        (*a)->Array_0 == *v,
                        *b is Array,
                        (*b)->Array_0 == *w,
                        i <= v@.len(),
                        i <= w@.len(),
                        items_order(v@, w@, 0) == items_order(v@, w@, i as int),
                    decreases v@.len() - i,
                {
                    if i == w.len() {
                        return Ordering::Greater;
                    }
                    assert(decreases_to!(*a => v@[i as int]));
                    let c = json_compare(&v[i], &w[i]);
                    assert(items_order(v@, w@, i as int) == (if json_order(v@[i as int], w@[i as int]) != Ordering::Equal {
                        json_order(v@[i as int], w@[i as int])
                    } else {
                        items_order(v@, w@, i + 1)
                    }));
                    if !matches!(c, Ordering::Equal) {
                        return c;
                    }
                    i = i + 1;
                }
                if v.len() == w.len() {
                    Ordering::Equal
                } else {
                    Ordering::Less
                }
            },
            _ => compare_mixed(a, b),
        },
        Json::Object(ps) => match b {
            Json::Object(qs) => {
                let mut i: usize = 0;
                while i < ps.len()
                    invariant
                        *a is Object,
                        (*a)->Object_0 == *ps,
                        *b is Object,
                        (*b)->Object_0 == *qs,
                        i <= ps@.len(),
                        i <= qs@.len(),
                        props_order(ps@, qs@, 0) == props_order(ps@, qs@, i as int),
                    decreases ps@.len() - i,
                {
                    if i == qs.len() {
                        return Ordering::Greater;
                    }
                    let c = compare_text(ps[i].key.as_str(), qs[i].key.as_str());
                    assert(props_order(ps@, qs@, i as int) == (if chars_order(ps@[i as int].key@, qs@[i as int].key@) != Ordering::Equal {
                        chars_order(ps@[i as int].key@, qs@[i as int].key@)
                    } else if json_order(ps@[i as int].value, qs@[i as int].value) != Ordering::Equal {
                        json_order(ps@[i as int].value, qs@[i as int].value)
                    } else {
                        props_order(ps@, qs@, i + 1)
                    }));
                    if !matches!(c, Ordering::Equal) {
                        return c;
                    }
                    assert(decreases_to!(*a => ps@[i as int].value));
                    let c = json_compare(&ps[i].value, &qs[i].value);
                    if !matches!(c, Ordering::Equal) {
                        return c;
                    }
                    i = i + 1;
                }
                if ps.len() == qs.len() {
                    Ordering::Equal
                } else {
                    Ordering::Less
                }
            },
            _ => compare_mixed(a, b),
        },
        Json::Error(_) => compare_mixed(a, b),
    }
}

fn int_float_equal(x: Option<i128>, f: &crate::number::Floating) -> (r: bool)
    ensures
        r == int_float_eq(x, f.bits),
{
    match x {
        Some(v) => {
            if f.is_nan() {
                return false;
            }
            let n = f.truncate();
            n != i128::MIN && n != i128::MAX && v == n
        },
        None => false,
    }
}

/// Whether two values are equal.
pub fn json_equal(a: &Json, b: &Json) -> (r: bool)
    ensures
        r == json_eq(*a, *b),
    decreases *a,
{
    match a {
        Json::Null => if let Json::Null = b {
            true
        } else {
            false
        },
        Json::Bool(x) => match b {
            Json::Bool(y) => *x == *y,
            _ => false,
        },
        Json::Integer(x) => match b {
            Json::Integer(y) => {
                let p = x.integer();
                let q = y.integer();
                match (p, q) {
                    (Some(s), Some(t)) => s == t,
                    (None, None) => true,
                    _ => false,
                }
            },
            Json::Float(y) => int_float_equal(x.integer(), y),
            _ => false,
        },
        Json::Float(x) => match b {
            Json::Float(y) => {
                if x.is_nan() || y.is_nan() {
                    x.is_nan() && y.is_nan()
                } else {
                    x.key() == y.key()
                }
            },
            Json::Integer(y) => int_float_equal(y.integer(), x),
            _ => false,
        },
        Json::String(x) => match b {
            Json::String(y) => same_text(x.as_str(), y.as_str()),
            _ => false,
        },
        Json::Array(v) => match b {
            Json::Array(w) => {
                if v.len() != w.len() {
                    return false;
                }
                let mut i: usize = 0;
                while i < v.len()
                    invariant
                        *a is Array,
                        (*a)->Array_0 == *v,
                        *b is Array,
                        (*b)->Array_0 == *w,
                        i <= v@.len(),
                        v@.len() == w@.len(),
                        forall|k: int| 0 <= k < i ==> json_eq(#[trigger] v@[k], w@[k]),
                    decreases v@.len() - i,
                {
                    assert(decreases_to!(*a => v@[i as int]));
                    if !json_equal(&v[i], &w[i]) {
                        return false;
                    }
                    i = i + 1;
                }
                true
            },
            _ => false,
        },
        Json::Object(ps) => match b {
            Json::Object(qs) => {
                if ps.len() != qs.len() {
                    return false;
                }
                let mut i: usize = 0;
                while i < ps.len()
                    invariant
                        *a is Object,
                        (*a)->Object_0 == *ps,
                        *b is Object,
                        (*b)->Object_0 == *qs,
                        i <= ps@.len(),
                        ps@.len() == qs@.len(),
                        forall|k: int| 0 <= k < i ==> (#[trigger] ps@[k]).key@ == qs@[k].key@ && json_eq(ps@[k].value, qs@[k].value),
                    decreases ps@.len() - i,
                {
                    if !same_text(ps[i].key.as_str(), qs[i].key.as_str()) {
                        return false;
                    }
                    assert(decreases_to!(*a => ps@[i as int].value));
                    if !json_equal(&ps[i].value, &qs[i].value) {
                        return false;
                    }
                    i = i + 1;
                }
                true
            },
            _ => false,
        },
        Json::Error(_) => b.is_error(),
    }
}

/// An error value sorts after every value that is not an error, whichever
/// side of the comparison it stands on.
pub proof fn lemma_error_sorts_last(v: Json, e: Json)
    requires
        !(v is Error),
        e is Error,
    ensures
        json_order(v, e) == Ordering::Less,
        json_order(e, v) == Ordering::Greater,
{
}

pub open spec fn flip(o: Ordering) -> Ordering {
    match o {
        Ordering::Less => Ordering::Greater,
        Ordering::Equal => Ordering::Equal,
        Ordering::Greater => Ordering::Less,
    }
}

proof fn lemma_chars_flip(a: Seq<char>, b: Seq<char>)
    ensures
        chars_order(b, a) == flip(chars_order(a, b)),
{
    crate::text::lemma_chars_order_flip(a, b);
    crate::text::lemma_chars_order_flip(b, a);
}

/// Swapping the operands of a comparison swaps `Less` and `Greater` and keeps
/// `Equal`: exactly one of `a < b`, `a == b` and `a > b` holds, and `b` sees
/// it the other way round.
pub proof fn lemma_order_flip(a: Json, b: Json)
    ensures
        json_order(b, a) == flip(json_order(a, b)),
    decreases a, 0int,
{
    match a {
        Json::String(x) => {
            if let Json::String(y) = b {
                lemma_chars_flip(x@, y@);
            }
        },
        Json::Array(v) => {
            if let Json::Array(w) = b {
                lemma_items_flip(v@, w@, 0);
            }
        },
        Json::Object(ps) => {
            if let Json::Object(qs) = b {
                lemma_props_flip(ps@, qs@, 0);
            }
        },
        _ => {},
    }
}

proof fn lemma_items_flip(v: Seq<Json>, w: Seq<Json>, i: int)
    requires
        0 <= i <= v.len(),
        i <= w.len(),
    ensures
        items_order(w, v, i) == flip(items_order(v, w, i)),
    decreases v, v.len() - i,
{
    if i < v.len() && i < w.len() {
        lemma_order_flip(v[i], w[i]);
        lemma_items_flip(v, w, i + 1);
    }
}

proof fn lemma_props_flip(ps: Seq<Property>, qs: Seq<Property>, i: int)
    requires
        0 <= i <= ps.len(),
        i <= qs.len(),
    ensures
        props_order(qs, ps, i) == flip(props_order(ps, qs, i)),
    decreases ps, ps.len() - i,
{
    if i < ps.len() && i < qs.len() {
        lemma_chars_flip(ps[i].key@, qs[i].key@);
        lemma_order_flip(ps[i].value, qs[i].value);
        lemma_props_flip(ps, qs, i + 1);
    }
}

/// The order says `Equal` exactly when the values are equal.
pub proof fn lemma_order_equal_iff_eq(a: Json, b: Json)
    ensures
        (json_order(a, b) == Ordering::Equal) == json_eq(a, b),
    decreases a, 0int,
{
    match a {
        Json::String(x) => {
            if let Json::String(y) = b {
                crate::text::lemma_chars_order_flip(x@, y@);
            }
        },
        Json::Array(v) => {
            if let Json::Array(w) = b {
                lemma_items_equal(v@, w@, 0);
            }
        },
        Json::Object(ps) => {
            if let Json::Object(qs) = b {
                lemma_props_equal(ps@, qs@, 0);
            }
        },
        _ => {},
    }
}

proof fn lemma_items_equal(v: Seq<Json>, w: Seq<Json>, i: int)
    requires
        0 <= i <= v.len(),
        i <= w.len(),
    ensures
        (items_order(v, w, i) == Ordering::Equal) == (v.len() == w.len() && forall|k: int|
            i <= k < v.len() ==> json_eq(#[trigger] v[k], w[k])),
    decreases v, v.len() - i,
{
    if i < v.len() && i < w.len() {
        lemma_order_equal_iff_eq(v[i], w[i]);
        lemma_items_equal(v, w, i + 1);
    }
}

proof fn lemma_props_equal(ps: Seq<Property>, qs: Seq<Property>, i: int)
    requires
        0 <= i <= ps.len(),
        i <= qs.len(),
    ensures
        (props_order(ps, qs, i) == Ordering::Equal) == (ps.len() == qs.len() && forall|k: int|
            i <= k < ps.len() ==> (#[trigger] ps[k]).key@ == qs[k].key@ && json_eq(ps[k].value, qs[k].value)),
    decreases ps, ps.len() - i,
{
    if i < ps.len() && i < qs.len() {
        crate::text::lemma_chars_order_flip(ps[i].key@, qs[i].key@);
        lemma_order_equal_iff_eq(ps[i].value, qs[i].value);
        lemma_props_equal(ps, qs, i + 1);
    }
}

/// Computing numerals keeps a value equal to what it was.
pub proof fn lemma_computed_from_eq(o: Json, n: Json)
    requires
        crate::json::computed_from(o, n),
    ensures
        json_eq(o, n),
    decreases o,
{
    match o {
        Json::Array(v) => {
            let w = n->Array_0;
            assert forall|i: int| 0 <= i < v@.len() implies json_eq(#[trigger] v@[i], w@[i]) by {
                lemma_computed_from_eq(v@[i], w@[i]);
            }
        },
        Json::Object(ps) => {
            let qs = n->Object_0;
            assert forall|i: int| 0 <= i < ps@.len() implies (#[trigger] ps@[i]).key@ == qs@[i].key@
                && json_eq(ps@[i].value, qs@[i].value) by {
                lemma_computed_from_eq(ps@[i].value, qs@[i].value);
            }
        },
        _ => {},
    }
}

impl PartialEq for Json {
    fn eq(&self, other: &Json) -> (r: bool) {
        json_equal(self, other)
    }
}

impl vstd::std_specs::cmp::PartialEqSpecImpl for Json {
    open spec fn obeys_eq_spec() -> bool {
        true
    }

    open spec fn eq_spec(&self, other: &Json) -> bool {
        json_eq(*self, *other)
    }
}

impl PartialOrd for Json {
    fn partial_cmp(&self, other: &Json) -> (r: Option<Ordering>) {
        Some(json_compare(self, other))
    }
}

impl vstd::std_specs::cmp::PartialOrdSpecImpl for Json {
    open spec fn obeys_partial_cmp_spec() -> bool {
        true
    }

    open spec fn partial_cmp_spec(&self, other: &Json) -> Option<Ordering> {
        Some(json_order(*self, *other))
    }
}

} // verus!
