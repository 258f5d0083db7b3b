use vstd::prelude::*;
use crate::json::{Json, Property, props_sorted, insert_property};
use crate::order::json_equal;
use crate::text::{copy_text, push_text, same_text};

verus! {

/// The integer values of two integer operands, when both have one.
pub open spec fn int_operands(a: Json, b: Json) -> Option<(i128, i128)> {
    match a {
        Json::Integer(x) => match b {
            Json::Integer(y) => match (x.value(), y.value()) {
                (Some(p), Some(q)) => Some((p, q)),
                _ => None,
            },
            _ => None,
        },
        _ => None,
    }
}

fn ints(a: &Json, b: &Json) -> (r: Option<(i128, i128)>)
    ensures
        r == int_operands(*a, *b),
{
    match (a, b) {
        (Json::Integer(x), Json::Integer(y)) => match (x.integer(), y.integer()) {
            (Some(p), Some(q)) => Some((p, q)),
            _ => None,
        },
        _ => None,
    }
}

fn mismatch(op: &str, a: &Json, b: &Json) -> (r: Json)
    ensures
        r is Error,
{
    let mut m = copy_text("cannot ");
    push_text(&mut m, op);
    push_text(&mut m, " ");
    push_text(&mut m, a.typename().as_str());
    push_text(&mut m, " and ");
    push_text(&mut m, b.typename().as_str());
    Json::Error(m)
}

fn overflow() -> (r: Json)
    ensures
        r is Error,
{
    Json::Error(copy_text("integer overflow"))
}

/// Addition: `null` is neutral; integers add, strings and arrays concatenate,
/// objects merge with the right operand's members winning.
pub fn json_add(a: Json, b: Json) -> (r: Json)
    requires
        a is Object ==> props_sorted(a->Object_0@),
    ensures
        a is Null ==> r == b,
        !(a is Null) && b is Null ==> r == a,
        int_operands(a, b) matches Some((p, q)) ==> (if i128::MIN <= p + q <= i128::MAX {
            r matches Json::Integer(x) && x.value() == Some((p + q) as i128)
        } else {
            r is Error
        }),
        a is String && b is String ==> (r is String && r->String_0@ == a->String_0@ + b->String_0@),
        a is Array && b is Array ==> (r is Array && r->Array_0@ == a->Array_0@ + b->Array_0@),
        a is Object && b is Object ==> (r is Object && props_sorted(r->Object_0@)),
{
    if let Json::Null = a {
        return b;
    }
    if let Json::Null = b {
        return a;
    }
    if let Some((p, q)) = ints(&a, &b) {
        return match p.checked_add(q) {
            Some(v) => Json::from_integer(v),
            None => overflow(),
        };
    }
    match (a, b) {
        (Json::String(mut s), Json::String(t)) => {
            push_text(&mut s, t.as_str());
            Json::String(s)
        },
        (Json::Array(mut v), Json::Array(mut w)) => {
            v.append(&mut w);
            Json::Array(v)
        },
        (Json::Object(mut ps), Json::Object(mut qs)) => {
            while qs.len() > 0
                invariant
                    props_sorted(ps@),
                decreases qs@.len(),
            {
                let item = qs.remove(0);
                insert_property(&mut ps, item);
            }
            Json::Object(ps)
        },
        (a, b) => mismatch("add", &a, &b),
    }
}

/// Subtraction: `null` on either side gives the other operand; integers
/// subtract; from an array each element of the right one is taken away once;
/// from an object the members whose key the right one has are taken away.
pub fn json_sub(a: Json, b: Json) -> (r: Json)
    requires
        a is Object ==> props_sorted(a->Object_0@),
    ensures
        a is Null ==> r == b,
        !(a is Null) && b is Null ==> r == a,
        int_operands(a, b) matches Some((p, q)) ==> (if i128::MIN <= p - q <= i128::MAX {
            r matches Json::Integer(x) && x.value() == Some((p - q) as i128)
        } else {
            r is Error
        }),
        a is Array && b is Array ==> (r is Array && r->Array_0@.len() <= a->Array_0@.len()),
        a is Object && b is Object ==> (r is Object && props_sorted(r->Object_0@)),
{
    if let Json::Null = a {
        return b;
    }
    if let Json::Null = b {
        return a;
    }
    if let Some((p, q)) = ints(&a, &b) {
        return match p.checked_sub(q) {
            Some(v) => Json::from_integer(v),
            None => overflow(),
        };
    }
    match (a, b) {
        (Json::Array(mut v), Json::Array(w)) => {
            let mut i: usize = 0;
            let ghost n0 = v@.len();
            while i < w.len()
                invariant
                    v@.len() <= n0,
                decreases w@.len() - i,
            {
                let mut k: usize = 0;
                let mut found = false;
                while k < v.len() && !found
                    invariant
                        k <= v@.len(),
                        i < w@.len(),
                        v@.len() <= n0,
                        found ==> k < v@.len(),
                    decreases v@.len() - k, if found { 0int } else { 1int },
                {
                    if json_equal(&v[k], &w[i]) {
                        found = true;
                    } else {
                        k = k + 1;
                    }
                }
                if found {
                    v.remove(k);
                }
                i = i + 1;
            }
            Json::Array(v)
        },
        (Json::Object(ps), Json::Object(qs)) => {
            let mut out: Vec<Property> = Vec::new();
            let ghost src = ps@;
            let mut rest = ps;
            let mut i: usize = 0;
            let n = rest.len();
            while i < n
                invariant
                    n == src.len(),
                    rest@ == src.skip(i as int),
                    i <= n,
                    props_sorted(src),
                    props_sorted(out@),
                    forall|a: int| 0 <= a < out@.len() ==> exists|b: int| 0 <= b < i && #[trigger] out@[a] == #[trigger] src[b],
                decreases n - i,
            {
                let item = rest.remove(0);
                assert(item == src[i as int]);
                assert(rest@ =~= src.skip(i + 1));
                let mut hit = false;
                let mut k: usize = 0;
                while k < qs.len()
                    invariant
                        k <= qs@.len(),
                    decreases qs@.len() - k,
                {
                    if same_text(qs[k].key.as_str(), item.key.as_str()) {
                        hit = true;
                    }
                    k = k + 1;
                }
                if !hit {
                    let ghost before = out@;
                    proof {
                        assert forall|a: int| 0 <= a < before.len() implies crate::text::chars_order(
                            #[trigger] before[a].key@,
                            item.key@,
                        ) == core::cmp::Ordering::Less by {
                            let b = choose|b: int| 0 <= b < i && #[trigger] before[a] == #[trigger] src[b];
                            assert(before[a] == src[b]);
                        }
                    }
                    out.push(item);
                    assert forall|a: int| 0 <= a < out@.len() implies exists|b: int| 0 <= b < i + 1 && #[trigger] out@[a] == #[trigger] src[b] by {
                        if a < before.len() {
                            let b = choose|b: int| 0 <= b < i && #[trigger] before[a] == #[trigger] src[b];
                            assert(out@[a] == src[b]);
                        } else {
                            assert(out@[a] == src[i as int]);
                        }
                    }
                }
                i = i + 1;
            }
            Json::Object(out)
        },
        (a, b) => mismatch("subtract", &a, &b),
    }
}

fn repeat_text(s: &str, n: i128) -> (r: String)
    ensures
        n <= 0 ==> r@.len() == 0,
{
    let mut out = String::new();
    let mut k: i128 = 0;
    while k < n
        invariant
            0 <= k,
            n <= 0 ==> out@.len() == 0,
        decreases n - k,
    {
        push_text(&mut out, s);
        k = k + 1;
    }
    out
}

/// Multiplication: `null` on either side gives `null`; integers multiply; a
/// string times an integer repeats it.
pub fn json_mul(a: Json, b: Json) -> (r: Json)
    ensures
        a is Null || b is Null ==> r is Null,
        int_operands(a, b) matches Some((p, q)) ==> (if i128::MIN <= p * q <= i128::MAX {
            r matches Json::Integer(x) && x.value() == Some((p * q) as i128)
        } else {
            r is Error
        }),
{
    if let Json::Null = a {
        return Json::Null;
    }
    if let Json::Null = b {
        return Json::Null;
    }
    if let Some((p, q)) = ints(&a, &b) {
        return match p.checked_mul(q) {
            Some(v) => Json::from_integer(v),
            None => overflow(),
        };
    }
    match (a, b) {
        (Json::String(s), Json::Integer(y)) => match y.integer() {
            Some(n) => Json::String(repeat_text(s.as_str(), n)),
            None => overflow(),
        },
        (Json::Integer(x), Json::String(s)) => match x.integer() {
            Some(n) => Json::String(repeat_text(s.as_str(), n)),
            None => overflow(),
        },
        (a, b) => mismatch("multiply", &a, &b),
    }
}

/// Division of integers, truncating toward zero; `null` on either side gives
/// `null`; division by zero is an error.
pub fn json_div(a: Json, b: Json) -> (r: Json)
    ensures
        a is Null || b is Null ==> r is Null,
        int_operands(a, b) matches Some((p, q)) ==> (if q == 0 || (p == i128::MIN && q == -1) {
            r is Error
        } else {
            r matches Json::Integer(x) && x.value() is Some
        }),
{
    if let Json::Null = a {
        return Json::Null;
    }
    if let Json::Null = b {
        return Json::Null;
    }
    if let Some((p, q)) = ints(&a, &b) {
        if q == 0 || (p == i128::MIN && q == -1) {
            return Json::Error(copy_text("integer division failed"));
        }
        return Json::from_integer(p / q);
    }
    mismatch("divide", &a, &b)
}

/// Remainder of integers, with the sign of the dividend; `null` on either
/// side gives `null`; a zero divisor is an error.
pub fn json_rem(a: Json, b: Json) -> (r: Json)
    ensures
        a is Null || b is Null ==> r is Null,
        int_operands(a, b) matches Some((p, q)) ==> (if q == 0 || (p == i128::MIN && q == -1) {
            r is Error
        } else {
            r matches Json::Integer(x) && x.value() is Some
        }),
{
    if let Json::Null = a {
        return Json::Null;
    }
    if let Json::Null = b {
        return Json::Null;
    }
    if let Some((p, q)) = ints(&a, &b) {
        if q == 0 || (p == i128::MIN && q == -1) {
            return Json::Error(copy_text("integer remainder failed"));
        }
        return Json::from_integer(p % q);
    }
    mismatch("take the remainder of", &a, &b)
}

/// Negation of an integer; `null` stays `null`.
pub fn json_neg(a: Json) -> (r: Json)
    ensures
        a is Null ==> r is Null,
        a is Integer && a->Integer_0.value() is Some && a->Integer_0.value().unwrap() != i128::MIN ==> (r is Integer
            && r->Integer_0.value() == Some((-a->Integer_0.value().unwrap()) as i128)),
{
    match a {
        Json::Null => Json::Null,
        Json::Integer(x) => match x.integer() {
            Some(p) => if p == i128::MIN {
                overflow()
            } else {
                Json::from_integer(-p)
            },
            None => overflow(),
        },
        other => {
            let m = copy_text("cannot negate");
            let _ = other;
            Json::Error(m)
        },
    }
}

impl core::ops::Add for Json {
    type Output = Json;

    fn add(self, rhs: Json) -> Json {
        json_add(self, rhs)
    }
}

/// The result is stated by `json_add`.
impl vstd::std_specs::ops::AddSpecImpl for Json {
    open spec fn obeys_add_spec() -> bool {
        false
    }

    open spec fn add_req(self, rhs: Json) -> bool {
        self is Object ==> props_sorted(self->Object_0@)
    }

    open spec fn add_spec(self, rhs: Json) -> Json {
        Json::Null
    }
}

impl core::ops::Sub for Json {
    type Output = Json;

    fn sub(self, rhs: Json) -> Json {
        json_sub(self, rhs)
    }
}

/// The result is stated by `json_sub`.
impl vstd::std_specs::ops::SubSpecImpl for Json {
    open spec fn obeys_sub_spec() -> bool {
        false
    }

    open spec fn sub_req(self, rhs: Json) -> bool {
        self is Object ==> props_sorted(self->Object_0@)
    }

    open spec fn sub_spec(self, rhs: Json) -> Json {
        Json::Null
    }
}

impl core::ops::Mul for Json {
    type Output = Json;

    fn mul(self, rhs: Json) -> Json {
        json_mul(self, rhs)
    }
}

/// The result is stated by `json_mul`.
impl vstd::std_specs::ops::MulSpecImpl for Json {
    open spec fn obeys_mul_spec() -> bool {
        false
    }

    open spec fn mul_req(self, rhs: Json) -> bool {
        true
    }

    open spec fn mul_spec(self, rhs: Json) -> Json {
        Json::Null
    }
}

impl core::ops::Div for Json {
    type Output = Json;

    fn div(self, rhs: Json) -> Json {
        json_div(self, rhs)
    }
}

/// The result is stated by `json_div`.
impl vstd::std_specs::ops::DivSpecImpl for Json {
    open spec fn obeys_div_spec() -> bool {
        false
    }

    open spec fn div_req(self, rhs: Json) -> bool {
        true
    }

    open spec fn div_spec(self, rhs: Json) -> Json {
        Json::Null
    }
}

impl core::ops::Rem for Json {
    type Output = Json;

    fn rem(self, rhs: Json) -> Json {
        json_rem(self, rhs)
    }
}

/// The result is stated by `json_rem`.
impl vstd::std_specs::ops::RemSpecImpl for Json {
    open spec fn obeys_rem_spec() -> bool {
        false
    }

    open spec fn rem_req(self, rhs: Json) -> bool {
        true
    }

    open spec fn rem_spec(self, rhs: Json) -> Json {
        Json::Null
    }
}

impl core::ops::Neg for Json {
    type Output = Json;

    fn neg(self) -> Json {
        json_neg(self)
    }
}

/// The result is stated by `json_neg`.
impl vstd::std_specs::ops::NegSpecImpl for Json {
    open spec fn obeys_neg_spec() -> bool {
        false
    }

    open spec fn neg_req(self) -> bool {
        true
    }

    open spec fn neg_spec(self) -> Json {
        Json::Null
    }
}

} // verus!
