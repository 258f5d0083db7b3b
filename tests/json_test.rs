use std::cmp::Ordering;

use jsondata::number::{format_i128, parse_i128};
use jsondata::pointer::parse_pointer;
use jsondata::scanner::split_values;
use jsondata::serialize::encode_string;
use jsondata::text::compare_text;
use jsondata::{insert, Floating, Integral, Json, Property, Scanner};

fn float(v: f64) -> Json {
    Json::Float(Floating::new(format!("{:e}", v), v.to_bits()))
}

fn doc() -> Json {
    let arr: Json = vec![Json::new(1), 2.into(), 3.into()].into();
    vec![
        Property::new("arr", arr),
        Property::new("name", "x".into()),
        Property::new("a/b", true.into()),
        Property::new("m~n", 7.into()),
    ]
    .into()
}

#[test]
fn integer_numeral_computes_once() {
    let mut j = Json::Integer(Integral::from_text("1000".to_string()));
    assert_eq!(j.integer(), Some(1000));
    assert!(j.compute().is_ok());
    assert_eq!(j.integer(), Some(1000));
    assert_eq!(j.to_string(), "1000");
}

#[test]
fn integer_numeral_bounds() {
    assert_eq!(parse_i128("-170141183460469231731687303715884105728"), Some(i128::MIN));
    assert_eq!(parse_i128("170141183460469231731687303715884105727"), Some(i128::MAX));
    assert_eq!(parse_i128("170141183460469231731687303715884105728"), None);
    assert_eq!(parse_i128("+42"), Some(42));
    assert_eq!(parse_i128("4x2"), None);
    assert_eq!(parse_i128("-"), None);
    assert_eq!(parse_i128(""), None);
    assert_eq!(format_i128(i128::MIN), "-170141183460469231731687303715884105728");
    assert_eq!(format_i128(0), "0");
}

#[test]
fn compute_and_validate_stop_at_bad_numeral() {
    let bad = Json::Integer(Integral::from_text("12a".to_string()));
    let mut j: Json = vec![Json::new(1), bad].into();
    assert!(j.compute().is_err());
    let mut k: Json = vec![Json::new(1), Json::Integer(Integral::from_text("-5".to_string()))].into();
    assert!(k.validate().is_ok());
    assert_eq!(k.get("/1").unwrap().integer(), Some(-5));
}

#[test]
fn accessors_match_variant_only() {
    let j = Json::new(true);
    assert_eq!(j.boolean(), Some(true));
    assert_eq!(j.integer(), None);
    assert_eq!(j.string(), None);
    assert!(Json::new("s").string() == Some("s".to_string()));
    assert!(Json::new(vec![Json::new(1)]).array().unwrap().len() == 1);
    assert!(doc().object().unwrap().len() == 4);
    let e = Json::Error("boom".to_string());
    assert!(e.is_error());
    assert_eq!(e.error(), Some("boom".to_string()));
    assert!(!j.is_error());
    assert_eq!(Json::Null.typename(), "null");
    assert_eq!(float(1.5).typename(), "float");
    assert_eq!(e.typename(), "error");
    let t: bool = Json::Null.into();
    assert!(!t);
    let t: bool = Json::new(0).into();
    assert!(t);
}

#[test]
fn properties_sorted_and_unique() {
    let j: Json = vec![
        Property::new("b", 1.into()),
        Property::new("a", 2.into()),
        Property::new("b", 3.into()),
    ]
    .into();
    let ps = j.object().unwrap();
    assert_eq!(ps.len(), 2);
    assert_eq!(ps[0].key, "a");
    assert_eq!(ps[1].key, "b");
    assert_eq!(ps[1].value, Json::new(3));
    let mut k = j;
    insert(&mut k, Property::new("c", Json::Null));
    insert(&mut k, Property::new("a", 9.into()));
    assert_eq!(k.to_string(), r#"{"a":9,"b":3,"c":null}"#);
}

#[test]
fn pointer_fragments_decoding() {
    assert_eq!(parse_pointer("/a~1b/m~0n/").unwrap(), vec!["a/b".to_string(), "m~n".to_string(), "".to_string()]);
    assert!(parse_pointer("a").is_err());
    assert!(parse_pointer("/a~2").is_err());
}

#[test]
fn pointer_get() {
    let j = doc();
    assert_eq!(j.get("").unwrap(), j);
    assert_eq!(j.get("/arr/1").unwrap(), Json::new(2));
    assert_eq!(j.get("/a~1b").unwrap(), Json::new(true));
    assert_eq!(j.get("/m~0n").unwrap(), Json::new(7));
    assert!(j.get("/arr/3").is_err());
    assert!(j.get("/arr/x").is_err());
    assert!(j.get("/missing").is_err());
    assert!(j.get("/name/0").is_err());
}

#[test]
fn pointer_set_out_of_bounds_leaves_array() {
    let mut j = doc();
    assert!(j.set("/arr/5", Json::new(9)).is_err());
    let arr = j.get("/arr").unwrap().array().unwrap();
    assert_eq!(arr.len(), 3);
    assert_eq!(arr[0], Json::new(1));
    assert_eq!(arr[1], Json::new(2));
    assert_eq!(arr[2], Json::new(3));
}

#[test]
fn pointer_set_and_delete_keep_store_sorted() {
    let mut j = doc();
    assert!(j.set("/arr/0", Json::new(10)).is_ok());
    assert!(j.set("/zz", Json::Null).is_ok());
    assert!(j.set("/b", Json::new(false)).is_ok());
    assert!(j.set("/name", "y".into()).is_ok());
    assert_eq!(
        j.to_string(),
        r#"{"a/b":true,"arr":[10,2,3],"b":false,"m~n":7,"name":"y","zz":null}"#
    );
    assert!(j.delete("/b").is_ok());
    assert!(j.delete("/b").is_err());
    assert!(j.delete("/arr/0").is_ok());
    assert!(j.delete("/arr/7").is_err());
    assert!(j.delete("/name/x").is_err());
    assert_eq!(j.to_string(), r#"{"a/b":true,"arr":[2,3],"m~n":7,"name":"y","zz":null}"#);
    let keys: Vec<String> = j.object().unwrap().into_iter().map(|p| p.key).collect();
    let mut sorted = keys.clone();
    sorted.sort();
    assert_eq!(keys, sorted);
}

#[test]
fn pointer_append_commits_text_and_items() {
    let mut j = doc();
    assert!(j.append("/name", "yz".into()).is_ok());
    assert_eq!(j.get("/name").unwrap(), Json::new("xyz"));
    assert!(j.append("/name", Json::new(1)).is_err());
    assert!(j.append("/arr", Json::new(4)).is_ok());
    assert_eq!(j.get("/arr/3").unwrap(), Json::new(4));
    assert!(j.append("/m~0n", Json::new(1)).is_err());
    assert!(j.append("", Json::new(1)).is_err());
    let mut root: Json = vec![Json::new(1)].into();
    assert!(root.append("", Json::new(2)).is_ok());
    assert_eq!(root.to_string(), "[1,2]");
    let mut text = Json::new("ab");
    assert!(text.append("", "cd".into()).is_ok());
    assert_eq!(text, Json::new("abcd"));
}

#[test]
fn errors_equal_and_sort_together() {
    let e1 = Json::Error("one".to_string());
    let e2 = Json::Error("two".to_string());
    assert_eq!(e1, e2);
    assert_eq!(e1.partial_cmp(&e2), Some(Ordering::Equal));
    let a: Json = vec![Json::new(1), Json::Error("x".to_string())].into();
    let b: Json = vec![Json::new(1), Json::Error("y".to_string())].into();
    assert_eq!(a.partial_cmp(&b), Some(Ordering::Equal));
    assert_eq!(a, b);
    let mut c: Json = vec![Json::Error("x".to_string()), Json::new(3)].into();
    let before = c.clone();
    assert!(c.validate().is_ok());
    assert_eq!(c, before);
}

#[test]
fn integer_float_order_agrees_with_equality() {
    let nan = float(f64::NAN);
    assert_eq!(Json::new(0).partial_cmp(&nan), Some(Ordering::Less));
    assert_eq!(nan.partial_cmp(&Json::new(0)), Some(Ordering::Greater));
    assert_eq!(Json::new(i128::MAX).partial_cmp(&float(1e39)), Some(Ordering::Less));
    assert_eq!(float(1e39).partial_cmp(&Json::new(i128::MAX)), Some(Ordering::Greater));
    assert_eq!(Json::new(i128::MIN).partial_cmp(&float(-1e39)), Some(Ordering::Greater));
    assert_eq!(Json::new(3).partial_cmp(&float(3.9)), Some(Ordering::Equal));
    assert_eq!(Json::new(3), float(3.9));
    // NaN sorts above every number, integers included
    assert!(Json::new(1) < float(2.0));
    assert!(float(2.0) < nan);
    assert!(Json::new(1) < nan);
}

#[test]
fn compute_stops_at_first_bad_numeral() {
    let bad = Json::Integer(Integral::from_text("1x".to_string()));
    let later = Json::Integer(Integral::from_text("5".to_string()));
    let mut j: Json = vec![Json::Integer(Integral::from_text("4".to_string())), bad, later].into();
    assert!(j.compute().is_err());
    if let Json::Array(items) = &j {
        match &items[0] {
            Json::Integer(x) => assert_eq!(x.val, Some(4)),
            _ => panic!("expected an integer"),
        }
        match &items[2] {
            Json::Integer(x) => assert_eq!(x.val, None),
            _ => panic!("expected an integer"),
        }
    } else {
        panic!("expected an array");
    }
}

#[test]
fn serialize_canonical_text() {
    let j: Json = vec![Json::Null, true.into(), false.into(), 10.into(), "true".into()].into();
    assert_eq!(j.to_string(), r#"[null,true,false,10,"true"]"#);
    assert_eq!(Json::new(Vec::<Json>::new()).to_string(), "[]");
    assert_eq!(Json::new(Vec::<Property>::new()).to_string(), "{}");
    assert_eq!(Json::Error("bad".to_string()).to_string(), "error: bad");
    assert_eq!(float(1.5).to_string(), "1.5e0");
    assert_eq!(Json::new(-7).to_string(), "-7");
}

#[test]
fn escaping_quote_and_newline() {
    let j = Json::new("a\"b\nc");
    assert_eq!(j.to_string(), "\"a\\\"b\\nc\"");
    let mut out = String::new();
    encode_string(&mut out, "\u{1}\u{7f}\\é");
    assert_eq!(out, "\"\\u0001\\u007f\\\\é\"");
}

#[test]
fn nan_and_infinity_equality() {
    assert_eq!(float(f64::NAN), float(f64::NAN));
    assert_eq!(float(f64::INFINITY), float(f64::INFINITY));
    assert_ne!(float(f64::INFINITY), float(f64::NEG_INFINITY));
    assert_eq!(float(0.0), float(-0.0));
}

#[test]
fn integer_float_cross_equality() {
    assert_eq!(Json::new(10), float(10.0));
    assert_eq!(float(10.7), Json::new(10));
    assert_ne!(Json::new(0), float(f64::NAN));
    assert_ne!(Json::new(i128::MAX), float(1e40));
    assert_ne!(Json::new(i128::MIN), float(-1e40));
}

#[test]
fn error_sorts_last() {
    let e = Json::Error("x".to_string());
    for v in [Json::Null, Json::new(true), Json::new(5), float(1.0), Json::new("s"), doc()] {
        assert_eq!(v.partial_cmp(&e), Some(Ordering::Less));
        assert_eq!(e.partial_cmp(&v), Some(Ordering::Greater));
    }
}

#[test]
fn sort_order_across_variants() {
    let values = vec![
        Json::Null,
        Json::new(false),
        Json::new(true),
        Json::new(-3),
        float(2.5),
        Json::new(7),
        Json::new("a"),
        Json::new("b"),
        Json::new(vec![Json::new(1)]),
        Json::new(vec![Json::new(1), Json::new(2)]),
        doc(),
    ];
    for (i, a) in values.iter().enumerate() {
        for (k, b) in values.iter().enumerate() {
            let want = i.cmp(&k);
            assert_eq!(a.partial_cmp(b), Some(want), "{} vs {}", i, k);
        }
    }
    assert!(Json::new(1) < float(1.5) || Json::new(1) == float(1.5));
    assert!(float(f64::NAN) > float(f64::INFINITY));
}

#[test]
fn scanner_splits_stream() {
    assert_eq!(split_values("1 2\n3"), vec!["1 ".to_string(), "2\n".to_string(), "3".to_string()]);
    let vals: Vec<i128> = split_values("1 2\n3")
        .iter()
        .map(|t| parse_i128(t.trim()).unwrap())
        .collect();
    assert_eq!(vals, vec![1, 2, 3]);
    assert_eq!(
        split_values(r#"  {"a":"}\""} [1,[2]]"x y" "#),
        vec![r#"{"a":"}\""}"#.to_string(), "[1,[2]]".to_string(), r#""x y""#.to_string()]
    );
    let mut sc = Scanner::new();
    assert_eq!(sc.push('['), None);
    assert_eq!(sc.push(']'), Some("[]".to_string()));
    assert_eq!(sc.finish(), None);
    assert_eq!(sc.push('t'), None);
    assert_eq!(sc.finish(), Some("t".to_string()));
}

#[test]
fn text_order_by_code_point() {
    assert_eq!(compare_text("a", "b"), Ordering::Less);
    assert_eq!(compare_text("ab", "a"), Ordering::Greater);
    assert_eq!(compare_text("é", "z"), Ordering::Greater);
    assert_eq!(compare_text("", ""), Ordering::Equal);
}

#[test]
fn ops_errors_and_overflow() {
    assert!((Json::new(i128::MAX) + Json::new(1)).is_error());
    assert!((Json::new(1) / Json::new(0)).is_error());
    assert!((Json::new(1) % Json::new(0)).is_error());
    assert!((Json::new("a") + Json::new(1)).is_error());
    assert!((-Json::new(i128::MIN)).is_error());
    assert_eq!(Json::new(-7) / Json::new(2), Json::new(-3));
    assert_eq!(Json::new(-7) % Json::new(2), Json::new(-1));
}
