use vstd::prelude::*;
use crate::json::{Json, Property, props_sorted, well_formed, same, placed, search_by_key, insert_property};
use crate::number::{all_digits, digits_value, parse_i128, lemma_digits_nonneg};
use crate::text::{chars_order, copy_text, push_char, lemma_chars_order_flip};

verus! {

/// Fragments of a pointer read from index `i`, with `done` finished and `cur`
/// under way; `~0` stands for `~` and `~1` for `/`, any other `~` is invalid.
pub open spec fn frags_from(p: Seq<char>, i: int, done: Seq<Seq<char>>, cur: Seq<char>) -> Option<Seq<Seq<char>>>
    decreases p.len() - i,
{
    if i >= p.len() {
        Some(done.push(cur))
    } else if p[i] == '/' {
        frags_from(p, i + 1, done.push(cur), seq![])
    } else if p[i] == '~' {
        if i + 1 < p.len() && p[i + 1] == '0' {
            frags_from(p, i + 2, done, cur.push('~'))
        } else if i + 1 < p.len() && p[i + 1] == '1' {
            frags_from(p, i + 2, done, cur.push('/'))
        } else {
            None
        }
    } else {
        frags_from(p, i + 1, done, cur.push(p[i]))
    }
}

/// The reference tokens of a non-empty pointer, which must start with `/`.
pub open spec fn pointer_fragments(p: Seq<char>) -> Option<Seq<Seq<char>>> {
    if p.len() > 0 && p[0] == '/' {
        frags_from(p, 1, seq![], seq![])
    } else {
        None
    }
}

/// The fragments a path leads through: none for the empty path, which is the
/// whole document.
pub open spec fn target_fragments(p: Seq<char>) -> Option<Seq<Seq<char>>> {
    if p.len() == 0 {
        Some(seq![])
    } else {
        pointer_fragments(p)
    }
}

pub open spec fn texts(v: Seq<String>) -> Seq<Seq<char>> {
    v.map_values(|s: String| s@)
}

/// An array index: one or more decimal digits.
pub open spec fn index_of(f: Seq<char>) -> Option<int> {
    if f.len() > 0 && all_digits(f) {
        Some(digits_value(f))
    } else {
        None
    }
}

pub open spec fn has_key(ps: Seq<Property>, f: Seq<char>) -> bool {
    exists|k: int| 0 <= k < ps.len() && ps[k].key@ == f
}

pub open spec fn key_pos(ps: Seq<Property>, f: Seq<char>) -> int {
    choose|k: int| 0 <= k < ps.len() && ps[k].key@ == f
}

/// The member of a container that a fragment names.
pub open spec fn child(j: Json, f: Seq<char>) -> Option<Json> {
    match j {
        Json::Array(v) => match index_of(f) {
            Some(n) => if n < v@.len() { Some(v@[n]) } else { None },
            None => None,
        },
        Json::Object(ps) => if has_key(ps@, f) { Some(ps@[key_pos(ps@, f)].value) } else { None },
        _ => None,
    }
}

/// The value that a sequence of fragments leads to.
pub open spec fn resolve(j: Json, fs: Seq<Seq<char>>) -> Option<Json>
    decreases fs.len(),
{
    if fs.len() == 0 {
        Some(j)
    } else {
        match child(j, fs[0]) {
            Some(c) => resolve(c, fs.drop_first()),
            None => None,
        }
    }
}

/// A change made at the end of a path.
pub enum Edit {
    /// Replace an array element or upsert an object member.
    Put(Json),
    /// Remove an array element or an object member.
    Remove,
    /// Extend a string or an array.
    Append(Json),
}

/// Whether the edit applies to the container `p`; `f` names the member for
/// `Put` and `Remove`.
pub open spec fn edit_ok(p: Json, e: Edit, f: Seq<char>) -> bool {
    match e {
        Edit::Put(_) => match p {
            Json::Array(v) => index_of(f) matches Some(n) && n < v@.len(),
            Json::Object(_) => true,
            _ => false,
        },
        Edit::Remove => match p {
            Json::Array(v) => index_of(f) matches Some(n) && n < v@.len(),
            Json::Object(ps) => has_key(ps@, f),
            _ => false,
        },
        Edit::Append(x) => match p {
            Json::String(_) => x is String,
            Json::Array(_) => true,
            _ => false,
        },
    }
}

/// `q` is the container `p` after the edit.
pub open spec fn edited(p: Json, q: Json, e: Edit, f: Seq<char>) -> bool {
    match e {
        Edit::Put(x) => match p {
            Json::Array(v) => q is Array && (index_of(f) matches Some(n) && q->Array_0@ == v@.update(n, x)),
            Json::Object(ps) => q is Object && props_sorted(q->Object_0@) && exists|item: Property|
                item.key@ == f && item.value == x && #[trigger] placed(ps@, q->Object_0@, item),
            _ => false,
        },
        Edit::Remove => match p {
            Json::Array(v) => q is Array && (index_of(f) matches Some(n) && q->Array_0@ == v@.remove(n)),
            Json::Object(ps) => q is Object && q->Object_0@ == ps@.remove(key_pos(ps@, f)),
            _ => false,
        },
        Edit::Append(x) => match p {
            Json::String(s) => x is String && q is String && q->String_0@ == s@ + x->String_0@,
            Json::Array(v) => q is Array && q->Array_0@ == v@.push(x),
            _ => false,
        },
    }
}

/// What an edit brings into the tree is itself well formed.
pub open spec fn edit_well_formed(e: Edit) -> bool {
    match e {
        Edit::Put(x) => well_formed(x),
        Edit::Remove => true,
        Edit::Append(x) => well_formed(x),
    }
}

/// `n` is `o` with the value that `fs` leads to edited by `e`, and everything else as
/// it was.
pub open spec fn changed_at(o: Json, n: Json, fs: Seq<Seq<char>>, e: Edit, f: Seq<char>) -> bool
    decreases fs.len(),
{
    if fs.len() == 0 {
        edited(o, n, e, f)
    } else {
        match o {
            Json::Array(v) => n is Array && (index_of(fs[0]) matches Some(k) && 0 <= k < v@.len()
                && n->Array_0@.len() == v@.len()
                && (forall|m: int| 0 <= m < v@.len() && m != k ==> n->Array_0@[m] == v@[m])
                && changed_at(v@[k], n->Array_0@[k], fs.drop_first(), e, f)),
            Json::Object(ps) => n is Object && has_key(ps@, fs[0]) && n->Object_0@.len() == ps@.len()
                && (forall|m: int| 0 <= m < ps@.len() && m != key_pos(ps@, fs[0]) ==> n->Object_0@[m] == ps@[m])
                && n->Object_0@[key_pos(ps@, fs[0])].key == ps@[key_pos(ps@, fs[0])].key
                && changed_at(ps@[key_pos(ps@, fs[0])].value, n->Object_0@[key_pos(ps@, fs[0])].value, fs.drop_first(), e, f),
            _ => false,
        }
    }
}

proof fn lemma_key_pos(ps: Seq<Property>, f: Seq<char>, n: int)
    requires
        props_sorted(ps),
        0 <= n < ps.len(),
        ps[n].key@ == f,
    ensures
        has_key(ps, f),
        key_pos(ps, f) == n,
{
    let k = key_pos(ps, f);
    if k != n {
        lemma_chars_order_flip(f, f);
        if k < n {
            assert(chars_order(ps[k].key@, ps[n].key@) == core::cmp::Ordering::Less);
        } else {
            assert(chars_order(ps[n].key@, ps[k].key@) == core::cmp::Ordering::Less);
        }
    }
}

/// Reads an array index; `None` when the fragment is not one or is too large
/// to be an index of any array.
fn parse_index(f: &str) -> (r: Option<usize>)
    ensures
        r matches Some(n) ==> index_of(f@) == Some(n as int),
        r is None ==> index_of(f@) is None || index_of(f@).unwrap() > usize::MAX,
{
    let n = f.unicode_len();
    if n == 0 {
        return None;
    }
    let c = f.get_char(0);
    if c < '0' || c > '9' {
        return None;
    }
    proof {
        if all_digits(f@) {
            lemma_digits_nonneg(f@);
        }
    }
    match parse_i128(f) {
        Some(v) => {
            if v < 0 || v > usize::MAX as i128 {
                None
            } else {
                Some(v as usize)
            }
        },
        None => None,
    }
}

/// Splits a pointer into its reference tokens, decoding `~0` and `~1`.
pub fn parse_pointer(path: &str) -> (r: Result<Vec<String>, String>)
    ensures
        match pointer_fragments(path@) {
            Some(fs) => r matches Ok(v) && texts(v@) == fs,
            None => r is Err,
        },
{
    let n = path.unicode_len();
    if n == 0 || path.get_char(0) != '/' {
        return Err(String::from_str("jptr: pointer should start with forward solidus"));
    }
    let mut done: Vec<String> = Vec::new();
    let mut cur = String::new();
    let mut i: usize = 1;
    assert(texts(done@) =~= Seq::<Seq<char>>::empty());
    assert(cur@ =~= Seq::<char>::empty());
    while i < n
        invariant
            n == path@.len(),
            1 <= i,
            pointer_fragments(path@) == frags_from(path@, i as int, texts(done@), cur@),
        decreases n - i,
    {
        let c = path.get_char(i);
        if c == '/' {
            let finished = cur;
            cur = String::new();
            let ghost before = done@;
            done.push(finished);
            assert(texts(done@) =~= texts(before).push(finished@));
            i = i + 1;
        } else if c == '~' {
            if i + 1 < n && path.get_char(i + 1) == '0' {
                push_char(&mut cur, '~');
                i = i + 2;
            } else if i + 1 < n && path.get_char(i + 1) == '1' {
                push_char(&mut cur, '/');
                i = i + 2;
            } else {
                return Err(String::from_str("jptr: invalid escape in pointer"));
            }
        } else {
            push_char(&mut cur, c);
            i = i + 1;
        }
    }
    let ghost before = done@;
    done.push(cur);
    assert(texts(done@) =~= texts(before).push(cur@));
    Ok(done)
}

proof fn lemma_missing_key(ps: Seq<Property>, f: Seq<char>, i: int)
    requires
        0 <= i <= ps.len(),
        forall|j: int| 0 <= j < i ==> chars_order(#[trigger] ps[j].key@, f) == core::cmp::Ordering::Less,
        forall|j: int| i <= j < ps.len() ==> chars_order(f, #[trigger] ps[j].key@) == core::cmp::Ordering::Less,
    ensures
        !has_key(ps, f),
{
    lemma_chars_order_flip(f, f);
    if has_key(ps, f) {
        let k = choose|k: int| 0 <= k < ps.len() && ps[k].key@ == f;
        if k < i {
            assert(chars_order(ps[k].key@, f) == core::cmp::Ordering::Less);
        } else {
            assert(chars_order(f, ps[k].key@) == core::cmp::Ordering::Less);
        }
    }
}

/// The child of a container named by a fragment.
fn child_ref<'a>(j: &'a Json, f: &str) -> (r: Option<&'a Json>)
    requires
        well_formed(*j),
    ensures
        match child(*j, f@) {
            Some(c) => r matches Some(x) && *x == c,
            None => r is None,
        },
{
    match j {
        Json::Array(v) => match parse_index(f) {
            Some(k) => if k < v.len() {
                Some(&v[k])
            } else {
                None
            },
            None => {
                assert(v@.len() == v.len());
                None
            },
        },
        Json::Object(ps) => match search_by_key(ps, f) {
            Ok(k) => {
                proof {
                    lemma_key_pos(ps@, f@, k as int);
                }
                Some(&ps[k].value)
            },
            Err(k) => {
                proof {
                    lemma_missing_key(ps@, f@, k as int);
                }
                None
            },
        },
        _ => None,
    }
}

/// The value that the fragments from index `i` on lead to.
fn locate<'a>(j: &'a Json, fs: &Vec<String>, i: usize) -> (r: Option<&'a Json>)
    requires
        well_formed(*j),
        i <= fs@.len(),
    ensures
        match resolve(*j, texts(fs@).skip(i as int)) {
            Some(c) => r matches Some(x) && *x == c && well_formed(c),
            None => r is None,
        },
    decreases fs@.len() - i,
{
    let ghost rest = texts(fs@).skip(i as int);
    if i == fs.len() {
        return Some(j);
    }
    assert(rest[0] == fs@[i as int]@);
    assert(rest.drop_first() =~= texts(fs@).skip(i + 1));
    match child_ref(j, fs[i].as_str()) {
        Some(c) => {
            proof {
                lemma_child_well_formed(*j, fs@[i as int]@);
            }
            locate(c, fs, i + 1)
        },
        None => None,
    }
}

proof fn lemma_child_well_formed(j: Json, f: Seq<char>)
    requires
        well_formed(j),
        child(j, f) is Some,
    ensures
        well_formed(child(j, f).unwrap()),
{
    match j {
        Json::Object(ps) => {
            assert(has_key(ps@, f));
            let k = key_pos(ps@, f);
            assert(0 <= k < ps@.len() && ps@[k].key@ == f);
            assert(well_formed(ps@[k].value));
            assert(child(j, f) == Some(ps@[k].value));
        },
        Json::Array(v) => {
            lemma_digits_nonneg(f);
            let n = index_of(f).unwrap();
            assert(well_formed(v@[n]));
        },
        _ => {},
    }
}

proof fn lemma_remove_sorted(ps: Seq<Property>, k: int)
    requires
        props_sorted(ps),
        0 <= k < ps.len(),
    ensures
        props_sorted(ps.remove(k)),
{
    let qs = ps.remove(k);
    assert forall|i: int, j: int| 0 <= i < j < qs.len() implies chars_order(
        #[trigger] qs[i].key@,
        #[trigger] qs[j].key@,
    ) == core::cmp::Ordering::Less by {
        let i0 = if i < k { i } else { i + 1 };
        let j0 = if j < k { j } else { j + 1 };
        assert(qs[i] == ps[i0]);
        assert(qs[j] == ps[j0]);
    }
}

/// Applies an edit to the container it is aimed at.
fn apply_edit(j: &mut Json, e: Edit, f: &str)
    requires
        well_formed(*old(j)),
        edit_ok(*old(j), e, f@),
    ensures
        edited(*old(j), *final(j), e, f@),
        edit_well_formed(e) ==> well_formed(*final(j)),
{
    let mut cur = Json::Null;
    core::mem::swap(j, &mut cur);
    match e {
        Edit::Put(x) => match cur {
            Json::Array(mut items) => {
                assert(items@.len() == items.len());
                if let Some(k) = parse_index(f) {
                    items.set(k, x);
                }
                *j = Json::Array(items);
            },
            Json::Object(mut ps) => {
                let item = Property { key: copy_text(f), value: x };
                let ghost before = ps@;
                insert_property(&mut ps, item);
                proof {
                    crate::json::lemma_placed_keeps(before, ps@, item);
                    if well_formed(x) {
                        assert forall|m: int| 0 <= m < ps@.len() implies well_formed(#[trigger] ps@[m].value) by {
                            if ps@[m] != item {
                                let j0 = choose|j0: int| 0 <= j0 < before.len() && ps@[m] == before[j0];
                                assert(well_formed(before[j0].value));
                            }
                        }
                    }
                }
                *j = Json::Object(ps);
            },
            _ => {},
        },
        Edit::Remove => match cur {
            Json::Array(mut items) => {
                assert(items@.len() == items.len());
                if let Some(k) = parse_index(f) {
                    items.remove(k);
                }
                *j = Json::Array(items);
            },
            Json::Object(mut ps) => {
                match search_by_key(&ps, f) {
                    Ok(k) => {
                        proof {
                            lemma_key_pos(ps@, f@, k as int);
                            lemma_remove_sorted(ps@, k as int);
                        }
                        ps.remove(k);
                    },
                    Err(k) => {
                        proof {
                            lemma_missing_key(ps@, f@, k as int);
                        }
                    },
                }
                *j = Json::Object(ps);
            },
            _ => {},
        },
        Edit::Append(x) => match cur {
            Json::String(mut s) => {
                if let Json::String(t) = x {
                    s.append(t.as_str());
                }
                *j = Json::String(s);
            },
            Json::Array(mut items) => {
                items.push(x);
                *j = Json::Array(items);
            },
            _ => {},
        },
    }
}

/// Follows the fragments from index `i` on and applies the edit there.
fn apply_at(j: &mut Json, fs: &Vec<String>, i: usize, e: Edit, f: &str)
    requires
        well_formed(*old(j)),
        i <= fs@.len(),
        resolve(*old(j), texts(fs@).skip(i as int)) matches Some(p) && edit_ok(p, e, f@),
    ensures
        changed_at(*old(j), *final(j), texts(fs@).skip(i as int), e, f@),
        edit_well_formed(e) ==> well_formed(*final(j)),
    decreases fs@.len() - i,
{
    let ghost rest = texts(fs@).skip(i as int);
    if i == fs.len() {
        apply_edit(j, e, f);
        return;
    }
    assert(rest[0] == fs@[i as int]@);
    assert(rest.drop_first() =~= texts(fs@).skip(i + 1));
    let mut cur = Json::Null;
    core::mem::swap(j, &mut cur);
    let ghost o = cur;
    match cur {
        Json::Array(mut items) => {
            assert(items@.len() == items.len());
            let k = match parse_index(fs[i].as_str()) {
                Some(k) => k,
                None => 0,
            };
            let ghost v0 = items@;
            let mut c = Json::Null;
            core::mem::swap(&mut items[k], &mut c);
            assert(well_formed(c));
            apply_at(&mut c, fs, i + 1, e, f);
            core::mem::swap(&mut items[k], &mut c);
            assert(items@ =~= v0.update(k as int, items@[k as int]));
            *j = Json::Array(items);
        },
        Json::Object(mut ps) => {
            let k = match search_by_key(&ps, fs[i].as_str()) {
                Ok(k) => k,
                Err(k) => {
                    proof {
                        lemma_missing_key(ps@, fs@[i as int]@, k as int);
                    }
                    0
                },
            };
            proof {
                lemma_key_pos(ps@, fs@[i as int]@, k as int);
            }
            let ghost v0 = ps@;
            let mut prop = ps.remove(k);
            assert(well_formed(prop.value));
            apply_at(&mut prop.value, fs, i + 1, e, f);
            ps.insert(k, prop);
            assert(ps@ =~= v0.update(k as int, prop));
            assert forall|a: int, b: int| 0 <= a < b < ps@.len() implies chars_order(
                #[trigger] ps@[a].key@,
                #[trigger] ps@[b].key@,
            ) == core::cmp::Ordering::Less by {
                assert(ps@[a].key == v0[a].key);
                assert(ps@[b].key == v0[b].key);
            }
            *j = Json::Object(ps);
        },
        _ => {},
    }
}

/// Checks an array index against the array's length.
fn check_index(v: &Vec<Json>, f: &str) -> (r: Result<usize, String>)
    ensures
        match r {
            Ok(k) => index_of(f@) == Some(k as int) && k < v@.len(),
            Err(_) => !(index_of(f@) matches Some(n) && n < v@.len()),
        },
{
    let len = v.len();
    match parse_index(f) {
        Some(k) => if k < len {
            Ok(k)
        } else {
            Err(String::from_str("jptr: index out of bound"))
        },
        None => Err(String::from_str("jptr: not an array index within bounds")),
    }
}

/// Checks that an edit applies to the container it is aimed at.
fn check_edit(p: &Json, e: &Edit, f: &str) -> (r: Result<(), String>)
    requires
        well_formed(*p),
    ensures
        r is Ok == edit_ok(*p, *e, f@),
{
    match e {
        Edit::Put(_) => match p {
            Json::Array(v) => match check_index(v, f) {
                Ok(_) => Ok(()),
                Err(m) => Err(m),
            },
            Json::Object(_) => Ok(()),
            _ => Err(String::from_str("jptr: not a container")),
        },
        Edit::Remove => match p {
            Json::Array(v) => match check_index(v, f) {
                Ok(_) => Ok(()),
                Err(m) => Err(m),
            },
            Json::Object(ps) => match search_by_key(ps, f) {
                Ok(k) => {
                    proof {
                        lemma_key_pos(ps@, f@, k as int);
                    }
                    Ok(())
                },
                Err(k) => {
                    proof {
                        lemma_missing_key(ps@, f@, k as int);
                    }
                    Err(String::from_str("jptr: key not found"))
                },
            },
            _ => Err(String::from_str("jptr: not a container")),
        },
        Edit::Append(x) => match p {
            Json::String(_) => if let Json::String(_) = x {
                Ok(())
            } else {
                Err(String::from_str("jptr: only a string can be appended to a string"))
            },
            Json::Array(_) => Ok(()),
            _ => Err(String::from_str("jptr: not a container")),
        },
    }
}

/// Applies an edit at the end of a path of fragments, after checking that
/// the path leads somewhere and the edit applies there; on failure nothing
/// changes.
fn edit_path(j: &mut Json, fs: &Vec<String>, e: Edit, f: &str) -> (r: Result<(), String>)
    requires
        well_formed(*old(j)),
    ensures
        r is Ok == (resolve(*old(j), texts(fs@)) matches Some(p) && edit_ok(p, e, f@)),
        r is Ok ==> changed_at(*old(j), *final(j), texts(fs@), e, f@),
        r is Err ==> *final(j) == *old(j),
        edit_well_formed(e) ==> well_formed(*final(j)),
{
    assert(texts(fs@).skip(0) =~= texts(fs@));
    let checked = match locate(j, fs, 0) {
        Some(p) => check_edit(p, &e, f),
        None => Err(String::from_str("jptr: path does not resolve")),
    };
    match checked {
        Ok(()) => {
            apply_at(j, fs, 0, e, f);
            Ok(())
        },
        Err(m) => Err(m),
    }
}

impl Json {
    /// A copy of the value that `path` points to; the whole document for an
    /// empty path.
    pub fn get(&self, path: &str) -> (r: Result<Json, String>)
        requires
            well_formed(*self),
        ensures
            path@.len() == 0 ==> (r matches Ok(v) && same(*self, v)),
            path@.len() > 0 ==> match pointer_fragments(path@) {
                Some(fs) => match resolve(*self, fs) {
                    Some(p) => r matches Ok(v) && same(p, v),
                    None => r is Err,
                },
                None => r is Err,
            },
    {
        if path.unicode_len() == 0 {
            return Ok(self.deep_copy());
        }
        let fs = match parse_pointer(path) {
            Ok(fs) => fs,
            Err(m) => return Err(m),
        };
        assert(texts(fs@).skip(0) =~= texts(fs@));
        match locate(self, &fs, 0) {
            Some(p) => Ok(p.deep_copy()),
            None => Err(String::from_str("jptr: path does not resolve")),
        }
    }

    /// Replaces the array element or upserts the object member that `path`
    /// points to. An empty path changes nothing.
    pub fn set(&mut self, path: &str, value: Json) -> (r: Result<(), String>)
        requires
            well_formed(*old(self)),
        ensures
            path@.len() == 0 ==> r is Ok && *final(self) == *old(self),
            path@.len() > 0 ==> match pointer_fragments(path@) {
                Some(fs) => (r is Ok == (resolve(*old(self), fs.drop_last()) matches Some(p) && edit_ok(p, Edit::Put(value), fs.last())))
                    && (r is Ok ==> changed_at(*old(self), *final(self), fs.drop_last(), Edit::Put(value), fs.last()))
                    && (r is Err ==> *final(self) == *old(self)),
                None => r is Err && *final(self) == *old(self),
            },
            well_formed(value) ==> well_formed(*final(self)),
    {
        if path.unicode_len() == 0 {
            return Ok(());
        }
        let mut fs = match parse_pointer(path) {
            Ok(fs) => fs,
            Err(m) => return Err(m),
        };
        proof {
            lemma_fragments_nonempty(path@);
        }
        let ghost all = texts(fs@);
        let last = fs.pop().unwrap();
        assert(texts(fs@) =~= all.drop_last());
        edit_path(self, &fs, Edit::Put(value), last.as_str())
    }

    /// Removes the array element or object member that `path` points to. An
    /// empty path changes nothing.
    pub fn delete(&mut self, path: &str) -> (r: Result<(), String>)
        requires
            well_formed(*old(self)),
        ensures
            path@.len() == 0 ==> r is Ok && *final(self) == *old(self),
            path@.len() > 0 ==> match pointer_fragments(path@) {
                Some(fs) => (r is Ok == (resolve(*old(self), fs.drop_last()) matches Some(p) && edit_ok(p, Edit::Remove, fs.last())))
                    && (r is Ok ==> changed_at(*old(self), *final(self), fs.drop_last(), Edit::Remove, fs.last()))
                    && (r is Err ==> *final(self) == *old(self)),
                None => r is Err && *final(self) == *old(self),
            },
            well_formed(*final(self)),
    {
        if path.unicode_len() == 0 {
            return Ok(());
        }
        let mut fs = match parse_pointer(path) {
            Ok(fs) => fs,
            Err(m) => return Err(m),
        };
        proof {
            lemma_fragments_nonempty(path@);
        }
        let ghost all = texts(fs@);
        let last = fs.pop().unwrap();
        assert(texts(fs@) =~= all.drop_last());
        edit_path(self, &fs, Edit::Remove, last.as_str())
    }

    /// Appends `value` to the string or array that `path` points to: text to
    /// a string, any value to an array. The empty path is the whole document.
    pub fn append(&mut self, path: &str, value: Json) -> (r: Result<(), String>)
        requires
            well_formed(*old(self)),
        ensures
            match target_fragments(path@) {
                Some(fs) => (r is Ok == (resolve(*old(self), fs) matches Some(p) && edit_ok(p, Edit::Append(value), seq![])))
                    && (r is Ok ==> changed_at(*old(self), *final(self), fs, Edit::Append(value), seq![]))
                    && (r is Err ==> *final(self) == *old(self)),
                None => r is Err && *final(self) == *old(self),
            },
            well_formed(value) ==> well_formed(*final(self)),
    {
        let fs = if path.unicode_len() == 0 {
            let v: Vec<String> = Vec::new();
            assert(texts(v@) =~= Seq::<Seq<char>>::empty());
            v
        } else {
            match parse_pointer(path) {
                Ok(fs) => fs,
                Err(m) => return Err(m),
            }
        };
        let none = String::new();
        edit_path(self, &fs, Edit::Append(value), none.as_str())
    }
}

proof fn lemma_frags_from_nonempty(p: Seq<char>, i: int, done: Seq<Seq<char>>, cur: Seq<char>)
    ensures
        frags_from(p, i, done, cur) matches Some(fs) ==> fs.len() > 0,
    decreases p.len() - i,
{
    if i < p.len() {
        if p[i] == '/' {
            lemma_frags_from_nonempty(p, i + 1, done.push(cur), seq![]);
        } else if p[i] == '~' {
            if i + 1 < p.len() && (p[i + 1] == '0' || p[i + 1] == '1') {
                lemma_frags_from_nonempty(p, i + 2, done, cur.push(if p[i + 1] == '0' { '~' } else { '/' }));
            }
        } else {
            lemma_frags_from_nonempty(p, i + 1, done, cur.push(p[i]));
        }
    }
}

proof fn lemma_fragments_nonempty(p: Seq<char>)
    ensures
        pointer_fragments(p) matches Some(fs) ==> fs.len() > 0,
{
    lemma_frags_from_nonempty(p, 1, seq![], seq![]);
}

} // verus!
