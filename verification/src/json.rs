//! JSON values as the site generator handles them (frontmatter, template
//! contexts), and the deep merge of theme defaults with the user's settings.
use vstd::prelude::*;

verus! {

/// A JSON value. Numbers are kept as their text. An object is a list of
/// entries in insertion order; the values built by this crate and by the
/// JSON reader never repeat a key.
#[derive(Debug)]
pub enum Json {
    Null,
    Bool(bool),
    Number(String),
    Str(String),
    Array(Vec<Json>),
    Object(Vec<(String, Json)>),
}

/// The mathematical JSON value: strings as character sequences, an object as
/// its sequence of (key, value) entries.
pub enum JsonV {
    Null,
    Bool(bool),
    Number(Seq<char>),
    Str(Seq<char>),
    Array(Seq<JsonV>),
    Object(Seq<(Seq<char>, JsonV)>),
}

pub open spec fn json_view(j: Json) -> JsonV
    decreases j,
{
    match j {
        Json::Null => JsonV::Null,
        Json::Bool(b) => JsonV::Bool(b),
        Json::Number(n) => JsonV::Number(n@),
        Json::Str(s) => JsonV::Str(s@),
        Json::Array(v) => JsonV::Array(items_view(v@)),
        Json::Object(es) => JsonV::Object(entries_view(es@)),
    }
}

pub open spec fn items_view(s: Seq<Json>) -> Seq<JsonV>
    decreases s,
{
    if s.len() == 0 {
        Seq::empty()
    } else {
        items_view(s.drop_last()).push(json_view(s.last()))
    }
}

pub open spec fn entries_view(es: Seq<(String, Json)>) -> Seq<(Seq<char>, JsonV)>
    decreases es,
{
    if es.len() == 0 {
        Seq::empty()
    } else {
        entries_view(es.drop_last()).push((es.last().0@, json_view(es.last().1)))
    }
}

impl View for Json {
    type V = JsonV;

    open spec fn view(&self) -> JsonV {
        json_view(*self)
    }
}

pub proof fn lemma_items_view(s: Seq<Json>)
    ensures
        items_view(s).len() == s.len(),
        forall|i: int| 0 <= i < s.len() ==> #[trigger] items_view(s)[i] == json_view(s[i]),
    decreases s.len(),
{
    if s.len() > 0 {
        lemma_items_view(s.drop_last());
    }
}

pub proof fn lemma_entries_view(es: Seq<(String, Json)>)
    ensures
        entries_view(es).len() == es.len(),
        forall|i: int|
            0 <= i < es.len() ==> #[trigger] entries_view(es)[i] == (es[i].0@, json_view(es[i].1)),
    decreases es.len(),
{
    if es.len() > 0 {
        lemma_entries_view(es.drop_last());
    }
}

/// Two entry lists with the same length and pointwise the same views have the
/// same view.
pub proof fn lemma_entries_view_ext(a: Seq<(String, Json)>, b: Seq<(String, Json)>)
    requires
        a.len() == b.len(),
        forall|i: int|
            #![trigger a[i]]
            0 <= i < a.len() ==> a[i].0@ == b[i].0@ && json_view(a[i].1) == json_view(b[i].1),
    ensures
        entries_view(a) == entries_view(b),
{
    lemma_entries_view(a);
    lemma_entries_view(b);
    assert(entries_view(a) =~= entries_view(b));
}

pub proof fn lemma_items_view_ext(a: Seq<Json>, b: Seq<Json>)
    requires
        a.len() == b.len(),
        forall|i: int| #![trigger a[i]] 0 <= i < a.len() ==> json_view(a[i]) == json_view(b[i]),
    ensures
        items_view(a) == items_view(b),
{
    lemma_items_view(a);
    lemma_items_view(b);
    assert(items_view(a) =~= items_view(b));
}

/// A copy of a JSON value.
pub fn copy_json(j: &Json) -> (r: Json)
    ensures
        r@ == j@,
    decreases j,
{
    match j {
        Json::Null => Json::Null,
        Json::Bool(b) => Json::Bool(*b),
        Json::Number(n) => Json::Number(n.clone()),
        Json::Str(s) => Json::Str(s.clone()),
        Json::Array(v) => {
            let mut out: Vec<Json> = Vec::new();
            let mut i: usize = 0;
            while i < v.len()
                invariant
                    i <= v.len(),
                    out.len() == i,
                    *j == Json::Array(*v),
                    forall|k: int| #![trigger out@[k]] 0 <= k < i ==> json_view(out@[k]) == json_view(v@[k]),
                decreases v.len() - i,
            {
                proof {
                    assert(decreases_to!(*j => (*j)->Array_0));
                    assert(decreases_to!(*v => v@));
                    assert(decreases_to!(v@ => v@[i as int]));
                    assert(decreases_to!(*j => v@[i as int]));
                }
                let c = copy_json(&v[i]);
                out.push(c);
                i += 1;
            }
            proof {
                lemma_items_view_ext(out@, v@);
            }
            Json::Array(out)
        },
        Json::Object(es) => {
            let mut out: Vec<(String, Json)> = Vec::new();
            let mut i: usize = 0;
            while i < es.len()
                invariant
                    i <= es.len(),
                    out.len() == i,
                    *j == Json::Object(*es),
                    forall|k: int|
                        #![trigger out@[k]]
                        0 <= k < i ==> out@[k].0@ == es@[k].0@ && json_view(out@[k].1) == json_view(
                            es@[k].1,
                        ),
                decreases es.len() - i,
            {
                proof {
                    assert(decreases_to!(*j => (*j)->Object_0));
                    assert(decreases_to!(*es => es@));
                    assert(decreases_to!(es@ => es@[i as int]));
                    assert(decreases_to!(es@[i as int] => es@[i as int].1));
                }
                let key = es[i].0.clone();
                let value = copy_json(&es[i].1);
                out.push((key, value));
                i += 1;
            }
            proof {
                lemma_entries_view_ext(out@, es@);
            }
            Json::Object(out)
        },
    }
}

// ---------------------------------------------------------------------------
// Lookup
// ---------------------------------------------------------------------------

/// The position of the first entry with key `k` at or after `i`, or -1.
pub open spec fn key_pos_from(es: Seq<(Seq<char>, JsonV)>, k: Seq<char>, i: int) -> int
    decreases es.len() - i,
{
    if i < 0 || i >= es.len() {
        -1
    } else if es[i].0 == k {
        i
    } else {
        key_pos_from(es, k, i + 1)
    }
}

/// The position of the first entry with key `k`, or -1.
pub open spec fn key_pos(es: Seq<(Seq<char>, JsonV)>, k: Seq<char>) -> int {
    key_pos_from(es, k, 0)
}

pub proof fn lemma_key_pos_from(es: Seq<(Seq<char>, JsonV)>, k: Seq<char>, i: int)
    requires
        0 <= i,
    ensures
        key_pos_from(es, k, i) == -1 || (i <= key_pos_from(es, k, i) < es.len()
            && es[key_pos_from(es, k, i)].0 == k),
        key_pos_from(es, k, i) == -1 ==> forall|j: int| i <= j < es.len() ==> #[trigger] es[j].0 != k,
        key_pos_from(es, k, i) != -1 ==> forall|j: int|
            i <= j < key_pos_from(es, k, i) ==> #[trigger] es[j].0 != k,
    decreases es.len() - i,
{
    if i < es.len() && es[i].0 != k {
        lemma_key_pos_from(es, k, i + 1);
    }
}

/// The value of the first entry with key `k`.
pub open spec fn entries_get(es: Seq<(Seq<char>, JsonV)>, k: Seq<char>) -> Option<JsonV> {
    let p = key_pos(es, k);
    if p >= 0 {
        Some(es[p].1)
    } else {
        None
    }
}

/// The value an object holds under `k` (its first entry with that key).
pub open spec fn get_spec(j: JsonV, k: Seq<char>) -> Option<JsonV> {
    match j {
        JsonV::Object(es) => entries_get(es, k),
        _ => None,
    }
}

/// The keys of an entry list.
pub open spec fn keys_of(es: Seq<(Seq<char>, JsonV)>) -> Seq<Seq<char>> {
    es.map_values(|e: (Seq<char>, JsonV)| e.0)
}

/// A well-formed JSON value: no object repeats a key, at any depth.
pub open spec fn wf_json(j: JsonV) -> bool
    decreases j,
{
    match j {
        JsonV::Array(items) => wf_items(items),
        JsonV::Object(es) => keys_of(es).no_duplicates() && wf_entries(es),
        _ => true,
    }
}

pub open spec fn wf_items(s: Seq<JsonV>) -> bool
    decreases s,
{
    if s.len() == 0 {
        true
    } else {
        wf_items(s.drop_last()) && wf_json(s.last())
    }
}

pub open spec fn wf_entries(es: Seq<(Seq<char>, JsonV)>) -> bool
    decreases es,
{
    if es.len() == 0 {
        true
    } else {
        wf_entries(es.drop_last()) && wf_json(es.last().1)
    }
}

pub proof fn lemma_wf_entries(es: Seq<(Seq<char>, JsonV)>)
    ensures
        wf_entries(es) <==> forall|i: int| 0 <= i < es.len() ==> wf_json(#[trigger] es[i].1),
    decreases es.len(),
{
    if es.len() > 0 {
        let d = es.drop_last();
        lemma_wf_entries(d);
        if wf_entries(es) {
            assert forall|i: int| 0 <= i < es.len() implies wf_json(#[trigger] es[i].1) by {
                if i < d.len() {
                    assert(d[i] == es[i]);
                }
            }
        }
        if forall|i: int| 0 <= i < es.len() ==> wf_json(#[trigger] es[i].1) {
            assert forall|i: int| 0 <= i < d.len() implies wf_json(#[trigger] d[i].1) by {
                assert(d[i] == es[i]);
            }
        }
    }
}

/// The position of the first entry with key `k`.
fn find_key(es: &Vec<(String, Json)>, k: &String) -> (r: Option<usize>)
    ensures
        r matches Some(p) ==> key_pos(entries_view(es@), k@) == p as int,
        r is None ==> key_pos(entries_view(es@), k@) == -1,
{
    let ghost ev = entries_view(es@);
    proof {
        lemma_entries_view(es@);
    }
    let mut i: usize = 0;
    while i < es.len()
        invariant
            i <= es.len(),
            ev == entries_view(es@),
            ev.len() == es.len(),
            forall|j: int| 0 <= j < es.len() ==> #[trigger] ev[j] == (es@[j].0@, json_view(es@[j].1)),
            key_pos(ev, k@) == key_pos_from(ev, k@, i as int),
        decreases es.len() - i,
    {
        if es[i].0 == *k {
            return Some(i);
        }
        i += 1;
    }
    None
}

/// Whether two strings hold the same characters.
pub fn str_equal(a: &str, b: &str) -> (r: bool)
    ensures
        r == (a@ == b@),
{
    let x = crate::text::str_chars(a);
    let y = crate::text::str_chars(b);
    if x.len() != y.len() {
        return false;
    }
    let mut i: usize = 0;
    while i < x.len()
        invariant
            i <= x.len(),
            x@ == a@,
            y@ == b@,
            x.len() == y.len(),
            forall|m: int| 0 <= m < i ==> x@[m] == y@[m],
        decreases x.len() - i,
    {
        if x[i] != y[i] {
            assert(x@[i as int] != y@[i as int]);
            return false;
        }
        i += 1;
    }
    assert(x@ =~= y@);
    true
}

/// The value of a JSON object under `key`; `None` for a missing key or a
/// value that is not an object.
pub fn json_get<'a>(j: &'a Json, key: &str) -> (r: Option<&'a Json>)
    ensures
        r matches Some(v) ==> get_spec(j@, key@) == Some(v@),
        r is None ==> get_spec(j@, key@) is None,
{
    match j {
        Json::Object(es) => {
            let ghost ev = entries_view(es@);
            proof {
                lemma_entries_view(es@);
            }
            let mut i: usize = 0;
            while i < es.len()
                invariant
                    i <= es.len(),
                    *j == Json::Object(*es),
                    ev == entries_view(es@),
                    ev.len() == es.len(),
                    forall|m: int|
                        0 <= m < es.len() ==> #[trigger] ev[m] == (es@[m].0@, json_view(es@[m].1)),
                    key_pos(ev, key@) == key_pos_from(ev, key@, i as int),
                decreases es.len() - i,
            {
                if str_equal(es[i].0.as_str(), key) {
                    return Some(&es[i].1);
                }
                i += 1;
            }
            None
        },
        _ => None,
    }
}

// ---------------------------------------------------------------------------
// Reading fields
// ---------------------------------------------------------------------------

/// The string under `k`, or the empty string where there is none or the value
/// is not a string.
pub open spec fn str_field_spec(m: JsonV, k: Seq<char>) -> Seq<char> {
    match get_spec(m, k) {
        Some(JsonV::Str(s)) => s,
        _ => Seq::empty(),
    }
}

/// The string under `key` of a JSON object, `""` where there is none.
pub fn str_field(meta: &Json, key: &str) -> (r: String)
    ensures
        r@ == str_field_spec(meta@, key@),
{
    match json_get(meta, key) {
        Some(Json::Str(s)) => s.clone(),
        _ => String::new(),
    }
}

/// The string under `k`, where there is one.
pub open spec fn opt_str_field_spec(m: JsonV, k: Seq<char>) -> Option<Seq<char>> {
    match get_spec(m, k) {
        Some(JsonV::Str(s)) => Some(s),
        _ => None,
    }
}

/// The string under `key` of a JSON object, where there is one.
pub fn opt_str_field(meta: &Json, key: &str) -> (r: Option<String>)
    ensures
        r matches Some(s) ==> opt_str_field_spec(meta@, key@) == Some(s@),
        r is None ==> opt_str_field_spec(meta@, key@) is None,
{
    match json_get(meta, key) {
        Some(Json::Str(s)) => Some(s.clone()),
        _ => None,
    }
}

/// The boolean under `k`, `false` where there is none or the value is not a
/// boolean.
pub open spec fn bool_field_spec(m: JsonV, k: Seq<char>) -> bool {
    match get_spec(m, k) {
        Some(JsonV::Bool(b)) => b,
        _ => false,
    }
}

/// The boolean under `key` of a JSON object, `false` where there is none.
pub fn bool_field(meta: &Json, key: &str) -> (r: bool)
    ensures
        r == bool_field_spec(meta@, key@),
{
    match json_get(meta, key) {
        Some(Json::Bool(b)) => *b,
        _ => false,
    }
}

/// The strings among `items`, in order.
pub open spec fn string_items_spec(items: Seq<JsonV>) -> Seq<Seq<char>>
    decreases items.len(),
{
    if items.len() == 0 {
        Seq::empty()
    } else {
        let r = string_items_spec(items.drop_last());
        match items.last() {
            JsonV::Str(s) => r.push(s),
            _ => r,
        }
    }
}

/// The strings of the array under `k` (its other items skipped), or `None`
/// where the value under `k` is missing or not an array.
pub open spec fn string_list_spec(m: JsonV, k: Seq<char>) -> Option<Seq<Seq<char>>> {
    match get_spec(m, k) {
        Some(JsonV::Array(items)) => Some(string_items_spec(items)),
        _ => None,
    }
}

/// The views of a list of strings.
pub open spec fn strings_view(v: Seq<String>) -> Seq<Seq<char>> {
    v.map_values(|s: String| s@)
}

/// The strings of the array under `key` (see `string_list_spec`).
pub fn string_list(meta: &Json, key: &str) -> (r: Option<Vec<String>>)
    ensures
        r matches Some(v) ==> string_list_spec(meta@, key@) == Some(strings_view(v@)),
        r is None ==> string_list_spec(meta@, key@) is None,
{
    match json_get(meta, key) {
        Some(Json::Array(items)) => {
            let ghost iv = items_view(items@);
            proof {
                lemma_items_view(items@);
            }
            let mut out: Vec<String> = Vec::new();
            let mut i: usize = 0;
            while i < items.len()
                invariant
                    i <= items.len(),
                    iv == items_view(items@),
                    iv.len() == items.len(),
                    forall|m: int| 0 <= m < items.len() ==> #[trigger] iv[m] == json_view(items@[m]),
                    strings_view(out@) == string_items_spec(iv.take(i as int)),
                decreases items.len() - i,
            {
                let ghost before = out@;
                assert(iv.take(i + 1).drop_last() =~= iv.take(i as int));
                assert(iv.take(i + 1).last() == json_view(items@[i as int]));
                match &items[i] {
                    Json::Str(s) => {
                        out.push(s.clone());
                        assert(strings_view(out@) =~= strings_view(before).push(s@));
                    },
                    _ => {},
                }
                i += 1;
            }
            assert(iv.take(items.len() as int) =~= iv);
            Some(out)
        },
        _ => None,
    }
}

/// Whether the value under `key` of a JSON object is an array.
pub fn has_array(meta: &Json, key: &str) -> (r: bool)
    ensures
        r == (string_list_spec(meta@, key@) is Some),
{
    match json_get(meta, key) {
        Some(Json::Array(_)) => true,
        _ => false,
    }
}

// ---------------------------------------------------------------------------
// Deep merge
// ---------------------------------------------------------------------------

/// `overlay` merged into `base`: where both are objects, every key of the
/// overlay is merged into the base's value under that key (or taken as it is
/// where the base has none), and the base's other keys stay; anywhere else
/// the overlay replaces the base.
pub open spec fn merge_spec(base: JsonV, overlay: JsonV) -> JsonV
    decreases overlay,
{
    match (base, overlay) {
        (JsonV::Object(be), JsonV::Object(oe)) => JsonV::Object(merge_entries(be, oe)),
        _ => overlay,
    }
}

/// The entries of `be` with the entries of `oe` merged in, in order.
pub open spec fn merge_entries(
    be: Seq<(Seq<char>, JsonV)>,
    oe: Seq<(Seq<char>, JsonV)>,
) -> Seq<(Seq<char>, JsonV)>
    decreases oe,
{
    if oe.len() == 0 {
        be
    } else {
        merge_entry(merge_entries(be, oe.drop_last()), oe.last())
    }
}

/// The entries of `be` with the entry `e` merged in: merged into the value
/// under its key where there is one, appended otherwise.
pub open spec fn merge_entry(
    be: Seq<(Seq<char>, JsonV)>,
    e: (Seq<char>, JsonV),
) -> Seq<(Seq<char>, JsonV)>
    decreases e,
{
    let p = key_pos(be, e.0);
    if 0 <= p < be.len() {
        be.update(p, (e.0, merge_spec(be[p].1, e.1)))
    } else {
        be.push(e)
    }
}

/// The deep merge of `overlay` into `base`, as a new value.
pub fn merged(base: &Json, overlay: &Json) -> (r: Json)
    ensures
        r@ == merge_spec(base@, overlay@),
    decreases overlay,
{
    match (base, overlay) {
        (Json::Object(be), Json::Object(oe)) => {
            let mut out: Vec<(String, Json)> = Vec::new();
            let mut i: usize = 0;
            while i < be.len()
                invariant
                    i <= be.len(),
                    out.len() == i,
                    forall|k: int|
                        #![trigger out@[k]]
                        0 <= k < i ==> out@[k].0@ == be@[k].0@ && json_view(out@[k].1) == json_view(
                            be@[k].1,
                        ),
                decreases be.len() - i,
            {
                let key = be[i].0.clone();
                let value = copy_json(&be[i].1);
                out.push((key, value));
                i += 1;
            }
            proof {
                lemma_entries_view_ext(out@, be@);
                lemma_entries_view(oe@);
                assert(entries_view(oe@).take(0) =~= Seq::<(Seq<char>, JsonV)>::empty());
            }
            let ghost ov = entries_view(oe@);
            let mut j: usize = 0;
            while j < oe.len()
                invariant
                    j <= oe.len(),
                    *overlay == Json::Object(*oe),
                    ov == entries_view(oe@),
                    ov.len() == oe.len(),
                    forall|m: int|
                        0 <= m < oe.len() ==> #[trigger] ov[m] == (oe@[m].0@, json_view(oe@[m].1)),
                    entries_view(out@) == merge_entries(entries_view(be@), ov.take(j as int)),
                decreases oe.len() - j,
            {
                let ghost before = entries_view(out@);
                assert(ov.take(j + 1).drop_last() =~= ov.take(j as int));
                assert(ov.take(j + 1).last() == ov[j as int]);
                proof {
                    lemma_entries_view(out@);
                }
                match find_key(&out, &oe[j].0) {
                    Some(p) => {
                        proof {
                            lemma_key_pos_from(entries_view(out@), oe@[j as int].0@, 0);
                            assert(decreases_to!(*overlay => (*overlay)->Object_0));
                            assert(decreases_to!(*oe => oe@));
                            assert(decreases_to!(oe@ => oe@[j as int]));
                            assert(decreases_to!(oe@[j as int] => oe@[j as int].1));
                        }
                        let nv = merged(&out[p].1, &oe[j].1);
                        let key = oe[j].0.clone();
                        let ghost prev = out@;
                        out.set(p, (key, nv));
                        proof {
                            lemma_entries_view(out@);
                            lemma_entries_view(prev);
                            assert(entries_view(out@) =~= before.update(
                                p as int,
                                (ov[j as int].0, merge_spec(before[p as int].1, ov[j as int].1)),
                            ));
                            assert(entries_view(out@) == merge_entry(before, ov[j as int]));
                        }
                    },
                    None => {
                        let key = oe[j].0.clone();
                        let value = copy_json(&oe[j].1);
                        let ghost prev = out@;
                        out.push((key, value));
                        proof {
                            lemma_entries_view(out@);
                            lemma_entries_view(prev);
                            assert(entries_view(out@) =~= before.push(ov[j as int]));
                            assert(entries_view(out@) == merge_entry(before, ov[j as int]));
                        }
                    },
                }
                assert(merge_entries(entries_view(be@), ov.take(j + 1)) == merge_entry(
                    merge_entries(entries_view(be@), ov.take(j as int)),
                    ov[j as int],
                ));
                j += 1;
            }
            assert(ov.take(oe.len() as int) =~= ov);
            Json::Object(out)
        },
        _ => copy_json(overlay),
    }
}

/// Deep-merges `overlay` into `base` in place.
pub fn deep_merge(base: &mut Json, overlay: &Json)
    ensures
        final(base)@ == merge_spec(old(base)@, overlay@),
{
    let m = merged(base, overlay);
    *base = m;
}

// ---------------------------------------------------------------------------
// Laws of the deep merge
// ---------------------------------------------------------------------------

proof fn lemma_get_after_update(es: Seq<(Seq<char>, JsonV)>, p: int, v: JsonV, k: Seq<char>)
    requires
        0 <= p < es.len(),
        key_pos(es, es[p].0) == p,
    ensures
        entries_get(es.update(p, (es[p].0, v)), k) == (if k == es[p].0 {
            Some(v)
        } else {
            entries_get(es, k)
        }),
{
    let u = es.update(p, (es[p].0, v));
    lemma_key_pos_from(es, k, 0);
    lemma_key_pos_from(u, k, 0);
    lemma_key_pos_from(es, es[p].0, 0);
    let a = key_pos(es, k);
    let b = key_pos(u, k);
    if k == es[p].0 {
        assert(u[p].0 == k);
        if b != -1 && b < p {
            assert(u[b] == es[b]);
        }
        assert(b == p);
    } else {
        if a != -1 {
            assert(u[a] == es[a]);
            if b != -1 && b < a {
                assert(u[b] == es[b]);
            }
            assert(b == a);
        } else {
            if b != -1 {
                assert(u[b] == es[b]);
            }
            assert(b == -1);
        }
    }
}

proof fn lemma_get_after_push(es: Seq<(Seq<char>, JsonV)>, e: (Seq<char>, JsonV), k: Seq<char>)
    requires
        key_pos(es, e.0) == -1,
    ensures
        entries_get(es.push(e), k) == (if k == e.0 {
            Some(e.1)
        } else {
            entries_get(es, k)
        }),
{
    let u = es.push(e);
    lemma_key_pos_from(es, k, 0);
    lemma_key_pos_from(u, k, 0);
    lemma_key_pos_from(es, e.0, 0);
    let a = key_pos(es, k);
    let b = key_pos(u, k);
    if k == e.0 {
        if b != -1 && b < es.len() {
            assert(u[b] == es[b]);
        }
        assert(u[es.len() as int].0 == k);
        assert(b == es.len());
    } else {
        if a != -1 {
            assert(u[a] == es[a]);
            if b != -1 && b < a {
                assert(u[b] == es[b]);
            }
            assert(b == a);
        } else {
            if b != -1 && b < es.len() {
                assert(u[b] == es[b]);
            }
            assert(b == -1);
        }
    }
}

/// Lookup in an entry list whose keys do not repeat, in terms of its prefix.
proof fn lemma_get_unique_last(es: Seq<(Seq<char>, JsonV)>, k: Seq<char>)
    requires
        es.len() > 0,
        keys_of(es).no_duplicates(),
    ensures
        entries_get(es, k) == (if k == es.last().0 {
            Some(es.last().1)
        } else {
            entries_get(es.drop_last(), k)
        }),
        k == es.last().0 ==> key_pos(es.drop_last(), k) == -1,
{
    let d = es.drop_last();
    let n = es.len() - 1;
    lemma_key_pos_from(es, k, 0);
    lemma_key_pos_from(d, k, 0);
    let a = key_pos(es, k);
    let b = key_pos(d, k);
    if b != -1 {
        assert(d[b] == es[b]);
        if a != -1 && a < b {
            assert(d[a] == es[a]);
        }
        assert(a == b);
        if k == es.last().0 {
            assert(keys_of(es)[b] == keys_of(es)[n]);
        }
    } else {
        if a != -1 && a < n {
            assert(d[a] == es[a]);
        }
    }
}

proof fn lemma_merge_entries_get(
    be: Seq<(Seq<char>, JsonV)>,
    oe: Seq<(Seq<char>, JsonV)>,
    k: Seq<char>,
)
    requires
        keys_of(oe).no_duplicates(),
    ensures
        entries_get(merge_entries(be, oe), k) == (match entries_get(oe, k) {
            Some(ov) => Some(
                merge_spec(
                    match entries_get(be, k) {
                        Some(bv) => bv,
                        None => JsonV::Null,
                    },
                    ov,
                ),
            ),
            None => entries_get(be, k),
        }),
    decreases oe.len(),
{
    if oe.len() == 0 {
        lemma_key_pos_from(oe, k, 0);
    } else {
        let d = oe.drop_last();
        let e = oe.last();
        assert(keys_of(d) =~= keys_of(oe).drop_last());
        lemma_merge_entries_get(be, d, k);
        lemma_merge_entries_get(be, d, e.0);
        lemma_get_unique_last(oe, k);
        lemma_get_unique_last(oe, e.0);
        let m = merge_entries(be, d);
        lemma_key_pos_from(m, e.0, 0);
        lemma_key_pos_from(d, e.0, 0);
        let p = key_pos(m, e.0);
        assert(merge_entries(be, oe) == merge_entry(m, e));
        assert(entries_get(d, e.0) is None);
        if 0 <= p < m.len() {
            lemma_get_after_update(m, p, merge_spec(m[p].1, e.1), k);
            assert(merge_entry(m, e) == m.update(p, (m[p].0, merge_spec(m[p].1, e.1))));
            if k == e.0 {
                assert(entries_get(m, k) == Some(m[p].1));
            }
        } else {
            lemma_get_after_push(m, e, k);
            assert(merge_entry(m, e) == m.push(e));
            assert(merge_spec(JsonV::Null, e.1) == e.1);
        }
    }
}

/// Deep merge, read back: in the merge of two objects, a key of the overlay
/// holds the overlay's value merged into the base's value under that key (or
/// into `null` where the base has none), and any other key holds what the
/// base holds (nothing, where the base has none). The overlay must not repeat
/// a key at its top level (nested objects may); parsed JSON never does.
pub proof fn lemma_merge_get(base: JsonV, overlay: JsonV, k: Seq<char>)
    requires
        base is Object,
        overlay is Object,
        keys_of(overlay->Object_0).no_duplicates(),
    ensures
        merge_spec(base, overlay) is Object,
        get_spec(merge_spec(base, overlay), k) == (match get_spec(overlay, k) {
            Some(ov) => Some(
                merge_spec(
                    match get_spec(base, k) {
                        Some(bv) => bv,
                        None => JsonV::Null,
                    },
                    ov,
                ),
            ),
            None => get_spec(base, k),
        }),
{
    lemma_merge_entries_get(base->Object_0, overlay->Object_0, k);
}

/// Where the base or the overlay is not an object, the overlay replaces the
/// base.
pub proof fn lemma_merge_replaces(base: JsonV, overlay: JsonV)
    requires
        !(base is Object && overlay is Object),
    ensures
        merge_spec(base, overlay) == overlay,
{
}

/// Merging into `null`, or into anything that is not an object, gives the
/// overlay itself.
pub proof fn lemma_merge_into_null(overlay: JsonV)
    ensures
        merge_spec(JsonV::Null, overlay) == overlay,
{
}

/// Deep merge keeps JSON well formed: merging well-formed values gives a
/// well-formed value (no object with a repeated key).
pub proof fn lemma_merge_wf(base: JsonV, overlay: JsonV)
    requires
        wf_json(base),
        wf_json(overlay),
    ensures
        wf_json(merge_spec(base, overlay)),
    decreases overlay,
{
    match (base, overlay) {
        (JsonV::Object(be), JsonV::Object(oe)) => {
            lemma_merge_entries_wf(be, oe);
        },
        _ => {},
    }
}

proof fn lemma_merge_entries_wf(be: Seq<(Seq<char>, JsonV)>, oe: Seq<(Seq<char>, JsonV)>)
    requires
        keys_of(be).no_duplicates(),
        wf_entries(be),
        wf_entries(oe),
    ensures
        keys_of(merge_entries(be, oe)).no_duplicates(),
        wf_entries(merge_entries(be, oe)),
    decreases oe,
{
    if oe.len() > 0 {
        let d = oe.drop_last();
        let e = oe.last();
        lemma_wf_entries(oe);
        lemma_wf_entries(d);
        assert forall|i: int| 0 <= i < d.len() implies wf_json(#[trigger] d[i].1) by {
            assert(d[i] == oe[i]);
        }
        lemma_merge_entries_wf(be, d);
        let m = merge_entries(be, d);
        lemma_wf_entries(m);
        lemma_key_pos_from(m, e.0, 0);
        let p = key_pos(m, e.0);
        let r = merge_entry(m, e);
        assert(wf_json(e.1));
        if 0 <= p < m.len() {
            lemma_merge_wf(m[p].1, e.1);
            assert(keys_of(r) =~= keys_of(m));
        } else {
            assert(keys_of(r) =~= keys_of(m).push(e.0));
            assert forall|i: int| 0 <= i < keys_of(m).len() implies #[trigger] keys_of(m)[i] != e.0 by {
                assert(m[i].0 != e.0);
            }
        }
        lemma_wf_entries(r);
        assert forall|i: int| 0 <= i < r.len() implies wf_json(#[trigger] r[i].1) by {
            if i != p {
                if i < m.len() {
                    assert(r[i] == m[i]);
                }
            }
        }
    }
}

} // verus!
