use vstd::prelude::*;
use serde_json::Value;
use vstd::string::StringExecFns;
use crate::text::{chars_of, push_char, lex_lt, lex_less};

verus! {

/// A JSON number as the log holds it: the text serde_json prints for it and its value when
/// it is a non-negative integer that fits in a `u64`.
pub struct JsonNumber {
    pub text: String,
    pub as_u64: Option<u64>,
}

/// A JSON value. Objects keep their members as a list of key and value, in the order of
/// serde_json's map (by key).
pub enum Json {
    Null,
    Bool(bool),
    Number(JsonNumber),
    Text(String),
    Array(Vec<Json>),
    Object(Vec<(String, Json)>),
}

/// The mathematical model of a JSON value.
pub enum JsonV {
    Null,
    Bool(bool),
    Number(Seq<char>, Option<u64>),
    Text(Seq<char>),
    Array(Seq<JsonV>),
    Object(Seq<(Seq<char>, JsonV)>),
}

impl Json {
    pub open spec fn view_of(self) -> JsonV
        decreases self,
    {
        match self {
            Json::Null => JsonV::Null,
            Json::Bool(b) => JsonV::Bool(b),
            Json::Number(n) => JsonV::Number(n.text@, n.as_u64),
            Json::Text(s) => JsonV::Text(s@),
            Json::Array(a) => JsonV::Array(
                Seq::new(a@.len(), |i: int| if 0 <= i < a@.len() { a@[i].view_of() } else { JsonV::Null }),
            ),
            Json::Object(o) => JsonV::Object(
                Seq::new(
                    o@.len(),
                    |i: int|
                        if 0 <= i < o@.len() {
                            (o@[i].0@, o@[i].1.view_of())
                        } else {
                            (Seq::empty(), JsonV::Null)
                        },
                ),
            ),
        }
    }
}

impl View for Json {
    type V = JsonV;

    open spec fn view(&self) -> JsonV {
        self.view_of()
    }
}

/// `serde_json::Value`, a parsed JSON value; opaque here.
#[verifier::external_type_specification]
#[verifier::external_body]
pub struct ExValue(serde_json::Value);

/// `serde_json::Error`, why a text is not JSON; opaque here.
#[verifier::external_type_specification]
#[verifier::external_body]
pub struct ExJsonError(serde_json::Error);

/// The value that `serde_json::from_str::<serde_json::Value>` reads from `text`, or `None`
/// when it refuses the text.
pub uninterp spec fn parsed_json(text: Seq<char>) -> Option<JsonV>;

/// Turns a `serde_json::Value` into the library's own model of it, member for member (objects
/// in the order serde_json's map holds them, numbers with their printed text and their
/// `u64` value).
#[verifier::external_body]
fn json_from_value(v: Value) -> Json {
    match v {
        Value::Null => Json::Null,
        Value::Bool(b) => Json::Bool(b),
        Value::Number(n) => Json::Number(JsonNumber { text: n.to_string(), as_u64: n.as_u64() }),
        Value::String(s) => Json::Text(s),
        Value::Array(a) => Json::Array(a.into_iter().map(json_from_value).collect()),
        Value::Object(o) => Json::Object(o.into_iter().map(|(k, v)| (k, json_from_value(v))).collect()),
    }
}

/// `serde_json::from_str::<serde_json::Value>`: parses one JSON text. Its result depends on
/// the text alone; it is named `parsed_json`.
#[verifier::external_body]
pub(crate) fn parse_value(text: &str) -> (res: Result<Json, serde_json::Error>)
    ensures
        match res {
            Ok(v) => parsed_json(text@) == Some(v@),
            Err(_) => parsed_json(text@) is None,
        },
{
    match serde_json::from_str::<Value>(text) {
        Ok(v) => Ok(json_from_value(v)),
        Err(e) => Err(e),
    }
}

/// The position of the first member of `o` with key `key`.
pub open spec fn member_index(o: Seq<(Seq<char>, JsonV)>, key: Seq<char>) -> Option<int>
    decreases o.len(),
{
    if o.len() == 0 {
        None
    } else if o[0].0 == key {
        Some(0)
    } else {
        match member_index(o.drop_first(), key) {
            Some(i) => Some(i + 1),
            None => None,
        }
    }
}

/// The value of the first member of `o` with key `key`.
pub open spec fn member(o: Seq<(Seq<char>, JsonV)>, key: Seq<char>) -> Option<JsonV> {
    match member_index(o, key) {
        Some(i) => Some(o[i].1),
        None => None,
    }
}

/// `o` without its members with key `key`.
pub open spec fn without(o: Seq<(Seq<char>, JsonV)>, key: Seq<char>) -> Seq<(Seq<char>, JsonV)>
    decreases o.len(),
{
    if o.len() == 0 {
        o
    } else if o.last().0 == key {
        without(o.drop_last(), key)
    } else {
        without(o.drop_last(), key).push(o.last())
    }
}

/// `o` with the member `(key, v)` put before the first member whose key does not come before
/// `key`: in a list ordered by key, its place in that order.
pub open spec fn placed(o: Seq<(Seq<char>, JsonV)>, key: Seq<char>, v: JsonV) -> Seq<(Seq<char>, JsonV)>
    decreases o.len(),
{
    if o.len() == 0 {
        seq![(key, v)]
    } else if lex_lt(o[0].0, key) {
        seq![o[0]] + placed(o.drop_first(), key, v)
    } else {
        seq![(key, v)] + o
    }
}

/// `o` with `key` set to `v`, as serde_json's map (kept in key order) does it: any member with
/// that key is removed and the new one takes its place in the key order.
pub open spec fn with_member(o: Seq<(Seq<char>, JsonV)>, key: Seq<char>, v: JsonV) -> Seq<(Seq<char>, JsonV)> {
    placed(without(o, key), key, v)
}

/// When the members before position `p` come before `key` and the one at `p` does not,
/// `placed` puts the new member at `p`.
proof fn lemma_placed_at(o: Seq<(Seq<char>, JsonV)>, key: Seq<char>, v: JsonV, p: int)
    requires
        0 <= p <= o.len(),
        forall|t: int| 0 <= t < p ==> lex_lt(#[trigger] o[t].0, key),
        p < o.len() ==> !lex_lt(o[p].0, key),
    ensures
        placed(o, key, v) == o.take(p).push((key, v)) + o.skip(p),
    decreases p,
{
    if p == 0 {
        if o.len() == 0 {
            assert(placed(o, key, v) =~= o.take(p).push((key, v)) + o.skip(p));
        } else {
            assert(placed(o, key, v) =~= o.take(p).push((key, v)) + o.skip(p));
        }
    } else {
        let r = o.drop_first();
        assert(lex_lt(o[0].0, key));
        assert forall|t: int| 0 <= t < p - 1 implies lex_lt(#[trigger] r[t].0, key) by {
            assert(r[t] == o[t + 1]);
        }
        lemma_placed_at(r, key, v, p - 1);
        assert(placed(o, key, v) =~= o.take(p).push((key, v)) + o.skip(p));
    }
}

/// The views of the members of an object.
pub open spec fn members_view(o: Seq<(String, Json)>) -> Seq<(Seq<char>, JsonV)> {
    Seq::new(o.len(), |i: int| (o[i].0@, o[i].1@))
}

pub(crate) proof fn lemma_member_index_bounds(o: Seq<(Seq<char>, JsonV)>, key: Seq<char>)
    ensures
        member_index(o, key) matches Some(i) ==> 0 <= i < o.len() && o[i].0 == key
            && forall|t: int| 0 <= t < i ==> o[t].0 != key,
        member_index(o, key) is None ==> forall|t: int| 0 <= t < o.len() ==> o[t].0 != key,
    decreases o.len(),
{
    if o.len() > 0 {
        lemma_member_index_bounds(o.drop_first(), key);
        if o[0].0 != key {
            assert forall|t: int| 1 <= t < o.len() implies o[t].0 == o.drop_first()[t - 1].0 by {}
        }
    }
}

/// Position of the first member with key `key`.
pub fn find_member(o: &Vec<(String, Json)>, key: &str) -> (res: Option<usize>)
    ensures
        match res {
            Some(i) => member_index(members_view(o@), key@) == Some(i as int),
            None => member_index(members_view(o@), key@) is None,
        },
{
    let ghost mv = members_view(o@);
    proof { lemma_member_index_bounds(mv, key@); }
    let k: String = key.to_string();
    let mut i: usize = 0;
    while i < o.len()
        invariant
            k@ == key@,
            i <= o@.len(),
            mv == members_view(o@),
            forall|t: int| 0 <= t < i ==> mv[t].0 != key@,
            member_index(mv, key@) matches Some(x) ==> 0 <= x < mv.len() && mv[x].0 == key@
                && forall|t: int| 0 <= t < x ==> mv[t].0 != key@,
            member_index(mv, key@) is None ==> forall|t: int| 0 <= t < mv.len() ==> mv[t].0 != key@,
        decreases o@.len() - i,
    {
        if o[i].0 == k {
            assert(mv[i as int].0 == key@);
            return Some(i);
        }
        assert(mv[i as int].0 != key@);
        i += 1;
    }
    None
}

/// Remove every member with key `key`; returns the value of the first one.
pub fn remove_member(o: &mut Vec<(String, Json)>, key: &str) -> (res: Option<Json>)
    ensures
        members_view(final(o)@) == without(members_view(old(o)@), key@),
        match res {
            Some(v) => member(members_view(old(o)@), key@) == Some(v@),
            None => member(members_view(old(o)@), key@) is None,
        },
{
    let ghost mv = members_view(o@);
    let first = find_member(o, key);
    proof { lemma_member_index_bounds(mv, key@); }
    let k: String = key.to_string();
    let mut found: Option<Json> = None;
    let n = o.len();
    let mut p: usize = 0;
    let mut i: usize = 0;
    while p < n
        invariant
            k@ == key@,
            o@.len() <= usize::MAX,
            n == mv.len(),
            p <= n,
            i == without(mv.take(p as int), key@).len(),
            members_view(o@) == without(mv.take(p as int), key@) + mv.skip(p as int),
            match first {
                Some(x) => member_index(mv, key@) == Some(x as int),
                None => member_index(mv, key@) is None,
            },
            first matches Some(x) ==> x < n && mv[x as int].0 == key@ && forall|t: int| 0 <= t < x ==> mv[t].0 != key@,
            match found {
                Some(v) => first matches Some(x) && x < p && v@ == mv[x as int].1,
                None => first matches Some(x) ==> x >= p,
            },
        decreases n - p,
    {
        proof {
            assert(mv.take(p + 1 as int).drop_last() =~= mv.take(p as int));
            assert(members_view(o@).len() == o@.len());
            assert(mv.skip(p as int).len() > 0);
            assert(members_view(o@)[i as int] == mv[p as int]);
        }
        let ghost before = o@;
        if o[i].0 == k {
            let (_rk, rv) = o.remove(i);
            proof {
                assert(mv[p as int].0 == key@);
                assert(members_view(o@) =~= members_view(before).remove(i as int));
                assert(mv.skip(p as int).drop_first() =~= mv.skip(p + 1 as int));
                assert(members_view(o@) =~= without(mv.take(p + 1 as int), key@) + mv.skip(p + 1 as int));
            }
            let is_first = match first {
                Some(x) => x == p,
                None => false,
            };
            if is_first {
                proof {
                    assert(members_view(before)[i as int].1 == before[i as int].1@);
                    assert(rv@ == mv[p as int].1);
                }
                found = Some(rv);
            }
        } else {
            proof {
                assert(members_view(o@) =~= without(mv.take(p + 1 as int), key@) + mv.skip(p + 1 as int));
            }
            i += 1;
        }
        p += 1;
    }
    proof {
        assert(mv.take(n as int) =~= mv);
        assert(members_view(o@) =~= without(mv, key@));
        lemma_member_index_bounds(mv, key@);
    }
    found
}

/// A member key as `val_to_string` prints it: a leading `r#` (of raw identifiers) is dropped.
pub open spec fn key_text(k: Seq<char>) -> Seq<char> {
    if k.len() >= 2 && k[0] == 'r' && k[1] == '#' {
        k.skip(2)
    } else {
        k
    }
}

/// How `val_to_string` prints a value: no quotes; `null`, `true`, `false`, numbers as
/// serde_json prints them; non-empty arrays as `[ a, b ]`; non-empty objects as
/// `{ k=v, k2=v2 }`, or `name={ k=v }` when they have a `name` member (just the name when it
/// is the only member); empty arrays and objects as nothing.
pub open spec fn val_text(v: JsonV) -> Seq<char>
    decreases v, 0nat,
{
    match v {
        JsonV::Null => "null"@,
        JsonV::Bool(b) => if b { "true"@ } else { "false"@ },
        JsonV::Number(t, _) => t,
        JsonV::Text(t) => t,
        JsonV::Array(a) => if a.len() > 0 { "[ "@ + items_text(a, a.len()) + " ]"@ } else { Seq::empty() },
        JsonV::Object(o) => if o.len() > 0 { object_text(o) } else { Seq::empty() },
    }
}

/// The first `n` elements of an array, printed and separated by `, `.
pub open spec fn items_text(a: Seq<JsonV>, n: nat) -> Seq<char>
    decreases a, n,
{
    if n == 0 || n > a.len() {
        Seq::empty()
    } else if n == 1 {
        val_text(a[0])
    } else {
        items_text(a, (n - 1) as nat) + ", "@ + val_text(a[n - 1])
    }
}

/// The printed name of an object, if it has a `name` member.
pub open spec fn name_text(o: Seq<(Seq<char>, JsonV)>) -> Option<Seq<char>>
    decreases o, 0nat,
{
    match member_index(o, "name"@) {
        Some(i) => if 0 <= i < o.len() { Some(val_text(o[i].1)) } else { None },
        None => None,
    }
}

/// Among the first `n` members of an object there is one other than `name` (one that is
/// printed).
pub open spec fn prints_member(o: Seq<(Seq<char>, JsonV)>, n: int) -> bool {
    exists|t: int| 0 <= t < n && t < o.len() && #[trigger] o[t].0 != "name"@
}

/// The first `n` members of an object but `name`, printed as `k=v` and separated by `, `
/// (a separator only comes after a member that was printed).
pub open spec fn members_text(o: Seq<(Seq<char>, JsonV)>, n: nat) -> Seq<char>
    decreases o, n,
{
    if n == 0 || n > o.len() {
        Seq::empty()
    } else {
        let j = n - 1;
        let prev = members_text(o, j as nat);
        if o[j].0 == "name"@ {
            prev
        } else {
            prev + (if prints_member(o, j) { ", "@ } else { Seq::empty() }) + key_text(o[j].0) + "="@ + val_text(o[j].1)
        }
    }
}

/// A non-empty object as `val_to_string` prints it.
pub open spec fn object_text(o: Seq<(Seq<char>, JsonV)>) -> Seq<char>
    decreases o, o.len() + 1,
{
    let name = name_text(o);
    let prefix = match name {
        Some(t) => t,
        None => Seq::empty(),
    };
    if name is None || o.len() > 1 {
        prefix + (if name is Some { "={ "@ } else { "{ "@ }) + members_text(o, o.len()) + " }"@
    } else {
        prefix
    }
}

/// Appends `key_text(k)` to `s`.
fn append_key(k: &str, s: &mut String)
    ensures
        final(s)@ == old(s)@ + key_text(k@),
{
    let cs = chars_of(k);
    let start: usize = if cs.len() >= 2 && cs[0] == 'r' && cs[1] == '#' { 2 } else { 0 };
    let ghost base = s@;
    let mut i: usize = start;
    while i < cs.len()
        invariant
            start <= i <= cs@.len(),
            cs@ == k@,
            s@ == base + cs@.subrange(start as int, i as int),
        decreases cs@.len() - i,
    {
        push_char(s, cs[i]);
        i += 1;
        assert(s@ =~= base + cs@.subrange(start as int, i as int));
    }
    assert(cs@.subrange(start as int, cs@.len() as int) =~= key_text(k@));
}

/// Turns a JSON value into a string without quotes around fields and values, for
/// readability; appends it to `s`.
#[verifier::loop_isolation(false)]
pub fn val_to_string(obj: &Json, s: &mut String)
    ensures
        final(s)@ == old(s)@ + val_text(obj@),
    decreases obj, 0nat,
{
    match obj {
        Json::Null => s.append("null"),
        Json::Bool(b) => if *b { s.append("true") } else { s.append("false") },
        Json::Number(n) => s.append(n.text.as_str()),
        Json::Text(x) => s.append(x.as_str()),
        Json::Array(a) => {
            if a.len() > 0 {
                let ghost av: Seq<JsonV> = match obj@ {
                    JsonV::Array(x) => x,
                    _ => Seq::empty(),
                };
                assert(obj@ == JsonV::Array(av));
                assert(av.len() == a@.len());
                assert(forall|t: int| 0 <= t < a@.len() ==> av[t] == a@[t]@);
                let ghost base = s@;
                s.append("[ ");
                val_to_string(&a[0], s);
                let mut i: usize = 1;
                while i < a.len()
                    invariant
                        1 <= i <= a@.len(),
                        av.len() == a@.len(),
                        forall|t: int| 0 <= t < a@.len() ==> av[t] == a@[t]@,
                        s@ == base + "[ "@ + items_text(av, i as nat),
                    decreases a@.len() - i,
                {
                    s.append(", ");
                    val_to_string(&a[i], s);
                    i += 1;
                    assert(s@ =~= base + "[ "@ + items_text(av, i as nat));
                }
                s.append(" ]");
                assert(s@ =~= base + val_text(obj@));
            } else {
                assert(val_text(obj@) =~= Seq::empty());
                assert(s@ =~= s@ + val_text(obj@));
            }
        },
        Json::Object(o) => {
            if o.len() > 0 {
                assert(obj@ == JsonV::Object(members_view(o@))) by {
                    let ov = match obj@ {
                        JsonV::Object(x) => x,
                        _ => Seq::empty(),
                    };
                    assert(ov =~= members_view(o@));
                }
                write_object(o, s);
            } else {
                assert(val_text(obj@) =~= Seq::empty());
                assert(s@ =~= s@ + val_text(obj@));
            }
        },
    }
}

/// Appends `members_text` of all members of an object to `s`.
#[verifier::loop_isolation(false)]
fn write_members(o: &Vec<(String, Json)>, s: &mut String)
    ensures
        final(s)@ == old(s)@ + members_text(members_view(o@), o@.len() as nat),
    decreases o, 0nat,
{
    let ghost ov = members_view(o@);
    let ghost opened = s@;
    let name_key: String = "name".to_string();
    let mut written = false;
    let mut j: usize = 0;
    while j < o.len()
        invariant
            j <= o@.len(),
            ov == members_view(o@),
            name_key@ == "name"@,
            written == prints_member(ov, j as int),
            s@ == opened + members_text(ov, j as nat),
        decreases o@.len() - j,
    {
        assert(ov[j as int].0 == o@[j as int].0@ && ov[j as int].1 == o@[j as int].1@);
        let is_name = o[j].0 == name_key;
        if !is_name {
            if written {
                s.append(", ");
            }
            append_key(o[j].0.as_str(), s);
            s.append("=");
            val_to_string(&o[j].1, s);
            written = true;
            assert(prints_member(ov, j + 1 as int)) by {
                assert(ov[j as int].0 != "name"@);
            }
        } else {
            assert(prints_member(ov, j + 1 as int) == prints_member(ov, j as int)) by {
                if prints_member(ov, j + 1 as int) {
                    let t = choose|t: int| 0 <= t < j + 1 && t < ov.len() && #[trigger] ov[t].0 != "name"@;
                    assert(t != j);
                }
            }
        }
        j += 1;
        assert(s@ =~= opened + members_text(ov, j as nat));
    }
}

/// Appends `object_text` of a non-empty object to `s`.
fn write_object(o: &Vec<(String, Json)>, s: &mut String)
    requires
        o@.len() > 0,
    ensures
        final(s)@ == old(s)@ + object_text(members_view(o@)),
    decreases o, 1nat,
{
    let ghost ov = members_view(o@);
    let ghost base = s@;
    let name_idx = find_member(o, "name");
    proof { lemma_member_index_bounds(ov, "name"@); }
    match name_idx {
        Some(i) => {
            assert(ov[i as int].1 == o@[i as int].1@);
            val_to_string(&o[i].1, s);
        },
        None => {},
    }
    let ghost prefix = s@;
    assert(prefix == base + match name_text(ov) { Some(t) => t, None => Seq::empty() });
    if name_idx.is_none() || o.len() > 1 {
        if name_idx.is_some() {
            s.append("={ ");
        } else {
            s.append("{ ");
        }
        write_members(o, s);
        s.append(" }");
        assert(s@ =~= base + object_text(ov));
    } else {
        assert(s@ =~= base + object_text(ov));
    }
}

/// Set `key` to `v`: any member with that key is removed, the new member takes its place in
/// the key order.
pub fn insert_member(o: &mut Vec<(String, Json)>, key: String, v: Json)
    ensures
        members_view(final(o)@) == with_member(members_view(old(o)@), key@, v@),
{
    let _ = remove_member(o, key.as_str());
    let ghost before = o@;
    let ghost mv = members_view(o@);
    let kc = chars_of(key.as_str());
    let mut p: usize = 0;
    while p < o.len()
        invariant
            p <= o@.len(),
            o@ == before,
            mv == members_view(o@),
            kc@ == key@,
            forall|t: int| 0 <= t < p ==> lex_lt(#[trigger] mv[t].0, key@),
        ensures
            p <= o@.len(),
            o@ == before,
            forall|t: int| 0 <= t < p ==> lex_lt(#[trigger] mv[t].0, key@),
            p < o@.len() ==> !lex_lt(mv[p as int].0, key@),
        decreases o@.len() - p,
    {
        let pc = chars_of(o[p].0.as_str());
        assert(mv[p as int].0 == o@[p as int].0@);
        if !lex_less(&pc, &kc) {
            break;
        }
        p += 1;
    }
    proof { lemma_placed_at(mv, key@, v@, p as int); }
    o.insert(p, (key, v));
    assert(members_view(o@) =~= mv.take(p as int).push((key@, v@)) + mv.skip(p as int));
}

} // verus!
