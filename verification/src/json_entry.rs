use vstd::prelude::*;
use crate::filter::Filter;
use crate::plain_entry::ascii_lower;
use crate::html::{Element, ElementV, leaf, texts_view, attributes_view};
use crate::json::{Json, JsonV, member, member_index, members_view, without, with_member, val_text, remove_member, find_member, insert_member, lemma_member_index_bounds, val_to_string, parse_value, parsed_json};
use crate::text::{decimal, write_decimal, trimmed, trim, lex_lt, lex_less, chars_of, lemma_lex_total, lemma_lex_transitive, lemma_lex_irreflexive};
use vstd::string::StringExecFns;

verus! {

/// The level of a JSON log record.
#[derive(Debug, Copy, Clone, PartialEq, Eq, Structural)]
pub enum LogLevel {
    Trace,
    Debug,
    Info,
    Warn,
    Error,
    Unknown,
}

/// Whether the level switches of `filter` let a record of level `lvl` through. Records of
/// unknown level always pass.
pub open spec fn level_passes(lvl: LogLevel, filter: &Filter) -> bool {
    match lvl {
        LogLevel::Trace => filter.trace,
        LogLevel::Debug => filter.debug,
        LogLevel::Info => filter.info,
        LogLevel::Warn => filter.warn,
        LogLevel::Error => filter.error,
        LogLevel::Unknown => true,
    }
}

/// Set each member of `fields` in `o`, in order.
pub open spec fn insert_all(o: Seq<(Seq<char>, JsonV)>, fields: Seq<(Seq<char>, JsonV)>) -> Seq<(Seq<char>, JsonV)>
    decreases fields.len(),
{
    if fields.len() == 0 {
        o
    } else {
        let f = fields.last();
        with_member(insert_all(o, fields.drop_last()), f.0, f.1)
    }
}

/// The members of an object `fields` member moved to the top level (they win over members of
/// the same name); the `fields` member itself is removed.
pub open spec fn flattened(o: Seq<(Seq<char>, JsonV)>) -> Seq<(Seq<char>, JsonV)> {
    let rest = without(o, "fields"@);
    match member(o, "fields"@) {
        Some(JsonV::Object(f)) => insert_all(rest, f),
        _ => rest,
    }
}

/// A `log.line` member, if it is a number, is a non-negative integer that fits in a `u64`.
pub open spec fn line_number_ok(o: Seq<(Seq<char>, JsonV)>) -> bool {
    match member(o, "log.line"@) {
        Some(JsonV::Number(_, line)) => line is Some,
        _ => true,
    }
}

/// `log.line` removed; when it was a number and `log.file` is a string, `:<line>` appended to
/// the file.
pub open spec fn line_attached(o: Seq<(Seq<char>, JsonV)>) -> Seq<(Seq<char>, JsonV)> {
    let rest = without(o, "log.line"@);
    match member(o, "log.line"@) {
        Some(JsonV::Number(_, Some(line))) => match member_index(rest, "log.file"@) {
            Some(i) => match rest[i].1 {
                JsonV::Text(file) => rest.update(i, (rest[i].0, JsonV::Text(file + ":"@ + decimal(line as nat)))),
                _ => rest,
            },
            None => rest,
        },
        _ => rest,
    }
}

/// The level that the `level` member names, `Unknown` when there is none or another one.
pub open spec fn level_of(o: Seq<(Seq<char>, JsonV)>) -> LogLevel {
    match member(o, "level"@) {
        Some(JsonV::Text(t)) => if t == "TRACE"@ {
            LogLevel::Trace
        } else if t == "DEBUG"@ {
            LogLevel::Debug
        } else if t == "INFO"@ {
            LogLevel::Info
        } else if t == "WARN"@ {
            LogLevel::Warn
        } else if t == "ERROR"@ {
            LogLevel::Error
        } else {
            LogLevel::Unknown
        },
        _ => LogLevel::Unknown,
    }
}

/// `log.target`, `log.module_path` (duplicates of `target`) and `level` (shown as a colour)
/// removed.
pub open spec fn stripped(o: Seq<(Seq<char>, JsonV)>) -> Seq<(Seq<char>, JsonV)> {
    without(without(without(o, "log.target"@), "log.module_path"@), "level"@)
}

/// The printed spans, separated by ` ⊶ `, for the first `n` of them.
pub open spec fn spans_text(a: Seq<JsonV>, n: nat) -> Seq<char>
    decreases n,
{
    if n == 0 || n > a.len() {
        Seq::empty()
    } else {
        spans_text(a, (n - 1) as nat) + val_text(a[n - 1]) + (if n < a.len() { " ⊶ "@ } else { Seq::empty() })
    }
}

/// The text of a member that must be a string.
pub open spec fn text_member(o: Seq<(Seq<char>, JsonV)>, key: Seq<char>) -> Option<Seq<char>> {
    match member(o, key) {
        Some(JsonV::Text(t)) => Some(t),
        _ => None,
    }
}

/// A JSON value is a log record this viewer understands: an object whose `log.line` (once
/// `fields` is flattened) is a `u64` when it is a number, with a string `message` and a
/// string `target`.
pub open spec fn is_log_record(v: JsonV) -> bool {
    match v {
        JsonV::Object(o) => {
            let o1 = flattened(o);
            let o3 = stripped(line_attached(o1));
            &&& line_number_ok(o1)
            &&& text_member(o3, "message"@) is Some
            &&& text_member(without(o3, "message"@), "target"@) is Some
        },
        _ => false,
    }
}

/// Why a line could not be read as JSON: the parser's error.
#[derive(Debug)]
pub struct JsonError {
    pub source: serde_json::Error,
}

/// The view of an object is the list of the views of its members.
proof fn lemma_object_view(o: Vec<(String, Json)>)
    ensures
        Json::Object(o)@ == JsonV::Object(members_view(o@)),
{
    let ov = match Json::Object(o)@ {
        JsonV::Object(x) => x,
        _ => Seq::empty(),
    };
    assert(ov =~= members_view(o@));
}

/// Move the members of `fields` to the top level.
fn flatten_fields(o: &mut Vec<(String, Json)>)
    ensures
        members_view(final(o)@) == flattened(members_view(old(o)@)),
{
    let ghost ov = members_view(o@);
    let fields = remove_member(o, "fields");
    match fields {
        Some(Json::Object(f)) => {
            proof { lemma_object_view(f); }
            let ghost fv = members_view(f@);
            let ghost rest = members_view(o@);
            let mut f = f;
            let n = f.len();
            let mut p: usize = 0;
            while p < n
                invariant
                    n == fv.len(),
                    p <= n,
                    members_view(f@) == fv.skip(p as int),
                    members_view(o@) == insert_all(rest, fv.take(p as int)),
                decreases n - p,
            {
                let ghost before_f = f@;
                assert(members_view(f@).len() == f@.len());
                let (k, v) = f.remove(0);
                proof {
                    assert(members_view(before_f)[0] == fv[p as int]);
                    assert(members_view(f@) =~= members_view(before_f).drop_first());
                    assert(fv.skip(p as int).drop_first() =~= fv.skip(p + 1 as int));
                    assert(fv.take(p + 1 as int).drop_last() =~= fv.take(p as int));
                }
                insert_member(o, k, v);
                p += 1;
            }
            assert(fv.take(n as int) =~= fv);
        },
        _ => {},
    }
}

/// Append the `log.line` number to `log.file`.
fn attach_line(o: &mut Vec<(String, Json)>)
    requires
        line_number_ok(members_view(old(o)@)),
    ensures
        members_view(final(o)@) == line_attached(members_view(old(o)@)),
{
    let ghost ov = members_view(o@);
    let line = remove_member(o, "log.line");
    let ghost rest = members_view(o@);
    match line {
        Some(Json::Number(n)) => {
            let l = n.as_u64.unwrap();
            match find_member(o, "log.file") {
                Some(i) => {
                    proof { lemma_member_index_bounds(rest, "log.file"@); }
                    assert(rest[i as int] == (o@[i as int].0@, o@[i as int].1@));
                    let new_file = match &o[i].1 {
                        Json::Text(file) => {
                            let mut nf = file.clone();
                            nf.append(":");
                            write_decimal(l, &mut nf);
                            Some(nf)
                        },
                        _ => None,
                    };
                    match new_file {
                        Some(nf) => {
                            let k = o[i].0.clone();
                            let ghost before = o@;
                            o.set(i, (k, Json::Text(nf)));
                            assert(members_view(o@) =~= rest.update(i as int, (rest[i as int].0, JsonV::Text(nf@))));
                        },
                        None => {},
                    }
                },
                None => {},
            }
        },
        _ => {},
    }
}

/// The level the `level` member names.
fn level_from(o: &Vec<(String, Json)>) -> (res: LogLevel)
    ensures
        res == level_of(members_view(o@)),
{
    let ghost ov = members_view(o@);
    match find_member(o, "level") {
        Some(i) => {
            proof { lemma_member_index_bounds(ov, "level"@); }
            assert(ov[i as int] == (o@[i as int].0@, o@[i as int].1@));
            match &o[i].1 {
                Json::Text(t) => {
                    if *t == "TRACE".to_string() {
                        LogLevel::Trace
                    } else if *t == "DEBUG".to_string() {
                        LogLevel::Debug
                    } else if *t == "INFO".to_string() {
                        LogLevel::Info
                    } else if *t == "WARN".to_string() {
                        LogLevel::Warn
                    } else if *t == "ERROR".to_string() {
                        LogLevel::Error
                    } else {
                        LogLevel::Unknown
                    }
                },
                _ => LogLevel::Unknown,
            }
        },
        None => LogLevel::Unknown,
    }
}

/// The spans of a record, printed.
fn spans_string(a: &Vec<Json>) -> (res: String)
    ensures
        res@ == spans_text(Seq::new(a@.len(), |i: int| a@[i]@), a@.len() as nat),
{
    let ghost av = Seq::new(a@.len(), |i: int| a@[i]@);
    let mut s = String::new();
    let len = a.len();
    let mut i: usize = 0;
    while i < len
        invariant
            len == a@.len(),
            av == Seq::new(a@.len(), |i: int| a@[i]@),
            i <= len,
            s@ == spans_text(av, i as nat),
        decreases len - i,
    {
        val_to_string(&a[i], &mut s);
        if i < len - 1 {
            s.append(" ⊶ ");
        }
        i += 1;
        assert(s@ =~= spans_text(av, i as nat));
    }
    s
}

/// Each string comes before the next: sorted, no string twice.
pub open spec fn sorted_strict(ks: Seq<Seq<char>>) -> bool {
    forall|i: int, j: int| 0 <= i < j < ks.len() ==> lex_lt(#[trigger] ks[i], #[trigger] ks[j])
}

/// A set of strings has only one sorted list without repetitions: the keys a record shows are
/// determined by the set of its keys.
pub proof fn lemma_sorted_strict_unique(a: Seq<Seq<char>>, b: Seq<Seq<char>>)
    requires
        sorted_strict(a),
        sorted_strict(b),
        a.to_set() == b.to_set(),
    ensures
        a == b,
    decreases a.len(),
{
    if a.len() == 0 {
        if b.len() > 0 {
            assert(b.to_set().contains(b[0]));
        }
        assert(a =~= b);
    } else if b.len() == 0 {
        assert(a.to_set().contains(a[0]));
    } else {
        assert(b.to_set().contains(a[0]));
        assert(a.to_set().contains(b[0]));
        let j = choose|j: int| 0 <= j < b.len() && b[j] == a[0];
        let i = choose|i: int| 0 <= i < a.len() && a[i] == b[0];
        if j > 0 && i > 0 {
            assert(lex_lt(b[0], b[j]));
            assert(lex_lt(a[0], a[i]));
            lemma_lex_total(a[0], b[0]);
        }
        if j == 0 {
        } else {
            assert(i == 0);
        }
        assert(a[0] == b[0]);
        let ta = a.drop_first();
        let tb = b.drop_first();
        assert forall|e: Seq<char>| ta.contains(e) implies tb.contains(e) by {
            let x = choose|x: int| 0 <= x < ta.len() && ta[x] == e;
            assert(a[x + 1] == e);
            assert(lex_lt(a[0], a[x + 1]));
            assert(b.to_set().contains(e));
            let y = choose|y: int| 0 <= y < b.len() && b[y] == e;
            if y == 0 {
                lemma_lex_irreflexive(e);
            }
            assert(tb[y - 1] == e);
        }
        assert forall|e: Seq<char>| tb.contains(e) implies ta.contains(e) by {
            let x = choose|x: int| 0 <= x < tb.len() && tb[x] == e;
            assert(b[x + 1] == e);
            assert(lex_lt(b[0], b[x + 1]));
            assert(a.to_set().contains(e));
            let y = choose|y: int| 0 <= y < a.len() && a[y] == e;
            if y == 0 {
                lemma_lex_irreflexive(e);
            }
            assert(ta[y - 1] == e);
        }
        assert(ta.to_set() =~= tb.to_set());
        assert(sorted_strict(ta)) by {
            assert forall|x: int, y: int| 0 <= x < y < ta.len() implies lex_lt(#[trigger] ta[x], #[trigger] ta[y]) by {
                assert(lex_lt(a[x + 1], a[y + 1]));
            }
        }
        assert(sorted_strict(tb)) by {
            assert forall|x: int, y: int| 0 <= x < y < tb.len() implies lex_lt(#[trigger] tb[x], #[trigger] tb[y]) by {
                assert(lex_lt(b[x + 1], b[y + 1]));
            }
        }
        lemma_sorted_strict_unique(ta, tb);
        assert(a =~= b) by {
            assert forall|x: int| 0 <= x < a.len() implies a[x] == b[x] by {
                if x > 0 {
                    assert(a[x] == ta[x - 1] && b[x] == tb[x - 1]);
                }
            }
        }
    }
}

/// The keys of the members of `o`, without surrounding white space.
pub open spec fn trimmed_keys(o: Seq<(Seq<char>, JsonV)>) -> Set<Seq<char>> {
    Set::new(|t: Seq<char>| exists|i: int| 0 <= i < o.len() && t == trimmed(#[trigger] o[i].0))
}

/// The keys of the members of `o`, without surrounding white space, sorted, each once.
pub open spec fn sorted_keys(o: Seq<(Seq<char>, JsonV)>) -> Seq<Seq<char>> {
    choose|ks: Seq<Seq<char>>| sorted_strict(ks) && ks.to_set() == trimmed_keys(o)
}

/// A sorted list of the trimmed keys of `o`, each once, is `sorted_keys(o)`.
proof fn lemma_is_sorted_keys(o: Seq<(Seq<char>, JsonV)>, ks: Seq<Seq<char>>)
    requires
        sorted_strict(ks),
        ks.to_set() == trimmed_keys(o),
    ensures
        ks == sorted_keys(o),
{
    assert(exists|x: Seq<Seq<char>>| sorted_strict(x) && x.to_set() == trimmed_keys(o)) by {
        assert(sorted_strict(ks) && ks.to_set() == trimmed_keys(o));
    }
    lemma_sorted_strict_unique(ks, sorted_keys(o));
}

/// Put `x` into the sorted list `out`, unless it is there already.
fn insert_sorted(out: &mut Vec<String>, x: String)
    requires
        sorted_strict(texts_view(old(out)@)),
    ensures
        sorted_strict(texts_view(final(out)@)),
        texts_view(final(out)@).to_set() == texts_view(old(out)@).to_set().insert(x@),
{
    let ghost sv = texts_view(out@);
    let xc = chars_of(x.as_str());
    let mut p: usize = 0;
    while p < out.len()
        invariant
            p <= out@.len(),
            sv == texts_view(out@),
            xc@ == x@,
            forall|t: int| 0 <= t < p ==> lex_lt(#[trigger] sv[t], x@),
        ensures
            p <= out@.len(),
            forall|t: int| 0 <= t < p ==> lex_lt(#[trigger] sv[t], x@),
            p < out@.len() ==> !lex_lt(sv[p as int], x@),
        decreases out@.len() - p,
    {
        let pc = chars_of(out[p].as_str());
        if !lex_less(&pc, &xc) {
            break;
        }
        p += 1;
    }
    if p < out.len() {
        let pc = chars_of(out[p].as_str());
        let same = !lex_less(&xc, &pc);
        if same {
            proof {
                lemma_lex_total(sv[p as int], x@);
                assert(sv.contains(x@));
                assert(sv.to_set().insert(x@) =~= sv.to_set());
            }
            return;
        }
    }
    out.insert(p, x);
    proof {
        let nv = texts_view(out@);
        assert(nv =~= sv.insert(p as int, x@));
        if p < sv.len() {
            lemma_lex_total(sv[p as int], x@);
            assert(lex_lt(x@, sv[p as int]));
        }
        assert forall|t: int| p <= t < sv.len() implies lex_lt(x@, #[trigger] sv[t]) by {
            if t > p {
                lemma_lex_transitive(x@, sv[p as int], sv[t]);
            }
        }
        assert forall|i: int, j: int| 0 <= i < j < nv.len() implies lex_lt(#[trigger] nv[i], #[trigger] nv[j]) by {
            if j < p {
            } else if j == p {
            } else if i < p {
                assert(lex_lt(x@, sv[j - 1]));
                lemma_lex_transitive(sv[i], x@, sv[j - 1]);
            } else if i == p {
                assert(lex_lt(x@, sv[j - 1]));
            } else {
                assert(lex_lt(sv[i - 1], sv[j - 1]));
            }
        }
        assert forall|e: Seq<char>| nv.contains(e) <==> (sv.contains(e) || e == x@) by {
            if nv.contains(e) {
                let i = choose|i: int| 0 <= i < nv.len() && nv[i] == e;
                if i < p {
                    assert(sv[i] == e);
                } else if i > p {
                    assert(sv[i - 1] == e);
                }
            }
            if sv.contains(e) {
                let i = choose|i: int| 0 <= i < sv.len() && sv[i] == e;
                if i < p {
                    assert(nv[i] == e);
                } else {
                    assert(nv[i + 1] == e);
                }
            }
            if e == x@ {
                assert(nv[p as int] == e);
            }
        }
        assert(nv.to_set() =~= sv.to_set().insert(x@));
    }
}

/// The members of an object (none for other values).
pub open spec fn object_members(v: JsonV) -> Seq<(Seq<char>, JsonV)> {
    match v {
        JsonV::Object(o) => o,
        _ => Seq::empty(),
    }
}

/// The CSS class that shows a level.
pub open spec fn level_class(lvl: LogLevel) -> Seq<char> {
    match lvl {
        LogLevel::Trace => "trace"@,
        LogLevel::Debug => "debug"@,
        LogLevel::Info => "info"@,
        LogLevel::Warn => "warn"@,
        LogLevel::Error => "error"@,
        LogLevel::Unknown => "unknown_loglvl"@,
    }
}

/// The CSS class of a level, as a string.
fn level_class_str(lvl: LogLevel) -> (res: &'static str)
    ensures
        res@ == level_class(lvl),
{
    match lvl {
        LogLevel::Trace => "trace",
        LogLevel::Debug => "debug",
        LogLevel::Info => "info",
        LogLevel::Warn => "warn",
        LogLevel::Error => "error",
        LogLevel::Unknown => "unknown_loglvl",
    }
}

/// A row of the field table: key, `: `, value.
pub open spec fn field_row(key: Seq<char>, value: Seq<char>) -> ElementV {
    ElementV {
        tag: "tr"@,
        classes: Seq::empty(),
        attributes: Seq::empty(),
        text: None,
        children: seq![
            leaf("td"@, seq!["field-key"@], Some(key)),
            leaf("td"@, seq!["field-separator"@], Some(": "@)),
            leaf("td"@, seq!["field-value"@], Some(value)),
        ],
    }
}

/// The value of member `k` of `o`, printed.
pub open spec fn member_text(o: Seq<(Seq<char>, JsonV)>, k: Seq<char>) -> Seq<char> {
    match member(o, k) {
        Some(v) => val_text(v),
        None => Seq::empty(),
    }
}

/// The rows of the field table for the keys `ks`: one per key but `span` and `spans`.
pub open spec fn field_rows(o: Seq<(Seq<char>, JsonV)>, ks: Seq<Seq<char>>) -> Seq<ElementV>
    decreases ks.len(),
{
    if ks.len() == 0 {
        Seq::empty()
    } else {
        let prev = field_rows(o, ks.drop_last());
        let k = ks.last();
        if k == "span"@ || k == "spans"@ {
            prev
        } else {
            prev.push(field_row(k, member_text(o, k)))
        }
    }
}

/// The `data-time` attribute, holding the printed `timestamp`, when there is one.
pub open spec fn time_attributes(o: Seq<(Seq<char>, JsonV)>, ks: Seq<Seq<char>>) -> Seq<(Seq<char>, Seq<char>)> {
    if ks.contains("timestamp"@) {
        seq![("data-time"@, member_text(o, "timestamp"@))]
    } else {
        Seq::empty()
    }
}

/// The column group of the field table.
pub open spec fn field_columns() -> ElementV {
    ElementV {
        tag: "colgroup"@,
        classes: Seq::empty(),
        attributes: Seq::empty(),
        text: None,
        children: seq![
            leaf("col"@, seq!["field-keys"@], None),
            leaf("col"@, seq!["field-separators"@], None),
            leaf("col"@, seq!["field-values"@], None),
        ],
    }
}

/// One line of a JSON log (as written by tracing's JSON formatter).
pub struct JsonEntry {
    pub text: String,
    pub value: Json,
    pub value_txt: Option<String>,
    pub lvl: LogLevel,
    pub msg: String,
    pub span: String,
    pub target: String,
}

impl JsonEntry {
    /// This entry is what `new` makes of the line `text` whose JSON value is `v`.
    pub open spec fn made_from(&self, text: Seq<char>, v: JsonV) -> bool {
        match v {
            JsonV::Object(o) => {
                let o2 = line_attached(flattened(o));
                let o3 = stripped(o2);
                let o4 = without(o3, "message"@);
                let o5 = without(o4, "target"@);
                &&& self.text@ == text
                &&& self.value_txt is None
                &&& self.lvl == level_of(o2)
                &&& Some(self.msg@) == match text_member(o3, "message"@) {
                    Some(m) => Some(" ~ "@ + m),
                    None => None,
                }
                &&& Some(self.target@) == text_member(o4, "target"@)
                &&& self.span@ == match member(o5, "spans"@) {
                    Some(JsonV::Array(a)) => spans_text(a, a.len()),
                    _ => Seq::empty(),
                }
                &&& self.value@ == JsonV::Object(without(o5, "spans"@))
            },
            _ => false,
        }
    }

    /// Read a log record out of the JSON value of the line `text`; `None` when the value is
    /// not a record this viewer understands.
    pub fn from_value(text: String, value: Json) -> (res: Option<Self>)
        ensures
            res is Some <==> is_log_record(value@),
            res matches Some(e) ==> e.made_from(text@, value@),
    {
        match value {
            Json::Object(o) => {
                proof { lemma_object_view(o); }
                let ghost ov = members_view(o@);
                let mut map = o;
                flatten_fields(&mut map);
                let ghost o1 = members_view(map@);
                let ok = match find_member(&map, "log.line") {
                    Some(i) => {
                        proof { lemma_member_index_bounds(o1, "log.line"@); }
                        assert(o1[i as int] == (map@[i as int].0@, map@[i as int].1@));
                        match &map[i].1 {
                            Json::Number(n) => n.as_u64.is_some(),
                            _ => true,
                        }
                    },
                    None => true,
                };
                if !ok {
                    return None;
                }
                attach_line(&mut map);
                let ghost o2 = members_view(map@);
                let lvl = level_from(&map);
                let _ = remove_member(&mut map, "log.target");
                let _ = remove_member(&mut map, "log.module_path");
                let _ = remove_member(&mut map, "level");
                let ghost o3 = members_view(map@);
                let msg = match remove_member(&mut map, "message") {
                    Some(Json::Text(m)) => " ~ ".to_string().concat(m.as_str()),
                    _ => return None,
                };
                let ghost o4 = members_view(map@);
                let target = match remove_member(&mut map, "target") {
                    Some(Json::Text(t)) => t,
                    _ => return None,
                };
                let ghost o5 = members_view(map@);
                let span = match remove_member(&mut map, "spans") {
                    Some(Json::Array(a)) => {
                        proof {
                            let av = match Json::Array(a)@ {
                                JsonV::Array(x) => x,
                                _ => Seq::empty(),
                            };
                            assert(av =~= Seq::new(a@.len(), |i: int| a@[i]@));
                        }
                        spans_string(&a)
                    },
                    _ => String::new(),
                };
                proof { lemma_object_view(map); }
                Some(JsonEntry { text, value: Json::Object(map), value_txt: None, lvl, msg, span, target })
            },
            _ => None,
        }
    }

    /// Read one line of a JSON log. `Err`, holding the parser's error, exactly when the line is
    /// not JSON; a line that is JSON must be a log record (`is_log_record`).
    pub fn new(text: String) -> (res: Result<Self, JsonError>)
        requires
            parsed_json(text@) matches Some(v) ==> is_log_record(v),
        ensures
            match res {
                Ok(e) => parsed_json(text@) matches Some(v) && e.made_from(text@, v),
                Err(_) => parsed_json(text@) is None,
            },
    {
        match parse_value(text.as_str()) {
            Ok(v) => {
                let e = Self::from_value(text, v);
                Ok(e.unwrap())
            },
            Err(e) => Err(JsonError { source: e }),
        }
    }

    /// The value of the top level member `key` of an object.
    pub fn get_value<'a>(value: &'a Json, key: &str) -> (res: Option<&'a Json>)
        requires
            value@ is Object,
        ensures
            match res {
                Some(v) => member(object_members(value@), key@) == Some(v@),
                None => member(object_members(value@), key@) is None,
            },
    {
        match value {
            Json::Object(o) => {
                proof { lemma_object_view(*o); }
                let ghost ov = members_view(o@);
                proof { lemma_member_index_bounds(ov, key@); }
                match find_member(o, key) {
                    Some(i) => {
                        assert(ov[i as int].1 == o@[i as int].1@);
                        Some(&o[i].1)
                    },
                    None => None,
                }
            },
            _ => None,
        }
    }

    /// The value of the member `key` of this record.
    pub fn get(&self, key: &str) -> (res: Option<&Json>)
        requires
            self.value@ is Object,
        ensures
            match res {
                Some(v) => member(object_members(self.value@), key@) == Some(v@),
                None => member(object_members(self.value@), key@) is None,
            },
    {
        Self::get_value(&self.value, key)
    }

    /// The keys of this record, without surrounding white space, sorted, each once.
    pub fn keys(&self) -> (res: Vec<String>)
        requires
            self.value@ is Object,
        ensures
            texts_view(res@) == sorted_keys(object_members(self.value@)),
            sorted_strict(texts_view(res@)),
            texts_view(res@).to_set() == trimmed_keys(object_members(self.value@)),
    {
        let mut out: Vec<String> = Vec::new();
        match &self.value {
            Json::Object(o) => {
                proof { lemma_object_view(*o); }
                let ghost ov = members_view(o@);
                let mut i: usize = 0;
                while i < o.len()
                    invariant
                        i <= o@.len(),
                        ov == members_view(o@),
                        sorted_strict(texts_view(out@)),
                        texts_view(out@).to_set() == trimmed_keys(ov.take(i as int)),
                    decreases o@.len() - i,
                {
                    let t = trim(o[i].0.as_str());
                    insert_sorted(&mut out, t);
                    proof {
                        assert(ov[i as int].0 == o@[i as int].0@);
                        assert(trimmed_keys(ov.take(i + 1 as int)) =~= trimmed_keys(ov.take(i as int)).insert(t@)) by {
                            assert forall|e: Seq<char>| trimmed_keys(ov.take(i + 1 as int)).contains(e) implies trimmed_keys(ov.take(i as int)).insert(t@).contains(e) by {
                                let x = choose|x: int| 0 <= x < i + 1 && e == trimmed(#[trigger] ov.take(i + 1 as int)[x].0);
                                if x < i {
                                    assert(ov.take(i as int)[x] == ov.take(i + 1 as int)[x]);
                                }
                            }
                            assert forall|e: Seq<char>| trimmed_keys(ov.take(i as int)).insert(t@).contains(e) implies trimmed_keys(ov.take(i + 1 as int)).contains(e) by {
                                if e == t@ {
                                    assert(ov.take(i + 1 as int)[i as int] == ov[i as int]);
                                } else {
                                    let x = choose|x: int| 0 <= x < i && e == trimmed(#[trigger] ov.take(i as int)[x].0);
                                    assert(ov.take(i as int)[x] == ov.take(i + 1 as int)[x]);
                                }
                            }
                        }
                    }
                    i += 1;
                }
                proof {
                    assert(ov.take(o@.len() as int) =~= ov);
                }
            },
            _ => {},
        }
        proof {
            if texts_view(out@).len() == 0 {
                assert(texts_view(out@) =~= Seq::<Seq<char>>::empty());
            }
            lemma_is_sorted_keys(object_members(self.value@), texts_view(out@));
        }
        out
    }

    /// Every key, once white space around it is removed, is the key of a member.
    pub open spec fn keys_resolve(&self) -> bool {
        forall|k: Seq<char>| #[trigger] trimmed_keys(object_members(self.value@)).contains(k)
            ==> member(object_members(self.value@), k) is Some
    }

    /// The element that shows this record with the sorted keys `ks`: a `div` (classes `entry`
    /// and the level's class, `data-time` when there is a timestamp) holding a `p` with target,
    /// message and span, and a folded table of the fields (all keys but `span` and `spans`).
    pub open spec fn html_view(&self, ks: Seq<Seq<char>>) -> ElementV {
        let o = object_members(self.value@);
        let cls = level_class(self.lvl);
        ElementV {
            tag: "div"@,
            classes: seq!["entry"@, cls],
            attributes: time_attributes(o, ks),
            text: None,
            children: seq![
                ElementV {
                    tag: "p"@,
                    classes: seq![cls],
                    attributes: Seq::empty(),
                    text: None,
                    children: seq![
                        leaf("span"@, seq!["target"@], Some(self.target@)),
                        leaf("span"@, seq!["message"@], Some(self.msg@)),
                        leaf("span"@, seq!["current-span"@], Some(self.span@)),
                    ],
                },
                ElementV {
                    tag: "table"@,
                    classes: seq![cls, "display_none"@],
                    attributes: Seq::empty(),
                    text: None,
                    children: seq![field_columns()] + field_rows(o, ks),
                },
            ],
        }
    }

    /// Whether every key, trimmed, is the key of a member (else `html` cannot show it).
    pub fn resolves_keys(&self) -> (res: bool)
        requires
            self.value@ is Object,
        ensures
            res == self.keys_resolve(),
    {
        let ks = self.keys();
        let ghost o = object_members(self.value@);
        let mut i: usize = 0;
        while i < ks.len()
            invariant
                i <= ks@.len(),
                self.value@ is Object,
                o == object_members(self.value@),
                texts_view(ks@).to_set() == trimmed_keys(o),
                forall|t: int| 0 <= t < i ==> member(o, #[trigger] texts_view(ks@)[t]) is Some,
            decreases ks@.len() - i,
        {
            assert(texts_view(ks@)[i as int] == ks@[i as int]@);
            if self.get(ks[i].as_str()).is_none() {
                proof {
                    assert(texts_view(ks@).to_set().contains(ks@[i as int]@));
                }
                return false;
            }
            i += 1;
        }
        proof {
            assert forall|k: Seq<char>| #[trigger] trimmed_keys(o).contains(k) implies member(o, k) is Some by {
                assert(texts_view(ks@).to_set().contains(k));
                let t = choose|t: int| 0 <= t < texts_view(ks@).len() && texts_view(ks@)[t] == k;
                assert(member(o, texts_view(ks@)[t]) is Some);
            }
        }
        true
    }

    /// A cell of the field table.
    fn cell(class: &str, text: String) -> (res: Element)
        ensures
            res@ == leaf("td"@, seq![class@], Some(text@)),
    {
        let e = Element::new("td", vec![class.to_string()], Vec::new(), Some(text), Vec::new());
        proof {
            assert(e@.classes =~= seq![class@]);
            assert(e@.attributes =~= Seq::empty());
            assert(e@.children =~= Seq::empty());
        }
        e
    }

    /// An element with one class, an optional text and nothing else.
    fn simple(tag: &str, class: &str, text: Option<String>) -> (res: Element)
        ensures
            res@ == leaf(tag@, seq![class@], match text { Some(t) => Some(t@), None => None }),
    {
        let e = Element::new(tag, vec![class.to_string()], Vec::new(), text, Vec::new());
        proof {
            assert(e@.classes =~= seq![class@]);
            assert(e@.attributes =~= Seq::empty());
            assert(e@.children =~= Seq::empty());
        }
        e
    }

    /// Build the element that shows this record.
    pub fn html(&self) -> (res: Element)
        requires
            self.value@ is Object,
            self.keys_resolve(),
        ensures
            res@ == self.html_view(sorted_keys(object_members(self.value@))),
    {
        let ghost o = object_members(self.value@);
        let cls = level_class_str(self.lvl);
        let ks = self.keys();
        let ghost kv = texts_view(ks@);
        let mut rows: Vec<Element> = Vec::new();
        let mut attributes: Vec<(String, String)> = Vec::new();
        let timestamp_key: String = "timestamp".to_string();
        let span_key: String = "span".to_string();
        let spans_key: String = "spans".to_string();
        let mut i: usize = 0;
        while i < ks.len()
            invariant
                i <= ks@.len(),
                kv == texts_view(ks@),
                self.value@ is Object,
                self.keys_resolve(),
                o == object_members(self.value@),
                kv.to_set() == trimmed_keys(o),
                sorted_strict(kv),
                timestamp_key@ == "timestamp"@,
                span_key@ == "span"@,
                spans_key@ == "spans"@,
                rows@.len() == field_rows(o, kv.take(i as int)).len(),
                forall|t: int| 0 <= t < rows@.len() ==> #[trigger] rows@[t]@ == field_rows(o, kv.take(i as int))[t],
                attributes_view(attributes@) == time_attributes(o, kv.take(i as int)),
            decreases ks@.len() - i,
        {
            let key = &ks[i];
            assert(kv[i as int] == key@);
            assert(kv.take(i + 1 as int).drop_last() =~= kv.take(i as int));
            assert(kv.to_set().contains(key@));
            let value = self.get(key.as_str()).unwrap();
            let mut s = String::new();
            val_to_string(value, &mut s);
            let ghost before_attrs = attributes@;
            if *key == timestamp_key {
                attributes.push(("data-time".to_string(), s.clone()));
                proof {
                    assert(!kv.take(i as int).contains("timestamp"@)) by {
                        if kv.take(i as int).contains("timestamp"@) {
                            let t = choose|t: int| 0 <= t < i && #[trigger] kv.take(i as int)[t] == "timestamp"@;
                            assert(lex_lt(kv[t], kv[i as int]));
                            lemma_lex_irreflexive(kv[t]);
                        }
                    }
                    assert(attributes_view(before_attrs) =~= Seq::empty());
                    assert(kv.take(i + 1 as int).contains("timestamp"@)) by {
                        assert(kv.take(i + 1 as int)[i as int] == "timestamp"@);
                    }
                    assert(attributes_view(attributes@) =~= time_attributes(o, kv.take(i + 1 as int)));
                }
            } else {
                proof {
                    assert(kv.take(i + 1 as int).contains("timestamp"@) == kv.take(i as int).contains("timestamp"@)) by {
                        if kv.take(i + 1 as int).contains("timestamp"@) {
                            let t = choose|t: int| 0 <= t < i + 1 && #[trigger] kv.take(i + 1 as int)[t] == "timestamp"@;
                            assert(t != i);
                            assert(kv.take(i as int)[t] == "timestamp"@);
                        }
                        if kv.take(i as int).contains("timestamp"@) {
                            let t = choose|t: int| 0 <= t < i && #[trigger] kv.take(i as int)[t] == "timestamp"@;
                            assert(kv.take(i + 1 as int)[t] == "timestamp"@);
                        }
                    }
                }
            }
            if !(*key == span_key) && !(*key == spans_key) {
                let c1 = Self::cell("field-key", key.clone());
                let c2 = Self::cell("field-separator", ": ".to_string());
                let c3 = Self::cell("field-value", s);
                let tr = Element::new("tr", Vec::new(), Vec::new(), None, vec![c1, c2, c3]);
                proof {
                    assert(tr@.classes =~= Seq::empty());
                    assert(tr@.attributes =~= Seq::empty());
                    assert(tr@.children =~= seq![
                        leaf("td"@, seq!["field-key"@], Some(key@)),
                        leaf("td"@, seq!["field-separator"@], Some(": "@)),
                        leaf("td"@, seq!["field-value"@], Some(member_text(o, key@))),
                    ]);
                }
                rows.push(tr);
            }
            i += 1;
        }
        proof {
            assert(kv.take(ks@.len() as int) =~= kv);
        }
        let t1 = Self::simple("span", "target", Some(self.target.clone()));
        let t2 = Self::simple("span", "message", Some(self.msg.clone()));
        let t3 = Self::simple("span", "current-span", Some(self.span.clone()));
        let p = Element::new("p", vec![cls.to_string()], Vec::new(), None, vec![t1, t2, t3]);
        let c1 = Self::simple("col", "field-keys", None);
        let c2 = Self::simple("col", "field-separators", None);
        let c3 = Self::simple("col", "field-values", None);
        let colgroup = Element::new("colgroup", Vec::new(), Vec::new(), None, vec![c1, c2, c3]);
        proof {
            assert(colgroup@.classes =~= Seq::empty());
            assert(colgroup@.attributes =~= Seq::empty());
            assert(colgroup@.children =~= field_columns().children);
            assert(p@.classes =~= seq![level_class(self.lvl)]);
            assert(p@.attributes =~= Seq::empty());
            assert(p@.children =~= self.html_view(kv).children[0].children);
            assert(p@ == self.html_view(kv).children[0]);
        }
        let mut table_children: Vec<Element> = vec![colgroup];
        let ghost rows_view = rows@;
        table_children.append(&mut rows);
        let table = Element::new("table", vec![cls.to_string(), "display_none".to_string()], Vec::new(), None, table_children);
        proof {
            assert(table@.classes =~= seq![level_class(self.lvl), "display_none"@]);
            assert(table@.attributes =~= Seq::empty());
            assert(table@.children =~= seq![field_columns()] + field_rows(o, kv));
            assert(table@ == self.html_view(kv).children[1]);
        }
        let div = Element::new("div", vec!["entry".to_string(), cls.to_string()], attributes, None, vec![p, table]);
        proof {
            assert(div@.classes =~= seq!["entry"@, level_class(self.lvl)]);
            assert(div@.children =~= self.html_view(kv).children);
            assert(div@ == self.html_view(kv));
        }
        div
    }

    /// Whether this record is shown under `filter`.
    pub open spec fn shown_by(&self, filter: &Filter) -> bool {
        level_passes(self.lvl, filter) && crate::plain_entry::regex_passes(filter, self.text@)
    }

    /// The level of this record.
    pub fn lvl(&self) -> (res: LogLevel)
        ensures
            res == self.lvl,
    {
        self.lvl
    }

    /// Should this line be shown for the given filter?
    pub fn matches(&mut self, filter: &Filter) -> (res: bool)
        ensures
            *final(self) == *old(self),
            res == old(self).shown_by(filter),
    {
        self.passes(filter)
    }

    /// Whether the record passes the level switches and the regex of `filter`.
    pub(crate) fn passes(&self, filter: &Filter) -> (res: bool)
        ensures
            res == self.shown_by(filter),
    {
        match self.lvl() {
            LogLevel::Trace => if !filter.trace { return false },
            LogLevel::Debug => if !filter.debug { return false },
            LogLevel::Info => if !filter.info { return false },
            LogLevel::Warn => if !filter.warn { return false },
            LogLevel::Error => if !filter.error { return false },
            LogLevel::Unknown => {},
        }
        let mut show = true;
        if let Some(regex) = &filter.regex {
            if !regex.is_match(self.text.as_str()) {
                show = false;
            }
        }
        show
    }
}

/// A record of a known level is hidden when the switch named after its level is off, whatever
/// the other switches say, and shown when that switch is on and there is no regex. A record of
/// unknown level is shown under any switches when there is no regex.
pub proof fn lemma_record_level_switch(e: JsonEntry, f: Filter)
    ensures
        e.lvl == LogLevel::Trace ==> (!f.trace ==> !e.shown_by(&f)) && (f.trace && f.regex is None ==> e.shown_by(&f)),
        e.lvl == LogLevel::Debug ==> (!f.debug ==> !e.shown_by(&f)) && (f.debug && f.regex is None ==> e.shown_by(&f)),
        e.lvl == LogLevel::Info ==> (!f.info ==> !e.shown_by(&f)) && (f.info && f.regex is None ==> e.shown_by(&f)),
        e.lvl == LogLevel::Warn ==> (!f.warn ==> !e.shown_by(&f)) && (f.warn && f.regex is None ==> e.shown_by(&f)),
        e.lvl == LogLevel::Error ==> (!f.error ==> !e.shown_by(&f)) && (f.error && f.regex is None ==> e.shown_by(&f)),
        e.lvl == LogLevel::Unknown ==> (f.regex is None ==> e.shown_by(&f)),
{
}

/// A record's level is the one its `level` member names, and its element is styled by the
/// lowercase of that name; a `level` that is no level name gives `unknown_loglvl`. Each level
/// has its own class.
pub proof fn lemma_record_level_class(o: Seq<(Seq<char>, JsonV)>, t: Seq<char>)
    requires
        member(o, "level"@) == Some(JsonV::Text(t)),
    ensures
        t == "TRACE"@ || t == "DEBUG"@ || t == "INFO"@ || t == "WARN"@ || t == "ERROR"@
            ==> level_of(o) != LogLevel::Unknown && level_class(level_of(o)) == ascii_lower(t),
        !(t == "TRACE"@ || t == "DEBUG"@ || t == "INFO"@ || t == "WARN"@ || t == "ERROR"@)
            ==> level_of(o) == LogLevel::Unknown && level_class(level_of(o)) == "unknown_loglvl"@,
        forall|a: LogLevel, b: LogLevel| #[trigger] level_class(a) == #[trigger] level_class(b) ==> a == b,
{
    reveal_strlit("TRACE");
    reveal_strlit("DEBUG");
    reveal_strlit("INFO");
    reveal_strlit("WARN");
    reveal_strlit("ERROR");
    reveal_strlit("trace");
    reveal_strlit("debug");
    reveal_strlit("info");
    reveal_strlit("warn");
    reveal_strlit("error");
    reveal_strlit("unknown_loglvl");
    if t == "TRACE"@ {
        assert(level_class(level_of(o)) =~= ascii_lower(t));
    } else if t == "DEBUG"@ {
        assert(level_class(level_of(o)) =~= ascii_lower(t));
    } else if t == "INFO"@ {
        assert(level_class(level_of(o)) =~= ascii_lower(t));
    } else if t == "WARN"@ {
        assert(level_class(level_of(o)) =~= ascii_lower(t));
    } else if t == "ERROR"@ {
        assert(level_class(level_of(o)) =~= ascii_lower(t));
    }
    assert forall|a: LogLevel, b: LogLevel| #[trigger] level_class(a) == #[trigger] level_class(b) implies a == b by {
        assert(level_class(a)[0] == level_class(b)[0]);
    }
}

} // verus!
