use vstd::prelude::*;
use std::collections::{HashMap, HashSet};
use crate::Show;
use crate::entry::Entry;
use crate::filter::Filter;
use crate::column::{Update, DelColumn, InitColumn, ToggleEntry};
use crate::entry::TextFormat;
use crate::json::parsed_json;
use crate::json_entry::{JsonEntry, is_log_record};
use crate::plain_entry::{PlainEntry, plain_level};
use crate::text::{lines, text_lines, decimal, write_decimal};
use crate::html::{Element, ElementV, attributes_view, texts_view};
use vstd::string::StringExecFns;
use vstd::std_specs::iter::IteratorSpec;

verus! {

broadcast use vstd::std_specs::hash::group_hash_axioms;

/// Every row of `show` has one entry per line.
pub open spec fn rows_have_len(show: Map<usize, Vec<Show>>, n: nat) -> bool {
    forall|k: usize| #[trigger] show.contains_key(k) ==> show[k]@.len() == n
}

/// Every row of `show` has at least `n` entries.
pub open spec fn rows_cover(show: Map<usize, Vec<Show>>, n: nat) -> bool {
    forall|k: usize| #[trigger] show.contains_key(k) ==> show[k]@.len() >= n
}

/// For each line, whether it passes `filter`.
pub open spec fn line_matches(lines: Seq<Entry>, filter: &Filter) -> Seq<bool> {
    Seq::new(lines.len(), |i: int| lines[i].shown_by(filter))
}

/// Some column other than `id` has line `i` visible.
pub open spec fn shown_elsewhere(show: Map<usize, Vec<Show>>, id: usize, i: int) -> bool {
    exists|k: usize| show.contains_key(k) && k != id && #[trigger] show[k]@[i] == Show::Visible
}

/// What the column whose filter changed shows for a line: visible when it matches; when it
/// does not, display:none if every column has a filter and no other column shows the line,
/// hidden otherwise.
pub open spec fn own_show(matched: bool, all_have_filters: bool, elsewhere: bool) -> Show {
    if matched {
        Show::Visible
    } else if all_have_filters && !elsewhere {
        Show::NoDisplay
    } else {
        Show::Hidden
    }
}

/// What another column shows for a line after a filter change: when every column has a
/// filter, a line that becomes visible leaves display:none for hidden, and a line that no
/// column shows any more goes from hidden to display:none. Otherwise nothing changes.
pub open spec fn other_show(s: Show, matched: bool, all_have_filters: bool, elsewhere: bool) -> Show {
    if all_have_filters && matched && s == Show::NoDisplay {
        Show::Hidden
    } else if all_have_filters && !matched && !elsewhere && s == Show::Hidden {
        Show::NoDisplay
    } else {
        s
    }
}

/// `after` is `before` once the column `id` was filtered, with `matches` telling for each
/// line whether it passes that column's filter.
pub open spec fn filtered(
    before: Map<usize, Vec<Show>>,
    after: Map<usize, Vec<Show>>,
    matches: Seq<bool>,
    id: usize,
    all_have_filters: bool,
) -> bool {
    let n = matches.len();
    &&& after.dom() == before.dom().insert(id)
    &&& after[id]@ == Seq::new(
        n,
        |i: int| own_show(matches[i], all_have_filters, shown_elsewhere(before, id, i)),
    )
    &&& forall|k: usize|
        #[trigger] before.contains_key(k) && k != id ==> after[k]@ == Seq::new(
            n,
            |i: int|
                other_show(before[k]@[i], matches[i], all_have_filters, shown_elsewhere(before, id, i)),
        )
}

/// The row of the column `id` once its filter was applied: `own_show` for each line, then
/// what the row held past the text (a new row holds nothing there).
pub open spec fn own_row(before: Map<usize, Vec<Show>>, matches: Seq<bool>, id: usize, all_have_filters: bool) -> Seq<Show> {
    let head = Seq::new(matches.len(), |i: int| own_show(matches[i], all_have_filters, shown_elsewhere(before, id, i)));
    if before.contains_key(id) {
        head + before[id]@.skip(matches.len() as int)
    } else {
        head
    }
}

/// The row of another column `k` once the filter of the column `id` was applied: when every
/// column has a filter, `other_show` for each line, then what the row held past the text;
/// otherwise the row as it was.
pub open spec fn other_row(before: Map<usize, Vec<Show>>, matches: Seq<bool>, id: usize, all_have_filters: bool, k: usize) -> Seq<Show> {
    if all_have_filters {
        Seq::new(matches.len(), |i: int| other_show(before[k]@[i], matches[i], true, shown_elsewhere(before, id, i)))
            + before[k]@.skip(matches.len() as int)
    } else {
        before[k]@
    }
}

/// `after` is `before` once the filter of the column `id` was applied, with `matches` telling
/// for each line whether it passes that filter; rows may be longer than the text.
pub open spec fn refiltered(
    before: Map<usize, Vec<Show>>,
    after: Map<usize, Vec<Show>>,
    matches: Seq<bool>,
    id: usize,
    all_have_filters: bool,
) -> bool {
    &&& after.dom() == before.dom().insert(id)
    &&& after[id]@ == own_row(before, matches, id, all_have_filters)
    &&& forall|k: usize| #[trigger] before.contains_key(k) && k != id ==> after[k]@ == other_row(before, matches, id, all_have_filters, k)
}

/// The columns other than `id` whose row differs between `before` and `after`.
pub open spec fn changed_columns(before: Map<usize, Vec<Show>>, after: Map<usize, Vec<Show>>, id: usize) -> Set<usize> {
    Set::new(|k: usize| before.contains_key(k) && k != id && after[k]@ != before[k]@)
}

/// Some column other than `id` changes what it shows for some line.
pub open spec fn others_change(
    before: Map<usize, Vec<Show>>,
    matches: Seq<bool>,
    id: usize,
    all_have_filters: bool,
) -> bool {
    exists|k: usize, i: int|
        before.contains_key(k) && k != id && 0 <= i < matches.len() && #[trigger] other_show(
            before[k]@[i],
            matches[i],
            all_have_filters,
            shown_elsewhere(before, id, i),
        ) != before[k]@[i]
}

/// `own_show`, computed.
fn own_show_exec(matched: bool, all_have_filters: bool, elsewhere: bool) -> (res: Show)
    ensures
        res == own_show(matched, all_have_filters, elsewhere),
{
    if matched {
        Show::Visible
    } else if all_have_filters && !elsewhere {
        Show::NoDisplay
    } else {
        Show::Hidden
    }
}

/// `other_show`, computed.
fn other_show_exec(s: Show, matched: bool, all_have_filters: bool, elsewhere: bool) -> (res: Show)
    ensures
        res == other_show(s, matched, all_have_filters, elsewhere),
{
    if all_have_filters && matched && s == Show::NoDisplay {
        Show::Hidden
    } else if all_have_filters && !matched && !elsewhere && s == Show::Hidden {
        Show::NoDisplay
    } else {
        s
    }
}

/// The columns that have a row in `show`, each once.
fn collect_keys(show: &HashMap<usize, Vec<Show>>) -> (res: Vec<usize>)
    ensures
        res@.to_set() == show@.dom(),
        res@.no_duplicates(),
{
    let mut out: Vec<usize> = Vec::new();
    let keys = show.keys();
    for k in it: keys
        invariant
            out@ == it.seq().take(it.index() as int).unref(),
            it.seq() == vstd::std_specs::hash::spec_keys_iter(show).remaining(),
    {
        out.push(*k);
        assert(it.seq().take(it.index() + 1 as int).unref() =~= it.seq().take(it.index() as int).unref().push(*k));
    }
    assert(out@ =~= vstd::std_specs::hash::spec_keys_iter(show).remaining().unref());
    out
}

/// For each line, whether some row of `show` has it visible.
fn visible_anywhere(show: &HashMap<usize, Vec<Show>>, keys: &Vec<usize>, n: usize) -> (res: Vec<bool>)
    requires
        keys@.to_set() == show@.dom(),
        rows_cover(show@, n as nat),
    ensures
        res@.len() == n,
        forall|i: int| 0 <= i < n ==> res@[i] == (exists|k: usize| show@.contains_key(k) && #[trigger] show@[k]@[i] == Show::Visible),
{
    let mut res: Vec<bool> = Vec::new();
    let mut i: usize = 0;
    while i < n
        invariant
            i <= n,
            res@.len() == i,
            forall|t: int| 0 <= t < i ==> !res@[t],
        decreases n - i,
    {
        res.push(false);
        i += 1;
    }
    let mut j: usize = 0;
    while j < keys.len()
        invariant
            j <= keys@.len(),
            keys@.to_set() == show@.dom(),
            rows_cover(show@, n as nat),
            res@.len() == n,
            forall|i: int| 0 <= i < n ==> res@[i] == (exists|t: int| 0 <= t < j && #[trigger] show@[keys@[t]]@[i] == Show::Visible),
        decreases keys@.len() - j,
    {
        let key = keys[j];
        assert(keys@.to_set().contains(keys@[j as int]));
        let row = show.get(&key).unwrap();
        let mut i: usize = 0;
        while i < n
            invariant
                0 <= j < keys@.len(),
                key == keys@[j as int],
                show@.contains_key(key),
                *row == show@[key],
                row@.len() >= n,
                i <= n,
                res@.len() == n,
                forall|t: int| 0 <= t < i ==> res@[t] == (exists|u: int| 0 <= u < j + 1 && #[trigger] show@[keys@[u]]@[t] == Show::Visible),
                forall|t: int| i <= t < n ==> res@[t] == (exists|u: int| 0 <= u < j && #[trigger] show@[keys@[u]]@[t] == Show::Visible),
            decreases n - i,
        {
            if row[i] == Show::Visible {
                res.set(i, true);
            }
            i += 1;
        }
        j += 1;
    }
    assert forall|i: int| 0 <= i < n implies res@[i] == (exists|k: usize| show@.contains_key(k) && #[trigger] show@[k]@[i] == Show::Visible) by {
        if res@[i] {
            let t = choose|t: int| 0 <= t < keys@.len() && #[trigger] show@[keys@[t]]@[i] == Show::Visible;
            assert(keys@.to_set().contains(keys@[t]));
        }
        if exists|k: usize| show@.contains_key(k) && #[trigger] show@[k]@[i] == Show::Visible {
            let k = choose|k: usize| show@.contains_key(k) && #[trigger] show@[k]@[i] == Show::Visible;
            assert(keys@.to_set().contains(k));
            let t = choose|t: int| 0 <= t < keys@.len() && keys@[t] == k;
            assert(show@[keys@[t]]@[i] == Show::Visible);
        }
    }
    res
}

/// Rewriting `row` as `other_show` says changes one of its first `matches.len()` entries.
pub open spec fn row_changes(row: Seq<Show>, matches: Seq<bool>, all_have_filters: bool, elsewhere: Seq<bool>) -> bool {
    exists|i: int| 0 <= i < matches.len() && #[trigger] other_show(row[i], matches[i], all_have_filters, elsewhere[i]) != row[i]
}

/// `row` with its first `matches.len()` entries rewritten as `other_show` says.
pub open spec fn rewritten(row: Seq<Show>, matches: Seq<bool>, all_have_filters: bool, elsewhere: Seq<bool>) -> Seq<Show> {
    Seq::new(matches.len(), |i: int| other_show(row[i], matches[i], all_have_filters, elsewhere[i])) + row.skip(matches.len() as int)
}

/// Rewrite the first entries of every row of `show` (all of them rows of other columns than
/// the one whose filter changed) as `other_show` says; returns the columns whose row changed.
fn update_other_rows(
    show: &mut HashMap<usize, Vec<Show>>,
    keys: &Vec<usize>,
    matches: &Vec<bool>,
    elsewhere: &Vec<bool>,
    all_have_filters: bool,
) -> (changed: Vec<usize>)
    requires
        keys@.to_set() == old(show)@.dom(),
        keys@.no_duplicates(),
        rows_cover(old(show)@, matches@.len()),
        elsewhere@.len() == matches@.len(),
    ensures
        final(show)@.dom() == old(show)@.dom(),
        forall|k: usize| #[trigger] old(show)@.contains_key(k)
            ==> final(show)@[k]@ == rewritten(old(show)@[k]@, matches@, all_have_filters, elsewhere@),
        changed@.no_duplicates(),
        forall|k: usize| #[trigger] changed@.contains(k)
            <==> old(show)@.contains_key(k) && row_changes(old(show)@[k]@, matches@, all_have_filters, elsewhere@),
{
    let ghost before = show@;
    let n = matches.len();
    let mut changed: Vec<usize> = Vec::new();
    let mut j: usize = 0;
    while j < keys.len()
        invariant
            n == matches@.len(),
            elsewhere@.len() == n,
            j <= keys@.len(),
            keys@.to_set() == before.dom(),
            keys@.no_duplicates(),
            rows_cover(before, n as nat),
            show@.dom() == before.dom(),
            forall|t: int| 0 <= t < j ==> #[trigger] show@[keys@[t]]@
                == rewritten(before[keys@[t]]@, matches@, all_have_filters, elsewhere@),
            forall|t: int| j <= t < keys@.len() ==> #[trigger] show@[keys@[t]] == before[keys@[t]],
            changed@.no_duplicates(),
            forall|k: usize| #[trigger] changed@.contains(k) <==> exists|t: int| 0 <= t < j && keys@[t] == k
                && row_changes(before[k]@, matches@, all_have_filters, elsewhere@),
        decreases keys@.len() - j,
    {
        let key = keys[j];
        assert(keys@.to_set().contains(keys@[j as int]));
        let row = show.get(&key).unwrap();
        let mut new_row = copy_row(row);
        let mut differs = false;
        let mut i: usize = 0;
        while i < n
            invariant
                n == matches@.len(),
                elsewhere@.len() == n,
                *row == before[key],
                row@.len() >= n,
                i <= n,
                new_row@ == Seq::new(i as nat, |u: int| other_show(before[key]@[u], matches@[u], all_have_filters, elsewhere@[u]))
                    + before[key]@.skip(i as int),
                differs == exists|u: int| 0 <= u < i
                    && #[trigger] other_show(before[key]@[u], matches@[u], all_have_filters, elsewhere@[u]) != before[key]@[u],
            decreases n - i,
        {
            let s = row[i];
            let t = other_show_exec(s, matches[i], all_have_filters, elsewhere[i]);
            if t != s {
                differs = true;
            }
            new_row.set(i, t);
            i += 1;
            assert(new_row@ =~= Seq::new(i as nat, |u: int| other_show(before[key]@[u], matches@[u], all_have_filters, elsewhere@[u]))
                + before[key]@.skip(i as int));
        }
        assert(new_row@ =~= rewritten(before[key]@, matches@, all_have_filters, elsewhere@));
        let ghost changed_before = changed@;
        if differs {
            proof {
                assert(!changed@.contains(key)) by {
                    if changed@.contains(key) {
                        let t = choose|t: int| 0 <= t < j && keys@[t] == key
                            && row_changes(before[key]@, matches@, all_have_filters, elsewhere@);
                    }
                }
            }
            changed.push(key);
        }
        show.insert(key, new_row);
        proof {
            assert(differs ==> changed@ == changed_before.push(key));
            assert(!differs ==> changed@ == changed_before);
            assert(differs == row_changes(before[key]@, matches@, all_have_filters, elsewhere@));
            assert forall|t: int| j + 1 <= t < keys@.len() implies #[trigger] show@[keys@[t]] == before[keys@[t]] by {
                assert(keys@[t] != keys@[j as int]);
            }
            assert forall|t: int| 0 <= t < j + 1 implies #[trigger] show@[keys@[t]]@
                == rewritten(before[keys@[t]]@, matches@, all_have_filters, elsewhere@) by {
                if t < j {
                    assert(keys@[t] != keys@[j as int]);
                }
            }
            assert forall|k: usize| #[trigger] changed@.contains(k) <==> exists|t: int| 0 <= t < j + 1 && keys@[t] == k
                && row_changes(before[k]@, matches@, all_have_filters, elsewhere@) by {
                if changed@.contains(k) && !changed_before.contains(k) {
                    assert(k == key);
                    assert(keys@[j as int] == k);
                }
                if changed_before.contains(k) {
                    let x = choose|x: int| 0 <= x < changed_before.len() && changed_before[x] == k;
                    assert(changed@[x] == k);
                }
                if exists|t: int| 0 <= t < j + 1 && keys@[t] == k && row_changes(before[k]@, matches@, all_have_filters, elsewhere@) {
                    let t = choose|t: int| 0 <= t < j + 1 && keys@[t] == k && row_changes(before[k]@, matches@, all_have_filters, elsewhere@);
                    if t < j {
                        assert(changed_before.contains(k));
                        let x = choose|x: int| 0 <= x < changed_before.len() && changed_before[x] == k;
                        assert(changed@[x] == k);
                    } else {
                        assert(changed@[changed@.len() - 1] == k);
                    }
                }
            }
            assert(show@.dom() =~= before.dom());
        }
        j += 1;
    }
    proof {
        assert forall|k: usize| #[trigger] before.contains_key(k) implies show@[k]@
            == rewritten(before[k]@, matches@, all_have_filters, elsewhere@) by {
            assert(keys@.to_set().contains(k));
            let t = choose|t: int| 0 <= t < keys@.len() && keys@[t] == k;
            assert(show@[keys@[t]]@ == rewritten(before[keys@[t]]@, matches@, all_have_filters, elsewhere@));
        }
        assert forall|k: usize| #[trigger] changed@.contains(k)
            <==> before.contains_key(k) && row_changes(before[k]@, matches@, all_have_filters, elsewhere@) by {
            if changed@.contains(k) {
                let t = choose|t: int| 0 <= t < keys@.len() && keys@[t] == k
                    && row_changes(before[k]@, matches@, all_have_filters, elsewhere@);
                assert(keys@.to_set().contains(keys@[t]));
            }
            if before.contains_key(k) && row_changes(before[k]@, matches@, all_have_filters, elsewhere@) {
                assert(keys@.to_set().contains(k));
                let t = choose|t: int| 0 <= t < keys@.len() && keys@[t] == k;
            }
        }
    }
    changed
}

/// For each line, whether it passes `filter`.
fn compute_matches(lines: &Vec<Entry>, filter: &Filter) -> (res: Vec<bool>)
    ensures
        res@ == line_matches(lines@, filter),
{
    let mut res: Vec<bool> = Vec::new();
    let mut i: usize = 0;
    while i < lines.len()
        invariant
            i <= lines@.len(),
            res@ == line_matches(lines@, filter).take(i as int),
        decreases lines@.len() - i,
    {
        let m = lines[i].passes(filter);
        res.push(m);
        i += 1;
        assert(res@ =~= line_matches(lines@, filter).take(i as int));
    }
    assert(res@ =~= line_matches(lines@, filter));
    res
}

/// Each row of `show` has a line visible exactly where the line passes that column's filter.
pub open spec fn visible_rows_match(show: Map<usize, Vec<Show>>, lines: Seq<Entry>, filters: Map<usize, Filter>) -> bool {
    forall|k: usize, i: int|
        #![trigger show[k]@[i]]
        show.contains_key(k) && 0 <= i < lines.len() ==> (show[k]@[i] == Show::Visible) == lines[i].shown_by(&filters[k])
}

/// Line `i` passes the filter of some column other than `k`.
pub open spec fn matched_by_other(lines: Seq<Entry>, filters: Map<usize, Filter>, k: usize, i: int) -> bool {
    exists|j: usize| filters.contains_key(j) && j != k && #[trigger] lines[i].shown_by(&filters[j])
}

/// What the rules prescribe for line `i` in column `k`: visible when it passes the column's
/// filter; otherwise display:none when every column has a filter and no column shows the
/// line, hidden in all other cases.
pub open spec fn canonical_show(lines: Seq<Entry>, filters: Map<usize, Filter>, all_have_filters: bool, k: usize, i: int) -> Show {
    own_show(lines[i].shown_by(&filters[k]), all_have_filters, matched_by_other(lines, filters, k, i))
}

/// `show` has a row for every column with a filter, and every row says for every line what
/// the rules prescribe.
pub open spec fn is_canonical(show: Map<usize, Vec<Show>>, lines: Seq<Entry>, filters: Map<usize, Filter>, all_have_filters: bool) -> bool {
    &&& show.dom() == filters.dom()
    &&& forall|k: usize| #[trigger] show.contains_key(k) ==> show[k]@ == Seq::new(
        lines.len(),
        |i: int| canonical_show(lines, filters, all_have_filters, k, i),
    )
}

/// Some row of `show` belongs to a column whose filter line `i` passes.
pub open spec fn passes_some_row(show: Map<usize, Vec<Show>>, lines: Seq<Entry>, filters: Map<usize, Filter>, i: int) -> bool {
    exists|j: usize| show.contains_key(j) && #[trigger] lines[i].shown_by(&filters[j])
}

/// The state while the filters of the columns in `done` have been reapplied one after the
/// other, in any order.
pub open spec fn reapplied(
    show: Map<usize, Vec<Show>>,
    lines: Seq<Entry>,
    filters: Map<usize, Filter>,
    all_have_filters: bool,
    done: Set<usize>,
) -> bool {
    &&& show.dom().subset_of(filters.dom())
    &&& done.subset_of(show.dom())
    &&& rows_have_len(show, lines.len())
    &&& visible_rows_match(show, lines, filters)
    &&& all_have_filters ==> forall|i: int| #![trigger lines[i]] 0 <= i < lines.len() ==> {
        &&& (exists|j: usize| done.contains(j) && #[trigger] lines[i].shown_by(&filters[j]))
            ==> forall|k: usize| #[trigger] show.contains_key(k) ==> show[k]@[i] != Show::NoDisplay
        &&& forall|k: usize| #[trigger] done.contains(k) && !lines[i].shown_by(&filters[k])
            ==> show[k]@[i] == (if passes_some_row(show, lines, filters, i) { Show::Hidden } else { Show::NoDisplay })
    }
    &&& !all_have_filters ==> forall|k: usize, i: int|
        #![trigger done.contains(k), show[k]@[i]]
        done.contains(k) && 0 <= i < lines.len() ==> show[k]@[i] == (if lines[i].shown_by(&filters[k]) { Show::Visible } else { Show::Hidden })
}

/// Reapplying the filter of one more column keeps the state `reapplied`.
proof fn lemma_reapply_step(
    before: Map<usize, Vec<Show>>,
    after: Map<usize, Vec<Show>>,
    lines: Seq<Entry>,
    filters: Map<usize, Filter>,
    all_have_filters: bool,
    done: Set<usize>,
    c: usize,
)
    requires
        reapplied(before, lines, filters, all_have_filters, done),
        filters.contains_key(c),
        !done.contains(c),
        filtered(before, after, line_matches(lines, &filters[c]), c, all_have_filters),
    ensures
        reapplied(after, lines, filters, all_have_filters, done.insert(c)),
{
    let n = lines.len();
    let m = line_matches(lines, &filters[c]);
    assert forall|i: int| 0 <= i < n implies #[trigger] shown_elsewhere(before, c, i) == (exists|j: usize| before.contains_key(j) && j != c && #[trigger] lines[i].shown_by(&filters[j])) by {
        if shown_elsewhere(before, c, i) {
            let k = choose|k: usize| before.contains_key(k) && k != c && #[trigger] before[k]@[i] == Show::Visible;
            assert(lines[i].shown_by(&filters[k]));
        }
        if exists|j: usize| before.contains_key(j) && j != c && #[trigger] lines[i].shown_by(&filters[j]) {
            let k = choose|j: usize| before.contains_key(j) && j != c && #[trigger] lines[i].shown_by(&filters[j]);
            assert(before[k]@[i] == Show::Visible);
        }
    }
    assert(after.dom().subset_of(filters.dom()));
    assert(done.insert(c).subset_of(after.dom()));
    assert forall|k: usize| #[trigger] after.contains_key(k) implies after[k]@.len() == n by {
        if k != c {
            assert(before.contains_key(k));
        }
    }
    assert forall|k: usize, i: int|
        #![trigger after[k]@[i]]
        after.contains_key(k) && 0 <= i < n implies (after[k]@[i] == Show::Visible) == lines[i].shown_by(&filters[k]) by {
        if k != c {
            assert(before.contains_key(k));
            assert(before[k]@[i] == Show::Visible <==> lines[i].shown_by(&filters[k]));
        }
    }
    assert forall|i: int| 0 <= i < n implies #[trigger] passes_some_row(after, lines, filters, i) == (m[i] || passes_some_row(before, lines, filters, i)) by {
        if passes_some_row(after, lines, filters, i) {
            let j = choose|j: usize| after.contains_key(j) && #[trigger] lines[i].shown_by(&filters[j]);
            if j != c {
                assert(before.contains_key(j));
            }
        }
        if m[i] {
            assert(after.contains_key(c) && lines[i].shown_by(&filters[c]));
        }
        if passes_some_row(before, lines, filters, i) {
            let j = choose|j: usize| before.contains_key(j) && #[trigger] lines[i].shown_by(&filters[j]);
            assert(after.contains_key(j));
        }
    }
    if all_have_filters {
        assert forall|i: int| #![trigger lines[i]] 0 <= i < n implies {
            &&& (exists|j: usize| done.insert(c).contains(j) && #[trigger] lines[i].shown_by(&filters[j]))
                ==> forall|k: usize| #[trigger] after.contains_key(k) ==> after[k]@[i] != Show::NoDisplay
            &&& forall|k: usize| #[trigger] done.insert(c).contains(k) && !lines[i].shown_by(&filters[k])
                ==> after[k]@[i] == (if passes_some_row(after, lines, filters, i) { Show::Hidden } else { Show::NoDisplay })
        } by {
            let el = shown_elsewhere(before, c, i);
            let any_after = passes_some_row(after, lines, filters, i);
            let any_before = passes_some_row(before, lines, filters, i);
            assert(any_after == (m[i] || any_before));
            if !m[i] {
                assert(el == any_before) by {
                    if any_before {
                        let j = choose|j: usize| before.contains_key(j) && #[trigger] lines[i].shown_by(&filters[j]);
                        assert(j != c);
                    }
                }
            }
            if exists|j: usize| done.insert(c).contains(j) && #[trigger] lines[i].shown_by(&filters[j]) {
                let j = choose|j: usize| done.insert(c).contains(j) && #[trigger] lines[i].shown_by(&filters[j]);
                assert forall|k: usize| #[trigger] after.contains_key(k) implies after[k]@[i] != Show::NoDisplay by {
                    if !m[i] {
                        assert(j != c);
                        assert(done.contains(j));
                        assert(before.contains_key(j) && j != c);
                        assert(el);
                        if k != c {
                            assert(before.contains_key(k));
                            assert(before[k]@[i] != Show::NoDisplay);
                        }
                    } else {
                        if k != c {
                            assert(before.contains_key(k));
                        }
                    }
                }
            }
            assert forall|k: usize| #[trigger] done.insert(c).contains(k) && !lines[i].shown_by(&filters[k])
                implies after[k]@[i] == (if any_after { Show::Hidden } else { Show::NoDisplay }) by {
                if k != c {
                    assert(done.contains(k));
                    assert(before.contains_key(k));
                    assert(before[k]@[i] == (if any_before { Show::Hidden } else { Show::NoDisplay }));
                }
            }
        }
    } else {
        assert forall|k: usize, i: int|
            #![trigger done.insert(c).contains(k), after[k]@[i]]
            done.insert(c).contains(k) && 0 <= i < n implies after[k]@[i] == (if lines[i].shown_by(&filters[k]) { Show::Visible } else { Show::Hidden }) by {
            if k != c {
                assert(done.contains(k));
                assert(before.contains_key(k));
            }
        }
    }
}

/// Once the filters of all columns in `filters` have been reapplied, every row says what the
/// rules prescribe.
proof fn lemma_reapplied_canonical(
    show: Map<usize, Vec<Show>>,
    lines: Seq<Entry>,
    filters: Map<usize, Filter>,
    all_have_filters: bool,
)
    requires
        reapplied(show, lines, filters, all_have_filters, filters.dom()),
    ensures
        is_canonical(show, lines, filters, all_have_filters),
{
    assert(show.dom() =~= filters.dom());
    assert forall|k: usize| #[trigger] show.contains_key(k) implies show[k]@ == Seq::new(
        lines.len(),
        |i: int| canonical_show(lines, filters, all_have_filters, k, i),
    ) by {
        assert forall|i: int| 0 <= i < lines.len() implies #[trigger] show[k]@[i] == canonical_show(lines, filters, all_have_filters, k, i) by {
            let _ = lines[i];
            if !lines[i].shown_by(&filters[k]) && all_have_filters {
                assert(passes_some_row(show, lines, filters, i) == matched_by_other(lines, filters, k, i)) by {
                    if passes_some_row(show, lines, filters, i) {
                        let j = choose|j: usize| show.contains_key(j) && #[trigger] lines[i].shown_by(&filters[j]);
                        assert(j != k);
                    }
                    if matched_by_other(lines, filters, k, i) {
                        let j = choose|j: usize| filters.contains_key(j) && j != k && #[trigger] lines[i].shown_by(&filters[j]);
                        assert(show.contains_key(j));
                    }
                }
            }
        }
        assert(show[k]@ =~= Seq::new(lines.len(), |i: int| canonical_show(lines, filters, all_have_filters, k, i)));
    }
}

/// Filters that agree let the same lines through.
proof fn lemma_same_filter_same_matches(lines: Seq<Entry>, f: &Filter, g: &Filter)
    requires
        f.same_as(g),
    ensures
        line_matches(lines, f) == line_matches(lines, g),
{
    assert(line_matches(lines, f) =~= line_matches(lines, g));
}

/// Filtering the column `c` keeps rows of the right length, only for filtered columns, and
/// visible exactly where lines pass the (new) filter of their column.
proof fn lemma_filtered_wf(
    before: Map<usize, Vec<Show>>,
    after: Map<usize, Vec<Show>>,
    lines: Seq<Entry>,
    filters: Map<usize, Filter>,
    f: Filter,
    all_have_filters: bool,
)
    requires
        rows_have_len(before, lines.len()),
        visible_rows_match(before, lines, filters),
        before.dom().subset_of(filters.dom()),
        filtered(before, after, line_matches(lines, &f), f.id, all_have_filters),
    ensures
        rows_have_len(after, lines.len()),
        visible_rows_match(after, lines, filters.insert(f.id, f)),
        after.dom().subset_of(filters.insert(f.id, f).dom()),
{
    let c = f.id;
    let nf = filters.insert(c, f);
    assert forall|k: usize| #[trigger] after.contains_key(k) implies after[k]@.len() == lines.len() by {
        if k != c {
            assert(before.contains_key(k));
        }
    }
    assert forall|k: usize, i: int|
        #![trigger after[k]@[i]]
        after.contains_key(k) && 0 <= i < lines.len() implies (after[k]@[i] == Show::Visible) == lines[i].shown_by(&nf[k]) by {
        if k != c {
            assert(before.contains_key(k));
            assert((before[k]@[i] == Show::Visible) == lines[i].shown_by(&filters[k]));
        }
    }
}

/// A filter change in column `c` keeps every row as the rules prescribe, provided the rows
/// were so before and the change did not take away that every column has a filter.
pub proof fn lemma_filter_keeps_canonical(
    before: Map<usize, Vec<Show>>,
    after: Map<usize, Vec<Show>>,
    lines: Seq<Entry>,
    filters: Map<usize, Filter>,
    f: Filter,
    all_before: bool,
    all_after: bool,
)
    requires
        is_canonical(before, lines, filters, all_before),
        all_before ==> all_after,
        filtered(before, after, line_matches(lines, &f), f.id, all_after),
    ensures
        is_canonical(after, lines, filters.insert(f.id, f), all_after),
{
    let c = f.id;
    let nf = filters.insert(c, f);
    let n = lines.len();
    assert(after.dom() =~= nf.dom());
    assert forall|i: int| 0 <= i < n implies #[trigger] shown_elsewhere(before, c, i) == (exists|j: usize| filters.contains_key(j) && j != c && #[trigger] lines[i].shown_by(&filters[j])) by {
        if shown_elsewhere(before, c, i) {
            let k = choose|k: usize| before.contains_key(k) && k != c && #[trigger] before[k]@[i] == Show::Visible;
            assert(before[k]@[i] == canonical_show(lines, filters, all_before, k, i));
        }
        if exists|j: usize| filters.contains_key(j) && j != c && #[trigger] lines[i].shown_by(&filters[j]) {
            let k = choose|j: usize| filters.contains_key(j) && j != c && #[trigger] lines[i].shown_by(&filters[j]);
            assert(before[k]@[i] == canonical_show(lines, filters, all_before, k, i));
        }
    }
    assert forall|k: usize| #[trigger] after.contains_key(k) implies after[k]@ == Seq::new(
        n,
        |i: int| canonical_show(lines, nf, all_after, k, i),
    ) by {
        assert forall|i: int| 0 <= i < n implies #[trigger] after[k]@[i] == canonical_show(lines, nf, all_after, k, i) by {
            let el = shown_elsewhere(before, c, i);
            if k == c {
                assert(matched_by_other(lines, nf, c, i) == el) by {
                    if matched_by_other(lines, nf, c, i) {
                        let j = choose|j: usize| nf.contains_key(j) && j != c && #[trigger] lines[i].shown_by(&nf[j]);
                        assert(filters.contains_key(j) && lines[i].shown_by(&filters[j]));
                    }
                    if el {
                        let j = choose|j: usize| filters.contains_key(j) && j != c && #[trigger] lines[i].shown_by(&filters[j]);
                        assert(nf.contains_key(j) && lines[i].shown_by(&nf[j]));
                    }
                }
            } else {
                assert(before.contains_key(k));
                let s = before[k]@[i];
                assert(s == canonical_show(lines, filters, all_before, k, i));
                let mk = lines[i].shown_by(&filters[k]);
                assert(nf[k] == filters[k]);
                let mc = lines[i].shown_by(&f);
                if !mk && all_after && !mc {
                    assert(matched_by_other(lines, nf, k, i) == el) by {
                        if matched_by_other(lines, nf, k, i) {
                            let j = choose|j: usize| nf.contains_key(j) && j != k && #[trigger] lines[i].shown_by(&nf[j]);
                            assert(j != c);
                            assert(filters.contains_key(j) && lines[i].shown_by(&filters[j]));
                        }
                        if el {
                            let j = choose|j: usize| filters.contains_key(j) && j != c && #[trigger] lines[i].shown_by(&filters[j]);
                            assert(j != k);
                            assert(nf.contains_key(j) && lines[i].shown_by(&nf[j]));
                        }
                    }
                    if el {
                        let j = choose|j: usize| filters.contains_key(j) && j != c && #[trigger] lines[i].shown_by(&filters[j]);
                        assert(matched_by_other(lines, filters, k, i));
                    }
                }
                if !mk && all_after && mc {
                    assert(nf.contains_key(c) && c != k && lines[i].shown_by(&nf[c]));
                    assert(matched_by_other(lines, nf, k, i));
                }
                if !mk && !all_after {
                    assert(!all_before);
                }
            }
        }
        assert(after[k]@ =~= Seq::new(n, |i: int| canonical_show(lines, nf, all_after, k, i)));
    }
}

/// The columns that `updates` address, in order.
pub open spec fn column_ids(updates: Seq<ColumnUpdate>) -> Seq<usize> {
    updates.map_values(|u: ColumnUpdate| u.column)
}

/// Updates for distinct columns, one for each column of `columns`, are one per column.
proof fn lemma_ids_one_per_column(updates: Seq<ColumnUpdate>, columns: Set<usize>)
    requires
        column_ids(updates).no_duplicates(),
        column_ids(updates).to_set() == columns,
    ensures
        one_per_column(updates, columns),
{
    let ids = column_ids(updates);
    assert forall|t: int| 0 <= t < updates.len() implies columns.contains(#[trigger] updates[t].column) by {
        assert(ids[t] == updates[t].column);
    }
    assert forall|c: usize| columns.contains(c) implies exists|t: int| 0 <= t < updates.len() && #[trigger] updates[t].column == c by {
        let t = choose|t: int| 0 <= t < ids.len() && ids[t] == c;
        assert(updates[t].column == c);
    }
    assert forall|t: int, u: int| 0 <= t < updates.len() && 0 <= u < updates.len() && t != u implies #[trigger] updates[t].column != #[trigger] updates[u].column by {
        assert(ids[t] == updates[t].column && ids[u] == updates[u].column);
    }
}

/// `row` with every display:none turned into hidden.
pub open spec fn revealed(row: Seq<Show>) -> Seq<Show> {
    Seq::new(row.len(), |i: int| if row[i] == Show::NoDisplay { Show::Hidden } else { row[i] })
}

/// Some line of `row` is display:none.
pub open spec fn has_no_display(row: Seq<Show>) -> bool {
    exists|i: int| 0 <= i < row.len() && row[i] == Show::NoDisplay
}

/// A filter without regex and with every level switched on lets every line through; this is
/// how a new column shows the whole text.
pub proof fn lemma_open_filter_shows_all(lines: Seq<Entry>, filter: Filter)
    requires
        filter.regex is None,
        filter.trace && filter.debug && filter.info && filter.warn && filter.error,
    ensures
        forall|i: int| 0 <= i < lines.len() ==> #[trigger] lines[i].shown_by(&filter),
{
    assert forall|i: int| 0 <= i < lines.len() implies #[trigger] lines[i].shown_by(&filter) by {
        match lines[i] {
            Entry::Plain(e) => {},
            Entry::Json(e) => {},
        }
    }
}

/// The columns of the set, each once.
fn collect_columns(columns: &HashSet<usize>) -> (res: Vec<usize>)
    ensures
        res@.to_set() == columns@,
        res@.no_duplicates(),
{
    let mut out: Vec<usize> = Vec::new();
    let it0 = columns.iter();
    for k in it: it0
        invariant
            out@ == it.seq().take(it.index() as int).unref(),
            it.seq() == vstd::std_specs::hash::spec_hash_keys_iter(columns).remaining(),
    {
        out.push(*k);
        assert(it.seq().take(it.index() + 1 as int).unref() =~= it.seq().take(it.index() as int).unref().push(*k));
    }
    assert(out@ =~= vstd::std_specs::hash::spec_hash_keys_iter(columns).remaining().unref());
    out
}

/// A copy of a row.
fn copy_row(row: &Vec<Show>) -> (res: Vec<Show>)
    ensures
        res@ == row@,
{
    let mut out: Vec<Show> = Vec::new();
    let mut i: usize = 0;
    while i < row.len()
        invariant
            i <= row@.len(),
            out@ == row@.take(i as int),
        decreases row@.len() - i,
    {
        out.push(row[i]);
        i += 1;
        assert(out@ =~= row@.take(i as int));
    }
    assert(out@ =~= row@);
    out
}

/// An update for one column.
pub struct ColumnUpdate {
    pub column: usize,
    pub update: Update,
}

/// `u` hands the column `col` the text block when `block`, its current row of `show` (or
/// none when it has no row), and the text format.
pub open spec fn carries_row(u: Update, show: Map<usize, Vec<Show>>, col: usize, block: bool, format: TextFormat) -> bool {
    &&& u.block == block
    &&& u.format == format
    &&& match u.filter {
        Some(r) => show.contains_key(col) && r@ == show[col]@,
        None => !show.contains_key(col),
    }
}

/// `updates` holds exactly one update for each column of `columns`.
pub open spec fn one_per_column(updates: Seq<ColumnUpdate>, columns: Set<usize>) -> bool {
    &&& forall|t: int| 0 <= t < updates.len() ==> columns.contains(#[trigger] updates[t].column)
    &&& forall|c: usize| columns.contains(c) ==> exists|t: int| 0 <= t < updates.len() && #[trigger] updates[t].column == c
    &&& forall|t: int, u: int| 0 <= t < updates.len() && 0 <= u < updates.len() && t != u ==> #[trigger] updates[t].column != #[trigger] updates[u].column
}

/// A new log text.
pub struct SetText {
    pub text: String,
}

/// The line `l` is JSON and a log record this viewer understands.
pub open spec fn json_line(l: Seq<char>) -> bool {
    parsed_json(l) matches Some(v) && is_log_record(v)
}

/// `es` are the JSON log records of the lines of `text`.
pub open spec fn json_entries_of(es: Seq<Entry>, text: Seq<char>) -> bool {
    &&& es.len() == text_lines(text).len()
    &&& forall|i: int| 0 <= i < es.len() ==> match #[trigger] es[i] {
        Entry::Json(e) => parsed_json(text_lines(text)[i]) matches Some(v) && e.made_from(text_lines(text)[i], v),
        Entry::Plain(_) => false,
    }
}

/// `es` are the plain lines of `text`.
pub open spec fn plain_entries_of(es: Seq<Entry>, text: Seq<char>) -> bool {
    &&& es.len() == text_lines(text).len()
    &&& forall|i: int| 0 <= i < es.len() ==> match #[trigger] es[i] {
        Entry::Plain(e) => e.txt@ == text_lines(text)[i] && e.lvl == plain_level(text_lines(text)[i]),
        Entry::Json(_) => false,
    }
}

/// Every line of `text` is a JSON log record.
pub open spec fn all_json(text: Seq<char>) -> bool {
    forall|i: int| 0 <= i < text_lines(text).len() ==> #[trigger] json_line(text_lines(text)[i])
}

/// The lines of `text` as plain entries.
fn plain_lines(text: &str) -> (res: Vec<Entry>)
    ensures
        plain_entries_of(res@, text@),
{
    let ls = lines(text);
    let mut out: Vec<Entry> = Vec::new();
    let mut i: usize = 0;
    while i < ls.len()
        invariant
            i <= ls@.len(),
            ls@.len() == text_lines(text@).len(),
            forall|t: int| 0 <= t < ls@.len() ==> #[trigger] ls@[t]@ == text_lines(text@)[t],
            out@.len() == i,
            forall|t: int| 0 <= t < i ==> match #[trigger] out@[t] {
                Entry::Plain(e) => e.txt@ == text_lines(text@)[t] && e.lvl == plain_level(text_lines(text@)[t]),
                Entry::Json(_) => false,
            },
        decreases ls@.len() - i,
    {
        let e = PlainEntry::new(ls[i].clone());
        out.push(Entry::Plain(e));
        i += 1;
    }
    out
}

/// `el` is `shown` with the element id `e<i>` added to its attributes.
pub open spec fn with_entry_id(shown: ElementV, el: ElementV, i: int) -> bool {
    el == ElementV { attributes: shown.attributes.push(("id"@, "e"@ + decimal(i as nat))), ..shown }
}

/// `child` is the element of `line` (line `i` of the text) with its element id.
pub open spec fn entry_child(line: Entry, child: ElementV, i: int) -> bool {
    with_entry_id(line.html_view(), child, i)
}

/// `block` is the log view of `lines`: a `div` of class `logview` holding the element of
/// each line, with id `e<i>` for line `i`.
pub open spec fn is_log_view(block: ElementV, lines: Seq<Entry>) -> bool {
    &&& block.tag == "div"@
    &&& block.classes == seq!["logview"@]
    &&& block.attributes.len() == 0
    &&& block.text is None
    &&& block.children.len() == lines.len()
    &&& forall|i: int| 0 <= i < lines.len() ==> #[trigger] entry_child(lines[i], block.children[i], i)
}

/// Every line of a plain text can be shown, an empty line included: a plain text has one
/// element per line in its log view.
pub proof fn lemma_plain_text_renders(es: Seq<Entry>, text: Seq<char>)
    requires
        plain_entries_of(es, text),
    ensures
        es.len() == text_lines(text).len(),
        forall|i: int| 0 <= i < es.len() ==> #[trigger] es[i].renders(),
{
    assert forall|i: int| 0 <= i < es.len() implies #[trigger] es[i].renders() by {
        match es[i] {
            Entry::Plain(_) => {},
            Entry::Json(_) => {},
        }
    }
}

/// In the log view the element of line `i` gets the id `e<i>` (the decimal notation of `i`),
/// so no two lines share an id.
pub proof fn lemma_log_view_ids(block: ElementV, lines: Seq<Entry>)
    requires
        is_log_view(block, lines),
    ensures
        forall|i: int| 0 <= i < lines.len() ==> #[trigger] block.children[i].attributes.last() == ("id"@, "e"@ + decimal(i as nat)),
        forall|i: int, j: int| 0 <= i < j < lines.len()
            ==> #[trigger] block.children[i].attributes.last() != #[trigger] block.children[j].attributes.last(),
{
    reveal_strlit("e");
    assert forall|i: int| 0 <= i < lines.len() implies #[trigger] block.children[i].attributes.last() == ("id"@, "e"@ + decimal(i as nat)) by {
        assert(entry_child(lines[i], block.children[i], i));
    }
    assert forall|i: int, j: int| 0 <= i < j < lines.len()
        implies #[trigger] block.children[i].attributes.last() != #[trigger] block.children[j].attributes.last() by {
        assert(entry_child(lines[i], block.children[i], i));
        assert(entry_child(lines[j], block.children[j], j));
        let a = "e"@ + decimal(i as nat);
        let b = "e"@ + decimal(j as nat);
        assert(a.skip(1) =~= decimal(i as nat));
        assert(b.skip(1) =~= decimal(j as nat));
        crate::text::lemma_decimal_injective(i as nat, j as nat);
    }
}

/// The brains of the application: keeps, for each column with a filter, whether each line
/// is shown, hidden (keeps its space) or not displayed at all (no column shows it).
pub struct Control {
    pub lines: Option<Vec<Entry>>,
    pub format: Option<crate::entry::TextFormat>,
    pub show: HashMap<usize, Vec<Show>>,
    pub columns: HashSet<usize>,
    pub filters: HashMap<usize, Filter>,
}

impl Control {
    /// Every column has a filter.
    pub open spec fn all_filtered(&self) -> bool {
        self.columns@ == self.filters@.dom()
    }

    /// The invariant that keeps the operations from failing: a format exactly when there is
    /// text, filters keyed by their ids, only for known columns, rows only for filtered
    /// columns, one entry per line, visible exactly where the line passes the filter.
    pub open spec fn wf(&self) -> bool {
        &&& self.lines.is_some() == self.format.is_some()
        &&& forall|k: usize| #[trigger] self.filters@.contains_key(k) ==> self.filters@[k].id == k
        &&& self.filters@.dom().subset_of(self.columns@)
        &&& self.show@.dom().subset_of(self.filters@.dom())
        &&& match self.lines {
            None => self.show@.dom().is_empty(),
            Some(v) => rows_have_len(self.show@, v@.len()) && visible_rows_match(self.show@, v@, self.filters@),
        }
    }

    /// Every row says what the rules prescribe (there are rows only once there is text).
    pub open spec fn coherent(&self) -> bool {
        match self.lines {
            None => true,
            Some(v) => is_canonical(self.show@, v@, self.filters@, self.all_filtered()),
        }
    }

    /// No text, no columns, no filters.
    pub fn new() -> (res: Self)
        ensures
            res.wf(),
            res.coherent(),
            res.lines is None,
            res.format is None,
            res.show@.is_empty(),
            res.columns@.is_empty(),
            res.filters@.is_empty(),
    {
        Control {
            lines: None,
            format: None,
            show: HashMap::new(),
            columns: HashSet::new(),
            filters: HashMap::new(),
        }
    }

    /// Whether there are as many filters as columns: that is, whether every column has a
    /// filter, as long as filters are kept only for known columns.
    pub fn all_have_filters(&self) -> (res: bool)
        ensures
            res == (self.columns@.len() == self.filters@.len()),
            self.filters@.dom().subset_of(self.columns@) ==> res == self.all_filtered(),
    {
        let cols = collect_columns(&self.columns);
        proof {
            cols@.unique_seq_to_set();
            vstd::seq_lib::seq_to_set_is_finite(cols@);
        }
        let res = self.columns.len() == self.filters.len();
        proof {
            if self.filters@.dom().subset_of(self.columns@) {
                vstd::set_lib::lemma_len_subset(self.filters@.dom(), self.columns@);
                if res {
                    vstd::set_lib::lemma_subset_equality(self.filters@.dom(), self.columns@);
                }
            }
        }
        res
    }

    /// Reapply the filter of every column, then hand every column the text block (when there
    /// is text) and its row.
    fn update_all(&mut self) -> (res: Vec<ColumnUpdate>)
        requires
            old(self).wf(),
            old(self).format is Some || old(self).columns@.is_empty(),
        ensures
            final(self).wf(),
            final(self).coherent(),
            final(self).lines == old(self).lines,
            final(self).format == old(self).format,
            final(self).columns@ == old(self).columns@,
            final(self).filters@ == old(self).filters@,
            final(self).lines is None ==> final(self).show@ == old(self).show@,
            one_per_column(res@, final(self).columns@),
            forall|t: int| 0 <= t < res@.len() ==> #[trigger] carries_row(
                res@[t].update,
                final(self).show@,
                res@[t].column,
                final(self).lines is Some,
                final(self).format.unwrap(),
            ),
    {
        let all = self.all_have_filters();
        let cols = collect_columns(&self.columns);
        let ghost old_show = self.show@;
        let ghost mut done: Set<usize> = Set::empty();
        let mut j: usize = 0;
        while j < cols.len()
            invariant
                j <= cols@.len(),
                cols@.to_set() == self.columns@,
                cols@.no_duplicates(),
                self.wf(),
                all == self.all_filtered(),
                self.lines == old(self).lines,
                self.format == old(self).format,
                self.columns@ == old(self).columns@,
                self.filters@ == old(self).filters@,
                done == cols@.take(j as int).to_set().intersect(self.filters@.dom()),
                self.lines is None ==> self.show@ == old_show,
                self.lines matches Some(v) ==> reapplied(self.show@, v@, self.filters@, all, done),
            decreases cols@.len() - j,
        {
            let c = cols[j];
            proof {
                assert(cols@.take(j + 1 as int) =~= cols@.take(j as int).push(c));
                cols@.take(j as int).lemma_push_to_set_commute(c);
                assert(!cols@.take(j as int).contains(c)) by {
                    if cols@.take(j as int).contains(c) {
                        let t = choose|t: int| 0 <= t < j && cols@.take(j as int)[t] == c;
                        assert(cols@[t] == cols@[j as int]);
                    }
                }
            }
            if self.filters.contains_key(&c) {
                let mut f = self.filters.get(&c).unwrap().clone();
                let ghost before = self.show@;
                let _ = Self::filter(&mut self.lines, &mut self.show, &mut f, all);
                proof {
                    if let Some(v) = &self.lines {
                        lemma_same_filter_same_matches(v@, &f, &self.filters@[c]);
                        lemma_reapply_step(before, self.show@, v@, self.filters@, all, done, c);
                    }
                    done = done.insert(c);
                    assert(done =~= cols@.take(j + 1 as int).to_set().intersect(self.filters@.dom()));
                }
            } else {
                proof {
                    assert(done =~= cols@.take(j + 1 as int).to_set().intersect(self.filters@.dom()));
                }
            }
            j += 1;
        }
        proof {
            assert(cols@.take(cols@.len() as int) =~= cols@);
            assert(done =~= self.filters@.dom());
            if let Some(v) = &self.lines {
                lemma_reapplied_canonical(self.show@, v@, self.filters@, all);
            }
        }
        let mut res: Vec<ColumnUpdate> = Vec::new();
        let mut j: usize = 0;
        while j < cols.len()
            invariant
                j <= cols@.len(),
                cols@.to_set() == self.columns@,
                cols@.no_duplicates(),
                self.format is Some || self.columns@.is_empty(),
                res@.len() == j,
                forall|t: int| 0 <= t < j ==> #[trigger] res@[t].column == cols@[t],
                forall|t: int| 0 <= t < j ==> #[trigger] carries_row(
                    res@[t].update,
                    self.show@,
                    res@[t].column,
                    self.lines is Some,
                    self.format.unwrap(),
                ),
            decreases cols@.len() - j,
        {
            let c = cols[j];
            proof {
                assert(self.columns@.contains(c));
            }
            let filter = match self.show.get(&c) {
                Some(r) => Some(copy_row(r)),
                None => None,
            };
            let format = self.format.unwrap();
            res.push(ColumnUpdate { column: c, update: Update { block: self.lines.is_some(), filter, format } });
            j += 1;
        }
        proof {
            assert forall|c: usize| self.columns@.contains(c) implies exists|t: int| 0 <= t < res@.len() && #[trigger] res@[t].column == c by {
                assert(cols@.to_set().contains(c));
                let t = choose|t: int| 0 <= t < cols@.len() && cols@[t] == c;
                assert(res@[t].column == c);
            }
            assert forall|t: int| 0 <= t < res@.len() implies self.columns@.contains(#[trigger] res@[t].column) by {
                assert(cols@.to_set().contains(cols@[t]));
            }
        }
        res
    }

    /// One update for each column but `skip`, handing it its row of `show` and no text block.
    fn updates_except(&self, skip: usize) -> (res: Vec<ColumnUpdate>)
        requires
            self.format is Some,
        ensures
            one_per_column(res@, self.columns@.remove(skip)),
            forall|t: int| 0 <= t < res@.len() ==> #[trigger] carries_row(
                res@[t].update,
                self.show@,
                res@[t].column,
                false,
                self.format.unwrap(),
            ),
    {
        let cols = collect_columns(&self.columns);
        let mut res: Vec<ColumnUpdate> = Vec::new();
        let mut j: usize = 0;
        while j < cols.len()
            invariant
                j <= cols@.len(),
                cols@.to_set() == self.columns@,
                cols@.no_duplicates(),
                self.format is Some,
                column_ids(res@).no_duplicates(),
                column_ids(res@).to_set() == cols@.take(j as int).to_set().remove(skip),
                forall|t: int| 0 <= t < res@.len() ==> #[trigger] carries_row(
                    res@[t].update,
                    self.show@,
                    res@[t].column,
                    false,
                    self.format.unwrap(),
                ),
            decreases cols@.len() - j,
        {
            let c = cols[j];
            proof {
                assert(cols@.take(j + 1 as int) =~= cols@.take(j as int).push(c));
                cols@.take(j as int).lemma_push_to_set_commute(c);
                assert(!cols@.take(j as int).contains(c)) by {
                    if cols@.take(j as int).contains(c) {
                        let t = choose|t: int| 0 <= t < j && cols@.take(j as int)[t] == c;
                        assert(cols@[t] == cols@[j as int]);
                    }
                }
            }
            if c != skip {
                let filter = match self.show.get(&c) {
                    Some(r) => Some(copy_row(r)),
                    None => None,
                };
                let ghost old_res = res@;
                res.push(ColumnUpdate { column: c, update: Update { block: false, filter, format: self.format.unwrap() } });
                proof {
                    assert(column_ids(res@) =~= column_ids(old_res).push(c));
                    column_ids(old_res).lemma_push_to_set_commute(c);
                    assert(!column_ids(old_res).contains(c)) by {
                        if column_ids(old_res).contains(c) {
                            assert(column_ids(old_res).to_set().contains(c));
                        }
                    }
                    assert(column_ids(res@).to_set() =~= cols@.take(j + 1 as int).to_set().remove(skip));
                }
            } else {
                proof {
                    assert(column_ids(res@).to_set() =~= cols@.take(j + 1 as int).to_set().remove(skip));
                }
            }
            j += 1;
        }
        proof {
            assert(cols@.take(cols@.len() as int) =~= cols@);
            lemma_ids_one_per_column(res@, self.columns@.remove(skip));
        }
        res
    }

    /// A column's filter changed: remember it, recompute its row, and tell the column (when
    /// there is text) and, when that changed what other columns show, the other columns.
    pub fn on_filter(&mut self, msg: Filter) -> (res: Vec<ColumnUpdate>)
        requires
            old(self).wf(),
            old(self).columns@.contains(msg.id),
        ensures
            final(self).wf(),
            final(self).lines == old(self).lines,
            final(self).format == old(self).format,
            final(self).columns@ == old(self).columns@,
            final(self).filters@.dom() == old(self).filters@.dom().insert(msg.id),
            final(self).filters@[msg.id].same_as(&msg),
            forall|k: usize| #[trigger] old(self).filters@.contains_key(k) && k != msg.id ==> final(self).filters@[k] == old(self).filters@[k],
            old(self).lines is None ==> final(self).show@ == old(self).show@ && res@.len() == 0,
            old(self).lines matches Some(v) ==> {
                let m = line_matches(v@, &msg);
                let all = final(self).all_filtered();
                &&& filtered(old(self).show@, final(self).show@, m, msg.id, all)
                &&& res@.len() >= 1
                &&& res@[0].column == msg.id
                &&& carries_row(res@[0].update, final(self).show@, msg.id, false, final(self).format.unwrap())
                &&& others_change(old(self).show@, m, msg.id, all) ==> {
                    &&& one_per_column(res@.drop_first(), final(self).columns@.remove(msg.id))
                    &&& forall|t: int| 0 <= t < res@.len() - 1 ==> #[trigger] carries_row(
                        res@.drop_first()[t].update,
                        final(self).show@,
                        res@.drop_first()[t].column,
                        false,
                        final(self).format.unwrap(),
                    )
                }
                &&& !others_change(old(self).show@, m, msg.id, all) ==> res@.len() == 1
            },
            old(self).coherent() ==> final(self).coherent(),
    {
        let id = msg.id;
        let mut msg = msg;
        let ghost old_filters = self.filters@;
        let ghost old_show = self.show@;
        let ghost all_before = self.all_filtered();
        let stored = msg.clone();
        self.filters.insert(id, stored);
        let all = self.all_have_filters();
        let ghost msg0 = msg;
        let changed = Self::filter(&mut self.lines, &mut self.show, &mut msg, all);
        proof {
            if let Some(v) = &self.lines {
                lemma_same_filter_same_matches(v@, &msg0, &stored);
                lemma_filtered_wf(old_show, self.show@, v@, old_filters, stored, all);
                assert(old_filters.insert(id, stored) =~= self.filters@);
                if all_before {
                    assert(self.columns@ =~= self.filters@.dom());
                }
                if is_canonical(old_show, v@, old_filters, all_before) {
                    lemma_filter_keeps_canonical(old_show, self.show@, v@, old_filters, stored, all_before, all);
                }
            }
        }
        let mut res: Vec<ColumnUpdate> = Vec::new();
        if self.lines.is_some() {
            let row = copy_row(self.show.get(&id).unwrap());
            res.push(ColumnUpdate { column: id, update: Update { block: false, filter: Some(row), format: self.format.unwrap() } });
            if changed.len() > 0 {
                let mut others = self.updates_except(id);
                let ghost first = res@;
                let ghost others0 = others@;
                res.append(&mut others);
                proof {
                    assert(res@.drop_first() =~= others0);
                }
            }
        }
        res
    }

    /// A column was deleted: forget it, reapply all filters and update the other columns.
    pub fn on_del_column(&mut self, msg: DelColumn) -> (res: Vec<ColumnUpdate>)
        requires
            old(self).wf(),
            old(self).format is Some || old(self).columns@.remove(msg.id).is_empty(),
        ensures
            final(self).wf(),
            final(self).coherent(),
            final(self).lines == old(self).lines,
            final(self).format == old(self).format,
            final(self).columns@ == old(self).columns@.remove(msg.id),
            final(self).filters@ == old(self).filters@.remove(msg.id),
            final(self).lines is None ==> final(self).show@ == old(self).show@.remove(msg.id),
            one_per_column(res@, final(self).columns@),
            forall|t: int| 0 <= t < res@.len() ==> #[trigger] carries_row(
                res@[t].update,
                final(self).show@,
                res@[t].column,
                final(self).lines is Some,
                final(self).format.unwrap(),
            ),
    {
        let _ = self.columns.remove(&msg.id);
        let _ = self.show.remove(&msg.id);
        let _ = self.filters.remove(&msg.id);
        proof {
            assert(self.filters@.dom().subset_of(self.columns@));
            assert(self.show@.dom().subset_of(self.filters@.dom()));
            if let Some(v) = &self.lines {
                assert forall|k: usize, i: int|
                    #![trigger self.show@[k]@[i]]
                    self.show@.contains_key(k) && 0 <= i < v@.len() implies (self.show@[k]@[i] == Show::Visible) == v@[i].shown_by(&self.filters@[k]) by {
                    assert(old(self).show@.contains_key(k));
                }
            } else {
                assert(self.show@.dom() =~= Set::empty());
            }
        }
        self.update_all()
    }

    /// A new column registers. As it shows every line, nothing may be display:none any more;
    /// when there is text the new column gets the text block (and no row: it has no filter).
    pub fn on_init_column(&mut self, msg: InitColumn) -> (res: Vec<ColumnUpdate>)
        requires
            old(self).wf(),
        ensures
            final(self).wf(),
            final(self).lines == old(self).lines,
            final(self).format == old(self).format,
            final(self).filters@ == old(self).filters@,
            final(self).columns@ == old(self).columns@.insert(msg.0),
            final(self).show@.dom() == old(self).show@.dom(),
            old(self).lines is None ==> final(self).show@ == old(self).show@ && res@.len() == 0,
            old(self).lines is Some ==> {
                &&& forall|k: usize| #[trigger] old(self).show@.contains_key(k) ==> final(self).show@[k]@ == revealed(old(self).show@[k]@)
                &&& forall|k: usize, i: int| final(self).show@.contains_key(k) && 0 <= i < final(self).show@[k]@.len()
                    ==> #[trigger] final(self).show@[k]@[i] != Show::NoDisplay
                &&& res@.len() >= 1
                &&& res@.last().column == msg.0
                &&& res@.last().update.block
                &&& res@.last().update.filter is None
                &&& res@.last().update.format == final(self).format.unwrap()
                &&& one_per_column(res@.drop_last(), old(self).show@.dom().filter(|k: usize| has_no_display(old(self).show@[k]@)))
                &&& forall|t: int| 0 <= t < res@.len() - 1 ==> #[trigger] carries_row(
                    res@.drop_last()[t].update,
                    final(self).show@,
                    res@.drop_last()[t].column,
                    false,
                    final(self).format.unwrap(),
                )
            },
            old(self).coherent() && !old(self).columns@.contains(msg.0) ==> final(self).coherent(),
    {
        let id = msg.0;
        let mut res: Vec<ColumnUpdate> = Vec::new();
        if self.lines.is_some() {
            let cols = collect_columns(&self.columns);
            let ghost old_show = self.show@;
            let ghost wanted = old_show.dom().filter(|k: usize| has_no_display(old_show[k]@));
            let mut j: usize = 0;
            while j < cols.len()
                invariant
                    j <= cols@.len(),
                    cols@.to_set() == self.columns@,
                    cols@.no_duplicates(),
                    self.columns@ == old(self).columns@,
                    self.lines == old(self).lines,
                    self.format == old(self).format,
                    self.filters@ == old(self).filters@,
                    self.lines is Some,
                    self.format is Some,
                    old_show == old(self).show@,
                    old_show.dom().subset_of(self.columns@),
                    wanted == old_show.dom().filter(|k: usize| has_no_display(old_show[k]@)),
                    self.show@.dom() == old_show.dom(),
                    forall|u: int| 0 <= u < j && old_show.contains_key(cols@[u]) ==> #[trigger] self.show@[cols@[u]]@ == revealed(old_show[cols@[u]]@),
                    forall|u: int| j <= u < cols@.len() && old_show.contains_key(cols@[u]) ==> #[trigger] self.show@[cols@[u]] == old_show[cols@[u]],
                    column_ids(res@).no_duplicates(),
                    column_ids(res@).to_set() == cols@.take(j as int).to_set().intersect(wanted),
                    forall|t: int| 0 <= t < res@.len() ==> #[trigger] carries_row(
                        res@[t].update,
                        self.show@,
                        res@[t].column,
                        false,
                        self.format.unwrap(),
                    ),
                decreases cols@.len() - j,
            {
                let c = cols[j];
                proof {
                    assert(cols@.take(j + 1 as int) =~= cols@.take(j as int).push(c));
                    cols@.take(j as int).lemma_push_to_set_commute(c);
                    assert(!cols@.take(j as int).contains(c)) by {
                        if cols@.take(j as int).contains(c) {
                            let t = choose|t: int| 0 <= t < j && cols@.take(j as int)[t] == c;
                            assert(cols@[t] == cols@[j as int]);
                        }
                    }
                }
                if self.show.contains_key(&c) {
                    let row = self.show.get(&c).unwrap();
                    let mut new_row: Vec<Show> = Vec::new();
                    let mut changed = false;
                    let mut i: usize = 0;
                    while i < row.len()
                        invariant
                            i <= row@.len(),
                            new_row@ == revealed(row@).take(i as int),
                            changed == exists|t: int| 0 <= t < i && row@[t] == Show::NoDisplay,
                        decreases row@.len() - i,
                    {
                        if row[i] == Show::NoDisplay {
                            new_row.push(Show::Hidden);
                            changed = true;
                        } else {
                            new_row.push(row[i]);
                        }
                        i += 1;
                        assert(new_row@ =~= revealed(row@).take(i as int));
                    }
                    assert(new_row@ =~= revealed(row@));
                    let ghost before_res = res@;
                    let ghost before_show = self.show@;
                    if changed {
                        let row_copy = copy_row(&new_row);
                        self.show.insert(c, new_row);
                        res.push(ColumnUpdate { column: c, update: Update { block: false, filter: Some(row_copy), format: self.format.unwrap() } });
                        proof {
                            assert(wanted.contains(c));
                            assert(column_ids(res@) =~= column_ids(before_res).push(c));
                            column_ids(before_res).lemma_push_to_set_commute(c);
                            assert(!column_ids(before_res).contains(c)) by {
                                if column_ids(before_res).contains(c) {
                                    assert(column_ids(before_res).to_set().contains(c));
                                }
                            }
                            assert(column_ids(res@).to_set() =~= cols@.take(j + 1 as int).to_set().intersect(wanted));
                            assert forall|t: int| 0 <= t < res@.len() implies #[trigger] carries_row(
                                res@[t].update,
                                self.show@,
                                res@[t].column,
                                false,
                                self.format.unwrap(),
                            ) by {
                                if t < before_res.len() {
                                    assert(column_ids(before_res)[t] == before_res[t].column);
                                    assert(before_res[t].column != c);
                                    assert(carries_row(before_res[t].update, before_show, before_res[t].column, false, self.format.unwrap()));
                                }
                            }
                        }
                    } else {
                        proof {
                            assert(!wanted.contains(c));
                            assert(revealed(row@) =~= row@);
                            assert(column_ids(res@).to_set() =~= cols@.take(j + 1 as int).to_set().intersect(wanted));
                        }
                    }
                    proof {
                        assert forall|u: int| j + 1 <= u < cols@.len() && old_show.contains_key(cols@[u]) implies #[trigger] self.show@[cols@[u]] == old_show[cols@[u]] by {
                            assert(cols@[u] != cols@[j as int]);
                        }
                        assert forall|u: int| 0 <= u < j + 1 && old_show.contains_key(cols@[u]) implies #[trigger] self.show@[cols@[u]]@ == revealed(old_show[cols@[u]]@) by {
                            if u < j {
                                assert(cols@[u] != cols@[j as int]);
                            }
                        }
                        assert(self.show@.dom() =~= old_show.dom());
                    }
                } else {
                    proof {
                        assert(!wanted.contains(c));
                        assert(column_ids(res@).to_set() =~= cols@.take(j + 1 as int).to_set().intersect(wanted));
                    }
                }
                j += 1;
            }
            proof {
                assert(cols@.take(cols@.len() as int) =~= cols@);
                assert(cols@.to_set().intersect(wanted) =~= wanted);
                lemma_ids_one_per_column(res@, wanted);
                assert forall|k: usize| #[trigger] old_show.contains_key(k) implies self.show@[k]@ == revealed(old_show[k]@) by {
                    assert(cols@.to_set().contains(k));
                    let u = choose|u: int| 0 <= u < cols@.len() && cols@[u] == k;
                    assert(self.show@[cols@[u]]@ == revealed(old_show[cols@[u]]@));
                }
            }
            let ghost before_last = res@;
            res.push(ColumnUpdate { column: id, update: Update { block: true, filter: None, format: self.format.unwrap() } });
            proof {
                assert(res@.drop_last() =~= before_last);
            }
        }
        self.columns.insert(id);
        proof {
            if let Some(v) = &self.lines {
                let old_show = old(self).show@;
                assert forall|k: usize| #[trigger] self.show@.contains_key(k) implies self.show@[k]@.len() == v@.len() by {
                    assert(old_show.contains_key(k));
                }
                assert forall|k: usize, i: int|
                    #![trigger self.show@[k]@[i]]
                    self.show@.contains_key(k) && 0 <= i < v@.len() implies (self.show@[k]@[i] == Show::Visible) == v@[i].shown_by(&self.filters@[k]) by {
                    assert(old_show.contains_key(k));
                    assert((old_show[k]@[i] == Show::Visible) == v@[i].shown_by(&self.filters@[k]));
                }
                if old(self).coherent() && !old(self).columns@.contains(id) {
                    let all_old = old(self).all_filtered();
                    assert(!self.all_filtered()) by {
                        assert(!self.filters@.dom().contains(id));
                        assert(self.columns@.contains(id));
                    }
                    assert forall|k: usize| #[trigger] self.show@.contains_key(k) implies self.show@[k]@ == Seq::new(
                        v@.len(),
                        |i: int| canonical_show(v@, self.filters@, false, k, i),
                    ) by {
                        assert(old_show.contains_key(k));
                        assert(old_show[k]@ == Seq::new(v@.len(), |i: int| canonical_show(v@, self.filters@, all_old, k, i)));
                        assert(self.show@[k]@ =~= Seq::new(v@.len(), |i: int| canonical_show(v@, self.filters@, false, k, i)));
                    }
                }
            }
        }
        res
    }

    /// The columns that a request to expand or fold an entry is passed on to: all of them.
    pub fn on_toggle_entry(&self, msg: &ToggleEntry) -> (res: Vec<usize>)
        ensures
            res@.no_duplicates(),
            res@.to_set() == self.columns@,
    {
        collect_columns(&self.columns)
    }

    /// Build the log view of the text, `None` when some line cannot be shown.
    pub fn render_block(&self) -> (res: Option<Element>)
        requires
            self.lines is Some,
        ensures
            res is Some <==> forall|i: int| 0 <= i < self.lines.unwrap()@.len() ==> #[trigger] self.lines.unwrap()@[i].renders(),
            res matches Some(b) ==> is_log_view(b@, self.lines.unwrap()@),
    {
        let lines = self.lines.as_ref().unwrap();
        assert(*lines == self.lines.unwrap());
        let mut children: Vec<Element> = Vec::new();
        let mut i: usize = 0;
        while i < lines.len()
            invariant
                i <= lines@.len(),
                children@.len() == i,
                forall|t: int| 0 <= t < i ==> #[trigger] lines@[t].renders(),
                forall|t: int| 0 <= t < i ==> #[trigger] entry_child(lines@[t], children@[t]@, t),
                *lines == self.lines.unwrap(),
            decreases lines@.len() - i,
        {
            if !lines[i].can_render() {
                assert(!self.lines.unwrap()@[i as int].renders());
                return None;
            }
            let mut el = lines[i].html();
            let ghost shown = el@;
            let mut id = "e".to_string();
            write_decimal(i as u64, &mut id);
            el.attributes.push(("id".to_string(), id));
            proof {
                assert(attributes_view(el.attributes@) =~= shown.attributes.push(("id"@, "e"@ + decimal(i as nat))));
                assert(el@ =~~= ElementV { attributes: shown.attributes.push(("id"@, "e"@ + decimal(i as nat))), ..shown });
                assert(with_entry_id(shown, el@, i as int));
                assert(entry_child(lines@[i as int], el@, i as int));
            }
            children.push(el);
            i += 1;
        }
        let block = Element::new("div", vec!["logview".to_string()], Vec::new(), None, children);
        proof {
            assert(block@.classes =~= seq!["logview"@]);
            assert forall|t: int| 0 <= t < lines@.len() implies #[trigger] entry_child(lines@[t], block@.children[t], t) by {
                assert(block@.children[t] == children@[t]@);
                assert(entry_child(lines@[t], children@[t]@, t));
            }
        }
        Some(block)
    }

    /// Read every line of `text` as a JSON log record; `Err` when some line is not JSON or not
    /// a record this viewer understands.
    pub fn try_json(text: &str) -> (res: Result<Vec<Entry>, ()>)
        ensures
            res is Ok <==> all_json(text@),
            res matches Ok(es) ==> json_entries_of(es@, text@),
    {
        let ls = lines(text);
        let mut out: Vec<Entry> = Vec::new();
        let mut i: usize = 0;
        while i < ls.len()
            invariant
                i <= ls@.len(),
                ls@.len() == text_lines(text@).len(),
                forall|t: int| 0 <= t < ls@.len() ==> #[trigger] ls@[t]@ == text_lines(text@)[t],
                out@.len() == i,
                forall|t: int| 0 <= t < i ==> #[trigger] json_line(text_lines(text@)[t]),
                forall|t: int| 0 <= t < i ==> match #[trigger] out@[t] {
                    Entry::Json(e) => parsed_json(text_lines(text@)[t]) matches Some(v) && e.made_from(text_lines(text@)[t], v),
                    Entry::Plain(_) => false,
                },
            decreases ls@.len() - i,
        {
            let line = &ls[i];
            assert(line@ == text_lines(text@)[i as int]);
            match crate::json::parse_value(line.as_str()) {
                Err(_) => {
                    assert(!json_line(text_lines(text@)[i as int]));
                    return Err(());
                },
                Ok(v) => {
                    if JsonEntry::from_value(line.clone(), v).is_none() {
                        assert(!json_line(text_lines(text@)[i as int]));
                        return Err(());
                    }
                },
            }
            let e = JsonEntry::new(line.clone());
            out.push(Entry::Json(e.unwrap()));
            i += 1;
        }
        Ok(out)
    }

    /// A new text: read it as JSON records if every line is one, as plain lines otherwise;
    /// forget all rows, reapply every filter and hand every column the new text.
    pub fn on_set_text(&mut self, msg: SetText) -> (res: Vec<ColumnUpdate>)
        requires
            old(self).wf(),
        ensures
            final(self).wf(),
            final(self).coherent(),
            final(self).columns@ == old(self).columns@,
            final(self).filters@ == old(self).filters@,
            final(self).format == Some(if all_json(msg.text@) { TextFormat::Json } else { TextFormat::Plain }),
            final(self).lines matches Some(es) && if all_json(msg.text@) {
                json_entries_of(es@, msg.text@)
            } else {
                plain_entries_of(es@, msg.text@)
            },
            one_per_column(res@, final(self).columns@),
            forall|t: int| 0 <= t < res@.len() ==> #[trigger] carries_row(
                res@[t].update,
                final(self).show@,
                res@[t].column,
                true,
                final(self).format.unwrap(),
            ),
    {
        match Self::try_json(msg.text.as_str()) {
            Ok(es) => {
                self.format = Some(TextFormat::Json);
                self.lines = Some(es);
            },
            Err(_) => {
                self.format = Some(TextFormat::Plain);
                self.lines = Some(plain_lines(msg.text.as_str()));
            },
        }
        self.show.clear();
        proof {
            assert(self.show@.dom() =~= Set::empty());
        }
        self.update_all()
    }

    /// Process a filter change. Returns the other columns that have to recalculate which lines
    /// are display: none and which are only hidden (those whose row changed).
    pub fn filter(
        lines: &mut Option<Vec<Entry>>,
        show: &mut HashMap<usize, Vec<Show>>,
        filter: &mut Filter,
        all_have_filters: bool,
    ) -> (changed: Vec<usize>)
        requires
            *old(lines) matches Some(v) ==> {
                &&& old(show)@.contains_key(old(filter).id) ==> old(show)@[old(filter).id]@.len() >= v@.len()
                &&& all_have_filters ==> rows_cover(old(show)@, v@.len())
            },
        ensures
            *final(lines) == *old(lines),
            *final(filter) == *old(filter),
            *old(lines) is None ==> final(show)@ == old(show)@ && changed@.len() == 0,
            *old(lines) matches Some(v) ==> {
                let m = line_matches(v@, old(filter));
                let id = old(filter).id;
                &&& refiltered(old(show)@, final(show)@, m, id, all_have_filters)
                &&& changed@.no_duplicates()
                &&& changed@.to_set() == changed_columns(old(show)@, final(show)@, id)
                &&& (changed@.len() > 0) == others_change(old(show)@, m, id, all_have_filters)
                &&& rows_have_len(old(show)@, v@.len()) ==> filtered(old(show)@, final(show)@, m, id, all_have_filters)
            },
    {
        let text: &Vec<Entry> = match &*lines {
            None => return Vec::new(),
            Some(v) => v,
        };
        let ghost before = show@;
        let n = text.len();
        let id = filter.id;
        let matches = compute_matches(text, filter);
        let ghost m = matches@;
        let old_row = show.remove(&id);
        let ghost others = show@;
        assert(others == before.remove(id));
        let keys = collect_keys(show);
        let mut elsewhere: Vec<bool> = Vec::new();
        if all_have_filters {
            elsewhere = visible_anywhere(show, &keys, n);
        } else {
            let mut i: usize = 0;
            while i < n
                invariant
                    i <= n,
                    elsewhere@.len() == i,
                decreases n - i,
            {
                elsewhere.push(false);
                i += 1;
            }
        }
        assert forall|i: int| 0 <= i < n && all_have_filters implies elsewhere@[i] == shown_elsewhere(before, id, i) by {
            if elsewhere@[i] {
                let k = choose|k: usize| others.contains_key(k) && #[trigger] others[k]@[i] == Show::Visible;
                assert(before.contains_key(k) && k != id && before[k]@[i] == Show::Visible);
            }
            if shown_elsewhere(before, id, i) {
                let k = choose|k: usize| before.contains_key(k) && k != id && #[trigger] before[k]@[i] == Show::Visible;
                assert(others.contains_key(k) && others[k]@[i] == Show::Visible);
            }
        }
        let mut vis: Vec<Show> = match old_row {
            Some(r) => r,
            None => vec![Show::Visible; n],
        };
        let ghost tail = vis@.skip(n as int);
        assert(vis@.len() >= n);
        let mut i: usize = 0;
        while i < n
            invariant
                i <= n,
                n == matches@.len(),
                elsewhere@.len() == n,
                vis@.len() >= n,
                vis@ == Seq::new(i as nat, |t: int| own_show(matches@[t], all_have_filters, elsewhere@[t])) + vis@.skip(i as int),
                vis@.skip(n as int) == tail,
            decreases n - i,
        {
            let ghost prev = vis@;
            vis.set(i, own_show_exec(matches[i], all_have_filters, elsewhere[i]));
            i += 1;
            assert(vis@ =~= Seq::new(i as nat, |t: int| own_show(matches@[t], all_have_filters, elsewhere@[t])) + vis@.skip(i as int)) by {
                assert forall|t: int| 0 <= t < i - 1 implies vis@[t] == prev[t] by {}
            }
            assert(vis@.skip(n as int) =~= prev.skip(n as int));
        }
        let mut changed: Vec<usize> = Vec::new();
        if all_have_filters {
            changed = update_other_rows(show, &keys, &matches, &elsewhere, true);
        }
        let ghost updated = show@;
        show.insert(id, vis);
        proof {
            let own = Seq::new(n as nat, |t: int| own_show(m[t], all_have_filters, shown_elsewhere(before, id, t)));
            assert(show@.dom() =~= before.dom().insert(id));
            assert(Seq::new(n as nat, |t: int| own_show(matches@[t], all_have_filters, elsewhere@[t])) =~= own) by {
                assert forall|t: int| 0 <= t < n implies own_show(matches@[t], all_have_filters, elsewhere@[t]) == own[t] by {
                    if all_have_filters {
                        assert(elsewhere@[t] == shown_elsewhere(before, id, t));
                    }
                }
            }
            if before.contains_key(id) {
                assert(tail == before[id]@.skip(n as int));
                assert(show@[id]@ =~= own_row(before, m, id, all_have_filters));
            } else {
                assert(tail.len() == 0);
                assert(show@[id]@ =~= own_row(before, m, id, all_have_filters));
            }
            assert forall|k: usize| #[trigger] before.contains_key(k) && k != id implies show@[k]@
                == other_row(before, m, id, all_have_filters, k) by {
                assert(others.contains_key(k));
                if all_have_filters {
                    assert(show@[k]@ == rewritten(others[k]@, matches@, true, elsewhere@));
                    assert(rewritten(others[k]@, matches@, true, elsewhere@) =~= other_row(before, m, id, all_have_filters, k)) by {
                        assert forall|t: int| 0 <= t < n implies elsewhere@[t] == shown_elsewhere(before, id, t) by {}
                    }
                }
            }
            // which columns changed
            assert forall|k: usize| #[trigger] before.contains_key(k) && k != id implies
                (show@[k]@ != before[k]@) == (all_have_filters && row_changes(others[k]@, matches@, true, elsewhere@)) by {
                if all_have_filters {
                    let r = before[k]@;
                    let a = show@[k]@;
                    assert(r.len() >= n);
                    assert(a == rewritten(r, matches@, true, elsewhere@));
                    if row_changes(r, matches@, true, elsewhere@) {
                        let t = choose|t: int| 0 <= t < matches@.len() && #[trigger] other_show(r[t], matches@[t], true, elsewhere@[t]) != r[t];
                        assert(a[t] != r[t]);
                    } else {
                        assert(a =~= r) by {
                            assert forall|t: int| 0 <= t < r.len() implies a[t] == r[t] by {
                                if t < n {
                                    if other_show(r[t], matches@[t], true, elsewhere@[t]) != r[t] {
                                        assert(row_changes(r, matches@, true, elsewhere@));
                                    }
                                }
                            }
                        }
                    }
                }
            }
            assert(changed@.to_set() =~= changed_columns(before, show@, id)) by {
                assert forall|k: usize| changed@.to_set().contains(k) <==> changed_columns(before, show@, id).contains(k) by {
                    if all_have_filters {
                        if changed@.contains(k) {
                            assert(others.contains_key(k));
                        }
                    } else {
                        if changed@.contains(k) {
                            assert(false);
                        }
                        if before.contains_key(k) && k != id {
                            assert(show@[k]@ == before[k]@);
                        }
                    }
                }
            }
            // the changed columns and `others_change`
            if changed@.len() > 0 {
                let k = changed@[0];
                assert(changed@.contains(k));
                assert(all_have_filters);
                let t = choose|t: int| 0 <= t < matches@.len()
                    && #[trigger] other_show(others[k]@[t], matches@[t], true, elsewhere@[t]) != others[k]@[t];
                assert(other_show(before[k]@[t], m[t], all_have_filters, shown_elsewhere(before, id, t)) != before[k]@[t]);
            }
            if others_change(before, m, id, all_have_filters) {
                let (k, t) = choose|k: usize, t: int| before.contains_key(k) && k != id && 0 <= t < m.len()
                    && #[trigger] other_show(before[k]@[t], m[t], all_have_filters, shown_elsewhere(before, id, t)) != before[k]@[t];
                assert(all_have_filters);
                assert(others.contains_key(k));
                assert(other_show(others[k]@[t], matches@[t], true, elsewhere@[t]) != others[k]@[t]);
                assert(changed@.contains(k));
            }
            if rows_have_len(before, n as nat) {
                assert(show@[id]@ =~= Seq::new(n as nat, |t: int| own_show(m[t], all_have_filters, shown_elsewhere(before, id, t))));
                assert forall|k: usize| #[trigger] before.contains_key(k) && k != id implies show@[k]@ == Seq::new(
                    n as nat,
                    |t: int| other_show(before[k]@[t], m[t], all_have_filters, shown_elsewhere(before, id, t)),
                ) by {
                    assert(show@[k]@ =~= Seq::new(
                        n as nat,
                        |t: int| other_show(before[k]@[t], m[t], all_have_filters, shown_elsewhere(before, id, t)),
                    ));
                }
            }
        }
        changed
    }
}

} // verus!
