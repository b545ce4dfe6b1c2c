//! Frequency counts of the characters, the words and the n-grams of a text.
//!
//! Each count is a report: a list of rows, one for each distinct unit, that
//! is rendered as one line `unit,count` per row.

use crate::text::{chars_of, text_of};
use crate::text_cipher::CipherError;
use ngrams::Ngram;
use vstd::prelude::*;

verus! {

/// How often `unit` occurs among `units`.
pub open spec fn occurrences(units: Seq<Seq<char>>, unit: Seq<char>) -> nat
    decreases units.len(),
{
    if units.len() == 0 {
        0
    } else {
        occurrences(units.drop_last(), unit) + if units.last() == unit {
            1nat
        } else {
            0nat
        }
    }
}

/// `at` is the place where `unit` occurs first among `units`.
pub open spec fn is_first(units: Seq<Seq<char>>, unit: Seq<char>, at: int) -> bool {
    &&& 0 <= at < units.len()
    &&& units[at] == unit
    &&& forall|m: int| 0 <= m < at ==> units[m] != unit
}

/// The place where `unit` occurs first among `units`.
pub open spec fn first_seen(units: Seq<Seq<char>>, unit: Seq<char>) -> int {
    choose|at: int| is_first(units, unit, at)
}

/// Some row is the row of `unit`.
pub open spec fn listed(rows: Seq<(Seq<char>, nat)>, unit: Seq<char>) -> bool {
    exists|i: int| 0 <= i < rows.len() && (#[trigger] rows[i]).0 == unit
}

/// The rows hold the units of `units`, and no others, each with the number
/// of times it occurs.
pub open spec fn counts_units(rows: Seq<(Seq<char>, nat)>, units: Seq<Seq<char>>) -> bool {
    &&& forall|i: int|
        0 <= i < rows.len() ==> units.contains((#[trigger] rows[i]).0) && rows[i].1
            == occurrences(units, rows[i].0)
    &&& forall|m: int| 0 <= m < units.len() ==> listed(rows, #[trigger] units[m])
}

/// The first row stands before the second in a report ordered by count: it
/// has the smaller count, or the same count and its unit occurs first.
pub open spec fn before_by_count(
    first: (Seq<char>, nat),
    second: (Seq<char>, nat),
    units: Seq<Seq<char>>,
) -> bool {
    first.1 < second.1 || (first.1 == second.1 && first_seen(units, first.0) < first_seen(
        units,
        second.0,
    ))
}

/// The rows are in ascending order of their counts, and rows with the same
/// count in the order in which their units first occur.
pub open spec fn ascending_by_count(rows: Seq<(Seq<char>, nat)>, units: Seq<Seq<char>>) -> bool {
    forall|i: int, j: int|
        0 <= i < j < rows.len() ==> before_by_count(#[trigger] rows[i], #[trigger] rows[j], units)
}

/// Every unit is a single character, and the rows are in ascending order of
/// these characters.
pub open spec fn ascending_by_char(rows: Seq<(Seq<char>, nat)>) -> bool {
    &&& forall|i: int| 0 <= i < rows.len() ==> (#[trigger] rows[i]).0.len() == 1
    &&& forall|i: int, j: int|
        0 <= i < j < rows.len() ==> (#[trigger] rows[i]).0[0] < (#[trigger] rows[j]).0[0]
}

/// What a list of units stands for.
pub open spec fn units_of(units: Seq<Vec<char>>) -> Seq<Seq<char>> {
    Seq::new(units.len(), |m: int| units[m]@)
}

/// What a list of rows stands for.
pub open spec fn report_of(rows: Seq<(Vec<char>, u64)>) -> Seq<(Seq<char>, nat)> {
    Seq::new(rows.len(), |i: int| (rows[i].0@, rows[i].1 as nat))
}

/// A unit occurs at most as often as there are units.
proof fn lemma_occurrences_bound(units: Seq<Seq<char>>, unit: Seq<char>)
    ensures
        occurrences(units, unit) <= units.len(),
    decreases units.len(),
{
    if units.len() > 0 {
        lemma_occurrences_bound(units.drop_last(), unit);
    }
}

/// A unit that is not among the units occurs zero times.
proof fn lemma_occurrences_none(units: Seq<Seq<char>>, unit: Seq<char>)
    requires
        forall|m: int| 0 <= m < units.len() ==> units[m] != unit,
    ensures
        occurrences(units, unit) == 0,
    decreases units.len(),
{
    if units.len() > 0 {
        lemma_occurrences_none(units.drop_last(), unit);
    }
}

/// One more unit adds one to its own count and nothing to the others.
proof fn lemma_occurrences_next(units: Seq<Seq<char>>, k: int, unit: Seq<char>)
    requires
        0 <= k < units.len(),
    ensures
        occurrences(units.take(k + 1), unit) == occurrences(units.take(k), unit) + if units[k]
            == unit {
            1nat
        } else {
            0nat
        },
{
    assert(units.take(k + 1).drop_last() =~= units.take(k));
}

/// A unit has one first place.
proof fn lemma_first_seen(units: Seq<Seq<char>>, unit: Seq<char>, at: int)
    requires
        is_first(units, unit, at),
    ensures
        first_seen(units, unit) == at,
{
    let other = first_seen(units, unit);
    assert(is_first(units, unit, other));
    if other < at {
        assert(units[other] != unit);
    }
    if at < other {
        assert(units[at] != unit);
    }
}

/// The two vectors hold the same characters.
fn same_unit(a: &Vec<char>, b: &Vec<char>) -> (same: bool)
    ensures
        same == (a@ == b@),
{
    if a.len() != b.len() {
        return false;
    }
    let mut i: usize = 0;
    while i < a.len()
        invariant
            a@.len() == b@.len(),
            i <= a@.len(),
            forall|j: int| 0 <= j < i ==> a@[j] == b@[j],
        decreases a.len() - i,
    {
        if a[i] != b[i] {
            return false;
        }
        i += 1;
    }
    assert(a@ =~= b@);
    true
}

/// Some row stands for the unit at place `m`.
spec fn has_row(rows: Seq<(usize, u64)>, units: Seq<Seq<char>>, m: int) -> bool {
    exists|i: int| 0 <= i < rows.len() && units[(#[trigger] rows[i]).0 as int] == units[m]
}

/// The row is right for the first `k` units: it holds the place where its
/// unit occurs first and the number of times the unit occurs among them.
spec fn row_right(row: (usize, u64), units: Seq<Seq<char>>, k: int) -> bool {
    &&& row.0 < k
    &&& is_first(units, units[row.0 as int], row.0 as int)
    &&& row.1 == occurrences(units.take(k), units[row.0 as int])
}

/// The rows count the first `k` units: each row is right, each of the units
/// has a row, and the rows stand in the order in which their units first
/// occur.
spec fn tallied(rows: Seq<(usize, u64)>, units: Seq<Seq<char>>, k: int) -> bool {
    &&& forall|i: int| 0 <= i < rows.len() ==> row_right(#[trigger] rows[i], units, k)
    &&& forall|i: int, j: int|
        0 <= i < j < rows.len() ==> (#[trigger] rows[i]).0 < (#[trigger] rows[j]).0
    &&& forall|m: int| 0 <= m < k ==> #[trigger] has_row(rows, units, m)
}

/// Counting one more unit, which has a row already, keeps the rows right.
proof fn lemma_tallied_again(
    before: Seq<(usize, u64)>,
    after: Seq<(usize, u64)>,
    units: Seq<Seq<char>>,
    k: int,
    i: int,
)
    requires
        0 <= k < units.len(),
        tallied(before, units, k),
        0 <= i < before.len(),
        units[before[i].0 as int] == units[k],
        before[i].1 < u64::MAX,
        after == before.update(i, (before[i].0, (before[i].1 + 1) as u64)),
    ensures
        tallied(after, units, k + 1),
{
    let unit = units[k];
    assert forall|j: int| 0 <= j < after.len() implies row_right(
        #[trigger] after[j],
        units,
        k + 1,
    ) by {
        assert(row_right(before[j], units, k));
        assert(row_right(before[i], units, k));
        lemma_occurrences_next(units, k, units[before[j].0 as int]);
        if j != i && units[before[j].0 as int] == unit {
            if j < i {
                assert(before[j].0 < before[i].0);
            } else {
                assert(before[i].0 < before[j].0);
            }
            assert(false);
        }
    }
    assert forall|m: int| 0 <= m < k + 1 implies #[trigger] has_row(after, units, m) by {
        if m < k {
            assert(has_row(before, units, m));
            let j = choose|j: int|
                0 <= j < before.len() && units[(#[trigger] before[j]).0 as int] == units[m];
            assert(after[j].0 == before[j].0);
        } else {
            assert(after[i].0 == before[i].0);
        }
    }
    assert forall|a: int, b: int| 0 <= a < b < after.len() implies (#[trigger] after[a]).0 < (
    #[trigger] after[b]).0 by {
        assert(before[a].0 < before[b].0);
    }
}

/// Counting one more unit, which is new, keeps the rows right.
proof fn lemma_tallied_new(
    before: Seq<(usize, u64)>,
    after: Seq<(usize, u64)>,
    units: Seq<Seq<char>>,
    k: int,
)
    requires
        0 <= k < units.len(),
        k <= usize::MAX,
        tallied(before, units, k),
        forall|i: int| 0 <= i < before.len() ==> units[(#[trigger] before[i]).0 as int] != units[k],
        after == before.push((k as usize, 1u64)),
    ensures
        tallied(after, units, k + 1),
{
    let unit = units[k];
    assert forall|m: int| 0 <= m < k implies units[m] != unit by {
        assert(has_row(before, units, m));
    }
    assert(is_first(units, unit, k));
    lemma_occurrences_none(units.take(k), unit);
    assert forall|j: int| 0 <= j < after.len() implies row_right(
        #[trigger] after[j],
        units,
        k + 1,
    ) by {
        lemma_occurrences_next(units, k, units[after[j].0 as int]);
        if j < before.len() {
            assert(after[j] == before[j]);
            assert(row_right(before[j], units, k));
        }
    }
    assert forall|m: int| 0 <= m < k + 1 implies #[trigger] has_row(after, units, m) by {
        if m < k {
            assert(has_row(before, units, m));
            let j = choose|j: int|
                0 <= j < before.len() && units[(#[trigger] before[j]).0 as int] == units[m];
            assert(after[j] == before[j]);
        } else {
            assert(after[before.len() as int].0 == k);
        }
    }
    assert forall|a: int, b: int| 0 <= a < b < after.len() implies (#[trigger] after[a]).0 < (
    #[trigger] after[b]).0 by {
        assert(after[a] == before[a]);
        assert(row_right(before[a], units, k));
        if b < before.len() {
            assert(after[b] == before[b]);
        }
    }
}

/// Counts the units: one row for each distinct unit, in the order in which
/// the units first occur.
fn tally(units: &Vec<Vec<char>>) -> (rows: Vec<(usize, u64)>)
    ensures
        tallied(rows@, units_of(units@), units@.len() as int),
{
    let ghost all = units_of(units@);
    let mut rows: Vec<(usize, u64)> = Vec::new();
    let mut k: usize = 0;
    while k < units.len()
        invariant
            k <= units@.len(),
            all == units_of(units@),
            tallied(rows@, all, k as int),
        decreases units.len() - k,
    {
        let mut i: usize = 0;
        let mut found: bool = false;
        while i < rows.len() && !found
            invariant
                k < units@.len(),
                all == units_of(units@),
                tallied(rows@, all, k as int),
                i <= rows@.len(),
                forall|j: int| 0 <= j < i ==> all[(#[trigger] rows@[j]).0 as int] != all[k as int],
                found ==> i < rows@.len() && all[rows@[i as int].0 as int] == all[k as int],
            decreases rows.len() - i + if found { 0int } else { 1int },
        {
            assert(row_right(rows@[i as int], all, k as int));
            if same_unit(&units[rows[i].0], &units[k]) {
                found = true;
            } else {
                i += 1;
            }
        }
        let ghost before = rows@;
        if found {
            let at: usize = rows[i].0;
            let count: u64 = rows[i].1;
            proof {
                assert(row_right(before[i as int], all, k as int));
                lemma_occurrences_bound(all.take(k as int), all[at as int]);
            }
            rows.set(i, (at, count + 1));
            proof {
                lemma_tallied_again(before, rows@, all, k as int, i as int);
            }
        } else {
            rows.push((k, 1));
            proof {
                lemma_tallied_new(before, rows@, all, k as int);
            }
        }
        k += 1;
    }
    rows
}

/// The key at place `a` stands before the key at place `b`: it is smaller,
/// or the same and `a` is the earlier place.
spec fn key_before(keys: Seq<u64>, a: int, b: int) -> bool {
    keys[a] < keys[b] || (keys[a] == keys[b] && a < b)
}

/// The place `m` is listed in `order`.
spec fn placed(order: Seq<usize>, m: int) -> bool {
    exists|i: int| 0 <= i < order.len() && #[trigger] order[i] == m
}

/// `order` lists the first `k` places of `keys`, by ascending key, and
/// places with the same key in ascending order.
spec fn ordered(order: Seq<usize>, keys: Seq<u64>, k: int) -> bool {
    &&& order.len() == k
    &&& forall|i: int| 0 <= i < order.len() ==> #[trigger] order[i] < k
    &&& forall|m: int| 0 <= m < k ==> #[trigger] placed(order, m)
    &&& forall|i: int, j: int|
        0 <= i < j < order.len() ==> key_before(
            keys,
            #[trigger] order[i] as int,
            #[trigger] order[j] as int,
        )
}

/// Putting the next place behind the places whose keys are not greater
/// keeps the order.
proof fn lemma_ordered_next(
    before: Seq<usize>,
    after: Seq<usize>,
    keys: Seq<u64>,
    k: int,
    p: int,
)
    requires
        0 <= k < keys.len(),
        k <= usize::MAX,
        ordered(before, keys, k),
        0 <= p <= before.len(),
        forall|i: int| p <= i < before.len() ==> keys[#[trigger] before[i] as int] > keys[k],
        p > 0 ==> keys[before[p - 1] as int] <= keys[k],
        after == before.insert(p, k as usize),
    ensures
        ordered(after, keys, k + 1),
{
    assert forall|i: int| 0 <= i < p implies keys[#[trigger] before[i] as int] <= keys[k] by {
        if i < p - 1 {
            assert(key_before(keys, before[i] as int, before[p - 1] as int));
        }
    }
    assert forall|m: int| 0 <= m < k + 1 implies #[trigger] placed(after, m) by {
        if m < k {
            assert(placed(before, m));
            let i = choose|i: int| 0 <= i < before.len() && #[trigger] before[i] == m;
            if i < p {
                assert(after[i] == m);
            } else {
                assert(after[i + 1] == m);
            }
        } else {
            assert(after[p] == m);
        }
    }
    assert forall|i: int, j: int| 0 <= i < j < after.len() implies key_before(
        keys,
        #[trigger] after[i] as int,
        #[trigger] after[j] as int,
    ) by {
        let bi = if i < p { i } else { i - 1 };
        let bj = if j < p { j } else { j - 1 };
        if i != p && j != p {
            assert(after[i] == before[bi]);
            assert(after[j] == before[bj]);
            assert(key_before(keys, before[bi] as int, before[bj] as int));
        } else if i == p {
            assert(after[j] == before[bj]);
        } else {
            assert(after[i] == before[bi]);
        }
    }
}

/// The places of `keys` by ascending key; places with the same key keep
/// their order.
fn stable_order(keys: &Vec<u64>) -> (order: Vec<usize>)
    ensures
        ordered(order@, keys@, keys@.len() as int),
{
    let mut order: Vec<usize> = Vec::new();
    let mut k: usize = 0;
    while k < keys.len()
        invariant
            k <= keys@.len(),
            ordered(order@, keys@, k as int),
        decreases keys.len() - k,
    {
        let mut p: usize = order.len();
        while p > 0 && keys[order[p - 1]] > keys[k]
            invariant
                k < keys@.len(),
                ordered(order@, keys@, k as int),
                p <= order@.len(),
                forall|i: int| p <= i < order@.len() ==> keys@[#[trigger] order@[i] as int] > keys@[k as int],
            decreases p,
        {
            p -= 1;
        }
        let ghost before = order@;
        order.insert(p, k);
        proof {
            lemma_ordered_next(before, order@, keys@, k as int, p as int);
        }
        k += 1;
    }
    order
}

/// The code point of a character, by which characters are ordered.
fn char_code(c: char) -> (code: u64)
    ensures
        code as int == c as int,
{
    let code: u32 = c as u32;
    code as u64
}

/// The key by which a row is ordered: its count, or the character that is
/// its unit.
spec fn key_of(row: (usize, u64), units: Seq<Seq<char>>, by_count: bool) -> int {
    if by_count {
        row.1 as int
    } else {
        units[row.0 as int][0] as int
    }
}

/// `out` lists the counted rows in the order `order`, each with its unit.
spec fn lists_rows(
    out: Seq<(Seq<char>, nat)>,
    rows: Seq<(usize, u64)>,
    order: Seq<usize>,
    units: Seq<Seq<char>>,
) -> bool {
    &&& out.len() == order.len()
    &&& forall|j: int|
        0 <= j < out.len() ==> #[trigger] out[j] == (
            units[rows[order[j] as int].0 as int],
            rows[order[j] as int].1 as nat,
        )
}

/// Counted rows, listed in any order that leaves none out, hold the units
/// with their counts.
proof fn lemma_report_counts(
    out: Seq<(Seq<char>, nat)>,
    rows: Seq<(usize, u64)>,
    keys: Seq<u64>,
    order: Seq<usize>,
    units: Seq<Seq<char>>,
)
    requires
        tallied(rows, units, units.len() as int),
        ordered(order, keys, rows.len() as int),
        lists_rows(out, rows, order, units),
    ensures
        counts_units(out, units),
{
    let n = units.len() as int;
    assert(units.take(n) =~= units);
    assert forall|i: int| 0 <= i < out.len() implies units.contains((#[trigger] out[i]).0)
        && out[i].1 == occurrences(units, out[i].0) by {
        let r = rows[order[i] as int];
        assert(row_right(r, units, n));
        assert(units[r.0 as int] == out[i].0);
    }
    assert forall|m: int| 0 <= m < units.len() implies listed(out, #[trigger] units[m]) by {
        assert(has_row(rows, units, m));
        let r = choose|r: int| 0 <= r < rows.len() && units[(#[trigger] rows[r]).0 as int] == units[m];
        assert(placed(order, r));
        let i = choose|i: int| 0 <= i < order.len() && #[trigger] order[i] == r;
        assert(out[i].0 == units[m]);
    }
}

/// Counted rows, listed by ascending count, are in the order of a report
/// by count.
proof fn lemma_report_by_count(
    out: Seq<(Seq<char>, nat)>,
    rows: Seq<(usize, u64)>,
    keys: Seq<u64>,
    order: Seq<usize>,
    units: Seq<Seq<char>>,
)
    requires
        tallied(rows, units, units.len() as int),
        keys.len() == rows.len(),
        forall|i: int|
            0 <= i < rows.len() ==> #[trigger] keys[i] as int == key_of(rows[i], units, true),
        ordered(order, keys, rows.len() as int),
        lists_rows(out, rows, order, units),
    ensures
        ascending_by_count(out, units),
{
    let n = units.len() as int;
    assert forall|i: int, j: int| 0 <= i < j < out.len() implies before_by_count(
        #[trigger] out[i],
        #[trigger] out[j],
        units,
    ) by {
        let a = order[i] as int;
        let b = order[j] as int;
        assert(key_before(keys, a, b));
        assert(row_right(rows[a], units, n));
        assert(row_right(rows[b], units, n));
        assert(keys[a] == rows[a].1 && keys[b] == rows[b].1);
        lemma_first_seen(units, out[i].0, rows[a].0 as int);
        lemma_first_seen(units, out[j].0, rows[b].0 as int);
        if a < b {
            assert(rows[a].0 < rows[b].0);
        }
    }
}

/// Counted rows of single characters, listed by ascending character, are in
/// the order of a report by character.
proof fn lemma_report_by_char(
    out: Seq<(Seq<char>, nat)>,
    rows: Seq<(usize, u64)>,
    keys: Seq<u64>,
    order: Seq<usize>,
    units: Seq<Seq<char>>,
)
    requires
        tallied(rows, units, units.len() as int),
        keys.len() == rows.len(),
        forall|i: int|
            0 <= i < rows.len() ==> #[trigger] keys[i] as int == key_of(rows[i], units, false),
        ordered(order, keys, rows.len() as int),
        lists_rows(out, rows, order, units),
        forall|m: int| 0 <= m < units.len() ==> (#[trigger] units[m]).len() == 1,
    ensures
        ascending_by_char(out),
{
    let n = units.len() as int;
    assert forall|i: int| 0 <= i < out.len() implies (#[trigger] out[i]).0.len() == 1 by {
        let r = rows[order[i] as int];
        assert(row_right(r, units, n));
    }
    assert forall|i: int, j: int| 0 <= i < j < out.len() implies (#[trigger] out[i]).0[0] < (
    #[trigger] out[j]).0[0] by {
        let a = order[i] as int;
        let b = order[j] as int;
        assert(key_before(keys, a, b));
        assert(row_right(rows[a], units, n));
        assert(row_right(rows[b], units, n));
        let x = units[rows[a].0 as int];
        let y = units[rows[b].0 as int];
        assert(out[i].0 == x && out[j].0 == y);
        assert(keys[a] as int == x[0] as int && keys[b] as int == y[0] as int);
        assert(x.len() == 1 && y.len() == 1);
        if keys[a] == keys[b] {
            assert(x[0] == y[0]);
            assert(x =~= y);
            assert(rows[a].0 < rows[b].0);
            assert(false);
        }
    }
}

/// The report of `units`: one row for each distinct unit with the number of
/// times it occurs, by ascending count or, where every unit is one
/// character, by ascending character.
fn report(units: &Vec<Vec<char>>, by_count: bool) -> (out: Vec<(Vec<char>, u64)>)
    requires
        !by_count ==> forall|m: int| 0 <= m < units@.len() ==> (#[trigger] units@[m])@.len() == 1,
    ensures
        counts_units(report_of(out@), units_of(units@)),
        by_count ==> ascending_by_count(report_of(out@), units_of(units@)),
        !by_count ==> ascending_by_char(report_of(out@)),
{
    let ghost all = units_of(units@);
    let rows: Vec<(usize, u64)> = tally(units);
    let mut keys: Vec<u64> = Vec::new();
    let mut i: usize = 0;
    while i < rows.len()
        invariant
            all == units_of(units@),
            tallied(rows@, all, units@.len() as int),
            !by_count ==> forall|m: int| 0 <= m < units@.len() ==> (#[trigger] units@[m])@.len() == 1,
            i <= rows@.len(),
            keys@.len() == i,
            forall|j: int|
                0 <= j < i ==> #[trigger] keys@[j] as int == key_of(rows@[j], all, by_count),
        decreases rows.len() - i,
    {
        assert(row_right(rows@[i as int], all, units@.len() as int));
        let key: u64 = if by_count {
            rows[i].1
        } else {
            char_code(units[rows[i].0][0])
        };
        keys.push(key);
        i += 1;
    }
    let order: Vec<usize> = stable_order(&keys);
    let mut out: Vec<(Vec<char>, u64)> = Vec::new();
    let mut j: usize = 0;
    while j < order.len()
        invariant
            all == units_of(units@),
            tallied(rows@, all, units@.len() as int),
            ordered(order@, keys@, rows@.len() as int),
            keys@.len() == rows@.len(),
            forall|h: int|
                0 <= h < rows@.len() ==> #[trigger] keys@[h] as int == key_of(
                    rows@[h],
                    all,
                    by_count,
                ),
            !by_count ==> forall|m: int| 0 <= m < units@.len() ==> (#[trigger] units@[m])@.len() == 1,
            j <= order@.len(),
            out@.len() == j,
            forall|h: int|
                0 <= h < j ==> #[trigger] report_of(out@)[h] == (
                    all[rows@[order@[h] as int].0 as int],
                    rows@[order@[h] as int].1 as nat,
                ),
        decreases order.len() - j,
    {
        let at: usize = order[j];
        assert(row_right(rows@[at as int], all, units@.len() as int));
        let unit: Vec<char> = units[rows[at].0].clone();
        assert(unit@ =~= all[rows@[at as int].0 as int]);
        let ghost before = out@;
        out.push((unit, rows[at].1));
        assert forall|h: int| 0 <= h < j + 1 implies #[trigger] report_of(out@)[h] == (
            all[rows@[order@[h] as int].0 as int],
            rows@[order@[h] as int].1 as nat,
        ) by {
            if h < j {
                assert(out@[h] == before[h]);
                assert(report_of(before)[h] == report_of(out@)[h]);
            }
        }
        j += 1;
    }
    proof {
        let listing = report_of(out@);
        lemma_report_counts(listing, rows@, keys@, order@, all);
        if by_count {
            lemma_report_by_count(listing, rows@, keys@, order@, all);
        } else {
            assert forall|m: int| 0 <= m < all.len() implies (#[trigger] all[m]).len() == 1 by {
                assert(units@[m]@.len() == 1);
            }
            lemma_report_by_char(listing, rows@, keys@, order@, all);
        }
    }
    out
}

/// The units of a count by character: each character of the text by itself.
pub open spec fn single_chars(text: Seq<char>) -> Seq<Seq<char>> {
    Seq::new(text.len(), |i: int| seq![text[i]])
}

/// The units of a count by word: the pieces into which the single spaces
/// cut the text. A text without a space is one word, the empty text too;
/// a space at either end, or two spaces in a row, leave an empty word.
pub open spec fn words(text: Seq<char>) -> Seq<Seq<char>>
    decreases text.len(),
{
    if text.len() == 0 {
        seq![Seq::<char>::empty()]
    } else {
        let before = words(text.drop_last());
        if text.last() == ' ' {
            before.push(Seq::<char>::empty())
        } else {
            before.drop_last().push(before.last().push(text.last()))
        }
    }
}

/// The character that stands for a place before the start or after the end
/// of a text in its n-grams: the word joiner.
pub const PAD: char = '\u{2060}';

/// The greatest n-gram length that is counted. A longer window could not
/// be held in memory where addresses have 32 bits.
pub const MAX_NGRAM_LENGTH: usize = 0x1FFF_FFFF;

/// `text` with `length - 1` pad characters before it and as many after it.
pub open spec fn padded(text: Seq<char>, length: int) -> Seq<char> {
    Seq::new((length - 1) as nat, |i: int| PAD) + text + Seq::new(
        (length - 1) as nat,
        |i: int| PAD,
    )
}

/// The units of a count by n-gram: every window of `length` characters of
/// the padded text, from the one that ends with the first character of the
/// text to the one that begins with its last.
pub open spec fn ngrams_of(text: Seq<char>, length: int) -> Seq<Seq<char>> {
    Seq::new(
        (text.len() + length - 1) as nat,
        |i: int| padded(text, length).subrange(i, i + length),
    )
}

/// The padded n-grams of `text`, in the order of their places.
///
/// Trusted: stands for `Ngram::ngrams` of the crate `ngrams` on the
/// characters of the text, followed by `Ngrams::pad` and collected. For a
/// length of two or more it is taken to put `length - 1` pad characters
/// before the text and after it, and to yield every window of `length`
/// characters of that sequence, from left to right.
#[verifier::external_body]
fn padded_ngrams(text: &str, length: usize) -> (grams: Vec<Vec<char>>)
    requires
        2 <= length <= MAX_NGRAM_LENGTH,
    ensures
        units_of(grams@) == ngrams_of(text@, length as int),
{
    text.chars().ngrams(length).pad().collect()
}

/// Each character of `chars` as a unit of its own.
fn singles(chars: &Vec<char>) -> (units: Vec<Vec<char>>)
    ensures
        units_of(units@) == single_chars(chars@),
        forall|m: int| 0 <= m < units@.len() ==> (#[trigger] units@[m])@.len() == 1,
{
    let mut units: Vec<Vec<char>> = Vec::new();
    let mut i: usize = 0;
    while i < chars.len()
        invariant
            i <= chars@.len(),
            units@.len() == i,
            forall|m: int| 0 <= m < i ==> (#[trigger] units@[m])@ == seq![chars@[m]],
        decreases chars.len() - i,
    {
        let mut unit: Vec<char> = Vec::new();
        unit.push(chars[i]);
        assert(unit@ =~= seq![chars@[i as int]]);
        units.push(unit);
        i += 1;
    }
    assert(units_of(units@) =~= single_chars(chars@));
    units
}

/// The words of `chars`.
fn split_words(chars: &Vec<char>) -> (tokens: Vec<Vec<char>>)
    ensures
        units_of(tokens@) == words(chars@),
{
    let mut tokens: Vec<Vec<char>> = Vec::new();
    let mut current: Vec<char> = Vec::new();
    let mut i: usize = 0;
    assert(chars@.take(0) =~= Seq::<char>::empty());
    assert(units_of(tokens@).push(current@) =~= seq![Seq::<char>::empty()]);
    while i < chars.len()
        invariant
            i <= chars@.len(),
            units_of(tokens@).push(current@) == words(chars@.take(i as int)),
        decreases chars.len() - i,
    {
        let c: char = chars[i];
        let ghost before = units_of(tokens@).push(current@);
        assert(chars@.take(i + 1).drop_last() =~= chars@.take(i as int));
        if c == ' ' {
            tokens.push(current);
            current = Vec::new();
            assert(units_of(tokens@).push(current@) =~= before.push(Seq::<char>::empty()));
        } else {
            current.push(c);
            assert(units_of(tokens@).push(current@) =~= before.drop_last().push(
                before.last().push(c),
            ));
        }
        i += 1;
    }
    assert(chars@.take(i as int) =~= chars@);
    let ghost done = tokens@;
    tokens.push(current);
    assert(units_of(tokens@) =~= units_of(done).push(current@));
    tokens
}

/// The n-grams of a text; `chars` holds the characters of `text`.
///
/// A length of one is not handed to the crate `ngrams`: a window of one
/// character has no padding, and the crate's windows of that length are not
/// of one character (after the first it yields pairs of neighbours).
fn ngram_units(text: &str, chars: &Vec<char>, length: usize) -> (units: Vec<Vec<char>>)
    requires
        chars@ == text@,
        1 <= length <= MAX_NGRAM_LENGTH,
    ensures
        units_of(units@) == ngrams_of(text@, length as int),
{
    if length == 1 {
        let units: Vec<Vec<char>> = singles(chars);
        proof {
            assert(padded(text@, 1) =~= text@);
            assert forall|i: int| 0 <= i < text@.len() implies padded(text@, 1).subrange(i, i + 1)
                == seq![text@[i]] by {
                assert(padded(text@, 1).subrange(i, i + 1) =~= seq![text@[i]]);
            }
            assert(single_chars(text@) =~= ngrams_of(text@, 1));
        }
        units
    } else {
        padded_ngrams(text, length)
    }
}

/// The decimal digit for `d`.
pub open spec fn digit(d: nat) -> char {
    (48 + d) as char
}

/// `n` in decimal digits, without leading zeros.
pub open spec fn decimal(n: nat) -> Seq<char>
    decreases n,
{
    if n < 10 {
        seq![digit(n)]
    } else {
        decimal(n / 10).push(digit(n % 10))
    }
}

/// The line of a row: the unit, a comma, the count and a line feed.
pub open spec fn row_line(row: (Seq<char>, nat)) -> Seq<char> {
    row.0 + seq![','] + decimal(row.1) + seq!['\n']
}

/// The text of a report: the lines of its rows, one after the other.
pub open spec fn rendered(rows: Seq<(Seq<char>, nat)>) -> Seq<char>
    decreases rows.len(),
{
    if rows.len() == 0 {
        Seq::<char>::empty()
    } else {
        rendered(rows.drop_last()) + row_line(rows.last())
    }
}

/// Appends `n` in decimal digits.
fn push_decimal(out: &mut Vec<char>, n: u64)
    ensures
        final(out)@ == old(out)@ + decimal(n as nat),
    decreases n,
{
    if n >= 10 {
        push_decimal(out, n / 10);
    }
    let d: u8 = (n % 10) as u8;
    out.push((48 + d) as char);
    assert(out@ =~= old(out)@ + decimal(n as nat));
}

/// The text of a report: one line `unit,count` for each row, in the order
/// of the rows.
pub fn render(rows: &Vec<(Vec<char>, u64)>) -> (out: String)
    ensures
        out@ == rendered(report_of(rows@)),
{
    let mut out: Vec<char> = Vec::new();
    let mut i: usize = 0;
    assert(report_of(rows@).take(0) =~= Seq::empty());
    while i < rows.len()
        invariant
            i <= rows@.len(),
            out@ == rendered(report_of(rows@).take(i as int)),
        decreases rows.len() - i,
    {
        let ghost start = out@;
        let mut j: usize = 0;
        while j < rows[i].0.len()
            invariant
                i < rows@.len(),
                j <= rows@[i as int].0@.len(),
                out@ == start + rows@[i as int].0@.take(j as int),
            decreases rows@[i as int].0@.len() - j,
        {
            out.push(rows[i].0[j]);
            j += 1;
            assert(out@ =~= start + rows@[i as int].0@.take(j as int));
        }
        assert(rows@[i as int].0@.take(j as int) =~= rows@[i as int].0@);
        out.push(',');
        push_decimal(&mut out, rows[i].1);
        out.push('\n');
        proof {
            let listing = report_of(rows@);
            assert(listing.take(i + 1).drop_last() =~= listing.take(i as int));
            assert(listing.take(i + 1).last() == listing[i as int]);
            assert(out@ =~= start + row_line(listing[i as int]));
        }
        i += 1;
    }
    assert(report_of(rows@).take(i as int) =~= report_of(rows@));
    text_of(&out)
}

/// The rows are the count of the characters of `text`: one row for each
/// distinct character with the number of times it occurs, in ascending
/// order of the characters.
pub open spec fn is_char_report(rows: Seq<(Seq<char>, nat)>, text: Seq<char>) -> bool {
    &&& counts_units(rows, single_chars(text))
    &&& ascending_by_char(rows)
}

/// The rows are the count of the words of `text`: one row for each distinct
/// word with the number of times it occurs, in ascending order of the
/// counts; words with the same count stand in the order in which they first
/// occur in the text.
pub open spec fn is_word_report(rows: Seq<(Seq<char>, nat)>, text: Seq<char>) -> bool {
    &&& counts_units(rows, words(text))
    &&& ascending_by_count(rows, words(text))
}

/// The rows are the count of the padded n-grams of `text`: one row for each
/// distinct n-gram with the number of times it occurs, in ascending order
/// of the counts; n-grams with the same count stand in the order in which
/// they first occur in the text.
pub open spec fn is_ngram_report(rows: Seq<(Seq<char>, nat)>, text: Seq<char>, length: int) -> bool {
    &&& counts_units(rows, ngrams_of(text, length))
    &&& ascending_by_count(rows, ngrams_of(text, length))
}

/// The count of the characters of `text`.
pub open spec fn char_report(text: Seq<char>) -> Seq<(Seq<char>, nat)> {
    choose|rows: Seq<(Seq<char>, nat)>| is_char_report(rows, text)
}

/// The count of the words of `text`.
pub open spec fn word_report(text: Seq<char>) -> Seq<(Seq<char>, nat)> {
    choose|rows: Seq<(Seq<char>, nat)>| is_word_report(rows, text)
}

/// The count of the padded n-grams of `text` of the given length.
pub open spec fn ngram_report(text: Seq<char>, length: int) -> Seq<(Seq<char>, nat)> {
    choose|rows: Seq<(Seq<char>, nat)>| is_ngram_report(rows, text, length)
}

/// Counts the characters of `text`, letters or not.
pub fn char_counts(text: &str) -> (rows: Vec<(Vec<char>, u64)>)
    ensures
        is_char_report(report_of(rows@), text@),
        report_of(rows@) == char_report(text@),
{
    let chars: Vec<char> = chars_of(text);
    let units: Vec<Vec<char>> = singles(&chars);
    let rows: Vec<(Vec<char>, u64)> = report(&units, false);
    proof {
        lemma_char_report_unique(report_of(rows@), char_report(text@), text@);
    }
    rows
}

/// Counts the words of `text`, which are what stands between its spaces.
pub fn word_counts(text: &str) -> (rows: Vec<(Vec<char>, u64)>)
    ensures
        is_word_report(report_of(rows@), text@),
        report_of(rows@) == word_report(text@),
{
    let chars: Vec<char> = chars_of(text);
    let units: Vec<Vec<char>> = split_words(&chars);
    let rows: Vec<(Vec<char>, u64)> = report(&units, true);
    proof {
        lemma_word_report_unique(report_of(rows@), word_report(text@), text@);
    }
    rows
}

/// Counts the padded n-grams of `text` of the given length. A length of
/// zero is refused.
pub fn ngram_counts(text: &str, length: usize) -> (counted: Result<
    Vec<(Vec<char>, u64)>,
    CipherError,
>)
    requires
        length <= MAX_NGRAM_LENGTH,
    ensures
        counted is Ok <==> length >= 1,
        counted is Ok ==> is_ngram_report(report_of(counted->Ok_0@), text@, length as int),
        counted is Ok ==> report_of(counted->Ok_0@) == ngram_report(text@, length as int),
        counted is Err ==> counted->Err_0 == CipherError::InvalidArgument,
{
    if length == 0 {
        return Err(CipherError::InvalidArgument);
    }
    let chars: Vec<char> = chars_of(text);
    let units: Vec<Vec<char>> = ngram_units(text, &chars, length);
    let rows: Vec<(Vec<char>, u64)> = report(&units, true);
    proof {
        lemma_ngram_report_unique(
            report_of(rows@),
            ngram_report(text@, length as int),
            text@,
            length as int,
        );
    }
    Ok(rows)
}

/// The count of the characters of `text`, one line `character,count` for
/// each distinct character, in ascending order of the characters.
pub fn count_chars(text: &str) -> (out: String)
    ensures
        is_char_report(char_report(text@), text@),
        out@ == rendered(char_report(text@)),
{
    let rows: Vec<(Vec<char>, u64)> = char_counts(text);
    render(&rows)
}

/// The count of the words of `text`, one line `word,count` for each
/// distinct word, in ascending order of the counts; words with the same
/// count stand in the order in which they first occur.
pub fn count_words(text: &str) -> (out: String)
    ensures
        is_word_report(word_report(text@), text@),
        out@ == rendered(word_report(text@)),
{
    let rows: Vec<(Vec<char>, u64)> = word_counts(text);
    render(&rows)
}

/// The count of the padded n-grams of `text` of the given length, one line
/// `n-gram,count` for each distinct n-gram, in ascending order of the
/// counts; n-grams with the same count stand in the order in which they
/// first occur. A length of zero is refused.
pub fn count_ngrams(text: &str, length: usize) -> (out: Result<String, CipherError>)
    requires
        length <= MAX_NGRAM_LENGTH,
    ensures
        out is Ok <==> length >= 1,
        out is Ok ==> is_ngram_report(ngram_report(text@, length as int), text@, length as int),
        out is Ok ==> out->Ok_0@ == rendered(ngram_report(text@, length as int)),
        out is Err ==> out->Err_0 == CipherError::InvalidArgument,
{
    match ngram_counts(text, length) {
        Ok(rows) => Ok(render(&rows)),
        Err(e) => Err(e),
    }
}

/// Two lists of rows that hold the same rows, each in an order in which no
/// two rows can change places, are the same list.
proof fn lemma_same_rows(
    a: Seq<(Seq<char>, nat)>,
    b: Seq<(Seq<char>, nat)>,
    before: spec_fn((Seq<char>, nat), (Seq<char>, nat)) -> bool,
)
    requires
        forall|x: (Seq<char>, nat), y: (Seq<char>, nat)| !(#[trigger] before(x, y) && before(y, x)),
        forall|i: int, j: int| 0 <= i < j < a.len() ==> before(#[trigger] a[i], #[trigger] a[j]),
        forall|i: int, j: int| 0 <= i < j < b.len() ==> before(#[trigger] b[i], #[trigger] b[j]),
        forall|i: int| 0 <= i < a.len() ==> b.contains(#[trigger] a[i]),
        forall|j: int| 0 <= j < b.len() ==> a.contains(#[trigger] b[j]),
    ensures
        a == b,
    decreases a.len(),
{
    if a.len() == 0 {
        if b.len() > 0 {
            assert(a.contains(b[0]));
        }
        assert(a =~= b);
    } else if b.len() == 0 {
        assert(b.contains(a[0]));
    } else {
        let la = a.last();
        let lb = b.last();
        assert(la == a[a.len() - 1] && lb == b[b.len() - 1]);
        assert(b.contains(la));
        let j = choose|j: int| 0 <= j < b.len() && b[j] == la;
        assert(a.contains(lb));
        let i = choose|i: int| 0 <= i < a.len() && a[i] == lb;
        assert(!(before(la, lb) && before(lb, la)));
        assert(!(before(la, la) && before(la, la)));
        if j < b.len() - 1 {
            assert(before(b[j], b[b.len() - 1]));
            if i < a.len() - 1 {
                assert(before(a[i], a[a.len() - 1]));
            }
            assert(false);
        }
        assert(la == lb);
        let a0 = a.drop_last();
        let b0 = b.drop_last();
        assert forall|h: int| 0 <= h < a0.len() implies b0.contains(#[trigger] a0[h]) by {
            assert(a0[h] == a[h]);
            assert(b.contains(a[h]));
            let g = choose|g: int| 0 <= g < b.len() && b[g] == a[h];
            assert(before(a[h], a[a.len() - 1]));
            assert(!(before(a[h], la) && before(la, a[h])));
            assert(g < b.len() - 1);
            assert(b0[g] == a0[h]);
        }
        assert forall|g: int| 0 <= g < b0.len() implies a0.contains(#[trigger] b0[g]) by {
            assert(b0[g] == b[g]);
            assert(a.contains(b[g]));
            let h = choose|h: int| 0 <= h < a.len() && a[h] == b[g];
            assert(before(b[g], b[b.len() - 1]));
            assert(!(before(b[g], lb) && before(lb, b[g])));
            assert(h < a.len() - 1);
            assert(a0[h] == b0[g]);
        }
        assert forall|x: int, y: int| 0 <= x < y < a0.len() implies before(
            #[trigger] a0[x],
            #[trigger] a0[y],
        ) by {
            assert(before(a[x], a[y]));
        }
        assert forall|x: int, y: int| 0 <= x < y < b0.len() implies before(
            #[trigger] b0[x],
            #[trigger] b0[y],
        ) by {
            assert(before(b[x], b[y]));
        }
        lemma_same_rows(a0, b0, before);
        assert(a =~= a0.push(la));
        assert(b =~= b0.push(lb));
    }
}

/// Two lists of rows that count the same units hold the same rows.
proof fn lemma_same_members(
    a: Seq<(Seq<char>, nat)>,
    b: Seq<(Seq<char>, nat)>,
    units: Seq<Seq<char>>,
)
    requires
        counts_units(a, units),
        counts_units(b, units),
    ensures
        forall|i: int| 0 <= i < a.len() ==> b.contains(#[trigger] a[i]),
{
    assert forall|i: int| 0 <= i < a.len() implies b.contains(#[trigger] a[i]) by {
        let unit = a[i].0;
        assert(units.contains(unit));
        let m = choose|m: int| 0 <= m < units.len() && units[m] == unit;
        assert(listed(b, units[m]));
        let j = choose|j: int| 0 <= j < b.len() && (#[trigger] b[j]).0 == unit;
        assert(b[j].1 == occurrences(units, unit));
        assert(b[j] == a[i]);
    }
}

/// The units have one report by count: the rows and their order are fixed
/// by the units alone.
pub proof fn lemma_report_by_count_unique(
    a: Seq<(Seq<char>, nat)>,
    b: Seq<(Seq<char>, nat)>,
    units: Seq<Seq<char>>,
)
    requires
        counts_units(a, units),
        ascending_by_count(a, units),
        counts_units(b, units),
        ascending_by_count(b, units),
    ensures
        a == b,
{
    lemma_same_members(a, b, units);
    lemma_same_members(b, a, units);
    let before = |x: (Seq<char>, nat), y: (Seq<char>, nat)| before_by_count(x, y, units);
    lemma_same_rows(a, b, before);
}

/// A text has one report by character.
pub proof fn lemma_char_report_unique(
    a: Seq<(Seq<char>, nat)>,
    b: Seq<(Seq<char>, nat)>,
    text: Seq<char>,
)
    requires
        is_char_report(a, text),
        is_char_report(b, text),
    ensures
        a == b,
{
    lemma_same_members(a, b, single_chars(text));
    lemma_same_members(b, a, single_chars(text));
    let before = |x: (Seq<char>, nat), y: (Seq<char>, nat)| x.0[0] < y.0[0];
    lemma_same_rows(a, b, before);
}

/// A text has one report by word.
pub proof fn lemma_word_report_unique(
    a: Seq<(Seq<char>, nat)>,
    b: Seq<(Seq<char>, nat)>,
    text: Seq<char>,
)
    requires
        is_word_report(a, text),
        is_word_report(b, text),
    ensures
        a == b,
{
    lemma_report_by_count_unique(a, b, words(text));
}

/// A text has one report by n-gram of a given length.
pub proof fn lemma_ngram_report_unique(
    a: Seq<(Seq<char>, nat)>,
    b: Seq<(Seq<char>, nat)>,
    text: Seq<char>,
    length: int,
)
    requires
        is_ngram_report(a, text, length),
        is_ngram_report(b, text, length),
    ensures
        a == b,
{
    lemma_report_by_count_unique(a, b, ngrams_of(text, length));
}

/// The words of a text put together, with one space between neighbours.
pub open spec fn joined(tokens: Seq<Seq<char>>) -> Seq<char>
    decreases tokens.len(),
{
    if tokens.len() == 0 {
        Seq::<char>::empty()
    } else if tokens.len() == 1 {
        tokens[0]
    } else {
        joined(tokens.drop_last()) + seq![' '] + tokens.last()
    }
}

/// A text has at least one word, no word holds a space, and the words
/// joined by spaces are the text.
pub proof fn lemma_words_join(text: Seq<char>)
    ensures
        words(text).len() >= 1,
        forall|k: int, i: int|
            0 <= k < words(text).len() && 0 <= i < words(text)[k].len() ==> #[trigger] words(
                text,
            )[k][i] != ' ',
        joined(words(text)) == text,
    decreases text.len(),
{
    if text.len() == 0 {
        assert(joined(words(text)) =~= text);
    } else {
        let rest = text.drop_last();
        let c = text.last();
        lemma_words_join(rest);
        let before = words(rest);
        let after = words(text);
        if c == ' ' {
            assert(after.drop_last() =~= before);
            assert(joined(after) =~= rest.push(c));
        } else {
            let word = before.last().push(c);
            assert(after == before.drop_last().push(word));
            if before.len() == 1 {
                assert(joined(before) == before[0]);
                assert(joined(after) =~= rest.push(c));
            } else {
                assert(after.drop_last() =~= before.drop_last());
                assert(joined(before) == joined(before.drop_last()) + seq![' '] + before.last());
                assert(joined(after) =~= rest.push(c));
            }
            assert forall|k: int, i: int|
                0 <= k < after.len() && 0 <= i < after[k].len() implies #[trigger] after[k][i]
                != ' ' by {
                if k < after.len() - 1 {
                    assert(after[k] == before[k]);
                } else if i < word.len() - 1 {
                    assert(word[i] == before[before.len() - 1][i]);
                }
            }
        }
        assert(text =~= rest.push(c));
    }
}

} // verus!
