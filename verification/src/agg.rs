//! Folding unordered rows into per-series date-indexed data.
//!
//! A row carries a date, a series key (the UTF-8 bytes of the series' name),
//! and an observed value. Rows fold into one mapping per series from day to
//! value; a later row for the same (series, date) pair overwrites the earlier
//! one (last-write-wins). The fold also tracks the global date interval and
//! the largest single observed value, over every row seen, including rows
//! that were later overwritten.

use crate::date::Date;
use vstd::prelude::*;

verus! {

/// One decoded input row: a date, the series' key, and the observed value.
pub struct Row {
    pub date: Date,
    pub key: Vec<u8>,
    pub value: u64,
}

/// The accumulated data of one series: its key and its recorded
/// (date, value) points, one per distinct date.
pub struct SeriesAcc {
    pub key: Vec<u8>,
    pub points: Vec<(Date, u64)>,
}

/// The state produced by one pass over the rows: per-series data plus the
/// global domain bounds.
pub struct Aggregate {
    pub series: Vec<SeriesAcc>,
    /// Smallest day seen in any row.
    pub min_day: u64,
    /// Largest day seen in any row.
    pub max_day: u64,
    /// Largest single value seen in any row (not a sum).
    pub max_value: u64,
}

/// No two points fall on the same day.
pub open spec fn distinct_days(ps: Seq<(Date, u64)>) -> bool {
    forall|i: int, j: int| 0 <= i < j < ps.len() ==> ps[i].0.day != ps[j].0.day
}

/// No two series share a key.
pub open spec fn distinct_keys(ss: Seq<SeriesAcc>) -> bool {
    forall|i: int, j: int| 0 <= i < j < ss.len() ==> ss[i].key@ != ss[j].key@
}

/// The day-to-value mapping a point list stands for: later points overwrite
/// earlier ones on the same day.
pub open spec fn points_map(ps: Seq<(Date, u64)>) -> Map<u64, u64>
    decreases ps.len(),
{
    if ps.len() == 0 {
        Map::empty()
    } else {
        points_map(ps.drop_last()).insert(ps.last().0.day, ps.last().1)
    }
}

/// The key-to-series mapping a series list stands for.
pub open spec fn series_map(ss: Seq<SeriesAcc>) -> Map<Seq<u8>, Map<u64, u64>>
    decreases ss.len(),
{
    if ss.len() == 0 {
        Map::empty()
    } else {
        series_map(ss.drop_last()).insert(ss.last().key@, points_map(ss.last().points@))
    }
}

/// The aggregated mapping that a row sequence denotes: each row writes its
/// value at (key, day), so the last row for a pair wins.
pub open spec fn agg_map(rows: Seq<Row>) -> Map<Seq<u8>, Map<u64, u64>>
    decreases rows.len(),
{
    if rows.len() == 0 {
        Map::empty()
    } else {
        let m = agg_map(rows.drop_last());
        let r = rows.last();
        let inner = if m.contains_key(r.key@) {
            m[r.key@]
        } else {
            Map::<u64, u64>::empty()
        };
        m.insert(r.key@, inner.insert(r.date.day, r.value))
    }
}

/// Smallest day among the rows (meaningful only for a non-empty sequence).
pub open spec fn rows_min_day(rows: Seq<Row>) -> u64
    recommends
        rows.len() > 0,
    decreases rows.len(),
{
    if rows.len() <= 1 {
        rows[0].date.day
    } else {
        let p = rows_min_day(rows.drop_last());
        if rows.last().date.day < p {
            rows.last().date.day
        } else {
            p
        }
    }
}

/// Largest day among the rows (meaningful only for a non-empty sequence).
pub open spec fn rows_max_day(rows: Seq<Row>) -> u64
    recommends
        rows.len() > 0,
    decreases rows.len(),
{
    if rows.len() <= 1 {
        rows[0].date.day
    } else {
        let p = rows_max_day(rows.drop_last());
        if rows.last().date.day > p {
            rows.last().date.day
        } else {
            p
        }
    }
}

/// Largest single value among the rows (meaningful only for a non-empty
/// sequence).
pub open spec fn rows_max_value(rows: Seq<Row>) -> u64
    recommends
        rows.len() > 0,
    decreases rows.len(),
{
    if rows.len() <= 1 {
        rows[0].value
    } else {
        let p = rows_max_value(rows.drop_last());
        if rows.last().value > p {
            rows.last().value
        } else {
            p
        }
    }
}

/// No two rows write different values to the same (series, date) pair.
pub open spec fn no_conflicts(rows: Seq<Row>) -> bool {
    forall|i: int, j: int|
        0 <= i < rows.len() && 0 <= j < rows.len() && rows[i].key@ == rows[j].key@
            && rows[i].date.day == rows[j].date.day ==> rows[i].value == rows[j].value
}

impl Aggregate {
    /// Structural invariant: series keys are unique, each series has at most
    /// one point per day, and the date interval is non-degenerate.
    pub open spec fn wf(self) -> bool {
        &&& distinct_keys(self.series@)
        &&& forall|i: int|
            0 <= i < self.series@.len() ==> distinct_days(#[trigger] self.series@[i].points@)
        &&& self.min_day <= self.max_day
    }

    /// The aggregated mapping this state stands for.
    pub open spec fn as_map(self) -> Map<Seq<u8>, Map<u64, u64>> {
        series_map(self.series@)
    }
}

/// A point list contains a day exactly when one of its points falls on it.
pub proof fn lemma_points_map_contains(ps: Seq<(Date, u64)>, d: u64)
    ensures
        points_map(ps).contains_key(d) <==> exists|i: int| 0 <= i < ps.len() && ps[i].0.day == d,
    decreases ps.len(),
{
    if ps.len() > 0 {
        lemma_points_map_contains(ps.drop_last(), d);
        if ps.last().0.day == d {
            assert(ps[ps.len() - 1].0.day == d);
        } else {
            if exists|i: int| 0 <= i < ps.drop_last().len() && ps.drop_last()[i].0.day == d {
                let i = choose|i: int|
                    0 <= i < ps.drop_last().len() && ps.drop_last()[i].0.day == d;
                assert(ps[i].0.day == d);
            }
            if exists|i: int| 0 <= i < ps.len() && ps[i].0.day == d {
                let i = choose|i: int| 0 <= i < ps.len() && ps[i].0.day == d;
                assert(ps.drop_last()[i].0.day == d);
            }
        }
    }
}

/// With distinct days, the mapping reads back each point's value.
pub proof fn lemma_points_map_index(ps: Seq<(Date, u64)>, i: int)
    requires
        0 <= i < ps.len(),
        distinct_days(ps),
    ensures
        points_map(ps).contains_key(ps[i].0.day),
        points_map(ps)[ps[i].0.day] == ps[i].1,
    decreases ps.len(),
{
    if i < ps.len() - 1 {
        assert(distinct_days(ps.drop_last()));
        assert(ps.drop_last()[i] == ps[i]);
        lemma_points_map_index(ps.drop_last(), i);
    }
}

/// Overwriting one point's value updates the mapping at that day alone.
pub proof fn lemma_points_map_update(ps: Seq<(Date, u64)>, i: int, v: u64)
    requires
        0 <= i < ps.len(),
        distinct_days(ps),
    ensures
        points_map(ps.update(i, (ps[i].0, v))) == points_map(ps).insert(ps[i].0.day, v),
    decreases ps.len(),
{
    let up = ps.update(i, (ps[i].0, v));
    if i == ps.len() - 1 {
        assert(up.drop_last() =~= ps.drop_last());
        assert(points_map(up) =~= points_map(ps).insert(ps[i].0.day, v));
    } else {
        assert(distinct_days(ps.drop_last()));
        assert(ps.drop_last()[i] == ps[i]);
        lemma_points_map_update(ps.drop_last(), i, v);
        assert(up.drop_last() =~= ps.drop_last().update(i, (ps[i].0, v)));
        assert(up.last() == ps.last());
        assert(ps.last().0.day != ps[i].0.day);
        assert(points_map(up) =~= points_map(ps).insert(ps[i].0.day, v));
    }
}

/// A series list contains a key exactly when one of its series carries it.
pub proof fn lemma_series_map_contains(ss: Seq<SeriesAcc>, k: Seq<u8>)
    ensures
        series_map(ss).contains_key(k) <==> exists|i: int| 0 <= i < ss.len() && ss[i].key@ == k,
    decreases ss.len(),
{
    if ss.len() > 0 {
        lemma_series_map_contains(ss.drop_last(), k);
        if ss.last().key@ == k {
            assert(ss[ss.len() - 1].key@ == k);
        } else {
            if exists|i: int| 0 <= i < ss.drop_last().len() && ss.drop_last()[i].key@ == k {
                let i = choose|i: int| 0 <= i < ss.drop_last().len() && ss.drop_last()[i].key@ == k;
                assert(ss[i].key@ == k);
            }
            if exists|i: int| 0 <= i < ss.len() && ss[i].key@ == k {
                let i = choose|i: int| 0 <= i < ss.len() && ss[i].key@ == k;
                assert(ss.drop_last()[i].key@ == k);
            }
        }
    }
}

/// With distinct keys, the mapping reads back each series' points.
pub proof fn lemma_series_map_index(ss: Seq<SeriesAcc>, i: int)
    requires
        0 <= i < ss.len(),
        distinct_keys(ss),
    ensures
        series_map(ss).contains_key(ss[i].key@),
        series_map(ss)[ss[i].key@] == points_map(ss[i].points@),
    decreases ss.len(),
{
    if i < ss.len() - 1 {
        assert(distinct_keys(ss.drop_last()));
        assert(ss.drop_last()[i] == ss[i]);
        lemma_series_map_index(ss.drop_last(), i);
    }
}

/// Replacing one series' points (keeping its key) updates the mapping at
/// that key alone.
pub proof fn lemma_series_map_update(ss: Seq<SeriesAcc>, i: int, s: SeriesAcc)
    requires
        0 <= i < ss.len(),
        distinct_keys(ss),
        s.key@ == ss[i].key@,
    ensures
        series_map(ss.update(i, s)) == series_map(ss).insert(s.key@, points_map(s.points@)),
    decreases ss.len(),
{
    let up = ss.update(i, s);
    if i == ss.len() - 1 {
        assert(up.drop_last() =~= ss.drop_last());
        assert(series_map(up) =~= series_map(ss).insert(s.key@, points_map(s.points@)));
    } else {
        assert(distinct_keys(ss.drop_last()));
        assert(ss.drop_last()[i] == ss[i]);
        lemma_series_map_update(ss.drop_last(), i, s);
        assert(up.drop_last() =~= ss.drop_last().update(i, s));
        assert(up.last() == ss.last());
        assert(ss.last().key@ != ss[i].key@);
        assert(series_map(up) =~= series_map(ss).insert(s.key@, points_map(s.points@)));
    }
}

/// With distinct keys, the mapping has exactly one entry per series.
pub proof fn lemma_series_map_dom_len(ss: Seq<SeriesAcc>)
    requires
        distinct_keys(ss),
    ensures
        series_map(ss).dom().finite(),
        series_map(ss).dom().len() == ss.len(),
    decreases ss.len(),
{
    if ss.len() > 0 {
        assert(distinct_keys(ss.drop_last()));
        lemma_series_map_dom_len(ss.drop_last());
        lemma_series_map_contains(ss.drop_last(), ss.last().key@);
        assert(!series_map(ss.drop_last()).contains_key(ss.last().key@)) by {
            if exists|i: int|
                0 <= i < ss.drop_last().len() && ss.drop_last()[i].key@ == ss.last().key@ {
                let i = choose|i: int|
                    0 <= i < ss.drop_last().len() && ss.drop_last()[i].key@ == ss.last().key@;
                assert(ss[i].key@ == ss[ss.len() - 1].key@);
            }
        }
        assert(series_map(ss).dom() =~= series_map(ss.drop_last()).dom().insert(ss.last().key@));
    }
}

/// Finds the series holding the given key, if any.
fn find_series(ss: &Vec<SeriesAcc>, key: &Vec<u8>) -> (r: Option<usize>)
    ensures
        r matches Some(i) ==> i < ss@.len() && ss@[i as int].key@ == key@,
        r is None ==> forall|i: int| 0 <= i < ss@.len() ==> ss@[i].key@ != key@,
{
    let mut i: usize = 0;
    while i < ss.len()
        invariant
            i <= ss@.len(),
            forall|j: int| 0 <= j < i ==> ss@[j].key@ != key@,
        decreases ss@.len() - i,
    {
        if crate::order::bytes_eq(&ss[i].key, key) {
            return Some(i);
        }
        i = i + 1;
    }
    None
}

/// Finds the point on the given day, if any.
fn find_point(ps: &Vec<(Date, u64)>, d: Date) -> (r: Option<usize>)
    ensures
        r matches Some(i) ==> i < ps@.len() && ps@[i as int].0.day == d.day,
        r is None ==> forall|i: int| 0 <= i < ps@.len() ==> ps@[i].0.day != d.day,
{
    let mut i: usize = 0;
    while i < ps.len()
        invariant
            i <= ps@.len(),
            forall|j: int| 0 <= j < i ==> ps@[j].0.day != d.day,
        decreases ps@.len() - i,
    {
        if ps[i].0.day == d.day {
            return Some(i);
        }
        i = i + 1;
    }
    None
}

/// Folds the rows into per-series data in one pass.
///
/// Returns `None` exactly when there are no rows: an empty input has no date
/// domain, and callers must treat it as an explicit condition rather than
/// chart it. For non-empty input the result's mapping is the rows' aggregated
/// mapping (last-write-wins), and the bounds cover every observed row.
pub fn aggregate(rows: &Vec<Row>) -> (r: Option<Aggregate>)
    ensures
        r is Some <==> rows@.len() > 0,
        r matches Some(agg) ==> {
            &&& agg.wf()
            &&& agg.as_map() == agg_map(rows@)
            &&& agg.min_day == rows_min_day(rows@)
            &&& agg.max_day == rows_max_day(rows@)
            &&& agg.max_value == rows_max_value(rows@)
        },
{
    if rows.len() == 0 {
        return None;
    }
    let mut series: Vec<SeriesAcc> = Vec::new();
    let mut min_day = rows[0].date.day;
    let mut max_day = rows[0].date.day;
    let mut max_value = rows[0].value;
    let mut i: usize = 0;
    proof {
        assert(rows@.take(0) =~= Seq::<Row>::empty());
    }
    while i < rows.len()
        invariant
            i <= rows@.len(),
            rows@.len() > 0,
            series_map(series@) == agg_map(rows@.take(i as int)),
            distinct_keys(series@),
            forall|si: int|
                0 <= si < series@.len() ==> distinct_days(#[trigger] series@[si].points@),
            min_day <= max_day,
            i == 0 ==> min_day == rows@[0].date.day && max_day == rows@[0].date.day && max_value
                == rows@[0].value,
            i > 0 ==> min_day == rows_min_day(rows@.take(i as int)) && max_day == rows_max_day(
                rows@.take(i as int),
            ) && max_value == rows_max_value(rows@.take(i as int)),
        decreases rows@.len() - i,
    {
        let d = rows[i].date;
        let v = rows[i].value;
        let ghost pre = series@;
        let ghost tpre = rows@.take(i as int);
        let ghost tpost = rows@.take(i as int + 1);
        proof {
            assert(tpost.drop_last() =~= tpre);
            assert(tpost.last() == rows@[i as int]);
        }
        match find_series(&series, &rows[i].key) {
            Some(si) => {
                proof {
                    lemma_series_map_index(pre, si as int);
                }
                match find_point(&series[si].points, d) {
                    Some(pi) => {
                        let ghost pts = pre[si as int].points@;
                        series[si].points[pi] = (d, v);
                        proof {
                            assert(pts[pi as int].0 == d);
                            assert(series@ =~= pre.update(
                                si as int,
                                SeriesAcc { key: pre[si as int].key, points: series@[si as int].points },
                            ));
                            assert(series@[si as int].points@ =~= pts.update(pi as int, (d, v)));
                            lemma_points_map_update(pts, pi as int, v);
                            lemma_series_map_update(pre, si as int, series@[si as int]);
                        }
                    },
                    None => {
                        let ghost pts = pre[si as int].points@;
                        series[si].points.push((d, v));
                        proof {
                            assert(series@ =~= pre.update(
                                si as int,
                                SeriesAcc { key: pre[si as int].key, points: series@[si as int].points },
                            ));
                            assert(series@[si as int].points@ =~= pts.push((d, v)));
                            assert(pts.push((d, v)).drop_last() =~= pts);
                            lemma_series_map_update(pre, si as int, series@[si as int]);
                        }
                    },
                }
            },
            None => {
                let mut ps: Vec<(Date, u64)> = Vec::new();
                ps.push((d, v));
                let acc = SeriesAcc { key: rows[i].key.clone(), points: ps };
                series.push(acc);
                proof {
                    assert(series@.drop_last() =~= pre);
                    assert(series@.last().points@ =~= seq![(d, v)]);
                    lemma_series_map_contains(pre, rows@[i as int].key@);
                    let s1 = seq![(d, v)];
                    assert(s1.last() == (d, v));
                    assert(s1.drop_last() =~= Seq::<(Date, u64)>::empty());
                    assert(points_map(s1.drop_last()) == Map::<u64, u64>::empty());
                    assert(points_map(s1) =~= Map::<u64, u64>::empty().insert(d.day, v));
                }
            },
        }
        if rows[i].date.day < min_day {
            min_day = rows[i].date.day;
        }
        if rows[i].date.day > max_day {
            max_day = rows[i].date.day;
        }
        if rows[i].value > max_value {
            max_value = rows[i].value;
        }
        i = i + 1;
    }
    proof {
        assert(rows@.take(rows@.len() as int) =~= rows@);
    }
    Some(Aggregate { series, min_day, max_day, max_value })
}

/// Every aggregated point lies inside the tracked bounds: its day within the
/// date interval and its value at most the largest observed value. Plotting
/// every stored point through a projection built from those bounds is
/// therefore always within the domain.
pub proof fn lemma_agg_map_bounds(rows: Seq<Row>, k: Seq<u8>, d: u64)
    requires
        rows.len() > 0,
        agg_map(rows).contains_key(k),
        agg_map(rows)[k].contains_key(d),
    ensures
        rows_min_day(rows) <= d <= rows_max_day(rows),
        agg_map(rows)[k][d] <= rows_max_value(rows),
    decreases rows.len(),
{
    let last = rows.last();
    let prefix = rows.drop_last();
    if rows.len() == 1 {
        lemma_agg_map_contains_day(rows, k, d);
        assert(last.key@ == k && last.date.day == d);
    } else {
        if last.key@ == k && last.date.day == d {
        } else {
            lemma_agg_map_contains_day(rows, k, d);
            lemma_agg_map_contains_day(prefix, k, d);
            let i = choose|i: int| 0 <= i < rows.len() && rows[i].key@ == k && rows[i].date.day
                == d;
            assert(prefix[i] == rows[i]);
            lemma_agg_map_bounds(prefix, k, d);
        }
    }
}

/// Last write wins: if no later row touches the same (series, date) pair,
/// the aggregated mapping holds exactly that row's value there.
pub proof fn lemma_last_write_wins(rows: Seq<Row>, i: int)
    requires
        0 <= i < rows.len(),
        forall|j: int|
            i < j < rows.len() ==> !(rows[j].key@ == rows[i].key@ && rows[j].date.day
                == rows[i].date.day),
    ensures
        agg_map(rows).contains_key(rows[i].key@),
        agg_map(rows)[rows[i].key@].contains_key(rows[i].date.day),
        agg_map(rows)[rows[i].key@][rows[i].date.day] == rows[i].value,
    decreases rows.len(),
{
    if i == rows.len() - 1 {
    } else {
        assert(rows.drop_last()[i] == rows[i]);
        lemma_last_write_wins(rows.drop_last(), i);
    }
}

/// The aggregated mapping has a series exactly when some row carries its key.
pub proof fn lemma_agg_map_contains_key(rows: Seq<Row>, k: Seq<u8>)
    ensures
        agg_map(rows).contains_key(k) <==> exists|i: int| 0 <= i < rows.len() && rows[i].key@ == k,
    decreases rows.len(),
{
    if rows.len() > 0 {
        lemma_agg_map_contains_key(rows.drop_last(), k);
        if rows.last().key@ == k {
            assert(rows[rows.len() - 1].key@ == k);
        } else {
            if exists|i: int| 0 <= i < rows.drop_last().len() && rows.drop_last()[i].key@ == k {
                let i = choose|i: int|
                    0 <= i < rows.drop_last().len() && rows.drop_last()[i].key@ == k;
                assert(rows[i].key@ == k);
            }
            if exists|i: int| 0 <= i < rows.len() && rows[i].key@ == k {
                let i = choose|i: int| 0 <= i < rows.len() && rows[i].key@ == k;
                assert(rows.drop_last()[i].key@ == k);
            }
        }
    }
}

/// A series' mapping has a day exactly when some row carries its key and
/// falls on that day.
pub proof fn lemma_agg_map_contains_day(rows: Seq<Row>, k: Seq<u8>, d: u64)
    ensures
        (agg_map(rows).contains_key(k) && agg_map(rows)[k].contains_key(d)) <==> exists|i: int|
            0 <= i < rows.len() && rows[i].key@ == k && rows[i].date.day == d,
    decreases rows.len(),
{
    if rows.len() > 0 {
        lemma_agg_map_contains_day(rows.drop_last(), k, d);
        lemma_agg_map_contains_key(rows.drop_last(), k);
        if rows.last().key@ == k && rows.last().date.day == d {
            assert(rows[rows.len() - 1].key@ == k && rows[rows.len() - 1].date.day == d);
        } else {
            if exists|i: int|
                0 <= i < rows.drop_last().len() && rows.drop_last()[i].key@ == k
                    && rows.drop_last()[i].date.day == d {
                let i = choose|i: int|
                    0 <= i < rows.drop_last().len() && rows.drop_last()[i].key@ == k
                        && rows.drop_last()[i].date.day == d;
                assert(rows[i].key@ == k && rows[i].date.day == d);
            }
            if exists|i: int| 0 <= i < rows.len() && rows[i].key@ == k && rows[i].date.day == d {
                let i = choose|i: int|
                    0 <= i < rows.len() && rows[i].key@ == k && rows[i].date.day == d;
                assert(rows.drop_last()[i].key@ == k && rows.drop_last()[i].date.day == d);
            }
        }
    }
}

/// When no two rows conflict, every row's value can be read back from the
/// aggregated mapping, whatever the row order was.
pub proof fn lemma_agg_map_value(rows: Seq<Row>, i: int)
    requires
        no_conflicts(rows),
        0 <= i < rows.len(),
    ensures
        agg_map(rows).contains_key(rows[i].key@),
        agg_map(rows)[rows[i].key@].contains_key(rows[i].date.day),
        agg_map(rows)[rows[i].key@][rows[i].date.day] == rows[i].value,
    decreases rows.len(),
{
    let last = rows.last();
    if last.key@ == rows[i].key@ && last.date.day == rows[i].date.day {
        assert(rows[rows.len() - 1].value == rows[i].value);
    } else {
        assert(i < rows.len() - 1);
        assert(no_conflicts(rows.drop_last())) by {
            assert forall|a: int, b: int|
                0 <= a < rows.drop_last().len() && 0 <= b < rows.drop_last().len()
                    && rows.drop_last()[a].key@ == rows.drop_last()[b].key@
                    && rows.drop_last()[a].date.day
                    == rows.drop_last()[b].date.day implies rows.drop_last()[a].value
                == rows.drop_last()[b].value by {
                assert(rows[a] == rows.drop_last()[a]);
                assert(rows[b] == rows.drop_last()[b]);
            }
        }
        assert(rows.drop_last()[i] == rows[i]);
        lemma_agg_map_value(rows.drop_last(), i);
    }
}

/// A row of one sequence is found in any sequence holding the same rows.
proof fn lemma_row_transfer(s1: Seq<Row>, s2: Seq<Row>, x: Row)
    requires
        s1.to_multiset() == s2.to_multiset(),
        s1.contains(x),
    ensures
        s2.contains(x),
{
    broadcast use vstd::seq_lib::group_to_multiset_ensures;

    assert(s1.to_multiset().count(x) > 0);
    assert(s2.to_multiset().count(x) > 0);
}

/// Permutation invariance of aggregation: two row sequences holding the same
/// rows (as a multiset), none of which conflict, aggregate to the same
/// mapping.
pub proof fn lemma_agg_map_permutation(rows1: Seq<Row>, rows2: Seq<Row>)
    requires
        rows1.to_multiset() == rows2.to_multiset(),
        no_conflicts(rows1),
    ensures
        agg_map(rows1) == agg_map(rows2),
{
    broadcast use vstd::seq_lib::group_to_multiset_ensures;

    let m1 = agg_map(rows1);
    let m2 = agg_map(rows2);
    assert forall|k: Seq<u8>| m1.contains_key(k) == m2.contains_key(k) by {
        lemma_agg_map_contains_key(rows1, k);
        lemma_agg_map_contains_key(rows2, k);
        if exists|i: int| 0 <= i < rows1.len() && rows1[i].key@ == k {
            let i = choose|i: int| 0 <= i < rows1.len() && rows1[i].key@ == k;
            assert(rows1.contains(rows1[i]));
            lemma_row_transfer(rows1, rows2, rows1[i]);
        }
        if exists|i: int| 0 <= i < rows2.len() && rows2[i].key@ == k {
            let i = choose|i: int| 0 <= i < rows2.len() && rows2[i].key@ == k;
            assert(rows2.contains(rows2[i]));
            lemma_row_transfer(rows2, rows1, rows2[i]);
        }
    }
    assert forall|k: Seq<u8>| #[trigger] m1.contains_key(k) implies m1[k] == m2[k] by {
        assert forall|d: u64| m1[k].contains_key(d) == m2[k].contains_key(d) by {
            lemma_agg_map_contains_day(rows1, k, d);
            lemma_agg_map_contains_day(rows2, k, d);
            if exists|i: int| 0 <= i < rows1.len() && rows1[i].key@ == k && rows1[i].date.day
                == d {
                let i = choose|i: int|
                    0 <= i < rows1.len() && rows1[i].key@ == k && rows1[i].date.day == d;
                assert(rows1.contains(rows1[i]));
                lemma_row_transfer(rows1, rows2, rows1[i]);
            }
            if exists|i: int| 0 <= i < rows2.len() && rows2[i].key@ == k && rows2[i].date.day
                == d {
                let i = choose|i: int|
                    0 <= i < rows2.len() && rows2[i].key@ == k && rows2[i].date.day == d;
                assert(rows2.contains(rows2[i]));
                lemma_row_transfer(rows2, rows1, rows2[i]);
            }
        }
        assert forall|d: u64| #[trigger] m1[k].contains_key(d) implies m1[k][d] == m2[k][d] by {
            lemma_agg_map_contains_day(rows1, k, d);
            let i = choose|i: int|
                0 <= i < rows1.len() && rows1[i].key@ == k && rows1[i].date.day == d;
            lemma_agg_map_value(rows1, i);
            assert(rows1.contains(rows1[i]));
            lemma_row_transfer(rows1, rows2, rows1[i]);
            let j = choose|j: int| 0 <= j < rows2.len() && rows2[j] == rows1[i];
            assert(no_conflicts(rows2)) by {
                assert forall|a: int, b: int|
                    0 <= a < rows2.len() && 0 <= b < rows2.len() && rows2[a].key@ == rows2[b].key@
                        && rows2[a].date.day == rows2[b].date.day implies rows2[a].value
                    == rows2[b].value by {
                    assert(rows2.contains(rows2[a]));
                    assert(rows2.contains(rows2[b]));
                    lemma_row_transfer(rows2, rows1, rows2[a]);
                    lemma_row_transfer(rows2, rows1, rows2[b]);
                    let a1 = choose|x: int| 0 <= x < rows1.len() && rows1[x] == rows2[a];
                    let b1 = choose|x: int| 0 <= x < rows1.len() && rows1[x] == rows2[b];
                    assert(rows1[a1].value == rows1[b1].value);
                }
            }
            lemma_agg_map_value(rows2, j);
        }
        assert(m1[k] =~= m2[k]);
    }
    assert(m1 =~= m2);
}

} // verus!
