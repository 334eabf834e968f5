//! Ranking the aggregated series by total value.
//!
//! Each series' total is the sum of its recorded observations. Series are
//! ordered by total descending, ties broken by key ascending, and the result
//! is truncated to the top [`crate::MAX_SERIES`] entries after the full sort,
//! so the selection reflects the true global ranking. The ordering is a
//! function of the aggregated mapping alone, so permuting the input rows
//! never changes it.

use crate::agg::{distinct_days, points_map, Aggregate};
use crate::date::Date;
use crate::order::{
    bytes_le, le_fn, lemma_lex_le_antisymmetric, lemma_lex_le_total, lemma_lex_le_transitive,
    lex_le, sort_vec, SortOrd,
};
use vstd::prelude::*;
use vstd::relations::sorted_by;

verus! {

/// One ranked series: its key, its points sorted by date ascending, and the
/// sum of its recorded values.
pub struct RankedEntry {
    pub key: Vec<u8>,
    pub points: Vec<(Date, u64)>,
    pub total: u128,
}

/// Points order by day ascending; equal days order by value, which makes the
/// relation a total order on (date, value) pairs.
impl SortOrd for (Date, u64) {
    open spec fn le_spec(self, other: Self) -> bool {
        self.0.day < other.0.day || (self.0.day == other.0.day && self.1 <= other.1)
    }

    proof fn lemma_le_total(a: Self, b: Self) {
    }

    proof fn lemma_le_transitive(a: Self, b: Self, c: Self) {
    }

    fn le(&self, other: &Self) -> (r: bool) {
        self.0.day < other.0.day || (self.0.day == other.0.day && self.1 <= other.1)
    }
}

/// The ranking order: total descending, then key ascending.
pub open spec fn entry_le(a: RankedEntry, b: RankedEntry) -> bool {
    a.total > b.total || (a.total == b.total && lex_le(a.key@, b.key@))
}

impl SortOrd for RankedEntry {
    open spec fn le_spec(self, other: Self) -> bool {
        entry_le(self, other)
    }

    proof fn lemma_le_total(a: Self, b: Self) {
        lemma_lex_le_total(a.key@, b.key@);
    }

    proof fn lemma_le_transitive(a: Self, b: Self, c: Self) {
        if a.total == b.total && b.total == c.total {
            lemma_lex_le_transitive(a.key@, b.key@, c.key@);
        }
    }

    fn le(&self, other: &Self) -> (r: bool) {
        if self.total > other.total {
            true
        } else if self.total < other.total {
            false
        } else {
            bytes_le(&self.key, &other.key)
        }
    }
}

/// Sum of the values of a point list.
pub open spec fn sum_values(ps: Seq<(Date, u64)>) -> int
    decreases ps.len(),
{
    if ps.len() == 0 {
        0
    } else {
        sum_values(ps.drop_last()) + ps.last().1
    }
}

/// Sums the values of a point list; the sum of at most `usize::MAX` values
/// of `u64` always fits in a `u128`.
fn sum_points(ps: &Vec<(Date, u64)>) -> (t: u128)
    ensures
        t as int == sum_values(ps@),
{
    let mut t: u128 = 0;
    let mut i: usize = 0;
    proof {
        assert(ps@.take(0) =~= Seq::<(Date, u64)>::empty());
    }
    while i < ps.len()
        invariant
            i <= ps@.len(),
            t as int == sum_values(ps@.take(i as int)),
            t as int <= (i as int) * 0xffff_ffff_ffff_ffff,
        decreases ps@.len() - i,
    {
        proof {
            assert(ps@.take(i as int + 1).drop_last() =~= ps@.take(i as int));
            assert(ps@.take(i as int + 1).last() == ps@[i as int]);
            assert((i as int + 1) * 0xffff_ffff_ffff_ffff <= 0x1_0000_0000_0000_0000
                * 0xffff_ffff_ffff_ffff) by (nonlinear_arith)
                requires
                    i as int + 1 <= 0x1_0000_0000_0000_0000,
            ;
        }
        t = t + (ps[i].1 as u128);
        i = i + 1;
    }
    proof {
        assert(ps@.take(ps@.len() as int) =~= ps@);
    }
    t
}

/// The canonical presentation of a day-to-value mapping: points sorted by
/// date ascending, one per day, carrying exactly the mapping's values.
pub open spec fn is_canon_points(ps: Seq<(Date, u64)>, m: Map<u64, u64>) -> bool {
    &&& sorted_by(ps, le_fn::<(Date, u64)>())
    &&& distinct_days(ps)
    &&& forall|i: int|
        0 <= i < ps.len() ==> m.contains_key(#[trigger] ps[i].0.day) && m[ps[i].0.day] == ps[i].1
    &&& forall|d: u64| #[trigger]
        m.contains_key(d) ==> exists|i: int| 0 <= i < ps.len() && ps[i].0.day == d
}

/// Distinct days survive any reordering of the points.
proof fn lemma_distinct_days_permutation(a: Seq<(Date, u64)>, b: Seq<(Date, u64)>)
    requires
        a.to_multiset() == b.to_multiset(),
        distinct_days(a),
    ensures
        distinct_days(b),
{
    broadcast use vstd::seq_lib::group_to_multiset_ensures;

    assert(a.no_duplicates());
    a.lemma_multiset_has_no_duplicates();
    b.lemma_multiset_has_no_duplicates_conv();
    assert forall|i: int, j: int| 0 <= i < j < b.len() implies b[i].0.day != b[j].0.day by {
        if b[i].0.day == b[j].0.day {
            assert(b[i] != b[j]);
            assert(b.contains(b[i]));
            assert(b.contains(b[j]));
            crate::order::lemma_elem_transfer(b, a, b[i]);
            crate::order::lemma_elem_transfer(b, a, b[j]);
            let i1 = choose|x: int| 0 <= x < a.len() && a[x] == b[i];
            let j1 = choose|x: int| 0 <= x < a.len() && a[x] == b[j];
            assert(a[i1].0.day != a[j1].0.day);
        }
    }
}

/// A mapping has exactly one canonical presentation.
pub proof fn lemma_canon_points_unique(a: Seq<(Date, u64)>, b: Seq<(Date, u64)>, m: Map<u64, u64>)
    requires
        is_canon_points(a, m),
        is_canon_points(b, m),
    ensures
        a == b,
{
    broadcast use vstd::seq_lib::group_to_multiset_ensures;

    assert(a.no_duplicates());
    assert(b.no_duplicates());
    a.lemma_multiset_has_no_duplicates();
    b.lemma_multiset_has_no_duplicates();
    assert forall|x: (Date, u64)| a.to_multiset().count(x) == b.to_multiset().count(x) by {
        if a.contains(x) {
            let i = choose|i: int| 0 <= i < a.len() && a[i] == x;
            assert(m.contains_key(x.0.day) && m[x.0.day] == x.1);
            let j = choose|j: int| 0 <= j < b.len() && b[j].0.day == x.0.day;
            assert(b[j].0 == x.0);
            assert(b[j].1 == x.1);
            assert(b.contains(x));
        } else if b.contains(x) {
            let j = choose|j: int| 0 <= j < b.len() && b[j] == x;
            assert(m.contains_key(x.0.day) && m[x.0.day] == x.1);
            let i = choose|i: int| 0 <= i < a.len() && a[i].0.day == x.0.day;
            assert(a[i].0 == x.0);
            assert(a[i].1 == x.1);
            assert(a.contains(x));
        } else {
            assert(a.to_multiset().count(x) == 0);
            assert(b.to_multiset().count(x) == 0);
        }
    }
    assert(a.to_multiset() =~= b.to_multiset());
    assert(vstd::relations::total_ordering(le_fn::<(Date, u64)>()));
    vstd::seq_lib::lemma_sorted_unique(a, b, le_fn::<(Date, u64)>());
    assert(a =~= b);
}

/// The canonical presentation of a mapping, as a function of the mapping.
pub open spec fn canon_points_of(m: Map<u64, u64>) -> Seq<(Date, u64)> {
    choose|ps: Seq<(Date, u64)>| is_canon_points(ps, m)
}

/// The total a series key carries under an aggregated mapping.
pub open spec fn total_of(m: Map<Seq<u8>, Map<u64, u64>>, k: Seq<u8>) -> int {
    sum_values(canon_points_of(m[k]))
}

/// A well-formed ranked entry for an aggregated mapping: its key is a series
/// of the mapping, its points present that series canonically, and its total
/// is their sum.
pub open spec fn entry_wf(e: RankedEntry, m: Map<Seq<u8>, Map<u64, u64>>) -> bool {
    &&& m.contains_key(e.key@)
    &&& is_canon_points(e.points@, m[e.key@])
    &&& e.total as int == sum_values(e.points@)
}

/// A well-formed entry's total is the total its key carries.
pub proof fn lemma_entry_total_of(e: RankedEntry, m: Map<Seq<u8>, Map<u64, u64>>)
    requires
        entry_wf(e, m),
    ensures
        total_of(m, e.key@) == e.total as int,
{
    assert(is_canon_points(e.points@, m[e.key@]));
    let c = canon_points_of(m[e.key@]);
    assert(is_canon_points(c, m[e.key@])) by {
        assert(exists|ps: Seq<(Date, u64)>| is_canon_points(ps, m[e.key@]));
    }
    lemma_canon_points_unique(c, e.points@, m[e.key@]);
}

/// Whether some entry of the ranking carries the key.
pub open spec fn has_key(r: Seq<RankedEntry>, k: Seq<u8>) -> bool {
    exists|j: int| 0 <= j < r.len() && r[j].key@ == k
}

/// The entry ranks at or above the series of key `k`: its total is greater,
/// or equal with a key that is not lexicographically later.
pub open spec fn outranks(e: RankedEntry, m: Map<Seq<u8>, Map<u64, u64>>, k: Seq<u8>) -> bool {
    ||| e.total as int > total_of(m, k)
    ||| (e.total as int == total_of(m, k) && lex_le(e.key@, k))
}

/// What the ranking of an aggregated mapping is: one well-formed entry per
/// series up to the display cap, keys distinct, ordered by total descending
/// with ties broken by key ascending, and no kept entry outranked by a
/// dropped series.
pub open spec fn ranked_of(r: Seq<RankedEntry>, m: Map<Seq<u8>, Map<u64, u64>>) -> bool {
    &&& m.dom().finite()
    &&& r.len() == vstd::math::min(m.dom().len() as int, crate::MAX_SERIES as int)
    &&& forall|j: int| 0 <= j < r.len() ==> entry_wf(#[trigger] r[j], m)
    &&& forall|i: int, j: int| 0 <= i < j < r.len() ==> r[i].key@ != r[j].key@
    &&& forall|i: int, j: int| 0 <= i < j < r.len() ==> entry_le(r[i], r[j])
    &&& forall|k: Seq<u8>, j: int|
        m.dom().contains(k) && !has_key(r, k) && 0 <= j < r.len() ==> #[trigger] outranks(
            r[j],
            m,
            k,
        )
}

/// Copies a point list.
fn copy_points(ps: &Vec<(Date, u64)>) -> (r: Vec<(Date, u64)>)
    ensures
        r@ == ps@,
{
    let mut r: Vec<(Date, u64)> = Vec::new();
    let mut i: usize = 0;
    while i < ps.len()
        invariant
            i <= ps@.len(),
            r@ == ps@.take(i as int),
        decreases ps@.len() - i,
    {
        r.push(ps[i]);
        proof {
            assert(ps@.take(i as int + 1) =~= ps@.take(i as int).push(ps@[i as int]));
        }
        i = i + 1;
    }
    proof {
        assert(ps@.take(ps@.len() as int) =~= ps@);
    }
    r
}

/// Ranks the aggregated series: totals are summed per series, the series are
/// sorted by total descending (ties by key ascending), and only the top
/// [`crate::MAX_SERIES`] survive, selected after the full sort.
pub fn ranked_series(agg: &Aggregate) -> (r: Vec<RankedEntry>)
    requires
        agg.wf(),
    ensures
        ranked_of(r@, agg.as_map()),
{
    broadcast use vstd::seq_lib::group_to_multiset_ensures;

    let ghost m = agg.as_map();
    let mut entries: Vec<RankedEntry> = Vec::new();
    let mut si: usize = 0;
    while si < agg.series.len()
        invariant
            agg.wf(),
            m == agg.as_map(),
            si <= agg.series@.len(),
            entries@.len() == si,
            forall|j: int|
                0 <= j < si ==> entry_wf(#[trigger] entries@[j], m) && entries@[j].key@
                    == agg.series@[j].key@,
        decreases agg.series@.len() - si,
    {
        broadcast use vstd::seq_lib::group_to_multiset_ensures;

        let ghost orig = agg.series@[si as int].points@;
        let pts = sort_vec(copy_points(&agg.series[si].points));
        let total = sum_points(&pts);
        let e = RankedEntry { key: crate::order::copy_bytes(&agg.series[si].key), points: pts, total };
        proof {
            crate::agg::lemma_series_map_index(agg.series@, si as int);
            assert(m.contains_key(e.key@));
            assert(m[e.key@] == points_map(orig));
            lemma_distinct_days_permutation(orig, e.points@);
            assert forall|i: int| 0 <= i < e.points@.len() implies m[e.key@].contains_key(
                #[trigger] e.points@[i].0.day,
            ) && m[e.key@][e.points@[i].0.day] == e.points@[i].1 by {
                assert(e.points@.contains(e.points@[i]));
                crate::order::lemma_elem_transfer(e.points@, orig, e.points@[i]);
                let x = choose|x: int| 0 <= x < orig.len() && orig[x] == e.points@[i];
                crate::agg::lemma_points_map_index(orig, x);
            }
            assert forall|d: u64| #[trigger] m[e.key@].contains_key(d) implies exists|i: int|
                0 <= i < e.points@.len() && e.points@[i].0.day == d by {
                crate::agg::lemma_points_map_contains(orig, d);
                let x = choose|x: int| 0 <= x < orig.len() && orig[x].0.day == d;
                assert(orig.contains(orig[x]));
                crate::order::lemma_elem_transfer(orig, e.points@, orig[x]);
                let i = choose|i: int| 0 <= i < e.points@.len() && e.points@[i] == orig[x];
                assert(e.points@[i].0.day == d);
            }
            assert(entry_wf(e, m));
        }
        entries.push(e);
        si = si + 1;
    }
    let ghost before_sort = entries@;
    let mut sorted = sort_vec(entries);
    let ghost fs = sorted@;
    sorted.truncate(crate::MAX_SERIES);
    proof {
        crate::agg::lemma_series_map_dom_len(agg.series@);
        assert(fs.to_multiset().len() == before_sort.to_multiset().len());
        assert(fs.len() == before_sort.len());
        if fs.len() <= crate::MAX_SERIES as int {
            assert(sorted@ == fs);
        } else {
            assert(sorted@ == fs.subrange(0, crate::MAX_SERIES as int));
        }
        // every element of the sorted sequence is one of the built entries
        assert forall|j: int| 0 <= j < fs.len() implies entry_wf(#[trigger] fs[j], m) by {
            assert(fs.contains(fs[j]));
            crate::order::lemma_elem_transfer(fs, before_sort, fs[j]);
            let x = choose|x: int| 0 <= x < before_sort.len() && before_sort[x] == fs[j];
            assert(entry_wf(before_sort[x], m));
        }
        // distinct keys survive the sort
        assert(before_sort.no_duplicates());
        before_sort.lemma_multiset_has_no_duplicates();
        fs.lemma_multiset_has_no_duplicates_conv();
        assert forall|i: int, j: int| 0 <= i < j < fs.len() implies fs[i].key@ != fs[j].key@ by {
            if fs[i].key@ == fs[j].key@ {
                assert(fs[i] != fs[j]);
                assert(fs.contains(fs[i]));
                assert(fs.contains(fs[j]));
                crate::order::lemma_elem_transfer(fs, before_sort, fs[i]);
                crate::order::lemma_elem_transfer(fs, before_sort, fs[j]);
                let i1 = choose|x: int| 0 <= x < before_sort.len() && before_sort[x] == fs[i];
                let j1 = choose|x: int| 0 <= x < before_sort.len() && before_sort[x] == fs[j];
                assert(before_sort[i1].key@ != before_sort[j1].key@);
            }
        }
        assert forall|i: int, j: int| 0 <= i < j < sorted@.len() implies entry_le(
            sorted@[i],
            sorted@[j],
        ) by {
            assert(sorted@[i] == fs[i]);
            assert(sorted@[j] == fs[j]);
            assert((le_fn::<RankedEntry>())(fs[i], fs[j]));
        }
        // dominance: a series whose key was dropped is outranked by each kept
        // entry, because the full sort put it past the cap
        assert forall|k: Seq<u8>, j: int|
            m.dom().contains(k) && !has_key(sorted@, k) && 0 <= j
                < sorted@.len() implies #[trigger] outranks(sorted@[j], m, k) by {
            crate::agg::lemma_series_map_contains(agg.series@, k);
            let si0 = choose|x: int| 0 <= x < agg.series@.len() && agg.series@[x].key@ == k;
            let e0 = before_sort[si0];
            assert(before_sort.contains(e0));
            crate::order::lemma_elem_transfer(before_sort, fs, e0);
            let j0 = choose|x: int| 0 <= x < fs.len() && fs[x] == e0;
            assert(j0 >= sorted@.len()) by {
                if j0 < sorted@.len() {
                    assert(sorted@[j0] == e0);
                    assert(has_key(sorted@, k));
                }
            }
            assert(sorted_by(fs, le_fn::<RankedEntry>()));
            assert(0 <= j < j0 < fs.len());
            assert((le_fn::<RankedEntry>())(fs[j], fs[j0]));
            assert(entry_le(fs[j], fs[j0]));
            lemma_entry_total_of(e0, m);
        }
    }
    sorted
}

/// Truncation correctness: when more series exist than the display cap, the
/// ranking keeps exactly the cap's worth, and every kept entry outranks (by
/// total, then key) every series that was dropped.
pub proof fn lemma_truncation_correct(
    r: Seq<RankedEntry>,
    m: Map<Seq<u8>, Map<u64, u64>>,
    k: Seq<u8>,
)
    requires
        ranked_of(r, m),
        m.dom().contains(k),
        !has_key(r, k),
    ensures
        m.dom().len() > crate::MAX_SERIES,
        r.len() == crate::MAX_SERIES,
        forall|j: int| 0 <= j < r.len() ==> #[trigger] outranks(r[j], m, k),
{
    if m.dom().len() <= crate::MAX_SERIES {
        // every series key would then be present, k among them
        assert(r.len() == m.dom().len());
        lemma_all_keys_present(r, m);
        assert(false);
    }
}

/// The ranking order on (total, key) summaries of entries.
pub open spec fn tk_le(a: (u128, Seq<u8>), b: (u128, Seq<u8>)) -> bool {
    a.0 > b.0 || (a.0 == b.0 && lex_le(a.1, b.1))
}

/// The summary order as a closed-over function value.
pub open spec fn tk_le_fn() -> spec_fn((u128, Seq<u8>), (u128, Seq<u8>)) -> bool {
    |a: (u128, Seq<u8>), b: (u128, Seq<u8>)| tk_le(a, b)
}

/// The summary order is a total order: keys break every tie.
proof fn lemma_tk_le_total_ordering()
    ensures
        vstd::relations::total_ordering(tk_le_fn()),
{
    let r = tk_le_fn();
    assert forall|a: (u128, Seq<u8>)| #[trigger] r(a, a) by {
        lemma_lex_le_total(a.1, a.1);
    }
    assert forall|a: (u128, Seq<u8>), b: (u128, Seq<u8>)| #[trigger] r(a, b) && #[trigger] r(
        b,
        a,
    ) implies a == b by {
        lemma_lex_le_antisymmetric(a.1, b.1);
    }
    assert forall|a: (u128, Seq<u8>), b: (u128, Seq<u8>), c: (u128, Seq<u8>)| #[trigger] r(a, b)
        && #[trigger] r(b, c) implies r(a, c) by {
        if a.0 == b.0 && b.0 == c.0 {
            lemma_lex_le_transitive(a.1, b.1, c.1);
        }
    }
    assert forall|a: (u128, Seq<u8>), b: (u128, Seq<u8>)| #[trigger] r(a, b) || #[trigger] r(
        b,
        a,
    ) by {
        lemma_lex_le_total(a.1, b.1);
    }
}

/// Two rankings of the same aggregated mapping agree entry by entry: the
/// ranking is a function of the mapping alone.
pub proof fn lemma_ranked_unique(
    r1: Seq<RankedEntry>,
    r2: Seq<RankedEntry>,
    m: Map<Seq<u8>, Map<u64, u64>>,
)
    requires
        ranked_of(r1, m),
        ranked_of(r2, m),
    ensures
        r1.len() == r2.len(),
        forall|j: int|
            0 <= j < r1.len() ==> #[trigger] r1[j].key@ == r2[j].key@ && r1[j].points@
                == r2[j].points@ && r1[j].total == r2[j].total,
{
    broadcast use vstd::seq_lib::group_to_multiset_ensures;

    let ks1 = Seq::new(r1.len(), |j: int| r1[j].key@);
    let ks2 = Seq::new(r2.len(), |j: int| r2[j].key@);
    assert(ks1.no_duplicates());
    assert(ks2.no_duplicates());
    ks1.unique_seq_to_set();
    ks2.unique_seq_to_set();
    let s1 = ks1.to_set();
    let s2 = ks2.to_set();
    // the two rankings keep the same keys
    assert forall|k: Seq<u8>| s1.contains(k) == s2.contains(k) by {
        if s1.contains(k) {
            lemma_ranked_keyset_transfer(r1, r2, m, ks1, ks2, k);
        }
        if s2.contains(k) {
            lemma_ranked_keyset_transfer(r2, r1, m, ks2, ks1, k);
        }
    }
    assert(s1 =~= s2);
    // with equal key sets, the (total, key) summaries coincide
    let tks1 = Seq::new(r1.len(), |j: int| (r1[j].total, r1[j].key@));
    let tks2 = Seq::new(r2.len(), |j: int| (r2[j].total, r2[j].key@));
    assert(tks1.no_duplicates());
    assert(tks2.no_duplicates());
    tks1.lemma_multiset_has_no_duplicates();
    tks2.lemma_multiset_has_no_duplicates();
    assert forall|x: (u128, Seq<u8>)| tks1.to_multiset().count(x) == tks2.to_multiset().count(
        x,
    ) by {
        if tks1.contains(x) {
            let j1 = choose|j: int| 0 <= j < tks1.len() && tks1[j] == x;
            lemma_entry_total_of(r1[j1], m);
            assert(ks1[j1] == x.1);
            assert(ks1.contains(x.1));
            assert(s2.contains(x.1));
            let j2 = choose|j: int| 0 <= j < ks2.len() && ks2[j] == x.1;
            lemma_entry_total_of(r2[j2], m);
            assert(tks2[j2] == x);
            assert(tks2.contains(x));
        } else if tks2.contains(x) {
            let j2 = choose|j: int| 0 <= j < tks2.len() && tks2[j] == x;
            lemma_entry_total_of(r2[j2], m);
            assert(ks2[j2] == x.1);
            assert(ks2.contains(x.1));
            assert(s1.contains(x.1));
            let j1 = choose|j: int| 0 <= j < ks1.len() && ks1[j] == x.1;
            lemma_entry_total_of(r1[j1], m);
            assert(tks1[j1] == x);
            assert(tks1.contains(x));
        } else {
            assert(tks1.to_multiset().count(x) == 0);
            assert(tks2.to_multiset().count(x) == 0);
        }
    }
    assert(tks1.to_multiset() =~= tks2.to_multiset());
    assert(sorted_by(tks1, tk_le_fn())) by {
        assert forall|i: int, j: int| #![trigger tks1[i], tks1[j]]
            0 <= i < j < tks1.len() implies (tk_le_fn())(tks1[i], tks1[j]) by {
            assert(entry_le(r1[i], r1[j]));
        }
    }
    assert(sorted_by(tks2, tk_le_fn())) by {
        assert forall|i: int, j: int| #![trigger tks2[i], tks2[j]]
            0 <= i < j < tks2.len() implies (tk_le_fn())(tks2[i], tks2[j]) by {
            assert(entry_le(r2[i], r2[j]));
        }
    }
    lemma_tk_le_total_ordering();
    vstd::seq_lib::lemma_sorted_unique(tks1, tks2, tk_le_fn());
    assert forall|j: int|
        0 <= j < r1.len() implies #[trigger] r1[j].key@ == r2[j].key@ && r1[j].points@
        == r2[j].points@ && r1[j].total == r2[j].total by {
        assert(tks1[j] == tks2[j]);
        lemma_canon_points_unique(r1[j].points@, r2[j].points@, m[r1[j].key@]);
    }
}

/// A key kept by one ranking is kept by any other ranking of the same
/// mapping: were it dropped, the other ranking would keep some key this one
/// dropped, and the two keys would each outrank the other.
proof fn lemma_ranked_keyset_transfer(
    ra: Seq<RankedEntry>,
    rb: Seq<RankedEntry>,
    m: Map<Seq<u8>, Map<u64, u64>>,
    ksa: Seq<Seq<u8>>,
    ksb: Seq<Seq<u8>>,
    k: Seq<u8>,
)
    requires
        ranked_of(ra, m),
        ranked_of(rb, m),
        ksa == Seq::new(ra.len(), |j: int| ra[j].key@),
        ksb == Seq::new(rb.len(), |j: int| rb[j].key@),
        ksa.to_set().contains(k),
    ensures
        ksb.to_set().contains(k),
{
    if !ksb.to_set().contains(k) {
        assert(ksa.no_duplicates());
        assert(ksb.no_duplicates());
        ksa.unique_seq_to_set();
        ksb.unique_seq_to_set();
        let sa = ksa.to_set();
        let sb = ksb.to_set();
        let ja = choose|j: int| 0 <= j < ksa.len() && ksa[j] == k;
        assert(entry_wf(ra[ja], m));
        assert(!has_key(rb, k)) by {
            if has_key(rb, k) {
                let j = choose|j: int| 0 <= j < rb.len() && rb[j].key@ == k;
                assert(ksb[j] == k);
            }
        }
        // some key of rb is missing from ra, else rb's keys form a strictly
        // smaller subset of ra's keys, though both rankings have the same length
        assert(exists|q: Seq<u8>| sb.contains(q) && !sa.contains(q)) by {
            if forall|q: Seq<u8>| sb.contains(q) ==> #[trigger] sa.contains(q) {
                assert(sb.subset_of(sa.remove(k)));
                vstd::set_lib::lemma_len_subset(sb, sa.remove(k));
                assert(sa.remove(k).len() == sa.len() - 1);
            }
        }
        let kq = choose|q: Seq<u8>| sb.contains(q) && !sa.contains(q);
        let jb = choose|j: int| 0 <= j < ksb.len() && ksb[j] == kq;
        assert(entry_wf(rb[jb], m));
        assert(!has_key(ra, kq)) by {
            if has_key(ra, kq) {
                let j = choose|j: int| 0 <= j < ra.len() && ra[j].key@ == kq;
                assert(ksa[j] == kq);
            }
        }
        // each of the two kept entries outranks the other one's key
        assert(outranks(ra[ja], m, kq));
        assert(outranks(rb[jb], m, k));
        lemma_entry_total_of(ra[ja], m);
        lemma_entry_total_of(rb[jb], m);
        lemma_lex_le_antisymmetric(k, kq);
    }
}

/// When the ranking is not truncated, every series key appears in it.
proof fn lemma_all_keys_present(r: Seq<RankedEntry>, m: Map<Seq<u8>, Map<u64, u64>>)
    requires
        ranked_of(r, m),
        r.len() == m.dom().len(),
    ensures
        forall|k: Seq<u8>| #[trigger] m.dom().contains(k) ==> has_key(r, k),
{
    let keys = Seq::new(r.len(), |j: int| r[j].key@);
    assert(keys.no_duplicates());
    keys.unique_seq_to_set();
    assert(keys.to_set().subset_of(m.dom())) by {
        assert forall|k: Seq<u8>| #[trigger] keys.to_set().contains(k) implies m.dom().contains(
            k,
        ) by {
            let j = choose|j: int| 0 <= j < keys.len() && keys[j] == k;
            assert(entry_wf(r[j], m));
        }
    }
    vstd::set_lib::lemma_len_subset(keys.to_set(), m.dom());
    assert forall|k: Seq<u8>| #[trigger] m.dom().contains(k) implies has_key(r, k) by {
        if !keys.to_set().contains(k) {
            // a strict subset of the domain would be smaller than it
            assert(keys.to_set().insert(k).subset_of(m.dom()));
            vstd::set_lib::lemma_len_subset(keys.to_set().insert(k), m.dom());
            assert(keys.to_set().insert(k).len() == keys.to_set().len() + 1);
            assert(false);
        }
        let j = choose|j: int| 0 <= j < keys.len() && keys[j] == k;
        assert(r[j].key@ == k);
    }
}

/// Permutation invariance of ranking: aggregating and ranking two row
/// sequences that hold the same rows (in any order), none of which write
/// different values to one (series, date) pair, yields the same ranked
/// series, entry by entry.
pub proof fn lemma_ranking_permutation_invariant(
    rows1: Seq<crate::agg::Row>,
    rows2: Seq<crate::agg::Row>,
    r1: Seq<RankedEntry>,
    r2: Seq<RankedEntry>,
)
    requires
        rows1.to_multiset() == rows2.to_multiset(),
        crate::agg::no_conflicts(rows1),
        ranked_of(r1, crate::agg::agg_map(rows1)),
        ranked_of(r2, crate::agg::agg_map(rows2)),
    ensures
        r1.len() == r2.len(),
        forall|j: int|
            0 <= j < r1.len() ==> #[trigger] r1[j].key@ == r2[j].key@ && r1[j].points@
                == r2[j].points@ && r1[j].total == r2[j].total,
{
    crate::agg::lemma_agg_map_permutation(rows1, rows2);
    lemma_ranked_unique(r1, r2, crate::agg::agg_map(rows1));
}

} // verus!
