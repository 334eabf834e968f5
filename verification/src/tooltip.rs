//! Resolving a pointer date into a ranked tooltip, and flattening the ranked
//! series into table rows.

use crate::agg::{distinct_days, points_map};
use crate::date::Date;
use crate::order::{
    bytes_le, copy_bytes, le_fn, lemma_lex_le_total, lemma_lex_le_transitive, lex_le, sort_vec,
    SortOrd,
};
use crate::rank::RankedEntry;
use vstd::prelude::*;

verus! {

/// One tooltip line: a series' key, its value on the resolved date, and the
/// series' position in the global ranking (which picks its display color).
pub struct TooltipEntry {
    pub key: Vec<u8>,
    pub value: u64,
    pub rank: usize,
}

/// Tooltip lines order by value descending, then key ascending. This is a
/// per-date ordering, independent of the global per-series total ranking.
pub open spec fn tip_le(a: TooltipEntry, b: TooltipEntry) -> bool {
    a.value > b.value || (a.value == b.value && lex_le(a.key@, b.key@))
}

impl SortOrd for TooltipEntry {
    open spec fn le_spec(self, other: Self) -> bool {
        tip_le(self, other)
    }

    proof fn lemma_le_total(a: Self, b: Self) {
        lemma_lex_le_total(a.key@, b.key@);
    }

    proof fn lemma_le_transitive(a: Self, b: Self, c: Self) {
        if a.value == b.value && b.value == c.value {
            lemma_lex_le_transitive(a.key@, b.key@, c.key@);
        }
    }

    fn le(&self, other: &Self) -> (r: bool) {
        if self.value > other.value {
            true
        } else if self.value < other.value {
            false
        } else {
            bytes_le(&self.key, &other.key)
        }
    }
}

/// What the tooltip for day `d` over the ranked series holds: one entry for
/// exactly each ranked series that recorded a value on that day (a series
/// with no point that day contributes nothing; it is not treated as zero),
/// each carrying that series' key, value, and rank index, sorted by value
/// descending with ties broken by key ascending. An empty tooltip is the
/// normal "hide tooltip" outcome, not an error.
pub open spec fn tooltip_of(t: Seq<TooltipEntry>, rs: Seq<RankedEntry>, d: u64) -> bool {
    &&& forall|j: int|
        0 <= j < t.len() ==> {
            let e = #[trigger] t[j];
            &&& e.rank < rs.len()
            &&& rs[e.rank as int].key@ == e.key@
            &&& points_map(rs[e.rank as int].points@).contains_key(d)
            &&& points_map(rs[e.rank as int].points@)[d] == e.value
        }
    &&& forall|i: int|
        0 <= i < rs.len() && points_map(#[trigger] rs[i].points@).contains_key(d) ==> exists|j: int|
            0 <= j < t.len() && t[j].rank == i
    &&& forall|i: int, j: int| 0 <= i < j < t.len() ==> t[i].rank != t[j].rank
    &&& forall|i: int, j: int| 0 <= i < j < t.len() ==> tip_le(t[i], t[j])
}

/// Looks up the value a series recorded on the given day, if any.
fn lookup_value(ps: &Vec<(Date, u64)>, d: u64) -> (r: Option<u64>)
    requires
        distinct_days(ps@),
    ensures
        r is Some <==> points_map(ps@).contains_key(d),
        r matches Some(v) ==> points_map(ps@)[d] == v,
{
    let mut i: usize = 0;
    while i < ps.len()
        invariant
            i <= ps@.len(),
            distinct_days(ps@),
            forall|j: int| 0 <= j < i ==> ps@[j].0.day != d,
        decreases ps@.len() - i,
    {
        if ps[i].0.day == d {
            proof {
                crate::agg::lemma_points_map_index(ps@, i as int);
            }
            return Some(ps[i].1);
        }
        i = i + 1;
    }
    proof {
        crate::agg::lemma_points_map_contains(ps@, d);
    }
    None
}

/// Resolves the tooltip for one date: queries every ranked series for its
/// value on exactly that day and orders the hits by value descending, key
/// ascending.
pub fn tooltip_entries(ranked: &Vec<RankedEntry>, date: Date) -> (t: Vec<TooltipEntry>)
    requires
        forall|i: int| 0 <= i < ranked@.len() ==> distinct_days(#[trigger] ranked@[i].points@),
    ensures
        tooltip_of(t@, ranked@, date.day),
{
    broadcast use vstd::seq_lib::group_to_multiset_ensures;

    let d = date.day;
    let mut raw: Vec<TooltipEntry> = Vec::new();
    let mut i: usize = 0;
    while i < ranked.len()
        invariant
            i <= ranked@.len(),
            forall|i2: int|
                0 <= i2 < ranked@.len() ==> distinct_days(#[trigger] ranked@[i2].points@),
            forall|j: int|
                0 <= j < raw@.len() ==> {
                    let e = #[trigger] raw@[j];
                    &&& e.rank < i
                    &&& ranked@[e.rank as int].key@ == e.key@
                    &&& points_map(ranked@[e.rank as int].points@).contains_key(d)
                    &&& points_map(ranked@[e.rank as int].points@)[d] == e.value
                },
            forall|i2: int|
                0 <= i2 < i && points_map(#[trigger] ranked@[i2].points@).contains_key(d)
                    ==> exists|j: int| 0 <= j < raw@.len() && raw@[j].rank == i2,
            forall|p: int, q: int| 0 <= p < q < raw@.len() ==> raw@[p].rank < raw@[q].rank,
        decreases ranked@.len() - i,
    {
        match lookup_value(&ranked[i].points, d) {
            Some(v) => {
                let e = TooltipEntry { key: copy_bytes(&ranked[i].key), value: v, rank: i };
                let ghost old_raw = raw@;
                raw.push(e);
                proof {
                    assert forall|i2: int|
                        0 <= i2 < i + 1 && points_map(
                            #[trigger] ranked@[i2].points@,
                        ).contains_key(d) implies exists|j: int|
                        0 <= j < raw@.len() && raw@[j].rank == i2 by {
                        if i2 == i {
                            assert(raw@[raw@.len() - 1].rank == i2);
                        } else {
                            let j = choose|j: int|
                                0 <= j < old_raw.len() && old_raw[j].rank == i2;
                            assert(raw@[j].rank == i2);
                        }
                    }
                }
            },
            None => {
            },
        }
        i = i + 1;
    }
    let ghost before = raw@;
    let t = sort_vec(raw);
    proof {
        assert forall|j: int|
            0 <= j < t@.len() implies {
            let e = #[trigger] t@[j];
            &&& e.rank < ranked@.len()
            &&& ranked@[e.rank as int].key@ == e.key@
            &&& points_map(ranked@[e.rank as int].points@).contains_key(d)
            &&& points_map(ranked@[e.rank as int].points@)[d] == e.value
        } by {
            assert(t@.contains(t@[j]));
            crate::order::lemma_elem_transfer(t@, before, t@[j]);
        }
        assert forall|i2: int|
            0 <= i2 < ranked@.len() && points_map(
                #[trigger] ranked@[i2].points@,
            ).contains_key(d) implies exists|j: int| 0 <= j < t@.len() && t@[j].rank == i2 by {
            let j0 = choose|j: int| 0 <= j < before.len() && before[j].rank == i2;
            assert(before.contains(before[j0]));
            crate::order::lemma_elem_transfer(before, t@, before[j0]);
            let j1 = choose|j: int| 0 <= j < t@.len() && t@[j] == before[j0];
            assert(t@[j1].rank == i2);
        }
        assert(before.no_duplicates());
        before.lemma_multiset_has_no_duplicates();
        t@.lemma_multiset_has_no_duplicates_conv();
        assert forall|p: int, q: int| 0 <= p < q < t@.len() implies t@[p].rank != t@[q].rank by {
            if t@[p].rank == t@[q].rank {
                assert(t@[p] != t@[q]);
                assert(t@.contains(t@[p]));
                assert(t@.contains(t@[q]));
                crate::order::lemma_elem_transfer(t@, before, t@[p]);
                crate::order::lemma_elem_transfer(t@, before, t@[q]);
                let p1 = choose|x: int| 0 <= x < before.len() && before[x] == t@[p];
                let q1 = choose|x: int| 0 <= x < before.len() && before[x] == t@[q];
                assert(before[p1].rank != before[q1].rank);
            }
        }
        assert forall|p: int, q: int| 0 <= p < q < t@.len() implies tip_le(t@[p], t@[q]) by {
            assert((le_fn::<TooltipEntry>())(t@[p], t@[q]));
        }
    }
    t
}

/// The table rows one ranked series contributes: its points in date order,
/// each as a (date, key, value) triple.
pub open spec fn row_triples(e: RankedEntry) -> Seq<(Date, Seq<u8>, u64)> {
    Seq::new(e.points@.len(), |j: int| (e.points@[j].0, e.key@, e.points@[j].1))
}

/// The flattened table of every ranked series: triples ordered by series
/// rank, then by the order of each series' points (date ascending in a
/// ranking).
pub open spec fn flatten_spec(rs: Seq<RankedEntry>) -> Seq<(Date, Seq<u8>, u64)>
    decreases rs.len(),
{
    if rs.len() == 0 {
        Seq::empty()
    } else {
        flatten_spec(rs.drop_last()) + row_triples(rs.last())
    }
}

/// The view of executable table rows.
pub open spec fn triples_view(s: Seq<(Date, Vec<u8>, u64)>) -> Seq<(Date, Seq<u8>, u64)> {
    Seq::new(s.len(), |j: int| (s[j].0, s[j].1@, s[j].2))
}

/// Emits the flattened (date, key, value) triples for every ranked series,
/// ordered by series rank and then by each series' point order: exactly the
/// rows the chart plots.
pub fn table_rows(ranked: &Vec<RankedEntry>) -> (r: Vec<(Date, Vec<u8>, u64)>)
    ensures
        triples_view(r@) == flatten_spec(ranked@),
{
    let mut r: Vec<(Date, Vec<u8>, u64)> = Vec::new();
    let mut si: usize = 0;
    proof {
        assert(ranked@.take(0) =~= Seq::<RankedEntry>::empty());
        assert(triples_view(r@) =~= flatten_spec(ranked@.take(0)));
    }
    while si < ranked.len()
        invariant
            si <= ranked@.len(),
            triples_view(r@) == flatten_spec(ranked@.take(si as int)),
        decreases ranked@.len() - si,
    {
        let mut pi: usize = 0;
        proof {
            assert(row_triples(ranked@[si as int]).take(0) =~= Seq::<(Date, Seq<u8>, u64)>::empty());
            assert(triples_view(r@) =~= flatten_spec(ranked@.take(si as int)) + row_triples(
                ranked@[si as int],
            ).take(0));
        }
        while pi < ranked[si].points.len()
            invariant
                si < ranked@.len(),
                pi <= ranked@[si as int].points@.len(),
                triples_view(r@) == flatten_spec(ranked@.take(si as int)) + row_triples(
                    ranked@[si as int],
                ).take(pi as int),
            decreases ranked@[si as int].points@.len() - pi,
        {
            let p = ranked[si].points[pi];
            let ghost old_r = r@;
            r.push((p.0, copy_bytes(&ranked[si].key), p.1));
            proof {
                assert(triples_view(r@) =~= triples_view(old_r).push(
                    (p.0, ranked@[si as int].key@, p.1),
                ));
                assert(row_triples(ranked@[si as int]).take(pi as int + 1) =~= row_triples(
                    ranked@[si as int],
                ).take(pi as int).push((p.0, ranked@[si as int].key@, p.1)));
                assert(triples_view(r@) =~= flatten_spec(ranked@.take(si as int)) + row_triples(
                    ranked@[si as int],
                ).take(pi as int + 1));
            }
            pi = pi + 1;
        }
        proof {
            assert(row_triples(ranked@[si as int]).take(ranked@[si as int].points@.len() as int)
                =~= row_triples(ranked@[si as int]));
            assert(ranked@.take(si as int + 1).drop_last() =~= ranked@.take(si as int));
            assert(ranked@.take(si as int + 1).last() == ranked@[si as int]);
        }
        si = si + 1;
    }
    proof {
        assert(ranked@.take(ranked@.len() as int) =~= ranked@);
    }
    r
}

} // verus!
