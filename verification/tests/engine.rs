use series_chart::agg::{aggregate, Row};
use series_chart::date::Date;
use series_chart::project::Projection;
use series_chart::rank::ranked_series;
use series_chart::tooltip::{table_rows, tooltip_entries};

fn d(y: u64, m: u64, day: u64) -> Date {
    Date::from_ymd(y, m, day).unwrap()
}

fn row(y: u64, m: u64, day: u64, key: &str, value: u64) -> Row {
    Row { date: d(y, m, day), key: key.as_bytes().to_vec(), value }
}

#[test]
fn example_rows_rank_and_tooltip() {
    let rows = vec![
        row(2024, 1, 1, "a", 5),
        row(2024, 1, 1, "b", 9),
        row(2024, 1, 2, "a", 7),
    ];
    let agg = aggregate(&rows).unwrap();
    let ranked = ranked_series(&agg);
    // totals are a:12, b:9, so the order is [a, b]
    assert_eq!(ranked.len(), 2);
    assert_eq!(ranked[0].key, b"a".to_vec());
    assert_eq!(ranked[0].total, 12);
    assert_eq!(ranked[1].key, b"b".to_vec());
    assert_eq!(ranked[1].total, 9);
    // the tooltip on 2024-01-01 sorts by that day's values: [b:9, a:5]
    let tips = tooltip_entries(&ranked, d(2024, 1, 1));
    assert_eq!(tips.len(), 2);
    assert_eq!(tips[0].key, b"b".to_vec());
    assert_eq!(tips[0].value, 9);
    assert_eq!(tips[0].rank, 1);
    assert_eq!(tips[1].key, b"a".to_vec());
    assert_eq!(tips[1].value, 5);
    assert_eq!(tips[1].rank, 0);
}

#[test]
fn last_write_wins() {
    let rows = vec![
        row(2024, 3, 5, "a", 5),
        row(2024, 3, 6, "a", 2),
        row(2024, 3, 5, "a", 9),
    ];
    let agg = aggregate(&rows).unwrap();
    let ranked = ranked_series(&agg);
    assert_eq!(ranked.len(), 1);
    // the duplicate (a, 2024-03-05) keeps only the later value 9
    assert_eq!(ranked[0].total, 11);
    assert_eq!(ranked[0].points.len(), 2);
    assert_eq!(ranked[0].points[0], (d(2024, 3, 5), 9));
    assert_eq!(ranked[0].points[1], (d(2024, 3, 6), 2));
}

#[test]
fn max_value_counts_overwritten_rows() {
    let rows = vec![row(2024, 3, 5, "a", 9), row(2024, 3, 5, "a", 1)];
    let agg = aggregate(&rows).unwrap();
    // the bound tracks every observed row, even one later overwritten
    assert_eq!(agg.max_value, 9);
    let ranked = ranked_series(&agg);
    assert_eq!(ranked[0].total, 1);
}

#[test]
fn empty_input_is_detected() {
    let rows: Vec<Row> = Vec::new();
    assert!(aggregate(&rows).is_none());
}

#[test]
fn ranking_is_permutation_invariant() {
    let rows1 = vec![
        row(2024, 1, 1, "x", 4),
        row(2024, 1, 2, "y", 4),
        row(2024, 1, 3, "z", 9),
        row(2024, 1, 4, "x", 1),
    ];
    let rows2 = vec![
        row(2024, 1, 4, "x", 1),
        row(2024, 1, 3, "z", 9),
        row(2024, 1, 1, "x", 4),
        row(2024, 1, 2, "y", 4),
    ];
    let r1 = ranked_series(&aggregate(&rows1).unwrap());
    let r2 = ranked_series(&aggregate(&rows2).unwrap());
    assert_eq!(r1.len(), r2.len());
    for (a, b) in r1.iter().zip(r2.iter()) {
        assert_eq!(a.key, b.key);
        assert_eq!(a.total, b.total);
        assert_eq!(a.points, b.points);
    }
    // totals z:9, x:5, y:4
    assert_eq!(r1[0].key, b"z".to_vec());
    assert_eq!(r1[1].key, b"x".to_vec());
    assert_eq!(r1[2].key, b"y".to_vec());
}

#[test]
fn ties_break_by_key_ascending() {
    let rows = vec![
        row(2024, 1, 1, "beta", 7),
        row(2024, 1, 1, "alpha", 7),
        row(2024, 1, 1, "gamma", 8),
    ];
    let ranked = ranked_series(&aggregate(&rows).unwrap());
    assert_eq!(ranked[0].key, b"gamma".to_vec());
    assert_eq!(ranked[1].key, b"alpha".to_vec());
    assert_eq!(ranked[2].key, b"beta".to_vec());
}

#[test]
fn truncation_keeps_the_greatest_fifty() {
    // 55 series, totals 0..=54: the five smallest must be dropped
    let mut rows = Vec::new();
    for i in 0..55u64 {
        let key = format!("k{:02}", i);
        rows.push(Row { date: d(2024, 2, 1), key: key.into_bytes(), value: i });
    }
    let ranked = ranked_series(&aggregate(&rows).unwrap());
    assert_eq!(ranked.len(), 50);
    assert_eq!(ranked[0].total, 54);
    assert_eq!(ranked[49].total, 5);
    for e in ranked.iter() {
        assert!(e.total >= 5);
    }
    for dropped in ["k00", "k01", "k02", "k03", "k04"] {
        assert!(ranked.iter().all(|e| e.key != dropped.as_bytes().to_vec()));
    }
}

#[test]
fn projection_round_trip_recovers_dates() {
    let rows = vec![
        row(2024, 1, 1, "a", 0),
        row(2024, 1, 10, "a", 40),
    ];
    let agg = aggregate(&rows).unwrap();
    // 10 days and 41 values over a 100 x 50 viewport: both axes are exact
    let p = Projection::new(&agg, 20, 10, 100, 50);
    // the first day and value 0 sit on the bottom-left corner of the plot
    assert_eq!(p.forward(d(2024, 1, 1), 0), (20, 59));
    // the last day starts its pixel bucket at ceil(9 * 100 / 10) = 90, and
    // the greatest value rounds up to the top row: ceil(40 * 50 / 41) = 49
    assert_eq!(p.forward(d(2024, 1, 10), 40), (110, 10));
    for day in 0..10u64 {
        for value in [0u64, 7, 40] {
            let date = Date { day: d(2024, 1, 1).day + day };
            let (x, y) = p.forward(date, value);
            let (back_date, back_value) = p.inverse(x, y).unwrap();
            assert_eq!(back_date, date);
            assert_eq!(back_value, value);
        }
    }
}

#[test]
fn value_round_trip_error_is_bounded() {
    // 1001 values over only 50 pixel rows: values quantize, but the date
    // stays exact and the value error stays within one row's bucket
    let rows = vec![row(2024, 1, 1, "a", 0), row(2024, 1, 10, "a", 1000)];
    let agg = aggregate(&rows).unwrap();
    let p = Projection::new(&agg, 20, 10, 100, 50);
    let bucket = (1000 + 1 + 50 - 1) / 50;
    for value in [0u64, 1, 499, 500, 999, 1000] {
        let date = d(2024, 1, 3);
        let (x, y) = p.forward(date, value);
        let (back_date, back_value) = p.inverse(x, y).unwrap();
        assert_eq!(back_date, date);
        assert!(back_value.abs_diff(value) <= bucket);
    }
}

#[test]
fn inverse_outside_the_rectangle_is_absent() {
    let rows = vec![row(2024, 1, 1, "a", 3), row(2024, 1, 10, "a", 40)];
    let agg = aggregate(&rows).unwrap();
    let p = Projection::new(&agg, 20, 10, 100, 50);
    assert!(p.inverse(0, 0).is_none());
    assert!(p.inverse(19, 30).is_none());
    assert!(p.inverse(120, 30).is_none());
    assert!(p.inverse(50, 9).is_none());
    assert!(p.inverse(50, 60).is_none());
    assert!(p.inverse(20, 10).is_some());
    assert!(p.inverse(119, 59).is_some());
}

#[test]
fn tooltip_sorts_by_value_then_key() {
    let rows = vec![
        row(2024, 5, 1, "pear", 3),
        row(2024, 5, 1, "apple", 3),
        row(2024, 5, 1, "plum", 8),
        row(2024, 5, 2, "apple", 100),
    ];
    let ranked = ranked_series(&aggregate(&rows).unwrap());
    let tips = tooltip_entries(&ranked, d(2024, 5, 1));
    assert_eq!(tips.len(), 3);
    assert_eq!(tips[0].key, b"plum".to_vec());
    assert_eq!(tips[0].value, 8);
    assert_eq!(tips[1].key, b"apple".to_vec());
    assert_eq!(tips[2].key, b"pear".to_vec());
    // a series with no point that day contributes nothing
    let tips2 = tooltip_entries(&ranked, d(2024, 5, 2));
    assert_eq!(tips2.len(), 1);
    assert_eq!(tips2[0].key, b"apple".to_vec());
    assert_eq!(tips2[0].value, 100);
    // a day with no data at all hides the tooltip
    let tips3 = tooltip_entries(&ranked, d(2024, 5, 3));
    assert!(tips3.is_empty());
}

#[test]
fn table_rows_follow_rank_then_date() {
    let rows = vec![
        row(2024, 1, 2, "low", 1),
        row(2024, 1, 2, "high", 9),
        row(2024, 1, 1, "high", 8),
    ];
    let ranked = ranked_series(&aggregate(&rows).unwrap());
    let table = table_rows(&ranked);
    assert_eq!(table.len(), 3);
    assert_eq!(table[0], (d(2024, 1, 1), b"high".to_vec(), 8));
    assert_eq!(table[1], (d(2024, 1, 2), b"high".to_vec(), 9));
    assert_eq!(table[2], (d(2024, 1, 2), b"low".to_vec(), 1));
}

#[test]
fn domain_bounds_cover_all_rows() {
    let rows = vec![
        row(2024, 6, 15, "a", 3),
        row(2023, 12, 31, "b", 11),
        row(2024, 2, 29, "c", 7),
    ];
    let agg = aggregate(&rows).unwrap();
    assert_eq!(agg.min_day, d(2023, 12, 31).day);
    assert_eq!(agg.max_day, d(2024, 6, 15).day);
    assert_eq!(agg.max_value, 11);
}
