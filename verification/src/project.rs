//! The projection between the logical (date, value) domain and a fixed pixel
//! viewport.
//!
//! Both axes map by linear interpolation in integer arithmetic: the inverse
//! partitions the viewport's pixels into equal buckets, one per day (per
//! value step), rounding down, and the forward mapping places a point on the
//! first pixel of its bucket, clamped into the viewport. The two directions
//! are exact algebraic inverses whenever every day has at least one pixel.

use crate::agg::Aggregate;
use crate::date::Date;
use vstd::prelude::*;

verus! {

/// A projection of the domain `[min_day, max_day] x [0, max_value]` onto the
/// pixel rectangle of width x height pixels whose top-left corner is
/// (x0, y0). Pixel rows grow downward, values grow upward.
pub struct Projection {
    pub x0: u32,
    pub y0: u32,
    pub width: u32,
    pub height: u32,
    pub min_day: u64,
    pub max_day: u64,
    pub max_value: u64,
}

impl Projection {
    /// A usable projection: a non-empty viewport over a non-empty domain.
    pub open spec fn wf(self) -> bool {
        &&& self.width >= 1
        &&& self.height >= 1
        &&& self.min_day <= self.max_day
    }

    /// Number of days the domain spans, inclusive.
    pub open spec fn n_days(self) -> int {
        self.max_day - self.min_day + 1
    }

    /// Number of representable values, 0 through `max_value`.
    pub open spec fn n_values(self) -> int {
        self.max_value + 1
    }

    /// Horizontal pixel of a day: the first pixel of the day's bucket under
    /// the inverse mapping, clamped to the viewport's last column.
    pub open spec fn fwd_x(self, day: int) -> int {
        let c = ((day - self.min_day) * self.width + self.n_days() - 1) / self.n_days();
        if c <= self.width - 1 {
            self.x0 + c
        } else {
            self.x0 + self.width - 1
        }
    }

    /// Vertical pixel of a value, measured so that value 0 sits on the
    /// viewport's bottom row and `max_value` near its top.
    pub open spec fn fwd_y(self, v: int) -> int {
        let c = (v * self.height + self.n_values() - 1) / self.n_values();
        let cc = if c <= self.height - 1 {
            c
        } else {
            self.height - 1
        };
        self.y0 + self.height - 1 - cc
    }

    /// Whether a pixel lies inside the plotted rectangle.
    pub open spec fn in_rect(self, x: int, y: int) -> bool {
        &&& self.x0 <= x < self.x0 + self.width
        &&& self.y0 <= y < self.y0 + self.height
    }

    /// The day an in-rectangle horizontal pixel resolves to: the linear
    /// inverse, rounded down to a whole day.
    pub open spec fn inv_day(self, x: int) -> int {
        self.min_day + ((x - self.x0) * self.n_days()) / (self.width as int)
    }

    /// The value an in-rectangle vertical pixel resolves to, rounded down.
    pub open spec fn inv_value(self, y: int) -> int {
        ((self.y0 + self.height - 1 - y) * self.n_values()) / (self.height as int)
    }

    /// Builds the projection of an aggregate's domain onto the given pixel
    /// rectangle. The same projection serves rendering and pointer lookup.
    pub fn new(agg: &Aggregate, x0: u32, y0: u32, width: u32, height: u32) -> (p: Projection)
        requires
            agg.wf(),
            width >= 1,
            height >= 1,
        ensures
            p.wf(),
            p == (Projection {
                x0,
                y0,
                width,
                height,
                min_day: agg.min_day,
                max_day: agg.max_day,
                max_value: agg.max_value,
            }),
    {
        Projection {
            x0,
            y0,
            width,
            height,
            min_day: agg.min_day,
            max_day: agg.max_day,
            max_value: agg.max_value,
        }
    }

    /// Maps a domain point to its pixel. The pixel always lies inside the
    /// plotted rectangle.
    pub fn forward(&self, date: Date, value: u64) -> (p: (u64, u64))
        requires
            self.wf(),
            self.min_day <= date.day <= self.max_day,
            value <= self.max_value,
        ensures
            p.0 as int == self.fwd_x(date.day as int),
            p.1 as int == self.fwd_y(value as int),
            self.in_rect(p.0 as int, p.1 as int),
    {
        let i = (date.day - self.min_day) as u128;
        let n = (self.max_day - self.min_day) as u128 + 1;
        let w = self.width as u128;
        proof {
            assert((i as int) * (w as int) <= 0xffff_ffff_ffff_ffff * 0xffff_ffff)
                by (nonlinear_arith)
                requires
                    0 <= i as int <= 0xffff_ffff_ffff_ffff,
                    0 <= w as int <= 0xffff_ffff,
            ;
        }
        let cx = (i * w + n - 1) / n;
        let px = if cx <= w - 1 {
            self.x0 as u64 + cx as u64
        } else {
            self.x0 as u64 + self.width as u64 - 1
        };
        let v = value as u128;
        let m = self.max_value as u128 + 1;
        let h = self.height as u128;
        proof {
            assert((v as int) * (h as int) <= 0xffff_ffff_ffff_ffff * 0xffff_ffff)
                by (nonlinear_arith)
                requires
                    0 <= v as int <= 0xffff_ffff_ffff_ffff,
                    0 <= h as int <= 0xffff_ffff,
            ;
        }
        let cy = (v * h + m - 1) / m;
        let clamped_cy = if cy <= h - 1 {
            cy as u64
        } else {
            self.height as u64 - 1
        };
        let py = self.y0 as u64 + self.height as u64 - 1 - clamped_cy;
        (px, py)
    }

    /// Maps a pixel back to the domain. Returns `None` exactly when the
    /// pixel lies outside the plotted rectangle; inside it, the resolved day
    /// and value always lie within the domain bounds.
    pub fn inverse(&self, x: u64, y: u64) -> (r: Option<(Date, u64)>)
        requires
            self.wf(),
        ensures
            r is Some <==> self.in_rect(x as int, y as int),
            r matches Some(dv) ==> {
                &&& dv.0.day as int == self.inv_day(x as int)
                &&& dv.1 as int == self.inv_value(y as int)
                &&& self.min_day <= dv.0.day <= self.max_day
                &&& dv.1 <= self.max_value
            },
    {
        let inside = self.x0 as u64 <= x && x < self.x0 as u64 + self.width as u64
            && self.y0 as u64 <= y && y < self.y0 as u64 + self.height as u64;
        if !inside {
            return None;
        }
        let n = (self.max_day - self.min_day) as u128 + 1;
        let w = self.width as u128;
        let dx = (x - self.x0 as u64) as u128;
        proof {
            assert((dx as int) * (n as int) <= 0xffff_ffff * 0x1_0000_0000_0000_0000)
                by (nonlinear_arith)
                requires
                    0 <= dx as int <= 0xffff_ffff,
                    0 <= n as int <= 0x1_0000_0000_0000_0000,
            ;
        }
        let day_off = dx * n / w;
        proof {
            let dxi = dx as int;
            let ni = n as int;
            let wi = w as int;
            assert(dxi * ni <= (wi - 1) * ni) by (nonlinear_arith)
                requires
                    dxi <= wi - 1,
                    ni >= 1,
            ;
            assert(dxi * ni / wi < ni) by (nonlinear_arith)
                requires
                    dxi * ni <= (wi - 1) * ni,
                    wi >= 1,
                    ni >= 1,
            ;
            assert(day_off as int == dxi * ni / wi);
        }
        let day = self.min_day + day_off as u64;
        let m = self.max_value as u128 + 1;
        let h = self.height as u128;
        let dy = (self.y0 as u64 + self.height as u64 - 1 - y) as u128;
        proof {
            assert((dy as int) * (m as int) <= 0xffff_ffff * 0x1_0000_0000_0000_0000)
                by (nonlinear_arith)
                requires
                    0 <= dy as int <= 0xffff_ffff,
                    0 <= m as int <= 0x1_0000_0000_0000_0000,
            ;
        }
        let val = dy * m / h;
        proof {
            let dyi = dy as int;
            let mi = m as int;
            let hi = h as int;
            assert(dyi * mi <= (hi - 1) * mi) by (nonlinear_arith)
                requires
                    dyi <= hi - 1,
                    mi >= 1,
            ;
            assert(dyi * mi / hi < mi) by (nonlinear_arith)
                requires
                    dyi * mi <= (hi - 1) * mi,
                    hi >= 1,
                    mi >= 1,
            ;
            assert(val as int == dyi * mi / hi);
        }
        Some((Date { day }, val as u64))
    }
}

/// Bucket round trip: a unit's first pixel, computed as the rounded-up
/// bucket boundary, resolves back to that unit when each of the `n` units
/// has at least one of the `w` pixels.
proof fn lemma_bucket_round_trip(i: int, n: int, w: int)
    requires
        0 <= i < n,
        n <= w,
    ensures
        0 <= (i * w + n - 1) / n <= w - 1,
        (((i * w + n - 1) / n) * n) / w == i,
{
    let c = (i * w + n - 1) / n;
    vstd::arithmetic::div_mod::lemma_fundamental_div_mod(i * w + n - 1, n);
    vstd::arithmetic::div_mod::lemma_mod_bound(i * w + n - 1, n);
    let r = (i * w + n - 1) % n;
    assert(n * c == i * w + n - 1 - r);
    assert(i * w >= 0) by (nonlinear_arith)
        requires
            i >= 0,
            w >= 0,
    ;
    assert(c >= 0) by (nonlinear_arith)
        requires
            n >= 1,
            n * c >= 0,
    ;
    assert(i * w <= (n - 1) * w) by (nonlinear_arith)
        requires
            i <= n - 1,
            w >= 0,
    ;
    assert((n - 1) * w == n * w - w) by (nonlinear_arith);
    assert(n * c <= n * w - 1);
    assert(c <= w - 1) by (nonlinear_arith)
        requires
            n >= 1,
            n * c <= n * w - 1,
    ;
    let r2 = c * n - i * w;
    assert(c * n == n * c) by (nonlinear_arith);
    assert(0 <= r2 < w);
    vstd::arithmetic::div_mod::lemma_fundamental_div_mod_converse(c * n, w, i, r2);
}

/// Projection round trip for dates: when the viewport gives every day of the
/// domain at least one pixel, the horizontal pixel produced by the forward
/// mapping resolves back to exactly the date it came from. (When days
/// outnumber pixels, several days share a pixel and no inverse can separate
/// them.)
pub proof fn lemma_round_trip_day(p: Projection, d: Date)
    requires
        p.wf(),
        p.min_day <= d.day <= p.max_day,
        p.n_days() <= p.width,
    ensures
        p.inv_day(p.fwd_x(d.day as int)) == d.day,
{
    let i = d.day - p.min_day;
    lemma_bucket_round_trip(i as int, p.n_days(), p.width as int);
}

/// Value round trip, general case: whatever the viewport, the value a
/// forward pixel resolves back to differs from the original by at most one
/// pixel row's worth of values, `ceil(n_values / height)`.
pub proof fn lemma_round_trip_value_error_bound(p: Projection, v: u64)
    requires
        p.wf(),
        v <= p.max_value,
    ensures
        p.inv_value(p.fwd_y(v as int)) <= v + (p.n_values() + p.height - 1) / (p.height as int),
        v <= p.inv_value(p.fwd_y(v as int)) + (p.n_values() + p.height - 1) / (p.height as int),
{
    let m = p.n_values();
    let h = p.height as int;
    let b = (m + h - 1) / h;
    let vi = v as int;
    let c = (vi * h + m - 1) / m;
    vstd::arithmetic::div_mod::lemma_fundamental_div_mod(vi * h + m - 1, m);
    vstd::arithmetic::div_mod::lemma_mod_bound(vi * h + m - 1, m);
    assert(vi * h >= 0) by (nonlinear_arith)
        requires
            vi >= 0,
            h >= 0,
    ;
    assert(m * c >= vi * h);
    assert(m * c <= vi * h + m - 1);
    assert(c * m == m * c) by (nonlinear_arith);
    vstd::arithmetic::div_mod::lemma_fundamental_div_mod(m - 1, h);
    vstd::arithmetic::div_mod::lemma_mod_bound(m - 1, h);
    let q0 = (m - 1) / h;
    vstd::arithmetic::div_mod::lemma_div_is_ordered(m - 1, m + h - 1, h);
    if c <= h - 1 {
        let v2 = (c * m) / h;
        assert(p.inv_value(p.fwd_y(vi)) == v2);
        vstd::arithmetic::div_mod::lemma_div_is_ordered(vi * h, c * m, h);
        vstd::arithmetic::div_mod::lemma_fundamental_div_mod_converse(vi * h, h, vi, 0);
        assert((vi + q0) * h == vi * h + h * q0) by (nonlinear_arith);
        vstd::arithmetic::div_mod::lemma_fundamental_div_mod_converse(
            vi * h + m - 1,
            h,
            vi + q0,
            (m - 1) % h,
        );
        vstd::arithmetic::div_mod::lemma_div_is_ordered(c * m, vi * h + m - 1, h);
        assert(vi <= v2 <= vi + b);
    } else {
        let v2 = ((h - 1) * m) / h;
        assert(p.inv_value(p.fwd_y(vi)) == v2);
        assert(m * c >= m * h) by (nonlinear_arith)
            requires
                c >= h,
                m >= 1,
        ;
        assert((h - 1) * m == h * m - m) by (nonlinear_arith);
        assert(m * h == h * m) by (nonlinear_arith);
        vstd::arithmetic::div_mod::lemma_fundamental_div_mod((h - 1) * m, h);
        vstd::arithmetic::div_mod::lemma_mod_bound((h - 1) * m, h);
        let r2 = ((h - 1) * m) % h;
        assert(h * (m - v2) == m + r2) by (nonlinear_arith)
            requires
                (h - 1) * m == h * v2 + r2,
                (h - 1) * m == h * m - m,
        ;
        vstd::arithmetic::div_mod::lemma_fundamental_div_mod_converse(m + r2, h, m - v2, 0);
        vstd::arithmetic::div_mod::lemma_div_is_ordered(m + r2, m + h - 1, h);
        assert(m - v2 <= b);
        assert(h * v2 < vi * h);
        assert(v2 < vi) by (nonlinear_arith)
            requires
                h * v2 < vi * h,
                h >= 1,
        ;
        assert(v2 <= vi <= v2 + b);
    }
}

/// Projection round trip for values: when the viewport gives every value
/// step at least one pixel row, the vertical pixel produced by the forward
/// mapping resolves back to exactly the value it came from. (For wider
/// domains the resolved value is the bucket the pixel row covers, a bounded
/// rounding of the original.)
pub proof fn lemma_round_trip_value(p: Projection, v: u64)
    requires
        p.wf(),
        v <= p.max_value,
        p.n_values() <= p.height,
    ensures
        p.inv_value(p.fwd_y(v as int)) == v,
{
    lemma_bucket_round_trip(v as int, p.n_values(), p.height as int);
}

} // verus!
