//! A one-dimensional fill tracker: a sorted, even-length list of boundaries
//! whose consecutive pairs are the still-unfilled intervals of an axis.
//! Filling removes from the unfilled set, coalescing boundaries so that the
//! list stays minimal.

use vstd::prelude::*;

verus! {

/// Shape invariant of a boundary list: even length and strictly increasing.
pub open spec fn fill_inv(s: Seq<i32>) -> bool {
    &&& s.len() % 2 == 0
    &&& forall|i: int, j: int| 0 <= i < j < s.len() ==> s[i] < s[j]
}

/// The point `p` is unfilled: it lies in one of the boundary pairs.
pub open spec fn unfilled(s: Seq<i32>, p: i32) -> bool {
    exists|j: int| 0 <= j && 2 * j + 1 < s.len() && (#[trigger] s[2 * j]) <= p < s[2 * j + 1]
}

/// Append the unfilled interval `[lo, hi)` to a boundary list under
/// construction, merging it with the previous interval when they touch.
fn push_pair(out: &mut Vec<i32>, lo: i32, hi: i32)
    requires
        fill_inv(old(out)@),
        lo < hi,
        old(out)@.len() > 0 ==> old(out)@.last() <= lo,
    ensures
        fill_inv(final(out)@),
        final(out)@.len() > 0,
        final(out)@.last() == hi,
        forall|p: i32|
            unfilled(final(out)@, p) == (unfilled(old(out)@, p) || (lo <= p < hi)),
{
    let n = out.len();
    if n > 0 && out[n - 1] == lo {
        let _ = out.pop();
        out.push(hi);
        proof {
            let s0 = old(out)@;
            let s1 = out@;
            assert(s1 =~= s0.update(s0.len() - 1, hi));
            assert forall|p: i32|
                unfilled(s1, p) == (unfilled(s0, p) || (lo <= p < hi)) by {
                let q = (s0.len() - 2) / 2;
                assert(s1[2 * q] == s0[2 * q] && s1[2 * q + 1] == hi);
                if unfilled(s0, p) {
                    let j = choose|j: int|
                        0 <= j && 2 * j + 1 < s0.len() && (#[trigger] s0[2 * j]) <= p < s0[2 * j
                            + 1];
                    if j == q {
                        assert(s1[2 * j] <= p < s1[2 * j + 1]);
                    } else {
                        assert(2 * j + 1 < 2 * q);
                        assert(s1[2 * j] == s0[2 * j] && s1[2 * j + 1] == s0[2 * j + 1]);
                        assert(unfilled(s1, p));
                    }
                }
                if lo <= p < hi {
                    assert(s1[2 * q] <= p < s1[2 * q + 1]);
                }
                if unfilled(s1, p) {
                    let j = choose|j: int|
                        0 <= j && 2 * j + 1 < s1.len() && (#[trigger] s1[2 * j]) <= p < s1[2 * j
                            + 1];
                    if j == q {
                        if p < lo {
                            assert(s0[2 * q] <= p < s0[2 * q + 1]);
                            assert(unfilled(s0, p));
                        }
                    } else {
                        assert(s0[2 * j] <= p < s0[2 * j + 1]);
                        assert(unfilled(s0, p));
                    }
                }
            }
        }
    } else {
        out.push(lo);
        out.push(hi);
        proof {
            let s0 = old(out)@;
            let s1 = out@;
            assert(s1 =~= s0.push(lo).push(hi));
            let q = s0.len() as int / 2;
            assert forall|p: i32|
                unfilled(s1, p) == (unfilled(s0, p) || (lo <= p < hi)) by {
                assert(s1[2 * q] == lo && s1[2 * q + 1] == hi);
                if unfilled(s0, p) {
                    let j = choose|j: int|
                        0 <= j && 2 * j + 1 < s0.len() && (#[trigger] s0[2 * j]) <= p < s0[2 * j
                            + 1];
                    assert(s1[2 * j] <= p < s1[2 * j + 1]);
                }
                if unfilled(s1, p) {
                    let j = choose|j: int|
                        0 <= j && 2 * j + 1 < s1.len() && (#[trigger] s1[2 * j]) <= p < s1[2 * j
                            + 1];
                    if j < q {
                        assert(s0[2 * j] <= p < s0[2 * j + 1]);
                        assert(unfilled(s0, p));
                    }
                }
            }
        }
    }
}

/// A bounded axis with a record of which parts are still unfilled: created
/// with one open interval, narrowed by `fill` calls.
pub struct RangeFill {
    fill: Vec<i32>,
}

impl RangeFill {
    /// The boundary list of the still-unfilled intervals.
    pub closed spec fn model(&self) -> Seq<i32> {
        self.fill@
    }

    /// The shape invariant of the boundary list.
    pub open spec fn inv(&self) -> bool {
        fill_inv(self.model())
    }

    /// A tracker whose whole unfilled region is `[min, max)`.
    pub fn from(min: i32, max: i32) -> (r: Self)
        requires
            min <= max,
        ensures
            r.inv(),
            forall|p: i32| unfilled(r.model(), p) == (min <= p < max),
    {
        let mut fill: Vec<i32> = Vec::new();
        if min < max {
            fill.push(min);
            fill.push(max);
        }
        let r = Self { fill };
        proof {
            if min < max {
                assert(r.model() =~= seq![min, max]);
            } else {
                assert(r.model() =~= Seq::<i32>::empty());
            }
            assert forall|p: i32| unfilled(r.model(), p) == (min <= p < max) by {
                if min < max && min <= p < max {
                    assert(r.model()[2 * 0int] <= p < r.model()[2 * 0int + 1]);
                    assert(unfilled(r.model(), p));
                }
                if unfilled(r.model(), p) {
                    let j = choose|j: int|
                        0 <= j && 2 * j + 1 < r.model().len() && (#[trigger] r.model()[2 * j]) <= p
                            < r.model()[2 * j + 1];
                    assert(j == 0);
                }
            }
        }
        r
    }

    /// The boundary list itself.
    pub fn get_fill(&self) -> (r: &Vec<i32>)
        ensures
            r@ == self.model(),
    {
        &self.fill
    }

    /// Mark `[min, max)` as filled: remove it from the unfilled set, keeping
    /// the boundary list minimal.
    pub fn fill(&mut self, min: i32, max: i32)
        requires
            old(self).inv(),
            min <= max,
        ensures
            final(self).inv(),
            forall|p: i32|
                unfilled(final(self).model(), p) == (unfilled(old(self).model(), p) && !(min <= p
                    < max)),
    {
        let ghost s0 = self.model();
        let n = self.fill.len() / 2;
        proof {
            assert(self.fill@.len() == 2 * n);
        }
        let mut out: Vec<i32> = Vec::new();
        // Unfilled parts strictly before the window.
        let mut i: usize = 0;
        while i < n
            invariant
                i <= n,
                2 * n <= usize::MAX,
                self.fill@.len() == 2 * n,
                self.inv(),
                min <= max,
                s0 == self.model(),
                fill_inv(out@),
                out@.len() > 0 ==> out@.last() as int <= min as int,
                (out@.len() > 0 && i < n) ==> out@.last() as int <= s0[2 * i as int] as int,
                forall|p: i32|
                    (#[trigger] unfilled(out@, p)) == (p < min && exists|j: int|
                        0 <= j < i && (#[trigger] s0[2 * j]) <= p < s0[2 * j + 1]),
            decreases n - i,
        {
            let lo = self.fill[2 * i];
            let u1 = self.fill[2 * i + 1];
            let hi = if u1 < min {
                u1
            } else {
                min
            };
            let ghost before = out@;
            if lo < hi {
                push_pair(&mut out, lo, hi);
            }
            proof {
                assert forall|p: i32|
                    (#[trigger] unfilled(out@, p)) == (p < min && exists|j: int|
                        0 <= j < i + 1 && (#[trigger] s0[2 * j]) <= p < s0[2 * j + 1]) by {
                    if lo < hi {
                        assert(unfilled(out@, p) == (unfilled(before, p) || (lo <= p < hi)));
                    }
                    if lo <= p < hi {
                        assert(s0[2 * i as int] <= p < s0[2 * i as int + 1]);
                    }
                    if p < min && exists|j: int|
                        0 <= j < i + 1 && (#[trigger] s0[2 * j]) <= p < s0[2 * j + 1] {
                        let j = choose|j: int|
                            0 <= j < i + 1 && (#[trigger] s0[2 * j]) <= p < s0[2 * j + 1];
                        if j == i {
                            assert(lo <= p < hi);
                        } else {
                            assert(exists|j: int|
                                0 <= j < i && (#[trigger] s0[2 * j]) <= p < s0[2 * j + 1]);
                        }
                    }
                }
            }
            i += 1;
        }
        proof {
            assert forall|p: i32|
                (#[trigger] unfilled(out@, p)) == (unfilled(s0, p) && p < min) by {
                if unfilled(s0, p) && p < min {
                    let j = choose|j: int|
                        0 <= j && 2 * j + 1 < s0.len() && (#[trigger] s0[2 * j]) <= p < s0[2 * j
                            + 1];
                    assert(0 <= j < n && s0[2 * j] <= p < s0[2 * j + 1]);
                }
                if p < min && exists|j: int| 0 <= j < n && (#[trigger] s0[2 * j]) <= p < s0[2 * j
                    + 1] {
                    assert(unfilled(s0, p));
                }
            }
        }
        let ghost mid = out@;
        // Unfilled parts at or after the end of the window.
        let mut i: usize = 0;
        while i < n
            invariant
                i <= n,
                2 * n <= usize::MAX,
                self.fill@.len() == 2 * n,
                self.inv(),
                min <= max,
                s0 == self.model(),
                fill_inv(out@),
                out@.len() > 0 ==> out@.last() as int <= crate::range_map::max_i(
                    max as int,
                    if i == 0 {
                        max as int
                    } else {
                        s0[2 * (i as int - 1) + 1] as int
                    },
                ),
                forall|p: i32|
                    (#[trigger] unfilled(out@, p)) == ((unfilled(s0, p) && p < min) || (p >= max
                        && exists|j: int|
                        0 <= j < i && (#[trigger] s0[2 * j]) <= p < s0[2 * j + 1])),
            decreases n - i,
        {
            let u0 = self.fill[2 * i];
            let u1 = self.fill[2 * i + 1];
            let lo = if u0 < max {
                max
            } else {
                u0
            };
            let ghost before = out@;
            if lo < u1 {
                push_pair(&mut out, lo, u1);
            }
            proof {
                assert forall|p: i32|
                    (#[trigger] unfilled(out@, p)) == ((unfilled(s0, p) && p < min) || (p >= max
                        && exists|j: int|
                        0 <= j < i + 1 && (#[trigger] s0[2 * j]) <= p < s0[2 * j + 1])) by {
                    if lo < u1 {
                        assert(unfilled(out@, p) == (unfilled(before, p) || (lo <= p < u1)));
                    }
                    if lo <= p < u1 {
                        assert(s0[2 * i as int] <= p < s0[2 * i as int + 1]);
                    }
                    if p >= max && exists|j: int|
                        0 <= j < i + 1 && (#[trigger] s0[2 * j]) <= p < s0[2 * j + 1] {
                        let j = choose|j: int|
                            0 <= j < i + 1 && (#[trigger] s0[2 * j]) <= p < s0[2 * j + 1];
                        if j == i {
                            assert(lo <= p < u1);
                        } else {
                            assert(exists|j: int|
                                0 <= j < i && (#[trigger] s0[2 * j]) <= p < s0[2 * j + 1]);
                        }
                    }
                }
            }
            i += 1;
        }
        self.fill = out;
        proof {
            assert forall|p: i32|
                unfilled(final(self).model(), p) == (unfilled(s0, p) && !(min <= p < max)) by {
                if p >= max && unfilled(s0, p) {
                    let j = choose|j: int|
                        0 <= j && 2 * j + 1 < s0.len() && (#[trigger] s0[2 * j]) <= p < s0[2 * j
                            + 1];
                    assert(0 <= j < n && s0[2 * j] <= p < s0[2 * j + 1]);
                }
                if p >= max && exists|j: int| 0 <= j < n && (#[trigger] s0[2 * j]) <= p < s0[2 * j
                    + 1] {
                    assert(unfilled(s0, p));
                }
            }
        }
    }

    /// Whether the window still meets the unfilled set: true when `min` is an
    /// unfilled point, when some point of `[min, max)` is unfilled, or — a
    /// boundary quirk kept from the tracker's counting rules — when `min` is
    /// exactly the last boundary of the list.
    pub fn contains_unfilled(&self, min: i32, max: i32) -> (r: bool)
        requires
            self.inv(),
        ensures
            r == (unfilled(self.model(), min) || (self.model().len() > 0 && min == self.model().last())
                || exists|p: i32| min <= p < max && unfilled(self.model(), p)),
    {
        proof {
            assert(crate::search::sorted(self.fill@));
        }
        let ghost s = self.model();
        let n = self.fill.len();
        let a = crate::search::count_le(&self.fill, min);
        let b = crate::search::count_lt(&self.fill, max);
        let at_end = n > 0 && min == self.fill[n - 1];
        let r = a % 2 == 1 || b > a || at_end;
        proof {
            // parity of the count of boundaries at or before `min` decides
            // whether `min` is unfilled
            assert((a % 2 == 1) == unfilled(s, min)) by {
                if a % 2 == 1 {
                    assert(s.len() % 2 == 0);
                    assert((a as int) < s.len());
                    assert(2 * ((a as int - 1) / 2) == a as int - 1);
                    assert(s[2 * ((a as int - 1) / 2)] <= min < s[2 * ((a as int - 1) / 2) + 1]);
                    assert(unfilled(s, min));
                }
                if unfilled(s, min) {
                    let j = choose|j: int|
                        0 <= j && 2 * j + 1 < s.len() && (#[trigger] s[2 * j]) <= min < s[2 * j
                            + 1];
                    assert(a as int == 2 * j + 1) by {
                        if a as int <= 2 * j {
                            assert(s[2 * j] > min);
                        } else if a as int > 2 * j + 1 {
                            assert(s[2 * j + 1] <= min);
                        }
                    }
                }
            }
            // a boundary strictly inside the window decides whether some
            // point of the window is unfilled, once `min` itself is filled
            if a % 2 == 0 {
                assert((b > a) == exists|p: i32| min <= p < max && unfilled(s, p)) by {
                    if b > a {
                        assert(s[a as int] > min && s[a as int] < max);
                        assert(a as int + 1 < s.len()) by {
                            assert(a as int + 1 <= b as int <= s.len());
                            if a as int + 1 == s.len() {
                                assert(s.len() % 2 == 0);
                            }
                        }
                        let p = s[a as int];
                        assert(s[2 * (a as int / 2)] <= p < s[2 * (a as int / 2) + 1]);
                        assert(min <= p < max && unfilled(s, p));
                    }
                    if exists|p: i32| min <= p < max && unfilled(s, p) {
                        let p = choose|p: i32| min <= p < max && unfilled(s, p);
                        let j = choose|j: int|
                            0 <= j && 2 * j + 1 < s.len() && (#[trigger] s[2 * j]) <= p < s[2 * j
                                + 1];
                        if s[2 * j] <= min {
                            assert(s[2 * j] <= min < s[2 * j + 1]);
                            assert(unfilled(s, min));
                            assert(a % 2 == 1);
                        } else {
                            assert(2 * j >= a as int);
                            assert(2 * j < b as int) by {
                                assert(s[2 * j] <= p < max);
                            }
                        }
                    }
                }
            }
        }
        r
    }
}

} // verus!
