//! The one-dimensional coalescing interval map: a sorted step function from
//! key ranges to values, with an implicit default value outside all explicit
//! ranges, automatic merging of adjacent equal-valued ranges, and exact
//! trimming at arbitrary boundaries.
//!
//! The representation is contiguous: `ranges` holds `values.len() + 1`
//! strictly increasing breakpoints and `values[i]` holds over the half-open
//! range `[ranges[i], ranges[i+1])`. The representation is always minimal:
//! no two adjacent stored values are equal and neither end value equals the
//! default value.

use vstd::prelude::*;

verus! {

/// The mathematical abstraction of an interval map: its default value and the
/// stored breakpoints and values.
#[verifier::ext_equal]
pub ghost struct MapModel<M> {
    pub default: M,
    pub ranges: Seq<i32>,
    pub values: Seq<M>,
}

/// A representation under construction: well-formed except that its last
/// stored value may still equal the default (the final trim removes it).
pub open spec fn build_wf<M>(m: MapModel<M>) -> bool {
    &&& if m.values.len() == 0 {
        m.ranges.len() == 0
    } else {
        m.ranges.len() == m.values.len() + 1
    }
    &&& forall|i: int, j: int| 0 <= i < j < m.ranges.len() ==> m.ranges[i] < m.ranges[j]
    &&& forall|i: int| 0 <= i && i + 1 < m.values.len() ==> #[trigger] m.values[i] != m.values[i + 1]
    &&& m.values.len() > 0 ==> m.values[0] != m.default
}

/// Well-formedness of a map model: the length relation between breakpoints
/// and values, strictly increasing breakpoints, no two adjacent equal stored
/// values, and no end value equal to the default. This is the minimal-
/// representation invariant that every mutation must restore.
pub open spec fn wf<M>(m: MapModel<M>) -> bool {
    &&& build_wf(m)
    &&& m.values.len() > 0 ==> m.values[m.values.len() - 1] != m.default
}

/// Some stored range contains the key `k`.
pub open spec fn has_block<M>(m: MapModel<M>, k: i32) -> bool {
    exists|i: int| 0 <= i < m.values.len() && (#[trigger] m.ranges[i]) <= k < m.ranges[i + 1]
}

/// The index of the stored range containing `k` (meaningful only when
/// `has_block` holds; unique under well-formedness).
pub open spec fn block_of<M>(m: MapModel<M>, k: i32) -> int {
    choose|i: int| 0 <= i < m.values.len() && (#[trigger] m.ranges[i]) <= k < m.ranges[i + 1]
}

/// The value of the step function at key `k`: the value of the stored range
/// containing `k`, or the default value if none does.
pub open spec fn at<M>(m: MapModel<M>, k: i32) -> M {
    if has_block(m, k) {
        m.values[block_of(m, k)]
    } else {
        m.default
    }
}

/// Under well-formedness, a key inside stored range `i` evaluates to
/// `values[i]`: the containing range is unique.
#[verifier::spinoff_prover]
#[verifier::rlimit(100)]
pub proof fn lemma_at_in_block<M>(m: MapModel<M>, i: int, k: i32)
    requires
        build_wf(m),
        0 <= i < m.values.len(),
        m.ranges[i] <= k < m.ranges[i + 1],
    ensures
        has_block(m, k),
        block_of(m, k) == i,
        at(m, k) == m.values[i],
{
    assert(has_block(m, k));
    let j = block_of(m, k);
    if j < i {
        assert(m.ranges[j + 1] <= m.ranges[i]);
    } else if j > i {
        assert(m.ranges[i + 1] <= m.ranges[j]);
    }
}

/// Under well-formedness, a key outside the stored span evaluates to the
/// default value.
#[verifier::spinoff_prover]
#[verifier::rlimit(100)]
pub proof fn lemma_at_outside<M>(m: MapModel<M>, k: i32)
    requires
        build_wf(m),
        m.values.len() > 0 ==> (k < m.ranges[0] || k >= m.ranges[m.ranges.len() - 1]),
    ensures
        !has_block(m, k),
        at(m, k) == m.default,
{
    if has_block(m, k) {
        let i = block_of(m, k);
        assert(m.ranges[0] <= m.ranges[i]);
        assert(m.ranges[i + 1] <= m.ranges[m.ranges.len() - 1]);
    }
}

/// The larger of two mathematical integers.
pub open spec fn max_i(a: int, b: int) -> int {
    if a < b {
        b
    } else {
        a
    }
}

/// The stored ranges of a contiguous representation tile its whole span:
/// every key from the first breakpoint up to the last lies in some range.
#[verifier::spinoff_prover]
#[verifier::rlimit(100)]
pub proof fn lemma_span_block<M>(m: MapModel<M>, k: i32, i: int)
    requires
        build_wf(m),
        m.values.len() > 0,
        0 <= i < m.values.len(),
        m.ranges[i] <= k < m.ranges[m.ranges.len() - 1],
    ensures
        has_block(m, k),
    decreases m.values.len() - i,
{
    if k < m.ranges[i + 1] {
        assert(has_block(m, k));
    } else {
        lemma_span_block(m, k, i + 1);
    }
}

/// `has_block` is equivalent to lying within the stored span.
#[verifier::spinoff_prover]
#[verifier::rlimit(100)]
pub proof fn lemma_block_iff_span<M>(m: MapModel<M>, k: i32)
    requires
        build_wf(m),
    ensures
        has_block(m, k) <==> (m.values.len() > 0 && m.ranges[0] <= k
            && k < m.ranges[m.ranges.len() - 1]),
{
    if has_block(m, k) {
        let i = block_of(m, k);
        assert(m.ranges[0] <= m.ranges[i]);
        assert(m.ranges[i + 1] <= m.ranges[m.ranges.len() - 1]);
    }
    if m.values.len() > 0 && m.ranges[0] <= k && k < m.ranges[m.ranges.len() - 1] {
        lemma_span_block(m, k, 0);
    }
}

/// Prefix part of the canonical-representation argument: two well-formed
/// representations of the same step function agree on their first `i` stored
/// values and first `i + 1` breakpoints.
#[verifier::spinoff_prover]
#[verifier::rlimit(100)]
proof fn lemma_canon_prefix<M>(m1: MapModel<M>, m2: MapModel<M>, i: int)
    requires
        wf(m1),
        wf(m2),
        m1.default == m2.default,
        forall|k: i32| at(m1, k) == at(m2, k),
        m1.values.len() > 0,
        m2.values.len() > 0,
        0 <= i <= m1.values.len(),
        i <= m2.values.len(),
    ensures
        forall|j: int| 0 <= j < i ==> m1.values[j] == m2.values[j],
        forall|j: int| 0 <= j <= i ==> m1.ranges[j] == m2.ranges[j],
    decreases i,
{
    if i == 0 {
        let a = m1.ranges[0];
        let b = m2.ranges[0];
        lemma_at_in_block(m1, 0, a);
        lemma_at_in_block(m2, 0, b);
        if a < b {
            lemma_at_outside(m2, a);
            assert(false);
        }
        if b < a {
            lemma_at_outside(m1, b);
            assert(false);
        }
    } else {
        lemma_canon_prefix(m1, m2, i - 1);
        let k0 = m1.ranges[i - 1];
        lemma_at_in_block(m1, i - 1, k0);
        lemma_at_in_block(m2, i - 1, k0);
        let a = m1.ranges[i];
        let b = m2.ranges[i];
        if a < b {
            lemma_at_in_block(m2, i - 1, a);
            if i < m1.values.len() {
                lemma_at_in_block(m1, i, a);
            } else {
                lemma_at_outside(m1, a);
            }
            assert(false);
        }
        if b < a {
            lemma_at_in_block(m1, i - 1, b);
            if i < m2.values.len() {
                lemma_at_in_block(m2, i, b);
            } else {
                lemma_at_outside(m2, b);
            }
            assert(false);
        }
    }
}

/// Canonical representation: the minimal-representation invariant pins the
/// stored form down completely. Two well-formed representations with the same
/// default value that represent the same step function are identical.
#[verifier::spinoff_prover]
#[verifier::rlimit(100)]
pub proof fn lemma_canonical_rep<M>(m1: MapModel<M>, m2: MapModel<M>)
    requires
        wf(m1),
        wf(m2),
        m1.default == m2.default,
        forall|k: i32| at(m1, k) == at(m2, k),
    ensures
        m1 == m2,
{
    let n1 = m1.values.len() as int;
    let n2 = m2.values.len() as int;
    if n1 == 0 && n2 > 0 {
        lemma_at_in_block(m2, 0, m2.ranges[0]);
        assert(!has_block(m1, m2.ranges[0]));
        assert(false);
    }
    if n2 == 0 && n1 > 0 {
        lemma_at_in_block(m1, 0, m1.ranges[0]);
        assert(!has_block(m2, m1.ranges[0]));
        assert(false);
    }
    if n1 == 0 && n2 == 0 {
        assert(m1.ranges =~= m2.ranges);
        assert(m1.values =~= m2.values);
        assert(m1 =~= m2);
    } else {
        let q = if n1 < n2 {
            n1
        } else {
            n2
        };
        lemma_canon_prefix(m1, m2, q);
        if n1 < n2 {
            let k0 = m2.ranges[n1];
            lemma_at_in_block(m2, n1, k0);
            lemma_at_outside(m1, k0);
            if n1 == n2 - 1 {
                assert(false);
            } else {
                let k1 = m2.ranges[n1 + 1];
                lemma_at_in_block(m2, n1 + 1, k1);
                lemma_at_outside(m1, k1);
                assert(false);
            }
        }
        if n2 < n1 {
            let k0 = m1.ranges[n2];
            lemma_at_in_block(m1, n2, k0);
            lemma_at_outside(m2, k0);
            if n2 == n1 - 1 {
                assert(false);
            } else {
                let k1 = m1.ranges[n2 + 1];
                lemma_at_in_block(m1, n2 + 1, k1);
                lemma_at_outside(m2, k1);
                assert(false);
            }
        }
        assert(m1.ranges =~= m2.ranges);
        assert(m1.values =~= m2.values);
        assert(m1 =~= m2);
    }
}

/// Idempotence of writes: assigning the same value to the same window twice
/// in a row yields the very same structure as assigning it once. The two
/// hypothesis groups are exactly what `RangeMap::set` ensures for the first
/// and the second write.
#[verifier::spinoff_prover]
#[verifier::rlimit(100)]
pub proof fn lemma_set_idempotent<M>(
    m0: MapModel<M>,
    m1: MapModel<M>,
    m2: MapModel<M>,
    v: M,
    min: i32,
    max: i32,
)
    requires
        wf(m1),
        wf(m2),
        m1.default == m0.default,
        m2.default == m1.default,
        forall|k: i32|
            at(m1, k) == (if min <= k < max {
                v
            } else {
                at(m0, k)
            }),
        forall|k: i32|
            at(m2, k) == (if min <= k < max {
                v
            } else {
                at(m1, k)
            }),
    ensures
        m2 == m1,
{
    assert forall|k: i32| at(m2, k) == at(m1, k) by {}
    lemma_canonical_rep(m2, m1);
}

/// A value type that an interval map can store: it has a mathematical model,
/// an executable equality that decides model equality, and an executable
/// duplication that preserves the model.
pub trait SlotValue: Sized {
    /// The mathematical model of a stored value.
    type Model;

    /// The model of this value.
    spec fn model(&self) -> Self::Model;

    /// Executable equality of models.
    fn veq(&self, other: &Self) -> (r: bool)
        ensures
            r == (self.model() == other.model()),
    ;

    /// Executable duplication preserving the model.
    fn dup(&self) -> (r: Self)
        ensures
            r.model() == self.model(),
    ;
}

impl SlotValue for bool {
    type Model = bool;

    open spec fn model(&self) -> bool {
        *self
    }

    fn veq(&self, other: &Self) -> (r: bool) {
        *self == *other
    }

    fn dup(&self) -> (r: Self) {
        *self
    }
}

/// The models of a sequence of stored values.
pub open spec fn vmodels<V: SlotValue>(s: Seq<V>) -> Seq<<V as SlotValue>::Model> {
    s.map_values(|x: V| x.model())
}

/// Assemble a map model from its parts.
pub open spec fn mk<M>(d: M, r: Seq<i32>, v: Seq<M>) -> MapModel<M> {
    MapModel { default: d, ranges: r, values: v }
}

/// Pushing a first block onto an empty representation.
#[verifier::spinoff_prover]
#[verifier::rlimit(100)]
proof fn lemma_push_first<M>(d: M, w: M, lo: i32, hi: i32, m2: MapModel<M>)
    requires
        lo < hi,
        w != d,
        m2 == mk(d, seq![lo, hi], seq![w]),
    ensures
        build_wf(m2),
        forall|k: i32|
            at(m2, k) == (if lo <= k < hi {
                w
            } else {
                d
            }),
{
    assert(build_wf(m2));
    assert forall|k: i32|
        at(m2, k) == (if lo <= k < hi {
            w
        } else {
            d
        }) by {
        if lo <= k < hi {
            lemma_at_in_block(m2, 0, k);
        } else {
            lemma_at_outside(m2, k);
        }
    }
}

/// Pushing a further block `[last, hi) -> w` onto a nonempty representation,
/// where `w` differs from the last stored value.
#[verifier::spinoff_prover]
#[verifier::rlimit(100)]
proof fn lemma_push_block<M>(m1: MapModel<M>, w: M, hi: i32, m2: MapModel<M>)
    requires
        build_wf(m1),
        m1.values.len() > 0,
        m1.ranges.last() < hi,
        w != m1.values.last(),
        m2 == mk(m1.default, m1.ranges.push(hi), m1.values.push(w)),
    ensures
        build_wf(m2),
        forall|k: i32|
            at(m2, k) == (if m1.ranges.last() <= k < hi {
                w
            } else {
                at(m1, k)
            }),
{
    let q = m1.values.len() as int;
    assert(build_wf(m2));
    assert forall|k: i32|
        at(m2, k) == (if m1.ranges.last() <= k < hi {
            w
        } else {
            at(m1, k)
        }) by {
        if k < m1.ranges[0] {
            lemma_at_outside(m2, k);
            lemma_at_outside(m1, k);
        } else if k < m1.ranges.last() {
            lemma_block_iff_span(m1, k);
            let i = block_of(m1, k);
            lemma_at_in_block(m1, i, k);
            lemma_at_in_block(m2, i, k);
        } else if k < hi {
            lemma_at_in_block(m2, q, k);
        } else {
            lemma_at_outside(m2, k);
            lemma_at_outside(m1, k);
        }
    }
}

/// Extending the end of the last block of a nonempty representation from its
/// current last breakpoint out to `hi`: the last stored value now also covers
/// `[last, hi)`.
#[verifier::spinoff_prover]
#[verifier::rlimit(100)]
proof fn lemma_extend_last<M>(m1: MapModel<M>, hi: i32, m2: MapModel<M>)
    requires
        build_wf(m1),
        m1.values.len() > 0,
        m1.ranges.last() < hi,
        m2 == mk(m1.default, m1.ranges.update(m1.ranges.len() - 1, hi), m1.values),
    ensures
        build_wf(m2),
        forall|k: i32|
            at(m2, k) == (if m1.ranges.last() <= k < hi {
                m1.values.last()
            } else {
                at(m1, k)
            }),
{
    let q = m1.values.len() as int;
    assert forall|i: int, j: int| 0 <= i < j < m2.ranges.len() implies m2.ranges[i]
        < m2.ranges[j] by {
        if j < m2.ranges.len() - 1 {
            assert(m2.ranges[i] == m1.ranges[i] && m2.ranges[j] == m1.ranges[j]);
        } else {
            assert(m2.ranges[i] == m1.ranges[i]);
            assert(m1.ranges[i] <= m1.ranges[m1.ranges.len() - 2]);
        }
    }
    assert(build_wf(m2));
    assert forall|k: i32|
        at(m2, k) == (if m1.ranges.last() <= k < hi {
            m1.values.last()
        } else {
            at(m1, k)
        }) by {
        if k < m1.ranges[0] {
            lemma_at_outside(m2, k);
            lemma_at_outside(m1, k);
        } else if k < m1.ranges[m1.ranges.len() - 2] {
            lemma_block_iff_span(m1, k);
            let i = block_of(m1, k);
            lemma_at_in_block(m1, i, k);
            assert(i < q - 1) by {
                if i == q - 1 {
                    assert(m1.ranges[i] <= k);
                }
            }
            lemma_at_in_block(m2, i, k);
        } else if k < hi {
            lemma_at_in_block(m2, q - 1, k);
            if k < m1.ranges.last() {
                lemma_at_in_block(m1, q - 1, k);
            } else {
                lemma_at_outside(m1, k);
            }
        } else {
            lemma_at_outside(m2, k);
            lemma_at_outside(m1, k);
        }
    }
}

/// Append the block `[last breakpoint, hi) -> w` to a nonempty
/// representation under construction, merging it into the previous block when
/// the values agree.
fn push_or_merge<V: SlotValue>(
    ranges: &mut Vec<i32>,
    values: &mut Vec<V>,
    w: V,
    hi: i32,
    d: Ghost<<V as SlotValue>::Model>,
)
    requires
        build_wf(mk(d@, old(ranges)@, vmodels(old(values)@))),
        old(values)@.len() > 0,
        old(ranges)@.last() < hi,
    ensures
        build_wf(mk(d@, final(ranges)@, vmodels(final(values)@))),
        final(values)@.len() > 0,
        final(ranges)@.last() == hi,
        forall|k: i32|
            at(mk(d@, final(ranges)@, vmodels(final(values)@)), k) == (if old(ranges)@.last() <= k
                < hi {
                w.model()
            } else {
                at(mk(d@, old(ranges)@, vmodels(old(values)@)), k)
            }),
{
    let ghost m1 = mk(d@, ranges@, vmodels(values@));
    let n = values.len();
    let merge = values[n - 1].veq(&w);
    if merge {
        let _ = ranges.pop();
        ranges.push(hi);
        proof {
            let m2 = mk(d@, ranges@, vmodels(values@));
            assert(m2.ranges =~= m1.ranges.update(m1.ranges.len() - 1, hi));
            assert(m2 == mk(m1.default, m1.ranges.update(m1.ranges.len() - 1, hi), m1.values));
            lemma_extend_last(m1, hi, m2);
            assert(m1.values.last() == w.model());
        }
    } else {
        ranges.push(hi);
        values.push(w);
        proof {
            let m2 = mk(d@, ranges@, vmodels(values@));
            assert(m2.ranges =~= m1.ranges.push(hi));
            assert(m2.values =~= m1.values.push(w.model()));
            assert(m2 == mk(m1.default, m1.ranges.push(hi), m1.values.push(w.model())));
            lemma_push_block(m1, w.model(), hi, m2);
        }
    }
}

/// Append the block `[lo, hi) -> w` to a representation under construction,
/// coalescing with the previous block when the values agree, inserting an
/// explicit default block when the new block leaves a gap, and dropping a
/// leading default block. A degenerate block is a no-op.
fn append_block<V: SlotValue>(
    ranges: &mut Vec<i32>,
    values: &mut Vec<V>,
    default: &V,
    w: V,
    lo: i32,
    hi: i32,
)
    requires
        build_wf(mk(default.model(), old(ranges)@, vmodels(old(values)@))),
        old(values)@.len() > 0 ==> old(ranges)@.last() <= lo,
    ensures
        build_wf(mk(default.model(), final(ranges)@, vmodels(final(values)@))),
        final(values)@.len() > 0 ==> final(ranges)@.last() as int <= max_i(
            hi as int,
            if old(values)@.len() > 0 {
                old(ranges)@.last() as int
            } else {
                hi as int
            },
        ),
        forall|k: i32|
            at(mk(default.model(), final(ranges)@, vmodels(final(values)@)), k) == (if lo <= k
                < hi {
                w.model()
            } else {
                at(mk(default.model(), old(ranges)@, vmodels(old(values)@)), k)
            }),
{
    let ghost m_in = mk(default.model(), ranges@, vmodels(values@));
    if lo >= hi {
        return ;
    }
    if values.len() == 0 {
        if !w.veq(default) {
            ranges.push(lo);
            ranges.push(hi);
            values.push(w);
            proof {
                let m2 = mk(default.model(), ranges@, vmodels(values@));
                assert(m2.ranges =~= seq![lo, hi]);
                assert(m2.values =~= seq![w.model()]);
                assert(m2 == mk(default.model(), seq![lo, hi], seq![w.model()]));
                lemma_push_first(default.model(), w.model(), lo, hi, m2);
            }
        }
        return ;
    }
    let cur_end = ranges[ranges.len() - 1];
    if lo > cur_end {
        let filler = default.dup();
        push_or_merge(ranges, values, filler, lo, Ghost(default.model()));
        proof {
            let m1 = mk(default.model(), ranges@, vmodels(values@));
            assert forall|k: i32| at(m1, k) == at(m_in, k) by {
                if cur_end <= k < lo {
                    lemma_at_outside(m_in, k);
                }
            }
        }
    }
    let ghost m1 = mk(default.model(), ranges@, vmodels(values@));
    proof {
        assert(m1.ranges.last() == lo);
        assert(forall|k: i32| at(m1, k) == at(m_in, k));
    }
    push_or_merge(ranges, values, w, hi, Ghost(default.model()));
    proof {
        let m2 = mk(default.model(), ranges@, vmodels(values@));
        assert(forall|k: i32|
            at(m2, k) == (if lo <= k < hi {
                w.model()
            } else {
                at(m_in, k)
            }));
    }
}

/// The value held on `[min, max)` when that whole window lies inside one
/// stored range, and the default value otherwise.
#[verifier::opaque]
pub open spec fn same_block_value<M>(m: MapModel<M>, min: i32, max: i32) -> M {
    if exists|i: int|
        0 <= i < m.values.len() && (#[trigger] m.ranges[i]) <= min < m.ranges[i + 1]
            && m.ranges[i] < max <= m.ranges[i + 1] {
        m.values[choose|i: int|
            0 <= i < m.values.len() && (#[trigger] m.ranges[i]) <= min < m.ranges[i + 1]
                && m.ranges[i] < max <= m.ranges[i + 1]]
    } else {
        m.default
    }
}

/// The stored ranges touched by the window `[lo, hi)`, from range `i` on,
/// each clamped to the window; ranges whose clamped part is empty are left
/// out.
pub open spec fn clipped_from<M>(m: MapModel<M>, lo: i32, hi: i32, i: int) -> Seq<(M, i32, i32)>
    decreases m.values.len() - i,
{
    if i < 0 || i >= m.values.len() {
        Seq::empty()
    } else {
        let cl = if m.ranges[i] < lo {
            lo
        } else {
            m.ranges[i]
        };
        let ch = if m.ranges[i + 1] < hi {
            m.ranges[i + 1]
        } else {
            hi
        };
        let rest = clipped_from(m, lo, hi, i + 1);
        if cl < ch {
            seq![(m.values[i], cl, ch)] + rest
        } else {
            rest
        }
    }
}

/// All stored ranges touched by the window `[lo, hi)`, clamped to it.
pub open spec fn clipped<M>(m: MapModel<M>, lo: i32, hi: i32) -> Seq<(M, i32, i32)> {
    clipped_from(m, lo, hi, 0)
}

/// Shape of the clamped range listing: every entry is a nonempty sub-window
/// of `[lo, hi)` that lies inside the stored span and starts no earlier than
/// stored range `i`, and entries appear in increasing order.
#[verifier::spinoff_prover]
#[verifier::rlimit(100)]
pub proof fn lemma_clipped_bounds<M>(m: MapModel<M>, lo: i32, hi: i32, i: int)
    requires
        build_wf(m),
        0 <= i,
    ensures
        forall|j: int|
            0 <= j < clipped_from(m, lo, hi, i).len() ==> ((#[trigger] clipped_from(
                m,
                lo,
                hi,
                i,
            )[j]).1 < clipped_from(m, lo, hi, i)[j].2 && lo <= clipped_from(m, lo, hi, i)[j].1
                && clipped_from(m, lo, hi, i)[j].2 <= hi && (i < m.values.len() ==> clipped_from(
                m,
                lo,
                hi,
                i,
            )[j].1 >= max_i(lo as int, m.ranges[i] as int)) && (m.values.len() > 0
                ==> clipped_from(m, lo, hi, i)[j].2 <= m.ranges[m.ranges.len() - 1])),
        forall|j: int|
            0 <= j && j + 1 < clipped_from(m, lo, hi, i).len() ==> (#[trigger] clipped_from(
                m,
                lo,
                hi,
                i,
            )[j]).2 <= clipped_from(m, lo, hi, i)[j + 1].1,
    decreases m.values.len() - i,
{
    if i < m.values.len() {
        lemma_clipped_bounds(m, lo, hi, i + 1);
        let s = clipped_from(m, lo, hi, i);
        let rest = clipped_from(m, lo, hi, i + 1);
        let cl: i32 = if m.ranges[i] < lo {
            lo
        } else {
            m.ranges[i]
        };
        let ch: i32 = if m.ranges[i + 1] < hi {
            m.ranges[i + 1]
        } else {
            hi
        };
        assert(m.ranges[i + 1] <= m.ranges[m.ranges.len() - 1]);
        assert forall|j: int|
            0 <= j < s.len() implies (#[trigger] s[j]).1 < s[j].2 && lo <= s[j].1 && s[j].2 <= hi
            && s[j].1 >= max_i(lo as int, m.ranges[i] as int) && s[j].2 <= m.ranges[m.ranges.len()
            - 1] by {
            if cl < ch {
                if j > 0 {
                    assert(s[j] == rest[j - 1]);
                    assert(rest[j - 1].1 >= max_i(lo as int, m.ranges[i + 1] as int));
                }
            } else {
                assert(s[j] == rest[j]);
                assert(rest[j].1 >= max_i(lo as int, m.ranges[i + 1] as int));
            }
        }
        assert forall|j: int|
            0 <= j && j + 1 < s.len() implies (#[trigger] s[j]).2 <= s[j + 1].1 by {
            if cl < ch {
                if j > 0 {
                    assert(s[j] == rest[j - 1] && s[j + 1] == rest[j]);
                } else {
                    if rest.len() > 0 {
                        assert(s[1] == rest[0]);
                        assert(rest[0].1 >= max_i(lo as int, m.ranges[i + 1] as int));
                    }
                }
            } else {
                assert(s[j] == rest[j] && s[j + 1] == rest[j + 1]);
            }
        }
    }
}

/// Meaning of one entry of the clamped range listing: on the entry's window
/// the map holds the entry's value.
#[verifier::spinoff_prover]
#[verifier::rlimit(100)]
pub proof fn lemma_clipped_entry<M>(m: MapModel<M>, lo: i32, hi: i32, i: int, j: int, x: i32)
    requires
        build_wf(m),
        0 <= i,
        0 <= j < clipped_from(m, lo, hi, i).len(),
        clipped_from(m, lo, hi, i)[j].1 <= x < clipped_from(m, lo, hi, i)[j].2,
    ensures
        has_block(m, x),
        at(m, x) == clipped_from(m, lo, hi, i)[j].0,
    decreases m.values.len() - i,
{
    let s = clipped_from(m, lo, hi, i);
    let rest = clipped_from(m, lo, hi, i + 1);
    let cl: i32 = if m.ranges[i] < lo {
        lo
    } else {
        m.ranges[i]
    };
    let ch: i32 = if m.ranges[i + 1] < hi {
        m.ranges[i + 1]
    } else {
        hi
    };
    if cl < ch && j == 0 {
        lemma_at_in_block(m, i, x);
    } else if cl < ch {
        assert(s[j] == rest[j - 1]);
        lemma_clipped_entry(m, lo, hi, i + 1, j - 1, x);
    } else {
        assert(s[j] == rest[j]);
        lemma_clipped_entry(m, lo, hi, i + 1, j, x);
    }
}

/// Completeness of the clamped range listing: a key of the window that lies
/// in a stored range from `i` on is covered by some entry.
#[verifier::spinoff_prover]
#[verifier::rlimit(100)]
pub proof fn lemma_clipped_find<M>(m: MapModel<M>, lo: i32, hi: i32, i: int, x: i32)
    requires
        build_wf(m),
        0 <= i,
        lo <= x < hi,
        has_block(m, x),
        i <= block_of(m, x),
    ensures
        exists|j: int|
            0 <= j < clipped_from(m, lo, hi, i).len() && (#[trigger] clipped_from(m, lo, hi, i)[j]).1
                <= x < clipped_from(m, lo, hi, i)[j].2,
    decreases m.values.len() - i,
{
    let b = block_of(m, x);
    assert(0 <= b < m.values.len());
    let s = clipped_from(m, lo, hi, i);
    let rest = clipped_from(m, lo, hi, i + 1);
    let cl: i32 = if m.ranges[i] < lo {
        lo
    } else {
        m.ranges[i]
    };
    let ch: i32 = if m.ranges[i + 1] < hi {
        m.ranges[i + 1]
    } else {
        hi
    };
    if b == i {
        assert(m.ranges[i] <= x < m.ranges[i + 1]);
        assert(s[0].1 <= x < s[0].2);
    } else {
        lemma_clipped_find(m, lo, hi, i + 1, x);
        let j0 = choose|j: int| 0 <= j < rest.len() && (#[trigger] rest[j]).1 <= x < rest[j].2;
        if cl < ch {
            assert(s[j0 + 1].1 <= x < s[j0 + 1].2);
        } else {
            assert(s[j0].1 <= x < s[j0].2);
        }
    }
}

/// Trimming a trailing default-valued block does not change the step
/// function at any one key.
#[verifier::spinoff_prover]
#[verifier::rlimit(100)]
proof fn lemma_trim_at<M>(m3: MapModel<M>, m4: MapModel<M>, k: i32)
    requires
        build_wf(m3),
        m3.values.len() > 0,
        m3.values.last() == m3.default,
        m4 == mk(
            m3.default,
            if m3.values.len() == 1 {
                Seq::<i32>::empty()
            } else {
                m3.ranges.drop_last()
            },
            m3.values.drop_last(),
        ),
    ensures
        at(m4, k) == at(m3, k),
{
    let n = m3.values.len() as int;
    if n == 1 {
        assert(!has_block(m4, k));
        if m3.ranges[0] <= k < m3.ranges[1] {
            lemma_at_in_block(m3, 0, k);
        } else {
            lemma_at_outside(m3, k);
        }
    } else {
        if k < m3.ranges[0] {
            lemma_at_outside(m3, k);
            lemma_at_outside(m4, k);
        } else if k < m3.ranges[n - 1] {
            lemma_block_iff_span(m3, k);
            let i = block_of(m3, k);
            lemma_at_in_block(m3, i, k);
            assert(i < n - 1) by {
                if i == n - 1 {
                    assert(m3.ranges[i] <= k);
                }
            }
            lemma_at_in_block(m4, i, k);
        } else if k < m3.ranges[n] {
            lemma_at_in_block(m3, n - 1, k);
            lemma_at_outside(m4, k);
        } else {
            lemma_at_outside(m3, k);
            lemma_at_outside(m4, k);
        }
    }
}

/// Trimming a trailing default-valued block from a representation under
/// construction yields a fully well-formed representation with the same step
/// function.
#[verifier::spinoff_prover]
#[verifier::rlimit(100)]
proof fn lemma_trim<M>(m3: MapModel<M>, m4: MapModel<M>)
    requires
        build_wf(m3),
        m3.values.len() > 0,
        m3.values.last() == m3.default,
        m4 == mk(
            m3.default,
            if m3.values.len() == 1 {
                Seq::<i32>::empty()
            } else {
                m3.ranges.drop_last()
            },
            m3.values.drop_last(),
        ),
    ensures
        wf(m4),
        forall|k: i32| at(m4, k) == at(m3, k),
{
    assert(wf(m4));
    assert forall|k: i32| at(m4, k) == at(m3, k) by {
        lemma_trim_at(m3, m4, k);
    }
}

/// When `[min, max)` lies inside stored range `i`, the uniform-window value
/// is that range's value.
#[verifier::spinoff_prover]
#[verifier::rlimit(100)]
proof fn lemma_same_block_hit<M>(m: MapModel<M>, min: i32, max: i32, i: int)
    requires
        build_wf(m),
        0 <= i < m.values.len(),
        m.ranges[i] <= min < m.ranges[i + 1],
        m.ranges[i] < max <= m.ranges[i + 1],
    ensures
        same_block_value(m, min, max) == m.values[i],
{
    reveal(same_block_value);
    let w = choose|j: int|
        0 <= j < m.values.len() && (#[trigger] m.ranges[j]) <= min < m.ranges[j + 1]
            && m.ranges[j] < max <= m.ranges[j + 1];
    if w != i {
        if w < i {
            assert(m.ranges[w + 1] <= m.ranges[i]);
        } else {
            assert(m.ranges[i + 1] <= m.ranges[w]);
        }
        assert(false);
    }
}

/// When the counting positions of `min` and `max` rule out a single
/// containing range, the uniform-window value is the default.
#[verifier::spinoff_prover]
#[verifier::rlimit(100)]
proof fn lemma_same_block_miss<M>(m: MapModel<M>, min: i32, max: i32, a: int, b: int)
    requires
        build_wf(m),
        0 <= a <= m.ranges.len(),
        0 <= b <= m.ranges.len(),
        forall|j: int| 0 <= j < a ==> m.ranges[j] <= min,
        forall|j: int| a <= j < m.ranges.len() ==> m.ranges[j] > min,
        forall|j: int| 0 <= j < b ==> m.ranges[j] < max,
        forall|j: int| b <= j < m.ranges.len() ==> m.ranges[j] >= max,
        !(a == b && a != 0 && a < m.ranges.len()),
    ensures
        same_block_value(m, min, max) == m.default,
{
    reveal(same_block_value);
    if exists|i: int|
        0 <= i < m.values.len() && (#[trigger] m.ranges[i]) <= min < m.ranges[i + 1]
            && m.ranges[i] < max <= m.ranges[i + 1] {
        let i = choose|i: int|
            0 <= i < m.values.len() && (#[trigger] m.ranges[i]) <= min < m.ranges[i + 1]
                && m.ranges[i] < max <= m.ranges[i + 1];
        assert(a == i + 1) by {
            if a <= i {
                assert(m.ranges[i] > min);
            } else if a > i + 1 {
                assert(m.ranges[i + 1] <= min);
            }
        }
        assert(b == i + 1) by {
            if b <= i {
                assert(m.ranges[i] >= max);
            } else if b > i + 1 {
                assert(m.ranges[i + 1] < max);
            }
        }
        assert(false);
    }
}

/// A sorted, coalesced mapping from a continuous integer axis to a value
/// type, with an implicit default value for everything outside explicitly
/// written ranges.
pub struct RangeMap<V: SlotValue> {
    default_value: V,
    values: Vec<V>,
    ranges: Vec<i32>,
}

impl<V: SlotValue> RangeMap<V> {
    /// The mathematical model of this map.
    pub closed spec fn model(&self) -> MapModel<<V as SlotValue>::Model> {
        MapModel {
            default: self.default_value.model(),
            ranges: self.ranges@,
            values: self.values@.map_values(|v: V| v.model()),
        }
    }

    /// The representation invariant, stated over the model.
    pub open spec fn inv(&self) -> bool {
        wf(self.model())
    }

    /// Build a map where every key holds `out_of_range_value`.
    pub fn from(out_of_range_value: V) -> (r: Self)
        ensures
            r.inv(),
            r.model().default == out_of_range_value.model(),
            r.model().values.len() == 0,
            r.model().ranges.len() == 0,
    {
        Self { default_value: out_of_range_value, values: Vec::new(), ranges: Vec::new() }
    }

    /// Assign `value` to the half-open range `[min, max)`, re-coalescing with
    /// the neighbouring ranges: after the call the map holds `value` exactly
    /// on `[min, max)` and is unchanged everywhere else, and the minimal-
    /// representation invariant is restored. A degenerate write
    /// (`min == max`) leaves the step function unchanged.
    #[verifier::rlimit(60)]
    pub fn set(&mut self, value: V, min: i32, max: i32)
        requires
            old(self).inv(),
            min <= max,
        ensures
            final(self).inv(),
            final(self).model().default == old(self).model().default,
            forall|k: i32|
                at(final(self).model(), k) == (if min <= k < max {
                    value.model()
                } else {
                    at(old(self).model(), k)
                }),
    {
        let ghost m0 = self.model();
        let n = self.values.len();
        let mut new_ranges: Vec<i32> = Vec::new();
        let mut new_values: Vec<V> = Vec::new();
        // Parts of stored ranges that lie strictly before the write window.
        let mut i: usize = 0;
        while i < n
            invariant
                i <= n,
                n == self.values.len(),
                self.inv(),
                min <= max,
                m0 == self.model(),
                build_wf(mk(m0.default, new_ranges@, vmodels(new_values@))),
                new_values@.len() > 0 ==> new_ranges@.last() as int <= min as int
                    && new_ranges@.last() as int <= m0.ranges[i as int] as int,
                forall|k: i32|
                    (#[trigger] at(mk(m0.default, new_ranges@, vmodels(new_values@)), k)) == (if k
                        < min && has_block(m0, k) && block_of(m0, k) < i {
                        at(m0, k)
                    } else {
                        m0.default
                    }),
            decreases n - i,
        {
            let lo = self.ranges[i];
            let rhi = self.ranges[i + 1];
            let hi2 = if rhi < min {
                rhi
            } else {
                min
            };
            let ghost before = mk(m0.default, new_ranges@, vmodels(new_values@));
            let item = self.values[i].dup();
            append_block(&mut new_ranges, &mut new_values, &self.default_value, item, lo, hi2);
            proof {
                let cur = mk(m0.default, new_ranges@, vmodels(new_values@));
                assert forall|k: i32|
                    at(cur, k) == (if k < min && has_block(m0, k) && block_of(m0, k) < i + 1 {
                        at(m0, k)
                    } else {
                        m0.default
                    }) by {
                    assert(at(cur, k) == (if lo <= k < hi2 {
                        item.model()
                    } else {
                        at(before, k)
                    }));
                    assert(at(before, k) == (if k < min && has_block(m0, k) && block_of(m0, k)
                        < i {
                        at(m0, k)
                    } else {
                        m0.default
                    }));
                    if lo <= k < hi2 {
                        lemma_at_in_block(m0, i as int, k);
                    } else if k < min && has_block(m0, k) && block_of(m0, k) == i {
                        assert(m0.ranges[i as int] <= k < m0.ranges[i as int + 1]);
                        assert(false);
                    }
                }
            }
            i += 1;
        }
        proof {
            let cur = mk(m0.default, new_ranges@, vmodels(new_values@));
            assert forall|k: i32|
                at(cur, k) == (if k < min {
                    at(m0, k)
                } else {
                    m0.default
                }) by {
                if k < min && !(has_block(m0, k) && block_of(m0, k) < n) {
                    if has_block(m0, k) {
                        let j = block_of(m0, k);
                        assert(0 <= j < n);
                    }
                }
            }
        }
        let ghost vm = value.model();
        // The new range itself.
        append_block(&mut new_ranges, &mut new_values, &self.default_value, value, min, max);
        proof {
            let cur = mk(m0.default, new_ranges@, vmodels(new_values@));
            assert(forall|k: i32|
                at(cur, k) == (if min <= k < max {
                    vm
                } else if k < min {
                    at(m0, k)
                } else {
                    m0.default
                }));
        }
        // Parts of stored ranges that lie at or after the end of the window.
        let mut i: usize = 0;
        while i < n
            invariant
                i <= n,
                n == self.values.len(),
                self.inv(),
                min <= max,
                m0 == self.model(),
                build_wf(mk(m0.default, new_ranges@, vmodels(new_values@))),
                new_values@.len() > 0 ==> new_ranges@.last() as int <= max_i(
                    max as int,
                    if i == 0 {
                        max as int
                    } else {
                        m0.ranges[i as int] as int
                    },
                ),
                forall|k: i32|
                    (#[trigger] at(mk(m0.default, new_ranges@, vmodels(new_values@)), k)) == (if
                    min <= k < max {
                        vm
                    } else if k < min {
                        at(m0, k)
                    } else if k >= max && has_block(m0, k) && block_of(m0, k) < i {
                        at(m0, k)
                    } else {
                        m0.default
                    }),
            decreases n - i,
        {
            let rlo = self.ranges[i];
            let rhi = self.ranges[i + 1];
            let lo2 = if rlo < max {
                max
            } else {
                rlo
            };
            let ghost before = mk(m0.default, new_ranges@, vmodels(new_values@));
            let item = self.values[i].dup();
            append_block(&mut new_ranges, &mut new_values, &self.default_value, item, lo2, rhi);
            proof {
                let cur = mk(m0.default, new_ranges@, vmodels(new_values@));
                assert forall|k: i32|
                    at(cur, k) == (if min <= k < max {
                        vm
                    } else if k < min {
                        at(m0, k)
                    } else if k >= max && has_block(m0, k) && block_of(m0, k) < i + 1 {
                        at(m0, k)
                    } else {
                        m0.default
                    }) by {
                    assert(at(cur, k) == (if lo2 <= k < rhi {
                        item.model()
                    } else {
                        at(before, k)
                    }));
                    assert(at(before, k) == (if min <= k < max {
                        vm
                    } else if k < min {
                        at(m0, k)
                    } else if k >= max && has_block(m0, k) && block_of(m0, k) < i {
                        at(m0, k)
                    } else {
                        m0.default
                    }));
                    if lo2 <= k < rhi {
                        lemma_at_in_block(m0, i as int, k);
                    } else if k >= max && has_block(m0, k) && block_of(m0, k) == i {
                        assert(m0.ranges[i as int] <= k < m0.ranges[i as int + 1]);
                        assert(false);
                    }
                }
            }
            i += 1;
        }
        proof {
            let cur = mk(m0.default, new_ranges@, vmodels(new_values@));
            assert forall|k: i32|
                at(cur, k) == (if min <= k < max {
                    vm
                } else {
                    at(m0, k)
                }) by {
                assert(at(cur, k) == (if min <= k < max {
                    vm
                } else if k < min {
                    at(m0, k)
                } else if k >= max && has_block(m0, k) && block_of(m0, k) < n {
                    at(m0, k)
                } else {
                    m0.default
                }));
                if !(min <= k < max) && k >= max && !(has_block(m0, k) && block_of(m0, k) < n) {
                    if has_block(m0, k) {
                        let j = block_of(m0, k);
                        assert(0 <= j < n);
                    }
                    assert(at(m0, k) == m0.default);
                }
            }
        }
        let ghost m3 = mk(m0.default, new_ranges@, vmodels(new_values@));
        // Trim a trailing default-valued range so that the representation is
        // minimal again.
        let trim = if new_values.len() > 0 {
            let q = new_values.len();
            new_values[q - 1].veq(&self.default_value)
        } else {
            false
        };
        if trim {
            let _ = new_values.pop();
            let _ = new_ranges.pop();
            if new_values.len() == 0 {
                let _ = new_ranges.pop();
            }
            proof {
                let m4 = mk(m0.default, new_ranges@, vmodels(new_values@));
                assert(m4.values =~= m3.values.drop_last());
                if m3.values.len() == 1 {
                    assert(m4.ranges =~= Seq::<i32>::empty());
                } else {
                    assert(m4.ranges =~= m3.ranges.drop_last());
                }
                lemma_trim(m3, m4);
            }
        }
        self.ranges = new_ranges;
        self.values = new_values;
    }

    /// The value implicitly held by every key not covered by a stored range.
    pub fn default_value(&self) -> (r: &V)
        ensures
            r.model() == self.model().default,
    {
        &self.default_value
    }

    /// The stored breakpoints.
    pub fn get_ranges(&self) -> (r: &Vec<i32>)
        ensures
            r@ == self.model().ranges,
    {
        &self.ranges
    }

    /// The stored breakpoints are sorted (in the nondecreasing sense used by
    /// the ordered-search primitives).
    #[verifier::spinoff_prover]
    #[verifier::rlimit(100)]
    proof fn lemma_ranges_sorted(&self)
        requires
            self.inv(),
        ensures
            crate::search::sorted(self.ranges@),
    {
    }

    /// The value of the range containing `key`, or the default value if none
    /// does.
    pub fn value(&self, key: i32) -> (r: &V)
        requires
            self.inv(),
        ensures
            r.model() == at(self.model(), key),
    {
        proof {
            self.lemma_ranges_sorted();
        }
        let c = crate::search::count_le(&self.ranges, key);
        if c == 0 || c >= self.ranges.len() {
            proof {
                lemma_at_outside(self.model(), key);
            }
            &self.default_value
        } else {
            proof {
                lemma_at_in_block(self.model(), c - 1, key);
            }
            &self.values[c - 1]
        }
    }

    /// As `value`, for a key handed over by reference.
    pub fn value_address(&self, key: &i32) -> (r: &V)
        requires
            self.inv(),
        ensures
            r.model() == at(self.model(), *key),
    {
        self.value(*key)
    }

    /// The value held on the whole of `[min, max)` if that window lies inside
    /// one stored range, and the default value otherwise.
    pub fn value_range(&self, min: i32, max: i32) -> (r: &V)
        requires
            self.inv(),
        ensures
            r.model() == same_block_value(self.model(), min, max),
    {
        proof {
            self.lemma_ranges_sorted();
        }
        let ghost m = self.model();
        let a = crate::search::count_le(&self.ranges, min);
        let b = crate::search::count_lt(&self.ranges, max);
        if a == b && a != 0 && a < self.ranges.len() {
            proof {
                lemma_same_block_hit(m, min, max, a - 1);
            }
            &self.values[a - 1]
        } else {
            proof {
                lemma_same_block_miss(m, min, max, a as int, b as int);
            }
            &self.default_value
        }
    }

    /// Enumerate the stored ranges as `(value, range start, range end)`
    /// triples.
    pub fn data(&self) -> (r: Vec<(V, i32, i32)>)
        requires
            self.inv(),
        ensures
            r@.len() == self.model().values.len(),
            forall|i: int|
                0 <= i < r@.len() ==> (#[trigger] r@[i]).0.model() == self.model().values[i]
                    && r@[i].1 == self.model().ranges[i] && r@[i].2 == self.model().ranges[i + 1],
    {
        let mut r: Vec<(V, i32, i32)> = Vec::new();
        let n = self.values.len();
        let mut i: usize = 0;
        while i < n
            invariant
                i <= n,
                n == self.values.len(),
                self.inv(),
                r@.len() == i,
                forall|j: int|
                    0 <= j < i ==> (#[trigger] r@[j]).0.model() == self.model().values[j]
                        && r@[j].1 == self.model().ranges[j] && r@[j].2 == self.model().ranges[j
                        + 1],
            decreases n - i,
        {
            let item = self.values[i].dup();
            r.push((item, self.ranges[i], self.ranges[i + 1]));
            i += 1;
        }
        r
    }

    /// Enumerate the stored ranges touched by the window `[min, max)`,
    /// clamped to it; ranges whose clamped part is empty are left out.
    pub fn data_range(&self, min: i32, max: i32) -> (r: Vec<(V, i32, i32)>)
        requires
            self.inv(),
        ensures
            r@.len() == clipped(self.model(), min, max).len(),
            forall|j: int|
                0 <= j < r@.len() ==> (#[trigger] r@[j]).0.model() == clipped(
                    self.model(),
                    min,
                    max,
                )[j].0 && r@[j].1 == clipped(self.model(), min, max)[j].1 && r@[j].2 == clipped(
                    self.model(),
                    min,
                    max,
                )[j].2,
    {
        let ghost m = self.model();
        let mut r: Vec<(V, i32, i32)> = Vec::new();
        let n = self.values.len();
        let mut i: usize = 0;
        while i < n
            invariant
                i <= n,
                n == self.values.len(),
                self.inv(),
                m == self.model(),
                clipped(m, min, max) =~= r@.map_values(|t: (V, i32, i32)| (t.0.model(), t.1, t.2))
                    + clipped_from(m, min, max, i as int),
            decreases n - i,
        {
            let rlo = self.ranges[i];
            let rhi = self.ranges[i + 1];
            let cl = if rlo < min {
                min
            } else {
                rlo
            };
            let ch = if rhi < max {
                rhi
            } else {
                max
            };
            if cl < ch {
                let item = self.values[i].dup();
                r.push((item, cl, ch));
            }
            proof {
                assert(clipped(m, min, max) =~= r@.map_values(
                    |t: (V, i32, i32)| (t.0.model(), t.1, t.2),
                ) + clipped_from(m, min, max, i as int + 1));
            }
            i += 1;
        }
        r
    }

    /// The ordered list of values of the stored ranges touched by the window
    /// `[min, max)`.
    pub fn values(&self, min: i32, max: i32) -> (r: Vec<V>)
        requires
            self.inv(),
        ensures
            r@.len() == clipped(self.model(), min, max).len(),
            forall|j: int|
                0 <= j < r@.len() ==> (#[trigger] r@[j]).model() == clipped(
                    self.model(),
                    min,
                    max,
                )[j].0,
    {
        let triples = self.data_range(min, max);
        let mut r: Vec<V> = Vec::new();
        let n = triples.len();
        let mut i: usize = 0;
        while i < n
            invariant
                i <= n,
                n == triples@.len(),
                r@.len() == i,
                forall|j: int| 0 <= j < i ==> (#[trigger] r@[j]).model() == triples@[j].0.model(),
            decreases n - i,
        {
            let item = triples[i].0.dup();
            r.push(item);
            i += 1;
        }
        r
    }

    /// Executable equality of the models of two maps.
    pub fn eq_map(&self, other: &Self) -> (r: bool)
        ensures
            r == (self.model() == other.model()),
    {
        if !self.default_value.veq(&other.default_value) {
            return false;
        }
        if self.ranges.len() != other.ranges.len() || self.values.len() != other.values.len() {
            proof {
                assert(self.model().ranges.len() == self.ranges@.len());
                assert(other.model().ranges.len() == other.ranges@.len());
                assert(self.model().values.len() == self.values@.len());
                assert(other.model().values.len() == other.values@.len());
            }
            return false;
        }
        let n = self.ranges.len();
        let mut i: usize = 0;
        while i < n
            invariant
                i <= n,
                n == self.ranges@.len(),
                n == other.ranges@.len(),
                forall|j: int| 0 <= j < i ==> self.ranges@[j] == other.ranges@[j],
            decreases n - i,
        {
            if self.ranges[i] != other.ranges[i] {
                proof {
                    assert(self.model().ranges[i as int] != other.model().ranges[i as int]);
                }
                return false;
            }
            i += 1;
        }
        let q = self.values.len();
        let mut i: usize = 0;
        while i < q
            invariant
                i <= q,
                q == self.values@.len(),
                q == other.values@.len(),
                forall|j: int|
                    0 <= j < i ==> (#[trigger] self.values@[j].model())
                        == other.values@[j].model(),
            decreases q - i,
        {
            if !self.values[i].veq(&other.values[i]) {
                proof {
                    assert(self.model().values[i as int] != other.model().values[i as int]);
                }
                return false;
            }
            i += 1;
        }
        proof {
            assert(self.model().ranges =~= other.model().ranges);
            assert(self.model().values =~= other.model().values);
            assert(self.model() == other.model());
        }
        true
    }

    /// Duplicate this map: the copy has the same model.
    pub fn dup_map(&self) -> (r: Self)
        ensures
            r.model() == self.model(),
    {
        let d = self.default_value.dup();
        let mut vs: Vec<V> = Vec::new();
        let mut rs: Vec<i32> = Vec::new();
        let n = self.values.len();
        let mut i: usize = 0;
        while i < n
            invariant
                i <= n,
                n == self.values@.len(),
                vs@.len() == i,
                forall|j: int|
                    0 <= j < i ==> (#[trigger] vs@[j].model()) == self.values@[j].model(),
            decreases n - i,
        {
            let item = self.values[i].dup();
            vs.push(item);
            i += 1;
        }
        let q = self.ranges.len();
        let mut i: usize = 0;
        while i < q
            invariant
                i <= q,
                q == self.ranges@.len(),
                rs@.len() == i,
                forall|j: int| 0 <= j < i ==> rs@[j] == self.ranges@[j],
            decreases q - i,
        {
            rs.push(self.ranges[i]);
            i += 1;
        }
        let r = Self { default_value: d, values: vs, ranges: rs };
        proof {
            assert(r.model().ranges =~= self.model().ranges);
            assert(r.model().values =~= self.model().values);
            assert(r.model() == self.model());
        }
        r
    }
}

} // verus!
