//! The join of two indexed Z-sets on their keys.
//!
//! The join of `l` and `r` holds the pair `(k, (v1, v2))` for each `(k, v1)`
//! of `l` and `(k, v2)` of `r`, with the product of the two weights.  As a
//! consolidated batch it holds them in the order of the keys, then of the
//! values of `l`, then of the values of `r`.

use vstd::prelude::*;
use crate::algebra::{lemma_mul_zero, ZRingValue};
use crate::operator::integrate::Integrate;
use crate::operator::{lemma_absent_key, lemma_unit_val_end};
use crate::trace::consolidation::{
    consolidate,
    has_item,
    is_consolidated,
    is_sum,
    lemma_weight_of_absent,
    lemma_weight_of_concat,
    lemma_weight_of_push,
    weight_of,
};
use crate::trace::cursor::{
    collect_tuples,
    key_end,
    key_lower,
    lemma_key_end,
    lemma_key_lower,
    Cursor,
};
use crate::trace::consolidation::same_weights;
use crate::trace::ord::OrdBatch;
use crate::trace::spine_fueled::tuples_of;
use crate::trace::{strip_time, Batch, BatchReader, DBData, DBWeight};

verus! {

/// `out` stands for the join of the Z-sets `l` and `r`.
pub open spec fn is_join<K, V1, V2, R: ZRingValue>(
    out: Seq<((K, (V1, V2)), R)>,
    l: Seq<(((K, V1), ()), R)>,
    r: Seq<(((K, V2), ()), R)>,
) -> bool {
    forall|k: K, v1: V1, v2: V2| #[trigger]
        weight_of(out, (k, (v1, v2))) == weight_of(l, ((k, v1), ())).mul_spec(
            &weight_of(r, ((k, v2), ())),
        )
}

/// `out` stands for what the join of `l` and `r` changes by when `dl` is
/// added to `l` and `dr` to `r`: the join of `dl` with `r + dr`, plus the
/// join of `l` with `dr`.
pub open spec fn is_join_change<K, V1, V2, R: ZRingValue>(
    out: Seq<((K, (V1, V2)), R)>,
    l: Seq<(((K, V1), ()), R)>,
    dl: Seq<(((K, V1), ()), R)>,
    r: Seq<(((K, V2), ()), R)>,
    dr: Seq<(((K, V2), ()), R)>,
) -> bool {
    forall|k: K, v1: V1, v2: V2| #[trigger]
        weight_of(out, (k, (v1, v2))) == weight_of(dl, ((k, v1), ())).mul_spec(
            &weight_of(r, ((k, v2), ())).add_spec(&weight_of(dr, ((k, v2), ()))),
        ).add_spec(&weight_of(l, ((k, v1), ())).mul_spec(&weight_of(dr, ((k, v2), ()))))
}

/// `(a + b) * c == a * c + b * c`.
pub proof fn lemma_mul_distributive_left<R: ZRingValue>(a: R, b: R, c: R)
    ensures
        a.add_spec(&b).mul_spec(&c) == a.mul_spec(&c).add_spec(&b.mul_spec(&c)),
{
    R::lemma_mul_commutative(a.add_spec(&b), c);
    R::lemma_mul_distributive(c, a, b);
    R::lemma_mul_commutative(c, a);
    R::lemma_mul_commutative(c, b);
}

/// The changes that the join emits add up to the join of the sums of its
/// inputs: `(l + dl) * (r + dr) == l * r + (dl * (r + dr) + l * dr)` for
/// the weights of every key and pair of values.
pub proof fn lemma_join_incremental<K, V1, V2, R: ZRingValue>(
    l: Seq<(((K, V1), ()), R)>,
    dl: Seq<(((K, V1), ()), R)>,
    next_l: Seq<(((K, V1), ()), R)>,
    r: Seq<(((K, V2), ()), R)>,
    dr: Seq<(((K, V2), ()), R)>,
    next_r: Seq<(((K, V2), ()), R)>,
    emitted: Seq<((K, (V1, V2)), R)>,
    out: Seq<((K, (V1, V2)), R)>,
    next_emitted: Seq<((K, (V1, V2)), R)>,
)
    requires
        is_sum(next_l, l, dl),
        is_sum(next_r, r, dr),
        is_join(emitted, l, r),
        is_join_change(out, l, dl, r, dr),
        is_sum(next_emitted, emitted, out),
    ensures
        is_join(next_emitted, next_l, next_r),
{
    assert forall|k: K, v1: V1, v2: V2| #[trigger]
        weight_of(next_emitted, (k, (v1, v2))) == weight_of(next_l, ((k, v1), ())).mul_spec(
            &weight_of(next_r, ((k, v2), ())),
        ) by {
        let a = weight_of(l, ((k, v1), ()));
        let da = weight_of(dl, ((k, v1), ()));
        let b = weight_of(r, ((k, v2), ()));
        let db = weight_of(dr, ((k, v2), ()));
        assert(weight_of(next_l, ((k, v1), ())) == a.add_spec(&da));
        assert(weight_of(next_r, ((k, v2), ())) == b.add_spec(&db));
        assert(weight_of(emitted, (k, (v1, v2))) == a.mul_spec(&b));
        assert(weight_of(out, (k, (v1, v2))) == da.mul_spec(&b.add_spec(&db)).add_spec(
            &a.mul_spec(&db),
        ));
        assert(weight_of(next_emitted, (k, (v1, v2))) == a.mul_spec(&b).add_spec(
            &da.mul_spec(&b.add_spec(&db)).add_spec(&a.mul_spec(&db)),
        ));
        let s = b.add_spec(&db);
        lemma_mul_distributive_left(a, da, s);
        R::lemma_mul_distributive(a, b, db);
        // a*b + (da*s + a*db) == (a*b + a*db) + da*s
        R::lemma_add_commutative(da.mul_spec(&s), a.mul_spec(&db));
        R::lemma_add_associative(a.mul_spec(&b), a.mul_spec(&db), da.mul_spec(&s));
    }
}

/// The join is commutative up to the order of the values: the join of `r`
/// and `l` holds `(k, (v2, v1))` with the weight that the join of `l` and
/// `r` holds `(k, (v1, v2))` with.
pub proof fn lemma_join_commutative<K, V1, V2, R: ZRingValue>(
    l: Seq<(((K, V1), ()), R)>,
    r: Seq<(((K, V2), ()), R)>,
    lr: Seq<((K, (V1, V2)), R)>,
    rl: Seq<((K, (V2, V1)), R)>,
)
    requires
        is_join(lr, l, r),
        is_join(rl, r, l),
    ensures
        forall|k: K, v1: V1, v2: V2| #[trigger]
            weight_of(lr, (k, (v1, v2))) == weight_of(rl, (k, (v2, v1))),
{
    assert forall|k: K, v1: V1, v2: V2| #[trigger]
        weight_of(lr, (k, (v1, v2))) == weight_of(rl, (k, (v2, v1))) by {
        R::lemma_mul_commutative(weight_of(l, ((k, v1), ())), weight_of(r, ((k, v2), ())));
    }
}

/// The join is associative up to the nesting of the values: joining the
/// join of `a` and `b` with `c` gives `(k, ((v1, v2), v3))` the weight that
/// joining `a` with the join of `b` and `c` gives `(k, (v1, (v2, v3)))`.
pub proof fn lemma_join_associative<K, V1, V2, V3, R: ZRingValue>(
    a: Seq<(((K, V1), ()), R)>,
    b: Seq<(((K, V2), ()), R)>,
    c: Seq<(((K, V3), ()), R)>,
    ab: Seq<(((K, (V1, V2)), ()), R)>,
    bc: Seq<(((K, (V2, V3)), ()), R)>,
    ab_c: Seq<((K, ((V1, V2), V3)), R)>,
    a_bc: Seq<((K, (V1, (V2, V3))), R)>,
)
    requires
        is_join(strip_time(ab), a, b),
        is_join(strip_time(bc), b, c),
        is_join(ab_c, ab, c),
        is_join(a_bc, a, bc),
    ensures
        forall|k: K, v1: V1, v2: V2, v3: V3| #[trigger]
            weight_of(ab_c, (k, ((v1, v2), v3))) == weight_of(a_bc, (k, (v1, (v2, v3)))),
{
    assert forall|k: K, v1: V1, v2: V2, v3: V3| #[trigger]
        weight_of(ab_c, (k, ((v1, v2), v3))) == weight_of(a_bc, (k, (v1, (v2, v3)))) by {
        let wa = weight_of(a, ((k, v1), ()));
        let wb = weight_of(b, ((k, v2), ()));
        let wc = weight_of(c, ((k, v3), ()));
        crate::operator::lemma_strip_weight(ab, (k, (v1, v2)));
        crate::operator::lemma_strip_weight(bc, (k, (v2, v3)));
        assert(weight_of(strip_time(ab), (k, (v1, v2))) == wa.mul_spec(&wb));
        assert(weight_of(strip_time(bc), (k, (v2, v3))) == wb.mul_spec(&wc));
        assert(weight_of(ab_c, (k, ((v1, v2), v3))) == weight_of(ab, ((k, (v1, v2)), ())).mul_spec(
            &wc,
        ));
        assert(weight_of(a_bc, (k, (v1, (v2, v3)))) == wa.mul_spec(
            &weight_of(bc, ((k, (v2, v3)), ())),
        ));
        R::lemma_mul_associative(wa, wb, wc);
    }
}

/// The tuples of `s` before the key that starts at `kp` have no weight for
/// that key, and those up to the end of the key have all its weight.
pub proof fn lemma_key_run_weights<K: DBData, V: DBData, R: DBWeight>(
    s: Seq<(((K, V), ()), R)>,
    kp: int,
    v: V,
)
    requires
        is_consolidated(s),
        0 <= kp < s.len(),
        kp == key_lower(s, s[kp].0.0.0),
    ensures
        weight_of(s.take(kp), ((s[kp].0.0.0, v), ())) == R::zero_spec(),
        weight_of(s.take(key_end(s, kp)), ((s[kp].0.0.0, v), ())) == weight_of(
            s,
            ((s[kp].0.0.0, v), ()),
        ),
{
    let k = s[kp].0.0.0;
    let x = ((k, v), ());
    let e = key_end(s, kp);
    lemma_key_end(s, kp);
    let front = s.take(kp);
    let rest = s.skip(e);
    if has_item(front, x) {
        let i = choose|i: int| 0 <= i < front.len() && (#[trigger] front[i]).0 == x;
        assert(s[i].0.0.0 == k);
    }
    lemma_weight_of_absent(front, x);
    if has_item(rest, x) {
        let i = choose|i: int| 0 <= i < rest.len() && (#[trigger] rest[i]).0 == x;
        assert(s[e + i].0.0.0 == k);
    }
    lemma_weight_of_absent(rest, x);
    assert(s =~= s.take(e) + rest);
    lemma_weight_of_concat(s.take(e), rest, x);
    R::lemma_add_zero(weight_of(s.take(e), x));
}

/// Joins the rows `driver` with what `probe` ranges over: for each row the
/// key is sought in `probe`, and each value found there gives a pair with the
/// product of the weights, unless the product is zero.  The pairs come in
/// the order of the rows and, for one row, of the values found.
pub fn join_probe<'s, K: DBData, VD: DBData, VP: DBData, R: ZRingValue, C: Cursor<'s, K, VP, (), R>>(
    driver: &Vec<(((K, VD), ()), R)>,
    probe: &mut C,
) -> (out: Vec<((K, (VD, VP)), R)>)
    requires
        old(probe).wf(),
        old(probe).clip() is None,
    ensures
        final(probe).wf(),
        final(probe).storage() == old(probe).storage(),
        final(probe).clip() == old(probe).clip(),
        is_join(out@, driver@, old(probe).storage()),
{
    let ghost ps = probe.storage();
    let mut out: Vec<((K, (VD, VP)), R)> = Vec::new();
    let mut i: usize = 0;
    proof {
        probe.lemma_wf();
        assert forall|k: K, vd: VD, vp: VP| #[trigger]
            weight_of(out@, (k, (vd, vp))) == weight_of(driver@.take(0), ((k, vd), ())).mul_spec(
                &weight_of(ps, ((k, vp), ())),
            ) by {
            lemma_mul_zero(weight_of(ps, ((k, vp), ())));
        }
    }
    while i < driver.len()
        invariant
            i <= driver.len(),
            probe.wf(),
            probe.storage() == ps,
            probe.clip() is None,
            is_consolidated(ps),
            is_join(out@, driver@.take(i as int), ps),
        decreases driver.len() - i,
    {
        let ghost k0 = driver@[i as int].0.0.0;
        let ghost vd0 = driver@[i as int].0.0.1;
        let ghost w0 = driver@[i as int].1;
        let ghost start = out@;
        proof {
            assert(driver@.take(i + 1) =~= driver@.take(i as int).push(driver@[i as int]));
            assert(driver@[i as int].0 == ((k0, vd0), ()));
            lemma_key_lower(ps, k0);
        }
        probe.rewind_keys();
        probe.seek_key(&driver[i].0.0.0);
        proof {
            probe.lemma_wf();
        }
        if probe.key_valid() && probe.key().same(&driver[i].0.0.0) {
            let ghost rk = probe.key_pos();
            let ghost re = key_end(ps, rk);
            proof {
                lemma_key_end(ps, rk);
                assert forall|k: K, vd: VD, vp: VP| #[trigger]
                    weight_of(out@, (k, (vd, vp))) == weight_of(
                        driver@.take(i as int),
                        ((k, vd), ()),
                    ).mul_spec(&weight_of(ps, ((k, vp), ()))).add_spec(
                        &(if (k, vd) == (k0, vd0) {
                            w0.mul_spec(&weight_of(ps.take(rk), ((k, vp), ())))
                        } else {
                            R::zero_spec()
                        }),
                    ) by {
                    let base = weight_of(driver@.take(i as int), ((k, vd), ())).mul_spec(
                        &weight_of(ps, ((k, vp), ())),
                    );
                    R::lemma_add_zero(base);
                    if (k, vd) == (k0, vd0) {
                        lemma_key_run_weights(ps, rk, vp);
                        lemma_mul_zero(w0);
                    }
                }
            }
            while probe.val_valid()
                invariant
                    i < driver.len(),
                    probe.wf(),
                    probe.storage() == ps,
                    probe.clip() is None,
                    is_consolidated(ps),
                    probe.key_pos() == rk,
                    0 <= rk < ps.len(),
                    re == key_end(ps, rk),
                    rk <= probe.val_pos() <= re <= ps.len(),
                    ps[rk].0.0.0 == k0,
                    k0 == driver@[i as int].0.0.0,
                    vd0 == driver@[i as int].0.0.1,
                    w0 == driver@[i as int].1,
                    forall|n: int| rk <= n < re ==> (#[trigger] ps[n]).0.0.0 == k0,
                    forall|k: K, vd: VD, vp: VP| #[trigger]
                        weight_of(out@, (k, (vd, vp))) == weight_of(
                            driver@.take(i as int),
                            ((k, vd), ()),
                        ).mul_spec(&weight_of(ps, ((k, vp), ()))).add_spec(
                            &(if (k, vd) == (k0, vd0) {
                                w0.mul_spec(&weight_of(ps.take(probe.val_pos()), ((k, vp), ())))
                            } else {
                                R::zero_spec()
                            }),
                        ),
                decreases ps.len() - probe.val_pos(),
            {
                let ghost j = probe.val_pos();
                let ghost before = out@;
                proof {
                    probe.lemma_wf();
                    lemma_unit_val_end(ps, j);
                    assert(ps.take(j + 1) =~= ps.take(j).push(ps[j]));
                    assert(ps[j].0.0.0 == k0);
                }
                let w2 = probe.weight();
                let p = driver[i].1.mul_by_ref(&w2);
                let ghost vp0 = ps[j].0.0.1;
                let ghost e = ((k0, (vd0, vp0)), p);
                if !p.is_zero() {
                    out.push(
                        ((driver[i].0.0.0.dup(), (driver[i].0.0.1.dup(), probe.val().dup())), p),
                    );
                }
                proof {
                    let after = out@;
                    assert(ps[j].0 == ((k0, vp0), ()));
                    assert forall|k: K, vd: VD, vp: VP| #[trigger]
                        weight_of(after, (k, (vd, vp))) == weight_of(
                            driver@.take(i as int),
                            ((k, vd), ()),
                        ).mul_spec(&weight_of(ps, ((k, vp), ()))).add_spec(
                            &(if (k, vd) == (k0, vd0) {
                                w0.mul_spec(&weight_of(ps.take(j + 1), ((k, vp), ())))
                            } else {
                                R::zero_spec()
                            }),
                        ) by {
                        let x = (k, (vd, vp));
                        let base = weight_of(driver@.take(i as int), ((k, vd), ())).mul_spec(
                            &weight_of(ps, ((k, vp), ())),
                        );
                        lemma_weight_of_push(ps.take(j), ps[j], ((k, vp), ()));
                        if p != R::zero_spec() {
                            lemma_weight_of_push(before, e, x);
                        }
                        if (k, vd) == (k0, vd0) && vp == vp0 {
                            let part = weight_of(ps.take(j), ((k, vp), ()));
                            R::lemma_mul_distributive(w0, part, ps[j].1);
                            R::lemma_add_associative(base, w0.mul_spec(&part), p);
                            R::lemma_add_zero(weight_of(before, x));
                        }
                    }
                }
                probe.step_val();
            }
            proof {
                probe.lemma_wf();
                assert(probe.val_pos() == re);
                assert forall|k: K, vd: VD, vp: VP| #[trigger]
                    weight_of(out@, (k, (vd, vp))) == weight_of(
                        driver@.take(i + 1),
                        ((k, vd), ()),
                    ).mul_spec(&weight_of(ps, ((k, vp), ()))) by {
                    let a = weight_of(driver@.take(i as int), ((k, vd), ()));
                    let w = weight_of(ps, ((k, vp), ()));
                    lemma_weight_of_push(driver@.take(i as int), driver@[i as int], ((k, vd), ()));
                    if (k, vd) == (k0, vd0) {
                        lemma_key_run_weights(ps, rk, vp);
                        lemma_mul_distributive_left(a, w0, w);
                    } else {
                        R::lemma_add_zero(a.mul_spec(&w));
                    }
                }
            }
        } else {
            proof {
                lemma_absent_key(ps, k0);
                assert forall|k: K, vd: VD, vp: VP| #[trigger]
                    weight_of(out@, (k, (vd, vp))) == weight_of(
                        driver@.take(i + 1),
                        ((k, vd), ()),
                    ).mul_spec(&weight_of(ps, ((k, vp), ()))) by {
                    let a = weight_of(driver@.take(i as int), ((k, vd), ()));
                    lemma_weight_of_push(driver@.take(i as int), driver@[i as int], ((k, vd), ()));
                    if (k, vd) == (k0, vd0) {
                        if has_item(ps, ((k, vp), ())) {
                            let n = choose|n: int|
                                0 <= n < ps.len() && (#[trigger] ps[n]).0 == ((k, vp), ());
                            assert(ps[n].0.0.0 == k0);
                        }
                        lemma_weight_of_absent(ps, ((k, vp), ()));
                        lemma_mul_zero(a);
                        lemma_mul_zero(a.add_spec(&w0));
                    }
                }
            }
        }
        i = i + 1;
    }
    proof {
        assert(driver@.take(driver.len() as int) =~= driver@);
    }
    out
}

/// Exchanges the two values of each pair.
pub fn swap_values<K: DBData, A: DBData, B: DBData, R: DBWeight>(v: &Vec<((K, (A, B)), R)>) -> (r:
    Vec<((K, (B, A)), R)>)
    ensures
        forall|k: K, a: A, b: B| #[trigger]
            weight_of(r@, (k, (b, a))) == weight_of(v@, (k, (a, b))),
{
    let mut r: Vec<((K, (B, A)), R)> = Vec::new();
    let mut i: usize = 0;
    while i < v.len()
        invariant
            i <= v.len(),
            forall|k: K, a: A, b: B| #[trigger]
                weight_of(r@, (k, (b, a))) == weight_of(v@.take(i as int), (k, (a, b))),
        decreases v.len() - i,
    {
        let ghost before = r@;
        let ghost e = ((v@[i as int].0.0, (v@[i as int].0.1.1, v@[i as int].0.1.0)), v@[i as int].1);
        r.push(((v[i].0.0.dup(), (v[i].0.1.1.dup(), v[i].0.1.0.dup())), v[i].1.dup()));
        proof {
            assert(v@.take(i + 1) =~= v@.take(i as int).push(v@[i as int]));
            assert forall|k: K, a: A, b: B| #[trigger]
                weight_of(r@, (k, (b, a))) == weight_of(v@.take(i + 1), (k, (a, b))) by {
                lemma_weight_of_push(before, e, (k, (b, a)));
                lemma_weight_of_push(v@.take(i as int), v@[i as int], (k, (a, b)));
                assert(weight_of(before, (k, (b, a))) == weight_of(
                    v@.take(i as int),
                    (k, (a, b)),
                ));
            }
        }
        i = i + 1;
    }
    proof {
        assert(v@.take(v.len() as int) =~= v@);
    }
    r
}

/// Joins two batches.
pub fn join_batches<K: DBData, V1: DBData, V2: DBData, R: ZRingValue>(
    l: &OrdBatch<K, V1, (), R>,
    r: &OrdBatch<K, V2, (), R>,
) -> (out: OrdBatch<K, (V1, V2), (), R>)
    requires
        l.wf(),
        r.wf(),
    ensures
        out.wf(),
        is_consolidated(strip_time(out.tuples())),
        is_join(strip_time(out.tuples()), l.tuples(), r.tuples()),
{
    let mut lc = l.cursor();
    let rows = collect_tuples(&mut lc);
    let mut rc = r.cursor();
    let pairs = join_probe(&rows, &mut rc);
    let sorted = consolidate(&pairs);
    proof {
        l.lemma_batch_wf();
        r.lemma_batch_wf();
        crate::trace::consolidation::lemma_canonical(rows@, l.tuples());
        crate::trace::consolidation::lemma_canonical(rc.storage(), r.tuples());
        crate::trace::ord::lemma_at_time_consolidated(sorted@, ());
        assert forall|k: K, v1: V1, v2: V2| #[trigger]
            weight_of(sorted@, (k, (v1, v2))) == weight_of(l.tuples(), ((k, v1), ())).mul_spec(
                &weight_of(r.tuples(), ((k, v2), ())),
            ) by {
            assert(weight_of(sorted@, (k, (v1, v2))) == weight_of(pairs@, (k, (v1, v2))));
        }
    }
    OrdBatch::from_consolidated((), sorted)
}

/// The incremental join: keeps the sums of the Z-sets taken on each side,
/// and emits at each step what the join of the two sums changes by.
pub struct Join<K: DBData, V1: DBData, V2: DBData, R: ZRingValue> {
    left: Integrate<OrdBatch<K, V1, (), R>>,
    right: Integrate<OrdBatch<K, V2, (), R>>,
}

impl<K: DBData, V1: DBData, V2: DBData, R: ZRingValue> Join<K, V1, V2, R> {
    /// The operator is in a valid state.
    pub closed spec fn wf(&self) -> bool {
        self.left.wf() && self.right.wf()
    }

    /// The tuples that stand for the sum of the Z-sets taken on the left.
    pub closed spec fn left_integral(&self) -> Seq<(((K, V1), ()), R)> {
        self.left.integral()
    }

    /// The tuples that stand for the sum of the Z-sets taken on the right.
    pub closed spec fn right_integral(&self) -> Seq<(((K, V2), ()), R)> {
        self.right.integral()
    }

    /// The operator has taken a Z-set that holds a tuple since the dirty
    /// flags were cleared.
    pub closed spec fn dirty_spec(&self) -> bool {
        self.left.dirty_spec() || self.right.dirty_spec()
    }

    /// An operator that has taken nothing.
    pub fn new() -> (r: Self)
        ensures
            r.wf(),
            r.left_integral().len() == 0,
            r.right_integral().len() == 0,
            !r.dirty_spec(),
    {
        Join { left: Integrate::new(), right: Integrate::new() }
    }

    /// Takes the changes `dl` and `dr` of the two sides and emits what the
    /// join changes by: the join of `dl` with the right sum after `dr` is
    /// added, plus the join of the left sum before `dl` is added with `dr`.
    pub fn eval(&mut self, dl: OrdBatch<K, V1, (), R>, dr: OrdBatch<K, V2, (), R>) -> (out: OrdBatch<
        K,
        (V1, V2),
        (),
        R,
    >)
        requires
            old(self).wf(),
            dl.wf(),
            dr.wf(),
        ensures
            final(self).wf(),
            is_sum(final(self).left_integral(), old(self).left_integral(), dl.tuples()),
            is_sum(final(self).right_integral(), old(self).right_integral(), dr.tuples()),
            final(self).dirty_spec() == (old(self).dirty_spec() || dl.tuples().len() > 0
                || dr.tuples().len() > 0),
            out.wf(),
            is_consolidated(strip_time(out.tuples())),
            is_join_change(
                strip_time(out.tuples()),
                old(self).left_integral(),
                dl.tuples(),
                old(self).right_integral(),
                dr.tuples(),
            ),
    {
        let ghost l0 = self.left.integral();
        let ghost r0 = self.right.integral();
        let mut dlc = dl.cursor();
        let left_rows = collect_tuples(&mut dlc);
        let mut drc = dr.cursor();
        let right_rows = collect_tuples(&mut drc);
        proof {
            dl.lemma_batch_wf();
            dr.lemma_batch_wf();
            crate::trace::consolidation::lemma_canonical(left_rows@, dl.tuples());
            crate::trace::consolidation::lemma_canonical(right_rows@, dr.tuples());
        }
        let mut lc = self.left.trace().cursor();
        let ghost ls = lc.storage();
        let swapped = join_probe(&right_rows, &mut lc);
        let second = swap_values(&swapped);
        self.right.add(dr);
        let mut rc = self.right.trace().cursor();
        let ghost rs = rc.storage();
        let first = join_probe(&left_rows, &mut rc);
        let mut all = first;
        let ghost first_view = all@;
        let mut second = second;
        let ghost second_view = second@;
        all.append(&mut second);
        let sorted = consolidate(&all);
        proof {
            assert(all@ =~= first_view + second_view);
            crate::trace::ord::lemma_at_time_consolidated(sorted@, ());
            assert forall|k: K, v1: V1, v2: V2| #[trigger]
                weight_of(sorted@, (k, (v1, v2))) == weight_of(dl.tuples(), ((k, v1), ())).mul_spec(
                    &weight_of(r0, ((k, v2), ())).add_spec(&weight_of(dr.tuples(), ((k, v2), ()))),
                ).add_spec(
                    &weight_of(l0, ((k, v1), ())).mul_spec(&weight_of(dr.tuples(), ((k, v2), ()))),
                ) by {
                let x = (k, (v1, v2));
                assert(weight_of(sorted@, x) == weight_of(all@, x));
                lemma_weight_of_concat(first_view, second_view, x);
                assert(weight_of(first_view, x) == weight_of(left_rows@, ((k, v1), ())).mul_spec(
                    &weight_of(rs, ((k, v2), ())),
                ));
                assert(weight_of(rs, ((k, v2), ())) == weight_of(
                    self.right.integral(),
                    ((k, v2), ()),
                ));
                assert(weight_of(second_view, x) == weight_of(swapped@, (k, (v2, v1))));
                assert(weight_of(swapped@, (k, (v2, v1))) == weight_of(
                    right_rows@,
                    ((k, v2), ()),
                ).mul_spec(&weight_of(ls, ((k, v1), ()))));
                assert(weight_of(ls, ((k, v1), ())) == weight_of(l0, ((k, v1), ())));
                R::lemma_mul_commutative(
                    weight_of(dr.tuples(), ((k, v2), ())),
                    weight_of(l0, ((k, v1), ())),
                );
            }
        }
        self.left.add(dl);
        OrdBatch::from_consolidated((), sorted)
    }

    /// Tells whether a Z-set that holds a tuple was taken since the flags
    /// were cleared.
    pub fn dirty(&self) -> (r: bool)
        requires
            self.wf(),
        ensures
            r == self.dirty_spec(),
    {
        self.left.dirty() || self.right.dirty()
    }

    /// Clears the dirty flags.
    pub fn clear_dirty_flag(&mut self)
        requires
            old(self).wf(),
        ensures
            final(self).wf(),
            !final(self).dirty_spec(),
            final(self).left_integral() == old(self).left_integral(),
            final(self).right_integral() == old(self).right_integral(),
    {
        self.left.clear_dirty_flag();
        self.right.clear_dirty_flag();
    }
}


/// Reverses a vector of batches.
fn reversed<B>(batches: Vec<B>) -> (r: Vec<B>)
    ensures
        r@.len() == batches@.len(),
        forall|j: int| 0 <= j < r@.len() ==> #[trigger] r@[j] == batches@[batches@.len() - 1 - j],
{
    let ghost given = batches@;
    let mut rest = batches;
    let mut r: Vec<B> = Vec::new();
    while rest.len() > 0
        invariant
            rest@.len() + r@.len() == given.len(),
            rest@ == given.take(rest@.len() as int),
            forall|j: int| 0 <= j < r@.len() ==> #[trigger] r@[j] == given[given.len() - 1 - j],
        decreases rest@.len(),
    {
        let b = rest.pop().unwrap();
        r.push(b);
    }
    r
}

/// Runs the incremental join over two streams of Z-sets, one pair of
/// changes at a time, and sums what it emits: the sum is the join of the
/// sums of the two streams.
pub fn join_of_streams<K: DBData, V1: DBData, V2: DBData, R: ZRingValue>(
    lefts: Vec<OrdBatch<K, V1, (), R>>,
    rights: Vec<OrdBatch<K, V2, (), R>>,
) -> (r: OrdBatch<K, (V1, V2), (), R>)
    requires
        lefts@.len() == rights@.len(),
        forall|i: int| 0 <= i < lefts@.len() ==> (#[trigger] lefts@[i]).wf(),
        forall|i: int| 0 <= i < rights@.len() ==> (#[trigger] rights@[i]).wf(),
    ensures
        r.wf(),
        is_consolidated(r.tuples()),
        is_join(
            strip_time(r.tuples()),
            tuples_of(lefts@),
            tuples_of(rights@),
        ),
{
    let ghost ls = lefts@;
    let ghost rs = rights@;
    let mut left_rest = reversed(lefts);
    let mut right_rest = reversed(rights);
    let mut op: Join<K, V1, V2, R> = Join::new();
    let mut total: OrdBatch<K, (V1, V2), (), R> = OrdBatch::empty(());
    let ghost mut n: int = 0;
    proof {
        total.lemma_batch_wf();
        assert(ls.take(0) =~= Seq::empty());
        assert(rs.take(0) =~= Seq::empty());
        assert(tuples_of(ls.take(0)) =~= Seq::empty());
        assert(tuples_of(rs.take(0)) =~= Seq::empty());
        assert(op.left_integral() =~= Seq::empty());
        assert(op.right_integral() =~= Seq::empty());
        assert(strip_time(total.tuples()) =~= Seq::empty());
        assert forall|k: K, v1: V1, v2: V2| #[trigger]
            weight_of(strip_time(total.tuples()), (k, (v1, v2))) == weight_of(
                op.left_integral(),
                ((k, v1), ()),
            ).mul_spec(&weight_of(op.right_integral(), ((k, v2), ()))) by {
            lemma_mul_zero(R::zero_spec());
        }
    }
    while left_rest.len() > 0
        invariant
            0 <= n,
            ls.len() == rs.len(),
            n + left_rest@.len() == ls.len(),
            left_rest@.len() == right_rest@.len(),
            forall|j: int|
                0 <= j < left_rest@.len() ==> #[trigger] left_rest@[j] == ls[ls.len() - 1 - j],
            forall|j: int|
                0 <= j < right_rest@.len() ==> #[trigger] right_rest@[j] == rs[rs.len() - 1 - j],
            forall|i: int| 0 <= i < ls.len() ==> (#[trigger] ls[i]).wf(),
            forall|i: int| 0 <= i < rs.len() ==> (#[trigger] rs[i]).wf(),
            op.wf(),
            total.wf(),
            is_consolidated(total.tuples()),
            same_weights(op.left_integral(), tuples_of(ls.take(n))),
            same_weights(op.right_integral(), tuples_of(rs.take(n))),
            is_join(strip_time(total.tuples()), op.left_integral(), op.right_integral()),
        decreases left_rest@.len(),
    {
        let ghost l0 = op.left_integral();
        let ghost r0 = op.right_integral();
        let ghost emitted = total.tuples();
        let dl = left_rest.pop().unwrap();
        let dr = right_rest.pop().unwrap();
        proof {
            assert(dl == ls[n]);
            assert(dr == rs[n]);
            assert(dl.wf());
            assert(dr.wf());
        }
        let out = op.eval(dl, dr);
        total = total.merge(&out);
        proof {
            assert forall|y: (K, (V1, V2))| #[trigger]
                weight_of(strip_time(total.tuples()), y) == weight_of(
                    strip_time(emitted),
                    y,
                ).add_spec(&weight_of(strip_time(out.tuples()), y)) by {
                crate::operator::lemma_strip_weight(total.tuples(), y);
                crate::operator::lemma_strip_weight(emitted, y);
                crate::operator::lemma_strip_weight(out.tuples(), y);
            }
            lemma_join_incremental(
                l0,
                dl.tuples(),
                op.left_integral(),
                r0,
                dr.tuples(),
                op.right_integral(),
                strip_time(emitted),
                strip_time(out.tuples()),
                strip_time(total.tuples()),
            );
            let ldone = ls.take(n);
            let lnext = ls.take(n + 1);
            assert(lnext.drop_last() =~= ldone);
            assert(lnext.last() == dl);
            assert forall|x: ((K, V1), ())| #[trigger]
                weight_of(op.left_integral(), x) == weight_of(
                    tuples_of(lnext),
                    x,
                ) by {
                lemma_weight_of_concat(
                    tuples_of(ldone),
                    dl.tuples(),
                    x,
                );
                assert(weight_of(l0, x) == weight_of(
                    tuples_of(ldone),
                    x,
                ));
                assert(weight_of(op.left_integral(), x) == weight_of(l0, x).add_spec(
                    &weight_of(dl.tuples(), x),
                ));
            }
            let rdone = rs.take(n);
            let rnext = rs.take(n + 1);
            assert(rnext.drop_last() =~= rdone);
            assert(rnext.last() == dr);
            assert forall|x: ((K, V2), ())| #[trigger]
                weight_of(op.right_integral(), x) == weight_of(
                    tuples_of(rnext),
                    x,
                ) by {
                lemma_weight_of_concat(
                    tuples_of(rdone),
                    dr.tuples(),
                    x,
                );
                assert(weight_of(r0, x) == weight_of(
                    tuples_of(rdone),
                    x,
                ));
                assert(weight_of(op.right_integral(), x) == weight_of(r0, x).add_spec(
                    &weight_of(dr.tuples(), x),
                ));
            }
            n = n + 1;
        }
    }
    proof {
        assert(ls.take(ls.len() as int) =~= ls);
        assert(rs.take(rs.len() as int) =~= rs);
        assert forall|k: K, v1: V1, v2: V2| #[trigger]
            weight_of(strip_time(total.tuples()), (k, (v1, v2))) == weight_of(
                tuples_of(ls),
                ((k, v1), ()),
            ).mul_spec(&weight_of(tuples_of(rs), ((k, v2), ()))) by {
            assert(weight_of(strip_time(total.tuples()), (k, (v1, v2))) == weight_of(
                op.left_integral(),
                ((k, v1), ()),
            ).mul_spec(&weight_of(op.right_integral(), ((k, v2), ()))));
            assert(weight_of(op.left_integral(), ((k, v1), ())) == weight_of(
                tuples_of(ls),
                ((k, v1), ()),
            ));
            assert(weight_of(op.right_integral(), ((k, v2), ())) == weight_of(
                tuples_of(rs),
                ((k, v2), ()),
            ));
        }
    }
    total
}

} // verus!
