//! Operators that work partition by partition.
//!
//! The tuples of a key in an indexed Z-set are its partition.  A partitioned
//! operator applies a kernel to the rows of each partition on its own, and
//! maintains the result step by step: when it takes a change, it applies
//! the kernel anew to each partition that the change holds a tuple of, and
//! emits what the result changes by.

use vstd::prelude::*;
use crate::algebra::{negate_vec, ZRingValue};
use crate::operator::differentiate::lemma_cancel;
use crate::operator::integrate::Integrate;
use crate::operator::join::lemma_key_run_weights;
use crate::operator::{lemma_absent_key, lemma_strip_weight, lemma_unit_val_end};
use crate::time::Timestamp;
use crate::trace::consolidation::{
    lemma_canonical,
    has_item,
    is_consolidated,
    is_sum,
    lemma_weight_of_absent,
    lemma_weight_of_concat,
    lemma_zero_add,
    merge_vecs,
    same_weights,
    weight_of,
};
use crate::trace::cursor::cursor_group::{
    group_storage,
    lemma_group_consolidated,
    lemma_group_key_end,
    CursorGroup,
};
use crate::trace::cursor::{
    collect_tuples,
    key_end,
    key_lower,
    lemma_key_end,
    lemma_key_lower,
    lemma_through_all,
    times_between,
    val_end,
    Cursor,
};
use crate::trace::ord::OrdBatch;
use crate::trace::spine_fueled::tuples_of;
use crate::trace::{strip_time, Batch, BatchReader, DBData, DBWeight};

verus! {

/// The values and weights of the tuples of the key that starts at `kp`.
pub open spec fn partition_at<K: DBData, V, R>(s: Seq<(((K, V), ()), R)>, kp: int) -> Seq<(V, R)> {
    Seq::new((key_end(s, kp) - kp) as nat, |j: int| (s[kp + j].0.0.1, s[kp + j].1))
}

/// Reads the values and weights of the current key of `base` through a
/// group cursor, and leaves `base` on that key.
pub fn partition_rows<'s, K: DBData, V: DBData, R: DBWeight, C: Cursor<'s, K, V, (), R>>(
    base: &mut C,
) -> (rows: Vec<(V, R)>)
    requires
        old(base).wf(),
        old(base).key_pos() < old(base).storage().len(),
        old(base).clip() is None,
    ensures
        final(base).wf(),
        final(base).storage() == old(base).storage(),
        final(base).key_pos() == old(base).key_pos(),
        final(base).clip() == old(base).clip(),
        rows@ == partition_at(old(base).storage(), old(base).key_pos()),
{
    let ghost s = base.storage();
    let ghost kp = base.key_pos();
    let ghost gs = group_storage(s, kp);
    proof {
        base.lemma_wf();
        lemma_group_consolidated(s, kp);
        lemma_key_end(s, kp);
    }
    let mut rows: Vec<(V, R)> = Vec::new();
    let ghost base_final = *final(base);
    let mut g = CursorGroup::new(base, ());
    g.rewind_keys();
    proof {
        assert(rows@ =~= partition_at(s, kp).take(0));
    }
    while g.key_valid()
        invariant
            *final(g.base) == base_final,
            g.base.wf(),
            g.base.storage() == s,
            g.base.key_pos() == kp,
            g.base.clip() is None,
            g.val_valid,
            0 <= kp < s.len(),
            gs == group_storage(s, kp),
            is_consolidated(s),
            is_consolidated(gs),
            gs.len() == key_end(s, kp) - kp,
            kp == key_lower(s, s[kp].0.0.0),
            0 <= g.key_pos() <= gs.len(),
            rows@ == partition_at(s, kp).take(g.key_pos()),
        decreases gs.len() - g.key_pos(),
    {
        let ghost p = g.key_pos();
        proof {
            lemma_group_key_end(s, kp, p);
            lemma_unit_val_end(gs, p);
            let h = times_between(gs, p, val_end(gs, p));
            lemma_through_all(h, ());
        }
        let v = g.key().dup();
        let w = g.weight();
        rows.push((v, w));
        g.step_key();
        proof {
            assert(rows@ =~= partition_at(s, kp).take(p + 1));
        }
    }
    proof {
        assert(partition_at(s, kp).take(gs.len() as int) =~= partition_at(s, kp));
    }
    rows
}

/// The rows of a partition, each with the key of the partition.
pub open spec fn with_key<K, V, R>(k: K, rows: Seq<(V, R)>) -> Seq<((K, V), R)> {
    Seq::new(rows.len(), |j: int| ((k, rows[j].0), rows[j].1))
}

/// The values of the tuples of one key strictly increase.
pub proof fn lemma_partition_sorted<K: DBData, V: DBData, R: DBWeight>(s: Seq<(((K, V), ()), R)>, kp: int)
    requires
        is_consolidated(s),
        0 <= kp < s.len(),
        kp == key_lower(s, s[kp].0.0.0),
    ensures
        is_consolidated(partition_at(s, kp)),
{
    let part = partition_at(s, kp);
    lemma_key_end(s, kp);
    K::lemma_lt_irreflexive(s[kp].0.0.0);
    assert forall|a: int, b: int| 0 <= a < b < part.len() implies (#[trigger] part[a]).0.lt_spec(
        &(#[trigger] part[b]).0,
    ) by {
        assert(s[kp + a].0.lt_spec(&s[kp + b].0));
        assert(s[kp + a].0.0.0 == s[kp].0.0.0);
        assert(s[kp + b].0.0.0 == s[kp].0.0.0);
    }
    assert forall|a: int| 0 <= a < part.len() implies (#[trigger] part[a]).1 != R::zero_spec() by {
        assert(s[kp + a].1 != R::zero_spec());
    }
}

/// The key `k` has a tuple in `s`.
pub open spec fn has_key<K: DBData, V, R>(s: Seq<(((K, V), ()), R)>, k: K) -> bool {
    key_lower(s, k) < s.len() && s[key_lower(s, k)].0.0.0 == k
}

/// The values and weights of the tuples of the key `k`, if it has any.
pub open spec fn partition_of<K: DBData, V, R>(s: Seq<(((K, V), ()), R)>, k: K) -> Seq<(V, R)> {
    if has_key(s, k) {
        partition_at(s, key_lower(s, k))
    } else {
        Seq::empty()
    }
}

/// The weight of a value among the rows `rows`, each with the key `k`, is
/// its weight among the rows; nothing with another key has a weight.
pub proof fn lemma_with_key_weight<K, V, R: DBWeight>(k: K, rows: Seq<(V, R)>, x: (K, V))
    ensures
        weight_of(with_key(k, rows), x) == if x.0 == k {
            weight_of(rows, x.1)
        } else {
            R::zero_spec()
        },
    decreases rows.len(),
{
    if rows.len() > 0 {
        lemma_with_key_weight(k, rows.drop_last(), x);
        assert(with_key(k, rows).drop_last() =~= with_key(k, rows.drop_last()));
        assert(with_key(k, rows).last() == ((k, rows.last().0), rows.last().1));
    }
}

/// The weight of a key and value in `s` is the weight of the value among the
/// rows of the key.
pub proof fn lemma_partition_weight<K: DBData, V: DBData, R: DBWeight>(
    s: Seq<(((K, V), ()), R)>,
    k: K,
    v: V,
)
    requires
        is_consolidated(s),
    ensures
        weight_of(partition_of(s, k), v) == weight_of(s, ((k, v), ())),
        is_consolidated(partition_of(s, k)),
{
    let x = ((k, v), ());
    lemma_key_lower(s, k);
    if has_key(s, k) {
        let kp = key_lower(s, k);
        let ke = key_end(s, kp);
        lemma_key_end(s, kp);
        lemma_key_run_weights(s, kp, v);
        lemma_partition_sorted(s, kp);
        let run = s.subrange(kp, ke);
        assert(s.take(ke) =~= s.take(kp) + run);
        lemma_weight_of_concat(s.take(kp), run, x);
        lemma_zero_add(weight_of(run, x));
        lemma_run_as_partition(s, kp, ke - kp, v);
        assert(s.subrange(kp, kp + (ke - kp)) =~= run);
        assert(partition_at(s, kp).take(ke - kp) =~= partition_at(s, kp));
    } else {
        lemma_absent_key(s, k);
        if has_item(s, x) {
            let i = choose|i: int| 0 <= i < s.len() && (#[trigger] s[i]).0 == x;
            assert(s[i].0.0.0 == k);
        }
        lemma_weight_of_absent(s, x);
    }
}

/// The rows of a key are consolidated.
pub proof fn lemma_partition_consolidated<K: DBData, V: DBData, R: DBWeight>(
    s: Seq<(((K, V), ()), R)>,
    k: K,
)
    requires
        is_consolidated(s),
    ensures
        is_consolidated(partition_of(s, k)),
{
    lemma_key_lower(s, k);
    if has_key(s, k) {
        lemma_partition_sorted(s, key_lower(s, k));
    }
}

/// The weight of a key and value among the first `m` tuples of the key is
/// the weight of the value among the first `m` rows of the key.
pub proof fn lemma_run_as_partition<K: DBData, V: DBData, R: DBWeight>(
    s: Seq<(((K, V), ()), R)>,
    kp: int,
    m: int,
    v: V,
)
    requires
        is_consolidated(s),
        0 <= kp < s.len(),
        kp == key_lower(s, s[kp].0.0.0),
        0 <= m <= key_end(s, kp) - kp,
    ensures
        weight_of(s.subrange(kp, kp + m), ((s[kp].0.0.0, v), ())) == weight_of(
            partition_at(s, kp).take(m),
            v,
        ),
    decreases m,
{
    lemma_key_end(s, kp);
    let k = s[kp].0.0.0;
    let run = s.subrange(kp, kp + m);
    let part = partition_at(s, kp).take(m);
    if m > 0 {
        lemma_run_as_partition(s, kp, m - 1, v);
        assert(run.drop_last() =~= s.subrange(kp, kp + m - 1));
        assert(part.drop_last() =~= partition_at(s, kp).take(m - 1));
        assert(run.last() == s[kp + m - 1]);
        assert(part.last() == (s[kp + m - 1].0.0.1, s[kp + m - 1].1));
        assert(s[kp + m - 1].0.0.0 == k);
        assert(s[kp + m - 1].0 == ((k, s[kp + m - 1].0.0.1), ()));
    }
}

/// Reads the values and weights of the key `key` from what `c` ranges over;
/// nothing where the key has no tuple.
pub fn fetch_partition<'s, K: DBData, V: DBData, R: DBWeight, C: Cursor<'s, K, V, (), R>>(
    c: &mut C,
    key: &K,
) -> (rows: Vec<(V, R)>)
    requires
        old(c).wf(),
        old(c).clip() is None,
    ensures
        final(c).wf(),
        final(c).storage() == old(c).storage(),
        final(c).clip() == old(c).clip(),
        rows@ == partition_of(old(c).storage(), *key),
{
    let ghost s = c.storage();
    proof {
        c.lemma_wf();
        lemma_key_lower(s, *key);
    }
    c.rewind_keys();
    c.seek_key(key);
    proof {
        c.lemma_wf();
    }
    if c.key_valid() && c.key().same(key) {
        partition_rows(c)
    } else {
        Vec::new()
    }
}

/// Some tuple among the first `n` of `s` has the key `k`.
pub open spec fn key_among<K, V, R>(s: Seq<(((K, V), ()), R)>, n: int, k: K) -> bool {
    exists|j: int| 0 <= j < n && j < s.len() && (#[trigger] s[j]).0.0.0 == k
}

/// Appending rows with a key above the keys so far keeps pairs
/// consolidated, and gives each row its weight with that key.
pub proof fn lemma_append_with_key<K: DBData, V: DBData, R: DBWeight>(
    sofar: Seq<((K, V), R)>,
    k: K,
    rows: Seq<(V, R)>,
)
    requires
        is_consolidated(sofar),
        is_consolidated(rows),
        forall|j: int| 0 <= j < sofar.len() ==> (#[trigger] sofar[j]).0.0.lt_spec(&k),
    ensures
        is_consolidated(sofar + with_key(k, rows)),
        forall|x: (K, V)| #[trigger]
            weight_of(sofar + with_key(k, rows), x) == weight_of(sofar, x).add_spec(
                &(if x.0 == k {
                    weight_of(rows, x.1)
                } else {
                    R::zero_spec()
                }),
            ),
        forall|j: int|
            0 <= j < (sofar + with_key(k, rows)).len() ==> (#[trigger] (sofar + with_key(
                k,
                rows,
            ))[j]).0.0.lt_spec(&k) || (sofar + with_key(k, rows))[j].0.0 == k,
{
    let tail = with_key(k, rows);
    let all = sofar + tail;
    K::lemma_lt_irreflexive(k);
    assert forall|a: int, b: int| 0 <= a < b < all.len() implies (#[trigger] all[a]).0.lt_spec(
        &(#[trigger] all[b]).0,
    ) by {
        if b < sofar.len() {
            assert(sofar[a].0.lt_spec(&sofar[b].0));
        } else if a < sofar.len() {
            assert(sofar[a].0.0.lt_spec(&k));
            assert(all[b].0.0 == k);
        } else {
            assert(rows[a - sofar.len()].0.lt_spec(&rows[b - sofar.len()].0));
        }
    }
    assert forall|a: int| 0 <= a < all.len() implies (#[trigger] all[a]).1 != R::zero_spec() by {
        if a < sofar.len() {
            assert(sofar[a].1 != R::zero_spec());
        } else {
            assert(rows[a - sofar.len()].1 != R::zero_spec());
        }
    }
    assert forall|x: (K, V)| #[trigger]
        weight_of(all, x) == weight_of(sofar, x).add_spec(
            &(if x.0 == k {
                weight_of(rows, x.1)
            } else {
                R::zero_spec()
            }),
        ) by {
        lemma_weight_of_concat(sofar, tail, x);
        lemma_with_key_weight(k, rows, x);
    }
    assert forall|j: int| 0 <= j < all.len() implies (#[trigger] all[j]).0.0.lt_spec(&k)
        || all[j].0.0 == k by {
        if j < sofar.len() {
            assert(sofar[j].0.0.lt_spec(&k));
        }
    }
}

/// Two consolidated Z-sets that hold the same weights for a key hold the
/// same rows for it, and so give it the same rolling aggregate.
pub proof fn lemma_same_partition<K: DBData, V: DBData, R: DBWeight>(
    a: Seq<(((K, V), ()), R)>,
    b: Seq<(((K, V), ()), R)>,
    k: K,
)
    requires
        is_consolidated(a),
        is_consolidated(b),
        forall|v: V| #[trigger] weight_of(a, ((k, v), ())) == weight_of(b, ((k, v), ())),
    ensures
        partition_of(a, k) == partition_of(b, k),
{
    lemma_partition_consolidated(a, k);
    lemma_partition_consolidated(b, k);
    assert forall|v: V| #[trigger]
        weight_of(partition_of(a, k), v) == weight_of(partition_of(b, k), v) by {
        lemma_partition_weight(a, k, v);
        lemma_partition_weight(b, k, v);
    }
    lemma_canonical(partition_of(a, k), partition_of(b, k));
}

/// A key that no tuple has has no weight for any value.
pub proof fn lemma_key_absent_weight<K, V, R: DBWeight>(s: Seq<(((K, V), ()), R)>, k: K, v: V)
    requires
        !key_among(s, s.len() as int, k),
    ensures
        weight_of(s, ((k, v), ())) == R::zero_spec(),
{
    if has_item(s, ((k, v), ())) {
        let i = choose|i: int| 0 <= i < s.len() && (#[trigger] s[i]).0 == ((k, v), ());
        assert(s[i].0.0.0 == k);
    }
    lemma_weight_of_absent(s, ((k, v), ()));
}

/// What a partitioned operator applies to the rows of each partition: a
/// function from the consolidated rows of a partition to consolidated rows
/// of the output for that partition, which gives nothing for no rows.
pub trait PartitionKernel<V: DBData, O: DBData>: Sized {
    /// What the kernel gives for the rows of a partition.
    spec fn apply_spec(&self, rows: Seq<(V, i64)>) -> Seq<(O, i64)>;

    /// What the kernel gives for consolidated rows is consolidated, and for
    /// no rows it gives nothing.
    proof fn lemma_apply(&self, rows: Seq<(V, i64)>)
        requires
            is_consolidated(rows),
        ensures
            is_consolidated(self.apply_spec(rows)),
            rows.len() == 0 ==> self.apply_spec(rows).len() == 0,
    ;

    /// Applies the kernel to the rows of a partition.
    fn apply(&self, rows: &Vec<(V, i64)>) -> (r: Vec<(O, i64)>)
        requires
            is_consolidated(rows@),
        ensures
            r@ == self.apply_spec(rows@),
    ;
}

/// The weight of `x` in what the kernel gives for the rows that `s` holds
/// for the key `k`.
pub open spec fn kernel_weight<K: DBData, V: DBData, O: DBData, F: PartitionKernel<V, O>>(
    kernel: F,
    s: Seq<(((K, V), ()), i64)>,
    k: K,
    x: O,
) -> i64 {
    weight_of(kernel.apply_spec(partition_of(s, k)), x)
}

/// Computes what the output for the key `key` changes by: what the kernel
/// gives for the rows that `input` holds for the key, minus what `output`
/// holds for the key.
pub fn partition_change<
    's,
    't,
    K: DBData,
    V: DBData,
    O: DBData,
    F: PartitionKernel<V, O>,
    CI: Cursor<'s, K, V, (), i64>,
    CO: Cursor<'t, K, O, (), i64>,
>(input: &mut CI, output: &mut CO, key: &K, kernel: &F) -> (diff: Vec<(O, i64)>)
    requires
        old(input).wf(),
        old(input).clip() is None,
        old(output).wf(),
        old(output).clip() is None,
    ensures
        final(input).wf(),
        final(input).storage() == old(input).storage(),
        final(input).clip() == old(input).clip(),
        final(output).wf(),
        final(output).storage() == old(output).storage(),
        final(output).clip() == old(output).clip(),
        is_consolidated(diff@),
        forall|x: O| #[trigger]
            weight_of(diff@, x) == kernel_weight(*kernel, old(input).storage(), *key, x).add_spec(
                &weight_of(partition_of(old(output).storage(), *key), x).neg_spec(),
            ),
{
    let ghost si = input.storage();
    let ghost so = output.storage();
    proof {
        input.lemma_wf();
        output.lemma_wf();
        lemma_partition_consolidated(si, *key);
        lemma_partition_consolidated(so, *key);
        kernel.lemma_apply(partition_of(si, *key));
    }
    let rows = fetch_partition(input, key);
    let fresh = kernel.apply(&rows);
    let stale = fetch_partition(output, key);
    let minus = negate_vec(&stale);
    merge_vecs(&fresh, &minus)
}

/// An operator that applies a kernel partition by partition and maintains
/// the result step by step.
///
/// The operator keeps the sum of the Z-sets that it has taken and the sum
/// of the changes that it has emitted: for each key the latter holds what
/// the kernel gives for the rows that the former holds for the key.
pub struct Partitioned<K: DBData, V: DBData, O: DBData, F: PartitionKernel<V, O>> {
    kernel: F,
    input: Integrate<OrdBatch<K, V, (), i64>>,
    output: Integrate<OrdBatch<K, O, (), i64>>,
    rows: Ghost<Seq<(((K, V), ()), i64)>>,
}

impl<K: DBData, V: DBData, O: DBData, F: PartitionKernel<V, O>> Partitioned<K, V, O, F> {
    /// The kernel.
    pub closed spec fn kernel_spec(&self) -> F {
        self.kernel
    }

    /// The tuples that stand for the sum of the Z-sets taken so far.
    pub closed spec fn input_integral(&self) -> Seq<(((K, V), ()), i64)> {
        self.input.integral()
    }

    /// The tuples that stand for the sum of the changes emitted so far.
    pub closed spec fn output_integral(&self) -> Seq<(((K, O), ()), i64)> {
        self.output.integral()
    }

    /// The consolidated rows that the operator has taken so far.
    pub closed spec fn input_rows(&self) -> Seq<(((K, V), ()), i64)> {
        self.rows@
    }

    /// The operator has taken a Z-set that holds a tuple since the dirty
    /// flag was cleared.
    pub closed spec fn dirty_spec(&self) -> bool {
        self.input.dirty_spec()
    }

    /// The operator is in a valid state: what it has emitted adds up, for
    /// each key, to what the kernel gives for the rows taken for the key.
    pub closed spec fn wf(&self) -> bool {
        &&& self.input.wf()
        &&& self.output.wf()
        &&& is_consolidated(self.rows@)
        &&& same_weights(self.rows@, self.input.integral())
        &&& forall|k: K, x: O| #[trigger]
            weight_of(self.output.integral(), ((k, x), ())) == kernel_weight(
                self.kernel,
                self.rows@,
                k,
                x,
            )
    }

    /// What a valid operator has emitted adds up, for each key, to what the
    /// kernel gives for the consolidated rows that it has taken for the key.
    pub proof fn lemma_output(&self)
        requires
            self.wf(),
        ensures
            is_consolidated(self.input_rows()),
            same_weights(self.input_rows(), self.input_integral()),
            forall|k: K, x: O| #[trigger]
                weight_of(self.output_integral(), ((k, x), ())) == kernel_weight(
                    self.kernel_spec(),
                    self.input_rows(),
                    k,
                    x,
                ),
    {
    }

    /// An operator with the kernel `kernel` that has taken nothing.
    pub fn new(kernel: F) -> (r: Self)
        ensures
            r.wf(),
            r.kernel_spec() == kernel,
            r.input_integral().len() == 0,
            r.output_integral().len() == 0,
            !r.dirty_spec(),
    {
        let r = Partitioned {
            kernel,
            input: Integrate::new(),
            output: Integrate::new(),
            rows: Ghost(Seq::empty()),
        };
        proof {
            let s = r.rows@;
            assert(r.input.integral() =~= s);
            assert forall|k: K, x: O| #[trigger]
                weight_of(r.output.integral(), ((k, x), ())) == kernel_weight(r.kernel, s, k, x) by {
                assert(partition_of(s, k) =~= Seq::empty());
                r.kernel.lemma_apply(partition_of(s, k));
                assert(r.kernel.apply_spec(partition_of(s, k)) =~= Seq::empty());
                assert(r.output.integral() =~= Seq::empty());
            }
        }
        r
    }

    /// Takes the change `delta` of the input and emits what the output
    /// changes by.
    pub fn eval(&mut self, delta: OrdBatch<K, V, (), i64>) -> (r: OrdBatch<K, O, (), i64>)
        requires
            old(self).wf(),
            delta.wf(),
        ensures
            final(self).wf(),
            final(self).kernel_spec() == old(self).kernel_spec(),
            final(self).dirty_spec() == (old(self).dirty_spec() || delta.tuples().len() > 0),
            is_sum(final(self).input_integral(), old(self).input_integral(), delta.tuples()),
            is_sum(final(self).output_integral(), old(self).output_integral(), r.tuples()),
            r.wf(),
            is_consolidated(r.tuples()),
    {
        let ghost c0 = self.rows@;
        let ghost i0 = self.input.integral();
        let ghost o0 = self.output.integral();
        let ghost kernel = self.kernel;
        let mut dc = delta.cursor();
        let ds = collect_tuples(&mut dc);
        proof {
            delta.lemma_batch_wf();
            lemma_canonical(ds@, delta.tuples());
        }
        self.input.add(delta);
        let mut ic = self.input.trace().cursor();
        let mut oc = self.output.trace().cursor();
        let ghost s1 = ic.storage();
        let ghost so = oc.storage();
        let mut result: Vec<((K, O), i64)> = Vec::new();
        let mut i: usize = 0;
        proof {
            crate::trace::cursor::lemma_projections_ascend(ds@);
        }
        while i < ds.len()
            invariant
                i <= ds.len(),
                is_consolidated(ds@),
                crate::trace::cursor::is_ascending(crate::trace::cursor::keys_of(ds@)),
                ic.wf(),
                ic.storage() == s1,
                ic.clip() is None,
                oc.wf(),
                oc.storage() == so,
                oc.clip() is None,
                kernel == self.kernel,
                is_consolidated(result@),
                forall|j: int, n: int|
                    0 <= j < result@.len() && i <= n < ds@.len() ==> (#[trigger] result@[j]).0.0.lt_spec(
                        &(#[trigger] ds@[n]).0.0.0,
                    ),
                forall|n: int, m: int|
                    0 <= n < i && i <= m < ds@.len() ==> (#[trigger] ds@[n]).0.0.0.lt_spec(
                        &(#[trigger] ds@[m]).0.0.0,
                    ),
                forall|k: K, x: O| #[trigger]
                    weight_of(result@, (k, x)) == if key_among(ds@, i as int, k) {
                        kernel_weight(kernel, s1, k, x).add_spec(
                            &weight_of(partition_of(so, k), x).neg_spec(),
                        )
                    } else {
                        0i64
                    },
            decreases ds.len() - i,
        {
            let ghost before = result@;
            let ghost start = i as int;
            let key = ds[i].0.0.0.dup();
            let diff = partition_change(&mut ic, &mut oc, &key, &self.kernel);
            let mut j: usize = 0;
            proof {
                assert(before + with_key(key, diff@.take(0)) =~= before);
            }
            while j < diff.len()
                invariant
                    j <= diff.len(),
                    result@ == before + with_key(key, diff@.take(j as int)),
                decreases diff.len() - j,
            {
                result.push(((key.dup(), diff[j].0.dup()), diff[j].1));
                proof {
                    assert(diff@.take(j + 1) =~= diff@.take(j as int).push(diff@[j as int]));
                    assert(result@ =~= before + with_key(key, diff@.take(j + 1)));
                }
                j = j + 1;
            }
            i = i + 1;
            while i < ds.len() && ds[i].0.0.0.same(&key)
                invariant
                    0 <= start < i <= ds.len(),
                    forall|n: int| start <= n < i ==> (#[trigger] ds@[n]).0.0.0 == key,
                decreases ds.len() - i,
            {
                i = i + 1;
            }
            proof {
                let ks = crate::trace::cursor::keys_of(ds@);
                assert(diff@.take(diff.len() as int) =~= diff@);
                assert forall|n: int| 0 <= n < before.len() implies (#[trigger] before[n]).0.0.lt_spec(
                    &key,
                ) by {
                    assert(before[n].0.0.lt_spec(&ds@[start].0.0.0));
                }
                lemma_append_with_key(before, key, diff@);
                K::lemma_lt_irreflexive(key);
                assert forall|n: int| i <= n < ds@.len() implies key.lt_spec(
                    &(#[trigger] ds@[n]).0.0.0,
                ) by {
                    assert(ks[i as int] != key);
                    assert(ks[start] == key);
                    assert(!ks[i as int].lt_spec(&ks[start]));
                    K::lemma_lt_total(key, ks[i as int]);
                    K::lemma_lt_irreflexive(ks[n]);
                    if n > i {
                        assert(!ks[n].lt_spec(&ks[i as int]));
                    }
                    K::lemma_lt_total(ks[i as int], ks[n]);
                    if ks[i as int].lt_spec(&ks[n]) {
                        K::lemma_lt_transitive(key, ks[i as int], ks[n]);
                    }
                    assert(ks[n] == ds@[n].0.0.0);
                }
                assert forall|a: int, n: int|
                    0 <= a < result@.len() && i <= n < ds@.len() implies (#[trigger] result@[a]).0.0.lt_spec(
                    &(#[trigger] ds@[n]).0.0.0,
                ) by {
                    assert(key.lt_spec(&ds@[n].0.0.0));
                    if result@[a].0.0 != key {
                        K::lemma_lt_transitive(result@[a].0.0, key, ds@[n].0.0.0);
                    }
                }
                assert forall|n: int, m: int|
                    0 <= n < i && i <= m < ds@.len() implies (#[trigger] ds@[n]).0.0.0.lt_spec(
                    &(#[trigger] ds@[m]).0.0.0,
                ) by {
                    assert(key.lt_spec(&ds@[m].0.0.0));
                    if n < start {
                        assert(ds@[n].0.0.0.lt_spec(&ds@[start].0.0.0));
                        K::lemma_lt_transitive(ds@[n].0.0.0, key, ds@[m].0.0.0);
                    }
                }
                assert forall|k: K, x: O| #[trigger]
                    weight_of(result@, (k, x)) == if key_among(ds@, i as int, k) {
                        kernel_weight(kernel, s1, k, x).add_spec(
                            &weight_of(partition_of(so, k), x).neg_spec(),
                        )
                    } else {
                        0i64
                    } by {
                    assert(weight_of(before, (k, x)) == if key_among(ds@, start, k) {
                        kernel_weight(kernel, s1, k, x).add_spec(
                            &weight_of(partition_of(so, k), x).neg_spec(),
                        )
                    } else {
                        0i64
                    });
                    if k == key {
                        assert(ds@[start].0.0.0 == k);
                        assert(key_among(ds@, i as int, k));
                        if key_among(ds@, start, k) {
                            let n = choose|n: int|
                                0 <= n < start && n < ds@.len() && (#[trigger] ds@[n]).0.0.0 == k;
                            assert(ds@[n].0.0.0.lt_spec(&ds@[start].0.0.0));
                            assert(false);
                        }
                    } else {
                        if key_among(ds@, i as int, k) {
                            let n = choose|n: int|
                                0 <= n < i && n < ds@.len() && (#[trigger] ds@[n]).0.0.0 == k;
                            assert(n < start);
                            assert(key_among(ds@, start, k));
                        }
                        if key_among(ds@, start, k) {
                            let n = choose|n: int|
                                0 <= n < start && n < ds@.len() && (#[trigger] ds@[n]).0.0.0 == k;
                            assert(key_among(ds@, i as int, k));
                        }
                    }
                }
            }
        }
        let pairs = result;
        let r = OrdBatch::from_consolidated((), pairs);
        let copy = r.dup();
        self.output.add(copy);
        self.rows = Ghost(s1);
        proof {
            crate::trace::ord::lemma_at_time_consolidated(pairs@, ());
            assert forall|k: K, x: O| #[trigger]
                weight_of(self.output.integral(), ((k, x), ())) == kernel_weight(kernel, s1, k, x) by {
                let was = weight_of(o0, ((k, x), ()));
                lemma_strip_weight(r.tuples(), (k, x));
                assert(strip_time(r.tuples()) =~= pairs@);
                assert(weight_of(r.tuples(), ((k, x), ())) == weight_of(pairs@, (k, x)));
                assert(weight_of(self.output.integral(), ((k, x), ())) == was.add_spec(
                    &weight_of(pairs@, (k, x)),
                ));
                lemma_partition_weight(so, k, x);
                assert(weight_of(so, ((k, x), ())) == was);
                assert(was == kernel_weight(kernel, c0, k, x));
                if key_among(ds@, ds@.len() as int, k) {
                    lemma_cancel(kernel_weight(kernel, s1, k, x), was);
                } else {
                    assert forall|v: V| #[trigger]
                        weight_of(s1, ((k, v), ())) == weight_of(c0, ((k, v), ())) by {
                        lemma_key_absent_weight(ds@, k, v);
                        assert(weight_of(s1, ((k, v), ())) == weight_of(
                            self.input.integral(),
                            ((k, v), ()),
                        ));
                        assert(weight_of(self.input.integral(), ((k, v), ())) == weight_of(
                            i0,
                            ((k, v), ()),
                        ).add_spec(&weight_of(ds@, ((k, v), ()))));
                        assert(weight_of(c0, ((k, v), ())) == weight_of(i0, ((k, v), ())));
                    }
                    lemma_same_partition(s1, c0, k);
                }
            }
        }
        r
    }

    /// Tells whether a Z-set that holds a tuple was taken since the flag was
    /// cleared.
    pub fn dirty(&self) -> (r: bool)
        requires
            self.wf(),
        ensures
            r == self.dirty_spec(),
    {
        self.input.dirty()
    }

    /// Clears the dirty flag.
    pub fn clear_dirty_flag(&mut self)
        requires
            old(self).wf(),
        ensures
            final(self).wf(),
            !final(self).dirty_spec(),
            final(self).kernel_spec() == old(self).kernel_spec(),
            final(self).input_integral() == old(self).input_integral(),
            final(self).output_integral() == old(self).output_integral(),
            final(self).input_rows() == old(self).input_rows(),
    {
        self.input.clear_dirty_flag();
    }
}


/// `out` holds, for each key, what the kernel gives for the rows that the
/// consolidated Z-set `rows` holds for the key.
pub open spec fn is_partitioned<K: DBData, V: DBData, O: DBData, F: PartitionKernel<V, O>>(
    out: Seq<(((K, O), ()), i64)>,
    kernel: F,
    rows: Seq<(((K, V), ()), i64)>,
) -> bool {
    forall|k: K, x: O| #[trigger] weight_of(out, ((k, x), ())) == kernel_weight(kernel, rows, k, x)
}

/// Runs a partitioned operator over a stream of Z-sets, one at a time, and
/// sums what it emits: the sum is what the kernel gives, key by key, for
/// the consolidated sum of the stream.
pub fn partitioned_of_stream<K: DBData, V: DBData, O: DBData, F: PartitionKernel<V, O>>(
    kernel: F,
    stream: Vec<OrdBatch<K, V, (), i64>>,
) -> (r: OrdBatch<K, O, (), i64>)
    requires
        forall|i: int| 0 <= i < stream@.len() ==> (#[trigger] stream@[i]).wf(),
    ensures
        r.wf(),
        is_consolidated(r.tuples()),
        forall|rows: Seq<(((K, V), ()), i64)>|
            is_consolidated(rows) && same_weights(
                rows,
                tuples_of(stream@),
            ) ==> #[trigger] is_partitioned(r.tuples(), kernel, rows),
{
    let ghost given = stream@;
    let mut rest = stream;
    let mut reversed: Vec<OrdBatch<K, V, (), i64>> = Vec::new();
    while rest.len() > 0
        invariant
            rest@.len() + reversed@.len() == given.len(),
            rest@ == given.take(rest@.len() as int),
            forall|j: int|
                0 <= j < reversed@.len() ==> #[trigger] reversed@[j] == given[given.len() - 1 - j],
        decreases rest@.len(),
    {
        let b = rest.pop().unwrap();
        reversed.push(b);
    }
    let mut op: Partitioned<K, V, O, F> = Partitioned::new(kernel);
    let mut total: OrdBatch<K, O, (), i64> = OrdBatch::empty(());
    let ghost mut n: int = 0;
    proof {
        total.lemma_batch_wf();
        assert(given.take(0) =~= Seq::empty());
        assert(tuples_of(given.take(0)) =~= Seq::empty());
        assert(op.input_integral() =~= Seq::empty());
        assert(op.output_integral() =~= Seq::empty());
        assert(total.tuples() =~= Seq::empty());
    }
    while reversed.len() > 0
        invariant
            0 <= n,
            n + reversed@.len() == given.len(),
            forall|j: int|
                0 <= j < reversed@.len() ==> #[trigger] reversed@[j] == given[given.len() - 1 - j],
            forall|i: int| 0 <= i < given.len() ==> (#[trigger] given[i]).wf(),
            op.wf(),
            op.kernel_spec() == kernel,
            total.wf(),
            is_consolidated(total.tuples()),
            same_weights(
                op.input_integral(),
                tuples_of(given.take(n)),
            ),
            same_weights(total.tuples(), op.output_integral()),
        decreases reversed@.len(),
    {
        let ghost before = op.input_integral();
        let ghost emitted = op.output_integral();
        let ghost sum = total.tuples();
        let input = reversed.pop().unwrap();
        proof {
            assert(input == given[n]);
            assert(input.wf());
        }
        let out = op.eval(input);
        total = total.merge(&out);
        proof {
            let done = given.take(n);
            let next = given.take(n + 1);
            assert(next.drop_last() =~= done);
            assert(next.last() == input);
            assert forall|x: ((K, V), ())| #[trigger]
                weight_of(op.input_integral(), x) == weight_of(
                    tuples_of(next),
                    x,
                ) by {
                lemma_weight_of_concat(
                    tuples_of(done),
                    input.tuples(),
                    x,
                );
                assert(weight_of(before, x) == weight_of(
                    tuples_of(done),
                    x,
                ));
                assert(weight_of(op.input_integral(), x) == weight_of(before, x).add_spec(
                    &weight_of(input.tuples(), x),
                ));
            }
            assert forall|x: ((K, O), ())| #[trigger]
                weight_of(total.tuples(), x) == weight_of(op.output_integral(), x) by {
                assert(weight_of(sum, x) == weight_of(emitted, x));
                assert(weight_of(total.tuples(), x) == weight_of(sum, x).add_spec(
                    &weight_of(out.tuples(), x),
                ));
                assert(weight_of(op.output_integral(), x) == weight_of(emitted, x).add_spec(
                    &weight_of(out.tuples(), x),
                ));
            }
            n = n + 1;
        }
    }
    proof {
        assert(given.take(given.len() as int) =~= given);
        op.lemma_output();
        assert forall|rows: Seq<(((K, V), ()), i64)>|
            is_consolidated(rows) && same_weights(
                rows,
                tuples_of(given),
            ) implies #[trigger] is_partitioned(total.tuples(), kernel, rows) by {
            assert forall|x: ((K, V), ())| #[trigger]
                weight_of(rows, x) == weight_of(op.input_rows(), x) by {
                assert(weight_of(rows, x) == weight_of(
                    tuples_of(given),
                    x,
                ));
                assert(weight_of(op.input_rows(), x) == weight_of(op.input_integral(), x));
                assert(weight_of(op.input_integral(), x) == weight_of(
                    tuples_of(given),
                    x,
                ));
            }
            lemma_canonical(rows, op.input_rows());
            assert forall|k: K, x: O| #[trigger]
                weight_of(total.tuples(), ((k, x), ())) == kernel_weight(kernel, rows, k, x) by {
                assert(weight_of(total.tuples(), ((k, x), ())) == weight_of(
                    op.output_integral(),
                    ((k, x), ()),
                ));
            }
        }
    }
    total
}

} // verus!
