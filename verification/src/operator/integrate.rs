//! Integration of a stream of Z-sets.

use vstd::prelude::*;
use crate::time::Timestamp;
use crate::trace::cursor::Cursor;
use crate::trace::consolidation::{
    is_consolidated,
    is_sum,
    lemma_canonical,
    same_weights,
    weight_of,
};
use crate::trace::from_cursor::batch_from_cursor;
use crate::trace::spine_fueled::Spine;
use crate::trace::{Batch, BatchReader, DBWeight, Trace};

verus! {

/// Emits at each step the sum of the Z-sets that it has taken so far.  The
/// sum is kept in a trace.
pub struct Integrate<B: Batch<Time = ()>> {
    trace: Spine<B>,
}

impl<B: Batch<Time = ()>> Integrate<B> {
    /// The operator is in a valid state.
    pub closed spec fn wf(&self) -> bool {
        self.trace.wf()
    }

    /// The tuples of the trace, which stand for the sum of the Z-sets taken
    /// so far.
    pub closed spec fn integral(&self) -> Seq<(((B::Key, B::Val), ()), B::R)> {
        self.trace.tuples()
    }

    /// The value of the dirty flag of the trace.
    pub closed spec fn dirty_spec(&self) -> bool {
        self.trace.dirty_spec()
    }

    /// An operator that has taken nothing.
    pub fn new() -> (r: Self)
        ensures
            r.wf(),
            r.integral().len() == 0,
            !r.dirty_spec(),
    {
        let trace: Spine<B> = Spine::new();
        proof {
            trace.lemma_trace_wf();
        }
        Integrate { trace }
    }

    /// Adds `delta` to the sum and leaves the sum apart from that as it is.
    pub fn add(&mut self, delta: B)
        requires
            old(self).wf(),
            delta.wf(),
        ensures
            final(self).wf(),
            is_sum(final(self).integral(), old(self).integral(), delta.tuples()),
            final(self).dirty_spec() == (old(self).dirty_spec() || delta.tuples().len() > 0),
    {
        let ghost before = self.trace.tuples();
        let ghost given = delta.tuples();
        let size = delta.len();
        proof {
            self.trace.lemma_trace_wf();
            delta.lemma_reader_wf();
        }
        match self.trace.insert(delta) {
            Ok(()) => {},
            Err(_) => {
                proof {
                    let f = self.trace.frontier_spec();
                    assert(f@[0].le_spec(&()));
                    assert(f.less_equal_spec(()));
                    if given.len() > 0 {
                        assert(delta.lower_spec().less_equal_spec(given[0].0.1));
                        assert forall|t: ()| #[trigger]
                            delta.lower_spec().less_equal_spec(t) == f.less_equal_spec(t) by {}
                        assert(false);
                    }
                    assert forall|x: ((B::Key, B::Val), ())| #[trigger]
                        weight_of(before, x) == weight_of(before, x).add_spec(&weight_of(given, x)) by {
                        B::R::lemma_add_zero(weight_of(before, x));
                    }
                }
            },
        }
        proof {
            self.trace.lemma_trace_wf();
        }
        let ghost inserted = self.trace.tuples();
        let mut fuel: isize = if size > isize::MAX as usize {
            isize::MAX
        } else {
            size as isize
        };
        self.trace.exert(&mut fuel);
        proof {
            assert forall|x: ((B::Key, B::Val), ())| #[trigger]
                weight_of(self.trace.tuples(), x) == weight_of(before, x).add_spec(
                    &weight_of(given, x),
                ) by {
                assert(weight_of(self.trace.tuples(), x) == weight_of(inserted, x));
            }
        }
    }

    /// The sum of the Z-sets taken so far, as one batch.
    pub fn output(&self) -> (r: B)
        requires
            self.wf(),
        ensures
            r.wf(),
            is_consolidated(r.tuples()),
            same_weights(r.tuples(), self.integral()),
    {
        let mut c = self.trace.cursor();
        let ghost s = c.storage();
        let r = batch_from_cursor::<B, _>((), &mut c);
        proof {
            r.lemma_batch_wf();
            assert forall|i: int| 0 <= i < s.len() implies #[trigger] s[i]
                == crate::trace::at_time(crate::trace::strip_time(s), ())[i] by {
                let t: () = s[i].0.1;
                assert(t == ());
                assert(s[i] == ((s[i].0.0, t), s[i].1));
            }
            assert(s =~= crate::trace::at_time(crate::trace::strip_time(s), ()));
            crate::trace::from_cursor::lemma_strip_consolidated(s, ());
            lemma_canonical(crate::trace::strip_time(r.tuples()), crate::trace::strip_time(s));
            assert(r.tuples() == s);
        }
        r
    }

    /// Takes `delta` and emits the sum of the Z-sets taken so far.
    pub fn eval(&mut self, delta: B) -> (r: B)
        requires
            old(self).wf(),
            delta.wf(),
        ensures
            final(self).wf(),
            is_sum(final(self).integral(), old(self).integral(), delta.tuples()),
            final(self).dirty_spec() == (old(self).dirty_spec() || delta.tuples().len() > 0),
            r.wf(),
            is_consolidated(r.tuples()),
            same_weights(r.tuples(), final(self).integral()),
    {
        self.add(delta);
        self.output()
    }

    /// The trace that holds the sum.
    pub fn trace(&self) -> (r: &Spine<B>)
        requires
            self.wf(),
        ensures
            r.wf(),
            r.tuples() == self.integral(),
    {
        &self.trace
    }

    /// Tells whether a Z-set that holds a tuple was taken since the flag was
    /// cleared.
    pub fn dirty(&self) -> (r: bool)
        requires
            self.wf(),
        ensures
            r == self.dirty_spec(),
    {
        self.trace.dirty()
    }

    /// Clears the dirty flag.
    pub fn clear_dirty_flag(&mut self)
        requires
            old(self).wf(),
        ensures
            final(self).wf(),
            !final(self).dirty_spec(),
            final(self).integral() == old(self).integral(),
    {
        self.trace.clear_dirty_flag();
    }
}

} // verus!
