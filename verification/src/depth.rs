//! The depth tracker: a record of the stack frames of the traced calls that
//! are still running, and the nesting depth it assigns to each new report.
//!
//! The machine stack is taken to grow downward: a callee's frame lies at a
//! numerically smaller address than its caller's. The outermost traced call
//! is at depth 0.
use vstd::prelude::*;

verus! {

/// Every recorded frame lies strictly below the ones recorded before it.
pub open spec fn descending(frames: Seq<usize>) -> bool {
    forall|i: int, j: int| 0 <= i < j < frames.len() ==> frames[i] > frames[j]
}

/// The number of recorded frames that lie strictly above `frame`: the traced
/// calls that enclose a call whose frame is `frame`.
pub open spec fn depth_of(frames: Seq<usize>, frame: usize) -> nat
    decreases frames.len(),
{
    if frames.len() == 0 {
        0
    } else if frames.last() > frame {
        depth_of(frames.drop_last(), frame) + 1
    } else {
        depth_of(frames.drop_last(), frame)
    }
}

/// The record after a report from `frame`: the enclosing frames, then `frame`.
pub open spec fn probed(frames: Seq<usize>, frame: usize) -> Seq<usize> {
    frames.take(depth_of(frames, frame) as int).push(frame)
}

/// Where the first `k` recorded frames lie above `frame` and the others do
/// not, the depth of `frame` is `k`.
pub proof fn lemma_depth_is_split_point(frames: Seq<usize>, frame: usize, k: int)
    requires
        0 <= k <= frames.len(),
        forall|i: int| 0 <= i < k ==> frames[i] > frame,
        forall|i: int| k <= i < frames.len() ==> frames[i] <= frame,
    ensures
        depth_of(frames, frame) == k,
    decreases frames.len(),
{
    if frames.len() > 0 {
        let rest = frames.drop_last();
        if k == frames.len() {
            lemma_depth_is_split_point(rest, frame, k - 1);
        } else {
            lemma_depth_is_split_point(rest, frame, k);
        }
    }
}

/// In a descending record the frames above `frame` come first, and their
/// number is the depth.
pub proof fn lemma_depth_splits(frames: Seq<usize>, frame: usize)
    requires
        descending(frames),
    ensures
        depth_of(frames, frame) <= frames.len(),
        forall|i: int| 0 <= i < depth_of(frames, frame) ==> frames[i] > frame,
        forall|i: int| depth_of(frames, frame) <= i < frames.len() ==> frames[i] <= frame,
    decreases frames.len(),
{
    if frames.len() > 0 {
        let rest = frames.drop_last();
        lemma_depth_splits(rest, frame);
        if frames.last() > frame {
            assert forall|i: int| 0 <= i < frames.len() implies frames[i] > frame by {
                if i < rest.len() {
                    assert(frames[i] > frames[frames.len() - 1]);
                }
            }
            if depth_of(rest, frame) < rest.len() {
                assert(rest[depth_of(rest, frame) as int] == frames[depth_of(rest, frame) as int]);
            }
        } else {
            assert forall|i: int| 0 <= i < depth_of(rest, frame) implies frames[i] > frame by {
                assert(frames[i] == rest[i]);
            }
            assert forall|i: int| depth_of(rest, frame) <= i < frames.len() implies frames[i]
                <= frame by {
                if i < rest.len() {
                    assert(frames[i] == rest[i]);
                }
            }
        }
    }
}

/// A report leaves the record descending.
pub proof fn lemma_probed_descending(frames: Seq<usize>, frame: usize)
    requires
        descending(frames),
    ensures
        descending(probed(frames, frame)),
        probed(frames, frame).len() == depth_of(frames, frame) + 1,
{
    lemma_depth_splits(frames, frame);
}

/// The record after the reports `probes`, made in order.
pub open spec fn probed_all(frames: Seq<usize>, probes: Seq<usize>) -> Seq<usize>
    decreases probes.len(),
{
    if probes.len() == 0 {
        frames
    } else {
        probed(probed_all(frames, probes.drop_last()), probes.last())
    }
}

/// Any run of reports leaves the record descending.
pub proof fn lemma_probed_all_descending(frames: Seq<usize>, probes: Seq<usize>)
    requires
        descending(frames),
    ensures
        descending(probed_all(frames, probes)),
    decreases probes.len(),
{
    if probes.len() > 0 {
        lemma_probed_all_descending(frames, probes.drop_last());
        lemma_probed_descending(probed_all(frames, probes.drop_last()), probes.last());
    }
}

/// A call whose frame lies at or above every recorded frame is the outermost
/// traced call, and its depth is 0.
pub proof fn law_outermost_depth(frames: Seq<usize>, frame: usize)
    requires
        descending(frames),
        frames.len() == 0 || frames[0] <= frame,
    ensures
        depth_of(frames, frame) == 0,
{
    lemma_depth_is_split_point(frames, frame, 0);
}

/// A traced call made from a traced call, and so from a frame below it, is
/// exactly one level deeper than its caller.
pub proof fn law_callee_one_deeper(frames: Seq<usize>, frame: usize, callee: usize)
    requires
        descending(frames),
        callee < frame,
    ensures
        depth_of(probed(frames, frame), callee) == depth_of(frames, frame) + 1,
{
    lemma_depth_splits(frames, frame);
    lemma_depth_is_split_point(probed(frames, frame), callee, depth_of(frames, frame) + 1 as int);
}

/// After a traced call has reported, whatever the calls nested in it report,
/// from frames below its own, the record still begins with the record that
/// its own report left.
proof fn lemma_nested_keep_caller(frames: Seq<usize>, frame: usize, nested: Seq<usize>)
    requires
        descending(frames),
        forall|i: int| 0 <= i < nested.len() ==> nested[i] < frame,
    ensures
        descending(probed_all(probed(frames, frame), nested)),
        probed_all(probed(frames, frame), nested).len() > depth_of(frames, frame),
        probed_all(probed(frames, frame), nested).take(depth_of(frames, frame) + 1 as int)
            == probed(frames, frame),
    decreases nested.len(),
{
    let d = depth_of(frames, frame) as int;
    lemma_probed_descending(frames, frame);
    if nested.len() == 0 {
        assert(probed(frames, frame).take(d + 1) == probed(frames, frame));
    } else {
        let before = probed_all(probed(frames, frame), nested.drop_last());
        let q = nested.last();
        lemma_nested_keep_caller(frames, frame, nested.drop_last());
        lemma_depth_splits(before, q);
        lemma_probed_descending(before, q);
        assert(before[d] == before.take(d + 1)[d]);
        assert(before[d] == frame);
        if depth_of(before, q) <= d {
            assert(before[d] <= q);
        }
        assert(probed(before, q).take(d + 1) == before.take(d + 1));
    }
}

/// When the traced calls nested in a traced call have returned, a new report
/// from that call finds the depth that its first report found, and leaves the
/// record that its first report left.
pub proof fn law_depth_restored(frames: Seq<usize>, frame: usize, nested: Seq<usize>)
    requires
        descending(frames),
        forall|i: int| 0 <= i < nested.len() ==> nested[i] < frame,
    ensures
        depth_of(probed_all(probed(frames, frame), nested), frame) == depth_of(frames, frame),
        probed(probed_all(probed(frames, frame), nested), frame) == probed(frames, frame),
{
    let d = depth_of(frames, frame) as int;
    let after = probed_all(probed(frames, frame), nested);
    lemma_nested_keep_caller(frames, frame, nested);
    lemma_depth_splits(frames, frame);
    assert forall|i: int| 0 <= i <= d implies after[i] == probed(frames, frame)[i] by {
        assert(after[i] == after.take(d + 1)[i]);
    }
    assert(after[d] == frame);
    assert forall|i: int| d <= i < after.len() implies after[i] <= frame by {
        if d < i {
            assert(after[d] > after[i]);
        }
    }
    lemma_depth_is_split_point(after, frame, d);
    assert(after.take(d) == frames.take(d));
}

/// The outermost traced call is at depth 0 when it first reports, and again
/// whenever the calls nested in it have returned.
pub proof fn law_baseline_depth(frames: Seq<usize>, frame: usize, nested: Seq<usize>)
    requires
        descending(frames),
        frames.len() == 0 || frames[0] <= frame,
        forall|i: int| 0 <= i < nested.len() ==> nested[i] < frame,
    ensures
        depth_of(frames, frame) == 0,
        depth_of(probed_all(probed(frames, frame), nested), frame) == 0,
{
    law_outermost_depth(frames, frame);
    law_depth_restored(frames, frame, nested);
}

/// In a chain of traced calls, each made by the one before it and so from a
/// frame below it, the call at position `n` reports a depth `n` above that of
/// the first.
pub proof fn law_chain_depth(frames: Seq<usize>, chain: Seq<usize>, n: int)
    requires
        descending(frames),
        descending(chain),
        0 <= n < chain.len(),
    ensures
        depth_of(probed_all(frames, chain.take(n)), chain[n]) == depth_of(frames, chain[0]) + n,
    decreases n,
{
    if n == 0 {
        assert(chain.take(0).len() == 0);
    } else {
        let before = probed_all(frames, chain.take(n - 1));
        law_chain_depth(frames, chain, n - 1);
        assert(chain.take(n).drop_last() == chain.take(n - 1));
        assert(chain.take(n).last() == chain[n - 1]);
        lemma_probed_all_descending(frames, chain.take(n - 1));
        law_callee_one_deeper(before, chain[n - 1], chain[n]);
    }
}

/// The frames of the traced calls that are still running, outermost first.
///
/// One tracker belongs to one thread of execution. Frames of calls that have
/// returned are not removed when they return: the next report drops them, since
/// they lie below the reporting frame.
pub struct DepthStack {
    frames: Vec<usize>,
}

impl View for DepthStack {
    type V = Seq<usize>;

    closed spec fn view(&self) -> Seq<usize> {
        self.frames@
    }
}

impl DepthStack {
    /// What holds of every tracker: its record is descending.
    #[verifier::type_invariant]
    pub open spec fn well_formed(&self) -> bool {
        descending(self@)
    }

    /// A tracker that has seen no report yet.
    pub fn new() -> (tracker: Self)
        ensures
            tracker@ == Seq::<usize>::empty(),
    {
        DepthStack { frames: Vec::new() }
    }

    /// The number of recorded frames.
    pub fn len(&self) -> (n: usize)
        ensures
            n == self@.len(),
    {
        self.frames.len()
    }

    /// The recorded frames, outermost first.
    pub fn frames(&self) -> (frames: &[usize])
        ensures
            frames@ == self@,
    {
        self.frames.as_slice()
    }

    /// Records a report from a call whose stack frame is at `frame` and returns
    /// the nesting depth of that call.
    ///
    /// Recorded frames below `frame` belong to calls that have returned and are
    /// dropped; `frame` itself is recorded unless it already ends the record.
    pub fn probe(&mut self, frame: usize) -> (depth: usize)
        ensures
            final(self)@ == probed(old(self)@, frame),
            depth == depth_of(old(self)@, frame),
            depth == final(self)@.len() - 1,
    {
        proof {
            use_type_invariant(&*self);
        }
        let ghost before = self.frames@;
        let mut frames: Vec<usize> = Vec::new();
        std::mem::swap(&mut frames, &mut self.frames);
        while frames.len() > 0 && frames[frames.len() - 1] < frame
            invariant
                frames.len() <= before.len(),
                frames@ == before.take(frames.len() as int),
                forall|i: int| frames.len() <= i < before.len() ==> before[i] < frame,
            decreases frames.len(),
        {
            frames.pop();
        }
        let kept: usize = frames.len();
        if kept == 0 || frames[kept - 1] != frame {
            proof {
                lemma_depth_is_split_point(before, frame, kept as int);
            }
            frames.push(frame);
        } else {
            proof {
                lemma_depth_is_split_point(before, frame, kept - 1);
                assert(frames@ == before.take(kept - 1).push(frame));
            }
        }
        let depth: usize = frames.len() - 1;
        self.frames = frames;
        depth
    }
}

} // verus!
