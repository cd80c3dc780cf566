//! Traced calls: a call reports its frame and gets its message back indented
//! by its nesting depth, and a chain of two such calls.
use crate::depth::{
    depth_of, law_callee_one_deeper, law_depth_restored, probed, probed_all, DepthStack,
};
use crate::indent::{indented, lemma_one_line, spaces};
use vstd::prelude::*;

verus! {

/// The number of spaces by which one level of nesting indents.
pub const INDENT_WIDTH: usize = 4;

/// The number of spaces in front of a line at nesting depth `depth`.
pub open spec fn indent_of(depth: nat) -> nat {
    depth * (INDENT_WIDTH as nat)
}

/// Reports a traced call whose frame is at `frame` and returns `text` indented
/// by the depth of that call, `INDENT_WIDTH` spaces for each level.
pub fn indent(tracker: &mut DepthStack, frame: usize, text: &str) -> (out: String)
    ensures
        final(tracker)@ == probed(old(tracker)@, frame),
        out@ == indented(text@, indent_of(depth_of(old(tracker)@, frame))),
{
    let depth = tracker.probe(frame);
    crate::indent::format(text, depth, INDENT_WIDTH)
}

/// What `level1` returns when its frame is at depth `first`, the frame of the
/// `level2` it calls at depth `inner`, and its own frame at depth `again` when
/// that call has returned.
pub open spec fn two_levels(first: nat, inner: nat, again: nat) -> Seq<char> {
    spaces(indent_of(first)) + "level1"@ + seq!['\n'] + spaces(indent_of(inner))
        + "level2"@ + seq!['\n'] + spaces(indent_of(again)) + "level1"@
}

/// A traced call that makes no traced call itself: it reports from `frame` and
/// returns its name, indented by its depth.
pub fn level2(tracker: &mut DepthStack, frame: usize) -> (out: String)
    ensures
        final(tracker)@ == probed(old(tracker)@, frame),
        out@ == spaces(indent_of(depth_of(old(tracker)@, frame))) + "level2"@,
{
    proof {
        reveal_strlit("level2");
        lemma_one_line("level2"@, indent_of(depth_of(tracker@, frame)));
    }
    indent(tracker, frame, "level2")
}

/// A traced call that reports from `frame`, calls `level2`, whose frame is at
/// `callee_frame`, and reports from `frame` again: its name, the line of
/// `level2`, and its name once more, each indented by the depth found for it.
///
/// With the callee's frame below its own, as on a stack that grows downward,
/// `level2` is one level deeper and the second report finds the depth of the
/// first. Called as the outermost traced call, it returns `level1`, `level2`
/// behind four spaces, and `level1`.
pub fn level1(tracker: &mut DepthStack, frame: usize, callee_frame: usize) -> (out: String)
    ensures
        final(tracker)@ == probed(probed(probed(old(tracker)@, frame), callee_frame), frame),
        out@ == two_levels(
            depth_of(old(tracker)@, frame),
            depth_of(probed(old(tracker)@, frame), callee_frame),
            depth_of(probed(probed(old(tracker)@, frame), callee_frame), frame),
        ),
        callee_frame < frame ==> {
            &&& final(tracker)@ == probed(old(tracker)@, frame)
            &&& out@ == two_levels(
                depth_of(old(tracker)@, frame),
                depth_of(old(tracker)@, frame) + 1 as nat,
                depth_of(old(tracker)@, frame),
            )
        },
        callee_frame < frame && depth_of(old(tracker)@, frame) == 0 ==> out@
            == "level1\n    level2\nlevel1"@,
{
    proof {
        use_type_invariant(&*tracker);
    }
    let ghost before = tracker@;
    let ghost first = depth_of(before, frame);
    let ghost inner = depth_of(probed(before, frame), callee_frame);
    let ghost again = depth_of(probed(probed(before, frame), callee_frame), frame);
    proof {
        reveal_strlit("level1");
        lemma_one_line("level1"@, indent_of(first));
        lemma_one_line("level1"@, indent_of(again));
    }
    let mut out = indent(tracker, frame, "level1");
    let callee = level2(tracker, callee_frame);
    let last = indent(tracker, frame, "level1");
    out.push('\n');
    out.append(callee.as_str());
    out.push('\n');
    out.append(last.as_str());
    proof {
        if callee_frame < frame {
            let nested = seq![callee_frame];
            law_callee_one_deeper(before, frame, callee_frame);
            law_depth_restored(before, frame, nested);
            assert(nested.drop_last().len() == 0);
            assert(probed_all(probed(before, frame), nested.drop_last()) == probed(before, frame));
            assert(probed_all(probed(before, frame), nested) == probed(
                probed(before, frame),
                callee_frame,
            ));
            if first == 0 {
                reveal_strlit("level2");
                reveal_strlit("level1\n    level2\nlevel1");
                assert(out@ == "level1\n    level2\nlevel1"@);
            }
        }
    }
    out
}

} // verus!
