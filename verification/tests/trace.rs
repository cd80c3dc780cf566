use iprint::depth::DepthStack;
use iprint::trace::{indent, level1, level2, INDENT_WIDTH};

const OUTER: usize = 0x7ffd_4000;
const INNER: usize = 0x7ffd_3fc0;

#[test]
fn iformat_test() {
    let mut tracker = DepthStack::new();
    assert_eq!(
        "level1\n    level2\nlevel1",
        level1(&mut tracker, OUTER, INNER));
}

#[test]
fn level1_leaves_its_own_frame_on_record() {
    let mut tracker = DepthStack::new();
    level1(&mut tracker, OUTER, INNER);
    assert_eq!(tracker.frames(), &[OUTER]);
}

#[test]
fn level1_below_an_enclosing_call_is_indented_once_more() {
    let mut tracker = DepthStack::new();
    assert_eq!(tracker.probe(0x9000), 0);
    assert_eq!(
        level1(&mut tracker, 0x8000, 0x7000),
        "    level1\n        level2\n    level1"
    );
    assert_eq!(tracker.frames(), &[0x9000, 0x8000]);
}

#[test]
fn level1_with_callee_in_its_own_frame_collapses_the_depth() {
    let mut tracker = DepthStack::new();
    assert_eq!(level1(&mut tracker, OUTER, OUTER), "level1\nlevel2\nlevel1");
}

#[test]
fn level1_with_callee_above_it_records_anew() {
    let mut tracker = DepthStack::new();
    assert_eq!(level1(&mut tracker, INNER, OUTER), "level1\nlevel2\n    level1");
    assert_eq!(tracker.frames(), &[OUTER, INNER]);
}

#[test]
fn level2_alone_is_outermost() {
    let mut tracker = DepthStack::new();
    assert_eq!(level2(&mut tracker, INNER), "level2");
    assert_eq!(tracker.frames(), &[INNER]);
}

#[test]
fn level2_under_two_calls() {
    let mut tracker = DepthStack::new();
    tracker.probe(300);
    tracker.probe(200);
    assert_eq!(level2(&mut tracker, 100), "        level2");
}

#[test]
fn indent_width_is_four() {
    assert_eq!(INDENT_WIDTH, 4);
}

#[test]
fn indent_reports_and_formats() {
    let mut tracker = DepthStack::new();
    assert_eq!(indent(&mut tracker, 500, "a"), "a");
    assert_eq!(indent(&mut tracker, 400, "b\nc"), "    b\n    c");
    assert_eq!(indent(&mut tracker, 300, "d"), "        d");
    assert_eq!(indent(&mut tracker, 400, "e"), "    e");
    assert_eq!(indent(&mut tracker, 500, "f"), "f");
    assert_eq!(tracker.frames(), &[500]);
}

#[test]
fn indent_of_empty_text_is_empty() {
    let mut tracker = DepthStack::new();
    tracker.probe(9);
    assert_eq!(indent(&mut tracker, 8, ""), "");
    assert_eq!(tracker.len(), 2);
}
