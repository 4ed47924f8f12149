use bfc::optimization::{
    merge_cell_shifts, merge_pointer_shifts, optimize, optimize_with_cap, zero_loop, Merge,
    DEFAULT_PASS_CAP,
};
use bfc::parser::{parse, Location, Node};

#[test]
fn test_merge_cell_shifts() {
    let tree = parse("+++").unwrap();
    let expected = vec![Node::CellShift {
        amount: 3,
        loc: Some(Location { start: 0, end: 2 }),
    }];
    assert_eq!(merge_cell_shifts(tree), expected);
}

#[test]
fn merge_cell_shifts_cancels_to_empty() {
    let tree = parse("++--").unwrap();
    assert_eq!(merge_cell_shifts(tree), vec![]);
}

#[test]
fn merge_pointer_shifts_sums_amounts() {
    let tree = parse("><<").unwrap();
    let expected = vec![Node::PointerShift {
        amount: -1,
        loc: Some(Location { start: 0, end: 2 }),
    }];
    assert_eq!(merge_pointer_shifts(tree), expected);
}

#[test]
fn merge_keeps_later_span_over_a_gap() {
    // The two shifts are adjacent nodes, but their spans are separated by
    // more than one character, so the merge keeps only the later span.
    let tree = parse("+ x +").unwrap();
    let expected = vec![Node::CellShift {
        amount: 2,
        loc: Some(Location { start: 4, end: 4 }),
    }];
    assert_eq!(merge_cell_shifts(tree), expected);
}

#[test]
fn merge_spans_directly() {
    let a = Some(Location { start: 0, end: 1 });
    let b = Some(Location { start: 2, end: 5 });
    assert_eq!(a.merge(b), Some(Location { start: 0, end: 5 }));
    // Order does not matter for contiguous spans.
    assert_eq!(b.merge(a), Some(Location { start: 0, end: 5 }));
    // A gap wider than one character keeps only the later span, whichever
    // side of the call it arrives on.
    let far = Some(Location { start: 9, end: 9 });
    assert_eq!(a.merge(far), Some(Location { start: 9, end: 9 }));
    assert_eq!(far.merge(a), Some(Location { start: 9, end: 9 }));
    // An absent span makes the result absent.
    assert_eq!(a.merge(None), None);
    assert_eq!(None.merge(b), None);
}

#[test]
fn optimize_coalesces_increments() {
    let tree = parse("+++").unwrap();
    let expected = vec![Node::CellShift {
        amount: 3,
        loc: Some(Location { start: 0, end: 2 }),
    }];
    assert_eq!(optimize(tree), expected);
}

#[test]
fn optimize_removes_net_zero() {
    let tree = parse("++--").unwrap();
    assert_eq!(optimize(tree), vec![]);
}

#[test]
fn optimize_respects_non_adjacency() {
    let tree = parse("+>,+").unwrap();
    let unchanged = parse("+>,+").unwrap();
    assert_eq!(optimize(tree), unchanged);
}

#[test]
fn optimize_recurses_into_loops() {
    let tree = parse("[++]").unwrap();
    let expected = vec![Node::Loop {
        body: vec![Node::CellShift { amount: 2, loc: Some(Location { start: 1, end: 2 }) }],
        loc: Some(Location { start: 0, end: 3 }),
    }];
    assert_eq!(optimize(tree), expected);
}

#[test]
fn optimize_rewrites_zero_loop() {
    let tree = parse("[-]").unwrap();
    let expected = vec![Node::Assign { amount: 0, loc: Some(Location { start: 0, end: 2 }) }];
    assert_eq!(optimize(tree), expected);
}

#[test]
fn zero_loop_rewrites_nested_clear() {
    let tree = parse("[[-]]").unwrap();
    let expected = vec![Node::Loop {
        body: vec![Node::Assign { amount: 0, loc: Some(Location { start: 1, end: 3 }) }],
        loc: Some(Location { start: 0, end: 4 }),
    }];
    assert_eq!(zero_loop(tree), expected);
}

#[test]
fn zero_loop_leaves_other_loops_alone() {
    let tree = parse("[+]").unwrap();
    let unchanged = parse("[+]").unwrap();
    assert_eq!(zero_loop(tree), unchanged);
}

#[test]
fn optimize_is_idempotent_after_convergence() {
    let source = "++[->+<]-[-].,[+[-]]";
    let once = optimize(parse(source).unwrap());
    let twice = optimize(optimize(parse(source).unwrap()));
    assert_eq!(once, twice);
}

#[test]
fn optimize_converges_on_ordinary_input() {
    let (_, converged) = optimize_with_cap(parse("+++[->>++<<]").unwrap(), DEFAULT_PASS_CAP);
    assert!(converged);
}

#[test]
fn amounts_wrap_around_modulo_256() {
    let tree = parse(&"+".repeat(128)).unwrap();
    let expected = vec![Node::CellShift {
        amount: -128,
        loc: Some(Location { start: 0, end: 127 }),
    }];
    assert_eq!(optimize(tree), expected);

    let tree = parse(&"+".repeat(256)).unwrap();
    assert_eq!(optimize(tree), vec![]);
}

#[test]
fn optimize_of_empty_tree_is_empty() {
    assert_eq!(optimize(parse("").unwrap()), vec![]);
}

#[test]
fn cap_of_zero_returns_the_tree_untouched() {
    let (tree, converged) = optimize_with_cap(parse("+++").unwrap(), 0);
    assert!(!converged);
    assert_eq!(tree, parse("+++").unwrap());
}

/// A tower of alternating cell and pointer shells: each pass cancels what
/// the previous pass made adjacent, so the fixed point needs more passes
/// than the default cap allows.
fn slow_converging_source() -> String {
    let mut s = String::from("<>");
    for i in 1..=40 {
        if i % 2 == 1 {
            s = format!("+{}-", s);
        } else {
            s = format!("<{}>", s);
        }
    }
    s
}

#[test]
fn optimizer_never_exceeds_the_pass_cap() {
    let source = slow_converging_source();
    let (tree, converged) = optimize_with_cap(parse(&source).unwrap(), DEFAULT_PASS_CAP);
    // The cap cuts the search short: only the non-fatal flag reports it,
    // and the partially optimized tree is still usable.
    assert!(!converged);
    assert!(!tree.is_empty());

    // With a generous cap the same input reaches its fixed point: nothing.
    let (tree, converged) = optimize_with_cap(parse(&source).unwrap(), 64);
    assert!(converged);
    assert_eq!(tree, vec![]);
}
