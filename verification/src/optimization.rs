//! Peephole optimizer: local, always-safe rewrites applied recursively over
//! the instruction tree, iterated to a fixed point or a bounded pass cap.
//!
//! The rules are: coalescing of adjacent cell shifts, coalescing of adjacent
//! pointer shifts (a run collapses to one node whose amount is the wrapped
//! sum; a net amount of zero deletes the node), and the zero-loop rewrite
//! (a loop whose body is exactly one cell shift of amount -1 becomes an
//! assignment of zero).

use crate::parser::{lemma_view_nodes, view_nodes, Location, Node, NodeView};
use vstd::prelude::*;

verus! {

/// Combines two optional source spans into one.
pub trait Merge<T> {
    /// What `merge` returns.
    spec fn merge_spec(&self, other: T) -> T;

    /// Combine `self` with `other`.
    fn merge(&self, other: T) -> (r: T)
        ensures
            r == self.merge_spec(other),
    ;
}

/// Span merge: when both spans are present and adjacent or overlapping (unit
/// gaps allowed), the union from the earlier start to the later end; when
/// present but not contiguous, just the later span; when either is absent,
/// absent.
pub open spec fn loc_merge(a: Option<Location>, b: Option<Location>) -> Option<Location> {
    match (a, b) {
        (Some(la), Some(lb)) => {
            let first = if la.start <= lb.start {
                la
            } else {
                lb
            };
            let second = if la.start <= lb.start {
                lb
            } else {
                la
            };
            if first.end + 1 >= second.start {
                Some(Location { start: first.start, end: second.end })
            } else {
                Some(second)
            }
        },
        _ => None,
    }
}

impl Merge<Option<Location>> for Option<Location> {
    open spec fn merge_spec(&self, other: Option<Location>) -> Option<Location> {
        loc_merge(*self, other)
    }

    fn merge(&self, other: Option<Location>) -> (r: Option<Location>) {
        match (*self, other) {
            (Some(self_loc), Some(other_loc)) => {
                let (first_loc, second_loc) = if self_loc.start <= other_loc.start {
                    (self_loc, other_loc)
                } else {
                    (other_loc, self_loc)
                };
                if second_loc.start <= first_loc.end || second_loc.start - first_loc.end <= 1 {
                    Some(Location { start: first_loc.start, end: second_loc.end })
                } else {
                    Some(second_loc)
                }
            },
            _ => None,
        }
    }
}

/// Which of the two shift-coalescing rules is running.
#[derive(Clone, Copy, PartialEq, Eq, Structural)]
pub enum ShiftKind {
    Cell,
    Pointer,
}

/// The amount and span of `n` when it is a shift of kind `k`, else `None`.
pub open spec fn shift_of(k: ShiftKind, n: NodeView) -> Option<(i8, Option<Location>)> {
    match (k, n) {
        (ShiftKind::Cell, NodeView::CellShift { amount, loc }) => Some((amount, loc)),
        (ShiftKind::Pointer, NodeView::PointerShift { amount, loc }) => Some((amount, loc)),
        _ => None,
    }
}

/// A shift node of kind `k`.
pub open spec fn mk_shift(k: ShiftKind, amount: i8, loc: Option<Location>) -> NodeView {
    match k {
        ShiftKind::Cell => NodeView::CellShift { amount, loc },
        ShiftKind::Pointer => NodeView::PointerShift { amount, loc },
    }
}

/// Two's-complement wraparound sum of two amounts. Coalescing sums amounts
/// with this explicit modulo-256 semantics.
pub open spec fn wrap_add_spec(a: i8, b: i8) -> i8 {
    let s = a + b;
    if s > i8::MAX {
        (s - 256) as i8
    } else if s < i8::MIN {
        (s + 256) as i8
    } else {
        s as i8
    }
}

/// Absorb one more shift into the run being accumulated, or start a run.
pub open spec fn extend_run(
    run: Option<(i8, Option<Location>)>,
    amount: i8,
    loc: Option<Location>,
) -> (i8, Option<Location>) {
    match run {
        None => (amount, loc),
        Some((run_amount, run_loc)) => (wrap_add_spec(run_amount, amount), loc_merge(run_loc, loc)),
    }
}

/// The nodes an accumulated run flushes to: nothing for no run or a net
/// amount of zero, else the single coalesced shift.
pub open spec fn flush_run(k: ShiftKind, run: Option<(i8, Option<Location>)>) -> Seq<NodeView> {
    match run {
        None => Seq::empty(),
        Some((amount, loc)) => if amount == 0 {
            Seq::empty()
        } else {
            seq![mk_shift(k, amount, loc)]
        },
    }
}

/// Left-to-right run-length merge of adjacent shifts of kind `k` over a
/// sibling list, with `run` the shift run accumulated so far; recurses into
/// every loop body.
pub open spec fn merge_from(
    k: ShiftKind,
    run: Option<(i8, Option<Location>)>,
    s: Seq<NodeView>,
) -> Seq<NodeView>
    decreases s,
{
    if s.len() == 0 {
        flush_run(k, run)
    } else {
        let tail = s.subrange(1, s.len() as int);
        match shift_of(k, s[0]) {
            Some((amount, loc)) => merge_from(k, Some(extend_run(run, amount, loc)), tail),
            None => flush_run(k, run) + seq![merge_node(k, s[0])] + merge_from(k, None, tail),
        }
    }
}

/// The shift-coalescing rule applied inside one node: a loop's body is
/// rewritten recursively, every other node is unchanged.
pub open spec fn merge_node(k: ShiftKind, n: NodeView) -> NodeView
    decreases n,
{
    match n {
        NodeView::Loop { body, loc } => NodeView::Loop { body: merge_from(k, None, body), loc },
        _ => n,
    }
}

/// What `merge_cell_shifts` returns.
pub open spec fn merge_cell_shifts_spec(s: Seq<NodeView>) -> Seq<NodeView> {
    merge_from(ShiftKind::Cell, None, s)
}

/// What `merge_pointer_shifts` returns.
pub open spec fn merge_pointer_shifts_spec(s: Seq<NodeView>) -> Seq<NodeView> {
    merge_from(ShiftKind::Pointer, None, s)
}

/// The canonical clear-cell idiom: a body of exactly one cell shift of -1.
pub open spec fn is_clear_loop_body(body: Seq<NodeView>) -> bool {
    &&& body.len() == 1
    &&& body[0] matches NodeView::CellShift { amount, .. }
    &&& amount == -1
}

/// The zero-loop rule applied inside one node.
pub open spec fn zero_loop_node(n: NodeView) -> NodeView
    decreases n,
{
    match n {
        NodeView::Loop { body, loc } => if is_clear_loop_body(body) {
            NodeView::Assign { amount: 0, loc }
        } else {
            NodeView::Loop { body: zero_loop_spec(body), loc }
        },
        _ => n,
    }
}

/// What `zero_loop` returns.
pub open spec fn zero_loop_spec(s: Seq<NodeView>) -> Seq<NodeView>
    decreases s,
{
    if s.len() == 0 {
        Seq::empty()
    } else {
        seq![zero_loop_node(s[0])] + zero_loop_spec(s.subrange(1, s.len() as int))
    }
}

/// One optimizer pass: all three rewrite rules once, across the whole tree.
pub open spec fn pass_spec(s: Seq<NodeView>) -> Seq<NodeView> {
    zero_loop_spec(merge_pointer_shifts_spec(merge_cell_shifts_spec(s)))
}

/// The iterated fixed-point search: run passes until one changes nothing
/// (converged, `true`) or until `fuel` passes have run (`false`).
pub open spec fn spec_optimize(s: Seq<NodeView>, fuel: nat) -> (Seq<NodeView>, bool)
    decreases fuel,
{
    if fuel == 0 {
        (s, false)
    } else {
        let t = pass_spec(s);
        if t == s {
            (s, true)
        } else {
            spec_optimize(t, (fuel - 1) as nat)
        }
    }
}

fn wrap_add(a: i8, b: i8) -> (r: i8)
    ensures
        r == wrap_add_spec(a, b),
{
    let s: i16 = a as i16 + b as i16;
    if s > 127 {
        (s - 256) as i8
    } else if s < -128 {
        (s + 256) as i8
    } else {
        s as i8
    }
}

fn make_shift(k: ShiftKind, amount: i8, loc: Option<Location>) -> (r: Node)
    ensures
        r@ == mk_shift(k, amount, loc),
{
    match k {
        ShiftKind::Cell => Node::CellShift { amount, loc },
        ShiftKind::Pointer => Node::PointerShift { amount, loc },
    }
}

/// The run-length merge of adjacent shifts of kind `k`, recursing into every
/// loop body, as an explicit left-to-right fold.
fn merge_shifts_from(k: ShiftKind, v: &Vec<Node>) -> (r: Vec<Node>)
    ensures
        view_nodes(r@) == merge_from(k, None, view_nodes(v@)),
    decreases v@,
{
    let ghost vs = view_nodes(v@);
    let mut out: Vec<Node> = Vec::new();
    let mut run: Option<(i8, Option<Location>)> = None;
    let mut idx: usize = 0;

    proof {
        lemma_view_nodes(v@);
        assert(vs.subrange(0, vs.len() as int) =~= vs);
        assert(view_nodes(out@) =~= Seq::<NodeView>::empty());
    }

    while idx < v.len()
        invariant
            idx <= v.len(),
            vs == view_nodes(v@),
            vs.len() == v@.len(),
            merge_from(k, None, vs) == view_nodes(out@) + merge_from(
                k,
                run,
                vs.subrange(idx as int, vs.len() as int),
            ),
        decreases v.len() - idx,
    {
        let ghost rest = vs.subrange(idx as int, vs.len() as int);
        let node_ref = &v[idx];
        proof {
            lemma_view_nodes(v@);
            assert(vs[idx as int] == v@[idx as int]@);
            assert(rest[0] == (*node_ref)@);
            assert(rest.subrange(1, rest.len() as int) =~= vs.subrange(
                idx as int + 1,
                vs.len() as int,
            ));
        }
        let sh: Option<(i8, Option<Location>)> = match (k, node_ref) {
            (ShiftKind::Cell, Node::CellShift { amount, loc }) => Some((*amount, *loc)),
            (ShiftKind::Pointer, Node::PointerShift { amount, loc }) => Some((*amount, *loc)),
            _ => None,
        };
        match sh {
            Some((amount, loc)) => {
                proof {
                    assert(shift_of(k, rest[0]) == Some((amount, loc)));
                }
                run = Some(
                    match run {
                        None => (amount, loc),
                        Some((run_amount, run_loc)) => (
                            wrap_add(run_amount, amount),
                            run_loc.merge(loc),
                        ),
                    },
                );
            },
            None => {
                proof {
                    assert(shift_of(k, rest[0]) is None);
                }
                let ghost out_before = view_nodes(out@);
                let ghost run_before = run;
                if let Some((run_amount, run_loc)) = run {
                    if run_amount != 0 {
                        let flushed = make_shift(k, run_amount, run_loc);
                        proof {
                            crate::parser::lemma_view_nodes_push(out@, flushed);
                        }
                        out.push(flushed);
                    }
                    run = None;
                }
                proof {
                    assert(view_nodes(out@) =~= out_before + flush_run(k, run_before));
                }
                let ghost out_flushed = view_nodes(out@);
                let processed: Node = match node_ref {
                    Node::Loop { body, loc } => {
                        proof {
                            assert(decreases_to!(v@ => v@[idx as int]));
                            assert(decreases_to!(v@[idx as int] => *body));
                        }
                        Node::Loop { body: merge_shifts_from(k, body), loc: *loc }
                    },
                    Node::CellShift { amount, loc } => Node::CellShift {
                        amount: *amount,
                        loc: *loc,
                    },
                    Node::PointerShift { amount, loc } => Node::PointerShift {
                        amount: *amount,
                        loc: *loc,
                    },
                    Node::Read { loc } => Node::Read { loc: *loc },
                    Node::Write { loc } => Node::Write { loc: *loc },
                    Node::Assign { amount, loc } => Node::Assign { amount: *amount, loc: *loc },
                };
                proof {
                    assert(processed@ == merge_node(k, rest[0]));
                    crate::parser::lemma_view_nodes_push(out@, processed);
                }
                out.push(processed);
                proof {
                    assert(view_nodes(out@) =~= out_flushed + seq![merge_node(k, rest[0])]);
                }
            },
        }
        idx = idx + 1;
        proof {
            assert(view_nodes(out@) + merge_from(
                k,
                run,
                vs.subrange(idx as int, vs.len() as int),
            ) =~= merge_from(k, None, vs));
        }
    }

    proof {
        assert(vs.subrange(vs.len() as int, vs.len() as int) =~= Seq::<NodeView>::empty());
    }
    if let Some((run_amount, run_loc)) = run {
        if run_amount != 0 {
            let flushed = make_shift(k, run_amount, run_loc);
            proof {
                crate::parser::lemma_view_nodes_push(out@, flushed);
            }
            out.push(flushed);
        }
    }
    proof {
        assert(view_nodes(out@) =~= merge_from(k, None, vs));
    }
    out
}

fn zero_loop_from(v: &Vec<Node>) -> (r: Vec<Node>)
    ensures
        view_nodes(r@) == zero_loop_spec(view_nodes(v@)),
    decreases v@,
{
    let ghost vs = view_nodes(v@);
    let mut out: Vec<Node> = Vec::new();
    let mut idx: usize = 0;

    proof {
        lemma_view_nodes(v@);
        assert(vs.subrange(0, vs.len() as int) =~= vs);
        assert(view_nodes(out@) =~= Seq::<NodeView>::empty());
    }

    while idx < v.len()
        invariant
            idx <= v.len(),
            vs == view_nodes(v@),
            vs.len() == v@.len(),
            zero_loop_spec(vs) == view_nodes(out@) + zero_loop_spec(
                vs.subrange(idx as int, vs.len() as int),
            ),
        decreases v.len() - idx,
    {
        let ghost rest = vs.subrange(idx as int, vs.len() as int);
        let node_ref = &v[idx];
        proof {
            lemma_view_nodes(v@);
            assert(vs[idx as int] == v@[idx as int]@);
            assert(rest[0] == (*node_ref)@);
            assert(rest.subrange(1, rest.len() as int) =~= vs.subrange(
                idx as int + 1,
                vs.len() as int,
            ));
        }
        let processed: Node = match node_ref {
            Node::Loop { body, loc } => {
                let mut is_clear = false;
                if body.len() == 1 {
                    match &body[0] {
                        Node::CellShift { amount, .. } => {
                            if *amount == -1 {
                                is_clear = true;
                            }
                        },
                        _ => {},
                    }
                }
                proof {
                    lemma_view_nodes(body@);
                    assert(view_nodes(body@).len() == body@.len());
                    if body@.len() == 1 {
                        assert(view_nodes(body@)[0] == body@[0]@);
                    }
                    assert(is_clear == is_clear_loop_body(view_nodes(body@)));
                }
                if is_clear {
                    Node::Assign { amount: 0, loc: *loc }
                } else {
                    proof {
                        assert(decreases_to!(v@ => v@[idx as int]));
                        assert(decreases_to!(v@[idx as int] => *body));
                    }
                    Node::Loop { body: zero_loop_from(body), loc: *loc }
                }
            },
            Node::CellShift { amount, loc } => Node::CellShift { amount: *amount, loc: *loc },
            Node::PointerShift { amount, loc } => Node::PointerShift {
                amount: *amount,
                loc: *loc,
            },
            Node::Read { loc } => Node::Read { loc: *loc },
            Node::Write { loc } => Node::Write { loc: *loc },
            Node::Assign { amount, loc } => Node::Assign { amount: *amount, loc: *loc },
        };
        proof {
            assert(processed@ == zero_loop_node(rest[0]));
            crate::parser::lemma_view_nodes_push(out@, processed);
        }
        out.push(processed);
        idx = idx + 1;
        proof {
            assert(view_nodes(out@) + zero_loop_spec(vs.subrange(idx as int, vs.len() as int))
                =~= zero_loop_spec(vs));
        }
    }

    proof {
        assert(vs.subrange(vs.len() as int, vs.len() as int) =~= Seq::<NodeView>::empty());
        assert(view_nodes(out@) =~= zero_loop_spec(vs));
    }
    out
}

/// Rewrites every loop whose body is exactly one cell shift of amount -1
/// into an assignment of zero carrying the loop's own span; recurses into
/// every other loop body.
pub fn zero_loop(instructions: Vec<Node>) -> (r: Vec<Node>)
    ensures
        view_nodes(r@) == zero_loop_spec(view_nodes(instructions@)),
{
    zero_loop_from(&instructions)
}

/// Merges runs of adjacent cell shifts into one shift each; a run with net
/// amount zero is deleted. Recurses into every loop body.
pub fn merge_cell_shifts(instructions: Vec<Node>) -> (r: Vec<Node>)
    ensures
        view_nodes(r@) == merge_cell_shifts_spec(view_nodes(instructions@)),
{
    merge_shifts_from(ShiftKind::Cell, &instructions)
}

/// Merges runs of adjacent pointer shifts into one shift each; a run with
/// net amount zero is deleted. Recurses into every loop body.
pub fn merge_pointer_shifts(instructions: Vec<Node>) -> (r: Vec<Node>)
    ensures
        view_nodes(r@) == merge_pointer_shifts_spec(view_nodes(instructions@)),
{
    merge_shifts_from(ShiftKind::Pointer, &instructions)
}

/// `n` is a shift node of kind `k`.
pub open spec fn is_shift(k: ShiftKind, n: NodeView) -> bool {
    shift_of(k, n) is Some
}

/// No two adjacent shifts of kind `k`, and no shift of kind `k` with amount
/// zero, anywhere in the tree.
pub open spec fn normal_for(k: ShiftKind, s: Seq<NodeView>) -> bool
    decreases s,
{
    &&& forall|i: int|
        0 <= i < s.len() - 1 ==> !(is_shift(k, s[i]) && is_shift(k, #[trigger] s[i + 1]))
    &&& forall|i: int|
        0 <= i < s.len() ==> (shift_of(k, #[trigger] s[i]) matches Some((a, _)) ==> a != 0)
    &&& forall|i: int|
        0 <= i < s.len() ==> (#[trigger] s[i] matches NodeView::Loop { body, .. } ==> normal_for(
            k,
            body,
        ))
}

/// No loop whose body is the clear-cell idiom, anywhere in the tree.
pub open spec fn no_clear_loops(s: Seq<NodeView>) -> bool
    decreases s,
{
    forall|i: int|
        0 <= i < s.len() ==> (#[trigger] s[i] matches NodeView::Loop { body, .. }
            ==> !is_clear_loop_body(body) && no_clear_loops(body))
}

/// `zero_loop_spec` is the element-wise rewrite map.
proof fn lemma_zero_loop_elem(s: Seq<NodeView>)
    ensures
        zero_loop_spec(s).len() == s.len(),
        forall|i: int| 0 <= i < s.len() ==> zero_loop_spec(s)[i] == zero_loop_node(#[trigger] s[i]),
    decreases s.len(),
{
    if s.len() > 0 {
        let tail = s.subrange(1, s.len() as int);
        lemma_zero_loop_elem(tail);
        assert forall|i: int| 0 <= i < s.len() implies zero_loop_spec(s)[i] == zero_loop_node(
            #[trigger] s[i],
        ) by {
            if i > 0 {
                assert(tail[i - 1] == s[i]);
                assert(zero_loop_spec(s)[i] == zero_loop_spec(tail)[i - 1]);
            }
        }
    }
}

/// A merge pass never lengthens a sibling list: at most the pending run's
/// flush is added to what the input holds.
proof fn lemma_merge_len(k: ShiftKind, run: Option<(i8, Option<Location>)>, s: Seq<NodeView>)
    ensures
        merge_from(k, run, s).len() <= flush_run(k, run).len() + s.len(),
        flush_run(k, run).len() <= 1,
    decreases s.len(),
{
    if s.len() > 0 {
        let tail = s.subrange(1, s.len() as int);
        match shift_of(k, s[0]) {
            Some((amount, loc)) => {
                lemma_merge_len(k, Some(extend_run(run, amount, loc)), tail);
            },
            None => {
                lemma_merge_len(k, None, tail);
            },
        }
    }
}

/// The element-wise image of one merge rule: only loop bodies change.
pub open spec fn map_merge(k: ShiftKind, s: Seq<NodeView>) -> Seq<NodeView> {
    Seq::new(s.len(), |i: int| merge_node(k, s[i]))
}

/// A merge pass that does not shorten the sibling list merged nothing and
/// deleted nothing there: the list already had no adjacent shifts of that
/// kind and no zero-amount shift of that kind, and only loop bodies were
/// rewritten.
proof fn lemma_preserving_merge(k: ShiftKind, run: Option<(i8, Option<Location>)>, s: Seq<NodeView>)
    requires
        merge_from(k, run, s).len() == flush_run(k, run).len() + s.len(),
        run matches Some((a, _)) ==> a != 0,
    ensures
        merge_from(k, run, s) == flush_run(k, run) + map_merge(k, s),
        forall|i: int|
            0 <= i < s.len() - 1 ==> !(is_shift(k, s[i]) && is_shift(k, #[trigger] s[i + 1])),
        forall|i: int|
            0 <= i < s.len() ==> (shift_of(k, #[trigger] s[i]) matches Some((a, _)) ==> a != 0),
        run is Some && s.len() > 0 ==> !is_shift(k, s[0]),
    decreases s.len(),
{
    if s.len() == 0 {
        assert(flush_run(k, run) + map_merge(k, s) =~= flush_run(k, run));
    } else {
        let tail = s.subrange(1, s.len() as int);
        match shift_of(k, s[0]) {
            Some((a0, l0)) => {
                let extended = extend_run(run, a0, l0);
                lemma_merge_len(k, Some(extended), tail);
                if run is Some {
                    // flush_run(k, run).len() == 1, so the required length is
                    // s.len() + 1, but absorbing s[0] bounds it by s.len().
                    assert(false);
                }
                assert(extended == (a0, l0));
                if a0 == 0 {
                    // flush_run of a zero run is empty, so the merge loses
                    // the absorbed node and the required length fails.
                    assert(flush_run(k, Some(extended)).len() == 0);
                    assert(false);
                }
                lemma_preserving_merge(k, Some(extended), tail);
                assert(mk_shift(k, a0, l0) == s[0]);
                assert forall|i: int| 0 <= i < map_merge(k, s).len() implies (flush_run(
                    k,
                    Some(extended),
                ) + map_merge(k, tail))[i] == map_merge(k, s)[i] by {
                    if i > 0 {
                        assert(tail[i - 1] == s[i]);
                    }
                }
                assert(flush_run(k, Some(extended)) + map_merge(k, tail) =~= map_merge(k, s));
                assert(flush_run(k, run) + map_merge(k, s) =~= map_merge(k, s));
                assert forall|i: int| 0 <= i < s.len() - 1 implies !(is_shift(k, s[i]) && is_shift(
                    k,
                    #[trigger] s[i + 1],
                )) by {
                    if i == 0 {
                        assert(!is_shift(k, tail[0]));
                        assert(tail[0] == s[1]);
                    } else {
                        assert(tail[i - 1] == s[i]);
                        assert(tail[i] == s[i + 1]);
                    }
                }
                assert forall|i: int| 0 <= i < s.len() implies (shift_of(
                    k,
                    #[trigger] s[i],
                ) matches Some((a, _)) ==> a != 0) by {
                    if i > 0 {
                        assert(tail[i - 1] == s[i]);
                        assert(shift_of(k, tail[i - 1]) matches Some((a, _)) ==> a != 0);
                    }
                }
            },
            None => {
                lemma_merge_len(k, None, tail);
                assert(merge_from(k, run, s) == flush_run(k, run) + seq![merge_node(k, s[0])]
                    + merge_from(k, None, tail));
                assert(merge_from(k, None, tail).len() == tail.len());
                lemma_preserving_merge(k, None, tail);
                assert forall|i: int| 0 <= i < map_merge(k, s).len() implies (seq![
                    merge_node(k, s[0]),
                ] + map_merge(k, tail))[i] == map_merge(k, s)[i] by {
                    if i > 0 {
                        assert(tail[i - 1] == s[i]);
                    }
                }
                assert(seq![merge_node(k, s[0])] + map_merge(k, tail) =~= map_merge(k, s));
                assert(flush_run(k, run) + seq![merge_node(k, s[0])] + merge_from(k, None, tail)
                    =~= flush_run(k, run) + map_merge(k, s));
                assert forall|i: int| 0 <= i < s.len() - 1 implies !(is_shift(k, s[i]) && is_shift(
                    k,
                    #[trigger] s[i + 1],
                )) by {
                    if i > 0 {
                        assert(tail[i - 1] == s[i]);
                        assert(tail[i] == s[i + 1]);
                    }
                }
                assert forall|i: int| 0 <= i < s.len() implies (shift_of(
                    k,
                    #[trigger] s[i],
                ) matches Some((a, _)) ==> a != 0) by {
                    if i > 0 {
                        assert(tail[i - 1] == s[i]);
                        assert(shift_of(k, tail[i - 1]) matches Some((a, _)) ==> a != 0);
                    }
                }
            },
        }
    }
}

/// A tree that one whole pass leaves unchanged is a normal form: it holds
/// no adjacent same-kind shifts, no zero-amount shift, and no clear-cell
/// loop, at any depth.
pub proof fn lemma_fixed_point_is_normal(s: Seq<NodeView>)
    requires
        pass_spec(s) == s,
    ensures
        normal_for(ShiftKind::Cell, s),
        normal_for(ShiftKind::Pointer, s),
        no_clear_loops(s),
    decreases s,
{
    let h = merge_cell_shifts_spec(s);
    let p = merge_pointer_shifts_spec(h);
    lemma_zero_loop_elem(p);
    lemma_merge_len(ShiftKind::Cell, None, s);
    lemma_merge_len(ShiftKind::Pointer, None, h);
    assert(s.len() == p.len());
    assert(h.len() == s.len());
    lemma_preserving_merge(ShiftKind::Cell, None, s);
    lemma_preserving_merge(ShiftKind::Pointer, None, h);
    assert(h =~= map_merge(ShiftKind::Cell, s));
    assert(p =~= map_merge(ShiftKind::Pointer, h));

    // The cell merge only rewrites loop bodies, so the pointer-shift facts
    // about its output hold of `s` itself.
    assert forall|i: int| 0 <= i < s.len() - 1 implies !(is_shift(ShiftKind::Pointer, s[i])
        && is_shift(ShiftKind::Pointer, #[trigger] s[i + 1])) by {
        assert(h[i] == merge_node(ShiftKind::Cell, s[i]));
        assert(h[i + 1] == merge_node(ShiftKind::Cell, s[i + 1]));
    }
    assert forall|i: int| 0 <= i < s.len() implies (shift_of(
        ShiftKind::Pointer,
        #[trigger] s[i],
    ) matches Some((a, _)) ==> a != 0) by {
        assert(h[i] == merge_node(ShiftKind::Cell, s[i]));
        assert(shift_of(ShiftKind::Pointer, h[i]) matches Some((a, _)) ==> a != 0);
    }

    // Every loop body is itself a fixed point of the pass, so the whole
    // statement recurses into it; and neither the body nor its image under
    // the two merges may be the clear-cell idiom, else the zero-loop rule
    // would have replaced the loop.
    assert forall|i: int| 0 <= i < s.len() implies (#[trigger] s[i] matches NodeView::Loop {
        body,
        ..
    } ==> {
        &&& !is_clear_loop_body(body)
        &&& no_clear_loops(body)
        &&& normal_for(ShiftKind::Cell, body)
        &&& normal_for(ShiftKind::Pointer, body)
    }) by {
        if s[i] is Loop {
            let b = s[i]->Loop_body;
            let lc = s[i]->Loop_loc;
            let hb = merge_from(ShiftKind::Cell, None, b);
            let pb = merge_from(ShiftKind::Pointer, None, hb);
            assert(h[i] == merge_node(ShiftKind::Cell, s[i]));
            assert(h[i] == NodeView::Loop { body: hb, loc: lc });
            assert(p[i] == merge_node(ShiftKind::Pointer, h[i]));
            assert(p[i] == NodeView::Loop { body: pb, loc: lc });
            assert(s[i] == zero_loop_node(p[i]));
            if is_clear_loop_body(pb) {
                assert(s[i] == NodeView::Assign { amount: 0, loc: lc });
                assert(false);
            }
            assert(s[i] == NodeView::Loop { body: zero_loop_spec(pb), loc: lc });
            assert(b == zero_loop_spec(pb));
            assert(pass_spec(b) == b);
            assert(decreases_to!(s => s[i]));
            assert(decreases_to!(s[i] => b));
            lemma_fixed_point_is_normal(b);
            if is_clear_loop_body(b) {
                // A clear-cell body passes through both merges unchanged,
                // which contradicts `pb` not being the clear-cell idiom.
                reveal_with_fuel(merge_from, 3);
                let unit = b[0];
                let l = unit->CellShift_loc;
                assert(shift_of(ShiftKind::Cell, unit) == Some((-1i8, l)));
                assert(extend_run(None, -1i8, l) == (-1i8, l));
                assert(b.subrange(1, b.len() as int) =~= Seq::<NodeView>::empty());
                assert(hb == merge_from(
                    ShiftKind::Cell,
                    Some((-1i8, l)),
                    Seq::<NodeView>::empty(),
                ));
                assert(hb == flush_run(ShiftKind::Cell, Some((-1i8, l))));
                assert(mk_shift(ShiftKind::Cell, -1i8, l) == unit);
                assert(hb =~= b);
                assert(shift_of(ShiftKind::Pointer, unit) is None);
                assert(pb == flush_run(ShiftKind::Pointer, None) + seq![
                    merge_node(ShiftKind::Pointer, unit),
                ] + merge_from(ShiftKind::Pointer, None, Seq::<NodeView>::empty()));
                assert(pb =~= b);
                assert(false);
            }
        }
    }
}

/// A converged optimization result is a normal form: no adjacent same-kind
/// shifts, no zero-amount shift, and no clear-cell loop survives anywhere
/// in it.
pub proof fn lemma_converged_is_normal_form(s: Seq<NodeView>, fuel: nat)
    requires
        spec_optimize(s, fuel).1,
    ensures
        normal_for(ShiftKind::Cell, spec_optimize(s, fuel).0),
        normal_for(ShiftKind::Pointer, spec_optimize(s, fuel).0),
        no_clear_loops(spec_optimize(s, fuel).0),
{
    lemma_converged_is_fixed_point(s, fuel);
    lemma_fixed_point_is_normal(spec_optimize(s, fuel).0);
}

/// The default bound on optimization passes: past this many, the search for
/// a fixed point is abandoned and the tree obtained so far is returned.
pub const DEFAULT_PASS_CAP: u64 = 20;

fn one_pass(v: &Vec<Node>) -> (r: Vec<Node>)
    ensures
        view_nodes(r@) == pass_spec(view_nodes(v@)),
{
    let cells_merged = merge_shifts_from(ShiftKind::Cell, v);
    let pointers_merged = merge_shifts_from(ShiftKind::Pointer, &cells_merged);
    zero_loop_from(&pointers_merged)
}

/// Runs optimization passes until one changes nothing, or until `cap`
/// passes have run. The flag is `true` exactly when a fixed point was
/// reached within the cap; `false` is the non-fatal non-convergence
/// diagnostic, and the tree returned with it is still safe to use.
#[verifier::loop_isolation(false)]
pub fn optimize_with_cap(instructions: Vec<Node>, cap: u64) -> (r: (Vec<Node>, bool))
    ensures
        view_nodes(r.0@) == spec_optimize(view_nodes(instructions@), cap as nat).0,
        r.1 == spec_optimize(view_nodes(instructions@), cap as nat).1,
{
    let ghost start = view_nodes(instructions@);
    let mut cur = instructions;
    let mut passes: u64 = 0;

    while passes < cap
        invariant
            passes <= cap,
            spec_optimize(view_nodes(cur@), (cap - passes) as nat) == spec_optimize(
                start,
                cap as nat,
            ),
        decreases cap - passes,
    {
        let next = one_pass(&cur);
        let same = crate::parser::nodes_eq(&cur, &next);
        if same {
            proof {
                let vc = view_nodes(cur@);
                assert(pass_spec(vc) == vc);
                assert(spec_optimize(vc, (cap - passes) as nat) == (vc, true));
            }
            return (cur, true);
        }
        cur = next;
        passes = passes + 1;
    }
    (cur, false)
}

/// Optimizes the tree with the default pass cap. Callers that need the
/// non-convergence diagnostic use `optimize_with_cap` instead.
pub fn optimize(instructions: Vec<Node>) -> (r: Vec<Node>)
    ensures
        view_nodes(r@) == spec_optimize(view_nodes(instructions@), DEFAULT_PASS_CAP as nat).0,
{
    let result = optimize_with_cap(instructions, DEFAULT_PASS_CAP);
    result.0
}

/// When the optimizer converges, the tree it returns is a true fixed point:
/// one more pass would change nothing.
pub proof fn lemma_converged_is_fixed_point(s: Seq<NodeView>, fuel: nat)
    requires
        spec_optimize(s, fuel).1,
    ensures
        pass_spec(spec_optimize(s, fuel).0) == spec_optimize(s, fuel).0,
    decreases fuel,
{
    if fuel > 0 {
        let t = pass_spec(s);
        if t != s {
            lemma_converged_is_fixed_point(t, (fuel - 1) as nat);
        }
    }
}

/// Idempotence: optimizing a tree on which the optimizer converged returns
/// that tree unchanged, whatever positive pass cap the second run gets.
pub proof fn lemma_optimize_idempotent(s: Seq<NodeView>, fuel: nat, fuel2: nat)
    requires
        spec_optimize(s, fuel).1,
        fuel2 >= 1,
    ensures
        spec_optimize(spec_optimize(s, fuel).0, fuel2) == (spec_optimize(s, fuel).0, true),
{
    lemma_converged_is_fixed_point(s, fuel);
}

} // verus!
