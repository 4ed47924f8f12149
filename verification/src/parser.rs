//! Structural parser: a single left-to-right scan turns source text into a
//! nested instruction tree, validating bracket balance with an explicit stack.

use vstd::prelude::*;

verus! {

/// A half-open-inclusive pair of zero-based character offsets into the
/// original source, attached to a node for diagnostics.
#[derive(Debug, Clone, Copy, PartialEq, Eq, Structural)]
pub struct Location {
    pub start: usize,
    pub end: usize,
}

/// One instruction of the tree. `Loop` exclusively owns its body. `Assign`
/// writes its amount directly to the current cell; it is never produced by
/// the parser, only by the optimizer's zero-loop rewrite.
#[derive(Debug)]
pub enum Node {
    CellShift { amount: i8, loc: Option<Location> },
    PointerShift { amount: i8, loc: Option<Location> },
    Read { loc: Option<Location> },
    Write { loc: Option<Location> },
    Loop { body: Vec<Node>, loc: Option<Location> },
    Assign { amount: i8, loc: Option<Location> },
}

/// The mathematical model of a `Node`: the same variants with the loop body
/// as a sequence. Contracts and lemmas speak of this type.
pub enum NodeView {
    CellShift { amount: i8, loc: Option<Location> },
    PointerShift { amount: i8, loc: Option<Location> },
    Read { loc: Option<Location> },
    Write { loc: Option<Location> },
    Loop { body: Seq<NodeView>, loc: Option<Location> },
    Assign { amount: i8, loc: Option<Location> },
}

impl View for Node {
    type V = NodeView;

    open spec fn view(&self) -> NodeView
        decreases self,
    {
        match self {
            Node::CellShift { amount, loc } => NodeView::CellShift { amount: *amount, loc: *loc },
            Node::PointerShift { amount, loc } => NodeView::PointerShift {
                amount: *amount,
                loc: *loc,
            },
            Node::Read { loc } => NodeView::Read { loc: *loc },
            Node::Write { loc } => NodeView::Write { loc: *loc },
            Node::Loop { body, loc } => NodeView::Loop { body: view_nodes(body@), loc: *loc },
            Node::Assign { amount, loc } => NodeView::Assign { amount: *amount, loc: *loc },
        }
    }
}

/// The model of a sibling list: each node replaced by its view.
pub open spec fn view_nodes(s: Seq<Node>) -> Seq<NodeView>
    decreases s,
{
    if s.len() == 0 {
        Seq::empty()
    } else {
        seq![s[0]@] + view_nodes(s.subrange(1, s.len() as int))
    }
}

/// `view_nodes` is the element-wise view map.
pub proof fn lemma_view_nodes(s: Seq<Node>)
    ensures
        view_nodes(s).len() == s.len(),
        forall|i: int| 0 <= i < s.len() ==> view_nodes(s)[i] == #[trigger] s[i]@,
    decreases s.len(),
{
    if s.len() > 0 {
        let tail = s.subrange(1, s.len() as int);
        lemma_view_nodes(tail);
        assert(view_nodes(s) == seq![s[0]@] + view_nodes(tail));
        assert forall|i: int| 0 <= i < s.len() implies view_nodes(s)[i] == #[trigger] s[i]@ by {
            if i > 0 {
                assert(tail[i - 1] == s[i]);
                assert(view_nodes(s)[i] == view_nodes(tail)[i - 1]);
            }
        }
    }
}

/// The structural error: an unmatched bracket, located at the offending
/// stray closer or at the innermost unclosed opener.
#[derive(Debug)]
pub struct ParserError {
    pub message: String,
    pub loc: Location,
}

/// The unit node that one operator character at offset `i` parses to, or
/// `None` for brackets and inert (comment) characters.
pub open spec fn unit_node(c: char, i: int) -> Option<NodeView> {
    let loc = Some(Location { start: i as usize, end: i as usize });
    if c == '+' {
        Some(NodeView::CellShift { amount: 1, loc })
    } else if c == '-' {
        Some(NodeView::CellShift { amount: -1i8, loc })
    } else if c == '>' {
        Some(NodeView::PointerShift { amount: 1, loc })
    } else if c == '<' {
        Some(NodeView::PointerShift { amount: -1i8, loc })
    } else if c == '.' {
        Some(NodeView::Write { loc })
    } else if c == ',' {
        Some(NodeView::Read { loc })
    } else {
        None
    }
}

/// The parse of `s` from offset `i` onward, given the lists already built:
/// `stack` holds, innermost last, each open scope's sibling list and the
/// offset of its opening bracket; `cur` is the innermost list. The error
/// value is the offset reported for an unmatched bracket.
pub open spec fn parse_from(
    s: Seq<char>,
    i: int,
    stack: Seq<(Seq<NodeView>, int)>,
    cur: Seq<NodeView>,
) -> Result<Seq<NodeView>, int>
    decreases s.len() - i,
{
    if !(0 <= i < s.len()) {
        if stack.len() == 0 {
            Ok(cur)
        } else {
            Err(stack.last().1)
        }
    } else {
        let c = s[i];
        if c == '[' {
            parse_from(s, i + 1, stack.push((cur, i)), Seq::empty())
        } else if c == ']' {
            if stack.len() == 0 {
                Err(i)
            } else {
                let parent = stack.last().0;
                let open = stack.last().1;
                let node = NodeView::Loop {
                    body: cur,
                    loc: Some(Location { start: open as usize, end: i as usize }),
                };
                parse_from(s, i + 1, stack.drop_last(), parent.push(node))
            }
        } else if unit_node(c, i) is Some {
            parse_from(s, i + 1, stack, cur.push(unit_node(c, i)->0))
        } else {
            parse_from(s, i + 1, stack, cur)
        }
    }
}

/// What parsing whole source text yields: a tree, or the offset of an
/// unmatched bracket.
pub open spec fn spec_parse(s: Seq<char>) -> Result<Seq<NodeView>, int> {
    parse_from(s, 0, Seq::empty(), Seq::empty())
}

/// The model of the parser's scope stack.
pub open spec fn stack_views(st: Seq<(Vec<Node>, usize)>) -> Seq<(Seq<NodeView>, int)> {
    Seq::new(st.len(), |j: int| (view_nodes(st[j].0@), st[j].1 as int))
}

pub proof fn lemma_view_nodes_push(s: Seq<Node>, x: Node)
    ensures
        view_nodes(s.push(x)) == view_nodes(s).push(x@),
{
    lemma_view_nodes(s.push(x));
    lemma_view_nodes(s);
    assert forall|i: int| 0 <= i < s.push(x).len() implies view_nodes(s.push(x))[i]
        == view_nodes(s).push(x@)[i] by {
        assert(view_nodes(s.push(x))[i] == s.push(x)[i]@);
        if i < s.len() {
            assert(s.push(x)[i] == s[i]);
            assert(view_nodes(s)[i] == s[i]@);
        } else {
            assert(s.push(x)[i] == x);
        }
    }
    assert(view_nodes(s.push(x)) =~= view_nodes(s).push(x@));
}

fn loc_eq(a: &Option<Location>, b: &Option<Location>) -> (r: bool)
    ensures
        r == (*a == *b),
{
    match (a, b) {
        (None, None) => true,
        (Some(x), Some(y)) => x.start == y.start && x.end == y.end,
        _ => false,
    }
}

/// Structural equality of two nodes: same variant, same amount, same span,
/// and (for loops) equal bodies, element by element.
pub fn node_eq(a: &Node, b: &Node) -> (r: bool)
    ensures
        r == (a@ == b@),
    decreases *a,
{
    match (a, b) {
        (
            Node::CellShift { amount: a1, loc: l1 },
            Node::CellShift { amount: a2, loc: l2 },
        ) => *a1 == *a2 && loc_eq(l1, l2),
        (
            Node::PointerShift { amount: a1, loc: l1 },
            Node::PointerShift { amount: a2, loc: l2 },
        ) => *a1 == *a2 && loc_eq(l1, l2),
        (Node::Read { loc: l1 }, Node::Read { loc: l2 }) => loc_eq(l1, l2),
        (Node::Write { loc: l1 }, Node::Write { loc: l2 }) => loc_eq(l1, l2),
        (Node::Loop { body: b1, loc: l1 }, Node::Loop { body: b2, loc: l2 }) => {
            proof {
                assert(decreases_to!(*a => *b1));
            }
            loc_eq(l1, l2) && nodes_eq(b1, b2)
        },
        (
            Node::Assign { amount: a1, loc: l1 },
            Node::Assign { amount: a2, loc: l2 },
        ) => *a1 == *a2 && loc_eq(l1, l2),
        _ => false,
    }
}

/// Structural equality of two sibling lists.
pub fn nodes_eq(a: &Vec<Node>, b: &Vec<Node>) -> (r: bool)
    ensures
        r == (view_nodes(a@) == view_nodes(b@)),
    decreases a@,
{
    proof {
        lemma_view_nodes(a@);
        lemma_view_nodes(b@);
    }
    if a.len() != b.len() {
        return false;
    }
    let mut i: usize = 0;
    while i < a.len()
        invariant
            i <= a.len(),
            a@.len() == b@.len(),
            forall|j: int| 0 <= j < i ==> a@[j]@ == #[trigger] b@[j]@,
        decreases a.len() - i,
    {
        let eq = node_eq(&a[i], &b[i]);
        if !eq {
            proof {
                lemma_view_nodes(a@);
                lemma_view_nodes(b@);
                assert(view_nodes(a@)[i as int] != view_nodes(b@)[i as int]);
            }
            return false;
        }
        i = i + 1;
    }
    proof {
        lemma_view_nodes(a@);
        lemma_view_nodes(b@);
        assert forall|j: int| 0 <= j < a@.len() implies view_nodes(a@)[j] == view_nodes(
            b@,
        )[j] by {
            assert(view_nodes(a@)[j] == a@[j]@);
            assert(view_nodes(b@)[j] == b@[j]@);
        }
        assert(view_nodes(a@) =~= view_nodes(b@));
    }
    true
}

impl PartialEq for Node {
    fn eq(&self, other: &Node) -> (r: bool) {
        node_eq(self, other)
    }
}

impl vstd::std_specs::cmp::PartialEqSpecImpl for Node {
    open spec fn obeys_eq_spec() -> bool {
        true
    }

    open spec fn eq_spec(&self, other: &Node) -> bool {
        self@ == other@
    }
}

/// A character the parser acts on: one of the six operators or a bracket.
/// Every other character is commentary.
pub open spec fn is_significant(c: char) -> bool {
    c == '[' || c == ']' || unit_node(c, 0) is Some
}

/// Brackets from offset `i` onward are properly nested and closed, starting
/// from `depth` scopes already open.
pub open spec fn bal_from(s: Seq<char>, i: int, depth: int) -> bool
    decreases s.len() - i,
{
    if !(0 <= i < s.len()) {
        depth == 0
    } else if s[i] == '[' {
        bal_from(s, i + 1, depth + 1)
    } else if s[i] == ']' {
        depth > 0 && bal_from(s, i + 1, depth - 1)
    } else {
        bal_from(s, i + 1, depth)
    }
}

/// Brackets of `s` are properly nested and closed.
pub open spec fn balanced(s: Seq<char>) -> bool {
    bal_from(s, 0, 0)
}

proof fn lemma_parse_from_ok(s: Seq<char>, i: int, stack: Seq<(Seq<NodeView>, int)>, cur: Seq<NodeView>)
    ensures
        parse_from(s, i, stack, cur) is Ok <==> bal_from(s, i, stack.len() as int),
    decreases s.len() - i,
{
    if 0 <= i < s.len() {
        let c = s[i];
        if c == '[' {
            lemma_parse_from_ok(s, i + 1, stack.push((cur, i)), Seq::empty());
        } else if c == ']' {
            if stack.len() > 0 {
                let node = NodeView::Loop {
                    body: cur,
                    loc: Some(Location { start: stack.last().1 as usize, end: i as usize }),
                };
                lemma_parse_from_ok(s, i + 1, stack.drop_last(), stack.last().0.push(node));
            }
        } else if unit_node(c, i) is Some {
            lemma_parse_from_ok(s, i + 1, stack, cur.push(unit_node(c, i)->0));
        } else {
            lemma_parse_from_ok(s, i + 1, stack, cur);
        }
    }
}

/// Bracket balance: parsing succeeds if and only if brackets are properly
/// nested and closed.
pub proof fn lemma_parse_ok_iff_balanced(s: Seq<char>)
    ensures
        spec_parse(s) is Ok <==> balanced(s),
{
    lemma_parse_from_ok(s, 0, Seq::empty(), Seq::empty());
}

proof fn lemma_parse_from_inert_tail(
    s: Seq<char>,
    i: int,
    stack: Seq<(Seq<NodeView>, int)>,
    cur: Seq<NodeView>,
)
    requires
        0 <= i,
        forall|j: int| i <= j < s.len() ==> !is_significant(#[trigger] s[j]),
    ensures
        parse_from(s, i, stack, cur) == parse_from(s, s.len() as int, stack, cur),
    decreases s.len() - i,
{
    if i < s.len() {
        lemma_parse_from_inert_tail(s, i + 1, stack, cur);
    }
}

proof fn lemma_parse_from_append(
    s: Seq<char>,
    t: Seq<char>,
    i: int,
    stack: Seq<(Seq<NodeView>, int)>,
    cur: Seq<NodeView>,
)
    requires
        0 <= i <= s.len(),
        forall|j: int| 0 <= j < t.len() ==> !is_significant(#[trigger] t[j]),
    ensures
        parse_from(s + t, i, stack, cur) == parse_from(s, i, stack, cur),
    decreases s.len() - i,
{
    let st = s + t;
    if i < s.len() {
        assert(st[i] == s[i]);
        let c = s[i];
        if c == '[' {
            lemma_parse_from_append(s, t, i + 1, stack.push((cur, i)), Seq::empty());
        } else if c == ']' {
            if stack.len() > 0 {
                let node = NodeView::Loop {
                    body: cur,
                    loc: Some(Location { start: stack.last().1 as usize, end: i as usize }),
                };
                lemma_parse_from_append(s, t, i + 1, stack.drop_last(), stack.last().0.push(node));
            }
        } else if unit_node(c, i) is Some {
            lemma_parse_from_append(s, t, i + 1, stack, cur.push(unit_node(c, i)->0));
        } else {
            lemma_parse_from_append(s, t, i + 1, stack, cur);
        }
    } else {
        assert forall|j: int| i <= j < st.len() implies !is_significant(#[trigger] st[j]) by {
            assert(st[j] == t[j - s.len()]);
        }
        lemma_parse_from_inert_tail(st, i, stack, cur);
    }
}

/// Comment transparency: appending only inert (comment) characters to the
/// source leaves the parse unchanged, tree or error alike.
pub proof fn lemma_trailing_comments_ignored(s: Seq<char>, t: Seq<char>)
    requires
        forall|j: int| 0 <= j < t.len() ==> !is_significant(#[trigger] t[j]),
    ensures
        spec_parse(s + t) == spec_parse(s),
{
    lemma_parse_from_append(s, t, 0, Seq::empty(), Seq::empty());
}

/// Parse source text into an instruction tree, or fail on the first
/// structural imbalance. Only the eight operator characters are significant;
/// every other character is skipped as commentary. The result is exactly
/// `spec_parse` of the input, so parsing is a pure function of the text.
pub fn parse(source: &str) -> (r: Result<Vec<Node>, ParserError>)
    ensures
        r matches Ok(nodes) ==> spec_parse(source@) == Ok::<_, int>(view_nodes(nodes@)),
        r matches Err(e) ==> {
            &&& spec_parse(source@) matches Err(off)
            &&& e.loc.start as int == off
            &&& e.loc.end as int == off
            &&& e.message@ == "Unmatched bracket pair"@
        },
        r is Ok <==> balanced(source@),
{
    proof {
        lemma_parse_ok_iff_balanced(source@);
    }
    let mut instructions: Vec<Node> = Vec::new();
    let mut stack: Vec<(Vec<Node>, usize)> = Vec::new();
    let n = source.unicode_len();
    let mut i: usize = 0;

    proof {
        assert(stack_views(stack@) =~= Seq::<(Seq<NodeView>, int)>::empty());
        assert(view_nodes(instructions@) =~= Seq::<NodeView>::empty());
    }

    while i < n
        invariant
            n == source@.len(),
            i <= n,
            parse_from(source@, i as int, stack_views(stack@), view_nodes(instructions@))
                == spec_parse(source@),
            spec_parse(source@) is Ok <==> balanced(source@),
        decreases n - i,
    {
        let ghost prev_stack = stack_views(stack@);
        let ghost prev_cur = view_nodes(instructions@);
        let c = source.get_char(i);
        if c == '[' {
            stack.push((instructions, i));
            instructions = Vec::new();
            proof {
                assert(stack_views(stack@) =~= prev_stack.push((prev_cur, i as int)));
                assert(view_nodes(instructions@) =~= Seq::<NodeView>::empty());
            }
        } else if c == ']' {
            match stack.pop() {
                Some(pair) => {
                    let (mut parent, open_index) = pair;
                    let node = Node::Loop {
                        body: instructions,
                        loc: Some(Location { start: open_index, end: i }),
                    };
                    proof {
                        assert(prev_stack.last() == (view_nodes(parent@), open_index as int));
                        assert(stack_views(stack@) =~= prev_stack.drop_last());
                        lemma_view_nodes_push(parent@, node);
                    }
                    parent.push(node);
                    instructions = parent;
                },
                None => {
                    proof {
                        assert(prev_stack.len() == 0);
                    }
                    return Err(ParserError {
                        message: "Unmatched bracket pair".to_owned(),
                        loc: Location { start: i, end: i },
                    });
                },
            }
        } else {
            let loc = Some(Location { start: i, end: i });
            let unit: Option<Node> = match c {
                '+' => Some(Node::CellShift { amount: 1, loc }),
                '-' => Some(Node::CellShift { amount: -1, loc }),
                '>' => Some(Node::PointerShift { amount: 1, loc }),
                '<' => Some(Node::PointerShift { amount: -1, loc }),
                '.' => Some(Node::Write { loc }),
                ',' => Some(Node::Read { loc }),
                _ => None,
            };
            match unit {
                Some(node) => {
                    proof {
                        assert(unit_node(c, i as int) == Some(node@));
                        lemma_view_nodes_push(instructions@, node);
                    }
                    instructions.push(node);
                },
                None => {
                    proof {
                        assert(unit_node(c, i as int) is None);
                    }
                },
            }
        }
        i = i + 1;
    }

    if stack.len() > 0 {
        let pos = stack[stack.len() - 1].1;
        return Err(ParserError {
            message: "Unmatched bracket pair".to_owned(),
            loc: Location { start: pos, end: pos },
        });
    }

    Ok(instructions)
}

} // verus!
