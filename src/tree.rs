use vstd::prelude::*;

use crate::text::newlines;

verus! {

/// A node of a document body, stored in an arena: nodes refer to their
/// parent by index, and a parent always comes before its children.
#[derive(Debug, Clone)]
pub struct BodyNode {
    pub kind: String,
    pub parent: Option<usize>,
    /// Line within the body text, from 1; 0 when the parser gave none.
    pub line: usize,
}

/// Every parent stands before its child.
pub open spec fn arena_wf(nodes: Seq<BodyNode>) -> bool {
    forall|i: int| 0 <= i < nodes.len() ==> ((#[trigger] nodes[i]).parent matches Some(p) ==> p < i)
}

/// How many lines of the whole document come before the body's first line
/// but one: the opening fence, the preamble's lines and the closing fence.
pub open spec fn body_offset(preamble: Seq<char>) -> int {
    newlines(preamble) as int + 3
}

/// The line of node `i` in the whole document. A node with a line of its own
/// is shifted past the preamble; one without takes its parent's line, and a
/// root without one stands on the body's first line.
pub open spec fn corrected_line(nodes: Seq<BodyNode>, offset: int, i: int) -> int
    decreases i,
{
    if i < 0 || i >= nodes.len() {
        0
    } else if nodes[i].line != 0 {
        nodes[i].line + offset
    } else {
        match nodes[i].parent {
            Some(p) => if p < i {
                corrected_line(nodes, offset, p as int)
            } else {
                offset + 1
            },
            None => offset + 1,
        }
    }
}

fn count_newlines(s: &str) -> (r: usize)
    ensures
        r == newlines(s@),
        r <= s@.len(),
{
    let len = s.unicode_len();
    let mut n: usize = 0;
    let mut i: usize = 0;
    while i < len
        invariant
            len == s@.len(),
            i <= len,
            n == newlines(s@.subrange(0, i as int)),
            n <= i,
        decreases len - i,
    {
        assert(s@.subrange(0, i + 1).drop_last() =~= s@.subrange(0, i as int));
        if s.get_char(i) == '\n' {
            n = n + 1;
        }
        i = i + 1;
    }
    assert(s@.subrange(0, len as int) =~= s@);
    n
}

/// Lines of the body nodes in the whole document, one per node, computed in
/// a single pass from the first node on.
pub fn reconcile_lines(nodes: &Vec<BodyNode>, preamble: &str) -> (r: Vec<usize>)
    requires
        arena_wf(nodes@),
        forall|i: int| 0 <= i < nodes@.len() ==> (#[trigger] nodes@[i]).line + preamble@.len() + 4 <= usize::MAX,
        preamble@.len() + 4 <= usize::MAX,
    ensures
        r@.len() == nodes@.len(),
        forall|i: int| 0 <= i < nodes@.len() ==> #[trigger] r@[i] == corrected_line(nodes@, body_offset(preamble@), i),
{
    let offset = count_newlines(preamble) + 3;
    let ghost off = body_offset(preamble@);
    let mut r: Vec<usize> = Vec::new();
    let mut i: usize = 0;
    while i < nodes.len()
        invariant
            arena_wf(nodes@),
            forall|i: int| 0 <= i < nodes@.len() ==> (#[trigger] nodes@[i]).line + preamble@.len() + 4 <= usize::MAX,
            offset == off,
            offset <= preamble@.len() + 3,
            i <= nodes@.len(),
            r@.len() == i,
            forall|j: int| 0 <= j < i ==> #[trigger] r@[j] == corrected_line(nodes@, off, j),
        decreases nodes.len() - i,
    {
        let node = &nodes[i];
        let line: usize = if node.line != 0 {
            node.line + offset
        } else {
            match node.parent {
                Some(p) => r[p],
                None => offset + 1,
            }
        };
        r.push(line);
        i = i + 1;
    }
    r
}

/// The Markdown tree of a body as comrak parses it, node by node in the
/// order of a walk from the root: each node's kind, its parent's position
/// and its line within the body.
pub uninterp spec fn markdown_nodes(body: Seq<char>) -> Seq<(Seq<char>, Option<usize>, usize)>;

/// What a node list holds, node by node.
pub open spec fn node_views(nodes: Seq<BodyNode>) -> Seq<(Seq<char>, Option<usize>, usize)> {
    nodes.map_values(|n: BodyNode| (n.kind@, n.parent, n.line))
}

/// Relies on `comrak::parse_document`, with the table extension, for the
/// Markdown tree of a body. The nodes are listed by a walk from the root that
/// puts every node after its parent, so the list is a well-formed arena.
#[verifier::external_body]
fn parse_body(body: &str) -> (r: Vec<BodyNode>)
    ensures
        arena_wf(r@),
        node_views(r@) == markdown_nodes(body@),
{
    let arena = comrak::Arena::new();
    let mut options = comrak::Options::default();
    options.extension.table = true;
    let root = comrak::parse_document(&arena, body, &options);
    let mut nodes = Vec::new();
    let mut stack = vec![(root, None)];
    while let Some((node, parent)) = stack.pop() {
        let data = node.data.borrow();
        nodes.push(BodyNode { kind: data.value.xml_node_name().to_string(), parent, line: data.sourcepos.start.line });
        let here = Some(nodes.len() - 1);
        stack.extend(node.reverse_children().map(|c| (c, here)));
    }
    nodes
}

/// Every node's line, shifted past the preamble, fits in `usize`.
pub open spec fn lines_fit(nodes: Seq<BodyNode>, preamble: Seq<char>) -> bool {
    forall|i: int| 0 <= i < nodes.len() ==> (#[trigger] nodes[i]).line + preamble.len() + 4 <= usize::MAX
}

/// `lines` are the nodes' lines in the whole document, one per node, or
/// there are none because they would not fit in `usize`.
pub open spec fn lines_match(nodes: Seq<BodyNode>, lines: Seq<usize>, preamble: Seq<char>) -> bool {
    &&& lines_fit(nodes, preamble) <==> lines.len() == nodes.len()
    &&& lines.len() == nodes.len() ==> forall|i: int|
        0 <= i < nodes.len() ==> #[trigger] lines[i] == corrected_line(nodes, body_offset(preamble), i)
    &&& lines.len() != nodes.len() ==> lines.len() == 0
}

fn check_lines_fit(nodes: &Vec<BodyNode>, plen: usize) -> (r: bool)
    requires
        plen + 4 <= usize::MAX,
    ensures
        r == forall|i: int| 0 <= i < nodes@.len() ==> (#[trigger] nodes@[i]).line + plen + 4 <= usize::MAX,
{
    let mut i: usize = 0;
    while i < nodes.len()
        invariant
            plen + 4 <= usize::MAX,
            i <= nodes@.len(),
            forall|j: int| 0 <= j < i ==> (#[trigger] nodes@[j]).line + plen + 4 <= usize::MAX,
        decreases nodes.len() - i,
    {
        if nodes[i].line > usize::MAX - 4 - plen {
            return false;
        }
        i = i + 1;
    }
    true
}

/// Parses a body into its tree and gives each node its line in the whole
/// document, whose preamble text is `preamble`.
pub fn body_tree(body: &str, preamble: &str) -> (r: (Vec<BodyNode>, Vec<usize>))
    requires
        preamble@.len() + 4 <= usize::MAX,
    ensures
        arena_wf(r.0@),
        node_views(r.0@) == markdown_nodes(body@),
        lines_match(r.0@, r.1@, preamble@),
{
    let nodes = parse_body(body);
    let plen = preamble.unicode_len();
    if check_lines_fit(&nodes, plen) {
        let lines = reconcile_lines(&nodes, preamble);
        (nodes, lines)
    } else {
        (nodes, Vec::new())
    }
}

/// A node that has a line of its own stands that many lines into the body,
/// after the preamble's newlines and three more lines.
pub proof fn law_body_line_shift(nodes: Seq<BodyNode>, preamble: Seq<char>, i: int)
    requires
        arena_wf(nodes),
        0 <= i < nodes.len(),
        nodes[i].line != 0,
    ensures
        corrected_line(nodes, body_offset(preamble), i) == nodes[i].line + newlines(preamble) + 3,
{
}

} // verus!
