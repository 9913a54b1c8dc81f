//! Python syntax trees: the tree that `tree-sitter` builds, copied into
//! plain values that the matcher and the name resolver read.
use vstd::prelude::*;
use crate::text::{chars_eq, chars_of, slice_to_vec_range, string_of};
use crate::ts::{
    descendant_count, node_child, node_child_count, node_end_byte, node_field_name_for_child, node_is_error,
    node_is_missing, node_is_named, node_kind, node_start_byte, node_start_position, root_node, ts_child_count,
    ts_descendant_count, ts_end_byte, ts_field_name_for_child, ts_has_child, ts_is_error, ts_is_missing,
    ts_is_named, ts_kind, ts_parses, ts_start_byte, ts_start_position, TsNode, TsTree,
};

verus! {

/// One node of a syntax tree, with the positions of its text.
pub struct SyntaxNode {
    /// The grammar's name for the node, such as `call`.
    pub kind: String,
    /// Whether the grammar names the node (punctuation is not named).
    pub named: bool,
    /// Whether the parser inserted the node for a syntax error (`ERROR`) or a
    /// missing token.
    pub is_error: bool,
    /// The field under which the node stands in its parent, such as `function`.
    pub field: Option<String>,
    pub parent: Option<usize>,
    pub children: Vec<usize>,
    /// The node's text is `source[start..end]` (in characters).
    pub start: usize,
    pub end: usize,
    pub start_byte: usize,
    pub end_byte: usize,
    /// Zero-based line and byte column where the node starts.
    pub row: usize,
    pub column: usize,
}

/// A syntax tree: the source text and its nodes, the root at index 0.
pub struct SyntaxTree {
    pub source: Vec<char>,
    pub nodes: Vec<SyntaxNode>,
}

/// What a node holds, as plain values.
pub struct NodeView {
    pub kind: Seq<char>,
    pub named: bool,
    pub is_error: bool,
    pub field: Option<Seq<char>>,
    pub parent: Option<usize>,
    pub children: Seq<usize>,
    pub start: usize,
    pub end: usize,
    pub start_byte: usize,
    pub end_byte: usize,
    pub row: usize,
    pub column: usize,
}

pub open spec fn opt_chars(o: Option<String>) -> Option<Seq<char>> {
    match o {
        Some(s) => Some(s@),
        None => None,
    }
}

impl View for SyntaxNode {
    type V = NodeView;

    open spec fn view(&self) -> NodeView {
        NodeView {
            kind: self.kind@,
            named: self.named,
            is_error: self.is_error,
            field: opt_chars(self.field),
            parent: self.parent,
            children: self.children@,
            start: self.start,
            end: self.end,
            start_byte: self.start_byte,
            end_byte: self.end_byte,
            row: self.row,
            column: self.column,
        }
    }
}

/// A syntax tree as plain values: the text and the nodes.
pub struct TreeView {
    pub source: Seq<char>,
    pub nodes: Seq<NodeView>,
}

pub open spec fn nodes_view(v: Seq<SyntaxNode>) -> Seq<NodeView> {
    v.map_values(|n: SyntaxNode| n@)
}

/// Node `d` lies `n` steps below node `i`, each step going from a node to
/// one of its named children.
pub open spec fn named_below(t: TreeView, i: int, d: int, n: nat) -> bool
    decreases n,
{
    n > 0 && 0 <= i < t.len() && exists|k: int|
        0 <= k < t.child_count(i) && i < #[trigger] t.child(i, k) < t.len() && t.node(t.child(i, k)).named && (
        t.child(i, k) == d || named_below(t, t.child(i, k), d, (n - 1) as nat))
}

impl View for SyntaxTree {
    type V = TreeView;

    open spec fn view(&self) -> TreeView {
        TreeView { source: self.source@, nodes: nodes_view(self.nodes@) }
    }
}

impl TreeView {
    pub open spec fn len(&self) -> int {
        self.nodes.len() as int
    }

    pub open spec fn node(&self, i: int) -> NodeView {
        self.nodes[i]
    }

    /// The `k`th child of node `i`.
    pub open spec fn child(&self, i: int, k: int) -> int {
        self.nodes[i].children[k] as int
    }

    pub open spec fn child_count(&self, i: int) -> int {
        self.nodes[i].children.len() as int
    }

    pub open spec fn node_ok(&self, i: int) -> bool {
        let n = self.nodes[i];
        &&& n.start <= n.end <= self.source.len()
        &&& n.row < usize::MAX && n.column < usize::MAX
        &&& (n.parent matches Some(p) ==> p < i)
        &&& forall|k: int|
            0 <= k < n.children.len() ==> i < #[trigger] n.children[k] < self.nodes.len()
                && self.nodes[n.children[k] as int].parent == Some(i as usize)
    }

    /// The root is node 0; a child comes after its parent, whom it names as such.
    pub open spec fn wf(&self) -> bool {
        &&& self.nodes.len() > 0
        &&& forall|i: int| 0 <= i < self.nodes.len() ==> #[trigger] self.node_ok(i)
    }

    /// The text of node `i`.
    pub open spec fn text(&self, i: int) -> Seq<char> {
        self.source.subrange(self.nodes[i].start as int, self.nodes[i].end as int)
    }

    /// Whether node `i` is of kind `kind`.
    pub open spec fn is_kind(&self, i: int, kind: Seq<char>) -> bool {
        self.nodes[i].kind == kind
    }

    /// Whether the `k`th child of `i` stands under field `field`.
    pub open spec fn child_has_field(&self, i: int, k: int, field: Seq<char>) -> bool {
        self.nodes[self.child(i, k)].field == Some(field)
    }

    /// The first child of `i`, from the `k`th on, under field `field`
    /// (`tree_sitter::Node::child_by_field_name`).
    pub open spec fn field_child_from(&self, i: int, field: Seq<char>, k: int) -> Option<int>
        decreases self.child_count(i) - k,
    {
        if k < 0 || k >= self.child_count(i) {
            None
        } else if self.child_has_field(i, k, field) {
            Some(self.child(i, k))
        } else {
            self.field_child_from(i, field, k + 1)
        }
    }

    pub open spec fn field_child(&self, i: int, field: Seq<char>) -> Option<int> {
        self.field_child_from(i, field, 0)
    }
}

impl SyntaxTree {
    pub open spec fn len(&self) -> int {
        self@.len()
    }

    pub open spec fn node(&self, i: int) -> NodeView {
        self@.node(i)
    }

    pub open spec fn child(&self, i: int, k: int) -> int {
        self@.child(i, k)
    }

    pub open spec fn child_count(&self, i: int) -> int {
        self@.child_count(i)
    }

    pub open spec fn node_ok(&self, i: int) -> bool {
        self@.node_ok(i)
    }

    pub open spec fn wf(&self) -> bool {
        self@.wf()
    }

    pub open spec fn text(&self, i: int) -> Seq<char> {
        self@.text(i)
    }

    pub open spec fn is_kind(&self, i: int, kind: Seq<char>) -> bool {
        self@.is_kind(i, kind)
    }

    pub open spec fn child_has_field(&self, i: int, k: int, field: Seq<char>) -> bool {
        self@.child_has_field(i, k, field)
    }

    pub open spec fn field_child_from(&self, i: int, field: Seq<char>, k: int) -> Option<int> {
        self@.field_child_from(i, field, k)
    }

    pub open spec fn field_child(&self, i: int, field: Seq<char>) -> Option<int> {
        self@.field_child(i, field)
    }

    pub fn kind_is(&self, i: usize, kind: &[char]) -> (r: bool)
        requires
            i < self.nodes@.len(),
        ensures
            r == self.is_kind(i as int, kind@),
    {
        let k = chars_of(self.nodes[i].kind.as_str());
        chars_eq(&k, kind)
    }

    pub fn child_has_field_exec(&self, i: usize, k: usize, field: &[char]) -> (r: bool)
        requires
            self.wf(),
            i < self.nodes@.len(),
            k < self.child_count(i as int),
        ensures
            r == self.child_has_field(i as int, k as int, field@),
    {
        assert(self.node_ok(i as int));
        let c = self.nodes[i].children[k];
        match &self.nodes[c].field {
            Some(f) => {
                let fc = chars_of(f.as_str());
                chars_eq(&fc, field)
            },
            None => false,
        }
    }

    /// The first child of `i` under field `field`.
    pub fn child_by_field_name(&self, i: usize, field: &[char]) -> (r: Option<usize>)
        requires
            self.wf(),
            i < self.nodes@.len(),
        ensures
            r matches Some(c) ==> self.field_child(i as int, field@) == Some(c as int),
            r is None ==> self.field_child(i as int, field@) is None,
            r matches Some(c) ==> i < c < self.nodes@.len(),
    {
        let mut k: usize = 0;
        assert(self.node_ok(i as int));
        while k < self.nodes[i].children.len()
            invariant
                self.wf(),
                i < self.nodes@.len(),
                k <= self.child_count(i as int),
                self.field_child(i as int, field@) == self.field_child_from(i as int, field@, k as int),
            decreases self.child_count(i as int) - k,
        {
            if self.child_has_field_exec(i, k, field) {
                assert(self.node_ok(i as int));
                return Some(self.nodes[i].children[k]);
            }
            k = k + 1;
        }
        None
    }

    /// The text of node `i`.
    pub fn node_text(&self, i: usize) -> (r: Vec<char>)
        requires
            self.wf(),
            i < self.nodes@.len(),
        ensures
            r@ == self.text(i as int),
    {
        assert(self.node_ok(i as int));
        slice_to_vec_range(&self.source, self.nodes[i].start, self.nodes[i].end)
    }
}

/// The number of bytes of `c` in UTF-8.
pub open spec fn spec_utf8_width(c: char) -> nat {
    if (c as u32) < 0x80 {
        1
    } else if (c as u32) < 0x800 {
        2
    } else if (c as u32) < 0x10000 {
        3
    } else {
        4
    }
}

pub fn utf8_width(c: char) -> (r: usize)
    ensures
        r == spec_utf8_width(c),
{
    let v = c as u32;
    if v < 0x80 {
        1
    } else if v < 0x800 {
        2
    } else if v < 0x10000 {
        3
    } else {
        4
    }
}

/// For each byte of the UTF-8 text of `s`, the index of the character that
/// the byte belongs to.
pub open spec fn byte_chars(s: Seq<char>) -> Seq<usize>
    decreases s.len(),
{
    if s.len() == 0 {
        seq![]
    } else {
        byte_chars(s.drop_last()) + Seq::new(spec_utf8_width(s.last()), |j: int| (s.len() - 1) as usize)
    }
}

/// `byte_chars`, then the length of `s` for the byte just past the end.
pub open spec fn char_table(s: Seq<char>) -> Seq<usize> {
    byte_chars(s).push(s.len() as usize)
}

proof fn lemma_byte_chars_bound(s: Seq<char>)
    ensures
        forall|b: int| 0 <= b < byte_chars(s).len() ==> (#[trigger] byte_chars(s)[b]) < s.len(),
    decreases s.len(),
{
    if s.len() > 0 {
        lemma_byte_chars_bound(s.drop_last());
        let front = byte_chars(s.drop_last());
        let back = Seq::new(spec_utf8_width(s.last()), |j: int| (s.len() - 1) as usize);
        assert forall|b: int| 0 <= b < byte_chars(s).len() implies (#[trigger] byte_chars(s)[b]) < s.len() by {
            if b < front.len() {
                assert(byte_chars(s)[b] == front[b]);
            } else {
                assert(byte_chars(s)[b] == back[b - front.len()]);
            }
        }
    }
}

/// The character index of each byte of the UTF-8 text of `chars`, and the
/// length of `chars` for the byte just past the end.
fn char_index_table(chars: &Vec<char>) -> (r: Vec<usize>)
    ensures
        r@ == char_table(chars@),
        forall|b: int| 0 <= b < r@.len() ==> r@[b] <= chars@.len(),
        r@.len() >= 1,
{
    let mut table: Vec<usize> = Vec::new();
    let mut k: usize = 0;
    assert(chars@.subrange(0, 0) =~= Seq::<char>::empty());
    while k < chars.len()
        invariant
            k <= chars@.len(),
            table@ == byte_chars(chars@.subrange(0, k as int)),
        decreases chars@.len() - k,
    {
        let w = utf8_width(chars[k]);
        let ghost front = table@;
        let mut j: usize = 0;
        while j < w
            invariant
                k < chars@.len(),
                j <= w,
                table@ == front + Seq::new(j as nat, |m: int| k),
            decreases w - j,
        {
            table.push(k);
            assert(table@ =~= front + Seq::new((j + 1) as nat, |m: int| k));
            j = j + 1;
        }
        proof {
            let pre = chars@.subrange(0, k + 1);
            assert(pre.drop_last() =~= chars@.subrange(0, k as int));
            assert(pre.last() == chars@[k as int]);
            assert(Seq::new(w as nat, |m: int| k) =~= Seq::new(spec_utf8_width(pre.last()), |m: int| (pre.len() - 1) as usize));
        }
        k = k + 1;
    }
    assert(chars@.subrange(0, chars@.len() as int) =~= chars@);
    proof {
        lemma_byte_chars_bound(chars@);
    }
    table.push(chars.len());
    table
}

/// A node of the `tree-sitter` tree waiting to be copied, with its parent's
/// index and its field.
struct Pending<'a> {
    node: TsNode<'a>,
    parent: Option<usize>,
    field: Option<String>,
}

/// A node waiting to be copied, as plain values: its path, its parent's
/// index and its field.
pub struct PendView {
    pub path: Seq<usize>,
    pub parent: Option<usize>,
    pub field: Option<Seq<char>>,
}

spec fn pend_view(p: Pending) -> PendView {
    PendView { path: p.node.path(), parent: p.parent, field: opt_chars(p.field) }
}

spec fn stack_view(v: Seq<Pending>) -> Seq<PendView> {
    v.map_values(|p: Pending| pend_view(p))
}

/// The children of the node at `path`, from index `hi - 1` down to `lo`,
/// that `tree-sitter` gives, each waiting under the parent `index`.
pub open spec fn child_pends(src: Seq<char>, path: Seq<usize>, index: usize, lo: int, hi: int) -> Seq<PendView>
    decreases hi - lo,
{
    if hi <= lo {
        seq![]
    } else {
        child_pends(src, path, index, lo + 1, hi) + if ts_has_child(src, path, lo as usize) {
            seq![
                PendView {
                    path: path.push(lo as usize),
                    parent: Some(index),
                    field: ts_field_name_for_child(src, path, (lo as usize) as u32),
                },
            ]
        } else {
            seq![]
        }
    }
}

/// The copy of the node that `p` waits for, or `None` where its byte range
/// does not fit the text or its position is out of range.
pub open spec fn new_node(src: Seq<char>, table: Seq<usize>, p: PendView) -> Option<NodeView> {
    let sb = ts_start_byte(src, p.path);
    let eb = ts_end_byte(src, p.path);
    if sb > eb || eb >= table.len() {
        None
    } else {
        let start = table[sb as int];
        let end = table[eb as int];
        let pos = ts_start_position(src, p.path);
        if start > end || pos.0 == usize::MAX || pos.1 == usize::MAX {
            None
        } else {
            Some(
                NodeView {
                    kind: ts_kind(src, p.path),
                    named: ts_is_named(src, p.path),
                    is_error: ts_is_error(src, p.path) || ts_is_missing(src, p.path),
                    field: p.field,
                    parent: p.parent,
                    children: seq![],
                    start,
                    end,
                    start_byte: sb,
                    end_byte: eb,
                    row: pos.0,
                    column: pos.1,
                },
            )
        }
    }
}

pub open spec fn with_child(n: NodeView, index: usize) -> NodeView {
    NodeView {
        kind: n.kind,
        named: n.named,
        is_error: n.is_error,
        field: n.field,
        parent: n.parent,
        children: n.children.push(index),
        start: n.start,
        end: n.end,
        start_byte: n.start_byte,
        end_byte: n.end_byte,
        row: n.row,
        column: n.column,
    }
}

/// `nodes` with `index` added to the children of `parent`.
pub open spec fn add_child(nodes: Seq<NodeView>, parent: Option<usize>, index: usize) -> Seq<NodeView> {
    match parent {
        Some(q) => if (q as int) < nodes.len() {
            nodes.update(q as int, with_child(nodes[q as int], index))
        } else {
            nodes
        },
        None => nodes,
    }
}

/// One step of the copy: the node waiting last is copied, noted among its
/// parent's children, and its children wait in its place.
pub open spec fn build_step(src: Seq<char>, table: Seq<usize>, nodes: Seq<NodeView>, stack: Seq<PendView>) -> Option<
    (Seq<NodeView>, Seq<PendView>),
> {
    let p = stack.last();
    let index = nodes.len() as usize;
    match new_node(src, table, p) {
        None => None,
        Some(n) => Some(
            (
                add_child(nodes.push(n), p.parent, index),
                stack.drop_last() + child_pends(src, p.path, index, 0, ts_child_count(src, p.path) as int),
            ),
        ),
    }
}

/// The copy from a state on: the nodes once nothing waits, or `None` where a
/// step fails or more nodes would be copied than `total`.
pub open spec fn build_run(
    src: Seq<char>,
    table: Seq<usize>,
    total: usize,
    nodes: Seq<NodeView>,
    stack: Seq<PendView>,
    fuel: nat,
) -> Option<Seq<NodeView>>
    decreases fuel,
{
    if stack.len() == 0 {
        Some(nodes)
    } else if nodes.len() >= total || fuel == 0 {
        None
    } else {
        match build_step(src, table, nodes, stack) {
            None => None,
            Some((n, s)) => build_run(src, table, total, n, s, (fuel - 1) as nat),
        }
    }
}

/// The tree copied from what `tree-sitter` reports for `src`: nodes in the
/// order of a walk from the root, each child after its parent.
pub open spec fn spec_build_tree(src: Seq<char>) -> Option<TreeView> {
    let total = ts_descendant_count(src, seq![]);
    let root = PendView { path: seq![], parent: None, field: None };
    match build_run(src, char_table(src), total, seq![], seq![root], total as nat) {
        Some(ns) => if ns.len() == 0 {
            None
        } else {
            Some(TreeView { source: src, nodes: ns })
        },
        None => None,
    }
}

/// The syntax tree of Python source text `src`, where `tree-sitter` parses it
/// and its nodes fit the text.
pub open spec fn python_tree(src: Seq<char>) -> Option<TreeView> {
    if ts_parses(src) {
        spec_build_tree(src)
    } else {
        None
    }
}

/// `t` is the syntax tree of `src`.
pub open spec fn parsed_as(t: SyntaxTree, src: Seq<char>) -> bool {
    t.wf() && t.source@ == src && python_tree(src) == Some(t@)
}

pub open spec fn nodes_ok_prefix(nodes: Seq<SyntaxNode>, source_len: nat, n: int) -> bool {
    forall|i: int|
        0 <= i < n ==> {
            let node = #[trigger] nodes[i];
            &&& node.start <= node.end <= source_len
            &&& node.row < usize::MAX && node.column < usize::MAX
            &&& (node.parent matches Some(p) ==> p < i)
            &&& forall|k: int|
                0 <= k < node.children@.len() ==> i < #[trigger] node.children@[k] < n
                    && nodes[node.children@[k] as int].parent == Some(i as usize)
        }
}

/// Copies the tree that `tree-sitter` built for `source` into a `SyntaxTree`:
/// exactly `spec_build_tree`, which is `None` where a node's byte range does
/// not fit the text.
pub fn build_tree(source: &str, ts_tree: &TsTree) -> (r: Option<SyntaxTree>)
    requires
        ts_tree.source() == source@,
    ensures
        r is Some <==> spec_build_tree(source@) is Some,
        r matches Some(t) ==> t.wf() && t.source@ == source@ && spec_build_tree(source@) == Some(t@),
{
    let chars = chars_of(source);
    let table = char_index_table(&chars);
    let root = root_node(ts_tree);
    let total = descendant_count(&root);
    let ghost src = source@;
    let ghost root_pend = PendView { path: seq![], parent: None, field: None };
    let ghost result = build_run(src, table@, total, seq![], seq![root_pend], total as nat);
    assert(spec_build_tree(src) == match result {
        Some(ns) => if ns.len() == 0 {
            None
        } else {
            Some(TreeView { source: src, nodes: ns })
        },
        None => None,
    });
    let mut nodes: Vec<SyntaxNode> = Vec::new();
    let mut stack: Vec<Pending> = Vec::new();
    stack.push(Pending { node: root, parent: None, field: None });
    proof {
        assert(nodes_view(nodes@) =~= Seq::<NodeView>::empty());
        assert(stack_view(stack@) =~= seq![root_pend]);
    }
    while stack.len() > 0
        invariant
            chars@ == src,
            src == source@,
            spec_build_tree(src) == match result {
                Some(ns) => if ns.len() == 0 {
                    None
                } else {
                    Some(TreeView { source: src, nodes: ns })
                },
                None => None,
            },
            table@ == char_table(src),
            total == ts_descendant_count(src, seq![]),
            forall|b: int| 0 <= b < table@.len() ==> table@[b] <= chars@.len(),
            nodes_ok_prefix(nodes@, chars@.len(), nodes@.len() as int),
            forall|s: int|
                0 <= s < stack@.len() ==> (#[trigger] stack@[s].parent matches Some(p) ==> p
                    < nodes@.len()),
            forall|s: int| 0 <= s < stack@.len() ==> (#[trigger] stack@[s]).node.source() == src,
            nodes@.len() == 0 ==> stack@.len() == 1 && stack@[0].parent is None,
            nodes@.len() > 0 ==> nodes@[0].parent is None,
            nodes@.len() <= total,
            result == build_run(
                src,
                table@,
                total,
                nodes_view(nodes@),
                stack_view(stack@),
                (total - nodes@.len()) as nat,
            ),
        decreases total - nodes@.len(),
    {
        if nodes.len() >= total {
            assert(result is None);
            return None;
        }
        let ghost nv0 = nodes_view(nodes@);
        let ghost sv0 = stack_view(stack@);
        let ghost p0 = sv0.last();
        let pending = match stack.pop() {
            Some(p) => p,
            None => {
                return None;
            },
        };
        proof {
            assert(pend_view(pending) == p0);
            assert(stack_view(stack@) =~= sv0.drop_last());
        }
        let index = nodes.len();
        let start_byte = node_start_byte(&pending.node);
        let end_byte = node_end_byte(&pending.node);
        if start_byte > end_byte || end_byte >= table.len() {
            proof {
                assert(new_node(src, table@, p0) is None);
                assert(build_step(src, table@, nv0, sv0) is None);
                assert(result is None);
            }
            return None;
        }
        let start = table[start_byte];
        let end = table[end_byte];
        let (row, column) = node_start_position(&pending.node);
        if start > end || row == usize::MAX || column == usize::MAX {
            proof {
                assert(new_node(src, table@, p0) is None);
                assert(build_step(src, table@, nv0, sv0) is None);
                assert(result is None);
            }
            return None;
        }
        let node = SyntaxNode {
            kind: node_kind(&pending.node),
            named: node_is_named(&pending.node),
            is_error: node_is_error(&pending.node) || node_is_missing(&pending.node),
            field: pending.field,
            parent: pending.parent,
            children: Vec::new(),
            start,
            end,
            start_byte,
            end_byte,
            row,
            column,
        };
        let ghost n_view = new_node(src, table@, p0)->0;
        assert(node@ == n_view);
        nodes.push(node);
        proof {
            assert(nodes_view(nodes@) =~= nv0.push(n_view));
        }
        match pending.parent {
            Some(p) => {
                let ghost mid = nodes@;
                nodes[p].children.push(index);
                proof {
                    assert forall|i: int| 0 <= i < nodes@.len() && i != p implies nodes@[i] == mid[i] by {}
                    assert(nodes@[p as int]@ == with_child(mid[p as int]@, index));
                    assert(nodes_view(nodes@) =~= add_child(nv0.push(n_view), Some(p), index));
                }
            },
            None => {
                assert(nodes_view(nodes@) =~= add_child(nv0.push(n_view), None, index));
            },
        }
        let count = node_child_count(&pending.node);
        let ghost base = stack_view(stack@);
        let mut i = count;
        proof {
            assert(stack_view(stack@) =~= base + child_pends(src, p0.path, index, count as int, count as int));
        }
        while i > 0
            invariant
                i <= count,
                count <= u32::MAX,
                count == ts_child_count(src, p0.path),
                pending.node.source() == src,
                pending.node.path() == p0.path,
                nodes_ok_prefix(nodes@, chars@.len(), nodes@.len() as int),
                forall|s: int|
                    0 <= s < stack@.len() ==> (#[trigger] stack@[s].parent matches Some(p) ==> p
                        < nodes@.len()),
                forall|s: int| 0 <= s < stack@.len() ==> (#[trigger] stack@[s]).node.source() == src,
                index < nodes@.len(),
                index == nv0.len(),
                stack_view(stack@) == base + child_pends(src, p0.path, index, i as int, count as int),
            decreases i,
        {
            i = i - 1;
            let ghost before = stack_view(stack@);
            match node_child(&pending.node, i) {
                Some(child) => {
                    let field = node_field_name_for_child(&pending.node, i);
                    let ghost pv = PendView { path: p0.path.push(i), parent: Some(index), field: opt_chars(field) };
                    stack.push(Pending { node: child, parent: Some(index), field });
                    proof {
                        assert(stack_view(stack@) =~= before.push(pv));
                        assert(stack_view(stack@) =~= base + child_pends(src, p0.path, index, i as int, count as int));
                    }
                },
                None => {
                    assert(stack_view(stack@) =~= base + child_pends(src, p0.path, index, i as int, count as int));
                },
            }
        }
        proof {
            assert(build_step(src, table@, nv0, sv0) == Some((nodes_view(nodes@), stack_view(stack@))));
        }
    }
    if nodes.len() == 0 {
        return None;
    }
    let tree = SyntaxTree { source: chars, nodes };
    assert forall|i: int| 0 <= i < tree.nodes@.len() implies #[trigger] tree.node_ok(i) by {
        let n = tree.nodes@[i];
        assert(nodes_ok_prefix(tree.nodes@, chars@.len(), tree.nodes@.len() as int));
    }
    Some(tree)
}
} // verus!
