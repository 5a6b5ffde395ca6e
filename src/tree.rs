//! Tree rendering of a store: one node per distinct context path that holds data
//! or is an ancestor of one, in order of first appearance; the root is the header
//! line, every other node a branch line labelled by its last segment, followed by
//! its own `key: value` lines and then its children.
use vstd::prelude::*;

use crate::assoc::assoc_map;
use crate::path::{path_text, ContextPath};

verus! {

/// `c` is a child path of `q`: one segment longer, with `q` as prefix.
pub open spec fn is_child(c: Seq<Seq<char>>, q: Seq<Seq<char>>) -> bool {
    c.len() == q.len() + 1 && c.take(q.len() as int) == q
}

/// Some node after position `j` is a child of `q`.
pub open spec fn has_later_child(nodes: Seq<Seq<Seq<char>>>, q: Seq<Seq<char>>, j: int) -> bool {
    exists|k: int| j < k < nodes.len() && is_child(#[trigger] nodes[k], q)
}

/// `nodes` with `q` added, unless already there.
pub open spec fn add_node(nodes: Seq<Seq<Seq<char>>>, q: Seq<Seq<char>>) -> Seq<Seq<Seq<char>>> {
    if nodes.contains(q) {
        nodes
    } else {
        nodes.push(q)
    }
}

/// `nodes` with the first `n` ancestors of `p` added, root first.
pub open spec fn add_prefixes(nodes: Seq<Seq<Seq<char>>>, p: Seq<Seq<char>>, n: nat) -> Seq<
    Seq<Seq<char>>,
>
    decreases n,
{
    if n == 0 {
        nodes
    } else {
        add_node(add_prefixes(nodes, p, (n - 1) as nat), p.take(n - 1))
    }
}

/// The node paths for the first `i` context paths of `paths`, in order of first appearance.
pub open spec fn tree_nodes(paths: Seq<Seq<Seq<char>>>, i: nat) -> Seq<Seq<Seq<char>>>
    decreases i,
{
    if i == 0 {
        Seq::empty()
    } else {
        let p = paths[i - 1];
        add_prefixes(tree_nodes(paths, (i - 1) as nat), p, p.len() + 1)
    }
}

/// The corner glyph for a last item, the tee glyph otherwise.
pub open spec fn branch_glyph(last: bool) -> Seq<char> {
    if last {
        seq!['\u{2514}', '\u{2500}']
    } else {
        seq!['\u{251C}', '\u{2500}']
    }
}

/// The indent below a last item (blank) or below another one (a vertical bar).
pub open spec fn indent_glyph(last: bool) -> Seq<char> {
    if last {
        seq![' ', ' ']
    } else {
        seq!['\u{2502}', ' ']
    }
}

/// The first `n` `key: value` lines of a node; the very last line of a node
/// without children takes the corner glyph.
pub open spec fn data_lines(
    entries: Seq<(Seq<char>, Seq<char>)>,
    prefix: Seq<char>,
    has_children: bool,
    n: nat,
) -> Seq<char>
    decreases n,
{
    if n == 0 {
        Seq::empty()
    } else {
        let i = n - 1;
        let last = i == entries.len() - 1 && !has_children;
        data_lines(entries, prefix, has_children, (n - 1) as nat) + prefix + branch_glyph(last)
            + entries[i].0 + seq![':', ' '] + entries[i].1 + seq!['\n']
    }
}

/// The entries stored at exactly `q` (none if `q` holds no data).
pub open spec fn entries_at(
    contexts: Seq<(Seq<Seq<char>>, Seq<(Seq<char>, Seq<char>)>)>,
    q: Seq<Seq<char>>,
) -> Seq<(Seq<char>, Seq<char>)> {
    if assoc_map(contexts).contains_key(q) {
        assoc_map(contexts)[q]
    } else {
        Seq::empty()
    }
}

/// The text of node `i` under `prefix`, then of its children; `fuel` bounds the depth.
pub open spec fn node_text(
    nodes: Seq<Seq<Seq<char>>>,
    contexts: Seq<(Seq<Seq<char>>, Seq<(Seq<char>, Seq<char>)>)>,
    i: int,
    prefix: Seq<char>,
    fuel: nat,
) -> Seq<char>
    decreases fuel, 0nat,
{
    if fuel == 0 || !(0 <= i < nodes.len()) {
        Seq::empty()
    } else {
        let q = nodes[i];
        let last = !has_later_child(nodes, q.drop_last(), i);
        let head = if q.len() == 0 {
            path_text(q) + seq!['\n']
        } else {
            branch_glyph(last) + q.last() + seq!['\n']
        };
        let inner = if q.len() == 0 {
            prefix
        } else {
            prefix + indent_glyph(last)
        };
        let entries = entries_at(contexts, q);
        let has_children = has_later_child(nodes, q, -1);
        head + data_lines(entries, inner, has_children, entries.len()) + children_text(
            nodes,
            contexts,
            i,
            inner,
            (fuel - 1) as nat,
            nodes.len(),
        )
    }
}

/// The texts of the children of node `i` among the first `j` nodes, each preceded by `prefix`.
pub open spec fn children_text(
    nodes: Seq<Seq<Seq<char>>>,
    contexts: Seq<(Seq<Seq<char>>, Seq<(Seq<char>, Seq<char>)>)>,
    i: int,
    prefix: Seq<char>,
    fuel: nat,
    j: nat,
) -> Seq<char>
    decreases fuel, j + 1,
{
    if j == 0 || !(0 <= i < nodes.len()) {
        Seq::empty()
    } else {
        let k = j - 1;
        let rest = children_text(nodes, contexts, i, prefix, fuel, (j - 1) as nat);
        if k < nodes.len() && is_child(nodes[k], nodes[i]) {
            rest + prefix + node_text(nodes, contexts, k, prefix, fuel)
        } else {
            rest
        }
    }
}

/// The rendering of a store given as its contexts in order, each with its entries
/// (key and shown value) in order. An empty store renders as nothing.
pub open spec fn tree_text(contexts: Seq<(Seq<Seq<char>>, Seq<(Seq<char>, Seq<char>)>)>) -> Seq<
    char,
> {
    let nodes = tree_nodes(contexts.map_values(|c: (Seq<Seq<char>>, Seq<(Seq<char>, Seq<char>)>)| c.0), contexts.len());
    if nodes.len() == 0 {
        Seq::empty()
    } else {
        node_text(nodes, contexts, 0, Seq::empty(), nodes.len())
    }
}

/// One node of the tree: its index, its path, and the index of its parent.
#[derive(Debug)]
pub struct Node {
    pub(crate) idx: usize,
    pub(crate) value: ContextPath,
    pub(crate) parent: Option<usize>,
}

impl Node {
    fn new(idx: usize, value: ContextPath) -> (r: Self)
        ensures
            r.idx == idx,
            r.value@ == value@,
            r.parent.is_none(),
    {
        Node { idx, value, parent: None }
    }
}

/// Nodes kept in a growable array, each path at most once.
#[derive(Debug)]
pub struct ArenaTree {
    pub(crate) arena: Vec<Node>,
}

impl ArenaTree {
    /// The node paths, in order.
    pub(crate) closed spec fn paths(&self) -> Seq<Seq<Seq<char>>> {
        self.arena@.map_values(|n: Node| n.value@)
    }

    /// Each node knows its index; a parent comes earlier and holds the path minus its
    /// last segment.
    pub(crate) closed spec fn wf(&self) -> bool {
        forall|i: int|
            0 <= i < self.arena@.len() ==> {
                &&& (#[trigger] self.arena@[i]).idx == i
                &&& match self.arena@[i].parent {
                    Some(j) => j < i && self.arena@[i].value@.len() > 0 && self.arena@[j as int].value@
                        == self.arena@[i].value@.drop_last(),
                    None => true,
                }
            }
    }

    /// Every node without a parent is the root.
    pub(crate) closed spec fn rooted(&self) -> bool {
        forall|i: int|
            0 <= i < self.arena@.len() && (#[trigger] self.arena@[i]).parent.is_none()
                ==> self.arena@[i].value@.len() == 0
    }

    pub(crate) fn new() -> (r: Self)
        ensures
            r.wf(),
            r.rooted(),
            r.paths() == Seq::<Seq<Seq<char>>>::empty(),
    {
        let r = ArenaTree { arena: Vec::new() };
        proof {
            assert(r.paths() =~= Seq::<Seq<Seq<char>>>::empty());
        }
        r
    }

    /// The index of the node for `value`, created if there is none yet.
    pub(crate) fn node(&mut self, value: ContextPath) -> (r: usize)
        requires
            old(self).wf(),
        ensures
            final(self).wf(),
            final(self).paths() == add_node(old(self).paths(), value@),
            r < final(self).paths().len(),
            final(self).paths()[r as int] == value@,
            forall|i: int|
                0 <= i < old(self).arena@.len() ==> #[trigger] final(self).arena@[i] == old(
                    self,
                ).arena@[i],
            old(self).paths().contains(value@) ==> final(self).arena@ == old(self).arena@,
            !old(self).paths().contains(value@) ==> r == old(self).arena@.len()
                && final(self).arena@[r as int].parent.is_none(),
    {
        let mut i: usize = 0;
        while i < self.arena.len()
            invariant
                self.wf(),
                i <= self.arena@.len(),
                forall|j: int| 0 <= j < i ==> self.arena@[j].value@ != value@,
            decreases self.arena@.len() - i,
        {
            if self.arena[i].value.same_as(&value) {
                proof {
                    assert(self.paths()[i as int] == value@);
                }
                return i;
            }
            i = i + 1;
        }
        proof {
            if self.paths().contains(value@) {
                let j = choose|j: int| 0 <= j < self.paths().len() && self.paths()[j] == value@;
                assert(self.arena@[j].value@ == value@);
            }
        }
        let index = self.arena.len();
        let ghost a0 = self.arena@;
        let ghost v = value@;
        self.arena.push(Node::new(index, value));
        proof {
            assert(self.paths() =~= a0.map_values(|n: Node| n.value@).push(v));
            assert forall|j: int| 0 <= j < self.arena@.len() implies {
                &&& (#[trigger] self.arena@[j]).idx == j
                &&& match self.arena@[j].parent {
                    Some(p) => p < j && self.arena@[j].value@.len() > 0 && self.arena@[p as int].value@
                        == self.arena@[j].value@.drop_last(),
                    None => true,
                }
            } by {
                if j < a0.len() {
                    assert(self.arena@[j] == a0[j]);
                    if let Some(p) = a0[j].parent {
                        assert(self.arena@[p as int] == a0[p as int]);
                    }
                }
            }
        }
        index
    }

    /// The number of parent links from node `index` up to a node without parent.
    pub(crate) fn get_depth(&self, index: usize) -> (r: usize)
        requires
            self.wf(),
            self.rooted(),
            index < self.paths().len(),
        ensures
            r == self.paths()[index as int].len(),
    {
        proof {
            assert(self.paths().len() == self.arena@.len());
        }
        let mut depth: usize = 0;
        let mut current: usize = index;
        let mut parent = self.arena[index].parent;
        while parent.is_some()
            invariant
                self.wf(),
                self.rooted(),
                current < self.arena@.len(),
                current <= index,
                depth + current <= index,
                parent == self.arena@[current as int].parent,
                depth + self.arena@[current as int].value@.len() == self.arena@[index as int].value@.len(),
            decreases current,
        {
            let parent_index = parent.unwrap();
            depth = depth + 1;
            current = parent_index;
            parent = self.arena[parent_index].parent;
        }
        proof {
            assert(self.paths()[index as int] == self.arena@[index as int].value@);
        }
        depth
    }
}

/// The glyph of `branch_glyph`.
pub(crate) fn branch(last: bool) -> (r: &'static str)
    ensures
        r@ == branch_glyph(last),
{
    if last {
        proof {
            reveal_strlit("\u{2514}\u{2500}");
        }
        "\u{2514}\u{2500}"
    } else {
        proof {
            reveal_strlit("\u{251C}\u{2500}");
        }
        "\u{251C}\u{2500}"
    }
}

/// The glyph of `indent_glyph`.
pub(crate) fn indent(last: bool) -> (r: &'static str)
    ensures
        r@ == indent_glyph(last),
{
    if last {
        proof {
            reveal_strlit("  ");
        }
        "  "
    } else {
        proof {
            reveal_strlit("\u{2502} ");
        }
        "\u{2502} "
    }
}

/// Whether `c` is a child path of `q`.
pub(crate) fn is_child_path(c: &ContextPath, q: &ContextPath) -> (r: bool)
    ensures
        r == is_child(c@, q@),
{
    c.depth() > 0 && c.depth() - 1 == q.depth() && c.starts_with(q)
}

impl ArenaTree {
    /// The number of nodes.
    pub(crate) fn len(&self) -> (r: usize)
        ensures
            r == self.paths().len(),
    {
        self.arena.len()
    }

    /// The path of node `i`.
    pub(crate) fn path_of(&self, i: usize) -> (r: &ContextPath)
        requires
            i < self.paths().len(),
        ensures
            r@ == self.paths()[i as int],
    {
        &self.arena[i].value
    }

    /// Adds a node for each ancestor of `p` and for `p` itself, root first, unless
    /// one exists; a new node is linked to the node of its parent path.
    pub(crate) fn add_path(&mut self, p: &ContextPath)
        requires
            old(self).wf(),
            old(self).rooted(),
        ensures
            final(self).wf(),
            final(self).rooted(),
            final(self).paths() == add_prefixes(old(self).paths(), p@, p@.len() + 1),
    {
        let ghost base = self.paths();
        let depth = p.depth();
        let mut current = self.node(p.ancestor(0));
        proof {
            assert(add_prefixes(base, p@, 0) == base);
            assert(add_prefixes(base, p@, 1) == add_node(base, p@.take(0)));
            assert(self.paths() == add_prefixes(base, p@, 1));
            assert(p@.take(0).len() == 0);
        }
        let mut m: usize = 0;
        while m < depth
            invariant
                m <= depth,
                depth == p@.len(),
                self.wf(),
                self.rooted(),
                self.paths() == add_prefixes(base, p@, (m + 1) as nat),
                current < self.paths().len(),
                self.paths()[current as int] == p@.take(m as int),
            decreases depth - m,
        {
            let ghost before = self.arena@;
            let ghost old_paths = self.paths();
            let next = self.node(p.ancestor(m + 1));
            proof {
                assert(p@.take(m + 1).len() == m + 1);
                assert(p@.take(m + 1).drop_last() =~= p@.take(m as int));
            }
            if self.arena[next].parent.is_none() {
                proof {
                    if old_paths.contains(p@.take(m + 1)) {
                        assert(self.arena@ == before);
                        assert(self.arena@[next as int].value@ == p@.take(m + 1));
                    }
                }
                let ghost a1 = self.arena@;
                let mut node = self.arena.pop().unwrap();
                node.parent = Some(current);
                self.arena.push(node);
                proof {
                    assert(self.arena@ =~= a1.update(next as int, node));
                    assert(self.paths() =~= a1.map_values(|n: Node| n.value@));
                    assert forall|j: int| 0 <= j < self.arena@.len() implies {
                        &&& (#[trigger] self.arena@[j]).idx == j
                        &&& match self.arena@[j].parent {
                            Some(x) => x < j && self.arena@[j].value@.len() > 0
                                && self.arena@[x as int].value@ == self.arena@[j].value@.drop_last(),
                            None => true,
                        }
                    } by {
                        if j != next {
                            assert(self.arena@[j] == a1[j]);
                            if let Some(x) = a1[j].parent {
                                assert(self.arena@[x as int] == a1[x as int]);
                            }
                        } else {
                            assert(self.arena@[current as int] == a1[current as int]);
                            assert(a1[current as int].value@ == old_paths[current as int]);
                        }
                    }
                    assert forall|j: int|
                        0 <= j < self.arena@.len() && (#[trigger] self.arena@[j]).parent.is_none()
                            implies self.arena@[j].value@.len() == 0 by {
                        assert(j != next);
                        assert(self.arena@[j] == a1[j]);
                        assert(j < before.len());
                        assert(a1[j] == before[j]);
                    }
                }
            } else {
                proof {
                    assert forall|j: int|
                        0 <= j < self.arena@.len() && (#[trigger] self.arena@[j]).parent.is_none()
                            implies self.arena@[j].value@.len() == 0 by {
                        if j < before.len() {
                            assert(self.arena@[j] == before[j]);
                        }
                    }
                }
            }
            proof {
                assert(self.paths()[next as int] == p@.take(m + 1));
            }
            current = next;
            m = m + 1;
        }
    }

    /// Whether a node after position `j` (all nodes when `j` is `None`) is a child of `q`.
    pub(crate) fn has_child_after(&self, q: &ContextPath, j: Option<usize>) -> (r: bool)
        ensures
            r == has_later_child(
                self.paths(),
                q@,
                match j {
                    Some(x) => x as int,
                    None => -1,
                },
            ),
    {
        let mut k: usize = match j {
            Some(x) => x,
            None => 0,
        };
        let ghost start: int = match j {
            Some(x) => x as int,
            None => -1,
        };
        if j.is_some() {
            if k >= self.arena.len() {
                return false;
            }
            k = k + 1;
        }
        while k < self.arena.len()
            invariant
                start < k,
                k <= self.arena@.len(),
                start == match j {
                    Some(x) => x as int,
                    None => -1,
                },
                forall|x: int| start < x < k && x < self.paths().len() ==> !is_child(
                    #[trigger] self.paths()[x],
                    q@,
                ),
            decreases self.arena@.len() - k,
        {
            if is_child_path(&self.arena[k].value, q) {
                proof {
                    assert(self.paths()[k as int] == self.arena@[k as int].value@);
                    assert(is_child(self.paths()[k as int], q@));
                }
                return true;
            }
            proof {
                assert(self.paths()[k as int] == self.arena@[k as int].value@);
            }
            k = k + 1;
        }
        false
    }
}

} // verus!
