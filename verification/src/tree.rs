use vstd::prelude::*;

use crate::value::{
    entry_views, lemma_entry_vheight, lemma_entry_views, lemma_seq_vheight, lemma_seq_views,
    seq_views, vheight, Value, ValueV,
};

verus! {

/// One node of the navigable tree: a display key, the value it wraps, the
/// children built once from that value, the expand flag, and the
/// indentation depth (distance from the root).
#[derive(Debug, PartialEq)]
pub struct TreeNode {
    pub key: String,
    pub value: Value,
    pub children: Vec<TreeNode>,
    pub expanded: bool,
    pub depth: usize,
}

/// The mathematical model of a `TreeNode`.
#[verifier::ext_equal]
pub struct NodeV {
    pub key: Seq<char>,
    pub value: ValueV,
    pub children: Seq<NodeV>,
    pub expanded: bool,
    pub depth: nat,
}

/// Views of a sequence of nodes.
pub open spec fn node_views(nodes: Seq<TreeNode>) -> Seq<NodeV>
    decreases nodes, 0int,
{
    if nodes.len() == 0 {
        Seq::empty()
    } else {
        node_views(nodes.drop_last()).push(nodes.last()@)
    }
}

impl View for TreeNode {
    type V = NodeV;

    open spec fn view(&self) -> NodeV
        decreases self, 1int,
    {
        NodeV {
            key: self.key@,
            value: self.value@,
            children: node_views(self.children@),
            expanded: self.expanded,
            depth: self.depth as nat,
        }
    }
}

pub proof fn lemma_node_views(nodes: Seq<TreeNode>)
    ensures
        node_views(nodes).len() == nodes.len(),
        forall|i: int| 0 <= i < nodes.len() ==> node_views(nodes)[i] == (#[trigger] nodes[i])@,
    decreases nodes.len(),
{
    if nodes.len() > 0 {
        lemma_node_views(nodes.drop_last());
        assert(node_views(nodes) == node_views(nodes.drop_last()).push(nodes.last()@));
        assert forall|i: int| 0 <= i < nodes.len() implies node_views(nodes)[i]
            == (#[trigger] nodes[i])@ by {
            if i < nodes.len() - 1 {
                assert(nodes.drop_last()[i] == nodes[i]);
                assert(node_views(nodes)[i] == node_views(nodes.drop_last())[i]);
            } else {
                assert(node_views(nodes)[i] == nodes.last()@);
            }
        }
    }
}

/// The character of a single decimal digit.
pub open spec fn digit_char(d: nat) -> char {
    ((d + 48) as u8) as char
}

/// The decimal digits of `n`, most significant first.
pub open spec fn dec_digits(n: nat) -> Seq<char>
    decreases n,
{
    if n < 10 {
        seq![digit_char(n)]
    } else {
        dec_digits(n / 10).push(digit_char(n % 10))
    }
}

/// The display key of the sequence element at index `i`: its index in
/// brackets.
pub open spec fn spec_index_key(i: nat) -> Seq<char> {
    seq!['['] + dec_digits(i) + seq![']']
}

/// Relies on the standard library's `Display` implementation for `usize`
/// (via `format!`), which renders the value as its decimal digits.
#[verifier::external_body]
fn index_key(i: usize) -> (r: String)
    ensures
        r@ == spec_index_key(i as nat),
{
    format!("[{}]", i)
}

/// The node built for `v` under `key` at `depth`: it wraps `v`, starts
/// collapsed, and has one child per mapping entry or sequence element (in
/// order) and exactly one child for a tagged wrapper.
pub open spec fn spec_build(key: Seq<char>, v: ValueV, depth: nat) -> NodeV
    decreases v, 3int,
{
    NodeV {
        key,
        value: v,
        children: spec_build_children(v, (depth + 1) as nat),
        expanded: false,
        depth,
    }
}

pub open spec fn spec_build_children(v: ValueV, depth: nat) -> Seq<NodeV>
    decreases v, 2int,
{
    match v {
        ValueV::Mapping(entries) => spec_build_entries(entries, depth),
        ValueV::Sequence(items) => spec_build_items(items, depth),
        ValueV::Tagged(_, inner) => seq![spec_build("tagged"@, *inner, depth)],
        _ => Seq::empty(),
    }
}

pub open spec fn spec_build_entries(entries: Seq<(Seq<char>, ValueV)>, depth: nat) -> Seq<NodeV>
    decreases entries, 0int,
{
    if entries.len() == 0 {
        Seq::empty()
    } else {
        spec_build_entries(entries.drop_last(), depth).push(
            spec_build(entries.last().0, entries.last().1, depth),
        )
    }
}

pub open spec fn spec_build_items(items: Seq<ValueV>, depth: nat) -> Seq<NodeV>
    decreases items, 0int,
{
    if items.len() == 0 {
        Seq::empty()
    } else {
        spec_build_items(items.drop_last(), depth).push(
            spec_build(spec_index_key((items.len() - 1) as nat), items.last(), depth),
        )
    }
}

pub proof fn lemma_spec_build_entries(entries: Seq<(Seq<char>, ValueV)>, depth: nat)
    ensures
        spec_build_entries(entries, depth).len() == entries.len(),
        forall|i: int| 0 <= i < entries.len() ==> spec_build_entries(entries, depth)[i]
            == spec_build((#[trigger] entries[i]).0, entries[i].1, depth),
    decreases entries.len(),
{
    if entries.len() > 0 {
        lemma_spec_build_entries(entries.drop_last(), depth);
        assert(spec_build_entries(entries, depth) == spec_build_entries(
            entries.drop_last(),
            depth,
        ).push(spec_build(entries.last().0, entries.last().1, depth)));
        assert forall|i: int| 0 <= i < entries.len() implies spec_build_entries(entries, depth)[i]
            == spec_build((#[trigger] entries[i]).0, entries[i].1, depth) by {
            if i < entries.len() - 1 {
                assert(entries.drop_last()[i] == entries[i]);
            }
        }
    }
}

pub proof fn lemma_spec_build_items(items: Seq<ValueV>, depth: nat)
    ensures
        spec_build_items(items, depth).len() == items.len(),
        forall|i: int| 0 <= i < items.len() ==> spec_build_items(items, depth)[i]
            == spec_build(spec_index_key(i as nat), #[trigger] items[i], depth),
    decreases items.len(),
{
    if items.len() > 0 {
        lemma_spec_build_items(items.drop_last(), depth);
        assert(spec_build_items(items, depth) == spec_build_items(items.drop_last(), depth).push(
            spec_build(spec_index_key((items.len() - 1) as nat), items.last(), depth),
        ));
        assert forall|i: int| 0 <= i < items.len() implies spec_build_items(items, depth)[i]
            == spec_build(spec_index_key(i as nat), #[trigger] items[i], depth) by {
            if i < items.len() - 1 {
                assert(items.drop_last()[i] == items[i]);
            }
        }
    }
}

impl TreeNode {
    /// Builds the node for `value` under display key `key` at `depth`,
    /// recursing into sequence, mapping and tagged values. Every
    /// constructed node starts collapsed.
    #[verifier::loop_isolation(false)]
    pub fn new(key: String, value: Value, depth: usize) -> (r: TreeNode)
        requires
            depth + vheight(value@) <= usize::MAX,
        ensures
            r@ == spec_build(key@, value@, depth as nat),
        decreases vheight(value@),
    {
        let mut children: Vec<TreeNode> = Vec::new();
        match &value {
            Value::Mapping(entries) => {
                let ghost evs = entry_views(entries@);
                proof {
                    lemma_entry_views(entries@);
                    lemma_spec_build_entries(evs, (depth + 1) as nat);
                }
                let n = entries.len();
                let mut j: usize = 0;
                while j < n
                    invariant
                        j <= n,
                        children@.len() == j,
                        forall|t: int| 0 <= t < j ==> (#[trigger] children@[t])@
                            == spec_build_entries(evs, (depth + 1) as nat)[t],
                    decreases n - j,
                {
                    proof {
                        assert(value == Value::Mapping(*entries));
                        assert(decreases_to!(value => *entries));
                        assert(decreases_to!(entries => entries@[j as int]));
                        assert(decreases_to!(entries@[j as int] => entries@[j as int].1));
                        lemma_entry_vheight(evs, j as int);
                        assert(evs[j as int] == (entries@[j as int].0@, entries@[j as int].1@));
                    }
                    let e = &entries[j];
                    let child = TreeNode::new(e.0.clone(), e.1.clone(), depth + 1);
                    children.push(child);
                    j += 1;
                }
                proof {
                    lemma_node_views(children@);
                    let d1 = (depth + 1) as nat;
                    assert forall|t: int| 0 <= t < children@.len() implies node_views(children@)[t]
                        == spec_build_entries(evs, d1)[t] by {
                        assert(children@[t]@ == spec_build_entries(evs, d1)[t]);
                    }
                    assert(node_views(children@) =~= spec_build_entries(evs, d1));
                    assert(value@ == ValueV::Mapping(evs));
                    assert(node_views(children@) == spec_build_children(value@, d1));
                }
            },
            Value::Sequence(items) => {
                let ghost ivs = seq_views(items@);
                proof {
                    lemma_seq_views(items@);
                    lemma_spec_build_items(ivs, (depth + 1) as nat);
                }
                let n = items.len();
                let mut j: usize = 0;
                while j < n
                    invariant
                        j <= n,
                        children@.len() == j,
                        forall|t: int| 0 <= t < j ==> (#[trigger] children@[t])@
                            == spec_build_items(ivs, (depth + 1) as nat)[t],
                    decreases n - j,
                {
                    proof {
                        assert(value == Value::Sequence(*items));
                        assert(decreases_to!(value => *items));
                        assert(decreases_to!(items => items@[j as int]));
                        lemma_seq_vheight(ivs, j as int);
                        assert(ivs[j as int] == items@[j as int]@);
                    }
                    let k = index_key(j);
                    let child = TreeNode::new(k, items[j].clone(), depth + 1);
                    children.push(child);
                    j += 1;
                }
                proof {
                    lemma_node_views(children@);
                    let d1 = (depth + 1) as nat;
                    assert forall|t: int| 0 <= t < children@.len() implies node_views(children@)[t]
                        == spec_build_items(ivs, d1)[t] by {
                        assert(children@[t]@ == spec_build_items(ivs, d1)[t]);
                    }
                    assert(node_views(children@) =~= spec_build_items(ivs, d1));
                    assert(value@ == ValueV::Sequence(ivs));
                    assert(node_views(children@) == spec_build_children(value@, d1));
                }
            },
            Value::Tagged(_, inner) => {
                proof {
                    assert(decreases_to!(value => **inner));
                }
                let child = TreeNode::new("tagged".to_owned(), (**inner).clone(), depth + 1);
                children.push(child);
                proof {
                    lemma_node_views(children@);
                    let d1 = (depth + 1) as nat;
                    assert(node_views(children@) =~= seq![child@]);
                    assert(node_views(children@) == spec_build_children(value@, d1));
                }
            },
            _ => {
                proof {
                    assert(node_views(children@) =~= spec_build_children(
                        value@,
                        (depth + 1) as nat,
                    ));
                }
            },
        }
        let r = TreeNode { key, value, children, expanded: false, depth };
        proof {
            assert(r@ =~= spec_build(key@, value@, depth as nat));
        }
        r
    }
}

/// The tree for a whole document: the document's value wrapped under the
/// synthetic root node, the only node that starts expanded, so the top
/// level is visible on first render.
pub open spec fn spec_tree(v: ValueV) -> NodeV {
    NodeV { expanded: true, ..spec_build("root"@, v, 0) }
}

pub fn build_tree(value: Value) -> (r: TreeNode)
    requires
        vheight(value@) <= usize::MAX,
    ensures
        r@ == spec_tree(value@),
{
    let mut root = TreeNode::new("root".to_owned(), value, 0);
    root.expanded = true;
    proof {
        assert(root@ =~= spec_tree(root.value@));
    }
    root
}

/// The flattened view of a node: the node itself first, followed, when it
/// is expanded, by the row block of each child in order.
pub open spec fn spec_flatten(n: NodeV) -> Seq<NodeV>
    decreases n, 1int,
{
    seq![n] + if n.expanded {
        spec_flatten_kids(n.children)
    } else {
        Seq::<NodeV>::empty()
    }
}

/// The rows a child contributes: an expanded container child contributes
/// its whole flattened subtree; every other child (scalar, tagged, or
/// collapsed container) contributes a single summary row.
pub open spec fn spec_row_block(c: NodeV) -> Seq<NodeV>
    decreases c, 2int,
{
    if c.value.is_container() && c.expanded {
        spec_flatten(c)
    } else {
        seq![c]
    }
}

pub open spec fn spec_flatten_kids(kids: Seq<NodeV>) -> Seq<NodeV>
    decreases kids, 0int,
{
    if kids.len() == 0 {
        Seq::empty()
    } else {
        spec_flatten_kids(kids.drop_last()) + spec_row_block(kids.last())
    }
}

/// Every flattened view starts with the node itself, so it is never empty.
pub proof fn lemma_flatten_nonempty(n: NodeV)
    ensures
        spec_flatten(n).len() >= 1,
        spec_flatten(n)[0] == n,
{
}

pub proof fn lemma_flatten_kids_take(kids: Seq<NodeV>, j: int)
    requires
        0 <= j < kids.len(),
    ensures
        spec_flatten_kids(kids.take(j + 1)) == spec_flatten_kids(kids.take(j)) + spec_row_block(
            kids[j],
        ),
{
    let pre = kids.take(j + 1);
    assert(pre.drop_last() =~= kids.take(j));
    assert(pre.last() == kids[j]);
    assert(spec_flatten_kids(pre) == spec_flatten_kids(pre.drop_last()) + spec_row_block(
        pre.last(),
    ));
}

impl TreeNode {
    /// Whether this node's value is a container (sequence or mapping).
    pub fn is_container(&self) -> (r: bool)
        ensures
            r == self@.value.is_container(),
    {
        self.value.is_container()
    }

    /// The ordered list of currently visible rows, as references into this
    /// tree, in depth-first order. Re-running it after a toggle is the sole
    /// mechanism that keeps the view consistent with the expand flags.
    #[verifier::loop_isolation(false)]
    pub fn flatten(&self) -> (r: Vec<&TreeNode>)
        ensures
            r@.len() == spec_flatten(self@).len(),
            forall|i: int| 0 <= i < r@.len() ==> (#[trigger] r@[i])@ == spec_flatten(self@)[i],
        decreases self,
    {
        let mut r: Vec<&TreeNode> = Vec::new();
        r.push(self);
        if !self.expanded {
            proof {
                assert(spec_flatten(self@) =~= seq![self@]);
            }
            return r;
        }
        let ghost cs = self@.children;
        proof {
            lemma_node_views(self.children@);
        }
        let n = self.children.len();
        let mut j: usize = 0;
        while j < n
            invariant
                j <= n,
                r@.len() == 1 + spec_flatten_kids(cs.take(j as int)).len(),
                r@[0] == self,
                forall|i: int| 0 < i < r@.len() ==> (#[trigger] r@[i])@ == spec_flatten_kids(
                    cs.take(j as int),
                )[i - 1],
            decreases n - j,
        {
            proof {
                assert(decreases_to!(*self => self.children));
                assert(decreases_to!(self.children => self.children@[j as int]));
                lemma_flatten_kids_take(cs, j as int);
                assert(cs[j as int] == self.children@[j as int]@);
            }
            let child = &self.children[j];
            if child.is_container() && child.expanded {
                let mut sub = child.flatten();
                r.append(&mut sub);
            } else {
                r.push(child);
            }
            j += 1;
        }
        proof {
            assert(cs.take(n as int) =~= cs);
            assert(spec_flatten(self@) =~= seq![self@] + spec_flatten_kids(cs));
            assert forall|i: int| 0 <= i < r@.len() implies (#[trigger] r@[i])@ == spec_flatten(
                self@,
            )[i] by {
                if i == 0 {
                    assert(r@[0]@ == self@);
                } else {
                    assert(r@[i]@ == spec_flatten_kids(cs)[i - 1]);
                }
            }
        }
        r
    }
}

/// A node that is not expanded flattens to exactly the one row that shows
/// it. In particular a freshly built tree, whose root has not yet been
/// forced open, flattens to a single row whatever the document was.
pub proof fn lemma_collapsed_single_row(n: NodeV)
    requires
        !n.expanded,
    ensures
        spec_flatten(n) == seq![n],
{
    assert(spec_flatten(n) =~= seq![n]);
}

/// The tree built for any document value flattens, before the root is
/// forced open, to exactly one row.
pub proof fn lemma_built_single_row(key: Seq<char>, v: ValueV, depth: nat)
    ensures
        spec_flatten(spec_build(key, v, depth)) == seq![spec_build(key, v, depth)],
{
    lemma_collapsed_single_row(spec_build(key, v, depth));
}

/// A node with no children flattens to a single row whatever its expand
/// flag: there is nothing to reveal.
pub proof fn lemma_childless_single_row(n: NodeV)
    requires
        n.children.len() == 0,
    ensures
        spec_flatten(n) == seq![n],
{
    assert(spec_flatten_kids(n.children) =~= Seq::<NodeV>::empty());
    assert(spec_flatten(n) =~= seq![n]);
}

/// Flattening is a pure function of the tree: with no intervening
/// mutation, two runs yield the same rows in the same order.
pub proof fn lemma_flatten_repeatable(n: NodeV, a: Seq<NodeV>, b: Seq<NodeV>)
    requires
        a == spec_flatten(n),
        b == spec_flatten(n),
    ensures
        a == b,
{
}

} // verus!
