use vstd::prelude::*;

use crate::tree::{
    lemma_flatten_kids_take, lemma_flatten_nonempty, lemma_node_views, node_views, spec_flatten,
    spec_flatten_kids, spec_row_block, NodeV, TreeNode,
};

verus! {

/// Whether `p`, read as child indices from the root of `n`, addresses a
/// node of the tree.
pub open spec fn path_valid(n: NodeV, p: Seq<int>) -> bool
    decreases p.len(),
{
    p.len() == 0 || (0 <= p[0] < n.children.len() && path_valid(
        n.children[p[0]],
        p.drop_first(),
    ))
}

/// The node addressed by `p` in `n`.
pub open spec fn node_at(n: NodeV, p: Seq<int>) -> NodeV
    recommends
        path_valid(n, p),
    decreases p.len(),
{
    if p.len() == 0 {
        n
    } else {
        node_at(n.children[p[0]], p.drop_first())
    }
}

/// The tree after flipping the expand flag of the node addressed by `p`.
/// When the walk fails at some step, nothing is changed.
pub open spec fn spec_toggle(n: NodeV, p: Seq<int>) -> NodeV
    decreases p.len(),
{
    if p.len() == 0 {
        NodeV { expanded: !n.expanded, ..n }
    } else if 0 <= p[0] < n.children.len() {
        NodeV {
            children: n.children.update(
                p[0],
                spec_toggle(n.children[p[0]], p.drop_first()),
            ),
            ..n
        }
    } else {
        n
    }
}

/// The address (child-index path from the root) of row `idx` of the
/// flattened view of `n`.
pub open spec fn spec_locate(n: NodeV, idx: int) -> Seq<int>
    recommends
        0 <= idx < spec_flatten(n).len(),
    decreases n, 1int, 0int,
{
    if idx == 0 {
        Seq::empty()
    } else {
        spec_locate_kids(n.children, 0, idx - 1)
    }
}

/// The address of the row at offset `idx` within the row blocks of the
/// children `j`, `j + 1`, ... of `kids`.
pub open spec fn spec_locate_kids(kids: Seq<NodeV>, j: int, idx: int) -> Seq<int>
    decreases kids, 0int, kids.len() - j,
{
    if j < 0 || j >= kids.len() {
        Seq::empty()
    } else {
        let b = spec_row_block(kids[j]);
        if idx < b.len() {
            if kids[j].value.is_container() && kids[j].expanded {
                seq![j] + spec_locate(kids[j], idx)
            } else {
                seq![j]
            }
        } else {
            spec_locate_kids(kids, j + 1, idx - b.len())
        }
    }
}

/// Flattening a concatenation of children concatenates their row blocks.
pub proof fn lemma_flatten_kids_concat(a: Seq<NodeV>, b: Seq<NodeV>)
    ensures
        spec_flatten_kids(a + b) == spec_flatten_kids(a) + spec_flatten_kids(b),
    decreases b.len(),
{
    if b.len() == 0 {
        assert(a + b =~= a);
        assert(spec_flatten_kids(a) + spec_flatten_kids(b) =~= spec_flatten_kids(a));
    } else {
        lemma_flatten_kids_concat(a, b.drop_last());
        assert((a + b).drop_last() =~= a + b.drop_last());
        assert((a + b).len() > 0);
        assert(spec_flatten_kids(a + b) == spec_flatten_kids((a + b).drop_last())
            + spec_row_block((a + b).last()));
        assert((a + b).last() == b.last());
        assert(spec_flatten_kids(b) == spec_flatten_kids(b.drop_last()) + spec_row_block(b.last()));
        assert(spec_flatten_kids(a) + spec_flatten_kids(b) =~= (spec_flatten_kids(a)
            + spec_flatten_kids(b.drop_last())) + spec_row_block(b.last()));
    }
}

/// The rows of a prefix of the children are a prefix of the rows of all of
/// them.
pub proof fn lemma_flatten_kids_prefix_len(kids: Seq<NodeV>, j: int)
    requires
        0 <= j <= kids.len(),
    ensures
        spec_flatten_kids(kids.take(j)).len() <= spec_flatten_kids(kids).len(),
{
    assert(kids =~= kids.take(j) + kids.skip(j));
    lemma_flatten_kids_concat(kids.take(j), kids.skip(j));
}

/// Resolving a row of the flattened view yields the address of exactly
/// that row's node in the tree: the two-phase toggle (derive an address
/// from the view, then re-walk the owned tree) mutates the right place.
pub proof fn lemma_locate_resolves(n: NodeV, idx: int)
    requires
        0 <= idx < spec_flatten(n).len(),
    ensures
        path_valid(n, spec_locate(n, idx)),
        node_at(n, spec_locate(n, idx)) == spec_flatten(n)[idx],
    decreases n, 1int, 0int,
{
    lemma_flatten_nonempty(n);
    if idx > 0 {
        if !n.expanded {
            assert(spec_flatten(n) =~= seq![n]);
        }
        assert(n.expanded);
        assert(spec_flatten(n)[idx] == spec_flatten_kids(n.children)[idx - 1]);
        assert(n.children.skip(0) =~= n.children);
        lemma_locate_kids_resolves(n.children, 0, idx - 1);
        let p = spec_locate_kids(n.children, 0, idx - 1);
        assert(spec_locate(n, idx) == p);
        assert(p.len() >= 1);
        assert(path_valid(n, p));
        assert(node_at(n, p) == node_at(n.children[p[0]], p.drop_first()));
    }
}

proof fn lemma_locate_kids_resolves(kids: Seq<NodeV>, j: int, idx: int)
    requires
        0 <= j <= kids.len(),
        0 <= idx < spec_flatten_kids(kids.skip(j)).len(),
    ensures
        ({
            let p = spec_locate_kids(kids, j, idx);
            &&& p.len() >= 1
            &&& j <= p[0]
            &&& p[0] < kids.len()
            &&& path_valid(kids[p[0]], p.drop_first())
            &&& node_at(kids[p[0]], p.drop_first()) == spec_flatten_kids(kids.skip(j))[idx]
        }),
    decreases kids, 0int, kids.len() - j,
{
    assert(spec_flatten_kids(kids.skip(j)).len() > 0);
    if j == kids.len() {
        assert(kids.skip(j) =~= Seq::<NodeV>::empty());
        assert(spec_flatten_kids(kids.skip(j)).len() == 0);
    }
    assert(j < kids.len());
    assert(kids.skip(j) =~= seq![kids[j]] + kids.skip(j + 1));
    lemma_flatten_kids_concat(seq![kids[j]], kids.skip(j + 1));
    assert(seq![kids[j]].drop_last() =~= Seq::<NodeV>::empty());
    assert(spec_flatten_kids(seq![kids[j]]) == spec_flatten_kids(seq![kids[j]].drop_last())
        + spec_row_block(kids[j]));
    assert(spec_flatten_kids(seq![kids[j]]) =~= spec_row_block(kids[j]));
    let b = spec_row_block(kids[j]);
    assert(spec_flatten_kids(kids.skip(j)) =~= b + spec_flatten_kids(kids.skip(j + 1)));
    if idx < b.len() {
        assert(spec_flatten_kids(kids.skip(j))[idx] == b[idx]);
        if kids[j].value.is_container() && kids[j].expanded {
            assert(b == spec_flatten(kids[j]));
            lemma_locate_resolves(kids[j], idx);
            let q = spec_locate(kids[j], idx);
            let p = spec_locate_kids(kids, j, idx);
            assert(p == seq![j] + q);
            assert(p[0] == j);
            assert(p.drop_first() =~= q);
        } else {
            assert(b =~= seq![kids[j]]);
            assert(idx == 0);
            let p = spec_locate_kids(kids, j, idx);
            assert(p == seq![j]);
            assert(p.drop_first() =~= Seq::<int>::empty());
            assert(node_at(kids[p[0]], p.drop_first()) == kids[j]);
        }
    } else {
        lemma_locate_kids_resolves(kids, j + 1, idx - b.len());
        assert(spec_flatten_kids(kids.skip(j))[idx] == spec_flatten_kids(kids.skip(j + 1))[idx
            - b.len()]);
        assert(spec_locate_kids(kids, j, idx) == spec_locate_kids(kids, j + 1, idx - b.len()));
    }
}

/// Toggling along a valid address flips exactly the addressed node's
/// expand flag.
pub proof fn lemma_toggle_at_path(n: NodeV, p: Seq<int>)
    requires
        path_valid(n, p),
    ensures
        node_at(spec_toggle(n, p), p) == (NodeV {
            expanded: !node_at(n, p).expanded,
            ..node_at(n, p)
        }),
    decreases p.len(),
{
    if p.len() > 0 && 0 <= p[0] < n.children.len() {
        let j = p[0];
        lemma_toggle_at_path(n.children[j], p.drop_first());
        let m = spec_toggle(n, p);
        assert(m.children[j] == spec_toggle(n.children[j], p.drop_first()));
        assert(node_at(m, p) == node_at(m.children[j], p.drop_first()));
    }
}

/// Toggling a node and toggling it again restores the tree, and with it
/// the flattened view: expand/collapse is a true involution.
pub proof fn lemma_toggle_involution(n: NodeV, p: Seq<int>)
    ensures
        spec_toggle(spec_toggle(n, p), p) == n,
        spec_flatten(spec_toggle(spec_toggle(n, p), p)) == spec_flatten(n),
    decreases p.len(),
{
    let m = spec_toggle(n, p);
    if p.len() == 0 {
        assert(spec_toggle(m, p) =~= n);
    } else if 0 <= p[0] < n.children.len() {
        let j = p[0];
        lemma_toggle_involution(n.children[j], p.drop_first());
        assert(m.children[j] == spec_toggle(n.children[j], p.drop_first()));
        assert(m.children.len() == n.children.len());
        assert(spec_toggle(m, p).children =~= n.children);
        assert(spec_toggle(m, p) =~= n);
    }
}

/// Toggling the node under row `idx` does not move that row: the toggled
/// tree still has a row `idx`, it resolves to the same address, and it
/// shows the same node with only its expand flag flipped.
pub proof fn lemma_toggle_keeps_row(n: NodeV, idx: int)
    requires
        0 <= idx < spec_flatten(n).len(),
    ensures
        ({
            let p = spec_locate(n, idx);
            let m = spec_toggle(n, p);
            &&& idx < spec_flatten(m).len()
            &&& spec_locate(m, idx) == p
            &&& spec_flatten(m)[idx] == (NodeV {
                expanded: !spec_flatten(n)[idx].expanded,
                ..spec_flatten(n)[idx]
            })
        }),
    decreases n, 1int, 0int,
{
    let p = spec_locate(n, idx);
    let m = spec_toggle(n, p);
    lemma_flatten_nonempty(n);
    lemma_flatten_nonempty(m);
    if idx == 0 {
        assert(spec_flatten(m)[0] == m);
        assert(spec_flatten(n)[0] == n);
    } else {
        if !n.expanded {
            assert(spec_flatten(n) =~= seq![n]);
        }
        assert(n.expanded);
        assert(n.children.skip(0) =~= n.children);
        lemma_locate_kids_resolves(n.children, 0, idx - 1);
        assert(p == spec_locate_kids(n.children, 0, idx - 1));
        assert(p.len() >= 1 && 0 <= p[0] < n.children.len());
        let kids2 = n.children.update(p[0], spec_toggle(n.children[p[0]], p.drop_first()));
        assert(m == NodeV { children: kids2, ..n });
        lemma_toggle_kids_stable(n.children, 0, idx - 1);
        assert(kids2.skip(0) =~= kids2);
        assert(spec_flatten(m) == seq![m] + spec_flatten_kids(kids2));
        assert(spec_flatten(n)[idx] == spec_flatten_kids(n.children)[idx - 1]);
        assert(spec_flatten(m)[idx] == spec_flatten_kids(kids2)[idx - 1]);
        assert(spec_locate(m, idx) == spec_locate_kids(kids2, 0, idx - 1));
    }
}

proof fn lemma_toggle_kids_stable(kids: Seq<NodeV>, j: int, idx: int)
    requires
        0 <= j <= kids.len(),
        0 <= idx < spec_flatten_kids(kids.skip(j)).len(),
    ensures
        ({
            let p = spec_locate_kids(kids, j, idx);
            let kids2 = kids.update(p[0], spec_toggle(kids[p[0]], p.drop_first()));
            &&& idx < spec_flatten_kids(kids2.skip(j)).len()
            &&& spec_locate_kids(kids2, j, idx) == p
            &&& spec_flatten_kids(kids2.skip(j))[idx] == (NodeV {
                expanded: !spec_flatten_kids(kids.skip(j))[idx].expanded,
                ..spec_flatten_kids(kids.skip(j))[idx]
            })
        }),
    decreases kids, 0int, kids.len() - j,
{
    lemma_locate_kids_resolves(kids, j, idx);
    let p = spec_locate_kids(kids, j, idx);
    let c0 = p[0];
    let kids2 = kids.update(c0, spec_toggle(kids[c0], p.drop_first()));
    assert(j < kids.len());
    assert(kids.skip(j) =~= seq![kids[j]] + kids.skip(j + 1));
    assert(kids2.skip(j) =~= seq![kids2[j]] + kids2.skip(j + 1));
    lemma_flatten_kids_concat(seq![kids[j]], kids.skip(j + 1));
    lemma_flatten_kids_concat(seq![kids2[j]], kids2.skip(j + 1));
    assert(seq![kids[j]].drop_last() =~= Seq::<NodeV>::empty());
    assert(seq![kids2[j]].drop_last() =~= Seq::<NodeV>::empty());
    assert(spec_flatten_kids(seq![kids[j]]) == spec_flatten_kids(seq![kids[j]].drop_last())
        + spec_row_block(kids[j]));
    assert(spec_flatten_kids(seq![kids2[j]]) == spec_flatten_kids(seq![kids2[j]].drop_last())
        + spec_row_block(kids2[j]));
    assert(spec_flatten_kids(seq![kids[j]]) =~= spec_row_block(kids[j]));
    assert(spec_flatten_kids(seq![kids2[j]]) =~= spec_row_block(kids2[j]));
    let b = spec_row_block(kids[j]);
    assert(spec_flatten_kids(kids.skip(j)) =~= b + spec_flatten_kids(kids.skip(j + 1)));
    if idx < b.len() {
        assert(c0 == j);
        assert(kids2.skip(j + 1) =~= kids.skip(j + 1));
        let c = kids[j];
        let c2 = kids2[j];
        let target = spec_flatten_kids(kids.skip(j))[idx];
        assert(target == b[idx]);
        if c.value.is_container() && c.expanded {
            assert(b == spec_flatten(c));
            let rest = spec_locate(c, idx);
            assert(p == seq![j] + rest);
            assert(p.drop_first() =~= rest);
            assert(c2 == spec_toggle(c, rest));
            lemma_flatten_nonempty(c);
            if idx == 0 {
                assert(rest =~= Seq::<int>::empty());
                assert(c2 == NodeV { expanded: !c.expanded, ..c });
                assert(!c2.expanded);
                assert(spec_row_block(c2) == seq![c2]);
                assert(spec_flatten_kids(kids2.skip(j)) =~= seq![c2] + spec_flatten_kids(
                    kids.skip(j + 1),
                ));
                assert(spec_flatten_kids(kids2.skip(j))[0] == c2);
                assert(target == spec_flatten(c)[0]);
                assert(target == c);
                assert(spec_locate_kids(kids2, j, 0) == seq![j]);
                assert(p =~= seq![j]);
            } else {
                assert(spec_flatten(c).len() > 1);
                lemma_toggle_keeps_row(c, idx);
                assert(rest.len() > 0 && 0 <= rest[0] < c.children.len()) by {
                    if !c.expanded {
                        assert(spec_flatten(c) =~= seq![c]);
                    }
                    assert(c.children.skip(0) =~= c.children);
                    lemma_locate_kids_resolves(c.children, 0, idx - 1);
                }
                assert(c2.expanded == c.expanded && c2.value == c.value);
                assert(c2.value.is_container() && c2.expanded);
                assert(spec_row_block(c2) == spec_flatten(c2));
                assert(idx < spec_flatten(c2).len());
                assert(spec_locate(c2, idx) == rest);
                assert(spec_flatten(c2)[idx] == (NodeV {
                    expanded: !spec_flatten(c)[idx].expanded,
                    ..spec_flatten(c)[idx]
                }));
                assert(spec_flatten_kids(kids2.skip(j)) =~= spec_flatten(c2) + spec_flatten_kids(
                    kids.skip(j + 1),
                ));
                assert(spec_flatten_kids(kids2.skip(j))[idx] == spec_flatten(c2)[idx]);
                assert(spec_locate_kids(kids2, j, idx) == seq![j] + spec_locate(c2, idx));
                assert(spec_locate_kids(kids2, j, idx) =~= p);
            }
        } else {
            assert(b =~= seq![c]);
            assert(idx == 0);
            assert(target == c);
            assert(p == seq![j]);
            assert(p.drop_first() =~= Seq::<int>::empty());
            assert(c2 == NodeV { expanded: !c.expanded, ..c });
            if c.value.is_container() {
                assert(!c.expanded);
                assert(c2.expanded);
                assert(spec_row_block(c2) == spec_flatten(c2));
                lemma_flatten_nonempty(c2);
                assert(spec_flatten_kids(kids2.skip(j)) =~= spec_flatten(c2) + spec_flatten_kids(
                    kids.skip(j + 1),
                ));
                assert(spec_flatten_kids(kids2.skip(j))[0] == spec_flatten(c2)[0]);
                assert(spec_flatten(c2)[0] == c2);
                assert(spec_locate(c2, 0) =~= Seq::<int>::empty());
                assert(spec_locate_kids(kids2, j, 0) == seq![j] + spec_locate(c2, 0));
                assert(spec_locate_kids(kids2, j, 0) =~= p);
            } else {
                assert(!c2.value.is_container());
                assert(spec_row_block(c2) == seq![c2]);
                assert(spec_flatten_kids(kids2.skip(j)) =~= seq![c2] + spec_flatten_kids(
                    kids.skip(j + 1),
                ));
                assert(spec_flatten_kids(kids2.skip(j))[0] == c2);
                assert(spec_locate_kids(kids2, j, 0) == seq![j]);
                assert(p =~= seq![j]);
            }
        }
    } else {
        lemma_toggle_kids_stable(kids, j + 1, idx - b.len());
        lemma_locate_kids_resolves(kids, j + 1, idx - b.len());
        assert(p == spec_locate_kids(kids, j + 1, idx - b.len()));
        assert(c0 >= j + 1);
        assert(kids2[j] == kids[j]);
        assert(spec_row_block(kids2[j]) == b);
        assert(spec_flatten_kids(kids2.skip(j)) =~= b + spec_flatten_kids(kids2.skip(j + 1)));
        assert(idx - b.len() < spec_flatten_kids(kids2.skip(j + 1)).len());
        assert(spec_flatten_kids(kids2.skip(j))[idx] == spec_flatten_kids(kids2.skip(j + 1))[idx
            - b.len()]);
        assert(spec_flatten_kids(kids.skip(j))[idx] == spec_flatten_kids(kids.skip(j + 1))[idx
            - b.len()]);
        assert(spec_locate_kids(kids2, j, idx) == spec_locate_kids(kids2, j + 1, idx - b.len()));
    }
}

/// What a cursor toggle does to the tree, as a function: the node under a
/// container row of the view has its expand flag flipped; anything else
/// leaves the tree as it was.
pub open spec fn spec_toggle_row(n: NodeV, idx: int) -> NodeV {
    let rows = spec_flatten(n);
    if 0 <= idx < rows.len() && rows[idx].value.is_container() {
        spec_toggle(n, spec_locate(n, idx))
    } else {
        n
    }
}

/// Toggling the row under the cursor and toggling the same row again,
/// with no other action in between, restores the tree and with it the
/// flattened view: the user-level expand/collapse is a true involution.
pub proof fn lemma_toggle_row_involution(n: NodeV, idx: int)
    ensures
        spec_toggle_row(spec_toggle_row(n, idx), idx) == n,
        spec_flatten(spec_toggle_row(spec_toggle_row(n, idx), idx)) == spec_flatten(n),
{
    let rows = spec_flatten(n);
    if 0 <= idx < rows.len() && rows[idx].value.is_container() {
        lemma_toggle_keeps_row(n, idx);
        let p = spec_locate(n, idx);
        let m = spec_toggle(n, p);
        assert(spec_flatten(m)[idx].value == rows[idx].value);
        assert(spec_toggle_row(m, idx) == spec_toggle(m, p));
        lemma_toggle_involution(n, p);
    }
}

/// A path as the executable code carries it, read as spec-level indices.
pub open spec fn path_view(p: Seq<usize>) -> Seq<int> {
    p.map_values(|u: usize| u as int)
}

impl TreeNode {
    /// Phase one of a toggle: derive from the flattened view the address
    /// of row `idx`. `Err` carries the number of rows of this subtree,
    /// when `idx` lies beyond them.
    #[verifier::loop_isolation(false)]
    pub fn locate_rows(&self, idx: usize) -> (r: Result<Vec<usize>, usize>)
        ensures
            match r {
                Ok(p) => idx < spec_flatten(self@).len() && path_view(p@) == spec_locate(
                    self@,
                    idx as int,
                ),
                Err(used) => used == spec_flatten(self@).len() && used <= idx,
            },
        decreases self,
    {
        if idx == 0 {
            let p: Vec<usize> = Vec::new();
            proof {
                lemma_flatten_nonempty(self@);
                assert(path_view(p@) =~= spec_locate(self@, 0));
            }
            return Ok(p);
        }
        if !self.expanded {
            proof {
                assert(spec_flatten(self@) =~= seq![self@]);
            }
            return Err(1);
        }
        let ghost cs = self@.children;
        proof {
            lemma_node_views(self.children@);
        }
        let n = self.children.len();
        let mut rem: usize = idx - 1;
        let mut j: usize = 0;
        while j < n
            invariant
                j <= n,
                n == cs.len(),
                rem <= idx - 1,
                rem as int == idx - 1 - spec_flatten_kids(cs.take(j as int)).len(),
                spec_locate_kids(cs, 0, idx - 1) == spec_locate_kids(cs, j as int, rem as int),
            decreases n - j,
        {
            proof {
                assert(decreases_to!(*self => self.children));
                assert(decreases_to!(self.children => self.children@[j as int]));
                assert(cs[j as int] == self.children@[j as int]@);
                lemma_flatten_kids_take(cs, j as int);
                lemma_flatten_kids_prefix_len(cs, j as int + 1);
            }
            let child = &self.children[j];
            if child.is_container() && child.expanded {
                match child.locate_rows(rem) {
                    Ok(mut sub) => {
                        let ghost sv = sub@;
                        let mut q: Vec<usize> = Vec::new();
                        q.push(j);
                        q.append(&mut sub);
                        proof {
                            assert(q@ =~= seq![j] + sv);
                            assert(path_view(q@) =~= seq![j as int] + path_view(sv));
                        }
                        return Ok(q);
                    },
                    Err(used) => {
                        rem -= used;
                    },
                }
            } else {
                if rem == 0 {
                    let mut q: Vec<usize> = Vec::new();
                    q.push(j);
                    proof {
                        assert(path_view(q@) =~= seq![j as int]);
                    }
                    return Ok(q);
                }
                rem -= 1;
            }
            j += 1;
        }
        proof {
            assert(cs.take(n as int) =~= cs);
        }
        Err(idx - rem)
    }
}

/// Phase two of a toggle: re-walk the owned tree along `path` from
/// position `pos` and flip the expand flag of the node it addresses. A
/// step that does not resolve leaves the tree unchanged.
pub fn toggle_at(node: &mut TreeNode, path: &Vec<usize>, pos: usize)
    requires
        pos <= path@.len(),
    ensures
        final(node)@ == spec_toggle(old(node)@, path_view(path@).skip(pos as int)),
    decreases path@.len() - pos,
{
    let ghost ps = path_view(path@).skip(pos as int);
    if pos == path.len() {
        node.expanded = !node.expanded;
        proof {
            assert(ps =~= Seq::<int>::empty());
            assert(node@ =~= spec_toggle(old(node)@, ps));
        }
        return;
    }
    let j = path[pos];
    proof {
        assert(ps[0] == j as int);
        assert(ps.drop_first() =~= path_view(path@).skip(pos as int + 1));
        lemma_node_views(node.children@);
    }
    if j < node.children.len() {
        let ghost oldkids = node.children@;
        toggle_at(&mut node.children[j], path, pos + 1);
        proof {
            lemma_node_views(node.children@);
            assert(node.children@ =~= oldkids.update(j as int, node.children@[j as int]));
            assert forall|i: int| 0 <= i < node.children@.len() implies node_views(
                node.children@,
            )[i] == node_views(oldkids).update(j as int, node.children@[j as int]@)[i] by {
                assert(node_views(node.children@)[i] == node.children@[i]@);
                assert(node_views(oldkids)[i] == oldkids[i]@);
            }
            assert(node@.children =~= node_views(oldkids).update(
                j as int,
                node.children@[j as int]@,
            ));
            assert(node@ =~= spec_toggle(old(node)@, ps));
        }
    } else {
        proof {
            assert(!(0 <= ps[0] < old(node)@.children.len()));
            assert(node@ == spec_toggle(old(node)@, ps));
        }
    }
}

/// Toggles the expand state of the node under row `idx` of the current
/// flattened view. Only container rows react; a cursor beyond the view,
/// or a scalar or tagged row, is a silent no-op. The address of the row
/// is derived from the read-only view, and the mutation is applied by
/// re-walking the owned tree along it.
pub fn toggle_row(tree: &mut TreeNode, idx: usize)
    ensures
        final(tree)@ == spec_toggle_row(old(tree)@, idx as int),
{
    let proceed = {
        let rows = tree.flatten();
        if idx < rows.len() {
            rows[idx].is_container()
        } else {
            false
        }
    };
    if !proceed {
        return;
    }
    let p = match tree.locate_rows(idx) {
        Ok(p) => p,
        Err(_) => {
            proof {
                assert(false);
            }
            Vec::new()
        },
    };
    toggle_at(tree, &p, 0);
    proof {
        assert(path_view(p@).skip(0) =~= path_view(p@));
    }
}

/// The display keys along `p` from `n` down, starting with `n`'s own key,
/// as far as the path resolves.
pub open spec fn spec_key_path(n: NodeV, p: Seq<int>) -> Seq<Seq<char>>
    decreases p.len(),
{
    seq![n.key] + if p.len() > 0 && 0 <= p[0] < n.children.len() {
        spec_key_path(n.children[p[0]], p.drop_first())
    } else {
        Seq::<Seq<char>>::empty()
    }
}

impl TreeNode {
    fn collect_keys(&self, path: &Vec<usize>, pos: usize, out: &mut Vec<String>)
        requires
            pos <= path@.len(),
        ensures
            final(out)@.len() == old(out)@.len() + spec_key_path(
                self@,
                path_view(path@).skip(pos as int),
            ).len(),
            forall|i: int| 0 <= i < old(out)@.len() ==> final(out)@[i] == old(out)@[i],
            forall|i: int| old(out)@.len() <= i < final(out)@.len() ==> (#[trigger] final(out)@[i])@
                == spec_key_path(self@, path_view(path@).skip(pos as int))[i - old(out)@.len()],
        decreases path@.len() - pos,
    {
        let ghost ps = path_view(path@).skip(pos as int);
        let ghost kp = spec_key_path(self@, ps);
        out.push(self.key.clone());
        if pos < path.len() {
            let j = path[pos];
            proof {
                assert(ps[0] == j as int);
                assert(ps.drop_first() =~= path_view(path@).skip(pos as int + 1));
                lemma_node_views(self.children@);
            }
            if j < self.children.len() {
                proof {
                    assert(kp =~= seq![self@.key] + spec_key_path(
                        self.children@[j as int]@,
                        ps.drop_first(),
                    ));
                }
                self.children[j].collect_keys(path, pos + 1, out);
                return;
            }
        }
        proof {
            assert(kp =~= seq![self@.key]);
        }
    }

    /// The root-to-row key path shown in the debug panel for row `idx`:
    /// the display keys from the root down to that row's node. `None` when
    /// `idx` is not a row of the current view.
    pub fn key_path(&self, idx: usize) -> (r: Option<Vec<String>>)
        ensures
            match r {
                Some(ks) => {
                    &&& idx < spec_flatten(self@).len()
                    &&& ks@.len() == spec_key_path(self@, spec_locate(self@, idx as int)).len()
                    &&& forall|i: int| 0 <= i < ks@.len() ==> (#[trigger] ks@[i])@
                        == spec_key_path(self@, spec_locate(self@, idx as int))[i]
                },
                None => idx >= spec_flatten(self@).len(),
            },
    {
        match self.locate_rows(idx) {
            Err(_) => None,
            Ok(p) => {
                let mut out: Vec<String> = Vec::new();
                self.collect_keys(&p, 0, &mut out);
                proof {
                    assert(path_view(p@).skip(0) =~= path_view(p@));
                }
                Some(out)
            },
        }
    }
}

/// One step of the cursor.
pub enum NavMove {
    Up,
    Down,
}

pub open spec fn spec_cursor_down(c: nat, len: nat) -> nat {
    if c + 1 < len {
        (c + 1) as nat
    } else {
        c
    }
}

pub open spec fn spec_cursor_up(c: nat) -> nat {
    if c > 0 {
        (c - 1) as nat
    } else {
        0
    }
}

/// Moves the cursor one row down, staying put on the last row; a view is
/// never empty, and an empty length is a no-op rather than a wrap.
pub fn cursor_down(cursor: usize, len: usize) -> (r: usize)
    ensures
        r as nat == spec_cursor_down(cursor as nat, len as nat),
{
    if len > 0 && cursor < len - 1 {
        cursor + 1
    } else {
        cursor
    }
}

/// Moves the cursor one row up, staying put on the first row.
pub fn cursor_up(cursor: usize) -> (r: usize)
    ensures
        r as nat == spec_cursor_up(cursor as nat),
{
    if cursor > 0 {
        cursor - 1
    } else {
        0
    }
}

pub open spec fn spec_apply_moves(c: nat, len: nat, ms: Seq<NavMove>) -> nat
    decreases ms.len(),
{
    if ms.len() == 0 {
        c
    } else {
        let c1 = if ms[0] is Down {
            spec_cursor_down(c, len)
        } else {
            spec_cursor_up(c)
        };
        spec_apply_moves(c1, len, ms.drop_first())
    }
}

/// Whatever sequence of up and down steps is applied, a cursor that
/// starts inside the view stays inside it: it never leaves `[0, len - 1]`.
pub proof fn lemma_cursor_clamp(c: nat, len: nat, ms: Seq<NavMove>)
    requires
        len > 0,
        c < len,
    ensures
        spec_apply_moves(c, len, ms) < len,
    decreases ms.len(),
{
    if ms.len() > 0 {
        let c1 = if ms[0] is Down {
            spec_cursor_down(c, len)
        } else {
            spec_cursor_up(c)
        };
        lemma_cursor_clamp(c1, len, ms.drop_first());
    }
}

} // verus!
