//! The tree of a store: named nodes with ordered children, and the order in
//! which siblings are shown.

use vstd::prelude::*;
use vstd::seq_lib::lemma_multiset_commutative;

verus! {

/// A tree as a mathematical value: a name and the sequence of its subtrees.
pub struct Tree {
    pub name: Seq<char>,
    pub children: Seq<Tree>,
}

/// A node of the store's tree. A leaf has no children.
#[derive(Debug, PartialEq, Eq)]
pub struct TreeNode {
    pub name: String,
    pub children: Vec<TreeNode>,
}

/// The trees that a sequence of nodes stands for, in the same order.
pub open spec fn forest_view(nodes: Seq<TreeNode>) -> Seq<Tree>
    decreases nodes,
{
    if nodes.len() == 0 {
        Seq::empty()
    } else {
        forest_view(nodes.drop_last()).push(nodes.last()@)
    }
}

impl View for TreeNode {
    type V = Tree;

    open spec fn view(&self) -> Tree
        decreases self,
    {
        Tree { name: self.name@, children: forest_view(self.children@) }
    }
}

/// Lexicographic order on names, character by character, by code point.
/// A proper prefix comes before the longer name.
pub open spec fn name_le(a: Seq<char>, b: Seq<char>) -> bool
    decreases a.len(),
{
    if a.len() == 0 {
        true
    } else if b.len() == 0 {
        false
    } else if a[0] != b[0] {
        (a[0] as int) < (b[0] as int)
    } else {
        name_le(a.drop_first(), b.drop_first())
    }
}

/// Puts `t` into `s` behind the last tree whose name is not greater, so that
/// trees of equal name keep the order in which they came.
pub open spec fn insert_by_name(s: Seq<Tree>, t: Tree) -> Seq<Tree>
    decreases s.len(),
{
    if s.len() == 0 || name_le(s.last().name, t.name) {
        s.push(t)
    } else {
        insert_by_name(s.drop_last(), t).push(s.last())
    }
}

/// The tree with the children of every node in name order.
pub open spec fn sorted_tree(t: Tree) -> Tree
    decreases t,
{
    Tree { name: t.name, children: sorted_forest(t.children) }
}

/// The trees of `s`, each sorted within, in name order; equal names keep
/// their order.
pub open spec fn sorted_forest(s: Seq<Tree>) -> Seq<Tree>
    decreases s,
{
    if s.len() == 0 {
        Seq::empty()
    } else {
        insert_by_name(sorted_forest(s.drop_last()), sorted_tree(s.last()))
    }
}

/// The tree at `i` and the next one are in name order.
pub open spec fn in_order_at(s: Seq<Tree>, i: int) -> bool {
    name_le(s[i].name, s[i + 1].name)
}

/// Neighbours in `s` are in name order.
pub open spec fn ordered_by_name(s: Seq<Tree>) -> bool {
    forall|i: int| 0 <= i < s.len() - 1 ==> #[trigger] in_order_at(s, i)
}


/// The names in a sequence of trees, each tree's own name before those below
/// it, the trees one after the other.
pub open spec fn names_in(forest: Seq<Tree>) -> Seq<Seq<char>>
    decreases forest,
{
    if forest.len() == 0 {
        Seq::empty()
    } else {
        seq![forest[0].name] + names_in(forest[0].children) + names_in(forest.drop_first())
    }
}

/// The nodes of `forest` with their depths, the first level at `depth`: a
/// node before what is below it, the trees one after the other.
pub open spec fn listing(forest: Seq<Tree>, depth: nat) -> Seq<(nat, Seq<char>)>
    decreases forest,
{
    if forest.len() == 0 {
        Seq::empty()
    } else {
        seq![(depth, forest[0].name)] + listing(forest[0].children, depth + 1) + listing(
            forest.drop_first(),
            depth,
        )
    }
}

/// Every tree of `s` is sorted within, and `s` itself is in name order.
pub open spec fn settled(s: Seq<Tree>) -> bool {
    &&& ordered_by_name(s)
    &&& forall|i: int| 0 <= i < s.len() ==> sorted_tree(#[trigger] s[i]) == s[i]
}

/// The view of a sequence of nodes has the view of each node at its place.
pub proof fn lemma_forest_view(nodes: Seq<TreeNode>)
    ensures
        forest_view(nodes).len() == nodes.len(),
        forall|i: int| 0 <= i < nodes.len() ==> #[trigger] forest_view(nodes)[i] == nodes[i]@,
    decreases nodes.len(),
{
    if nodes.len() > 0 {
        let front = nodes.drop_last();
        lemma_forest_view(front);
        assert(forest_view(nodes) == forest_view(front).push(nodes.last()@));
        assert forall|i: int| 0 <= i < nodes.len() implies #[trigger] forest_view(nodes)[i]
            == nodes[i]@ by {
            if i < front.len() {
                assert(forest_view(nodes)[i] == forest_view(front)[i]);
                assert(front[i] == nodes[i]);
            }
        }
    }
}

/// Of two names, one is not greater than the other.
pub proof fn lemma_name_le_total(a: Seq<char>, b: Seq<char>)
    ensures
        name_le(a, b) || name_le(b, a),
    decreases a.len(),
{
    if a.len() > 0 && b.len() > 0 {
        if a[0] == b[0] {
            lemma_name_le_total(a.drop_first(), b.drop_first());
        } else {
            assert(a[0] as int != b[0] as int);
        }
    }
}

/// Inserting adds one tree and keeps the others: the result holds `t` at one
/// place, and around it the trees of `s` in their order.
pub proof fn lemma_insert_place(s: Seq<Tree>, t: Tree) -> (k: int)
    ensures
        0 <= k <= s.len(),
        insert_by_name(s, t) == s.take(k).push(t) + s.skip(k),
        k > 0 ==> name_le(s[k - 1].name, t.name),
        forall|i: int| k <= i < s.len() ==> !name_le(#[trigger] s[i].name, t.name),
    decreases s.len(),
{
    if s.len() == 0 || name_le(s.last().name, t.name) {
        assert(s.take(s.len() as int) == s);
        assert(s.push(t) =~= s.take(s.len() as int).push(t) + s.skip(s.len() as int));
        s.len() as int
    } else {
        let front = s.drop_last();
        let k = lemma_insert_place(front, t);
        assert(insert_by_name(s, t) =~= s.take(k).push(t) + s.skip(k));
        assert forall|i: int| k <= i < s.len() implies !name_le(#[trigger] s[i].name, t.name) by {
            if i < front.len() {
                assert(front[i] == s[i]);
            }
        }
        if k > 0 {
            assert(front[k - 1] == s[k - 1]);
        }
        k
    }
}

/// Inserting into a settled sequence a tree that is sorted within gives a
/// settled sequence.
pub proof fn lemma_insert_settled(s: Seq<Tree>, t: Tree)
    requires
        settled(s),
        sorted_tree(t) == t,
    ensures
        settled(insert_by_name(s, t)),
{
    let k = lemma_insert_place(s, t);
    let r = insert_by_name(s, t);
    assert forall|i: int| 0 <= i < r.len() - 1 implies #[trigger] in_order_at(r, i) by {
        if i + 1 < k {
            assert(r[i] == s[i] && r[i + 1] == s[i + 1]);
            assert(in_order_at(s, i));
        } else if i + 1 == k {
            assert(r[i] == s[k - 1] && r[i + 1] == t);
        } else if i == k {
            assert(r[i] == t && r[i + 1] == s[k]);
            lemma_name_le_total(s[k].name, t.name);
        } else {
            assert(r[i] == s[i - 1] && r[i + 1] == s[i]);
            assert(in_order_at(s, i - 1));
        }
    }
    assert forall|i: int| 0 <= i < r.len() implies sorted_tree(#[trigger] r[i]) == r[i] by {
        if i < k {
            assert(r[i] == s[i]);
        } else if i == k {
            assert(r[i] == t);
        } else {
            assert(r[i] == s[i - 1]);
        }
    }
}

/// Sorting leaves a settled sequence as it is.
pub proof fn lemma_sorted_forest_of_settled(s: Seq<Tree>)
    requires
        settled(s),
    ensures
        sorted_forest(s) == s,
    decreases s.len(),
{
    if s.len() > 0 {
        let front = s.drop_last();
        assert forall|i: int| 0 <= i < front.len() - 1 implies #[trigger] in_order_at(front, i) by {
            assert(front[i] == s[i] && front[i + 1] == s[i + 1]);
            assert(in_order_at(s, i));
        }
        assert forall|i: int| 0 <= i < front.len() implies sorted_tree(#[trigger] front[i])
            == front[i] by {
            assert(front[i] == s[i]);
        }
        lemma_sorted_forest_of_settled(front);
        assert(sorted_tree(s.last()) == s.last());
        if front.len() > 0 {
            assert(in_order_at(s, s.len() - 2));
            assert(front.last() == s[s.len() - 2]);
        }
        assert(front.push(s.last()) =~= s);
    }
}

/// Sorting a tree that is sorted changes nothing.
pub proof fn lemma_sort_idempotent(t: Tree)
    ensures
        sorted_tree(sorted_tree(t)) == sorted_tree(t),
    decreases t, 1int,
{
    lemma_sorted_forest_settled(t.children);
    lemma_sorted_forest_of_settled(sorted_forest(t.children));
}

/// What sorting gives is settled: in name order at every level.
pub proof fn lemma_sorted_forest_settled(s: Seq<Tree>)
    ensures
        settled(sorted_forest(s)),
    decreases s, 0int,
{
    if s.len() > 0 {
        lemma_sorted_forest_settled(s.drop_last());
        lemma_sort_idempotent(s.last());
        lemma_insert_settled(sorted_forest(s.drop_last()), sorted_tree(s.last()));
    }
}

/// The names in two sequences of trees, one after the other, are the names
/// in the first and then those in the second.
pub proof fn lemma_names_concat(a: Seq<Tree>, b: Seq<Tree>)
    ensures
        names_in(a + b) == names_in(a) + names_in(b),
    decreases a.len(),
{
    if a.len() == 0 {
        assert(a + b =~= b);
        assert(names_in(a) + names_in(b) =~= names_in(b));
    } else {
        lemma_names_concat(a.drop_first(), b);
        assert((a + b).drop_first() =~= a.drop_first() + b);
        assert((a + b)[0] == a[0]);
        assert(names_in(a + b) =~= names_in(a) + names_in(b));
    }
}

/// Sorting keeps the names: each name is in the sorted trees as often as it
/// was in the trees before.
pub proof fn lemma_sorted_names(s: Seq<Tree>)
    ensures
        names_in(sorted_forest(s)).to_multiset() == names_in(s).to_multiset(),
    decreases s,
{
    broadcast use lemma_multiset_commutative;

    if s.len() > 0 {
        let front = s.drop_last();
        let last = s.last();
        let sorted_front = sorted_forest(front);
        let u = sorted_tree(last);
        lemma_sorted_names(front);
        lemma_sorted_names(last.children);
        let k = lemma_insert_place(sorted_front, u);
        let head = sorted_front.take(k);
        let tail = sorted_front.skip(k);
        assert(head.push(u) =~= head + seq![u]);
        assert(sorted_front =~= head + tail);
        assert(s =~= front + seq![last]);
        lemma_names_concat(head + seq![u], tail);
        lemma_names_concat(head, seq![u]);
        lemma_names_concat(head, tail);
        lemma_names_concat(front, seq![last]);
        assert(seq![u].drop_first() =~= Seq::<Tree>::empty());
        assert(seq![last].drop_first() =~= Seq::<Tree>::empty());
        assert(seq![u].len() == 1 && seq![u][0] == u);
        assert(seq![last].len() == 1 && seq![last][0] == last);
        assert(names_in(Seq::<Tree>::empty()).len() == 0);
        assert(names_in(seq![u]) == seq![u.name] + names_in(u.children) + names_in(
            Seq::<Tree>::empty(),
        ));
        assert(names_in(seq![last]) == seq![last.name] + names_in(last.children) + names_in(
            Seq::<Tree>::empty(),
        ));
        assert(names_in(seq![u]) =~= seq![last.name] + names_in(u.children));
        assert(names_in(seq![last]) =~= seq![last.name] + names_in(last.children));
        assert(names_in(seq![u]).to_multiset() =~= names_in(seq![last]).to_multiset());
        assert(names_in(sorted_forest(s)) == names_in(head) + names_in(seq![u]) + names_in(tail));
        assert(names_in(sorted_front) == names_in(head) + names_in(tail));
        assert(names_in(s) == names_in(front) + names_in(seq![last]));
        assert(names_in(sorted_forest(s)).to_multiset() =~= names_in(s).to_multiset());
    }
}

/// Whether `a` is not greater than `b` in name order.
pub fn name_not_greater(a: &str, b: &str) -> (r: bool)
    ensures
        r == name_le(a@, b@),
{
    let la: usize = a.unicode_len();
    let lb: usize = b.unicode_len();
    let mut i: usize = 0;
    proof {
        assert(a@.skip(0) =~= a@);
        assert(b@.skip(0) =~= b@);
    }
    while i < la && i < lb
        invariant
            la == a@.len(),
            lb == b@.len(),
            i <= la,
            i <= lb,
            name_le(a@, b@) == name_le(a@.skip(i as int), b@.skip(i as int)),
        decreases la - i,
    {
        let ca: char = a.get_char(i);
        let cb: char = b.get_char(i);
        proof {
            assert(a@.skip(i as int).drop_first() =~= a@.skip(i + 1));
            assert(b@.skip(i as int).drop_first() =~= b@.skip(i + 1));
            assert(a@.skip(i as int)[0] == ca);
            assert(b@.skip(i as int)[0] == cb);
        }
        if ca != cb {
            return (ca as u32) < (cb as u32);
        }
        i += 1;
    }
    i == la
}

/// Puts `node` into `nodes` behind the last node whose name is not greater.
pub fn insert_node(nodes: &mut Vec<TreeNode>, node: TreeNode)
    ensures
        forest_view(final(nodes)@) == insert_by_name(forest_view(old(nodes)@), node@),
{
    let ghost before = forest_view(nodes@);
    let mut j: usize = nodes.len();
    proof {
        lemma_forest_view(nodes@);
        assert(before.take(j as int) == before);
        assert(insert_by_name(before, node@) =~= insert_by_name(before.take(j as int), node@)
            + before.skip(j as int));
    }
    while j > 0 && !name_not_greater(nodes[j - 1].name.as_str(), node.name.as_str())
        invariant
            j <= nodes.len(),
            before == forest_view(nodes@),
            before.len() == nodes.len(),
            forall|i: int| 0 <= i < nodes.len() ==> #[trigger] before[i] == nodes[i]@,
            insert_by_name(before, node@) == insert_by_name(before.take(j as int), node@)
                + before.skip(j as int),
        decreases j,
    {
        proof {
            let head = before.take(j as int);
            assert(head.last() == nodes[j - 1]@);
            assert(head.drop_last() =~= before.take(j - 1));
            assert(insert_by_name(head, node@) == insert_by_name(before.take(j - 1), node@).push(
                head.last(),
            ));
            assert(insert_by_name(before.take(j - 1), node@).push(head.last()) + before.skip(
                j as int,
            ) =~= insert_by_name(before.take(j - 1), node@) + before.skip(j - 1));
        }
        j -= 1;
    }
    proof {
        let head = before.take(j as int);
        if j > 0 {
            assert(head.last() == nodes[j - 1]@);
        }
        assert(insert_by_name(head, node@) == head.push(node@));
        lemma_forest_view(nodes@.insert(j as int, node));
        assert(forest_view(nodes@.insert(j as int, node)) =~= head.push(node@) + before.skip(
            j as int,
        ));
    }
    nodes.insert(j, node);
}

/// Sorts every node within and puts the nodes in name order; nodes of equal
/// name keep their order.
pub fn sorted_nodes(nodes: Vec<TreeNode>) -> (out: Vec<TreeNode>)
    ensures
        forest_view(out@) == sorted_forest(forest_view(nodes@)),
        settled(forest_view(out@)),
    decreases nodes,
{
    let ghost all = nodes@;
    let mut rest: Vec<TreeNode> = nodes;
    let mut out: Vec<TreeNode> = Vec::new();
    let ghost mut done: int = 0;
    proof {
        assert(all.skip(0) =~= all);
        assert(all.take(0) =~= Seq::empty());
    }
    while rest.len() > 0
        invariant
            0 <= done <= all.len(),
            all == nodes@,
            rest@ == all.skip(done),
            forest_view(out@) == sorted_forest(forest_view(all.take(done))),
        decreases rest.len(),
    {
        let node: TreeNode = rest.remove(0);
        proof {
            assert(node == all[done]);
            assert(node == nodes[done]);
            assert(rest@ =~= all.skip(done + 1));
            assert(all.take(done + 1).drop_last() =~= all.take(done));
            assert(all.take(done + 1).last() == node);
            lemma_forest_view(all.take(done + 1));
            lemma_forest_view(all.take(done));
            assert(forest_view(all.take(done + 1)).drop_last() =~= forest_view(all.take(done)));
            assert(forest_view(all.take(done + 1)).last() == node@);
        }
        let sorted: TreeNode = sorted_node(node);
        insert_node(&mut out, sorted);
        proof {
            done = done + 1;
        }
    }
    proof {
        assert(all.take(done) =~= all);
        lemma_sorted_forest_settled(forest_view(all));
    }
    out
}

/// The node with the children of every node below it in name order.
pub fn sorted_node(node: TreeNode) -> (out: TreeNode)
    ensures
        out@ == sorted_tree(node@),
    decreases node,
{
    let TreeNode { name, children } = node;
    TreeNode { name, children: sorted_nodes(children) }
}

impl TreeNode {
    /// A leaf of the given name.
    pub fn new(name: String) -> (node: TreeNode)
        ensures
            node@ == (Tree { name: name@, children: Seq::empty() }),
    {
        TreeNode { name, children: Vec::new() }
    }

    /// Puts the children of every node in name order, by code point, with
    /// directories and leaves intermixed; children of equal name keep their
    /// order. The names and the shape below each node stay.
    pub fn sort(&mut self)
        ensures
            final(self)@ == sorted_tree(old(self)@),
            settled(final(self)@.children),
    {
        let mut node: TreeNode = TreeNode { name: String::new(), children: Vec::new() };
        std::mem::swap(self, &mut node);
        proof {
            lemma_sorted_forest_settled(node@.children);
        }
        *self = sorted_node(node);
    }
}

} // verus!
