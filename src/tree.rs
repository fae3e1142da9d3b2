//! A tree stored as an arena: nodes live in a vector and refer to their
//! parent and children by index. Levels are found by following parent links
//! iteratively, and a chain that never reaches a root (a cycle, or a link that
//! leaves the arena) has no level.

use vstd::prelude::*;
use vstd::set_lib::{lemma_int_range, lemma_len_subset, set_int_range};

verus! {

/// A node of a [`Tree`]: a value, the indices of its children, and the index
/// of its parent (`None` for a root).
#[derive(Debug)]
pub struct TreeNode<T> {
    pub value: T,
    pub children: Vec<usize>,
    pub parent: Option<usize>,
}

/// The arena that holds the nodes; a node's index is its position here.
#[derive(Debug)]
pub struct Tree<T> {
    pub nodes: Vec<TreeNode<T>>,
}

impl<T> Tree<T> {
    /// One step up from `x`: the parent of node `q` when `x` is `Some(q)`. A
    /// link that leaves the arena stays where it is, and `None` (above a root)
    /// stays `None`.
    pub open spec fn step(&self, x: Option<usize>) -> Option<usize> {
        match x {
            Some(q) => if q < self.nodes@.len() {
                self.nodes@[q as int].parent
            } else {
                x
            },
            None => None,
        }
    }

    /// Where `k` steps up from `start` lead.
    pub open spec fn walk(&self, start: Option<usize>, k: nat) -> Option<usize>
        decreases k,
    {
        if k == 0 {
            start
        } else {
            self.step(self.walk(start, (k - 1) as nat))
        }
    }

    /// `d` steps up from the parent link `start`, and no fewer, pass above a
    /// root: the node with that parent link sits at depth `d`.
    pub open spec fn is_level(&self, start: Option<usize>, d: nat) -> bool {
        &&& self.walk(start, d) is None
        &&& d > 0 ==> self.walk(start, (d - 1) as nat) is Some
    }

    /// Node `i` sits at depth `d`.
    pub open spec fn node_level(&self, i: int, d: nat) -> bool {
        self.is_level(self.nodes@[i].parent, d)
    }

    /// An empty arena.
    pub fn new() -> (r: Tree<T>)
        ensures
            r.nodes@.len() == 0,
    {
        Tree { nodes: Vec::new() }
    }

    /// Adds a node and returns its index.
    pub fn push(&mut self, node: TreeNode<T>) -> (id: usize)
        ensures
            final(self).nodes@ == old(self).nodes@.push(node),
            id == old(self).nodes@.len(),
    {
        let id = self.nodes.len();
        self.nodes.push(node);
        id
    }
}

impl<T> TreeNode<T> {
    /// A node with the given value and children, and no parent yet.
    pub fn new(value: T, children: Vec<usize>) -> (r: TreeNode<T>)
        ensures
            r.value == value,
            r.children@ == children@,
            r.parent is None,
    {
        TreeNode { value, children, parent: None }
    }

    /// A node with the given value, no children and no parent.
    pub fn new_childless(value: T) -> (r: TreeNode<T>)
        ensures
            r.value == value,
            r.children@.len() == 0,
            r.parent is None,
    {
        TreeNode { value, children: Vec::new(), parent: None }
    }

    /// Depth of this node in `tree`: 0 for a root, one more than its parent's
    /// depth otherwise. `None` when following the parent links never reaches a
    /// root, because they run in a cycle or leave the arena.
    pub fn level(&self, tree: &Tree<T>) -> (r: Option<usize>)
        ensures
            r matches Some(d) ==> tree.is_level(self.parent, d as nat),
            r is None ==> forall|d: nat| !tree.is_level(self.parent, d),
    {
        let n = tree.nodes.len();
        let mut cur = self.parent;
        let mut d: usize = 0;
        while d < n
            invariant
                n == tree.nodes@.len(),
                d <= n,
                cur == tree.walk(self.parent, d as nat),
                d > 0 ==> tree.walk(self.parent, (d - 1) as nat) is Some,
            decreases n - d,
        {
            match cur {
                None => {
                    return Some(d);
                },
                Some(p) => {
                    if p >= n {
                        proof {
                            assert forall|e: nat| !tree.is_level(self.parent, e) by {
                                if e >= d {
                                    lemma_walk_dangling(tree, self.parent, d as nat, (e - d) as nat);
                                } else if tree.walk(self.parent, e) is None {
                                    lemma_walk_none_stays(tree, self.parent, e, (d - e) as nat);
                                }
                            }
                        }
                        return None;
                    }
                    cur = tree.nodes[p].parent;
                    d = d + 1;
                },
            }
        }
        if cur.is_none() {
            return Some(d);
        }
        proof {
            assert forall|e: nat| !tree.is_level(self.parent, e) by {
                if tree.is_level(self.parent, e) {
                    lemma_level_bounded(tree, self.parent, e);
                    lemma_walk_none_stays(tree, self.parent, e, (n - e) as nat);
                }
            }
        }
        None
    }
}

/// Makes `child` a child of `parent`: appends `child` to the parent's list of
/// children and sets the child's parent link. Nothing else changes.
pub fn add_child<T>(tree: &mut Tree<T>, parent: usize, child: usize)
    requires
        parent < old(tree).nodes@.len(),
        child < old(tree).nodes@.len(),
    ensures
        final(tree).nodes@.len() == old(tree).nodes@.len(),
        final(tree).nodes@[parent as int].children@ == old(tree).nodes@[parent as int].children@.push(child),
        final(tree).nodes@[child as int].parent == Some(parent),
        child != parent ==> final(tree).nodes@[parent as int].parent == old(tree).nodes@[parent as int].parent,
        child != parent ==> final(tree).nodes@[child as int].children@ == old(tree).nodes@[child as int].children@,
        forall|i: int|
            0 <= i < final(tree).nodes@.len() ==> (#[trigger] final(tree).nodes@[i]).value
                == old(tree).nodes@[i].value,
        forall|i: int|
            0 <= i < final(tree).nodes@.len() && i != parent && i != child ==> #[trigger] final(tree).nodes@[i]
                == old(tree).nodes@[i],
{
    tree.nodes[parent].children.push(child);
    tree.nodes[child].parent = Some(parent);
}

/// The indices `i < k` whose entry in `parents` is `Some(p)`, in increasing
/// order.
pub open spec fn listed_children(parents: Seq<Option<usize>>, p: usize, k: int) -> Seq<usize>
    decreases k,
{
    if k <= 0 {
        Seq::empty()
    } else if parents[k - 1] == Some(p) {
        listed_children(parents, p, k - 1).push((k - 1) as usize)
    } else {
        listed_children(parents, p, k - 1)
    }
}

/// Links node `i` below node `parents[i]` for every `i` whose entry is
/// `Some`, in increasing order of `i`, as [`add_child`] does.
pub fn link_parents<T>(tree: &mut Tree<T>, parents: &Vec<Option<usize>>)
    requires
        parents@.len() == old(tree).nodes@.len(),
        forall|i: int|
            0 <= i < parents@.len() ==> (#[trigger] parents@[i] matches Some(p) ==> p < parents@.len()),
    ensures
        final(tree).nodes@.len() == old(tree).nodes@.len(),
        forall|i: int|
            0 <= i < final(tree).nodes@.len() ==> (#[trigger] final(tree).nodes@[i]).value
                == old(tree).nodes@[i].value,
        forall|i: int|
            0 <= i < final(tree).nodes@.len() ==> (#[trigger] final(tree).nodes@[i]).parent == (
            if parents@[i] is Some {
                parents@[i]
            } else {
                old(tree).nodes@[i].parent
            }),
        forall|i: int|
            0 <= i < final(tree).nodes@.len() ==> (#[trigger] final(tree).nodes@[i]).children@
                == old(tree).nodes@[i].children@ + listed_children(
                parents@,
                i as usize,
                parents@.len() as int,
            ),
{
    let n = parents.len();
    let mut k: usize = 0;
    while k < n
        invariant
            n == parents@.len(),
            tree.nodes@.len() == n,
            k <= n,
            forall|i: int|
                0 <= i < parents@.len() ==> (#[trigger] parents@[i] matches Some(p) ==> p < n),
            forall|i: int|
                0 <= i < n ==> (#[trigger] tree.nodes@[i]).value == old(tree).nodes@[i].value,
            forall|i: int|
                0 <= i < n ==> (#[trigger] tree.nodes@[i]).parent == (if i < k
                    && parents@[i] is Some {
                    parents@[i]
                } else {
                    old(tree).nodes@[i].parent
                }),
            forall|i: int|
                0 <= i < n ==> (#[trigger] tree.nodes@[i]).children@ == old(
                    tree,
                ).nodes@[i].children@ + listed_children(parents@, i as usize, k as int),
        decreases n - k,
    {
        let ghost before = tree.nodes@;
        assert(parents@[k as int] matches Some(p) ==> p < n);
        if let Some(p) = parents[k] {
            add_child(tree, p, k);
        }
        assert forall|i: int| 0 <= i < n implies (#[trigger] tree.nodes@[i]).children@ == old(
            tree,
        ).nodes@[i].children@ + listed_children(parents@, i as usize, k + 1) by {
            assert(old(tree).nodes@[i].children@ + listed_children(parents@, i as usize, k as int)
                == before[i].children@);
            if parents@[k as int] == Some(i as usize) {
                assert(tree.nodes@[i].children@ == before[i].children@.push(k));
                assert(old(tree).nodes@[i].children@ + listed_children(parents@, i as usize, k + 1)
                    =~= before[i].children@.push(k));
            } else {
                assert(tree.nodes@[i].children@ == before[i].children@);
            }
        }
        k = k + 1;
    }
}

/// The nodes `i < k` at depth `l`, in increasing order.
pub open spec fn nodes_at_level<T>(tree: &Tree<T>, l: nat, k: int) -> Seq<usize>
    decreases k,
{
    if k <= 0 {
        Seq::empty()
    } else if tree.node_level(k - 1, l) {
        nodes_at_level(tree, l, k - 1).push((k - 1) as usize)
    } else {
        nodes_at_level(tree, l, k - 1)
    }
}

/// Node `i` has a depth below `bound`.
pub open spec fn level_below<T>(tree: &Tree<T>, i: int, bound: nat) -> bool {
    exists|d: nat| d < bound && #[trigger] tree.node_level(i, d)
}

/// Depth at which an outline encloses a whole card: inside the outermost
/// outline, which is the picture's edge.
pub const CARD_LEVEL: usize = 1;

/// Most symbols on one card.
pub const MAX_SYMBOLS: usize = 3;

/// Node `i` may be the outline of a card: it sits at depth [`CARD_LEVEL`] and
/// encloses one to [`MAX_SYMBOLS`] outlines of symbols.
pub open spec fn is_card_outline<T>(tree: &Tree<T>, i: int) -> bool {
    &&& tree.node_level(i, CARD_LEVEL as nat)
    &&& 1 <= tree.nodes@[i].children@.len() <= MAX_SYMBOLS
}

/// The nodes `i < k` that may be card outlines, in increasing order.
pub open spec fn card_outlines<T>(tree: &Tree<T>, k: int) -> Seq<usize>
    decreases k,
{
    if k <= 0 {
        Seq::empty()
    } else if is_card_outline(tree, k - 1) {
        card_outlines(tree, k - 1).push((k - 1) as usize)
    } else {
        card_outlines(tree, k - 1)
    }
}

/// A node has one depth at most.
pub proof fn lemma_level_unique<T>(tree: &Tree<T>, start: Option<usize>, d1: nat, d2: nat)
    requires
        tree.is_level(start, d1),
        tree.is_level(start, d2),
    ensures
        d1 == d2,
{
    if d1 < d2 {
        lemma_walk_none_stays(tree, start, d1, (d2 - 1 - d1) as nat);
    } else if d2 < d1 {
        lemma_walk_none_stays(tree, start, d2, (d1 - 1 - d2) as nat);
    }
}

impl<T> Tree<T> {
    /// The nodes grouped by depth: group `l` lists the nodes at depth `l` in
    /// increasing order of index, for `l < n_levels`. `None` when some node
    /// has no depth below `n_levels`.
    pub fn group_by_level(&self, n_levels: usize) -> (r: Option<Vec<Vec<usize>>>)
        ensures
            r is None <==> exists|i: int|
                0 <= i < self.nodes@.len() && !#[trigger] level_below(self, i, n_levels as nat),
            r matches Some(g) ==> {
                &&& g@.len() == n_levels
                &&& forall|l: int|
                    0 <= l < n_levels ==> (#[trigger] g@[l])@ == nodes_at_level(
                        self,
                        l as nat,
                        self.nodes@.len() as int,
                    )
            },
    {
        let mut groups: Vec<Vec<usize>> = Vec::new();
        let mut l: usize = 0;
        while l < n_levels
            invariant
                l <= n_levels,
                groups@.len() == l,
                forall|x: int| 0 <= x < l ==> (#[trigger] groups@[x])@.len() == 0,
            decreases n_levels - l,
        {
            groups.push(Vec::new());
            l = l + 1;
        }
        let n = self.nodes.len();
        let mut i: usize = 0;
        while i < n
            invariant
                n == self.nodes@.len(),
                i <= n,
                groups@.len() == n_levels,
                forall|x: int|
                    0 <= x < n_levels ==> (#[trigger] groups@[x])@ == nodes_at_level(
                        self,
                        x as nat,
                        i as int,
                    ),
                forall|j: int| 0 <= j < i ==> #[trigger] level_below(self, j, n_levels as nat),
            decreases n - i,
        {
            match self.nodes[i].level(self) {
                Some(d) => {
                    if d >= n_levels {
                        proof {
                            assert forall|e: nat| e < n_levels implies !#[trigger] self.node_level(
                                i as int,
                                e,
                            ) by {
                                if self.node_level(i as int, e) {
                                    lemma_level_unique(self, self.nodes@[i as int].parent, d as nat, e);
                                }
                            }
                            assert(!level_below(self, i as int, n_levels as nat));
                        }
                        return None;
                    }
                    let ghost before = groups@;
                    groups[d].push(i);
                    proof {
                        assert(self.node_level(i as int, d as nat));
                        assert(level_below(self, i as int, n_levels as nat));
                        assert forall|x: int| 0 <= x < n_levels implies (#[trigger] groups@[x])@
                            == nodes_at_level(self, x as nat, i + 1) by {
                            if x != d {
                                if self.node_level(i as int, x as nat) {
                                    lemma_level_unique(
                                        self,
                                        self.nodes@[i as int].parent,
                                        d as nat,
                                        x as nat,
                                    );
                                }
                                assert(groups@[x] == before[x]);
                            }
                        }
                    }
                },
                None => {
                    proof {
                        assert(!level_below(self, i as int, n_levels as nat));
                    }
                    return None;
                },
            }
            i = i + 1;
        }
        proof {
            assert(!exists|j: int| 0 <= j < self.nodes@.len() && !#[trigger] level_below(self, j, n_levels as nat));
        }
        Some(groups)
    }

    /// The nodes that may be outlines of cards: at depth [`CARD_LEVEL`], with
    /// one to [`MAX_SYMBOLS`] children, in increasing order of index.
    pub fn card_candidates(&self) -> (r: Vec<usize>)
        ensures
            r@ == card_outlines(self, self.nodes@.len() as int),
    {
        let n = self.nodes.len();
        let mut r: Vec<usize> = Vec::new();
        let mut i: usize = 0;
        while i < n
            invariant
                n == self.nodes@.len(),
                i <= n,
                r@ == card_outlines(self, i as int),
            decreases n - i,
        {
            let lv = self.nodes[i].level(self);
            let m = self.nodes[i].children.len();
            let at_card_level = match lv {
                Some(d) => d == CARD_LEVEL,
                None => false,
            };
            proof {
                if self.node_level(i as int, CARD_LEVEL as nat) {
                    if let Some(d) = lv {
                        lemma_level_unique(self, self.nodes@[i as int].parent, d as nat, CARD_LEVEL as nat);
                    }
                }
            }
            if at_card_level && 1 <= m && m <= MAX_SYMBOLS {
                r.push(i);
            }
            i = i + 1;
        }
        r
    }
}

/// Above a root nothing changes: once `None`, a walk stays `None`.
proof fn lemma_walk_none_stays<T>(tree: &Tree<T>, start: Option<usize>, k: nat, m: nat)
    requires
        tree.walk(start, k) is None,
    ensures
        tree.walk(start, k + m) is None,
    decreases m,
{
    if m > 0 {
        lemma_walk_none_stays(tree, start, k, (m - 1) as nat);
        assert(tree.walk(start, k + m) == tree.step(tree.walk(start, (k + m - 1) as nat)));
    }
}

/// A link that leaves the arena is followed forever.
proof fn lemma_walk_dangling<T>(tree: &Tree<T>, start: Option<usize>, k: nat, m: nat)
    requires
        tree.walk(start, k) matches Some(q) && q >= tree.nodes@.len(),
    ensures
        tree.walk(start, k + m) == tree.walk(start, k),
    decreases m,
{
    if m > 0 {
        lemma_walk_dangling(tree, start, k, (m - 1) as nat);
        assert(tree.walk(start, k + m) == tree.step(tree.walk(start, (k + m - 1) as nat)));
    }
}

/// Walks that meet go on together.
proof fn lemma_walk_shift<T>(tree: &Tree<T>, start: Option<usize>, a: nat, b: nat, m: nat)
    requires
        tree.walk(start, a) == tree.walk(start, b),
    ensures
        tree.walk(start, a + m) == tree.walk(start, b + m),
    decreases m,
{
    if m > 0 {
        lemma_walk_shift(tree, start, a, b, (m - 1) as nat);
        assert(tree.walk(start, a + m) == tree.step(tree.walk(start, (a + m - 1) as nat)));
        assert(tree.walk(start, b + m) == tree.step(tree.walk(start, (b + m - 1) as nat)));
    }
}

/// A walk that passes above a root after `d` steps visits `d` distinct nodes
/// of the arena first, so `d` is at most the number of nodes.
proof fn lemma_level_bounded<T>(tree: &Tree<T>, start: Option<usize>, d: nat)
    requires
        tree.is_level(start, d),
    ensures
        d <= tree.nodes@.len(),
{
    let n = tree.nodes@.len() as int;
    assert forall|k: nat| k < d implies (#[trigger] tree.walk(start, k)) matches Some(q) && q < n by {
        if tree.walk(start, k) is None {
            lemma_walk_none_stays(tree, start, k, (d - 1 - k) as nat);
        } else if tree.walk(start, k) matches Some(q) && q >= n {
            lemma_walk_dangling(tree, start, k, (d - k) as nat);
        }
    }
    let s = Seq::new(d, |k: int| tree.walk(start, k as nat)->0 as int);
    assert forall|a: int, b: int| 0 <= a < s.len() && 0 <= b < s.len() && a != b implies s[a]
        != s[b] by {
        if s[a] == s[b] {
            let (x, y) = if a < b {
                (a as nat, b as nat)
            } else {
                (b as nat, a as nat)
            };
            assert(tree.walk(start, x) is Some && tree.walk(start, y) is Some);
            lemma_walk_shift(tree, start, x, y, (d - y) as nat);
            assert(tree.walk(start, (x + d - y) as nat) is Some);
        }
    }
    s.unique_seq_to_set();
    lemma_int_range(0, n);
    assert(s.to_set().subset_of(set_int_range(0, n)));
    lemma_len_subset(s.to_set(), set_int_range(0, n));
}

} // verus!
