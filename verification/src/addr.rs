//! Stable identities for the nodes of JSON states.
//!
//! A node is named by a handle: a root gets one when its state is made, and
//! the child reached from a node through a key gets one the first time it is
//! asked for, and keeps it while its state lives. Dependencies are recorded
//! against these handles, so a node keeps its identity however its value is
//! moved in memory.

use vstd::prelude::*;

verus! {

/// One node: its parent and the key that leads to it (a root has no
/// parent), and whether its state still lives.
pub struct AddrNode {
    parent: Option<usize>,
    key: String,
    live: bool,
}

/// The model of a node.
pub struct NodeV {
    pub parent: Option<usize>,
    pub key: Seq<char>,
    pub live: bool,
}

/// The table of node handles: a handle is a position in it.
pub struct AddrMap {
    nodes: Vec<AddrNode>,
}

/// The model of the table: the nodes, by handle.
pub closed spec fn nodes_view(nodes: Seq<AddrNode>) -> Seq<NodeV> {
    Seq::new(
        nodes.len(),
        |i: int| NodeV { parent: nodes[i].parent, key: nodes[i].key@, live: nodes[i].live },
    )
}

impl View for AddrMap {
    type V = Seq<NodeV>;

    closed spec fn view(&self) -> Seq<NodeV> {
        nodes_view(self.nodes@)
    }
}

/// `i` is the first live node with parent `p` and key `k`.
pub open spec fn first_child_at(s: Seq<NodeV>, p: usize, k: Seq<char>, i: int) -> bool {
    &&& 0 <= i < s.len()
    &&& s[i].live
    &&& s[i].parent == Some(p)
    &&& s[i].key == k
    &&& forall|j: int| 0 <= j < i ==> !(#[trigger] s[j].live && s[j].parent == Some(p) && s[j].key == k)
}

/// The live child of `p` under `k`, if it has one.
pub open spec fn child_of(s: Seq<NodeV>, p: usize, k: Seq<char>) -> Option<usize> {
    if exists|i: int| first_child_at(s, p, k, i) {
        Some((choose|i: int| first_child_at(s, p, k, i)) as usize)
    } else {
        None
    }
}

/// The table once the child of `p` under `k` is asked for, and that child's
/// handle: the one it has, or else a new node at the end.
pub open spec fn update_model(s: Seq<NodeV>, p: usize, k: Seq<char>) -> (Seq<NodeV>, usize) {
    match child_of(s, p, k) {
        Some(c) => (s, c),
        None => (s.push(NodeV { parent: Some(p), key: k, live: true }), s.len() as usize),
    }
}

/// The table with one more live root at its end.
pub open spec fn new_root_model(s: Seq<NodeV>) -> Seq<NodeV> {
    s.push(NodeV { parent: None, key: Seq::empty(), live: true })
}

/// Node `i` lies in the tree under node `h` (it is `h` or a descendant).
pub open spec fn in_subtree(s: Seq<NodeV>, h: int, i: int) -> bool
    decreases i,
{
    if i == h {
        true
    } else if 0 <= i < s.len() && s[i].parent is Some && (s[i].parent->0 as int) < i {
        in_subtree(s, h, s[i].parent->0 as int)
    } else {
        false
    }
}

/// The table once the tree under `h` is released: its nodes are no longer live.
pub open spec fn release_model(s: Seq<NodeV>, h: int) -> Seq<NodeV> {
    Seq::new(
        s.len(),
        |i: int| NodeV { live: s[i].live && !in_subtree(s, h, i), ..s[i] },
    )
}

proof fn lemma_first_child(s: Seq<NodeV>, p: usize, k: Seq<char>, i: int)
    requires
        first_child_at(s, p, k, i),
    ensures
        child_of(s, p, k) == Some(i as usize),
{
    let q = choose|j: int| first_child_at(s, p, k, j);
    assert(first_child_at(s, p, k, q));
    if q < i {
        assert(s[q].live && s[q].parent == Some(p) && s[q].key == k);
    } else if i < q {
        assert(s[i].live && s[i].parent == Some(p) && s[i].key == k);
    }
}

/// A matching node at `j` means there is a first one.
proof fn lemma_first_child_exists(s: Seq<NodeV>, p: usize, k: Seq<char>, j: int)
    requires
        0 <= j < s.len(),
        s[j].live && s[j].parent == Some(p) && s[j].key == k,
    ensures
        child_of(s, p, k) is Some,
        (child_of(s, p, k)->0 as int) <= j,
    decreases j,
{
    if forall|i: int| 0 <= i < j ==> !(#[trigger] s[i].live && s[i].parent == Some(p) && s[i].key == k) {
        lemma_first_child(s, p, k, j);
    } else {
        let i = choose|i: int| 0 <= i < j && (#[trigger] s[i].live && s[i].parent == Some(p) && s[i].key == k);
        lemma_first_child_exists(s, p, k, i);
    }
}

/// Asking again for a child just asked for changes nothing and gives the
/// same handle.
pub proof fn lemma_update_again(s: Seq<NodeV>, p: usize, k: Seq<char>)
    ensures
        update_model(update_model(s, p, k).0, p, k) == update_model(s, p, k),
{
    match child_of(s, p, k) {
        Some(c) => {},
        None => {
            let s1 = s.push(NodeV { parent: Some(p), key: k, live: true });
            assert forall|j: int| 0 <= j < s.len() implies !(#[trigger] s1[j].live && s1[j].parent == Some(p) && s1[j].key == k) by {
                assert(s1[j] == s[j]);
                if s[j].live && s[j].parent == Some(p) && s[j].key == k {
                    lemma_first_child_exists(s, p, k, j);
                }
            }
            lemma_first_child(s1, p, k, s.len() as int);
        },
    }
}

impl AddrMap {
    /// An empty table.
    pub fn new() -> (r: AddrMap)
        ensures
            r@ == Seq::<NodeV>::empty(),
    {
        let r = AddrMap { nodes: Vec::new() };
        assert(r@ =~= Seq::<NodeV>::empty());
        r
    }

    /// A handle for a new root.
    pub fn new_root(&mut self) -> (h: usize)
        ensures
            final(self)@ == new_root_model(old(self)@),
            h as int == old(self)@.len(),
    {
        let h = self.nodes.len();
        self.nodes.push(AddrNode { parent: None, key: String::new(), live: true });
        proof {
            assert(self@ =~= new_root_model(old(self)@));
        }
        h
    }

    /// The number of handles given so far.
    pub fn len(&self) -> (n: usize)
        ensures
            n as int == self@.len(),
    {
        self.nodes.len()
    }
}

/// The handle of the child of `parent` under `index`: the one recorded, or a
/// new one, which is recorded.
pub fn update_json_addr(addrs: &mut AddrMap, parent: usize, index: &str) -> (h: usize)
    ensures
        (final(addrs)@, h) == update_model(old(addrs)@, parent, index@),
{
    let ghost s = addrs@;
    let key = index.to_owned();
    let mut i: usize = 0;
    while i < addrs.nodes.len()
        invariant
            i <= addrs.nodes@.len(),
            s == addrs@,
            s == nodes_view(addrs.nodes@),
            key@ == index@,
            forall|j: int|
                0 <= j < i ==> !(#[trigger] s[j].live && s[j].parent == Some(parent) && s[j].key
                    == index@),
        decreases addrs.nodes@.len() - i,
    {
        let node = &addrs.nodes[i];
        let same_parent = match node.parent {
            Some(p) => p == parent,
            None => false,
        };
        proof {
            assert(s[i as int] == nodes_view(addrs.nodes@)[i as int]);
        }
        if node.live && same_parent && node.key == key {
            proof {
                lemma_first_child(s, parent, index@, i as int);
            }
            return i;
        }
        proof {
            assert(!(s[i as int].live && s[i as int].parent == Some(parent) && s[i as int].key
                == index@));
        }
        i = i + 1;
    }
    let h = addrs.nodes.len();
    addrs.nodes.push(AddrNode { parent: Some(parent), key: index.to_owned(), live: true });
    proof {
        assert(addrs@ =~= s.push(NodeV { parent: Some(parent), key: index@, live: true }));
    }
    h
}

/// Releases the tree under `h`: `h` and every node below it stop being live.
pub fn drop_json_addr(addrs: &mut AddrMap, h: usize)
    ensures
        final(addrs)@ == release_model(old(addrs)@, h as int),
{
    let ghost s = addrs@;
    let n = addrs.nodes.len();
    let mut under: Vec<bool> = Vec::new();
    let mut i: usize = 0;
    while i < n
        invariant
            n == s.len(),
            n == addrs.nodes@.len(),
            i <= n,
            under@.len() == i,
            forall|j: int| 0 <= j < i ==> under@[j] == in_subtree(s, h as int, j),
            forall|j: int|
                0 <= j < n ==> #[trigger] nodes_view(addrs.nodes@)[j] == (if j < i {
                    release_model(s, h as int)[j]
                } else {
                    s[j]
                }),
        decreases n - i,
    {
        let node_parent = addrs.nodes[i].parent;
        proof {
            assert(nodes_view(addrs.nodes@)[i as int] == s[i as int]);
        }
        let is_under = if i == h {
            true
        } else {
            match node_parent {
                Some(p) => {
                    if p < i {
                        under[p]
                    } else {
                        false
                    }
                },
                None => false,
            }
        };
        proof {
            assert(is_under == in_subtree(s, h as int, i as int));
        }
        under.push(is_under);
        if is_under {
            let ghost before = addrs.nodes@;
            proof {
                assert(nodes_view(before)[i as int] == s[i as int]);
            }
            let old_node = &addrs.nodes[i];
            let new_node = AddrNode { parent: old_node.parent, key: old_node.key.clone(), live: false };
            addrs.nodes.set(i, new_node);
            proof {
                assert forall|j: int| 0 <= j < n implies #[trigger] nodes_view(addrs.nodes@)[j] == (if j < i + 1 {
                    release_model(s, h as int)[j]
                } else {
                    s[j]
                }) by {
                    if j != i {
                        assert(addrs.nodes@[j] == before[j]);
                        assert(nodes_view(before)[j] == (if j < i {
                            release_model(s, h as int)[j]
                        } else {
                            s[j]
                        }));
                    }
                }
            }
        } else {
            proof {
                assert(release_model(s, h as int)[i as int] == s[i as int]);
            }
        }
        i = i + 1;
    }
    proof {
        assert(addrs@ =~= release_model(s, h as int));
    }
}

/// `b` keeps every node of `a` as it is, and may have more after them.
pub open spec fn extends(a: Seq<NodeV>, b: Seq<NodeV>) -> bool {
    &&& a.len() <= b.len()
    &&& forall|i: int| 0 <= i < a.len() ==> b[i] == a[i]
}

/// Law: a recorded child keeps its handle when nodes are only added after.
pub proof fn law_handle_stable(a: Seq<NodeV>, b: Seq<NodeV>, p: usize, k: Seq<char>)
    requires
        child_of(a, p, k) is Some,
        extends(a, b),
    ensures
        child_of(b, p, k) == child_of(a, p, k),
{
    let c = choose|i: int| first_child_at(a, p, k, i);
    assert(first_child_at(a, p, k, c));
    assert forall|j: int| 0 <= j < c implies !(#[trigger] b[j].live && b[j].parent == Some(p) && b[j].key == k) by {
        assert(b[j] == a[j]);
    }
    assert(first_child_at(b, p, k, c));
    let q = choose|i: int| first_child_at(b, p, k, i);
    assert(first_child_at(b, p, k, q));
    if q < c {
        assert(b[q].live && b[q].parent == Some(p) && b[q].key == k);
    } else if c < q {
        assert(b[c].live && b[c].parent == Some(p) && b[c].key == k);
    }
}

/// Law: a child just asked for is recorded under its handle, and the
/// table only grows.
pub proof fn law_update_recorded(s: Seq<NodeV>, p: usize, k: Seq<char>)
    ensures
        extends(s, update_model(s, p, k).0),
        child_of(update_model(s, p, k).0, p, k) == Some(update_model(s, p, k).1),
{
    lemma_update_again(s, p, k);
    let s1 = update_model(s, p, k).0;
    if child_of(s1, p, k) is None {
        assert(update_model(s1, p, k).0.len() == s1.len() + 1);
    }
}

/// Law: two children with the same handle are the same child: the same
/// parent and the same key.
pub proof fn law_handles_distinct(s: Seq<NodeV>, p1: usize, k1: Seq<char>, p2: usize, k2: Seq<char>)
    requires
        s.len() <= usize::MAX,
        child_of(s, p1, k1) is Some,
        child_of(s, p1, k1) == child_of(s, p2, k2),
    ensures
        p1 == p2,
        k1 == k2,
{
    let c1 = choose|i: int| first_child_at(s, p1, k1, i);
    assert(first_child_at(s, p1, k1, c1));
    let c2 = choose|i: int| first_child_at(s, p2, k2, i);
    assert(first_child_at(s, p2, k2, c2));
    assert(c1 == c2);
}


/// Every node's parent was made before it.
pub open spec fn parents_first(s: Seq<NodeV>) -> bool {
    forall|i: int| 0 <= i < s.len() && (#[trigger] s[i]).parent is Some ==> (s[i].parent->0 as int) < i
}

/// Law: making roots, and asking for children of nodes already made, keep
/// every parent before its children.
pub proof fn law_parents_first_kept(s: Seq<NodeV>, p: usize, k: Seq<char>)
    requires
        parents_first(s),
    ensures
        parents_first(new_root_model(s)),
        (p as int) < s.len() ==> parents_first(update_model(s, p, k).0),
{
    let r = new_root_model(s);
    assert forall|i: int| 0 <= i < r.len() && (#[trigger] r[i]).parent is Some implies (r[i].parent->0 as int) < i by {
        if i < s.len() {
            assert(r[i] == s[i]);
        }
    }
    if (p as int) < s.len() {
        let u = update_model(s, p, k).0;
        assert forall|i: int| 0 <= i < u.len() && (#[trigger] u[i]).parent is Some implies (u[i].parent->0 as int) < i by {
            if i < s.len() {
                assert(u[i] == s[i]);
            }
        }
    }
}

/// No node lies in the trees of two different roots.
proof fn lemma_trees_apart(s: Seq<NodeV>, h1: int, h2: int, i: int)
    requires
        parents_first(s),
        0 <= h1 < s.len(),
        0 <= h2 < s.len(),
        s[h1].parent is None,
        s[h2].parent is None,
        h1 != h2,
        in_subtree(s, h2, i),
    ensures
        !in_subtree(s, h1, i),
    decreases i,
{
    if i != h2 {
        let p = s[i].parent->0 as int;
        lemma_trees_apart(s, h1, h2, p);
    }
}

/// Law: releasing the tree of one root leaves every node of another root's
/// tree as it was.
pub proof fn law_release_spares_other_roots(s: Seq<NodeV>, h1: int, h2: int, i: int)
    requires
        parents_first(s),
        0 <= h1 < s.len(),
        0 <= h2 < s.len(),
        s[h1].parent is None,
        s[h2].parent is None,
        h1 != h2,
        0 <= i < s.len(),
        in_subtree(s, h2, i),
    ensures
        release_model(s, h1)[i] == s[i],
{
    lemma_trees_apart(s, h1, h2, i);
}


/// Law: once the tree under `h` is released, no node of it has a recorded
/// child: asking again for one gives a new handle.
pub proof fn law_release_forgets_children(s: Seq<NodeV>, h: int, p: usize, k: Seq<char>)
    requires
        parents_first(s),
        in_subtree(s, h, p as int),
    ensures
        child_of(release_model(s, h), p, k) is None,
{
    let r = release_model(s, h);
    if exists|i: int| first_child_at(r, p, k, i) {
        let c = choose|i: int| first_child_at(r, p, k, i);
        assert(first_child_at(r, p, k, c));
        assert(r[c].live);
        assert(s[c].parent == Some(p));
        assert(in_subtree(s, h, c));
    }
}

} // verus!
