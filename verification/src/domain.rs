//! Tree materializer: adopts the shape of a forest of IDs, moves the payload
//! owned for each ID out of a store, and lays the result out as an arena of
//! nodes in pre-order. Children are held as indices into the arena, owned by
//! the tree alone; the parent link is a non-owning back-reference (an index),
//! so ownership flows strictly downward while upward walks stay possible.

use vstd::prelude::*;

use crate::tree::{
    forest_items, forest_size, lemma_forest_items_concat, lemma_forest_items_step,
    lemma_shapes_of_index, node_items, node_size, shape_of, shapes_of, ShapeNode, SubTree, Tree,
};
use std::collections::HashMap;

verus! {

broadcast use vstd::std_specs::hash::group_hash_axioms;

/// Payloads waiting to be attached, owned and keyed by ID. Materialization
/// moves each payload out, so none can be attached to two nodes.
pub struct PayloadStore<P> {
    map: HashMap<u32, P>,
}

impl<P> View for PayloadStore<P> {
    type V = Map<u32, P>;

    closed spec fn view(&self) -> Map<u32, P> {
        self.map@
    }
}

impl<P> PayloadStore<P> {
    /// An empty store.
    pub fn new() -> (r: Self)
        ensures
            r@ == Map::<u32, P>::empty(),
    {
        PayloadStore { map: HashMap::new() }
    }

    /// Adds a payload under `id`; refuses an ID that is already present and
    /// reports whether the payload was added.
    pub fn insert(&mut self, id: u32, payload: P) -> (r: bool)
        ensures
            r == !old(self)@.contains_key(id),
            r ==> final(self)@ == old(self)@.insert(id, payload),
            !r ==> final(self)@ == old(self)@,
    {
        if self.map.contains_key(&id) {
            false
        } else {
            self.map.insert(id, payload);
            true
        }
    }

    /// Whether a payload is held for `id`.
    pub fn contains(&self, id: u32) -> (r: bool)
        ensures
            r == self@.contains_key(id),
    {
        self.map.contains_key(&id)
    }

    /// Moves the payload for `id` out of the store, if one is left.
    pub fn take(&mut self, id: u32) -> (r: Option<P>)
        ensures
            match r {
                Some(p) => old(self)@.contains_key(id) && p == old(self)@[id] && final(self)@
                    == old(self)@.remove(id),
                None => !old(self)@.contains_key(id) && final(self)@ == old(self)@,
            },
    {
        let r = self.map.remove(&id);
        proof {
            if r is None {
                assert(old(self)@.remove(id) =~= old(self)@);
            }
        }
        r
    }
}

/// The arena indices at which the top-level nodes of a forest land when the
/// forest is laid out in pre-order starting at `base`.
pub open spec fn level_indices(f: Seq<ShapeNode<u32>>, base: int) -> Seq<usize>
    decreases f,
{
    if f.len() == 0 {
        Seq::empty()
    } else {
        seq![base as usize] + level_indices(f.drop_first(), base + node_size(f[0]))
    }
}

/// The parent back-reference of every node of a subtree laid out at `base`,
/// in pre-order: the node itself points at `parent`, its descendants at their
/// own parents.
pub open spec fn node_parents(n: ShapeNode<u32>, base: int, parent: Option<usize>) -> Seq<
    Option<usize>,
>
    decreases n,
{
    seq![parent] + forest_parents(n.children, base + 1, Some(base as usize))
}

/// The parent back-references of a whole forest laid out at `base`.
pub open spec fn forest_parents(
    f: Seq<ShapeNode<u32>>,
    base: int,
    parent: Option<usize>,
) -> Seq<Option<usize>>
    decreases f,
{
    if f.len() == 0 {
        Seq::empty()
    } else {
        node_parents(f[0], base, parent) + forest_parents(
            f.drop_first(),
            base + node_size(f[0]),
            parent,
        )
    }
}

/// The child index list of every node of a subtree laid out at `base`, in
/// pre-order.
pub open spec fn node_child_lists(n: ShapeNode<u32>, base: int) -> Seq<Seq<usize>>
    decreases n,
{
    seq![level_indices(n.children, base + 1)] + forest_child_lists(n.children, base + 1)
}

/// The child index lists of a whole forest laid out at `base`.
pub open spec fn forest_child_lists(f: Seq<ShapeNode<u32>>, base: int) -> Seq<Seq<usize>>
    decreases f,
{
    if f.len() == 0 {
        Seq::empty()
    } else {
        node_child_lists(f[0], base) + forest_child_lists(f.drop_first(), base + node_size(f[0]))
    }
}

proof fn lemma_forest_split<T: Copy>(f: Seq<ShapeNode<T>>)
    requires
        f.len() > 0,
    ensures
        forest_size(f) == node_size(f[0]) + forest_size(f.drop_first()),
        forest_items(f) == node_items(f[0]) + forest_items(f.drop_first()),
{
}

proof fn lemma_layout_lens_node(n: ShapeNode<u32>, base: int, parent: Option<usize>)
    ensures
        node_parents(n, base, parent).len() == node_size(n),
        node_child_lists(n, base).len() == node_size(n),
    decreases n,
{
    lemma_layout_lens_forest(n.children, base + 1, Some(base as usize));
    lemma_layout_lens_forest(n.children, base + 1, parent);
}

proof fn lemma_layout_lens_forest(f: Seq<ShapeNode<u32>>, base: int, parent: Option<usize>)
    ensures
        forest_parents(f, base, parent).len() == forest_size(f),
        forest_child_lists(f, base).len() == forest_size(f),
        level_indices(f, base).len() == f.len(),
    decreases f,
{
    if f.len() > 0 {
        lemma_layout_lens_node(f[0], base, parent);
        lemma_layout_lens_forest(f.drop_first(), base + node_size(f[0]), parent);
        lemma_forest_split(f);
    }
}

proof fn lemma_layout_concat(
    f1: Seq<ShapeNode<u32>>,
    f2: Seq<ShapeNode<u32>>,
    base: int,
    parent: Option<usize>,
)
    ensures
        forest_parents(f1 + f2, base, parent) == forest_parents(f1, base, parent) + forest_parents(
            f2,
            base + forest_size(f1),
            parent,
        ),
        forest_child_lists(f1 + f2, base) == forest_child_lists(f1, base) + forest_child_lists(
            f2,
            base + forest_size(f1),
        ),
        level_indices(f1 + f2, base) == level_indices(f1, base) + level_indices(
            f2,
            base + forest_size(f1),
        ),
    decreases f1,
{
    if f1.len() == 0 {
        assert(f1 + f2 =~= f2);
        assert(forest_parents(f1, base, parent) + forest_parents(f2, base, parent) =~= forest_parents(
            f2,
            base,
            parent,
        ));
        assert(forest_child_lists(f1, base) + forest_child_lists(f2, base) =~= forest_child_lists(
            f2,
            base,
        ));
        assert(level_indices(f1, base) + level_indices(f2, base) =~= level_indices(f2, base));
    } else {
        assert((f1 + f2).drop_first() =~= f1.drop_first() + f2);
        lemma_forest_split(f1);
        lemma_layout_concat(f1.drop_first(), f2, base + node_size(f1[0]), parent);
        assert(forest_parents(f1 + f2, base, parent) =~= forest_parents(f1, base, parent)
            + forest_parents(f2, base + forest_size(f1), parent));
        assert(forest_child_lists(f1 + f2, base) =~= forest_child_lists(f1, base)
            + forest_child_lists(f2, base + forest_size(f1)));
        assert(level_indices(f1 + f2, base) =~= level_indices(f1, base) + level_indices(
            f2,
            base + forest_size(f1),
        ));
    }
}

/// One materialized node: its ID, its payload, the index of its parent in the
/// arena (`None` for a root) and the indices of its children, in order.
///
/// `parent` is only a back-reference: an index owns nothing and is never
/// followed downward, so the parent link can neither keep a node alive nor
/// form an ownership cycle.
#[derive(Debug)]
pub struct DomainNode<P> {
    pub id: u32,
    pub payload: P,
    pub parent: Option<usize>,
    pub children: Vec<usize>,
}

/// A materialized forest: the arena of nodes laid out in pre-order, and the
/// indices of the roots, in order.
#[derive(Debug)]
pub struct DomainTree<P> {
    pub nodes: Vec<DomainNode<P>>,
    pub roots: Vec<usize>,
}

/// Reported when a shape node's ID has no payload left in the store: either
/// the store never held it, or an earlier node with the same ID consumed it.
#[derive(PartialEq, Eq, Structural, Debug, Clone, Copy)]
pub struct LookupError {
    pub id: u32,
}

/// The arena segment starting at `base` lays out the subtree `n` in
/// pre-order: node by node the IDs, the payloads taken from `payloads`, the
/// parent back-references and the child index lists all match the shape.
pub open spec fn node_region_matches<P>(
    nodes: Seq<DomainNode<P>>,
    n: ShapeNode<u32>,
    base: int,
    parent: Option<usize>,
    payloads: Map<u32, P>,
) -> bool {
    &&& 0 <= base
    &&& base + node_size(n) <= nodes.len()
    &&& forall|i: int|
        0 <= i < node_size(n) ==> {
            &&& (#[trigger] nodes[base + i]).id == node_items(n)[i]
            &&& nodes[base + i].payload == payloads[node_items(n)[i]]
            &&& nodes[base + i].parent == node_parents(n, base, parent)[i]
            &&& nodes[base + i].children@ == node_child_lists(n, base)[i]
        }
}

/// The arena segment starting at `base` lays out the whole forest `f` in
/// pre-order.
pub open spec fn forest_region_matches<P>(
    nodes: Seq<DomainNode<P>>,
    f: Seq<ShapeNode<u32>>,
    base: int,
    parent: Option<usize>,
    payloads: Map<u32, P>,
) -> bool {
    &&& 0 <= base
    &&& base + forest_size(f) <= nodes.len()
    &&& forall|i: int|
        0 <= i < forest_size(f) ==> {
            &&& (#[trigger] nodes[base + i]).id == forest_items(f)[i]
            &&& nodes[base + i].payload == payloads[forest_items(f)[i]]
            &&& nodes[base + i].parent == forest_parents(f, base, parent)[i]
            &&& nodes[base + i].children@ == forest_child_lists(f, base)[i]
        }
}

/// A region that matches keeps matching when the arena grows or changes
/// beyond it.
proof fn lemma_region_transfer<P>(
    nodes1: Seq<DomainNode<P>>,
    nodes2: Seq<DomainNode<P>>,
    f: Seq<ShapeNode<u32>>,
    base: int,
    parent: Option<usize>,
    payloads: Map<u32, P>,
)
    requires
        forest_region_matches(nodes1, f, base, parent, payloads),
        nodes1.len() <= nodes2.len(),
        forall|i: int| base <= i < base + forest_size(f) ==> nodes2[i] == nodes1[i],
    ensures
        forest_region_matches(nodes2, f, base, parent, payloads),
{
}

/// Extending a matching forest prefix by one matching subtree placed right
/// after it gives a matching longer prefix.
proof fn lemma_forest_region_step<P>(
    nodes: Seq<DomainNode<P>>,
    f: Seq<ShapeNode<u32>>,
    j: int,
    base: int,
    parent: Option<usize>,
    payloads: Map<u32, P>,
)
    requires
        0 <= j < f.len(),
        forest_region_matches(nodes, f.take(j), base, parent, payloads),
        node_region_matches(nodes, f[j], base + forest_size(f.take(j)), parent, payloads),
    ensures
        forest_region_matches(nodes, f.take(j + 1), base, parent, payloads),
{
    let fj = f.take(j);
    let fj1 = f.take(j + 1);
    let sz = forest_size(fj);
    assert(fj1 =~= fj + seq![f[j]]);
    lemma_forest_items_concat(fj, seq![f[j]]);
    lemma_layout_concat(fj, seq![f[j]], base, parent);
    assert(seq![f[j]].drop_first() =~= Seq::<ShapeNode<u32>>::empty());
    assert(forest_items(seq![f[j]].drop_first()) =~= Seq::<u32>::empty());
    assert(forest_parents(seq![f[j]].drop_first(), base + sz + node_size(f[j]), parent) =~= Seq::<
        Option<usize>,
    >::empty());
    assert(forest_child_lists(seq![f[j]].drop_first(), base + sz + node_size(f[j])) =~= Seq::<
        Seq<usize>,
    >::empty());
    assert(forest_items(seq![f[j]]) =~= node_items(f[j]));
    assert(forest_parents(seq![f[j]], base + sz, parent) =~= node_parents(f[j], base + sz, parent));
    assert(forest_child_lists(seq![f[j]], base + sz) =~= node_child_lists(f[j], base + sz));
    lemma_layout_lens_forest(fj, base, parent);
    lemma_layout_lens_node(f[j], base + sz, parent);
    assert forall|i: int| 0 <= i < forest_size(fj1) implies {
        &&& (#[trigger] nodes[base + i]).id == forest_items(fj1)[i]
        &&& nodes[base + i].payload == payloads[forest_items(fj1)[i]]
        &&& nodes[base + i].parent == forest_parents(fj1, base, parent)[i]
        &&& nodes[base + i].children@ == forest_child_lists(fj1, base)[i]
    } by {
        if i < sz {
            assert(nodes[base + i].id == forest_items(fj)[i]);
        } else {
            assert(nodes[(base + sz) + (i - sz)].id == node_items(f[j])[i - sz]);
        }
    }
}

/// The number of nodes in one subtree, counted by walking it.
fn subtree_count(t: &SubTree<u32>) -> (n: usize)
    requires
        node_size(t@) <= usize::MAX,
    ensures
        n == node_size(t@),
    decreases *t,
{
    let ghost f = shapes_of(t.children@);
    proof {
        lemma_shapes_of_index(t.children@);
        assert(node_size(t@) == 1 + forest_size(f));
    }
    let mut n: usize = 1;
    let mut j: usize = 0;
    while j < t.children.len()
        invariant
            node_size(t@) <= usize::MAX,
            node_size(t@) == 1 + forest_size(f),
            f == shapes_of(t.children@),
            f.len() == t.children@.len(),
            forall|i: int| 0 <= i < f.len() ==> f[i] == shape_of(t.children@[i]),
            j <= t.children@.len(),
            n == 1 + forest_size(f.take(j as int)),
        decreases t.children@.len() - j,
    {
        proof {
            lemma_forest_items_step(f, j as int);
        }
        let c = subtree_count(&t.children[j]);
        n = n + c;
        j = j + 1;
    }
    proof {
        assert(f.take(f.len() as int) =~= f);
    }
    n
}

proof fn lemma_concat_contains<A>(a: Seq<A>, b: Seq<A>, x: A)
    ensures
        (a + b).contains(x) <==> a.contains(x) || b.contains(x),
{
    if a.contains(x) {
        let i = choose|i: int| 0 <= i < a.len() && a[i] == x;
        assert((a + b)[i] == x);
    }
    if b.contains(x) {
        let i = choose|i: int| 0 <= i < b.len() && b[i] == x;
        assert((a + b)[a.len() + i] == x);
    }
    if (a + b).contains(x) {
        let i = choose|i: int| 0 <= i < (a + b).len() && (a + b)[i] == x;
        if i < a.len() {
            assert(a[i] == x);
        } else {
            assert(b[i - a.len()] == x);
        }
    }
}

proof fn lemma_dup_across<A>(a: Seq<A>, b: Seq<A>, x: A)
    requires
        a.contains(x),
        b.contains(x),
    ensures
        !(a + b).no_duplicates(),
{
    let i = choose|i: int| 0 <= i < a.len() && a[i] == x;
    let j = choose|j: int| 0 <= j < b.len() && b[j] == x;
    assert((a + b)[i] == x);
    assert((a + b)[a.len() + j] == x);
}

proof fn lemma_no_dup_parts<A>(a: Seq<A>, b: Seq<A>)
    requires
        (a + b).no_duplicates(),
    ensures
        a.no_duplicates(),
        b.no_duplicates(),
        forall|x: A| !(a.contains(x) && #[trigger] b.contains(x)),
{
    assert forall|i: int, j: int|
        0 <= i < a.len() && 0 <= j < a.len() && i != j implies a[i] != a[j] by {
        assert((a + b)[i] == a[i] && (a + b)[j] == a[j]);
    }
    assert forall|i: int, j: int|
        0 <= i < b.len() && 0 <= j < b.len() && i != j implies b[i] != b[j] by {
        assert((a + b)[a.len() + i] == b[i] && (a + b)[a.len() + j] == b[j]);
    }
    assert forall|x: A| !(a.contains(x) && #[trigger] b.contains(x)) by {
        if a.contains(x) && b.contains(x) {
            lemma_dup_across(a, b, x);
        }
    }
}

proof fn lemma_node_region_payload_map<P>(
    nodes: Seq<DomainNode<P>>,
    n: ShapeNode<u32>,
    base: int,
    parent: Option<usize>,
    p1: Map<u32, P>,
    p2: Map<u32, P>,
)
    requires
        node_region_matches(nodes, n, base, parent, p1),
        forall|i: int|
            0 <= i < node_size(n) ==> p1[#[trigger] node_items(n)[i]] == p2[node_items(n)[i]],
    ensures
        node_region_matches(nodes, n, base, parent, p2),
{
}
/// Materializes the subtree `t` at the end of `arena`: consumes the payload
/// for its ID, lays the node down with its child indices precomputed, then
/// materializes its children right after it, in pre-order. Stops at the
/// first ID with no payload left.
fn mat_tree<P>(
    t: &SubTree<u32>,
    store: &mut PayloadStore<P>,
    parent: Option<usize>,
    arena: &mut Vec<DomainNode<P>>,
) -> (r: Result<(), LookupError>)
    requires
        old(arena)@.len() + node_size(t@) <= usize::MAX,
    ensures
        final(arena)@.len() >= old(arena)@.len(),
        match r {
            Ok(_) => {
                let base = old(arena)@.len() as int;
                let ids = node_items(t@);
                &&& final(arena)@.len() == old(arena)@.len() + node_size(t@)
                &&& (forall|i: int| 0 <= i < base ==> final(arena)@[i] == old(arena)@[i])
                &&& node_region_matches(final(arena)@, t@, base, parent, old(store)@)
                &&& ids.no_duplicates()
                &&& (forall|i: int|
                    0 <= i < ids.len() ==> old(store)@.contains_key(#[trigger] ids[i]))
                &&& final(store)@ == old(store)@.remove_keys(ids.to_set())
            },
            Err(e) => node_items(t@).contains(e.id) && (!old(store)@.contains_key(e.id)
                || !node_items(t@).no_duplicates()),
        },
    decreases *t,
{
    let ghost store0 = store@;
    let ghost f = shapes_of(t.children@);
    let ghost ids = node_items(t@);
    let base = arena.len();
    proof {
        lemma_shapes_of_index(t.children@);
        assert(t@.children == f);
        assert(ids =~= seq![t.val] + forest_items(f));
        assert(ids[0] == t.val);
        assert(ids.contains(t.val));
        assert(node_size(t@) == 1 + forest_size(f));
    }
    let payload = match store.take(t.val) {
        Some(p) => p,
        None => {
            return Err(LookupError { id: t.val });
        },
    };
    let ghost store1 = store@;
    // First pass: the arena index of each child subtree, from the sizes.
    let mut kid_idxs: Vec<usize> = Vec::new();
    let mut off: usize = base + 1;
    let mut j: usize = 0;
    while j < t.children.len()
        invariant
            f == shapes_of(t.children@),
            f.len() == t.children@.len(),
            forall|i: int| 0 <= i < f.len() ==> f[i] == shape_of(t.children@[i]),
            base + 1 + forest_size(f) <= usize::MAX,
            j <= f.len(),
            off == base + 1 + forest_size(f.take(j as int)),
            kid_idxs@ == level_indices(f.take(j as int), base + 1),
        decreases f.len() - j,
    {
        kid_idxs.push(off);
        proof {
            lemma_forest_items_step(f, j as int);
        }
        let c = subtree_count(&t.children[j]);
        proof {
            let jj = j as int;
            assert(f.take(jj + 1) =~= f.take(jj) + seq![f[jj]]);
            lemma_layout_concat(f.take(jj), seq![f[jj]], base + 1, parent);
            assert(seq![f[jj]].drop_first() =~= Seq::<ShapeNode<u32>>::empty());
            assert(level_indices(
                seq![f[jj]].drop_first(),
                base + 1 + forest_size(f.take(jj)) + node_size(f[jj]),
            ) =~= Seq::<usize>::empty());
            assert(level_indices(seq![f[jj]], base + 1 + forest_size(f.take(jj)))
                =~= seq![off as usize]);
            assert(kid_idxs@ =~= level_indices(f.take(jj + 1), base + 1));
        }
        off = off + c;
        j = j + 1;
    }
    proof {
        assert(f.take(f.len() as int) =~= f);
    }
    let node = DomainNode { id: t.val, payload, parent, children: kid_idxs };
    arena.push(node);
    // Second pass: materialize the children where the indices said they land.
    let res = mat_forest(&t.children, store, Some(base), arena);
    match res {
        Ok(_) => {},
        Err(e) => {
            proof {
                lemma_concat_contains(seq![t.val], forest_items(f), e.id);
                assert(forest_items(f).contains(e.id));
                assert(ids.contains(e.id));
                if !forest_items(f).no_duplicates() {
                    if ids.no_duplicates() {
                        lemma_no_dup_parts(seq![t.val], forest_items(f));
                        assert(false);
                    }
                } else if !store1.contains_key(e.id) {
                    if store0.contains_key(e.id) {
                        assert(e.id == t.val);
                        assert(seq![t.val].contains(e.id));
                        lemma_dup_across(seq![t.val], forest_items(f), e.id);
                    }
                }
            }
            return Err(e);
        },
    }
    proof {
        let fin = arena@;
        // node-level layout from the forest-level region
        lemma_layout_lens_forest(f, base + 1, Some(base as usize));
        assert(node_parents(t@, base as int, parent) == seq![parent] + forest_parents(
            f,
            base + 1,
            Some(base as usize),
        ));
        assert(node_child_lists(t@, base as int) == seq![level_indices(f, base + 1)]
            + forest_child_lists(f, base + 1));
        assert forall|i: int| 0 <= i < node_size(t@) implies {
            &&& (#[trigger] fin[base + i]).id == node_items(t@)[i]
            &&& fin[base + i].payload == store0[node_items(t@)[i]]
            &&& fin[base + i].parent == node_parents(t@, base as int, parent)[i]
            &&& fin[base + i].children@ == node_child_lists(t@, base as int)[i]
        } by {
            if i == 0 {
                assert(node_items(t@)[0] == t.val);
            } else {
                assert(node_items(t@)[i] == forest_items(f)[i - 1]);
                assert(fin[(base + 1) + (i - 1)].id == forest_items(f)[i - 1]);
                assert(store1.contains_key(forest_items(f)[i - 1]));
            }
        }
        // the IDs are duplicate-free: the root's ID was consumed before any child
        assert forall|i1: int, i2: int|
            0 <= i1 < seq![t.val].len() && 0 <= i2 < forest_items(f).len() implies seq![t.val][i1]
            != forest_items(f)[i2] by {
            assert(store1.contains_key(forest_items(f)[i2]));
        }
        vstd::seq_lib::lemma_no_dup_in_concat(seq![t.val], forest_items(f));
        assert(ids.no_duplicates());
        // every ID had a payload at entry
        assert forall|i: int| 0 <= i < ids.len() implies store0.contains_key(
            #[trigger] ids[i],
        ) by {
            if i > 0 {
                assert(store1.contains_key(forest_items(f)[i - 1]));
            }
        }
        // the store lost exactly this subtree's IDs
        assert forall|x: u32| #[trigger] ids.contains(x) <==> x == t.val || forest_items(
            f,
        ).contains(x) by {
            lemma_concat_contains(seq![t.val], forest_items(f), x);
            assert(seq![t.val].contains(x) <==> x == t.val);
        }
        assert(store@ =~= store0.remove_keys(ids.to_set()));
    }
    Ok(())
}

/// Materializes every subtree of a forest, one after the other, at the end
/// of `arena`; hands back the arena index of each top-level subtree, in
/// order.
fn mat_forest<P>(
    ts: &Vec<SubTree<u32>>,
    store: &mut PayloadStore<P>,
    parent: Option<usize>,
    arena: &mut Vec<DomainNode<P>>,
) -> (r: Result<Vec<usize>, LookupError>)
    requires
        old(arena)@.len() + forest_size(shapes_of(ts@)) <= usize::MAX,
    ensures
        final(arena)@.len() >= old(arena)@.len(),
        ({
            let f = shapes_of(ts@);
            let base = old(arena)@.len() as int;
            let ids = forest_items(f);
            match r {
                Ok(idxs) => {
                    &&& final(arena)@.len() == old(arena)@.len() + forest_size(f)
                    &&& (forall|i: int| 0 <= i < base ==> final(arena)@[i] == old(arena)@[i])
                    &&& idxs@ == level_indices(f, base)
                    &&& forest_region_matches(final(arena)@, f, base, parent, old(store)@)
                    &&& ids.no_duplicates()
                    &&& (forall|i: int|
                        0 <= i < ids.len() ==> old(store)@.contains_key(#[trigger] ids[i]))
                    &&& final(store)@ == old(store)@.remove_keys(ids.to_set())
                },
                Err(e) => ids.contains(e.id) && (!old(store)@.contains_key(e.id)
                    || !ids.no_duplicates()),
            }
        }),
    decreases *ts,
{
    let ghost f = shapes_of(ts@);
    let mut idxs: Vec<usize> = Vec::new();
    let mut j: usize = 0;
    proof {
        lemma_shapes_of_index(ts@);
    }
    while j < ts.len()
        invariant
            f == shapes_of(ts@),
            f.len() == ts@.len(),
            forall|i: int| 0 <= i < f.len() ==> f[i] == shape_of(ts@[i]),
            old(arena)@.len() + forest_size(f) <= usize::MAX,
            j <= f.len(),
            arena@.len() == old(arena)@.len() + forest_size(f.take(j as int)),
            forall|i: int| 0 <= i < old(arena)@.len() ==> arena@[i] == old(arena)@[i],
            idxs@ == level_indices(f.take(j as int), old(arena)@.len() as int),
            forest_region_matches(
                arena@,
                f.take(j as int),
                old(arena)@.len() as int,
                parent,
                old(store)@,
            ),
            forest_items(f.take(j as int)).no_duplicates(),
            forall|i: int|
                0 <= i < forest_items(f.take(j as int)).len() ==> old(store)@.contains_key(
                    #[trigger] forest_items(f.take(j as int))[i],
                ),
            store@ == old(store)@.remove_keys(forest_items(f.take(j as int)).to_set()),
        decreases f.len() - j,
    {
        let ghost jj = j as int;
        let ghost base0 = old(arena)@.len() as int;
        let ghost store0 = old(store)@;
        let ghost pre_ids = forest_items(f.take(jj));
        let ghost store_pre = store@;
        let ghost arena_pre = arena@;
        let ghost child = f[jj];
        let ghost child_ids = node_items(child);
        proof {
            lemma_forest_items_step(f, jj);
        }
        idxs.push(arena.len());
        let res = mat_tree(&ts[j], store, parent, arena);
        match res {
            Ok(_) => {
                proof {
                    let basej = base0 + forest_size(f.take(jj));
                    lemma_region_transfer(arena_pre, arena@, f.take(jj), base0, parent, store0);
                    assert forall|i: int|
                        0 <= i < node_size(child) implies store_pre[#[trigger] child_ids[i]]
                        == store0[child_ids[i]] by {
                        assert(store_pre.contains_key(child_ids[i]));
                    }
                    lemma_node_region_payload_map(arena@, child, basej, parent, store_pre, store0);
                    lemma_forest_region_step(arena@, f, jj, base0, parent, store0);
                    assert forall|i1: int, i2: int|
                        0 <= i1 < pre_ids.len() && 0 <= i2 < child_ids.len() implies pre_ids[i1]
                        != child_ids[i2] by {
                        assert(store_pre.contains_key(child_ids[i2]));
                        assert(!pre_ids.to_set().contains(child_ids[i2]));
                        assert(pre_ids.contains(pre_ids[i1]));
                    }
                    vstd::seq_lib::lemma_no_dup_in_concat(pre_ids, child_ids);
                    assert forall|x: u32|
                        #[trigger] (pre_ids + child_ids).contains(x) <==> pre_ids.contains(x)
                            || child_ids.contains(x) by {
                        lemma_concat_contains(pre_ids, child_ids, x);
                    }
                    assert(store@ =~= store0.remove_keys(
                        forest_items(f.take(jj + 1)).to_set(),
                    ));
                    // the recorded index steps the level indices
                    assert(f.take(jj + 1) =~= f.take(jj) + seq![child]);
                    lemma_layout_concat(f.take(jj), seq![child], base0, parent);
                    assert(seq![child].drop_first() =~= Seq::<ShapeNode<u32>>::empty());
                    assert(level_indices(seq![child].drop_first(), basej + node_size(child))
                        =~= Seq::<usize>::empty());
                    assert(level_indices(seq![child], basej) =~= seq![
                        (basej as usize),
                    ]);
                    assert(idxs@ =~= level_indices(f.take(jj + 1), base0));
                }
            },
            Err(e) => {
                proof {
                    let rest_ids = forest_items(f.skip(jj + 1));
                    let tail_ids = child_ids + rest_ids;
                    assert(f =~= f.take(jj + 1) + f.skip(jj + 1));
                    lemma_forest_items_concat(f.take(jj + 1), f.skip(jj + 1));
                    assert(forest_items(f) == (pre_ids + child_ids) + rest_ids);
                    assert((pre_ids + child_ids) + rest_ids =~= pre_ids + tail_ids);
                    assert(child_ids.contains(e.id));
                    lemma_concat_contains(child_ids, rest_ids, e.id);
                    lemma_concat_contains(pre_ids, tail_ids, e.id);
                    assert(forest_items(f).contains(e.id));
                    if !child_ids.no_duplicates() {
                        if forest_items(f).no_duplicates() {
                            lemma_no_dup_parts(pre_ids, tail_ids);
                            lemma_no_dup_parts(child_ids, rest_ids);
                            assert(false);
                        }
                    } else if !store_pre.contains_key(e.id) {
                        if store0.contains_key(e.id) {
                            assert(pre_ids.to_set().contains(e.id));
                            lemma_dup_across(pre_ids, tail_ids, e.id);
                            if forest_items(f).no_duplicates() {
                                assert(false);
                            }
                        }
                    }
                    assert(!store0.contains_key(e.id) || !forest_items(f).no_duplicates());
                }
                return Err(e);
            },
        }
        j = j + 1;
    }
    proof {
        assert(f.take(f.len() as int) =~= f);
    }
    Ok(idxs)
}

/// The node at `i` is consistent with its neighbours: its parent reference
/// points strictly earlier at a node that lists it as a child, and each of
/// its children lies strictly later and points back at it.
pub open spec fn wf_node_at<P>(nodes: Seq<DomainNode<P>>, i: int) -> bool {
    &&& (match nodes[i].parent {
        Some(p) => p < i && nodes[p as int].children@.contains(i as usize),
        None => true,
    })
    &&& (forall|k: int|
        0 <= k < nodes[i].children@.len() ==> i < (#[trigger] nodes[i].children@[k])
            < nodes.len() && nodes[nodes[i].children@[k] as int].parent == Some(i as usize))
}

/// Every node of the arena is consistent with its neighbours.
pub open spec fn wf_arena<P>(nodes: Seq<DomainNode<P>>) -> bool {
    forall|i: int| 0 <= i < nodes.len() ==> wf_node_at(nodes, i)
}

proof fn lemma_node_size_pos(n: ShapeNode<u32>)
    ensures
        node_size(n) == 1 + forest_size(n.children),
{
}

proof fn lemma_level_indices_bounds(f: Seq<ShapeNode<u32>>, base: int)
    requires
        0 <= base,
        base + forest_size(f) <= usize::MAX,
    ensures
        level_indices(f, base).len() == f.len(),
        forall|k: int|
            0 <= k < f.len() ==> base + forest_size(f.take(k)) == #[trigger] level_indices(
                f,
                base,
            )[k] && base <= level_indices(f, base)[k] < base + forest_size(f),
    decreases f,
{
    lemma_layout_lens_forest(f, base, None::<usize>);
    if f.len() > 0 {
        lemma_node_size_pos(f[0]);
        lemma_forest_split(f);
        let rest = f.drop_first();
        lemma_level_indices_bounds(rest, base + node_size(f[0]));
        assert forall|k: int|
            0 <= k < f.len() implies base + forest_size(f.take(k)) == #[trigger] level_indices(
            f,
            base,
        )[k] && base <= level_indices(f, base)[k] < base + forest_size(f) by {
            if k == 0 {
                assert(f.take(0) =~= Seq::<ShapeNode<u32>>::empty());
                assert(forest_items(f.take(0)) =~= Seq::<u32>::empty());
            } else {
                assert(level_indices(f, base)[k] == level_indices(
                    rest,
                    base + node_size(f[0]),
                )[k - 1]);
                assert(f.take(k) =~= seq![f[0]] + rest.take(k - 1));
                lemma_forest_items_concat(seq![f[0]], rest.take(k - 1));
                assert(seq![f[0]].drop_first() =~= Seq::<ShapeNode<u32>>::empty());
                assert(forest_items(seq![f[0]].drop_first()) =~= Seq::<u32>::empty());
                assert(forest_items(seq![f[0]]) =~= node_items(f[0]));
            }
        }
    }
}

proof fn lemma_top_parents(f: Seq<ShapeNode<u32>>, base: int, parent: Option<usize>)
    requires
        0 <= base,
        base + forest_size(f) <= usize::MAX,
    ensures
        forall|k: int|
            0 <= k < f.len() ==> forest_parents(f, base, parent)[(#[trigger] level_indices(
                f,
                base,
            )[k]) - base] == parent,
    decreases f,
{
    lemma_layout_lens_forest(f, base, parent);
    lemma_level_indices_bounds(f, base);
    if f.len() > 0 {
        lemma_node_size_pos(f[0]);
        lemma_forest_split(f);
        let rest = f.drop_first();
        let sz = node_size(f[0]) as int;
        lemma_top_parents(rest, base + sz, parent);
        lemma_layout_lens_forest(rest, base + sz, parent);
        lemma_layout_lens_node(f[0], base, parent);
        lemma_level_indices_bounds(rest, base + sz);
        assert forall|k: int|
            0 <= k < f.len() implies forest_parents(f, base, parent)[(#[trigger] level_indices(
            f,
            base,
        )[k]) - base] == parent by {
            if k == 0 {
                assert(level_indices(f, base)[0] == base as usize);
                assert(forest_parents(f, base, parent)[0] == node_parents(f[0], base, parent)[0]);
            } else {
                let c = level_indices(f, base)[k] as int;
                assert(c == level_indices(rest, base + sz)[k - 1]);
                assert(c - base >= sz);
                assert(forest_parents(f, base, parent)[c - base] == forest_parents(
                    rest,
                    base + sz,
                    parent,
                )[c - base - sz]);
            }
        }
    }
}

proof fn lemma_forest_region_split<P>(
    nodes: Seq<DomainNode<P>>,
    f: Seq<ShapeNode<u32>>,
    base: int,
    parent: Option<usize>,
    payloads: Map<u32, P>,
)
    requires
        forest_region_matches(nodes, f, base, parent, payloads),
        f.len() > 0,
    ensures
        node_region_matches(nodes, f[0], base, parent, payloads),
        forest_region_matches(nodes, f.drop_first(), base + node_size(f[0]), parent, payloads),
    decreases f,
{
    lemma_forest_split(f);
    let rest = f.drop_first();
    let sz = node_size(f[0]) as int;
    lemma_layout_lens_node(f[0], base, parent);
    lemma_layout_lens_forest(rest, base + sz, parent);
    assert forall|i: int| 0 <= i < node_size(f[0]) implies {
        &&& (#[trigger] nodes[base + i]).id == node_items(f[0])[i]
        &&& nodes[base + i].payload == payloads[node_items(f[0])[i]]
        &&& nodes[base + i].parent == node_parents(f[0], base, parent)[i]
        &&& nodes[base + i].children@ == node_child_lists(f[0], base)[i]
    } by {
        assert(nodes[base + i].id == forest_items(f)[i]);
    }
    assert forall|i: int| 0 <= i < forest_size(rest) implies {
        &&& (#[trigger] nodes[(base + sz) + i]).id == forest_items(rest)[i]
        &&& nodes[(base + sz) + i].payload == payloads[forest_items(rest)[i]]
        &&& nodes[(base + sz) + i].parent == forest_parents(rest, base + sz, parent)[i]
        &&& nodes[(base + sz) + i].children@ == forest_child_lists(rest, base + sz)[i]
    } by {
        assert(nodes[base + (sz + i)].id == forest_items(f)[sz + i]);
    }
}

proof fn lemma_node_region_split<P>(
    nodes: Seq<DomainNode<P>>,
    n: ShapeNode<u32>,
    base: int,
    parent: Option<usize>,
    payloads: Map<u32, P>,
)
    requires
        node_region_matches(nodes, n, base, parent, payloads),
    ensures
        nodes[base].id == n.val,
        nodes[base].parent == parent,
        nodes[base].children@ == level_indices(n.children, base + 1),
        forest_region_matches(nodes, n.children, base + 1, Some(base as usize), payloads),
    decreases n,
{
    lemma_node_size_pos(n);
    lemma_layout_lens_forest(n.children, base + 1, Some(base as usize));
    assert(node_items(n)[0] == n.val);
    assert(node_parents(n, base, parent)[0] == parent);
    assert(node_child_lists(n, base)[0] == level_indices(n.children, base + 1));
    assert(nodes[base + 0].id == node_items(n)[0]);
    assert(nodes[base + 0].parent == node_parents(n, base, parent)[0]);
    assert(nodes[base + 0].children@ == node_child_lists(n, base)[0]);
    assert forall|i: int| 0 <= i < forest_size(n.children) implies {
        &&& (#[trigger] nodes[(base + 1) + i]).id == forest_items(n.children)[i]
        &&& nodes[(base + 1) + i].payload == payloads[forest_items(n.children)[i]]
        &&& nodes[(base + 1) + i].parent == forest_parents(
            n.children,
            base + 1,
            Some(base as usize),
        )[i]
        &&& nodes[(base + 1) + i].children@ == forest_child_lists(n.children, base + 1)[i]
    } by {
        assert(nodes[base + (1 + i)].id == node_items(n)[1 + i]);
    }
}

proof fn lemma_region_wf<P>(
    nodes: Seq<DomainNode<P>>,
    f: Seq<ShapeNode<u32>>,
    base: int,
    parent: Option<usize>,
    payloads: Map<u32, P>,
)
    requires
        forest_region_matches(nodes, f, base, parent, payloads),
        nodes.len() <= usize::MAX,
        match parent {
            Some(p) => 0 <= p < base && (forall|k: int|
                0 <= k < f.len() ==> nodes[p as int].children@.contains(
                    #[trigger] level_indices(f, base)[k],
                )),
            None => true,
        },
    ensures
        forall|i: int| base <= i < base + forest_size(f) ==> wf_node_at(nodes, i),
    decreases f,
{
    if f.len() > 0 {
        let n0 = f[0];
        let rest = f.drop_first();
        let sz = node_size(n0) as int;
        lemma_node_size_pos(n0);
        lemma_forest_split(f);
        lemma_forest_region_split(nodes, f, base, parent, payloads);
        lemma_node_region_split(nodes, n0, base, parent, payloads);
        lemma_level_indices_bounds(f, base);
        lemma_level_indices_bounds(n0.children, base + 1);
        lemma_level_indices_bounds(rest, base + sz);
        // the head node's own children point back at it
        lemma_top_parents(n0.children, base + 1, Some(base as usize));
        // its children region is well-formed
        assert forall|k: int|
            0 <= k < n0.children.len() implies nodes[base].children@.contains(
            #[trigger] level_indices(n0.children, base + 1)[k],
        ) by {
            assert(nodes[base].children@[k] == level_indices(n0.children, base + 1)[k]);
        }
        lemma_region_wf(nodes, n0.children, base + 1, Some(base as usize), payloads);
        // the rest of the forest is well-formed
        assert forall|k: int|
            0 <= k < rest.len() implies match parent {
            Some(p) => nodes[p as int].children@.contains(
                #[trigger] level_indices(rest, base + sz)[k],
            ),
            None => true,
        } by {
            if parent is Some {
                assert(level_indices(f, base)[k + 1] == level_indices(rest, base + sz)[k]);
            }
        }
        lemma_region_wf(nodes, rest, base + sz, parent, payloads);
        // and the head node itself is well-formed
        assert(wf_node_at(nodes, base)) by {
            match parent {
                Some(p) => {
                    assert(level_indices(f, base)[0] == base as usize);
                    assert(nodes[p as int].children@.contains(base as usize));
                },
                None => {},
            }
            assert forall|k: int|
                0 <= k < nodes[base].children@.len() implies base < (
            #[trigger] nodes[base].children@[k]) < nodes.len() && nodes[nodes[base].children@[k] as int].parent
                == Some(base as usize) by {
                let c = nodes[base].children@[k] as int;
                assert(c == level_indices(n0.children, base + 1)[k]);
                assert(base + 1 <= c < base + 1 + forest_size(n0.children));
                assert(forest_parents(n0.children, base + 1, Some(base as usize))[c - (base + 1)]
                    == Some(base as usize));
                assert(nodes[(base + 1) + (c - (base + 1))].parent == forest_parents(
                    n0.children,
                    base + 1,
                    Some(base as usize),
                )[c - (base + 1)]);
            }
        }
        assert forall|i: int| base <= i < base + forest_size(f) implies wf_node_at(nodes, i) by {
            if i == base {
            } else if i < base + sz {
                assert(base + 1 <= i < base + 1 + forest_size(n0.children));
            } else {
                assert(base + sz <= i < base + sz + forest_size(rest));
            }
        }
    }
}

/// A fully materialized arena is well-formed: parent and child references
/// agree, parents come strictly before their children, and the recorded
/// roots are exactly laid-out root nodes with no parent.
pub proof fn lemma_materialized_wf<P>(
    nodes: Seq<DomainNode<P>>,
    roots: Seq<usize>,
    f: Seq<ShapeNode<u32>>,
    payloads: Map<u32, P>,
)
    requires
        forest_region_matches(nodes, f, 0, None::<usize>, payloads),
        nodes.len() == forest_size(f),
        roots == level_indices(f, 0),
        nodes.len() <= usize::MAX,
    ensures
        wf_arena(nodes),
        forall|k: int|
            0 <= k < roots.len() ==> (#[trigger] roots[k]) < nodes.len()
                && nodes[roots[k] as int].parent is None,
    decreases f,
{
    lemma_region_wf(nodes, f, 0, None::<usize>, payloads);
    lemma_level_indices_bounds(f, 0);
    lemma_top_parents(f, 0, None::<usize>);
    lemma_layout_lens_forest(f, 0, None::<usize>);
    assert forall|k: int|
        0 <= k < roots.len() implies (#[trigger] roots[k]) < nodes.len()
            && nodes[roots[k] as int].parent is None by {
        let c = roots[k] as int;
        assert(forest_parents(f, 0, None::<usize>)[c] == None::<usize>);
        assert(nodes[c].parent == forest_parents(f, 0, None::<usize>)[c]);
    }
}

/// The ancestor chain of node `i`: its parent, then the parent's parent and
/// so on, nearest first. The chain follows parent references only; it is
/// guarded so that it is total, ending early at any reference that does not
/// point strictly earlier.
pub open spec fn ancestors_spec<P>(nodes: Seq<DomainNode<P>>, i: int) -> Seq<usize>
    decreases i,
{
    if 0 <= i < nodes.len() {
        match nodes[i].parent {
            Some(p) => if p < i {
                seq![p] + ancestors_spec(nodes, p as int)
            } else {
                seq![p]
            },
            None => Seq::empty(),
        }
    } else {
        Seq::empty()
    }
}

impl<P> DomainTree<P> {
    /// The tree is internally consistent: the arena is well-formed and the
    /// recorded roots point at parentless nodes.
    pub open spec fn wf(&self) -> bool {
        &&& wf_arena(self.nodes@)
        &&& forall|k: int|
            0 <= k < self.roots@.len() ==> (#[trigger] self.roots@[k]) < self.nodes@.len()
                && self.nodes@[self.roots@[k] as int].parent is None
    }

    /// How many nodes the tree holds, at all depths.
    pub fn len(&self) -> (n: usize)
        ensures
            n == self.nodes@.len(),
    {
        self.nodes.len()
    }

    /// The arena indices of the ancestors of node `i`, nearest first, ending
    /// at a root. Only parent back-references are followed, never child
    /// links, so the walk descends strictly and cannot loop.
    pub fn ancestors_of(&self, i: usize) -> (r: Vec<usize>)
        requires
            wf_arena(self.nodes@),
            i < self.nodes@.len(),
        ensures
            r@ == ancestors_spec(self.nodes@, i as int),
    {
        let mut r: Vec<usize> = Vec::new();
        let mut cur = i;
        proof {
            assert(Seq::<usize>::empty() + ancestors_spec(self.nodes@, i as int)
                =~= ancestors_spec(self.nodes@, i as int));
        }
        loop
            invariant
                wf_arena(self.nodes@),
                cur < self.nodes@.len(),
                ancestors_spec(self.nodes@, i as int) == r@ + ancestors_spec(
                    self.nodes@,
                    cur as int,
                ),
            decreases cur,
        {
            let parent = self.nodes[cur].parent;
            match parent {
                Some(p) => {
                    proof {
                        assert(wf_node_at(self.nodes@, cur as int));
                        assert(ancestors_spec(self.nodes@, cur as int) == seq![p]
                            + ancestors_spec(self.nodes@, p as int));
                        assert((r@ + seq![p]) + ancestors_spec(self.nodes@, p as int) =~= r@ + (
                        seq![p] + ancestors_spec(self.nodes@, p as int)));
                    }
                    r.push(p);
                    cur = p;
                },
                None => {
                    proof {
                        assert(ancestors_spec(self.nodes@, cur as int) =~= Seq::<usize>::empty());
                        assert(r@ + Seq::<usize>::empty() =~= r@);
                    }
                    return r;
                },
            }
        }
    }

    /// Flattens the tree into one row per node, in arena (pre-)order: each
    /// row carries the node's ID, its parent's ID and its children's IDs.
    pub fn flatten_tree(&self) -> (r: Vec<FlatNode>)
        requires
            wf_arena(self.nodes@),
        ensures
            r@.len() == self.nodes@.len(),
            forall|i: int|
                0 <= i < self.nodes@.len() ==> {
                    &&& (#[trigger] r@[i]).id == self.nodes@[i].id
                    &&& r@[i].parent == (match self.nodes@[i].parent {
                        Some(p) => Some(self.nodes@[p as int].id),
                        None => None::<u32>,
                    })
                    &&& r@[i].children@.len() == self.nodes@[i].children@.len()
                    &&& (forall|k: int|
                        0 <= k < r@[i].children@.len() ==> #[trigger] r@[i].children@[k]
                            == self.nodes@[self.nodes@[i].children@[k] as int].id)
                },
    {
        let mut r: Vec<FlatNode> = Vec::new();
        let mut i: usize = 0;
        while i < self.nodes.len()
            invariant
                wf_arena(self.nodes@),
                i <= self.nodes@.len(),
                r@.len() == i,
                forall|n: int|
                    0 <= n < i ==> {
                        &&& (#[trigger] r@[n]).id == self.nodes@[n].id
                        &&& r@[n].parent == (match self.nodes@[n].parent {
                            Some(p) => Some(self.nodes@[p as int].id),
                            None => None::<u32>,
                        })
                        &&& r@[n].children@.len() == self.nodes@[n].children@.len()
                        &&& (forall|k: int|
                            0 <= k < r@[n].children@.len() ==> #[trigger] r@[n].children@[k]
                                == self.nodes@[self.nodes@[n].children@[k] as int].id)
                    },
            decreases self.nodes@.len() - i,
        {
            proof {
                assert(wf_node_at(self.nodes@, i as int));
            }
            let parent_id = match self.nodes[i].parent {
                Some(p) => Some(self.nodes[p].id),
                None => None,
            };
            let mut kids: Vec<u32> = Vec::new();
            let mut k: usize = 0;
            while k < self.nodes[i].children.len()
                invariant
                    wf_arena(self.nodes@),
                    i < self.nodes@.len(),
                    wf_node_at(self.nodes@, i as int),
                    k <= self.nodes@[i as int].children@.len(),
                    kids@.len() == k,
                    forall|k2: int|
                        0 <= k2 < k ==> #[trigger] kids@[k2] == self.nodes@[self.nodes@[
                            i as int
                        ].children@[k2] as int].id,
                decreases self.nodes@[i as int].children@.len() - k,
            {
                let c = self.nodes[i].children[k];
                kids.push(self.nodes[c].id);
                k = k + 1;
            }
            r.push(FlatNode { parent: parent_id, id: self.nodes[i].id, children: kids });
            i = i + 1;
        }
        r
    }
}

/// Parent and child agree after materialization: for any node with a parent,
/// the nearest ancestor is that parent, and the parent's child list holds
/// the node itself.
pub proof fn lemma_parent_child_consistency<P>(nodes: Seq<DomainNode<P>>, i: int)
    requires
        wf_arena(nodes),
        0 <= i < nodes.len(),
        nodes[i].parent is Some,
    ensures
        ancestors_spec(nodes, i).len() >= 1,
        ancestors_spec(nodes, i)[0] == nodes[i].parent.unwrap(),
        nodes[ancestors_spec(nodes, i)[0] as int].children@.contains(i as usize),
{
    assert(wf_node_at(nodes, i));
}

/// The parent back-reference owns nothing and cannot form a cycle: every
/// ancestor chain descends strictly in the arena, so it is finite, at most
/// `i` steps long, and never revisits a node.
pub proof fn lemma_back_references_acyclic<P>(nodes: Seq<DomainNode<P>>, i: int)
    requires
        wf_arena(nodes),
        0 <= i < nodes.len(),
    ensures
        ancestors_spec(nodes, i).len() <= i,
        forall|k: int|
            0 <= k < ancestors_spec(nodes, i).len() ==> (#[trigger] ancestors_spec(nodes, i)[k])
                < (if k == 0 {
                i
            } else {
                ancestors_spec(nodes, i)[k - 1] as int
            }),
    decreases i,
{
    let chain = ancestors_spec(nodes, i);
    assert(wf_node_at(nodes, i));
    match nodes[i].parent {
        Some(p) => {
            lemma_back_references_acyclic(nodes, p as int);
            let sub = ancestors_spec(nodes, p as int);
            assert(chain == seq![p] + sub);
            assert forall|k: int|
                0 <= k < chain.len() implies (#[trigger] chain[k]) < (if k == 0 {
                i
            } else {
                chain[k - 1] as int
            }) by {
                if k > 0 {
                    assert(chain[k] == sub[k - 1]);
                    if k > 1 {
                        assert(chain[k - 1] == sub[k - 2]);
                    }
                }
            }
        },
        None => {},
    }
}

/// One row of the flattened tree: a node's ID beside its parent's ID and its
/// children's IDs.
#[derive(Debug, Clone)]
pub struct FlatNode {
    pub parent: Option<u32>,
    pub id: u32,
    pub children: Vec<u32>,
}

/// Materialization succeeds exactly when no ID repeats in the shape and every
/// ID has a payload in the store.
pub open spec fn ids_ok(f: Seq<ShapeNode<u32>>, dom: Set<u32>) -> bool {
    &&& forest_items(f).no_duplicates()
    &&& forall|i: int|
        0 <= i < forest_items(f).len() ==> dom.contains(#[trigger] forest_items(f)[i])
}

/// Materializes a whole forest shape: consumes the payload owned for every
/// ID and lays the domain nodes out in pre-order, children as indices,
/// parents as non-owning back-references. Succeeds if and only if the
/// shape's IDs are pairwise distinct and each one has a payload; otherwise
/// it reports the first ID with no payload left, and no tree is returned.
pub fn materialize<P>(shape: &Tree<u32>, store: PayloadStore<P>) -> (r: Result<
    DomainTree<P>,
    LookupError,
>)
    requires
        forest_size(shape@) <= usize::MAX,
    ensures
        r is Ok <==> ids_ok(shape@, store@.dom()),
        match r {
            Ok(dt) => {
                &&& dt.nodes@.len() == forest_size(shape@)
                &&& forest_region_matches(dt.nodes@, shape@, 0, None::<usize>, store@)
                &&& dt.roots@ == level_indices(shape@, 0)
                &&& dt.wf()
            },
            Err(e) => forest_items(shape@).contains(e.id) && (!store@.contains_key(e.id)
                || !forest_items(shape@).no_duplicates()),
        },
{
    let ghost store0 = store@;
    let mut st = store;
    let mut arena: Vec<DomainNode<P>> = Vec::new();
    proof {
        assert(shapes_of(shape.children@) == shape@);
    }
    match mat_forest(&shape.children, &mut st, None, &mut arena) {
        Ok(roots) => {
            proof {
                lemma_materialized_wf(arena@, roots@, shape@, store0);
            }
            Ok(DomainTree { nodes: arena, roots })
        },
        Err(e) => {
            proof {
                if ids_ok(shape@, store0.dom()) {
                    if !store0.contains_key(e.id) {
                        let i = choose|i: int|
                            0 <= i < forest_items(shape@).len() && forest_items(shape@)[i] == e.id;
                        assert(store0.dom().contains(forest_items(shape@)[i]));
                        assert(false);
                    }
                }
            }
            Err(e)
        },
    }
}

} // verus!
