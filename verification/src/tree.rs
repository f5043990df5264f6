//! Forest builder: turns a flat, document-ordered sequence of
//! `(indent, item)` pairs into a forest of subtrees, using only relative
//! comparisons between each entry's indent and the level currently being
//! collected.

use vstd::prelude::*;

verus! {

/// A subtree: one item together with its child subtrees, in document order.
#[derive(PartialEq, Debug)]
pub struct SubTree<T> where T: Copy {
    pub val: T,
    pub children: Vec<SubTree<T>>,
}

/// A whole forest; its top-level subtrees are the entries at indent 0.
#[derive(PartialEq, Debug)]
pub struct Tree<T> where T: Copy {
    pub children: Vec<SubTree<T>>,
}

/// Mathematical shape of a subtree: the same rose tree over `Seq`.
pub struct ShapeNode<T> {
    pub val: T,
    pub children: Seq<ShapeNode<T>>,
}

/// The shape of one subtree.
pub open spec fn shape_of<T: Copy>(t: SubTree<T>) -> ShapeNode<T>
    decreases t,
{
    ShapeNode { val: t.val, children: shapes_of(t.children@) }
}

/// The shapes of a sequence of subtrees, element by element.
pub open spec fn shapes_of<T: Copy>(ts: Seq<SubTree<T>>) -> Seq<ShapeNode<T>>
    decreases ts,
{
    if ts.len() == 0 {
        Seq::empty()
    } else {
        seq![shape_of(ts[0])] + shapes_of(ts.drop_first())
    }
}

/// `shapes_of` maps `shape_of` over the sequence, index by index.
pub broadcast proof fn lemma_shapes_of_index<T: Copy>(ts: Seq<SubTree<T>>)
    ensures
        (#[trigger] shapes_of(ts)).len() == ts.len(),
        forall|i: int| 0 <= i < ts.len() ==> shapes_of(ts)[i] == shape_of(ts[i]),
    decreases ts,
{
    if ts.len() > 0 {
        lemma_shapes_of_index(ts.drop_first());
        assert forall|i: int| 0 <= i < ts.len() implies shapes_of(ts)[i] == shape_of(ts[i]) by {
            if i > 0 {
                assert(ts.drop_first()[i - 1] == ts[i]);
            }
        }
    }
}

impl<T: Copy> View for SubTree<T> {
    type V = ShapeNode<T>;

    open spec fn view(&self) -> ShapeNode<T> {
        shape_of(*self)
    }
}

impl<T: Copy> View for Tree<T> {
    type V = Seq<ShapeNode<T>>;

    open spec fn view(&self) -> Seq<ShapeNode<T>> {
        shapes_of(self.children@)
    }
}

impl<T: Copy> SubTree<T> {
    pub fn new(val: T, children: Vec<SubTree<T>>) -> (r: SubTree<T>)
        ensures
            r == (SubTree { val, children }),
    {
        SubTree { val, children }
    }
}

impl<T: Copy> Tree<T> {
    pub fn new(children: Vec<SubTree<T>>) -> (r: Tree<T>)
        ensures
            r == (Tree { children }),
    {
        Tree { children }
    }
}

/// The nodes collected at `threshold` from a suffix of the flat input,
/// together with how many entries they consumed.
///
/// An entry whose indent equals `threshold` starts a node; its descendants are
/// the entries collected at `threshold + 1` right after it. Any entry whose
/// indent differs (shallower, or deeper than `threshold` with no entry at
/// `threshold` in between) stops the collection and is left for the caller.
pub open spec fn parse_nodes<T: Copy>(entries: Seq<(usize, T)>, threshold: nat) -> (Seq<
    ShapeNode<T>,
>, nat)
    decreases entries.len(),
{
    if entries.len() == 0 || entries[0].0 != threshold {
        (Seq::<ShapeNode<T>>::empty(), 0 as nat)
    } else {
        let val = entries[0].1;
        let kids = parse_nodes(entries.drop_first(), threshold + 1);
        let used = if kids.1 + 1 <= entries.len() {
            (kids.1 + 1) as nat
        } else {
            entries.len()
        };
        let siblings = parse_nodes(entries.skip(used as int), threshold);
        (seq![ShapeNode { val, children: kids.0 }] + siblings.0, used + siblings.1)
    }
}

/// Collection never consumes more entries than there are.
pub proof fn lemma_parse_nodes_used<T: Copy>(entries: Seq<(usize, T)>, threshold: nat)
    ensures
        parse_nodes(entries, threshold).1 <= entries.len(),
    decreases entries.len(),
{
    if entries.len() > 0 && entries[0].0 == threshold {
        let kids = parse_nodes(entries.drop_first(), threshold + 1);
        lemma_parse_nodes_used(entries.drop_first(), threshold + 1);
        let used = if kids.1 + 1 <= entries.len() {
            (kids.1 + 1) as nat
        } else {
            entries.len()
        };
        lemma_parse_nodes_used(entries.skip(used as int), threshold);
    }
}

/// The forest that the flat input denotes: the nodes collected at indent 0
/// from the whole sequence.
pub open spec fn forest_spec<T: Copy>(entries: Seq<(usize, T)>) -> Seq<ShapeNode<T>> {
    parse_nodes(entries, 0).0
}

/// Collects, starting at `cursor`, the consecutive nodes whose indent equals
/// `threshold`, returning them with the position of the first entry not
/// consumed. One loop iteration per sibling, one recursion per depth level,
/// so the stack only grows with the nesting depth.
fn collect_nodes<T: Copy>(entries: &Vec<(usize, T)>, cursor: usize, threshold: usize) -> (res: (
    Vec<SubTree<T>>,
    usize,
))
    requires
        cursor <= entries@.len(),
        threshold <= cursor,
    ensures
        shapes_of(res.0@) == parse_nodes(entries@.skip(cursor as int), threshold as nat).0,
        res.1 == cursor + parse_nodes(entries@.skip(cursor as int), threshold as nat).1,
        cursor <= res.1 <= entries@.len(),
    decreases entries@.len() - cursor,
{
    let ghost full = parse_nodes(entries@.skip(cursor as int), threshold as nat);
    let mut nodes: Vec<SubTree<T>> = Vec::new();
    let mut cur = cursor;
    proof {
        lemma_parse_nodes_used(entries@.skip(cursor as int), threshold as nat);
        assert(shapes_of(nodes@) + full.0 =~= full.0);
    }
    while cur < entries.len() && entries[cur].0 == threshold
        invariant
            cursor <= cur <= entries@.len(),
            threshold <= cursor,
            full == parse_nodes(entries@.skip(cursor as int), threshold as nat),
            full.0 == shapes_of(nodes@) + parse_nodes(
                entries@.skip(cur as int),
                threshold as nat,
            ).0,
            full.1 == (cur - cursor) + parse_nodes(entries@.skip(cur as int), threshold as nat).1,
        decreases entries@.len() - cur,
    {
        let ghost s = entries@.skip(cur as int);
        let (ind, val) = entries[cur];
        let (kids, after_kids) = collect_nodes(entries, cur + 1, threshold + 1);
        proof {
            assert(s.drop_first() =~= entries@.skip(cur + 1));
            lemma_parse_nodes_used(s.drop_first(), threshold as nat + 1);
            assert(s.skip(after_kids - cur) =~= entries@.skip(after_kids as int));
        }
        let node = SubTree { val, children: kids };
        let ghost acc = nodes@;
        nodes.push(node);
        proof {
            let t = threshold as nat;
            let kids_p = parse_nodes(s.drop_first(), t + 1);
            let used = kids_p.1 + 1;
            assert(s[0] == (ind, val));
            assert(shapes_of(kids@) == kids_p.0);
            assert(after_kids == cur + used);
            let sibs_p = parse_nodes(s.skip(used as int), t);
            assert(parse_nodes(s, t).0 == seq![ShapeNode { val, children: kids_p.0 }] + sibs_p.0);
            assert(shape_of(node) == (ShapeNode { val, children: shapes_of(kids@) }));
            lemma_shapes_of_index(acc);
            lemma_shapes_of_index(nodes@);
            assert(shapes_of(nodes@) =~= shapes_of(acc) + seq![shape_of(node)]);
            assert(shapes_of(acc) + (seq![shape_of(node)] + sibs_p.0) =~= (shapes_of(acc)
                + seq![shape_of(node)]) + sibs_p.0);
        }
        cur = after_kids;
    }
    proof {
        // collection stops here, so nothing more is consumed at this level
        let rest = parse_nodes(entries@.skip(cur as int), threshold as nat);
        if cur < entries@.len() {
            assert(entries@.skip(cur as int)[0] == entries@[cur as int]);
        }
        assert(rest.0 == Seq::<ShapeNode<T>>::empty() && rest.1 == 0);
        assert(shapes_of(nodes@) + rest.0 =~= shapes_of(nodes@));
    }
    (nodes, cur)
}

/// The items of one subtree shape, in pre-order: the node first, then its
/// children's items, left to right.
pub open spec fn node_items<T: Copy>(n: ShapeNode<T>) -> Seq<T>
    decreases n,
{
    seq![n.val] + forest_items(n.children)
}

/// The items of a forest, in pre-order, left to right.
pub open spec fn forest_items<T: Copy>(f: Seq<ShapeNode<T>>) -> Seq<T>
    decreases f,
{
    if f.len() == 0 {
        Seq::empty()
    } else {
        node_items(f[0]) + forest_items(f.drop_first())
    }
}

/// How many nodes a forest holds, at all depths.
pub open spec fn forest_size<T: Copy>(f: Seq<ShapeNode<T>>) -> nat {
    forest_items(f).len()
}

/// How many nodes one subtree holds, the node itself included.
pub open spec fn node_size<T: Copy>(n: ShapeNode<T>) -> nat {
    node_items(n).len()
}

/// Splitting a forest splits its pre-order items.
pub proof fn lemma_forest_items_concat<T: Copy>(f1: Seq<ShapeNode<T>>, f2: Seq<ShapeNode<T>>)
    ensures
        forest_items(f1 + f2) == forest_items(f1) + forest_items(f2),
    decreases f1,
{
    if f1.len() == 0 {
        assert(f1 + f2 =~= f2);
        assert(forest_items(f1) + forest_items(f2) =~= forest_items(f2));
    } else {
        assert((f1 + f2).drop_first() =~= f1.drop_first() + f2);
        lemma_forest_items_concat(f1.drop_first(), f2);
        assert(forest_items(f1 + f2) =~= forest_items(f1) + forest_items(f2));
    }
}

/// Stepping a prefix of a forest by one subtree appends that subtree's items,
/// and a prefix together with one more subtree never outgrows the forest.
pub proof fn lemma_forest_items_step<T: Copy>(f: Seq<ShapeNode<T>>, j: int)
    requires
        0 <= j < f.len(),
    ensures
        forest_items(f.take(j + 1)) == forest_items(f.take(j)) + node_items(f[j]),
        forest_size(f.take(j)) + node_size(f[j]) <= forest_size(f),
{
    assert(f.take(j + 1) =~= f.take(j) + seq![f[j]]);
    lemma_forest_items_concat(f.take(j), seq![f[j]]);
    assert(seq![f[j]].drop_first() =~= Seq::<ShapeNode<T>>::empty());
    assert(forest_items(seq![f[j]].drop_first()) =~= Seq::<T>::empty());
    assert(forest_items(seq![f[j]]) =~= node_items(f[j]));
    assert(f =~= f.take(j + 1) + f.skip(j + 1));
    lemma_forest_items_concat(f.take(j + 1), f.skip(j + 1));
}

/// The items of the flat input, stripped of their indents.
pub open spec fn items_of<T: Copy>(entries: Seq<(usize, T)>) -> Seq<T> {
    entries.map_values(|p: (usize, T)| p.1)
}

/// No entry is indented deeper than one level below its predecessor, and the
/// input starts at indent 0: the one family of inputs on which the collection
/// loop never meets an indent gap.
pub open spec fn gap_free<T: Copy>(entries: Seq<(usize, T)>) -> bool {
    forall|j: int|
        0 <= j < entries.len() ==> (#[trigger] entries[j]).0 <= (if j == 0 {
            0int
        } else {
            entries[j - 1].0 + 1
        })
}

/// The position of the first entry whose indent is below `threshold`, or the
/// length if there is none.
pub open spec fn first_below<T: Copy>(entries: Seq<(usize, T)>, threshold: nat) -> nat
    decreases entries.len(),
{
    if entries.len() == 0 {
        0 as nat
    } else if (entries[0].0 as nat) < threshold {
        0 as nat
    } else {
        1 + first_below(entries.drop_first(), threshold)
    }
}

proof fn lemma_first_below_props<T: Copy>(entries: Seq<(usize, T)>, threshold: nat)
    ensures
        first_below(entries, threshold) <= entries.len(),
        forall|j: int|
            0 <= j < first_below(entries, threshold) ==> (#[trigger] entries[j]).0 >= threshold,
        first_below(entries, threshold) < entries.len() ==> entries[first_below(
            entries,
            threshold,
        ) as int].0 < threshold,
    decreases entries.len(),
{
    if entries.len() > 0 && entries[0].0 >= threshold {
        lemma_first_below_props(entries.drop_first(), threshold);
        assert forall|j: int| 0 <= j < first_below(entries, threshold) implies (#[trigger] entries[j]).0
            >= threshold by {
            if j > 0 {
                assert(entries.drop_first()[j - 1] == entries[j]);
            }
        }
    }
}

/// The items of the nodes collected at any threshold are exactly the items of
/// the consumed entries, in input order: nothing is reordered, duplicated or
/// picked out of the middle.
pub proof fn lemma_parse_items<T: Copy>(entries: Seq<(usize, T)>, threshold: nat)
    ensures
        forest_items(parse_nodes(entries, threshold).0) == items_of(
            entries.take(parse_nodes(entries, threshold).1 as int),
        ),
    decreases entries.len(),
{
    let r = parse_nodes(entries, threshold);
    if entries.len() == 0 || entries[0].0 != threshold {
        assert(forest_items(r.0) =~= items_of(entries.take(0)));
    } else {
        let val = entries[0].1;
        let tail = entries.drop_first();
        lemma_parse_nodes_used(tail, threshold + 1);
        lemma_parse_items(tail, threshold + 1);
        let kids = parse_nodes(tail, threshold + 1);
        let used0 = (kids.1 + 1) as nat;
        let rest = entries.skip(used0 as int);
        lemma_parse_nodes_used(rest, threshold);
        lemma_parse_items(rest, threshold);
        let sibs = parse_nodes(rest, threshold);
        let node = ShapeNode { val, children: kids.0 };
        assert((seq![node] + sibs.0).drop_first() =~= sibs.0);
        assert(forest_items(r.0) == node_items(node) + forest_items(sibs.0));
        assert forall|i: int| 0 <= i < r.1 implies (#[trigger] entries.take(r.1 as int)[i]).1 == (
        node_items(node) + forest_items(sibs.0))[i] by {
            if 1 <= i < used0 {
                assert(tail.take(kids.1 as int)[i - 1] == entries[i]);
            } else if i >= used0 {
                assert(rest.take(sibs.1 as int)[i - used0] == entries[i]);
            }
        }
        assert(forest_items(r.0) =~= items_of(entries.take(r.1 as int)));
    }
}

proof fn lemma_first_below_skip<T: Copy>(entries: Seq<(usize, T)>, threshold: nat, m: nat)
    requires
        m <= entries.len(),
        forall|j: int| 0 <= j < m ==> (#[trigger] entries[j]).0 >= threshold,
    ensures
        first_below(entries, threshold) == m + first_below(entries.skip(m as int), threshold),
    decreases m,
{
    if m > 0 {
        let tail = entries.drop_first();
        assert(entries[0].0 >= threshold);
        assert forall|j: int| 0 <= j < m - 1 implies (#[trigger] tail[j]).0 >= threshold by {
            assert(tail[j] == entries[j + 1]);
        }
        lemma_first_below_skip(tail, threshold, (m - 1) as nat);
        assert(tail.skip(m - 1) =~= entries.skip(m as int));
        assert(first_below(entries, threshold) == 1 + first_below(tail, threshold));
    } else {
        assert(entries.skip(0) =~= entries);
    }
}

/// On input whose indents never leave a gap, collection at the matching
/// threshold consumes everything up to the first entry shallower than the
/// threshold.
proof fn lemma_parse_no_gaps<T: Copy>(entries: Seq<(usize, T)>, threshold: nat)
    requires
        entries.len() > 0 ==> entries[0].0 <= threshold,
        forall|j: int| 1 <= j < entries.len() ==> (#[trigger] entries[j]).0 <= entries[j - 1].0 + 1,
    ensures
        parse_nodes(entries, threshold).1 == first_below(entries, threshold),
    decreases entries.len(),
{
    if entries.len() == 0 {
    } else if entries[0].0 != threshold {
        // the head is strictly shallower, so both sides stop at 0
    } else {
        let tail = entries.drop_first();
        assert forall|j: int| 1 <= j < tail.len() implies (#[trigger] tail[j]).0 <= tail[j - 1].0
            + 1 by {
            assert(tail[j] == entries[j + 1] && tail[j - 1] == entries[j]);
        }
        lemma_parse_no_gaps(tail, threshold + 1);
        lemma_parse_nodes_used(tail, threshold + 1);
        lemma_first_below_props(tail, threshold + 1);
        let kids = parse_nodes(tail, threshold + 1);
        let used0 = (kids.1 + 1) as nat;
        let rest = entries.skip(used0 as int);
        assert forall|j: int| 1 <= j < rest.len() implies (#[trigger] rest[j]).0 <= rest[j - 1].0
            + 1 by {
            assert(rest[j] == entries[used0 + j] && rest[j - 1] == entries[used0 + j - 1]);
        }
        if rest.len() > 0 {
            assert(rest[0] == tail[kids.1 as int]);
        }
        lemma_parse_no_gaps(rest, threshold);
        assert forall|j: int| 0 <= j < used0 implies (#[trigger] entries[j]).0 >= threshold by {
            if j > 0 {
                assert(entries[j] == tail[j - 1]);
            }
        }
        lemma_first_below_skip(entries, threshold, used0);
    }
}

/// Sibling and document order: the forest built from any input lists, in
/// pre-order, exactly the items of the entries it consumed, in their input
/// order. In particular the children of every node keep the relative order of
/// their entries.
pub proof fn lemma_document_order<T: Copy>(entries: Seq<(usize, T)>)
    ensures
        forest_items(forest_spec(entries)) == items_of(
            entries.take(parse_nodes(entries, 0).1 as int),
        ),
{
    lemma_parse_items(entries, 0 as nat);
}

/// Total node count: on gap-free input every entry is consumed, so the forest
/// holds exactly one node per input entry, with the items in input order.
pub proof fn lemma_no_gaps_node_count<T: Copy>(entries: Seq<(usize, T)>)
    requires
        gap_free(entries),
    ensures
        forest_items(forest_spec(entries)) == items_of(entries),
        forest_size(forest_spec(entries)) == entries.len(),
{
    lemma_parse_no_gaps(entries, 0 as nat);
    lemma_first_below_props(entries, 0 as nat);
    let fb = first_below(entries, 0 as nat);
    if fb < entries.len() {
        assert(entries[fb as int].0 < 0);  // impossible: indents are unsigned
    }
    lemma_parse_items(entries, 0 as nat);
    assert(entries.take(entries.len() as int) =~= entries);
}

/// A built forest holds exactly one node per consumed entry, and so never
/// more nodes than the input had entries.
pub proof fn lemma_forest_spec_size<T: Copy>(entries: Seq<(usize, T)>)
    ensures
        forest_size(forest_spec(entries)) == parse_nodes(entries, 0).1,
        parse_nodes(entries, 0).1 <= entries.len(),
{
    lemma_parse_items(entries, 0 as nat);
    lemma_parse_nodes_used(entries, 0 as nat);
    assert(items_of(entries.take(parse_nodes(entries, 0 as nat).1 as int)).len() == parse_nodes(
        entries,
        0 as nat,
    ).1);
}

/// Builds the forest encoded by the flat `(indent, item)` rows, one subtree
/// per entry, nested by relative indent and in document order.
pub fn convert<T: Copy>(input: &Vec<(usize, T)>) -> (r: Tree<T>)
    ensures
        r@ == forest_spec(input@),
{
    let (children, _) = collect_nodes(input, 0, 0);
    proof {
        assert(input@.skip(0) =~= input@);
    }
    Tree { children }
}

} // verus!
