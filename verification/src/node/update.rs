use crate::node::{lemma_iter_enumerates, lemma_not_seen, lemma_seen_next, seen, Node, Quad};
use crate::rect::{lemma_quadrant, Rect};
use std::collections::HashMap;
use vstd::prelude::*;
use vstd::std_specs::hash::into_iter;
use vstd::std_specs::iter::IteratorSpec;

verus! {

broadcast use vstd::std_specs::hash::group_hash_axioms;

impl Node {
    /// The index of the first child whose region contains `region`.
    fn child_for(&self, region: &Rect) -> (r: Option<usize>)
        requires
            self.wf(),
            self.children is Some,
        ensures
            match r {
                Some(i) => i < 4 && self.region.slot(region) == Some(i as int),
                None => self.region.slot(region) is None,
            },
    {
        match &self.children {
            Some(q) => {
                let mut i: usize = 0;
                while i < 4
                    invariant
                        0 <= i <= 4,
                        forall|j: int|
                            0 <= j < 4 ==> (#[trigger] q.at(j)).region
                                == self.region.spec_quadrant(j),
                        forall|j: int|
                            0 <= j < i ==> !(#[trigger] self.region.spec_quadrant(j)).spec_contains(
                                region,
                            ),
                    decreases 4 - i,
                {
                    if q.get(i).region.contains(region) {
                        return Some(i);
                    }
                    i += 1;
                }
                None
            },
            None => None,
        }
    }

    /// Records `id` below a node that has children: in the first child whose
    /// region contains `region`, or at the node itself when none does.
    fn place(&mut self, id: u64, region: Rect, cap: usize)
        requires
            old(self).wf(),
            old(self).settled(cap),
            old(self).children is Some,
            region.valid(),
            old(self).region.spec_contains(&region),
            !old(self).items().contains_key(id),
            old(self).size < usize::MAX,
        ensures
            final(self).wf(),
            final(self).settled(cap),
            final(self).children is Some,
            final(self).items() == old(self).items().insert(id, region),
            final(self).region == old(self).region,
            final(self).depth == old(self).depth,
            final(self).size == old(self).size + 1,
        decreases old(self).region.span(), 0int,
    {
        let slot = self.child_for(&region);
        self.size += 1;
        match slot {
            Some(i) => {
                match &mut self.children {
                    Some(q) => {
                        q.get_mut(i).insert(id, region, cap);
                    },
                    None => {},
                }
            },
            None => {
                self.elements.insert(id, region);
            },
        }
        assert(self.items() =~= old(self).items().insert(id, region));
    }

    /// Records `id` with `region` in the subtree of this node.
    ///
    /// A leaf below capacity records it directly. A leaf at capacity is
    /// subdivided first, unless its region is a single point. Below a node
    /// with children the id goes to the first child whose region contains
    /// `region`, and stays at the node itself when `region` straddles a
    /// quadrant boundary.
    pub fn insert(&mut self, id: u64, region: Rect, max_node_capacity: usize)
        requires
            old(self).wf(),
            old(self).balanced(max_node_capacity),
            region.valid(),
            old(self).region().spec_contains(&region),
            !old(self)@.contains_key(id),
            old(self).size() < usize::MAX,
        ensures
            final(self).wf(),
            final(self).balanced(max_node_capacity),
            final(self)@ == old(self)@.insert(id, region),
            final(self).region() == old(self).region(),
            final(self).depth() == old(self).depth(),
            final(self).size() == old(self).size() + 1,
        decreases old(self).region().span(), 2int,
    {
        if self.is_leaf() {
            if self.elements.len() < max_node_capacity || (self.region.w == 0 && self.region.h
                == 0) {
                self.elements.insert(id, region);
                self.size += 1;
                return ;
            }
            self.subdivide(max_node_capacity);
        }
        self.place(id, region, max_node_capacity);
    }

    /// Turns a leaf into a node with four children, one for each quadrant
    /// of its region and one level deeper, and records each id of the leaf
    /// anew below the node: in the first child whose region contains the
    /// region of the id, or at the node itself when none does.
    ///
    /// The node keeps its ids, region, depth and size. It is not balanced
    /// before its subtree holds more than `max_node_capacity` ids.
    pub fn subdivide(&mut self, max_node_capacity: usize)
        requires
            old(self).wf(),
            old(self).spec_is_leaf(),
            old(self).region().span() > 0,
        ensures
            final(self).wf(),
            final(self).settled(max_node_capacity),
            !final(self).spec_is_leaf(),
            final(self)@ == old(self)@,
            final(self).region() == old(self).region(),
            final(self).depth() == old(self).depth(),
            final(self).size() == old(self).size(),
            old(self).size() <= max_node_capacity ==> forall|i: int|
                0 <= i < 4 ==> (#[trigger] final(self).spec_child(i))->0.spec_is_leaf(),
        decreases old(self).region().span(), 1int,
    {
        proof {
            lemma_quadrant(self.region, 0);
            lemma_quadrant(self.region, 1);
            lemma_quadrant(self.region, 2);
            lemma_quadrant(self.region, 3);
        }
        let depth = self.depth + 1;
        let children = Quad {
            tl: Node::leaf(self.region.quadrant(0), depth),
            tr: Node::leaf(self.region.quadrant(1), depth),
            bl: Node::leaf(self.region.quadrant(2), depth),
            br: Node::leaf(self.region.quadrant(3), depth),
        };
        let mut new_self = Node {
            region: self.region,
            elements: HashMap::new(),
            children: Some(Box::new(children)),
            depth: self.depth,
            size: 0,
        };
        assert(new_self.items() =~= Map::<u64, Rect>::empty());
        assert(children.tl.balanced(max_node_capacity) && children.tr.balanced(max_node_capacity));
        assert(children.bl.balanced(max_node_capacity) && children.br.balanced(max_node_capacity));
        for p in it: self.elements.iter()
            invariant
                it.seq() == self.elements.iter().remaining(),
                it.seq().no_duplicates(),
                it.seq().unref() == self.own(),
                self.wf(),
                self.children is None,
                new_self.wf(),
                new_self.settled(max_node_capacity),
                new_self.children is Some,
                new_self.region == self.region,
                new_self.depth == self.depth,
                new_self.size == it.index(),
                forall|id: u64|
                    new_self.items().contains_key(id) <==> seen(self.own(), it.index() as int, id),
                forall|id: u64| #[trigger]
                    new_self.items().contains_key(id) ==> self.elements@.contains_key(id)
                        && new_self.items()[id] == self.elements@[id],
        {
            proof {
                lemma_iter_enumerates(&self.elements);
                lemma_not_seen(self.own(), self.elements@, it.index() as int);
                lemma_seen_next(self.own(), it.index() as int);
            }
            new_self.place(*p.0, *p.1, max_node_capacity);
        }
        proof {
            lemma_iter_enumerates(&self.elements);
        }
        *self = new_self;
    }
}

/// Copies every entry of `source` into `target`.
fn absorb(target: &mut HashMap<u64, Rect>, source: &HashMap<u64, Rect>)
    ensures
        final(target)@ == old(target)@.union_prefer_right(source@),
{
    for p in it: source.iter()
        invariant
            it.seq() == source.iter().remaining(),
            it.seq().no_duplicates(),
            it.seq().unref() == into_iter(source.iter()),
            forall|id: u64|
                target@.contains_key(id) <==> old(target)@.contains_key(id) || seen(
                    into_iter(source.iter()),
                    it.index() as int,
                    id,
                ),
            forall|id: u64|
                target@.contains_key(id) ==> target@[id] == if seen(
                    into_iter(source.iter()),
                    it.index() as int,
                    id,
                ) {
                    source@[id]
                } else {
                    old(target)@[id]
                },
    {
        proof {
            lemma_iter_enumerates(source);
            lemma_seen_next(into_iter(source.iter()), it.index() as int);
        }
        target.insert(*p.0, *p.1);
    }
    proof {
        lemma_iter_enumerates(source);
        let s = into_iter(source.iter());
        assert forall|id: u64| seen(s, s.len() as int, id) implies source@.contains_key(id) by {
            let j = choose|j: int| 0 <= j < s.len() && (#[trigger] s[j]).0 == id;
        }
    }
}

impl Node {
    /// Turns a node whose four children are leaves back into a leaf that
    /// records their ids itself. The node keeps its ids, region, depth and
    /// size.
    pub fn fuse(&mut self)
        requires
            old(self).wf(),
            !old(self).spec_is_leaf(),
            forall|i: int| 0 <= i < 4 ==> (#[trigger] old(self).spec_child(i))->0.spec_is_leaf(),
        ensures
            final(self).wf(),
            final(self).spec_is_leaf(),
            final(self)@ == old(self)@,
            final(self).local() == old(self)@,
            final(self).region() == old(self).region(),
            final(self).depth() == old(self).depth(),
            final(self).size() == old(self).size(),
    {
        proof {
            assert(self.spec_child(0)->0.spec_is_leaf());
            assert(self.spec_child(1)->0.spec_is_leaf());
            assert(self.spec_child(2)->0.spec_is_leaf());
            assert(self.spec_child(3)->0.spec_is_leaf());
        }
        match &self.children {
            Some(q) => {
                absorb(&mut self.elements, &q.tl.elements);
                absorb(&mut self.elements, &q.tr.elements);
                absorb(&mut self.elements, &q.bl.elements);
                absorb(&mut self.elements, &q.br.elements);
            },
            None => {},
        }
        self.children = None;
    }

    /// Removes `id`, which the subtree records with `region`.
    ///
    /// The id is looked for where `insert` puts an id of that region. A node
    /// with children whose subtree is thereby left with exactly
    /// `max_node_capacity` ids becomes a leaf again.
    pub fn remove(&mut self, id: u64, region: Rect, max_node_capacity: usize)
        requires
            old(self).wf(),
            old(self).balanced(max_node_capacity),
            old(self)@.contains_key(id),
            old(self)@[id] == region,
        ensures
            final(self).wf(),
            final(self).balanced(max_node_capacity),
            final(self)@ == old(self)@.remove(id),
            final(self).region() == old(self).region(),
            final(self).depth() == old(self).depth(),
            final(self).size() == old(self).size() - 1,
        decreases old(self).region().span(),
    {
        if self.children.is_some() {
            let slot = self.child_for(&region);
            self.size -= 1;
            match slot {
                Some(i) => {
                    match &mut self.children {
                        Some(q) => {
                            q.get_mut(i).remove(id, region, max_node_capacity);
                        },
                        None => {},
                    }
                },
                None => {},
            }
        } else {
            self.size -= 1;
        }
        self.elements.remove(&id);
        assert(self.items() =~= old(self).items().remove(id));
        if self.children.is_some() && self.size == max_node_capacity {
            proof {
                let q = self.children->0;
                assert(q.tl.balanced(max_node_capacity) && q.tr.balanced(max_node_capacity)
                    && q.bl.balanced(max_node_capacity) && q.br.balanced(max_node_capacity));
            }
            self.fuse();
        }
    }

    /// Changes the region of `id` from `old_region` to `new_region`.
    ///
    /// Where one child is the place both for `old_region` and for
    /// `new_region`, the move happens inside that child. Otherwise the id is
    /// taken out from where it is recorded below this node and recorded anew
    /// from this node, whose own size does not change.
    pub fn move_element(
        &mut self,
        id: u64,
        old_region: Rect,
        new_region: Rect,
        max_node_capacity: usize,
    )
        requires
            old(self).wf(),
            old(self).balanced(max_node_capacity),
            old(self)@.contains_key(id),
            old(self)@[id] == old_region,
            new_region.valid(),
            old(self).region().spec_contains(&new_region),
        ensures
            final(self).wf(),
            final(self).balanced(max_node_capacity),
            final(self)@ == old(self)@.insert(id, new_region),
            final(self).region() == old(self).region(),
            final(self).depth() == old(self).depth(),
            final(self).size() == old(self).size(),
        decreases old(self).region().span(),
    {
        if self.children.is_some() {
            let from = self.child_for(&old_region);
            let to = self.child_for(&new_region);
            match from {
                Some(i) => {
                    if to == Some(i) {
                        match &mut self.children {
                            Some(q) => {
                                q.get_mut(i).move_element(
                                    id,
                                    old_region,
                                    new_region,
                                    max_node_capacity,
                                );
                            },
                            None => {},
                        }
                        assert(self.items() =~= old(self).items().insert(id, new_region));
                        return ;
                    }
                    match &mut self.children {
                        Some(q) => {
                            q.get_mut(i).remove(id, old_region, max_node_capacity);
                        },
                        None => {},
                    }
                    self.size -= 1;
                    assert(self.items() =~= old(self).items().remove(id));
                    self.place(id, new_region, max_node_capacity);
                    return ;
                },
                None => {},
            }
        }
        self.elements.remove(&id);
        self.size -= 1;
        assert(self.items() =~= old(self).items().remove(id));
        if self.children.is_some() {
            self.place(id, new_region, max_node_capacity);
        } else {
            self.insert(id, new_region, max_node_capacity);
        }
    }
}

impl Node {
    /// A move inside one child: where a node with children holds `id` in
    /// the subtree of its `i`-th child, and the `i`-th quadrant is also the
    /// first that contains the new region, `move_element` changes nothing
    /// but that subtree. The node records itself what it did before, its
    /// size and the size of the child stay as they are, and every other
    /// child holds what it held before.
    pub proof fn lemma_move_inside_child(
        before: Node,
        after: Node,
        id: u64,
        new_region: Rect,
        cap: usize,
        i: int,
    )
        requires
            before.wf(),
            before.balanced(cap),
            after.wf(),
            after.balanced(cap),
            !before.spec_is_leaf(),
            before@.contains_key(id),
            after@ == before@.insert(id, new_region),
            after.region() == before.region(),
            before.region().slot(&before@[id]) == Some(i),
            before.region().slot(&new_region) == Some(i),
        ensures
            0 <= i < 4,
            !after.spec_is_leaf(),
            after.size() == before.size(),
            after.local() == before.local(),
            after.spec_child(i)->0@ == before.spec_child(i)->0@.insert(id, new_region),
            after.spec_child(i)->0.size() == before.spec_child(i)->0.size(),
            forall|j: int|
                0 <= j < 4 && j != i ==> (#[trigger] after.spec_child(j))->0@
                    == before.spec_child(j)->0@,
    {
        before.lemma_wf();
        after.lemma_wf();
        before.lemma_balanced(cap);
        after.lemma_balanced(cap);
        assert forall|j: int| 0 <= j < 4 implies (#[trigger] after.spec_child(j))->0@ == if j
            == i {
            before.spec_child(j)->0@.insert(id, new_region)
        } else {
            before.spec_child(j)->0@
        } by {
            before.lemma_wf_child(j);
            after.lemma_wf_child(j);
            if j == i {
                assert(after.spec_child(j)->0@ =~= before.spec_child(j)->0@.insert(
                    id,
                    new_region,
                ));
            }
        }
        before.lemma_wf_child(i);
        after.lemma_wf_child(i);
        before.spec_child(i)->0.lemma_wf();
        after.spec_child(i)->0.lemma_wf();
    }

    /// A move from one child to another: where a node with children holds
    /// `id` in the subtree of its `i`-th child, and the first quadrant that
    /// contains the new region is another one, the `j`-th, `move_element`
    /// takes the id out of the one subtree and puts it into the other. The
    /// size of the `i`-th child goes down by one and that of the `j`-th up
    /// by one; the size of the node stays as it is, the node records itself
    /// what it did before, and the two other children hold what they held
    /// before. Where the `i`-th child is a leaf, it stays one and records
    /// itself one id less; where the `j`-th child is a leaf and stays one,
    /// it records itself one id more.
    pub proof fn lemma_move_to_other_child(
        before: Node,
        after: Node,
        id: u64,
        new_region: Rect,
        cap: usize,
        i: int,
        j: int,
    )
        requires
            before.wf(),
            before.balanced(cap),
            after.wf(),
            after.balanced(cap),
            !before.spec_is_leaf(),
            before@.contains_key(id),
            after@ == before@.insert(id, new_region),
            after.region() == before.region(),
            before.region().slot(&before@[id]) == Some(i),
            before.region().slot(&new_region) == Some(j),
            i != j,
        ensures
            0 <= i < 4,
            0 <= j < 4,
            !after.spec_is_leaf(),
            after.size() == before.size(),
            after.local() == before.local(),
            after.spec_child(i)->0@ == before.spec_child(i)->0@.remove(id),
            after.spec_child(j)->0@ == before.spec_child(j)->0@.insert(id, new_region),
            after.spec_child(i)->0.size() == before.spec_child(i)->0.size() - 1,
            after.spec_child(j)->0.size() == before.spec_child(j)->0.size() + 1,
            forall|k: int|
                0 <= k < 4 && k != i && k != j ==> (#[trigger] after.spec_child(k))->0@
                    == before.spec_child(k)->0@,
            before.spec_child(i)->0.spec_is_leaf() ==> after.spec_child(i)->0.spec_is_leaf()
                && after.spec_child(i)->0.local().len() == before.spec_child(i)->0.local().len()
                - 1,
            before.spec_child(j)->0.spec_is_leaf() && after.spec_child(j)->0.spec_is_leaf()
                ==> after.spec_child(j)->0.local().len() == before.spec_child(j)->0.local().len()
                + 1,
    {
        before.lemma_wf();
        after.lemma_wf();
        before.lemma_balanced(cap);
        after.lemma_balanced(cap);
        assert forall|k: int| 0 <= k < 4 implies (#[trigger] after.spec_child(k))->0@ == if k
            == i {
            before.spec_child(k)->0@.remove(id)
        } else if k == j {
            before.spec_child(k)->0@.insert(id, new_region)
        } else {
            before.spec_child(k)->0@
        } by {
            before.lemma_wf_child(k);
            after.lemma_wf_child(k);
            if k == j {
                assert(after.spec_child(k)->0@ =~= before.spec_child(k)->0@.insert(
                    id,
                    new_region,
                ));
            }
        }
        before.lemma_wf_child(i);
        after.lemma_wf_child(i);
        before.lemma_wf_child(j);
        after.lemma_wf_child(j);
        before.spec_child(i)->0.lemma_wf();
        after.spec_child(i)->0.lemma_wf();
        before.spec_child(j)->0.lemma_wf();
        after.spec_child(j)->0.lemma_wf();
        before.spec_child(i)->0.lemma_balanced(cap);
        after.spec_child(i)->0.lemma_balanced(cap);
    }
}

} // verus!
