pub mod query;
pub mod update;
pub mod walk;

use crate::rect::Rect;
use std::collections::HashMap;
use vstd::prelude::*;
use vstd::std_specs::hash::into_iter;
use vstd::std_specs::iter::IteratorSpec;

verus! {

broadcast use vstd::std_specs::hash::group_hash_axioms;

/// The four children of a node that has been subdivided, one for each
/// quadrant of its region: top-left, top-right, bottom-left, bottom-right.
struct Quad {
    tl: Node,
    tr: Node,
    bl: Node,
    br: Node,
}

/// One cell of the spatial index. A node is responsible for a fixed region;
/// it is either a leaf, which records ids directly, or it has exactly four
/// children covering the quadrants of its region and records directly only
/// the ids whose region fits in none of them.
pub struct Node {
    region: Rect,
    elements: HashMap<u64, Rect>,
    children: Option<Box<Quad>>,
    depth: u32,
    size: usize,
}

impl Quad {
    spec fn at(self, i: int) -> Node {
        if i == 0 {
            self.tl
        } else if i == 1 {
            self.tr
        } else if i == 2 {
            self.bl
        } else {
            self.br
        }
    }

    spec fn put(self, i: int, n: Node) -> Quad {
        if i == 0 {
            Quad { tl: n, ..self }
        } else if i == 1 {
            Quad { tr: n, ..self }
        } else if i == 2 {
            Quad { bl: n, ..self }
        } else {
            Quad { br: n, ..self }
        }
    }

    fn get(&self, i: usize) -> (r: &Node)
        requires
            i < 4,
        ensures
            *r == self.at(i as int),
    {
        if i == 0 {
            &self.tl
        } else if i == 1 {
            &self.tr
        } else if i == 2 {
            &self.bl
        } else {
            &self.br
        }
    }

    fn get_mut(&mut self, i: usize) -> (r: &mut Node)
        requires
            i < 4,
        ensures
            *r == old(self).at(i as int),
            *final(self) == old(self).put(i as int, *final(r)),
    {
        if i == 0 {
            &mut self.tl
        } else if i == 1 {
            &mut self.tr
        } else if i == 2 {
            &mut self.bl
        } else {
            &mut self.br
        }
    }
}

impl View for Node {
    type V = Map<u64, Rect>;

    /// Every id recorded in the subtree of this node, with its region.
    open spec fn view(&self) -> Map<u64, Rect> {
        self.items()
    }
}

impl Node {
    /// The region that the node is responsible for.
    pub closed spec fn spec_region(&self) -> Rect {
        self.region
    }

    /// The distance of the node from the root of its tree.
    pub closed spec fn spec_depth(&self) -> u32 {
        self.depth
    }

    /// The number of ids that the node counts in its subtree.
    pub closed spec fn spec_size(&self) -> usize {
        self.size
    }

    /// The node has no children.
    pub closed spec fn spec_is_leaf(&self) -> bool {
        self.children is None
    }

    /// The ids recorded directly at this node, with their regions.
    pub closed spec fn local(&self) -> Map<u64, Rect> {
        self.elements@
    }

    /// The ids recorded directly at this node, with their regions, in the
    /// order in which iterating over `elements()` yields them.
    pub closed spec fn own(&self) -> Seq<(u64, Rect)> {
        into_iter(self.elements.iter())
    }

    /// The `i`-th child, in the order top-left, top-right, bottom-left,
    /// bottom-right; `None` for a leaf and for an index past 3.
    pub closed spec fn spec_child(&self, i: int) -> Option<Node> {
        match self.children {
            Some(q) => if 0 <= i < 4 {
                Some(q.at(i))
            } else {
                None
            },
            None => None,
        }
    }

    /// Every id recorded in the subtree of this node, with its region.
    pub closed spec fn items(&self) -> Map<u64, Rect>
        decreases self,
    {
        match self.children {
            None => self.elements@,
            Some(q) => self.elements@.union_prefer_right(q.tl.items()).union_prefer_right(
                q.tr.items(),
            ).union_prefer_right(q.bl.items()).union_prefer_right(q.br.items()),
        }
    }

    /// Every id of `part` is an id of this subtree with the same region, and
    /// that region belongs to quadrant `slot` of this node's region.
    spec fn holds(&self, part: Map<u64, Rect>, slot: Option<int>) -> bool {
        forall|id: u64| #[trigger]
            part.contains_key(id) ==> self.items().contains_key(id) && self.items()[id] == part[id]
                && self.region.slot(&part[id]) == slot
    }

    /// `c` is fit to be the `i`-th child of this node.
    spec fn seats(&self, c: Node, i: int) -> bool {
        &&& c.region == self.region.spec_quadrant(i)
        &&& c.depth == self.depth + 1
        &&& self.holds(c.items(), Some(i))
    }

    /// The structural invariant of the index.
    ///
    /// Every region recorded in the subtree is valid and lies inside this
    /// node's region; `size` counts the ids of the subtree; no id is
    /// recorded twice; and below a node with children, every id is recorded
    /// in the first quadrant that contains its region, or at the node itself
    /// when none does. The children of a node cover the quadrants of its
    /// region, one level deeper, and only a region that is more than a
    /// single point has children; so the depth can grow no further than the
    /// span of the region leaves room for.
    pub closed spec fn wf(&self) -> bool
        decreases self,
    {
        &&& self.region.valid()
        &&& self.depth + self.region.span() <= u32::MAX
        &&& self.items().dom().finite()
        &&& self.size == self.items().len()
        &&& forall|id: u64| #[trigger]
            self.items().contains_key(id) ==> self.items()[id].valid()
                && self.region.spec_contains(&self.items()[id])
        &&& match self.children {
            None => true,
            Some(q) => {
                &&& self.region.span() > 0
                &&& self.size == self.elements@.len() + q.tl.size + q.tr.size + q.bl.size
                    + q.br.size
                &&& q.tl.wf()
                &&& q.tr.wf()
                &&& q.bl.wf()
                &&& q.br.wf()
                &&& self.seats(q.tl, 0)
                &&& self.seats(q.tr, 1)
                &&& self.seats(q.bl, 2)
                &&& self.seats(q.br, 3)
                &&& self.holds(self.elements@, None)
            },
        }
    }

    /// The capacity discipline but for the node's own size: a leaf holds at
    /// most `cap` ids, unless its region is a single point, and every child
    /// of a node with children is balanced.
    pub closed spec fn settled(&self, cap: usize) -> bool
        decreases self, 0int,
    {
        match self.children {
            None => self.elements@.len() <= cap || self.region.span() == 0,
            Some(q) => q.tl.balanced(cap) && q.tr.balanced(cap) && q.bl.balanced(cap)
                && q.br.balanced(cap),
        }
    }

    /// The capacity discipline: a leaf holds at most `cap` ids, unless its
    /// region is a single point and cannot be subdivided; a node with
    /// children holds more than `cap` ids in its subtree; and the same holds
    /// of every node below.
    pub closed spec fn balanced(&self, cap: usize) -> bool
        decreases self, 1int,
    {
        &&& self.settled(cap)
        &&& self.children is Some ==> self.size > cap
    }

    /// Whether the node has no children.
    pub fn is_leaf(&self) -> (b: bool)
        ensures
            b == self.spec_is_leaf(),
    {
        self.children.is_none()
    }

    /// Whether the node has children.
    pub fn is_node(&self) -> (b: bool)
        ensures
            b == !self.spec_is_leaf(),
    {
        self.children.is_some()
    }

    /// The region that the node is responsible for.
    #[verifier::when_used_as_spec(spec_region)]
    pub fn region(&self) -> (r: Rect)
        ensures
            r == self.spec_region(),
    {
        self.region
    }

    /// The ids recorded directly at this node, with their regions.
    pub fn elements(&self) -> (m: &HashMap<u64, Rect>)
        ensures
            m@ == self.local(),
            into_iter(m.iter()) == self.own(),
    {
        &self.elements
    }

    /// The distance of the node from the root of its tree.
    #[verifier::when_used_as_spec(spec_depth)]
    pub fn depth(&self) -> (d: u32)
        ensures
            d == self.spec_depth(),
    {
        self.depth
    }

    /// The number of ids in the subtree of the node.
    #[verifier::when_used_as_spec(spec_size)]
    pub fn size(&self) -> (n: usize)
        ensures
            n == self.spec_size(),
    {
        self.size
    }

    /// The `i`-th child, in the order top-left, top-right, bottom-left,
    /// bottom-right.
    pub fn child(&self, i: usize) -> (c: Option<&Node>)
        ensures
            match c {
                Some(n) => self.spec_child(i as int) == Some(*n),
                None => self.spec_child(i as int) is None,
            },
    {
        match &self.children {
            Some(q) => if i < 4 {
                Some(q.get(i))
            } else {
                None
            },
            None => None,
        }
    }

    /// An empty leaf responsible for `region`, at depth 0.
    pub fn new(region: Rect) -> (node: Node)
        requires
            region.valid(),
        ensures
            node.wf(),
            forall|cap: usize| node.balanced(cap),
            node@ == Map::<u64, Rect>::empty(),
            node.local() == Map::<u64, Rect>::empty(),
            node.spec_is_leaf(),
            node.region() == region,
            node.depth() == 0,
            node.size() == 0,
    {
        Node::leaf(region, 0)
    }

    /// An empty leaf responsible for `region`, at the given depth.
    fn leaf(region: Rect, depth: u32) -> (node: Node)
        requires
            region.valid(),
            depth + region.span() <= u32::MAX,
        ensures
            node.wf(),
            forall|cap: usize| node.balanced(cap),
            node.items() == Map::<u64, Rect>::empty(),
            node.elements@ == Map::<u64, Rect>::empty(),
            node.children is None,
            node.region == region,
            node.depth == depth,
            node.size == 0,
    {
        Node { region, elements: HashMap::new(), children: None, depth, size: 0 }
    }
}

impl Node {
    /// A node is a leaf, with no child at all, or it has exactly the four
    /// children 0 to 3.
    pub proof fn lemma_leaf_or_four_children(&self)
        ensures
            self.spec_is_leaf() ==> forall|i: int| self.spec_child(i) is None,
            !self.spec_is_leaf() ==> forall|i: int| (0 <= i < 4 <==> self.spec_child(i) is Some),
    {
    }

    /// What a well-formed node guarantees: its size is the number of ids in
    /// its subtree, and every region recorded there is valid and lies inside
    /// the node's region. A leaf records every id of its subtree itself; a
    /// node with children records itself exactly the ids whose region fits
    /// in none of its quadrants, and its size is the number of those ids
    /// plus the sizes of its children. Either way the ids recorded at the
    /// node itself have their regions inside the node's region.
    pub proof fn lemma_wf(&self)
        requires
            self.wf(),
        ensures
            self.region().valid(),
            self@.dom().finite(),
            self.size() == self@.len(),
            forall|id: u64| #[trigger]
                self@.contains_key(id) ==> self@[id].valid() && self.region().spec_contains(
                    &self@[id],
                ),
            forall|id: u64| #[trigger]
                self.local().contains_key(id) ==> self@.contains_key(id) && self@[id]
                    == self.local()[id] && self.region().spec_contains(&self.local()[id]),
            self.spec_is_leaf() ==> self.local() == self@,
            !self.spec_is_leaf() ==> self.region().span() > 0,
            !self.spec_is_leaf() ==> self.size() == self.local().len() + self.spec_child(
                0,
            )->0.size() + self.spec_child(1)->0.size() + self.spec_child(2)->0.size()
                + self.spec_child(3)->0.size(),
            !self.spec_is_leaf() ==> forall|id: u64|
                #![trigger self.local().contains_key(id)]
                #![trigger self@.contains_key(id)]
                self.local().contains_key(id) <==> self@.contains_key(id) && self.region().slot(
                    &self@[id],
                ) is None,
    {
    }

    /// What a well-formed node guarantees of its `i`-th child: the child is
    /// well formed, one level deeper, and responsible for the `i`-th
    /// quadrant; and the ids below it are exactly the ids of this node's
    /// subtree for whose region the `i`-th quadrant is the first that
    /// contains it, with the same regions.
    pub proof fn lemma_wf_child(&self, i: int)
        requires
            self.wf(),
            !self.spec_is_leaf(),
            0 <= i < 4,
        ensures
            self.spec_child(i) is Some,
            self.spec_child(i)->0.wf(),
            self.spec_child(i)->0.region() == self.region().spec_quadrant(i),
            self.spec_child(i)->0.depth() == self.depth() + 1,
            forall|id: u64|
                #![trigger self.spec_child(i)->0@.contains_key(id)]
                #![trigger self@.contains_key(id)]
                self.spec_child(i)->0@.contains_key(id) <==> self@.contains_key(id)
                    && self.region().slot(&self@[id]) == Some(i),
            forall|id: u64| #[trigger]
                self.spec_child(i)->0@.contains_key(id) ==> self.spec_child(i)->0@[id]
                    == self@[id],
    {
    }

    /// What a settled node guarantees, and what it lacks to be balanced.
    pub proof fn lemma_settled(&self, cap: usize)
        ensures
            self.balanced(cap) <==> self.settled(cap) && (!self.spec_is_leaf() ==> self.size()
                > cap),
            self.settled(cap) && self.spec_is_leaf() ==> self.local().len() <= cap
                || self.region().span() == 0,
            self.settled(cap) && !self.spec_is_leaf() ==> forall|i: int|
                0 <= i < 4 ==> (#[trigger] self.spec_child(i))->0.balanced(cap),
    {
    }

    /// What a balanced node guarantees: it is a leaf exactly when its
    /// subtree holds at most `cap` ids or its region is a single point, and
    /// its children, if any, are balanced.
    pub proof fn lemma_balanced(&self, cap: usize)
        requires
            self.wf(),
            self.balanced(cap),
        ensures
            self.spec_is_leaf() <==> (self.size() <= cap || self.region().span() == 0),
            !self.spec_is_leaf() ==> forall|i: int|
                0 <= i < 4 ==> (#[trigger] self.spec_child(i))->0.balanced(cap),
    {
    }
}

/// `id` is the key of one of the first `k` entries of `s`.
spec fn seen(s: Seq<(u64, Rect)>, k: int, id: u64) -> bool {
    exists|j: int| 0 <= j < k && (#[trigger] s[j]).0 == id
}

/// `s` holds the entries of `m`, each key once.
spec fn enumerates(s: Seq<(u64, Rect)>, m: Map<u64, Rect>) -> bool {
    &&& s.len() == m.len()
    &&& forall|j: int|
        0 <= j < s.len() ==> m.contains_key((#[trigger] s[j]).0) && m[s[j].0] == s[j].1
    &&& forall|i: int, j: int| 0 <= i < j < s.len() ==> (#[trigger] s[i]).0 != (#[trigger] s[j]).0
    &&& forall|id: u64| m.contains_key(id) ==> #[trigger] seen(s, s.len() as int, id)
}

/// What iterating over a hash map yields holds the entries of the map, each
/// key once.
proof fn lemma_iter_enumerates(m: &HashMap<u64, Rect>)
    requires
        m.iter().remaining().no_duplicates(),
        into_iter(m.iter()) == m.iter().remaining().unref(),
    ensures
        enumerates(into_iter(m.iter()), m@),
{
    let s = m.iter().remaining();
    let u = into_iter(m.iter());
    assert forall|i: int, j: int| 0 <= i < j < u.len() implies (#[trigger] u[i]).0 != (
    #[trigger] u[j]).0 by {
        assert(m@.contains_key(*s[i].0) && m@[*s[i].0] == *s[i].1);
        assert(m@.contains_key(*s[j].0) && m@[*s[j].0] == *s[j].1);
        if u[i].0 == u[j].0 {
            assert(s[i] == s[j]);
        }
    }
    assert forall|id: u64| m@.contains_key(id) implies #[trigger] seen(u, u.len() as int, id) by {
        assert(s.contains((&id, &m@[id])));
        let j = choose|j: int| 0 <= j < s.len() && s[j] == (&id, &m@[id]);
        assert(u[j].0 == id);
    }
    assert forall|j: int| 0 <= j < u.len() implies m@.contains_key((#[trigger] u[j]).0)
        && m@[u[j].0] == u[j].1 by {
        assert(m@.contains_key(*s[j].0) && m@[*s[j].0] == *s[j].1);
    }
}

/// The keys among the first `k + 1` entries are those among the first `k`
/// and the key of entry `k`.
proof fn lemma_seen_next(s: Seq<(u64, Rect)>, k: int)
    requires
        0 <= k < s.len(),
    ensures
        forall|id: u64| #[trigger] seen(s, k + 1, id) <==> (seen(s, k, id) || s[k].0 == id),
{
    assert forall|id: u64| #[trigger] seen(s, k + 1, id) <==> (seen(s, k, id) || s[k].0
        == id) by {
        if seen(s, k + 1, id) {
            let j = choose|j: int| 0 <= j < k + 1 && (#[trigger] s[j]).0 == id;
        }
        if seen(s, k, id) {
            let j = choose|j: int| 0 <= j < k && (#[trigger] s[j]).0 == id;
            assert(0 <= j < k + 1);
        }
        if s[k].0 == id {
            assert(seen(s, k + 1, id));
        }
    }
}

/// Entry `k` is not among the first `k` entries.
proof fn lemma_not_seen(s: Seq<(u64, Rect)>, m: Map<u64, Rect>, k: int)
    requires
        enumerates(s, m),
        0 <= k < s.len(),
    ensures
        !seen(s, k, s[k].0),
{
}

} // verus!
