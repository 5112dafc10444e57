use crate::node::query::{contained_in, lemma_queries_of_nothing, lists, overlapped_by};
use crate::node::walk::NodeIter;
use crate::node::Node;
use crate::rect::Rect;
use std::collections::HashMap;
use vstd::prelude::*;
use vstd::std_specs::cmp::PartialEqSpec;
use vstd::std_specs::hash::into_iter_keys;
use vstd::std_specs::iter::IteratorSpec;

verus! {

broadcast use vstd::std_specs::hash::group_hash_axioms;

/// A spatial index over values of type `T`, each kept with the rectangle it
/// occupies.
///
/// The tree hands out an id for every value inserted and never hands out
/// the same id twice. It keeps the values and their regions by id, and
/// mirrors every id and region into a tree of nodes that answers region
/// queries.
pub struct Quadtree<T> {
    max_node_capacity: usize,
    root: Node,
    elements: HashMap<u64, (T, Rect)>,
    next_id: u64,
}

/// The region of every entry of `m`.
pub open spec fn regions_of<T>(m: Map<u64, (T, Rect)>) -> Map<u64, Rect> {
    Map::new(|id: u64| m.contains_key(id), |id: u64| m[id].1)
}

/// `values` holds, position by position, the value that `m` keeps for each
/// id of `ids`.
pub open spec fn picks<T>(m: Map<u64, (T, Rect)>, values: Seq<&T>, ids: Seq<u64>) -> bool {
    &&& values.len() == ids.len()
    &&& forall|i: int|
        0 <= i < ids.len() ==> m.contains_key(#[trigger] ids[i]) && *values[i] == m[ids[i]].0
}

impl<T> View for Quadtree<T> {
    type V = Map<u64, (T, Rect)>;

    /// Every live id, with its value and its region.
    closed spec fn view(&self) -> Map<u64, (T, Rect)> {
        self.elements@
    }
}

impl<T> Quadtree<T> {
    /// The number of ids that a leaf may hold before it is subdivided.
    pub closed spec fn spec_capacity(&self) -> usize {
        self.max_node_capacity
    }

    /// The root of the tree of nodes.
    pub closed spec fn root(&self) -> Node {
        self.root
    }

    /// The region that the tree covers.
    pub open spec fn spec_region(&self) -> Rect {
        self.root().region()
    }

    /// The id that the next insertion will hand out.
    pub closed spec fn spec_next_id(&self) -> u64 {
        self.next_id
    }

    /// The region of every live id.
    pub open spec fn regions(&self) -> Map<u64, Rect> {
        regions_of(self@)
    }

    /// The live ids, in the order in which the tree enumerates what it
    /// keeps.
    pub closed spec fn ids(&self) -> Seq<u64> {
        into_iter_keys(self.elements.keys())
    }

    /// The ids whose region lies fully inside `region`, edges inclusive, in
    /// the order in which a traversal of the tree of nodes meets them.
    pub open spec fn contained_ids(&self, region: Rect) -> Seq<u64> {
        self.root().traversal(contained_in(self.regions(), region))
    }

    /// The ids whose region meets `region`, edges inclusive, in the order in
    /// which a traversal of the tree of nodes meets them.
    pub open spec fn overlapped_ids(&self, region: Rect) -> Seq<u64> {
        self.root().traversal(overlapped_by(self.regions(), region))
    }

    /// The invariant of the tree: the tree of nodes is well formed and
    /// balanced for the tree's capacity, it records exactly the live ids,
    /// each with the region that the tree keeps for it, and every live id
    /// is below the next one to be handed out.
    pub closed spec fn wf(&self) -> bool {
        &&& self.root.wf()
        &&& self.root.balanced(self.max_node_capacity)
        &&& self.root.depth() == 0
        &&& self.root@ == regions_of(self.elements@)
        &&& forall|id: u64| #[trigger] self.elements@.contains_key(id) ==> id < self.next_id
    }

    /// An empty tree that covers `region`, with leaves of up to
    /// `max_node_capacity` ids.
    pub fn new(region: Rect, max_node_capacity: usize) -> (tree: Self)
        requires
            region.valid(),
        ensures
            tree.wf(),
            tree@ == Map::<u64, (T, Rect)>::empty(),
            tree.region() == region,
            tree.capacity() == max_node_capacity,
            tree.next_id() == 0,
    {
        let root = Node::new(region);
        let tree = Self { max_node_capacity, root, elements: HashMap::new(), next_id: 0 };
        assert(tree.root@ =~= regions_of(tree.elements@));
        tree
    }

    /// The number of ids that a leaf may hold before it is subdivided.
    #[verifier::when_used_as_spec(spec_capacity)]
    pub fn capacity(&self) -> (cap: usize)
        ensures
            cap == self.spec_capacity(),
    {
        self.max_node_capacity
    }

    /// The region that the tree covers.
    #[verifier::when_used_as_spec(spec_region)]
    pub fn region(&self) -> (region: Rect)
        ensures
            region == self.spec_region(),
    {
        self.root.region()
    }

    /// The id that the next insertion will hand out.
    #[verifier::when_used_as_spec(spec_next_id)]
    pub fn next_id(&self) -> (id: u64)
        ensures
            id == self.spec_next_id(),
    {
        self.next_id
    }

    /// Whether `id` is live.
    pub fn contains_id(&self, id: u64) -> (live: bool)
        ensures
            live == self@.contains_key(id),
    {
        self.elements.contains_key(&id)
    }

    /// Whether the tree has no live id.
    pub fn is_empty(&self) -> (b: bool)
        ensures
            b == (self@.len() == 0),
    {
        self.elements.len() == 0
    }

    /// The number of live ids, which is also the size of the root node.
    pub fn size(&self) -> (n: usize)
        ensures
            n == self@.len(),
            self.wf() ==> n == self.root().size(),
    {
        proof {
            if self.wf() {
                self.root.lemma_wf();
                assert(self.root@.dom() =~= self.elements@.dom());
            }
        }
        self.elements.len()
    }

    /// Keeps `element` with `region` under a fresh id, and returns the id.
    pub fn insert(&mut self, element: T, region: Rect) -> (id: u64)
        requires
            old(self).wf(),
            region.valid(),
            old(self).region().spec_contains(&region),
            old(self).next_id() < u64::MAX,
            old(self)@.len() < usize::MAX,
        ensures
            final(self).wf(),
            id == old(self).next_id(),
            !old(self)@.contains_key(id),
            final(self)@ == old(self)@.insert(id, (element, region)),
            final(self).next_id() == id + 1,
            final(self).region() == old(self).region(),
            final(self).capacity() == old(self).capacity(),
    {
        let id = self.next_id;
        proof {
            self.root.lemma_wf();
            assert(self.root@.dom() =~= self.elements@.dom());
        }
        self.elements.insert(id, (element, region));
        self.root.insert(id, region, self.max_node_capacity);
        self.next_id += 1;
        assert(self.root@ =~= regions_of(self.elements@));
        id
    }

    /// Takes `id` out of the tree and returns its value and region; `None`
    /// when the tree has no such id.
    pub fn remove(&mut self, id: u64) -> (removed: Option<(T, Rect)>)
        requires
            old(self).wf(),
        ensures
            final(self).wf(),
            removed == old(self)@.get(id),
            final(self)@ == old(self)@.remove(id),
            final(self).next_id() == old(self).next_id(),
            final(self).region() == old(self).region(),
            final(self).capacity() == old(self).capacity(),
    {
        let element = self.elements.remove(&id);
        match element {
            Some((element, region)) => {
                self.root.remove(id, region, self.max_node_capacity);
                assert(self.root@ =~= regions_of(self.elements@));
                Some((element, region))
            },
            None => {
                assert(self.elements@ =~= old(self).elements@);
                None
            },
        }
    }
}

impl<T> Quadtree<T> {
    /// The value of each id of `ids`, in the order of `ids`.
    fn resolve(&self, ids: &Vec<u64>) -> (values: Vec<&T>)
        requires
            forall|i: int| 0 <= i < ids@.len() ==> self@.contains_key(#[trigger] ids@[i]),
        ensures
            picks(self@, values@, ids@),
    {
        let mut values: Vec<&T> = Vec::new();
        let mut i: usize = 0;
        while i < ids.len()
            invariant
                0 <= i <= ids@.len(),
                forall|i: int| 0 <= i < ids@.len() ==> self@.contains_key(#[trigger] ids@[i]),
                values@.len() == i,
                forall|j: int|
                    0 <= j < i ==> self@.contains_key(#[trigger] ids@[j]) && *values@[j]
                        == self@[ids@[j]].0,
            decreases ids@.len() - i,
        {
            let entry = self.elements.get(&ids[i]);
            values.push(&entry.unwrap().0);
            i += 1;
        }
        values
    }

    /// The values whose region lies fully inside `region`, edges inclusive,
    /// in the order in which a traversal of the tree of nodes meets their
    /// ids.
    pub fn get_contained(&self, region: Rect) -> (values: Vec<&T>)
        requires
            self.wf(),
        ensures
            picks(self@, values@, self.contained_ids(region)),
            lists(self.contained_ids(region), contained_in(self.regions(), region)),
            self.root().visits(
                self.contained_ids(region),
                contained_in(self.regions(), region),
            ),
    {
        let ids = self.root.get_contained(region);
        assert forall|i: int| 0 <= i < ids@.len() implies self@.contains_key(
            #[trigger] ids@[i],
        ) by {
            assert(ids@.contains(ids@[i]));
        }
        self.resolve(&ids)
    }

    /// The ids of the values that `get_contained` returns for `region`, in
    /// the same order and each once, so that a caller can take a handle on
    /// one after the other and change its value.
    pub fn get_contained_mut(&mut self, region: Rect) -> (ids: Vec<u64>)
        requires
            old(self).wf(),
        ensures
            *final(self) == *old(self),
            ids@ == old(self).contained_ids(region),
            lists(ids@, contained_in(old(self).regions(), region)),
            old(self).root().visits(ids@, contained_in(old(self).regions(), region)),
    {
        self.root.get_contained(region)
    }

    /// The values whose region meets `region`, edges inclusive, in the
    /// order in which a traversal of the tree of nodes meets their ids.
    pub fn get_overlapped(&self, region: Rect) -> (values: Vec<&T>)
        requires
            self.wf(),
        ensures
            picks(self@, values@, self.overlapped_ids(region)),
            lists(self.overlapped_ids(region), overlapped_by(self.regions(), region)),
            self.root().visits(
                self.overlapped_ids(region),
                overlapped_by(self.regions(), region),
            ),
    {
        let ids = self.root.get_overlapped(region);
        assert forall|i: int| 0 <= i < ids@.len() implies self@.contains_key(
            #[trigger] ids@[i],
        ) by {
            assert(ids@.contains(ids@[i]));
        }
        self.resolve(&ids)
    }

    /// The ids of the values that `get_overlapped` returns for `region`, in
    /// the same order and each once, so that a caller can take a handle on
    /// one after the other and change its value.
    pub fn get_overlapped_mut(&mut self, region: Rect) -> (ids: Vec<u64>)
        requires
            old(self).wf(),
        ensures
            *final(self) == *old(self),
            ids@ == old(self).overlapped_ids(region),
            lists(ids@, overlapped_by(old(self).regions(), region)),
            old(self).root().visits(ids@, overlapped_by(old(self).regions(), region)),
    {
        self.root.get_overlapped(region)
    }

    /// A walk over the nodes of the tree, each node before its children,
    /// starting at the root.
    pub fn nodes<'a>(&'a self) -> (iter: NodeIter<'a>)
        ensures
            iter.remaining() == self.root().subtree(),
    {
        self.root.walk()
    }

    /// Changes the region of `id` from `old_region` to `new_region`, in the
    /// tree of nodes and in what the tree keeps for the id.
    fn move_element(&mut self, id: u64, old_region: Rect, new_region: Rect)
        requires
            old(self).wf(),
            old(self)@.contains_key(id),
            old(self)@[id].1 == old_region,
            new_region.valid(),
            old(self).region().spec_contains(&new_region),
        ensures
            final(self).wf(),
            final(self)@ == old(self)@.insert(id, (old(self)@[id].0, new_region)),
            final(self).next_id() == old(self).next_id(),
            final(self).region() == old(self).region(),
            final(self).capacity() == old(self).capacity(),
    {
        self.root.move_element(id, old_region, new_region, self.max_node_capacity);
        match self.elements.remove(&id) {
            Some((element, _)) => {
                self.elements.insert(id, (element, new_region));
            },
            None => {},
        }
        assert(self.elements@ =~= old(self).elements@.insert(
            id,
            (old(self).elements@[id].0, new_region),
        ));
        assert(self.root@ =~= regions_of(self.elements@));
    }
}

impl<T: PartialEq> Quadtree<T> {
    /// Whether some live id has a value equal to `element`.
    pub fn contains(&self, element: &T) -> (found: bool)
        ensures
            T::obeys_eq_spec() ==> found == exists|id: u64|
                #![trigger self@.contains_key(id)]
                self@.contains_key(id) && self@[id].0.eq_spec(element),
    {
        for p in it: self.elements.values()
            invariant
                it.seq() == self.elements.values().remaining(),
                T::obeys_eq_spec() ==> forall|j: int|
                    0 <= j < it.index() ==> !(#[trigger] it.seq()[j]).0.eq_spec(element),
        {
            if p.0 == *element {
                proof {
                    if T::obeys_eq_spec() {
                        let s = self.elements.values().remaining();
                        assert(s.unref().to_set().contains(*p));
                        let k = choose|k: u64|
                            self.elements@.contains_key(k) && self.elements@[k] == *p;
                        assert(self@.contains_key(k) && self@[k].0.eq_spec(element));
                    }
                }
                return true;
            }
        }
        proof {
            if T::obeys_eq_spec() {
                let s = self.elements.values().remaining();
                assert forall|id: u64| self@.contains_key(id) implies !self@[id].0.eq_spec(
                    element,
                ) by {
                    assert(self.elements@.values().contains(self@[id]));
                }
            }
        }
        false
    }
}

impl<T> Default for Quadtree<T> {
    /// An empty tree over the square from (-100, -100) to (100, 100), with
    /// leaves of up to 5 ids.
    fn default() -> (tree: Self)
        ensures
            tree.wf(),
            tree@ == Map::<u64, (T, Rect)>::empty(),
            tree.region() == (Rect { x: -100i32, y: -100i32, w: 200i32, h: 200i32 }),
            tree.capacity() == 5,
            tree.next_id() == 0,
    {
        Quadtree::new(Rect::new(-100, -100, 200, 200), 5)
    }
}

/// A read-only handle on one live id of a tree.
pub struct Entry<'a, T> {
    id: u64,
    owner: &'a Quadtree<T>,
}

/// A handle on one live id of a tree, through which the region of the id
/// and its value can be changed.
///
/// The fields are public so that contracts can speak of the tree behind the
/// handle, also as it will be when the handle is gone.
pub struct EntryMut<'a, T> {
    pub id: u64,
    pub owner: &'a mut Quadtree<T>,
}

impl<'a, T> Entry<'a, T> {
    #[verifier::type_invariant]
    spec fn live(self) -> bool {
        self.owner@.contains_key(self.id)
    }

    /// The id that the handle is for.
    pub closed spec fn spec_id(&self) -> u64 {
        self.id
    }

    /// The tree that the handle belongs to.
    pub closed spec fn tree(&self) -> Quadtree<T> {
        *self.owner
    }

    /// The value that the tree keeps for the id.
    pub fn value(&self) -> (v: &T)
        ensures
            self.tree()@.contains_key(self.id()),
            *v == self.tree()@[self.id()].0,
    {
        proof {
            use_type_invariant(self);
        }
        &self.owner.elements.get(&self.id).unwrap().0
    }

    /// The id that the handle is for.
    #[verifier::when_used_as_spec(spec_id)]
    pub fn id(&self) -> (id: u64)
        ensures
            id == self.spec_id(),
    {
        self.id
    }
}

impl<'a, T> EntryMut<'a, T> {
    /// The tree behind the handle is well formed and has the id.
    pub open spec fn wf(&self) -> bool {
        &&& self.owner.wf()
        &&& self.owner@.contains_key(self.id)
    }

    /// The value that the tree keeps for the id.
    pub fn value(&self) -> (v: &T)
        requires
            self.owner@.contains_key(self.id),
        ensures
            *v == old(self.owner)@[self.id].0,
    {
        &self.owner.elements.get(&self.id).unwrap().0
    }

    /// The id that the handle is for.
    pub fn id(&self) -> (id: u64)
        ensures
            id == self.id,
    {
        self.id
    }

    /// Moves the id to `new_region`; its value stays.
    pub fn move_entry(&mut self, new_region: Rect)
        requires
            old(self).wf(),
            new_region.valid(),
            old(self).owner.region().spec_contains(&new_region),
        ensures
            final(self).wf(),
            final(self).id == old(self).id,
            final(self).owner@ == old(self).owner@.insert(
                old(self).id,
                (old(self).owner@[old(self).id].0, new_region),
            ),
            final(self).owner.next_id() == old(self).owner.next_id(),
            final(self).owner.region() == old(self).owner.region(),
            final(self).owner.capacity() == old(self).owner.capacity(),
            *final(final(self).owner) == *final(old(self).owner),
    {
        let old_region = self.owner.elements.get(&self.id).unwrap().1;
        self.owner.move_element(self.id, old_region, new_region);
    }
}

impl<T> Quadtree<T> {
    /// A read-only handle on `id`.
    pub fn entry<'a>(&'a mut self, id: u64) -> (entry: Entry<'a, T>)
        requires
            old(self)@.contains_key(id),
        ensures
            entry.id() == id,
            entry.tree() == *old(self),
            *final(self) == *old(self),
    {
        Entry { id, owner: self }
    }

    /// A handle on `id` through which the id can be moved.
    pub fn entry_mut<'a>(&'a mut self, id: u64) -> (entry: EntryMut<'a, T>)
        requires
            old(self).wf(),
            old(self)@.contains_key(id),
        ensures
            entry.wf(),
            entry.id == id,
            *entry.owner == *old(self),
            *final(entry.owner) == *final(self),
    {
        EntryMut { id, owner: self }
    }
}

impl<'a, T> EntryMut<'a, T> {
    /// Exclusive access to the value that the tree keeps for the id. The
    /// tree stays as it is but for that value.
    pub fn value_mut(&mut self) -> (v: &mut T)
        requires
            old(self).wf(),
        ensures
            *v == old(self).owner@[old(self).id].0,
            final(self).wf(),
            final(self).id == old(self).id,
            final(self).owner@ == old(self).owner@.insert(
                old(self).id,
                (*final(v), old(self).owner@[old(self).id].1),
            ),
            final(self).owner.root() == old(self).owner.root(),
            final(self).owner.next_id() == old(self).owner.next_id(),
            final(self).owner.capacity() == old(self).owner.capacity(),
            *final(final(self).owner) == *final(old(self).owner),
    {
        proof {
            let m = self.owner.elements@;
            let id = self.id;
            assert forall|v: T| #[trigger]
                regions_of(m.insert(id, (v, m[id].1))) == regions_of(m) by {}
        }
        match self.owner.elements.entry(self.id) {
            std::collections::hash_map::Entry::Occupied(slot) => {
                let pair = slot.into_mut();
                &mut pair.0
            },
            std::collections::hash_map::Entry::Vacant(_) => {
                vstd::pervasive::unreached()
            },
        }
    }
}

impl<T> Quadtree<T> {
    /// A read-only handle on every live id, each id once, in the order in
    /// which the tree enumerates what it keeps.
    pub fn entries<'a>(&'a self) -> (entries: Vec<Entry<'a, T>>)
        ensures
            entries@.map_values(|e: Entry<'a, T>| e.id()) == self.ids(),
            lists(self.ids(), self@.dom()),
            forall|i: int| 0 <= i < entries@.len() ==> (#[trigger] entries@[i]).tree() == *self,
    {
        let mut entries: Vec<Entry<'a, T>> = Vec::new();
        for id in it: self.elements.keys()
            invariant
                it.seq() == self.elements.keys().remaining(),
                it.seq().unref() == self.ids(),
                entries@.len() == it.index(),
                forall|j: int|
                    0 <= j < entries@.len() ==> (#[trigger] entries@[j]).id == *it.seq()[j]
                        && entries@[j].owner == self,
        {
            assert(it.seq().unref().to_set().contains(*id));
            entries.push(Entry { id: *id, owner: self });
        }
        proof {
            let s = self.elements.keys().remaining();
            assert(entries@.map_values(|e: Entry<'a, T>| e.id()) =~= s.unref());
            assert forall|i: int, j: int|
                0 <= i < s.len() && 0 <= j < s.len() && i != j implies s.unref()[i]
                != s.unref()[j] by {
                assert(*s[i] == s.unref()[i] && *s[j] == s.unref()[j]);
            }
        }
        entries
    }

    /// Every live id, each once and in the order of `entries`, so that a
    /// caller can take a handle on one after the other.
    pub fn entries_mut(&mut self) -> (ids: Vec<u64>)
        ensures
            *final(self) == *old(self),
            ids@ == old(self).ids(),
            lists(ids@, old(self)@.dom()),
    {
        let mut ids: Vec<u64> = Vec::new();
        for id in it: self.elements.keys()
            invariant
                it.seq() == self.elements.keys().remaining(),
                it.seq().unref() == self.ids(),
                ids@.len() == it.index(),
                forall|j: int| 0 <= j < ids@.len() ==> #[trigger] ids@[j] == *it.seq()[j],
        {
            ids.push(*id);
        }
        proof {
            let s = self.elements.keys().remaining();
            assert(ids@ =~= s.unref());
            assert forall|i: int, j: int|
                0 <= i < s.len() && 0 <= j < s.len() && i != j implies s.unref()[i]
                != s.unref()[j] by {
                assert(*s[i] == s.unref()[i] && *s[j] == s.unref()[j]);
            }
        }
        ids
    }
}

impl<T> Quadtree<T> {
    /// What a well-formed tree guarantees: the tree of nodes is well formed
    /// and balanced for the tree's capacity; it records exactly the live
    /// ids, each with the region that the tree keeps for it; the number of
    /// live ids is the size of the root; every region kept is valid and
    /// lies inside the region of the tree; and every live id is below the
    /// next one to be handed out.
    pub proof fn lemma_wf(&self)
        requires
            self.wf(),
        ensures
            self.root().wf(),
            self.root().balanced(self.capacity()),
            self.root().depth() == 0,
            self.root()@ == self.regions(),
            self@.dom().finite(),
            self.root().size() == self@.len(),
            forall|id: u64| #[trigger]
                self@.contains_key(id) ==> id < self.next_id() && self@[id].1.valid()
                    && self.region().spec_contains(&self@[id].1),
    {
        self.root.lemma_wf();
        assert(self.root@.dom() =~= self.elements@.dom());
    }

    /// On an empty tree every query comes back empty: whatever selection
    /// of ids a query lists, the values picked for it are none.
    pub proof fn lemma_empty_tree_queries(&self, query: Rect, values: Seq<&T>, ids: Seq<u64>)
        requires
            self@ == Map::<u64, (T, Rect)>::empty(),
            picks(self@, values, ids),
            lists(ids, contained_in(self.regions(), query)) || lists(
                ids,
                overlapped_by(self.regions(), query),
            ),
        ensures
            values == Seq::<&T>::empty(),
    {
        lemma_queries_of_nothing(query, ids);
    }

    /// Round trip: a tree that has taken `element` with `region`, as
    /// `insert` leaves it, and then gives up the id that was handed out, as
    /// `remove` leaves it, gives back exactly `element` and `region`, and
    /// holds again what it held before.
    pub proof fn lemma_insert_remove_round_trip(
        before: Self,
        inserted: Self,
        removed: Self,
        element: T,
        region: Rect,
        taken: Option<(T, Rect)>,
    )
        requires
            before.wf(),
            inserted@ == before@.insert(before.next_id(), (element, region)),
            taken == inserted@.get(before.next_id()),
            removed@ == inserted@.remove(before.next_id()),
        ensures
            taken == Some((element, region)),
            removed@ == before@,
    {
    }
}

} // verus!
