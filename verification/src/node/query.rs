use crate::node::{enumerates, lemma_iter_enumerates, lemma_not_seen, lemma_seen_next, seen};
use crate::node::{Node, Quad};
use crate::rect::{
    lemma_contained_needs_overlap, lemma_containing_query_overlapps, lemma_contains_transitive,
    lemma_overlapped_needs_overlap, lemma_quadrant, Rect,
};
use vstd::prelude::*;
use vstd::std_specs::iter::IteratorSpec;

verus! {

broadcast use vstd::std_specs::hash::group_hash_axioms;

/// `ids` lists the members of `set`, each exactly once.
pub open spec fn lists(ids: Seq<u64>, set: Set<u64>) -> bool {
    &&& ids.no_duplicates()
    &&& forall|id: u64| ids.contains(id) <==> set.contains(id)
}

/// The ids of `m` whose region lies fully inside `query`, edges inclusive.
pub open spec fn contained_in(m: Map<u64, Rect>, query: Rect) -> Set<u64> {
    Set::new(|id: u64| m.contains_key(id) && query.spec_contains(&m[id]))
}

/// The ids of `m` whose region meets `query`, edges inclusive.
pub open spec fn overlapped_by(m: Map<u64, Rect>, query: Rect) -> Set<u64> {
    Set::new(|id: u64| m.contains_key(id) && query.spec_overlapps(&m[id]))
}

/// The five parts of a traversal, in order: the node's own ids, then those
/// of each child.
pub open spec fn joined(
    l: Seq<u64>,
    a: Seq<u64>,
    b: Seq<u64>,
    c: Seq<u64>,
    d: Seq<u64>,
) -> Seq<u64> {
    l + a + b + c + d
}

/// The keys of those entries of `entries` whose key is in `keep`, in the
/// order of the entries.
pub open spec fn kept_keys(entries: Seq<(u64, Rect)>, keep: Set<u64>) -> Seq<u64>
    decreases entries.len(),
{
    if entries.len() == 0 {
        Seq::empty()
    } else {
        let rest = kept_keys(entries.drop_last(), keep);
        if keep.contains(entries.last().0) {
            rest.push(entries.last().0)
        } else {
            rest
        }
    }
}

/// The kept keys of the first `k + 1` entries are those of the first `k`,
/// followed by the key of entry `k` where it is kept.
proof fn lemma_kept_next(entries: Seq<(u64, Rect)>, keep: Set<u64>, k: int)
    requires
        0 <= k < entries.len(),
    ensures
        kept_keys(entries.take(k + 1), keep) == if keep.contains(entries[k].0) {
            kept_keys(entries.take(k), keep).push(entries[k].0)
        } else {
            kept_keys(entries.take(k), keep)
        },
{
    assert(entries.take(k + 1).drop_last() =~= entries.take(k));
}

/// Of entries that hold each key once, the kept keys of the first `k` hold
/// each kept key among them once, and nothing else.
proof fn lemma_kept_prefix(entries: Seq<(u64, Rect)>, m: Map<u64, Rect>, keep: Set<u64>, k: int)
    requires
        enumerates(entries, m),
        0 <= k <= entries.len(),
    ensures
        kept_keys(entries.take(k), keep).no_duplicates(),
        forall|id: u64| #[trigger]
            kept_keys(entries.take(k), keep).contains(id) <==> keep.contains(id) && seen(
                entries,
                k,
                id,
            ),
    decreases k,
{
    if k > 0 {
        let key = entries[k - 1].0;
        let before = kept_keys(entries.take(k - 1), keep);
        lemma_kept_prefix(entries, m, keep, k - 1);
        lemma_kept_next(entries, keep, k - 1);
        lemma_seen_next(entries, k - 1);
        lemma_not_seen(entries, m, k - 1);
        assert(!before.contains(key));
        assert forall|id: u64| #[trigger]
            before.push(key).contains(id) <==> before.contains(id) || id == key by {
            vstd::seq_lib::lemma_seq_contains_after_push(before, key, id);
        }
    }
}

/// The kept keys of entries that hold the entries of `m`, each key once,
/// list the kept keys of `m`.
proof fn lemma_kept_lists(entries: Seq<(u64, Rect)>, m: Map<u64, Rect>, keep: Set<u64>)
    requires
        enumerates(entries, m),
    ensures
        lists(kept_keys(entries, m.dom().intersect(keep)), m.dom().intersect(keep)),
{
    let n = entries.len() as int;
    lemma_kept_prefix(entries, m, m.dom().intersect(keep), n);
    assert(entries.take(n) =~= entries);
    let kept = kept_keys(entries, m.dom().intersect(keep));
    assert forall|id: u64| kept.contains(id) <==> m.dom().intersect(keep).contains(id) by {
        if m.contains_key(id) {
            assert(seen(entries, n, id));
        }
    }
}

/// Where no key is kept, there are no kept keys.
proof fn lemma_kept_nothing(entries: Seq<(u64, Rect)>, keep: Set<u64>)
    requires
        forall|id: u64| !keep.contains(id),
    ensures
        kept_keys(entries, keep) == Seq::<u64>::empty(),
    decreases entries.len(),
{
    if entries.len() > 0 {
        lemma_kept_nothing(entries.drop_last(), keep);
    }
}

/// What a traversal is to keep: every id, the ids inside a query region,
/// or the ids that meet it.
enum Pick {
    All,
    Contained(Rect),
    Overlapped(Rect),
}

impl Pick {
    /// The ids of `m` that are kept.
    spec fn keeps(self, m: Map<u64, Rect>) -> Set<u64> {
        match self {
            Pick::All => m.dom(),
            Pick::Contained(query) => contained_in(m, query),
            Pick::Overlapped(query) => overlapped_by(m, query),
        }
    }

    /// An id with region `r` is kept.
    spec fn takes(self, r: Rect) -> bool {
        match self {
            Pick::All => true,
            Pick::Contained(query) => query.spec_contains(&r),
            Pick::Overlapped(query) => query.spec_overlapps(&r),
        }
    }

    /// Every id with a valid region inside `region` is kept.
    spec fn spec_covers(self, region: Rect) -> bool {
        match self {
            Pick::All => true,
            Pick::Contained(query) => query.spec_contains(&region),
            Pick::Overlapped(query) => query.spec_contains(&region),
        }
    }

    /// Some id with a valid region inside `region` may be kept.
    spec fn spec_meets(self, region: Rect) -> bool {
        match self {
            Pick::All => true,
            Pick::Contained(query) => query.spec_overlapps(&region),
            Pick::Overlapped(query) => query.spec_overlapps(&region),
        }
    }

    fn test(&self, r: &Rect) -> (b: bool)
        ensures
            b == self.takes(*r),
    {
        match self {
            Pick::All => true,
            Pick::Contained(query) => query.contains(r),
            Pick::Overlapped(query) => query.overlapps(r),
        }
    }

    fn covers(&self, region: &Rect) -> (b: bool)
        ensures
            b == self.spec_covers(*region),
    {
        match self {
            Pick::All => true,
            Pick::Contained(query) => query.contains(region),
            Pick::Overlapped(query) => query.contains(region),
        }
    }

    fn meets(&self, region: &Rect) -> (b: bool)
        ensures
            b == self.spec_meets(*region),
    {
        match self {
            Pick::All => true,
            Pick::Contained(query) => query.overlapps(region),
            Pick::Overlapped(query) => query.overlapps(region),
        }
    }

    /// What is kept of a map is kept of every map that agrees with it.
    proof fn lemma_keeps_below(self, whole: Map<u64, Rect>, part: Map<u64, Rect>, id: u64)
        requires
            part.contains_key(id),
            whole.contains_key(id),
            whole[id] == part[id],
        ensures
            self.keeps(whole).contains(id) <==> self.takes(part[id]),
            self.keeps(part).contains(id) <==> self.takes(part[id]),
    {
    }

    /// Where every region inside `region` is kept, a valid region inside
    /// `region` is kept.
    proof fn lemma_covers(self, region: Rect, r: Rect)
        requires
            self.spec_covers(region),
            region.spec_contains(&r),
            r.valid(),
        ensures
            self.takes(r),
    {
        match self {
            Pick::All => {},
            Pick::Contained(query) => {
                lemma_contains_transitive(query, region, r);
            },
            Pick::Overlapped(query) => {
                lemma_containing_query_overlapps(query, region, r);
            },
        }
    }

    /// A valid region inside `region` is kept only where some region inside
    /// `region` may be.
    proof fn lemma_meets(self, region: Rect, r: Rect)
        requires
            self.takes(r),
            region.spec_contains(&r),
            r.valid(),
        ensures
            self.spec_meets(region),
    {
        match self {
            Pick::All => {},
            Pick::Contained(query) => {
                lemma_contained_needs_overlap(query, region, r);
            },
            Pick::Overlapped(query) => {
                lemma_overlapped_needs_overlap(query, region, r);
            },
        }
    }
}

/// The node's own kept ids `l`, followed by the traversals of the first `i`
/// children.
spec fn gathered(l: Seq<u64>, q: Quad, keep: Set<u64>, i: int) -> Seq<u64>
    decreases i,
{
    if i <= 0 {
        l
    } else {
        gathered(l, q, keep, i - 1) + q.at(i - 1).traversal(keep)
    }
}

proof fn lemma_gathered_four(l: Seq<u64>, q: Quad, keep: Set<u64>)
    ensures
        gathered(l, q, keep, 4) == joined(
            l,
            q.tl.traversal(keep),
            q.tr.traversal(keep),
            q.bl.traversal(keep),
            q.br.traversal(keep),
        ),
{
    assert(gathered(l, q, keep, 0) == l);
    assert(gathered(l, q, keep, 1) == l + q.at(0).traversal(keep));
    assert(gathered(l, q, keep, 2) == gathered(l, q, keep, 1) + q.at(1).traversal(keep));
    assert(gathered(l, q, keep, 3) == gathered(l, q, keep, 2) + q.at(2).traversal(keep));
    assert(gathered(l, q, keep, 4) == gathered(l, q, keep, 3) + q.at(3).traversal(keep));
}

impl Node {
    /// The kept ids of the subtree in the order of a traversal: the kept ids
    /// recorded at the node itself come first, in the order of `own()`, then
    /// the traversal of the top-left child, of the top-right, of the
    /// bottom-left and of the bottom-right.
    pub closed spec fn traversal(&self, keep: Set<u64>) -> Seq<u64>
        decreases self,
    {
        let l = kept_keys(self.own(), self.elements@.dom().intersect(keep));
        match self.children {
            None => l,
            Some(q) => joined(
                l,
                q.tl.traversal(keep),
                q.tr.traversal(keep),
                q.bl.traversal(keep),
                q.br.traversal(keep),
            ),
        }
    }

    /// What `traversal` is for a leaf and for a node with children.
    pub proof fn lemma_traversal(&self, keep: Set<u64>)
        ensures
            self.spec_is_leaf() ==> self.traversal(keep) == kept_keys(
                self.own(),
                self.local().dom().intersect(keep),
            ),
            !self.spec_is_leaf() ==> self.traversal(keep) == joined(
                kept_keys(self.own(), self.local().dom().intersect(keep)),
                self.spec_child(0)->0.traversal(keep),
                self.spec_child(1)->0.traversal(keep),
                self.spec_child(2)->0.traversal(keep),
                self.spec_child(3)->0.traversal(keep),
            ),
    {
    }

    /// `ids` has the shape of a traversal that keeps the ids in `keep`: the
    /// kept ids recorded at the node itself come first, each once, then
    /// such a sequence for the top-left child, for the top-right, for the
    /// bottom-left and for the bottom-right.
    pub closed spec fn visits(&self, ids: Seq<u64>, keep: Set<u64>) -> bool
        decreases self,
    {
        match self.children {
            None => lists(ids, self.elements@.dom().intersect(keep)),
            Some(q) => exists|l: Seq<u64>, a: Seq<u64>, b: Seq<u64>, c: Seq<u64>, d: Seq<u64>|
                {
                    &&& #[trigger] joined(l, a, b, c, d) == ids
                    &&& lists(l, self.elements@.dom().intersect(keep))
                    &&& q.tl.visits(a, keep)
                    &&& q.tr.visits(b, keep)
                    &&& q.bl.visits(c, keep)
                    &&& q.br.visits(d, keep)
                },
        }
    }

    /// What `visits` says of a leaf and of a node with children.
    pub proof fn lemma_visits(&self, ids: Seq<u64>, keep: Set<u64>)
        ensures
            self.spec_is_leaf() ==> (self.visits(ids, keep) <==> lists(
                ids,
                self.local().dom().intersect(keep),
            )),
            !self.spec_is_leaf() ==> (self.visits(ids, keep) <==> exists|
                l: Seq<u64>,
                a: Seq<u64>,
                b: Seq<u64>,
                c: Seq<u64>,
                d: Seq<u64>,
            |
                {
                    &&& #[trigger] joined(l, a, b, c, d) == ids
                    &&& lists(l, self.local().dom().intersect(keep))
                    &&& self.spec_child(0)->0.visits(a, keep)
                    &&& self.spec_child(1)->0.visits(b, keep)
                    &&& self.spec_child(2)->0.visits(c, keep)
                    &&& self.spec_child(3)->0.visits(d, keep)
                }),
    {
    }

    /// A sequence of the shape of a traversal lists the kept ids of the
    /// subtree, each once.
    pub proof fn lemma_visits_lists(&self, ids: Seq<u64>, keep: Set<u64>)
        requires
            self.wf(),
            self.visits(ids, keep),
        ensures
            lists(ids, self@.dom().intersect(keep)),
        decreases self,
    {
        broadcast use vstd::seq_lib::lemma_seq_concat_contains_all_elements;

        match self.children {
            None => {},
            Some(q) => {
                let (l, a, b, c, d) = choose|
                    l: Seq<u64>,
                    a: Seq<u64>,
                    b: Seq<u64>,
                    c: Seq<u64>,
                    d: Seq<u64>,
                |
                    {
                        &&& #[trigger] joined(l, a, b, c, d) == ids
                        &&& lists(l, self.elements@.dom().intersect(keep))
                        &&& q.tl.visits(a, keep)
                        &&& q.tr.visits(b, keep)
                        &&& q.bl.visits(c, keep)
                        &&& q.br.visits(d, keep)
                    };
                q.tl.lemma_visits_lists(a, keep);
                q.tr.lemma_visits_lists(b, keep);
                q.bl.lemma_visits_lists(c, keep);
                q.br.lemma_visits_lists(d, keep);
                let la = l + a;
                let lab = la + b;
                let labc = lab + c;
                assert forall|i: int, j: int| 0 <= i < l.len() && 0 <= j < a.len() implies l[i]
                    != a[j] by {
                    assert(l.contains(l[i]) && a.contains(a[j]));
                }
                vstd::seq_lib::lemma_no_dup_in_concat(l, a);
                assert forall|i: int, j: int| 0 <= i < la.len() && 0 <= j < b.len() implies la[i]
                    != b[j] by {
                    assert(la.contains(la[i]) && b.contains(b[j]));
                }
                vstd::seq_lib::lemma_no_dup_in_concat(la, b);
                assert forall|i: int, j: int|
                    0 <= i < lab.len() && 0 <= j < c.len() implies lab[i] != c[j] by {
                    assert(lab.contains(lab[i]) && c.contains(c[j]));
                }
                vstd::seq_lib::lemma_no_dup_in_concat(lab, c);
                assert forall|i: int, j: int|
                    0 <= i < labc.len() && 0 <= j < d.len() implies labc[i] != d[j] by {
                    assert(labc.contains(labc[i]) && d.contains(d[j]));
                }
                vstd::seq_lib::lemma_no_dup_in_concat(labc, d);
            },
        }
    }

    /// A traversal, and whether a sequence has the shape of one, depend on
    /// `keep` only as far as the ids of the subtree go.
    proof fn lemma_keep(&self, ids: Seq<u64>, k1: Set<u64>, k2: Set<u64>)
        requires
            self.wf(),
            forall|id: u64| #[trigger]
                self.items().contains_key(id) ==> (k1.contains(id) <==> k2.contains(id)),
        ensures
            self.traversal(k1) == self.traversal(k2),
            self.visits(ids, k1) ==> self.visits(ids, k2),
        decreases self,
    {
        assert(self.elements@.dom().intersect(k1) =~= self.elements@.dom().intersect(k2));
        match self.children {
            None => {},
            Some(q) => {
                if self.visits(ids, k1) {
                    let (l, a, b, c, d) = choose|
                        l: Seq<u64>,
                        a: Seq<u64>,
                        b: Seq<u64>,
                        c: Seq<u64>,
                        d: Seq<u64>,
                    |
                        {
                            &&& #[trigger] joined(l, a, b, c, d) == ids
                            &&& lists(l, self.elements@.dom().intersect(k1))
                            &&& q.tl.visits(a, k1)
                            &&& q.tr.visits(b, k1)
                            &&& q.bl.visits(c, k1)
                            &&& q.br.visits(d, k1)
                        };
                    q.tl.lemma_keep(a, k1, k2);
                    q.tr.lemma_keep(b, k1, k2);
                    q.bl.lemma_keep(c, k1, k2);
                    q.br.lemma_keep(d, k1, k2);
                    assert(joined(l, a, b, c, d) == ids);
                }
                q.tl.lemma_keep(ids, k1, k2);
                q.tr.lemma_keep(ids, k1, k2);
                q.bl.lemma_keep(ids, k1, k2);
                q.br.lemma_keep(ids, k1, k2);
            },
        }
    }

    /// Where nothing of the subtree is kept, the traversal is empty.
    proof fn lemma_nothing(&self, keep: Set<u64>)
        requires
            self.wf(),
            forall|id: u64| #[trigger] self.items().contains_key(id) ==> !keep.contains(id),
        ensures
            self.traversal(keep) == Seq::<u64>::empty(),
            self.visits(Seq::<u64>::empty(), keep),
        decreases self,
    {
        let e = Seq::<u64>::empty();
        lemma_kept_nothing(self.own(), self.elements@.dom().intersect(keep));
        match self.children {
            None => {},
            Some(q) => {
                q.tl.lemma_nothing(keep);
                q.tr.lemma_nothing(keep);
                q.bl.lemma_nothing(keep);
                q.br.lemma_nothing(keep);
                assert(joined(e, e, e, e, e) =~= e);
            },
        }
    }

    /// The traversal of the subtree that keeps what `pick` says.
    ///
    /// The ids recorded at the node itself are tested one by one. A child
    /// whose region holds only regions that are kept gives all its ids
    /// untested; one whose region holds no region that is kept is skipped.
    fn collect(&self, pick: &Pick) -> (ids: Vec<u64>)
        requires
            self.wf(),
        ensures
            ids@ == self.traversal(pick.keeps(self.items())),
            self.visits(ids@, pick.keeps(self.items())),
            lists(ids@, pick.keeps(self.items())),
        decreases self.region.span(),
    {
        let mut result: Vec<u64> = Vec::new();
        let ghost keep = pick.keeps(self.items());
        let ghost local = self.elements@.dom().intersect(keep);
        for p in it: self.elements.iter()
            invariant
                it.seq() == self.elements.iter().remaining(),
                it.seq().no_duplicates(),
                it.seq().unref() == self.own(),
                self.wf(),
                keep == pick.keeps(self.items()),
                local == self.elements@.dom().intersect(keep),
                result@ == kept_keys(self.own().take(it.index() as int), local),
        {
            proof {
                lemma_iter_enumerates(&self.elements);
                lemma_kept_next(self.own(), local, it.index() as int);
                pick.lemma_keeps_below(self.items(), self.elements@, *p.0);
            }
            if pick.test(p.1) {
                result.push(*p.0);
            }
        }
        let ghost l = result@;
        proof {
            lemma_iter_enumerates(&self.elements);
            assert(self.own().take(self.own().len() as int) =~= self.own());
            lemma_kept_lists(self.own(), self.elements@, keep);
        }
        match &self.children {
            Some(q) => {
                let mut i: usize = 0;
                while i < 4
                    invariant
                        0 <= i <= 4,
                        self.wf(),
                        self.children == Some(*q),
                        keep == pick.keeps(self.items()),
                        result@ == gathered(l, **q, keep, i as int),
                        forall|j: int|
                            0 <= j < i ==> (#[trigger] q.at(j)).visits(
                                q.at(j).traversal(keep),
                                keep,
                            ),
                    decreases 4 - i,
                {
                    let child = q.get(i);
                    proof {
                        lemma_quadrant(self.region, i as int);
                    }
                    if pick.covers(&child.region) {
                        let mut sub = child.collect(&Pick::All);
                        proof {
                            assert forall|id: u64| #[trigger]
                                child.items().contains_key(id) implies keep.contains(id) by {
                                pick.lemma_covers(child.region, child.items()[id]);
                                pick.lemma_keeps_below(self.items(), child.items(), id);
                            }
                            child.lemma_keep(sub@, child.items().dom(), keep);
                        }
                        result.append(&mut sub);
                    } else if pick.meets(&child.region) {
                        let mut sub = child.collect(pick);
                        proof {
                            assert forall|id: u64| #[trigger]
                                child.items().contains_key(id) implies (pick.keeps(
                                child.items(),
                            ).contains(id) <==> keep.contains(id)) by {
                                pick.lemma_keeps_below(self.items(), child.items(), id);
                            }
                            child.lemma_keep(sub@, pick.keeps(child.items()), keep);
                        }
                        result.append(&mut sub);
                    } else {
                        proof {
                            assert forall|id: u64| #[trigger]
                                child.items().contains_key(id) implies !keep.contains(id) by {
                                pick.lemma_keeps_below(self.items(), child.items(), id);
                                if keep.contains(id) {
                                    pick.lemma_meets(child.region, child.items()[id]);
                                }
                            }
                            child.lemma_nothing(keep);
                            assert(result@ + Seq::<u64>::empty() =~= result@);
                        }
                    }
                    i += 1;
                }
                proof {
                    lemma_gathered_four(l, **q, keep);
                    assert(q.at(0).visits(q.at(0).traversal(keep), keep));
                    assert(q.at(1).visits(q.at(1).traversal(keep), keep));
                    assert(q.at(2).visits(q.at(2).traversal(keep), keep));
                    assert(q.at(3).visits(q.at(3).traversal(keep), keep));
                    assert(joined(
                        l,
                        q.tl.traversal(keep),
                        q.tr.traversal(keep),
                        q.bl.traversal(keep),
                        q.br.traversal(keep),
                    ) == result@);
                    self.lemma_visits_lists(result@, keep);
                }
            },
            None => {},
        }
        assert(self.items().dom().intersect(keep) =~= keep);
        result
    }

    /// Every id recorded in the subtree of this node, in the order of a
    /// traversal: those of the node itself first, then those of each child
    /// in turn.
    pub fn get_all(&self) -> (ids: Vec<u64>)
        requires
            self.wf(),
        ensures
            ids@ == self.traversal(self@.dom()),
            lists(ids@, self@.dom()),
            self.visits(ids@, self@.dom()),
    {
        self.collect(&Pick::All)
    }

    /// The ids of the subtree whose region lies fully inside `region`, edges
    /// inclusive, in the order of a traversal.
    ///
    /// A child whose whole region lies inside `region` gives all its ids
    /// unexamined; one whose region does not even meet `region` is skipped.
    pub fn get_contained(&self, region: Rect) -> (ids: Vec<u64>)
        requires
            self.wf(),
        ensures
            ids@ == self.traversal(contained_in(self@, region)),
            lists(ids@, contained_in(self@, region)),
            self.visits(ids@, contained_in(self@, region)),
    {
        self.collect(&Pick::Contained(region))
    }

    /// The ids of the subtree whose region meets `region`, edges inclusive,
    /// in the order of a traversal.
    ///
    /// A child whose whole region lies inside `region` gives all its ids
    /// unexamined; one whose region does not meet `region` is skipped.
    pub fn get_overlapped(&self, region: Rect) -> (ids: Vec<u64>)
        requires
            self.wf(),
        ensures
            ids@ == self.traversal(overlapped_by(self@, region)),
            lists(ids@, overlapped_by(self@, region)),
            self.visits(ids@, overlapped_by(self@, region)),
    {
        self.collect(&Pick::Overlapped(region))
    }
}

/// Where nothing is recorded, no query selects anything: a listing of what
/// some query contains or overlaps is the empty sequence.
pub proof fn lemma_queries_of_nothing(query: Rect, ids: Seq<u64>)
    requires
        lists(ids, contained_in(Map::<u64, Rect>::empty(), query)) || lists(
            ids,
            overlapped_by(Map::<u64, Rect>::empty(), query),
        ),
    ensures
        ids == Seq::<u64>::empty(),
{
    if ids.len() > 0 {
        assert(ids.contains(ids[0]));
    }
}

} // verus!
