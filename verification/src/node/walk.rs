use crate::node::Node;
use vstd::prelude::*;

verus! {

/// A walk over the nodes of a tree, each node before its children and the
/// children in the order top-left, top-right, bottom-left, bottom-right.
///
/// The walk keeps a stack of the nodes whose subtrees are still to be
/// visited; each step pops one node and pushes its children, the last child
/// first, so that the first child is the next to be popped.
pub struct NodeIter<'a> {
    nodes_to_process: Vec<&'a Node>,
}

/// The nodes that a walk with the stack `stack` still visits: the subtree of
/// the node on top, then what the rest of the stack gives.
spec fn pending(stack: Seq<&Node>) -> Seq<Node>
    decreases stack.len(),
{
    if stack.len() == 0 {
        Seq::empty()
    } else {
        stack.last().subtree() + pending(stack.drop_last())
    }
}

proof fn lemma_pending_push(stack: Seq<&Node>, node: &Node)
    ensures
        pending(stack.push(node)) == node.subtree() + pending(stack),
{
    assert(stack.push(node).drop_last() =~= stack);
}

impl Node {
    /// The nodes of the subtree in the order of a walk: the node itself
    /// first, then the subtree of the top-left child, of the top-right, of
    /// the bottom-left and of the bottom-right.
    pub closed spec fn subtree(&self) -> Seq<Node>
        decreases self,
    {
        match self.children {
            None => seq![*self],
            Some(q) => seq![*self] + q.tl.subtree() + q.tr.subtree() + q.bl.subtree()
                + q.br.subtree(),
        }
    }

    /// The walk starts at the node itself and goes on through the subtrees
    /// of its children, first child first.
    pub proof fn lemma_subtree(&self)
        ensures
            self.subtree().len() > 0,
            self.subtree()[0] == *self,
            self.spec_is_leaf() ==> self.subtree() == seq![*self],
            !self.spec_is_leaf() ==> self.subtree() == seq![*self] + self.spec_child(
                0,
            )->0.subtree() + self.spec_child(1)->0.subtree() + self.spec_child(2)->0.subtree()
                + self.spec_child(3)->0.subtree(),
    {
    }

    /// Every node in the subtree of a well-formed node is well formed, and
    /// every node in the subtree of a balanced node is balanced.
    pub proof fn lemma_subtree_wf(&self, cap: usize)
        requires
            self.wf(),
        ensures
            forall|i: int| 0 <= i < self.subtree().len() ==> (#[trigger] self.subtree()[i]).wf(),
            self.balanced(cap) ==> forall|i: int|
                0 <= i < self.subtree().len() ==> (#[trigger] self.subtree()[i]).balanced(cap),
        decreases self,
    {
        match self.children {
            None => {},
            Some(q) => {
                q.tl.lemma_subtree_wf(cap);
                q.tr.lemma_subtree_wf(cap);
                q.bl.lemma_subtree_wf(cap);
                q.br.lemma_subtree_wf(cap);
                let s0 = seq![*self];
                let s1 = s0 + q.tl.subtree();
                let s2 = s1 + q.tr.subtree();
                let s3 = s2 + q.bl.subtree();
                assert forall|i: int| 0 <= i < self.subtree().len() implies (
                #[trigger] self.subtree()[i]).wf() && (self.balanced(cap)
                    ==> self.subtree()[i].balanced(cap)) by {
                    if i >= s3.len() {
                        assert(self.subtree()[i] == q.br.subtree()[i - s3.len()]);
                    }
                }
            },
        }
    }

    /// At every node in the subtree of a well-formed node, each id that the
    /// node records itself has its region inside the region of the node.
    pub proof fn lemma_subtree_regions(&self)
        requires
            self.wf(),
        ensures
            forall|i: int, id: u64|
                0 <= i < self.subtree().len() && (#[trigger] self.subtree()[i].local().contains_key(
                    id,
                )) ==> self.subtree()[i].region().spec_contains(&self.subtree()[i].local()[id]),
    {
        self.lemma_subtree_wf(0);
        assert forall|i: int, id: u64|
            0 <= i < self.subtree().len() && (#[trigger] self.subtree()[i].local().contains_key(
                id,
            )) implies self.subtree()[i].region().spec_contains(
            &self.subtree()[i].local()[id],
        ) by {
            self.subtree()[i].lemma_wf();
        }
    }

    /// A walk over the subtree of this node.
    pub fn walk(&self) -> (iter: NodeIter<'_>)
        ensures
            iter.remaining() == self.subtree(),
    {
        let mut nodes_to_process: Vec<&Node> = Vec::new();
        nodes_to_process.push(self);
        proof {
            lemma_pending_push(Seq::empty(), self);
        }
        NodeIter { nodes_to_process }
    }
}

impl<'a> NodeIter<'a> {
    /// The nodes that the walk has yet to yield, in order.
    pub closed spec fn remaining(&self) -> Seq<Node> {
        pending(self.nodes_to_process@)
    }

    /// Yields the next node of the walk, or `None` when the walk is over.
    pub fn next(&mut self) -> (item: Option<&'a Node>)
        ensures
            match item {
                Some(node) => old(self).remaining().len() > 0 && *node == old(self).remaining()[0]
                    && final(self).remaining() == old(self).remaining().drop_first(),
                None => old(self).remaining().len() == 0 && final(self).remaining() == old(
                    self,
                ).remaining(),
            },
    {
        match self.nodes_to_process.pop() {
            Some(node) => {
                let ghost rest = self.nodes_to_process@;
                match &node.children {
                    Some(q) => {
                        let mut i: usize = 4;
                        while i > 0
                            invariant
                                0 <= i <= 4,
                                node.children == Some(*q),
                                self.nodes_to_process@.len() == rest.len() + 4 - i,
                                forall|j: int|
                                    0 <= j < rest.len() ==> self.nodes_to_process@[j] == rest[j],
                                forall|j: int|
                                    i <= j < 4 ==> *self.nodes_to_process@[rest.len() as int + 3
                                        - j] == q.at(j),
                            decreases i,
                        {
                            i -= 1;
                            self.nodes_to_process.push(q.get(i));
                        }
                        proof {
                            let s = self.nodes_to_process@;
                            assert(*s[rest.len() as int + 3 - 3] == q.at(3));
                            assert(*s[rest.len() as int + 3 - 2] == q.at(2));
                            assert(*s[rest.len() as int + 3 - 1] == q.at(1));
                            assert(*s[rest.len() as int + 3 - 0] == q.at(0));
                            assert(s =~= rest.push(&q.br).push(&q.bl).push(&q.tr).push(&q.tl));
                            lemma_pending_push(rest, &q.br);
                            lemma_pending_push(rest.push(&q.br), &q.bl);
                            lemma_pending_push(rest.push(&q.br).push(&q.bl), &q.tr);
                            lemma_pending_push(rest.push(&q.br).push(&q.bl).push(&q.tr), &q.tl);
                        }
                    },
                    None => {},
                }
                Some(node)
            },
            None => None,
        }
    }
}

} // verus!
