//! The traversal of the graph from a root: every node that the root depends
//! on, after the nodes that it depends on itself.

use crate::graph::{holds, lemma_push_contains, Connected, Graph};
use vstd::prelude::*;

verus! {

impl<N: Connected, E> Graph<N, E> {
    /// The order after `node` has been visited, where `order` had been
    /// emitted before: first the inputs of `node` are visited, oldest first,
    /// then `node` is emitted unless it has been emitted already.
    pub open spec fn visit(&self, node: usize, order: Seq<usize>, depth: nat) -> Seq<usize>
        decreases depth, 0nat,
    {
        if depth == 0 {
            order
        } else {
            let after = self.visit_each(self.inputs(node as int), order, (depth - 1) as nat);
            if after.contains(node) {
                after
            } else {
                after.push(node)
            }
        }
    }

    /// The order after the nodes of `list` have been visited one after the
    /// other, first to last, where `order` had been emitted before.
    pub open spec fn visit_each(&self, list: Seq<usize>, order: Seq<usize>, depth: nat) -> Seq<
        usize,
    >
        decreases depth, list.len() + 1,
    {
        if list.len() == 0 {
            order
        } else {
            self.visit(list.last(), self.visit_each(list.drop_last(), order, depth), depth)
        }
    }

    /// Whether `order` is a post-order of part of the graph: no entry stands
    /// twice, every entry names a node, and every input of an entry stands
    /// before that entry.
    pub open spec fn is_post_order(&self, order: Seq<usize>) -> bool {
        &&& order.no_duplicates()
        &&& forall|i: int| 0 <= i < order.len() ==> order[i] < self.count()
        &&& forall|i: int, k: int|
            0 <= i < order.len() && 0 <= k < self.inputs(order[i] as int).len()
                ==> order.subrange(0, i).contains(#[trigger] self.inputs(order[i] as int)[k])
    }

    /// The order in which `traverse` emits the nodes that `root` depends on.
    pub open spec fn post_order(&self, root: usize) -> Seq<usize> {
        self.visit(root, Seq::empty(), choose|depth: nat| self.bounded_depth(root, depth))
    }

    /// The order of a visit does not depend on the depth allowed for it, as
    /// long as the chains from the node end within it.
    pub proof fn lemma_visit_any_depth(&self, node: usize, order: Seq<usize>, d1: nat, d2: nat)
        requires
            self.bounded_depth(node, d1),
            self.bounded_depth(node, d2),
        ensures
            self.visit(node, order, d1) == self.visit(node, order, d2),
        decreases d1, 0nat,
    {
        self.lemma_visit_each_any_depth(
            self.inputs(node as int),
            order,
            (d1 - 1) as nat,
            (d2 - 1) as nat,
        );
    }

    /// The same for a list of nodes.
    pub proof fn lemma_visit_each_any_depth(
        &self,
        list: Seq<usize>,
        order: Seq<usize>,
        d1: nat,
        d2: nat,
    )
        requires
            forall|k: int|
                0 <= k < list.len() ==> self.bounded_depth(#[trigger] list[k], d1)
                    && self.bounded_depth(list[k], d2),
        ensures
            self.visit_each(list, order, d1) == self.visit_each(list, order, d2),
        decreases d1, list.len() + 1,
    {
        if list.len() > 0 {
            assert(self.bounded_depth(list[list.len() - 1], d1));
            assert forall|k: int| 0 <= k < list.drop_last().len() implies self.bounded_depth(
                #[trigger] list.drop_last()[k],
                d1,
            ) && self.bounded_depth(list.drop_last()[k], d2) by {
                assert(self.bounded_depth(list[k], d1));
            }
            self.lemma_visit_each_any_depth(list.drop_last(), order, d1, d2);
            self.lemma_visit_any_depth(
                list.last(),
                self.visit_each(list.drop_last(), order, d1),
                d1,
                d2,
            );
        }
    }

    /// A visit extends a post-order to a post-order that holds the visited
    /// node. Every entry it adds is a node whose chains end within `depth`.
    pub proof fn lemma_visit(&self, node: usize, order: Seq<usize>, depth: nat)
        requires
            self.nodes@.len() == self.edges@.len(),
            self.lists_in_range(),
            node < self.count(),
            self.bounded_depth(node, depth),
            self.is_post_order(order),
        ensures
            self.is_post_order(self.visit(node, order, depth)),
            order.is_prefix_of(self.visit(node, order, depth)),
            self.visit(node, order, depth).contains(node),
            forall|x: usize|
                #[trigger] self.visit(node, order, depth).contains(x) ==> order.contains(x)
                    || self.bounded_depth(x, depth),
        decreases depth, 0nat,
    {
        let list = self.inputs(node as int);
        let after = self.visit_each(list, order, (depth - 1) as nat);
        let out = self.visit(node, order, depth);
        assert forall|k: int| 0 <= k < list.len() implies (#[trigger] list[k]) < self.count()
            && self.bounded_depth(list[k], (depth - 1) as nat) by {}
        self.lemma_visit_each(list, order, (depth - 1) as nat);
        assert forall|x: usize| #[trigger] out.contains(x) implies order.contains(x)
            || self.bounded_depth(x, depth) by {
            lemma_push_contains(after, node, x);
            if after.contains(x) && !order.contains(x) {
                self.lemma_depth_monotone(x, (depth - 1) as nat, depth);
            }
        }
        if !after.contains(node) {
            assert(out.subrange(0, after.len() as int) =~= after);
            assert forall|i: int, k: int|
                0 <= i < out.len() && 0 <= k < self.inputs(out[i] as int).len()
                    implies out.subrange(0, i).contains(
                #[trigger] self.inputs(out[i] as int)[k],
            ) by {
                if i < after.len() {
                    assert(out.subrange(0, i) =~= after.subrange(0, i));
                    assert(out[i] == after[i]);
                } else {
                    assert(after.contains(list[k]));
                }
            }
            assert(out[after.len() as int] == node);
        }
    }

    /// The same for a list of nodes: the order that comes out holds each of
    /// them.
    pub proof fn lemma_visit_each(&self, list: Seq<usize>, order: Seq<usize>, depth: nat)
        requires
            self.nodes@.len() == self.edges@.len(),
            self.lists_in_range(),
            forall|k: int|
                0 <= k < list.len() ==> (#[trigger] list[k]) < self.count() && self.bounded_depth(
                    list[k],
                    depth,
                ),
            self.is_post_order(order),
        ensures
            self.is_post_order(self.visit_each(list, order, depth)),
            order.is_prefix_of(self.visit_each(list, order, depth)),
            forall|k: int|
                0 <= k < list.len() ==> self.visit_each(list, order, depth).contains(
                    #[trigger] list[k],
                ),
            forall|x: usize|
                #[trigger] self.visit_each(list, order, depth).contains(x) ==> order.contains(x)
                    || self.bounded_depth(x, depth),
        decreases depth, list.len() + 1,
    {
        if list.len() > 0 {
            let rest = list.drop_last();
            let mid = self.visit_each(rest, order, depth);
            let out = self.visit_each(list, order, depth);
            assert forall|k: int| 0 <= k < rest.len() implies (#[trigger] rest[k]) < self.count()
                && self.bounded_depth(rest[k], depth) by {
                assert(rest[k] == list[k]);
            }
            assert(list[list.len() - 1] == list.last());
            self.lemma_visit_each(rest, order, depth);
            self.lemma_visit(list.last(), mid, depth);
            assert forall|k: int| 0 <= k < list.len() implies out.contains(
                #[trigger] list[k],
            ) by {
                if k < rest.len() {
                    assert(rest[k] == list[k]);
                    assert(mid.contains(list[k]));
                    let j = choose|j: int| 0 <= j < mid.len() && mid[j] == list[k];
                    assert(out[j] == list[k]);
                }
            }
        }
    }

    /// A visit emits every node that the visited node depends on.
    pub proof fn lemma_visit_covers(
        &self,
        node: usize,
        order: Seq<usize>,
        depth: nat,
        target: usize,
        steps: nat,
    )
        requires
            self.nodes@.len() == self.edges@.len(),
            self.lists_in_range(),
            node < self.count(),
            self.bounded_depth(node, depth),
            self.is_post_order(order),
            self.reaches_within(node, target, steps),
        ensures
            self.visit(node, order, depth).contains(target),
        decreases depth, 0nat,
    {
        self.lemma_visit(node, order, depth);
        if node != target {
            let list = self.inputs(node as int);
            let k = choose|k: int|
                0 <= k < list.len() && self.reaches_within(
                    #[trigger] self.inputs(node as int)[k],
                    target,
                    (steps - 1) as nat,
                );
            assert forall|j: int| 0 <= j < list.len() implies (#[trigger] list[j]) < self.count()
                && self.bounded_depth(list[j], (depth - 1) as nat) by {}
            self.lemma_visit_each_covers(
                list,
                order,
                (depth - 1) as nat,
                k,
                target,
                (steps - 1) as nat,
            );
            lemma_push_contains(
                self.visit_each(list, order, (depth - 1) as nat),
                node,
                target,
            );
        }
    }

    /// The same for a list of nodes.
    pub proof fn lemma_visit_each_covers(
        &self,
        list: Seq<usize>,
        order: Seq<usize>,
        depth: nat,
        k: int,
        target: usize,
        steps: nat,
    )
        requires
            self.nodes@.len() == self.edges@.len(),
            self.lists_in_range(),
            forall|j: int|
                0 <= j < list.len() ==> (#[trigger] list[j]) < self.count() && self.bounded_depth(
                    list[j],
                    depth,
                ),
            self.is_post_order(order),
            0 <= k < list.len(),
            self.reaches_within(list[k], target, steps),
        ensures
            self.visit_each(list, order, depth).contains(target),
        decreases depth, list.len() + 1,
    {
        let rest = list.drop_last();
        let mid = self.visit_each(rest, order, depth);
        let out = self.visit_each(list, order, depth);
        assert forall|j: int| 0 <= j < rest.len() implies (#[trigger] rest[j]) < self.count()
            && self.bounded_depth(rest[j], depth) by {
            assert(rest[j] == list[j]);
        }
        assert(list[list.len() - 1] == list.last());
        self.lemma_visit_each(rest, order, depth);
        self.lemma_visit(list.last(), mid, depth);
        if k < rest.len() {
            assert(rest[k] == list[k]);
            self.lemma_visit_each_covers(rest, order, depth, k, target, steps);
            let j = choose|j: int| 0 <= j < mid.len() && mid[j] == target;
            assert(out[j] == target);
        } else {
            self.lemma_visit_covers(list.last(), mid, depth, target, steps);
        }
    }

    /// A visit emits only nodes that the visited node depends on.
    pub proof fn lemma_visit_only(&self, node: usize, order: Seq<usize>, depth: nat, x: usize)
        requires
            self.nodes@.len() == self.edges@.len(),
            self.lists_in_range(),
            node < self.count(),
            self.bounded_depth(node, depth),
            self.visit(node, order, depth).contains(x),
            !order.contains(x),
        ensures
            self.depends_on(node, x),
        decreases depth, 0nat,
    {
        let list = self.inputs(node as int);
        let after = self.visit_each(list, order, (depth - 1) as nat);
        lemma_push_contains(after, node, x);
        if x == node {
            assert(self.reaches_within(node, x, 0));
        } else {
            assert forall|j: int| 0 <= j < list.len() implies (#[trigger] list[j]) < self.count()
                && self.bounded_depth(list[j], (depth - 1) as nat) by {}
            let k = self.lemma_visit_each_only(list, order, (depth - 1) as nat, x);
            let steps = choose|steps: nat| self.reaches_within(list[k], x, steps);
            assert(self.reaches_within(self.inputs(node as int)[k], x, steps));
            assert(self.reaches_within(node, x, steps + 1));
        }
    }

    /// The same for a list of nodes: what is emitted depends on one of them.
    pub proof fn lemma_visit_each_only(
        &self,
        list: Seq<usize>,
        order: Seq<usize>,
        depth: nat,
        x: usize,
    ) -> (k: int)
        requires
            self.nodes@.len() == self.edges@.len(),
            self.lists_in_range(),
            forall|j: int|
                0 <= j < list.len() ==> (#[trigger] list[j]) < self.count() && self.bounded_depth(
                    list[j],
                    depth,
                ),
            self.visit_each(list, order, depth).contains(x),
            !order.contains(x),
        ensures
            0 <= k < list.len(),
            self.depends_on(list[k], x),
        decreases depth, list.len() + 1,
    {
        let rest = list.drop_last();
        let mid = self.visit_each(rest, order, depth);
        assert forall|j: int| 0 <= j < rest.len() implies (#[trigger] rest[j]) < self.count()
            && self.bounded_depth(rest[j], depth) by {
            assert(rest[j] == list[j]);
        }
        assert(list.len() > 0);
        assert(list[list.len() - 1] == list.last());
        if mid.contains(x) {
            let k = self.lemma_visit_each_only(rest, order, depth, x);
            assert(rest[k] == list[k]);
            k
        } else {
            self.lemma_visit_only(list.last(), mid, depth, x);
            list.len() - 1
        }
    }

    /// The order of a traversal holds exactly the nodes that the root
    /// depends on.
    pub proof fn lemma_post_order_holds_dependencies(&self, root: usize, x: usize)
        requires
            self.nodes@.len() == self.edges@.len(),
            self.lists_in_range(),
            root < self.count(),
            self.acyclic_from(root),
        ensures
            self.post_order(root).contains(x) <==> self.depends_on(root, x),
    {
        let depth = choose|depth: nat| self.bounded_depth(root, depth);
        let none = Seq::<usize>::empty();
        if self.post_order(root).contains(x) {
            self.lemma_visit_only(root, none, depth, x);
        }
        if self.depends_on(root, x) {
            let steps = choose|steps: nat| self.reaches_within(root, x, steps);
            self.lemma_visit_covers(root, none, depth, x, steps);
        }
    }

    /// Visits the inputs of `root`, then emits `root` unless it has been
    /// emitted already.
    fn recurse(&self, root: usize, indices: &mut Vec<usize>, Ghost(depth): Ghost<nat>)
        requires
            self.nodes@.len() == self.edges@.len(),
            self.lists_in_range(),
            root < self.count(),
            self.bounded_depth(root, depth),
        ensures
            final(indices)@ == self.visit(root, old(indices)@, depth),
        decreases depth,
    {
        let ghost list = self.inputs(root as int);
        let mut k: usize = 0;
        while k < self.edges[root].inputs.len()
            invariant
                self.nodes@.len() == self.edges@.len(),
                self.lists_in_range(),
                root < self.count(),
                self.bounded_depth(root, depth),
                list == self.inputs(root as int),
                k <= list.len(),
                indices@ == self.visit_each(
                    list.subrange(0, k as int),
                    old(indices)@,
                    (depth - 1) as nat,
                ),
            decreases list.len() - k,
        {
            let input = self.edges[root].inputs[k];
            proof {
                assert(list.subrange(0, k + 1).drop_last() =~= list.subrange(0, k as int));
                assert(self.inputs(root as int)[k as int] == input);
            }
            self.recurse(input, indices, Ghost((depth - 1) as nat));
            k += 1;
        }
        proof {
            assert(list.subrange(0, k as int) =~= list);
        }
        if !holds(indices, root) {
            indices.push(root);
        }
    }

    /// The nodes that `root` depends on and no others, each once, every node
    /// after all of its inputs, `root` last. The graph is left as it was.
    pub fn traverse(&mut self, root: usize) -> (indices: Vec<usize>)
        requires
            old(self).well_formed(),
            root < old(self).count(),
            old(self).acyclic_from(root),
        ensures
            *final(self) == *old(self),
            indices@ == old(self).post_order(root),
            old(self).is_post_order(indices@),
            indices@.len() > 0,
            indices@.last() == root,
            forall|x: usize| indices@.contains(x) <==> old(self).depends_on(root, x),
    {
        let mut indices: Vec<usize> = Vec::new();
        let ghost depth: nat = 0;
        proof {
            let some = choose|depth: nat| self.bounded_depth(root, depth);
            depth = self.lemma_least_depth(root, some);
            self.lemma_visit_any_depth(root, Seq::empty(), depth, some);
            self.lemma_visit(root, Seq::empty(), depth);
            let list = self.inputs(root as int);
            assert forall|k: int| 0 <= k < list.len() implies (#[trigger] list[k]) < self.count()
                && self.bounded_depth(list[k], (depth - 1) as nat) by {}
            self.lemma_visit_each(list, Seq::empty(), (depth - 1) as nat);
            assert forall|x: usize|
                self.post_order(root).contains(x) <==> self.depends_on(root, x) by {
                self.lemma_post_order_holds_dependencies(root, x);
            }
        }
        self.recurse(root, &mut indices, Ghost(depth));
        indices
    }
}

} // verus!
