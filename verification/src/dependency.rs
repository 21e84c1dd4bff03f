//! What a node of the graph depends on: the nodes that can be reached from
//! it along input edges, and whether the chains of such edges end.

use crate::graph::{Connected, Graph};
use vstd::prelude::*;

verus! {

/// Of more than `n` numbers below `n`, two are the same.
pub proof fn lemma_two_are_the_same(list: Seq<usize>, n: nat) -> (pair: (int, int))
    requires
        list.len() > n,
        forall|i: int| 0 <= i < list.len() ==> list[i] < n,
    ensures
        0 <= pair.0 < pair.1 < list.len(),
        list[pair.0] == list[pair.1],
{
    let numbers = Seq::new(list.len(), |i: int| list[i] as int);
    if numbers.no_duplicates() {
        numbers.unique_seq_to_set();
        vstd::set_lib::lemma_int_range(0, n as int);
        assert(numbers.to_set().subset_of(vstd::set_lib::set_int_range(0, n as int))) by {
            assert forall|x: int| numbers.to_set().contains(x) implies 0 <= x < n by {
                let i = choose|i: int| 0 <= i < numbers.len() && numbers[i] == x;
                assert(list[i] < n);
            }
        }
        vstd::set_lib::lemma_len_subset(
            numbers.to_set(),
            vstd::set_lib::set_int_range(0, n as int),
        );
        assert(false);
    }
    let (i, j) = choose|i: int, j: int|
        0 <= i < numbers.len() && 0 <= j < numbers.len() && i != j && numbers[i] == numbers[j];
    if i < j {
        (i, j)
    } else {
        (j, i)
    }
}

impl<N: Connected, E> Graph<N, E> {
    /// Whether `target` is `node` or can be reached from it along at most
    /// `steps` input edges.
    pub open spec fn reaches_within(&self, node: usize, target: usize, steps: nat) -> bool
        decreases steps,
    {
        node == target || (steps > 0 && exists|k: int|
            0 <= k < self.inputs(node as int).len() && self.reaches_within(
                #[trigger] self.inputs(node as int)[k],
                target,
                (steps - 1) as nat,
            ))
    }

    /// Whether `node` depends on `target`: `target` is `node` itself, one of
    /// its inputs, one of their inputs, and so on.
    pub open spec fn depends_on(&self, node: usize, target: usize) -> bool {
        exists|steps: nat| self.reaches_within(node, target, steps)
    }

    /// Whether every chain of input edges that starts at `node` ends after
    /// fewer than `depth` edges.
    pub open spec fn bounded_depth(&self, node: usize, depth: nat) -> bool
        decreases depth,
    {
        &&& depth > 0
        &&& forall|k: int|
            0 <= k < self.inputs(node as int).len() ==> self.bounded_depth(
                #[trigger] self.inputs(node as int)[k],
                (depth - 1) as nat,
            )
    }

    /// Whether the chains of input edges that start at `root` end, which is
    /// to say that no cycle can be reached from `root`.
    pub open spec fn acyclic_from(&self, root: usize) -> bool {
        exists|depth: nat| self.bounded_depth(root, depth)
    }

    /// Whether a cycle of input edges passes through `node`: one of its
    /// inputs depends on it.
    pub open spec fn on_cycle(&self, node: usize) -> bool {
        exists|k: int|
            0 <= k < self.inputs(node as int).len() && self.depends_on(
                #[trigger] self.inputs(node as int)[k],
                node,
            )
    }

    /// Whether each node of `walk` but the last has the next one as an
    /// input.
    pub open spec fn is_walk(&self, walk: Seq<usize>) -> bool {
        &&& forall|i: int| 0 <= i < walk.len() ==> (#[trigger] walk[i]) < self.count()
        &&& forall|i: int|
            0 <= i < walk.len() - 1 ==> self.inputs(walk[i] as int).contains(
                #[trigger] walk[i + 1],
            )
    }

    /// What can be reached within some number of steps can be reached within
    /// more.
    pub proof fn lemma_reach_monotone(&self, node: usize, target: usize, steps: nat, more: nat)
        requires
            self.reaches_within(node, target, steps),
            steps <= more,
        ensures
            self.reaches_within(node, target, more),
        decreases steps,
    {
        if node != target {
            let k = choose|k: int|
                0 <= k < self.inputs(node as int).len() && self.reaches_within(
                    #[trigger] self.inputs(node as int)[k],
                    target,
                    (steps - 1) as nat,
                );
            self.lemma_reach_monotone(
                self.inputs(node as int)[k],
                target,
                (steps - 1) as nat,
                (more - 1) as nat,
            );
        }
    }

    /// What a node depends on, it depends on the inputs of as well.
    pub proof fn lemma_reach_input(&self, node: usize, via: usize, k: int, steps: nat)
        requires
            self.reaches_within(node, via, steps),
            0 <= k < self.inputs(via as int).len(),
        ensures
            self.reaches_within(node, self.inputs(via as int)[k], steps + 1),
        decreases steps,
    {
        let target = self.inputs(via as int)[k];
        if node == via {
            assert(self.reaches_within(target, target, 0));
            self.lemma_reach_monotone(target, target, 0, steps);
            assert(self.reaches_within(self.inputs(node as int)[k], target, steps));
        } else {
            let j = choose|j: int|
                0 <= j < self.inputs(node as int).len() && self.reaches_within(
                    #[trigger] self.inputs(node as int)[j],
                    via,
                    (steps - 1) as nat,
                );
            self.lemma_reach_input(self.inputs(node as int)[j], via, k, (steps - 1) as nat);
            assert(self.reaches_within(self.inputs(node as int)[j], target, steps));
        }
    }

    /// A chain that ends within `depth` steps ends within any larger number.
    pub proof fn lemma_depth_monotone(&self, node: usize, depth: nat, more: nat)
        requires
            self.bounded_depth(node, depth),
            depth <= more,
        ensures
            self.bounded_depth(node, more),
        decreases depth,
    {
        assert forall|k: int| 0 <= k < self.inputs(node as int).len() implies self.bounded_depth(
            #[trigger] self.inputs(node as int)[k],
            (more - 1) as nat,
        ) by {
            self.lemma_depth_monotone(
                self.inputs(node as int)[k],
                (depth - 1) as nat,
                (more - 1) as nat,
            );
        }
    }

    /// The least depth within which the chains from `node` end.
    pub proof fn lemma_least_depth(&self, node: usize, depth: nat) -> (least: nat)
        requires
            self.bounded_depth(node, depth),
        ensures
            0 < least <= depth,
            self.bounded_depth(node, least),
            !self.bounded_depth(node, (least - 1) as nat),
        decreases depth,
    {
        if self.bounded_depth(node, (depth - 1) as nat) {
            self.lemma_least_depth(node, (depth - 1) as nat)
        } else {
            depth
        }
    }

    /// The chains that start at a node which `from` depends on end as soon
    /// as those that start at `from`.
    pub proof fn lemma_depth_along(&self, from: usize, to: usize, depth: nat, steps: nat)
        requires
            self.bounded_depth(from, depth),
            self.reaches_within(from, to, steps),
        ensures
            self.bounded_depth(to, depth),
        decreases steps,
    {
        if from != to {
            let k = choose|k: int|
                0 <= k < self.inputs(from as int).len() && self.reaches_within(
                    #[trigger] self.inputs(from as int)[k],
                    to,
                    (steps - 1) as nat,
                );
            self.lemma_depth_along(
                self.inputs(from as int)[k],
                to,
                (depth - 1) as nat,
                (steps - 1) as nat,
            );
            self.lemma_depth_monotone(to, (depth - 1) as nat, depth);
        }
    }

    /// Where the chains from `node` do not end within `depth` steps, there
    /// is a walk of `depth` edges from `node`.
    pub proof fn lemma_long_walk(&self, node: usize, depth: nat) -> (walk: Seq<usize>)
        requires
            self.lists_in_range(),
            node < self.count(),
            !self.bounded_depth(node, depth),
        ensures
            walk.len() == depth + 1,
            walk[0] == node,
            self.is_walk(walk),
        decreases depth,
    {
        if depth == 0 {
            seq![node]
        } else {
            let k = choose|k: int|
                0 <= k < self.inputs(node as int).len() && !self.bounded_depth(
                    #[trigger] self.inputs(node as int)[k],
                    (depth - 1) as nat,
                );
            let next = self.inputs(node as int)[k];
            let rest = self.lemma_long_walk(next, (depth - 1) as nat);
            let walk = seq![node] + rest;
            assert forall|i: int| 0 <= i < walk.len() - 1 implies self.inputs(
                walk[i] as int,
            ).contains(#[trigger] walk[i + 1]) by {
                if i == 0 {
                    assert(walk[1] == rest[0]);
                } else {
                    assert(walk[i] == rest[i - 1]);
                    assert(walk[i + 1] == rest[i - 1 + 1]);
                }
            }
            assert forall|i: int| 0 <= i < walk.len() implies (#[trigger] walk[i])
                < self.count() by {
                if i > 0 {
                    assert(walk[i] == rest[i - 1]);
                }
            }
            walk
        }
    }

    /// Along a walk every node depends on those that come after it.
    pub proof fn lemma_walk_reaches(&self, walk: Seq<usize>, i: int, j: int)
        requires
            self.is_walk(walk),
            0 <= i <= j < walk.len(),
        ensures
            self.reaches_within(walk[i], walk[j], (j - i) as nat),
        decreases j - i,
    {
        if i < j {
            self.lemma_walk_reaches(walk, i + 1, j);
            let k = choose|k: int|
                0 <= k < self.inputs(walk[i] as int).len() && self.inputs(walk[i] as int)[k]
                    == walk[i + 1];
            assert(self.reaches_within(
                self.inputs(walk[i] as int)[k],
                walk[j],
                (j - i - 1) as nat,
            ));
        }
    }

    /// The chains of input edges from `root` end exactly when no cycle
    /// passes through a node that `root` depends on.
    pub proof fn lemma_acyclic_means_no_cycle(&self, root: usize)
        requires
            self.nodes@.len() == self.edges@.len(),
            self.lists_in_range(),
            root < self.count(),
        ensures
            self.acyclic_from(root) <==> forall|v: usize|
                self.depends_on(root, v) ==> !self.on_cycle(v),
    {
        if self.acyclic_from(root) {
            let depth = choose|depth: nat| self.bounded_depth(root, depth);
            assert forall|v: usize| self.depends_on(root, v) implies !self.on_cycle(v) by {
                if self.on_cycle(v) {
                    let steps = choose|steps: nat| self.reaches_within(root, v, steps);
                    self.lemma_depth_along(root, v, depth, steps);
                    let least = self.lemma_least_depth(v, depth);
                    let k = choose|k: int|
                        0 <= k < self.inputs(v as int).len() && self.depends_on(
                            #[trigger] self.inputs(v as int)[k],
                            v,
                        );
                    let back = choose|back: nat|
                        self.reaches_within(self.inputs(v as int)[k], v, back);
                    self.lemma_depth_along(
                        self.inputs(v as int)[k],
                        v,
                        (least - 1) as nat,
                        back,
                    );
                }
            }
        } else {
            let n = self.count() as nat;
            assert(!self.bounded_depth(root, n));
            let walk = self.lemma_long_walk(root, n);
            let (i, j) = lemma_two_are_the_same(walk, n);
            let v = walk[i];
            self.lemma_walk_reaches(walk, 0, i);
            assert(self.depends_on(root, v));
            self.lemma_walk_reaches(walk, i + 1, j);
            let k = choose|k: int|
                0 <= k < self.inputs(v as int).len() && self.inputs(v as int)[k] == walk[i + 1];
            assert(self.depends_on(self.inputs(v as int)[k], v));
            assert(self.on_cycle(v));
        }
    }

    /// A set of nodes that holds the inputs of each of its nodes holds all
    /// that its nodes depend on.
    proof fn lemma_closed_holds_dependencies(
        &self,
        reached: Seq<bool>,
        node: usize,
        target: usize,
        steps: nat,
    )
        requires
            self.lists_in_range(),
            reached.len() == self.count(),
            node < self.count(),
            reached[node as int],
            forall|v: int, k: int|
                0 <= v < self.count() && reached[v] && 0 <= k < self.inputs(v).len()
                    ==> reached[(#[trigger] self.inputs(v)[k]) as int],
            self.reaches_within(node, target, steps),
        ensures
            target < self.count(),
            reached[target as int],
        decreases steps,
    {
        if node != target {
            let k = choose|k: int|
                0 <= k < self.inputs(node as int).len() && self.reaches_within(
                    #[trigger] self.inputs(node as int)[k],
                    target,
                    (steps - 1) as nat,
                );
            self.lemma_closed_holds_dependencies(
                reached,
                self.inputs(node as int)[k],
                target,
                (steps - 1) as nat,
            );
        }
    }

    /// Marks in `reached` the inputs of `node`, and says whether one of them
    /// was not marked before.
    fn reach_inputs(&self, node: usize, reached: &mut Vec<bool>, Ghost(root): Ghost<usize>) -> (grown: bool)
        requires
            self.nodes@.len() == self.edges@.len(),
            self.lists_in_range(),
            node < self.count(),
            old(reached)@.len() == self.count(),
            old(reached)@[node as int],
            forall|v: usize| v < self.count() && old(reached)@[v as int] ==> self.depends_on(root, v),
        ensures
            final(reached)@.len() == self.count(),
            forall|v: int| 0 <= v < self.count() && old(reached)@[v] ==> final(reached)@[v],
            forall|v: usize| v < self.count() && final(reached)@[v as int] ==> self.depends_on(root, v),
            forall|k: int|
                0 <= k < self.inputs(node as int).len() ==> final(reached)@[(
                #[trigger] self.inputs(node as int)[k]) as int],
            !grown ==> final(reached)@ == old(reached)@,
            grown ==> exists|v: int|
                0 <= v < self.count() && !old(reached)@[v] && final(reached)@[v],
    {
        let mut grown = false;
        let mut k: usize = 0;
        while k < self.edges[node].inputs.len()
            invariant
                self.nodes@.len() == self.edges@.len(),
                self.lists_in_range(),
                node < self.count(),
                reached@.len() == self.count(),
                k <= self.inputs(node as int).len(),
                reached@[node as int],
                forall|v: int| 0 <= v < self.count() && old(reached)@[v] ==> reached@[v],
                forall|v: usize| v < self.count() && reached@[v as int] ==> self.depends_on(root, v),
                forall|j: int|
                    0 <= j < k ==> reached@[(#[trigger] self.inputs(node as int)[j]) as int],
                !grown ==> reached@ == old(reached)@,
                grown ==> exists|v: int| 0 <= v < self.count() && !old(reached)@[v] && reached@[v],
            decreases self.inputs(node as int).len() - k,
        {
            let input = self.edges[node].inputs[k];
            assert(input == self.inputs(node as int)[k as int]);
            if !reached[input] {
                proof {
                    let steps = choose|steps: nat| self.reaches_within(root, node, steps);
                    self.lemma_reach_input(root, node, k as int, steps);
                    assert(self.depends_on(root, input));
                    assert(!old(reached)@[input as int]);
                }
                reached[input] = true;
                grown = true;
            }
            k += 1;
        }
        grown
    }

    /// Whether `node` depends on `target`: whether `target` is `node` or can
    /// be reached from it along input edges.
    pub fn depends(&self, node: usize, target: usize) -> (found: bool)
        requires
            self.well_formed(),
            node < self.count(),
            target < self.count(),
        ensures
            found == self.depends_on(node, target),
    {
        let n = self.nodes.len();
        let mut reached: Vec<bool> = Vec::new();
        let mut i: usize = 0;
        while i < n
            invariant
                i <= n,
                reached@.len() == i,
                forall|v: int| 0 <= v < i ==> !reached@[v],
            decreases n - i,
        {
            reached.push(false);
            i += 1;
        }
        reached[node] = true;
        // `open` holds the nodes that have not been reached yet.
        let ghost mut open: Set<int> = Set::new(|v: int| 0 <= v < n && v != node);
        proof {
            vstd::set_lib::lemma_int_range(0, n as int);
            assert(open.subset_of(vstd::set_lib::set_int_range(0, n as int)));
            vstd::set_lib::lemma_len_subset(open, vstd::set_lib::set_int_range(0, n as int));
            assert(self.reaches_within(node, node, 0));
        }
        let mut changed = true;
        while changed
            invariant
                self.well_formed(),
                n == self.count(),
                node < n,
                reached@.len() == n,
                reached@[node as int],
                open.finite(),
                forall|v: int| open.contains(v) <==> 0 <= v < n && !reached@[v],
                forall|v: usize| v < n && reached@[v as int] ==> self.depends_on(node, v),
                !changed ==> forall|v: int, k: int|
                    0 <= v < n && reached@[v] && 0 <= k < self.inputs(v).len() ==> reached@[(
                    #[trigger] self.inputs(v)[k]) as int],
            decreases
                    open.len() + if changed {
                        1nat
                    } else {
                        0nat
                    },
        {
            let ghost start = open.len();
            changed = false;
            let mut v: usize = 0;
            while v < n
                invariant
                    self.well_formed(),
                    n == self.count(),
                    v <= n,
                    node < n,
                    reached@.len() == n,
                    reached@[node as int],
                    open.finite(),
                    forall|w: int| open.contains(w) <==> 0 <= w < n && !reached@[w],
                    forall|w: usize| w < n && reached@[w as int] ==> self.depends_on(node, w),
                    !changed ==> forall|w: int, k: int|
                        0 <= w < v && reached@[w] && 0 <= k < self.inputs(w).len() ==> reached@[(
                        #[trigger] self.inputs(w)[k]) as int],
                    open.len() <= start,
                    changed ==> open.len() < start,
                decreases n - v,
            {
                if reached[v] {
                    let ghost before = reached@;
                    let ghost was = open;
                    if self.reach_inputs(v, &mut reached, Ghost(node)) {
                        changed = true;
                        proof {
                            open = Set::new(|w: int| 0 <= w < n && !reached@[w]);
                            let gained = choose|w: int| 0 <= w < n && !before[w] && reached@[w];
                            assert(open.subset_of(was.remove(gained)));
                            vstd::set_lib::lemma_len_subset(open, was.remove(gained));
                        }
                    }
                }
                v += 1;
            }
        }
        proof {
            if self.depends_on(node, target) {
                let steps = choose|steps: nat| self.reaches_within(node, target, steps);
                self.lemma_closed_holds_dependencies(reached@, node, target, steps);
            }
        }
        reached[target]
    }

    /// Whether every input of `node` is marked in `settled`.
    fn inputs_settled(&self, node: usize, settled: &Vec<bool>) -> (all: bool)
        requires
            self.nodes@.len() == self.edges@.len(),
            self.lists_in_range(),
            node < self.count(),
            settled@.len() == self.count(),
        ensures
            all == forall|k: int|
                0 <= k < self.inputs(node as int).len() ==> settled@[(
                #[trigger] self.inputs(node as int)[k]) as int],
    {
        let mut k: usize = 0;
        while k < self.edges[node].inputs.len()
            invariant
                self.nodes@.len() == self.edges@.len(),
                self.lists_in_range(),
                node < self.count(),
                settled@.len() == self.count(),
                k <= self.inputs(node as int).len(),
                forall|j: int|
                    0 <= j < k ==> settled@[(#[trigger] self.inputs(node as int)[j]) as int],
            decreases self.inputs(node as int).len() - k,
        {
            let input = self.edges[node].inputs[k];
            assert(input == self.inputs(node as int)[k as int]);
            if !settled[input] {
                return false;
            }
            k += 1;
        }
        true
    }

    /// Where every node outside `settled` has an input outside it, the chains
    /// from such a node never end.
    proof fn lemma_unsettled_unbounded(&self, settled: Seq<bool>, node: usize, depth: nat)
        requires
            self.lists_in_range(),
            settled.len() == self.count(),
            node < self.count(),
            !settled[node as int],
            forall|v: int|
                0 <= v < self.count() && !(#[trigger] settled[v]) ==> exists|k: int|
                    0 <= k < self.inputs(v).len() && !settled[(
                    #[trigger] self.inputs(v)[k]) as int],
        ensures
            !self.bounded_depth(node, depth),
        decreases depth,
    {
        if depth > 0 {
            let k = choose|k: int|
                0 <= k < self.inputs(node as int).len() && !settled[(
                #[trigger] self.inputs(node as int)[k]) as int];
            self.lemma_unsettled_unbounded(
                settled,
                self.inputs(node as int)[k],
                (depth - 1) as nat,
            );
        }
    }

    /// Whether no cycle of input edges can be reached from `root`, so that
    /// `traverse(root)` may be called.
    pub fn is_acyclic_from(&self, root: usize) -> (acyclic: bool)
        requires
            self.well_formed(),
            root < self.count(),
        ensures
            acyclic == self.acyclic_from(root),
    {
        let n = self.nodes.len();
        let mut settled: Vec<bool> = Vec::new();
        let mut i: usize = 0;
        while i < n
            invariant
                i <= n,
                settled@.len() == i,
                forall|v: int| 0 <= v < i ==> !settled@[v],
            decreases n - i,
        {
            settled.push(false);
            i += 1;
        }
        // Every settled node has chains that end within `bound` steps; `open`
        // holds the nodes not settled yet.
        let ghost mut bound: nat = 0;
        let ghost mut open: Set<int> = Set::new(|v: int| 0 <= v < n);
        proof {
            vstd::set_lib::lemma_int_range(0, n as int);
            assert(open =~= vstd::set_lib::set_int_range(0, n as int));
        }
        let mut changed = true;
        while changed
            invariant
                self.well_formed(),
                n == self.count(),
                settled@.len() == n,
                open.finite(),
                forall|v: int| open.contains(v) <==> 0 <= v < n && !settled@[v],
                forall|v: usize| v < n && settled@[v as int] ==> self.bounded_depth(v, bound),
                !changed ==> forall|v: int|
                    0 <= v < n && !(#[trigger] settled@[v]) ==> exists|k: int|
                        0 <= k < self.inputs(v).len() && !settled@[(
                        #[trigger] self.inputs(v)[k]) as int],
            decreases
                    open.len() + if changed {
                        1nat
                    } else {
                        0nat
                    },
        {
            let ghost start = open.len();
            changed = false;
            let mut v: usize = 0;
            while v < n
                invariant
                    self.well_formed(),
                    n == self.count(),
                    v <= n,
                    settled@.len() == n,
                    open.finite(),
                    forall|w: int| open.contains(w) <==> 0 <= w < n && !settled@[w],
                    forall|w: usize| w < n && settled@[w as int] ==> self.bounded_depth(w, bound),
                    !changed ==> forall|w: int|
                        0 <= w < v && !(#[trigger] settled@[w]) ==> exists|k: int|
                            0 <= k < self.inputs(w).len() && !settled@[(
                            #[trigger] self.inputs(w)[k]) as int],
                    open.len() <= start,
                    changed ==> open.len() < start,
                decreases n - v,
            {
                if !settled[v] && self.inputs_settled(v, &settled) {
                    proof {
                        assert forall|w: usize|
                            w < n && settled@[w as int] implies self.bounded_depth(
                            w,
                            bound + 1,
                        ) by {
                            self.lemma_depth_monotone(w, bound, bound + 1);
                        }
                        assert(self.bounded_depth(v, bound + 1));
                        bound = bound + 1;
                        open = open.remove(v as int);
                    }
                    settled[v] = true;
                    changed = true;
                }
                v += 1;
            }
        }
        proof {
            if settled@[root as int] {
                assert(self.bounded_depth(root, bound));
            } else {
                assert forall|depth: nat| !self.bounded_depth(root, depth) by {
                    self.lemma_unsettled_unbounded(settled@, root, depth);
                }
            }
        }
        settled[root]
    }
}

} // verus!
