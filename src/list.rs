use vstd::prelude::*;
use core::cmp::Ordering;
use vstd::multiset::Multiset;
use vstd::std_specs::cmp::PartialOrdSpec;

verus! {

/// One storage cell: a value and the arena index of the next cell, if any.
pub struct Node<T> {
    pub val: T,
    pub next: Option<usize>,
}

impl<T> Node<T> {
    /// A node holding `t` with no successor.
    pub fn new(t: T) -> (r: Node<T>)
        ensures
            r.val == t,
            r.next is None,
    {
        Node { val: t, next: None }
    }
}

/// A singly linked list. Its nodes are slots of `nodes`; `start` and `end`
/// are the indices of the first and last node, and `order` lists the node
/// indices from head to tail.
pub struct LinkedList<T> {
    length: u32,
    start: Option<usize>,
    end: Option<usize>,
    nodes: Vec<Node<T>>,
    order: Ghost<Seq<usize>>,
}

/// `order` visits distinct slots of `nodes`, each slot's `next` leads to the
/// following one, and the last slot has no successor.
pub open spec fn is_chain<T>(nodes: Seq<Node<T>>, order: Seq<usize>) -> bool {
    &&& forall|i: int| 0 <= i < order.len() ==> (#[trigger] order[i]) < nodes.len()
    &&& forall|i: int, j: int| 0 <= i < j < order.len() ==> order[i] != order[j]
    &&& forall|i: int|
        0 <= i < order.len() - 1 ==> (#[trigger] nodes[order[i] as int]).next == Some(
            order[i + 1],
        )
    &&& order.len() > 0 ==> nodes[order.last() as int].next is None
}

impl<T> LinkedList<T> {
    /// The chain from `start` is well formed, though the arena may hold
    /// slots that are not on it yet.
    pub closed spec fn chain_wf(&self) -> bool {
        &&& is_chain(self.nodes@, self.order@)
        &&& self.length as int == self.order@.len()
        &&& self.length == 0 ==> self.start is None && self.end is None
        &&& self.length > 0 ==> self.start == Some(self.order@[0]) && self.end == Some(
            self.order@.last(),
        )
    }

    /// The list's invariant: a well formed chain through every slot of the
    /// arena, so every node belongs to the list exactly once.
    pub closed spec fn wf(&self) -> bool {
        &&& self.chain_wf()
        &&& self.nodes@.len() == self.length
    }

    /// The values from head to tail.
    pub closed spec fn view(&self) -> Seq<T> {
        self.order@.map_values(|k: usize| self.nodes@[k as int].val)
    }

    /// The arena index of the node at position `k`, or none past the ends.
    closed spec fn node_at(&self, k: int) -> Option<usize> {
        if 0 <= k < self.order@.len() {
            Some(self.order@[k])
        } else {
            None
        }
    }

    /// An empty list.
    pub fn new() -> (r: Self)
        ensures
            r.wf(),
            r@ == Seq::<T>::empty(),
    {
        LinkedList {
            length: 0,
            start: None,
            end: None,
            nodes: Vec::new(),
            order: Ghost(Seq::empty()),
        }
    }

    /// The number of nodes.
    pub fn len(&self) -> (r: u32)
        requires
            self.wf(),
        ensures
            r == self@.len(),
    {
        self.length
    }

    /// Appends `obj` at the tail.
    pub fn add(&mut self, obj: T)
        requires
            old(self).wf(),
            old(self)@.len() < u32::MAX,
        ensures
            final(self).wf(),
            final(self)@ == old(self)@.push(obj),
    {
        let node = Node::new(obj);
        let idx = self.nodes.len();
        self.nodes.push(node);
        proof {
            assert forall|j: int| 0 <= j < self.order@.len() implies (#[trigger] self.order@[j])
                != idx by {}
            assert(self.view() =~= old(self).view());
        }
        add_node_to_list(self, idx);
    }

    /// The value at zero-based `index`, or none when `index` is negative or
    /// not below the length.
    pub fn get(&self, index: i32) -> (r: Option<&T>)
        requires
            self.wf(),
        ensures
            0 <= index < self@.len() ==> r == Some(&self@[index as int]),
            !(0 <= index < self@.len()) ==> r is None,
    {
        if index < 0 {
            return None;
        }
        self.get_ith_node(self.start, index, Ghost(0))
    }

    /// Walks `index` links from `node`, the node at position `k`.
    fn get_ith_node(&self, node: Option<usize>, index: i32, Ghost(k): Ghost<int>) -> (r: Option<&T>)
        requires
            self.wf(),
            0 <= k <= self@.len(),
            node == self.node_at(k),
            index >= 0,
        ensures
            k + index < self@.len() ==> r == Some(&self@[k + index]),
            k + index >= self@.len() ==> r is None,
    {
        let mut cur = node;
        let mut i: i32 = index;
        let ghost mut pos: int = k;
        while cur.is_some() && i != 0
            invariant
                self.wf(),
                k <= pos <= self@.len(),
                cur == self.node_at(pos),
                pos + i == k + index,
                i >= 0,
            decreases self@.len() - pos,
        {
            let idx = cur.unwrap();
            cur = self.nodes[idx].next;
            i = i - 1;
            proof {
                pos = pos + 1;
            }
        }
        match cur {
            None => None,
            Some(idx) => Some(&self.nodes[idx].val),
        }
    }
}

impl<T> Default for LinkedList<T> {
    /// An empty list.
    fn default() -> (r: Self)
        ensures
            r.wf(),
            r@ == Seq::<T>::empty(),
    {
        Self::new()
    }
}

impl<T: PartialOrd> LinkedList<T> {
    /// Merges two lists into a new one by relinking their nodes: while both
    /// have nodes left, the head of `list_a` goes next unless the head of
    /// `list_b` is strictly smaller; then the rest of the other follows.
    /// Both inputs are consumed, and the result is sorted when they are.
    pub fn merge(list_a: LinkedList<T>, list_b: LinkedList<T>) -> (r: Self)
        requires
            list_a.wf(),
            list_b.wf(),
            list_a@.len() + list_b@.len() <= u32::MAX,
            T::obeys_partial_cmp_spec(),
        ensures
            r.wf(),
            r@ == merge_seq(list_a@, list_b@),
            r@.len() == list_a@.len() + list_b@.len(),
            r@.to_multiset() == list_a@.to_multiset().add(list_b@.to_multiset()),
            total_order::<T>() && sorted(list_a@) && sorted(list_b@) ==> sorted(r@),
    {
        let mut list_a = list_a;
        let mut list_b = list_b;
        let ghost a_ord = list_a.order@;
        let ghost b_ord = list_b.order@;
        let ghost av = list_a@;
        let ghost bv = list_b@;
        let ghost a_nodes = list_a.nodes@;
        let ghost b_nodes = list_b.nodes@;
        let mut a_ptr = list_a.start;
        let mut b_ptr = list_b.start;
        let na = list_a.nodes.len();

        let mut nodes: Vec<Node<T>> = Vec::new();
        list_a.hand_over_nodes(&mut nodes);
        list_b.hand_over_nodes(&mut nodes);
        let ghost init = nodes@;
        let mut merged = LinkedList {
            length: 0,
            start: None,
            end: None,
            nodes,
            order: Ghost(Seq::empty()),
        };
        let ghost mut ia: int = 0;
        let ghost mut ib: int = 0;
        proof {
            reveal(is_source);
            reveal(slots_kept);
            reveal(untaken);
            assert(init =~= a_nodes + b_nodes);
            assert forall|k: int| 0 <= k < b_ord.len() implies init[na + #[trigger] b_ord[k]]
                == b_nodes[b_ord[k] as int] by {}
            assert(is_source(init, 0, a_ord, av));
            assert(is_source(init, na as int, b_ord, bv));
            assert(merged@ =~= Seq::<T>::empty());
            assert(av.subrange(0, av.len() as int) =~= av);
            assert(bv.subrange(0, bv.len() as int) =~= bv);
            assert(Seq::<T>::empty() + merge_seq(av, bv) =~= merge_seq(av, bv));
        }

        while a_ptr.is_some() && b_ptr.is_some()
            invariant
                merging(merged, init, na as int, a_ord, av, ia, b_ord, bv, ib),
                a_ptr == cursor(a_ord, ia),
                b_ptr == cursor(b_ord, ib),
                T::obeys_partial_cmp_spec(),
            decreases av.len() + bv.len() - ia - ib,
        {
            let a_node = a_ptr.unwrap();
            let b_node = b_ptr.unwrap();
            let ghost m0 = merged;
            proof {
                lemma_cursor_slot(merged, init, 0, a_ord, av, ia);
                lemma_cursor_slot(merged, init, na as int, b_ord, bv, ib);
            }
            if merged.nodes[a_node].val.le(&merged.nodes[na + b_node].val) {
                a_ptr = take_node(&mut merged, 0, a_node, Ghost(init), Ghost(a_ord), Ghost(av), Ghost(ia));
                proof {
                    lemma_took_a(m0, merged, init, na as int, a_ord, av, ia, b_ord, bv, ib);
                    ia = ia + 1;
                }
            } else {
                b_ptr = take_node(&mut merged, na, b_node, Ghost(init), Ghost(b_ord), Ghost(bv), Ghost(ib));
                proof {
                    lemma_took_b(m0, merged, init, na as int, a_ord, av, ia, b_ord, bv, ib);
                    ib = ib + 1;
                }
            }
        }

        while a_ptr.is_some()
            invariant
                merging(merged, init, na as int, a_ord, av, ia, b_ord, bv, ib),
                a_ptr == cursor(a_ord, ia),
                ia == av.len() || ib == bv.len(),
            decreases av.len() - ia,
        {
            let a_node = a_ptr.unwrap();
            let ghost m0 = merged;
            a_ptr = take_node(&mut merged, 0, a_node, Ghost(init), Ghost(a_ord), Ghost(av), Ghost(ia));
            proof {
                lemma_took_a(m0, merged, init, na as int, a_ord, av, ia, b_ord, bv, ib);
                ia = ia + 1;
            }
        }

        while b_ptr.is_some()
            invariant
                merging(merged, init, na as int, a_ord, av, ia, b_ord, bv, ib),
                b_ptr == cursor(b_ord, ib),
                ia == av.len(),
            decreases bv.len() - ib,
        {
            let b_node = b_ptr.unwrap();
            let ghost m0 = merged;
            b_ptr = take_node(&mut merged, na, b_node, Ghost(init), Ghost(b_ord), Ghost(bv), Ghost(ib));
            proof {
                lemma_took_b(m0, merged, init, na as int, a_ord, av, ia, b_ord, bv, ib);
                ib = ib + 1;
            }
        }

        proof {
            assert(av.subrange(ia, av.len() as int) =~= Seq::<T>::empty());
            assert(bv.subrange(ib, bv.len() as int) =~= Seq::<T>::empty());
            assert(merged@ + Seq::<T>::empty() =~= merged@);
            lemma_merge_len(av, bv);
            lemma_merge_multiset(av, bv);
            if total_order::<T>() && sorted(av) && sorted(bv) {
                lemma_merge_sorted(av, bv);
            }
        }
        merged
    }
}

impl<T> LinkedList<T> {
    /// Moves every node of this list onto the end of `dest` and leaves the
    /// list empty, so that none of its nodes is owned twice.
    fn hand_over_nodes(&mut self, dest: &mut Vec<Node<T>>)
        requires
            old(self).wf(),
        ensures
            final(self).wf(),
            final(self)@ == Seq::<T>::empty(),
            final(self).start is None,
            final(self).end is None,
            final(dest)@ == old(dest)@ + old(self).nodes@,
    {
        dest.append(&mut self.nodes);
        self.start = None;
        self.end = None;
        self.length = 0;
        self.order = Ghost(Seq::empty());
        proof {
            assert(self.view() =~= Seq::<T>::empty());
        }
    }
}

/// The slots `base + ord[k]` of `init` hold the chain of one source list, in
/// order: values `vals`, each successor written relative to `base`.
#[verifier::opaque]
spec fn is_source<T>(init: Seq<Node<T>>, base: int, ord: Seq<usize>, vals: Seq<T>) -> bool {
    &&& ord.len() == vals.len()
    &&& 0 <= base
    &&& base + ord.len() <= init.len()
    &&& forall|i: int, j: int| 0 <= i < j < ord.len() ==> ord[i] != ord[j]
    &&& forall|k: int|
        0 <= k < ord.len() ==> {
            &&& #[trigger] ord[k] < ord.len()
            &&& init[base + ord[k]].val == vals[k]
            &&& k < ord.len() - 1 ==> init[base + ord[k]].next == Some(ord[k + 1])
            &&& k == ord.len() - 1 ==> init[base + ord[k]].next is None
        }
}

/// Where a source's cursor stands once its first `i` nodes are taken.
spec fn cursor(ord: Seq<usize>, i: int) -> Option<usize> {
    if 0 <= i < ord.len() {
        Some(ord[i])
    } else {
        None
    }
}

/// No node from position `i` on of the source at `base` is on `order` yet.
#[verifier::opaque]
spec fn untaken(order: Seq<usize>, base: int, ord: Seq<usize>, i: int) -> bool {
    forall|k: int| i <= k < ord.len() ==> !order.contains((base + #[trigger] ord[k]) as usize)
}

/// Every slot keeps its value, and a slot not yet on `m`'s chain is as it was.
#[verifier::opaque]
spec fn slots_kept<T>(m: LinkedList<T>, init: Seq<Node<T>>) -> bool {
    &&& m.nodes@.len() == init.len()
    &&& forall|j: int| 0 <= j < init.len() ==> (#[trigger] m.nodes@[j]).val == init[j].val
    &&& forall|j: int|
        0 <= j < init.len() && !m.order@.contains(j as usize) ==> #[trigger] m.nodes@[j]
            == init[j]
}

/// The state of a merge after taking the first `ia` nodes of `a` and the
/// first `ib` nodes of `b`, whose slots start at 0 and at `na`.
spec fn merging<T: PartialOrd>(
    m: LinkedList<T>,
    init: Seq<Node<T>>,
    na: int,
    a_ord: Seq<usize>,
    av: Seq<T>,
    ia: int,
    b_ord: Seq<usize>,
    bv: Seq<T>,
    ib: int,
) -> bool {
    &&& m.chain_wf()
    &&& m.nodes@.len() == init.len()
    &&& slots_kept(m, init)
    &&& na == av.len()
    &&& init.len() == av.len() + bv.len() <= u32::MAX
    &&& is_source(init, 0, a_ord, av)
    &&& is_source(init, na, b_ord, bv)
    &&& a_ord.len() == av.len()
    &&& b_ord.len() == bv.len()
    &&& 0 <= ia <= av.len()
    &&& 0 <= ib <= bv.len()
    &&& m@.len() == ia + ib
    &&& untaken(m.order@, 0, a_ord, ia)
    &&& untaken(m.order@, na, b_ord, ib)
    &&& m@ + merge_seq(av.subrange(ia, av.len() as int), bv.subrange(ib, bv.len() as int))
        == merge_seq(av, bv)
}

/// Pushing a slot outside the remaining range of a source keeps that
/// range off the chain.
proof fn lemma_push_keeps_out(order: Seq<usize>, x: usize, base: int, ord: Seq<usize>, i: int)
    requires
        untaken(order, base, ord, i),
        forall|k: int| i <= k < ord.len() ==> (base + #[trigger] ord[k]) as usize != x,
    ensures
        untaken(order.push(x), base, ord, i),
{
    reveal(untaken);
    let n = order.push(x);
    assert forall|k: int| i <= k < ord.len() implies !n.contains(
        (base + #[trigger] ord[k]) as usize,
    ) by {
        let y = (base + ord[k]) as usize;
        if n.contains(y) {
            let j = choose|j: int| 0 <= j < n.len() && n[j] == y;
            if j < order.len() {
                assert(order[j] == y);
            }
        }
    }
}

/// The slot under a source's cursor holds the source's value there.
proof fn lemma_cursor_slot<T>(
    m: LinkedList<T>,
    init: Seq<Node<T>>,
    base: int,
    ord: Seq<usize>,
    vals: Seq<T>,
    i: int,
)
    requires
        slots_kept(m, init),
        is_source(init, base, ord, vals),
        0 <= i < ord.len(),
    ensures
        0 <= base + ord[i] < base + ord.len() <= m.nodes@.len(),
        m.nodes@[base + ord[i]].val == vals[i],
{
    reveal(is_source);
    reveal(slots_kept);
    assert(ord[i] < ord.len());
}

/// Taking the head of what is left of `a` is the merge's next step when
/// `b` is used up or its head is not smaller.
proof fn lemma_took_a<T: PartialOrd>(
    m0: LinkedList<T>,
    m1: LinkedList<T>,
    init: Seq<Node<T>>,
    na: int,
    a_ord: Seq<usize>,
    av: Seq<T>,
    ia: int,
    b_ord: Seq<usize>,
    bv: Seq<T>,
    ib: int,
)
    requires
        merging(m0, init, na, a_ord, av, ia, b_ord, bv, ib),
        ia < av.len(),
        ib == bv.len() || leq(av[ia], bv[ib]),
        m1.chain_wf(),
        m1.nodes@.len() == init.len(),
        slots_kept(m1, init),
        m1.order@ == m0.order@.push(a_ord[ia]),
        m1@ == m0@.push(av[ia]),
        untaken(m1.order@, 0, a_ord, ia + 1),
    ensures
        merging(m1, init, na, a_ord, av, ia + 1, b_ord, bv, ib),
{
    lemma_source_bound(init, 0, a_ord, av);
    lemma_source_bound(init, na, b_ord, bv);
    assert(a_ord[ia] < na);
    assert forall|k: int| ib <= k < b_ord.len() implies (na + #[trigger] b_ord[k]) as usize
        != a_ord[ia] by {
        assert(b_ord[k] < bv.len());
    }
    lemma_push_keeps_out(m0.order@, a_ord[ia], na, b_ord, ib);
    lemma_merge_step_a(av, ia, bv, ib);
    let ra = av.subrange(ia, av.len() as int);
    let ra1 = av.subrange(ia + 1, av.len() as int);
    let rb = bv.subrange(ib, bv.len() as int);
    assert(m1@ + merge_seq(ra1, rb) =~= m0@ + merge_seq(ra, rb));
}

/// Taking the head of what is left of `b` is the merge's next step when
/// `a` is used up or its head is not `leq` that of `b`.
proof fn lemma_took_b<T: PartialOrd>(
    m0: LinkedList<T>,
    m1: LinkedList<T>,
    init: Seq<Node<T>>,
    na: int,
    a_ord: Seq<usize>,
    av: Seq<T>,
    ia: int,
    b_ord: Seq<usize>,
    bv: Seq<T>,
    ib: int,
)
    requires
        merging(m0, init, na, a_ord, av, ia, b_ord, bv, ib),
        ib < bv.len(),
        ia == av.len() || !leq(av[ia], bv[ib]),
        m1.chain_wf(),
        m1.nodes@.len() == init.len(),
        slots_kept(m1, init),
        m1.order@ == m0.order@.push((na + b_ord[ib]) as usize),
        m1@ == m0@.push(bv[ib]),
        untaken(m1.order@, na, b_ord, ib + 1),
    ensures
        merging(m1, init, na, a_ord, av, ia, b_ord, bv, ib + 1),
{
    lemma_source_bound(init, 0, a_ord, av);
    lemma_source_bound(init, na, b_ord, bv);
    assert(b_ord[ib] < bv.len());
    assert forall|k: int| ia <= k < a_ord.len() implies (0 + #[trigger] a_ord[k]) as usize != (na
        + b_ord[ib]) as usize by {
        assert(a_ord[k] < na);
    }
    lemma_push_keeps_out(m0.order@, (na + b_ord[ib]) as usize, 0, a_ord, ia);
    lemma_merge_step_b(av, ia, bv, ib);
    let ra = av.subrange(ia, av.len() as int);
    let rb = bv.subrange(ib, bv.len() as int);
    let rb1 = bv.subrange(ib + 1, bv.len() as int);
    assert(m1@ + merge_seq(ra, rb1) =~= m0@ + merge_seq(ra, rb));
}

/// Each index of a source's order is below the source's length.
proof fn lemma_source_bound<T>(init: Seq<Node<T>>, base: int, ord: Seq<usize>, vals: Seq<T>)
    requires
        is_source(init, base, ord, vals),
    ensures
        forall|k: int| 0 <= k < ord.len() ==> #[trigger] ord[k] < ord.len(),
{
    reveal(is_source);
}

/// When `b` is used up or its head is not smaller, the merge of what is
/// left starts with the head of `a`.
proof fn lemma_merge_step_a<T: PartialOrd>(av: Seq<T>, ia: int, bv: Seq<T>, ib: int)
    requires
        0 <= ia < av.len(),
        0 <= ib <= bv.len(),
        ib == bv.len() || leq(av[ia], bv[ib]),
    ensures
        merge_seq(av.subrange(ia, av.len() as int), bv.subrange(ib, bv.len() as int)) == seq![
            av[ia],
        ] + merge_seq(av.subrange(ia + 1, av.len() as int), bv.subrange(ib, bv.len() as int)),
{
    let ra = av.subrange(ia, av.len() as int);
    let ra1 = av.subrange(ia + 1, av.len() as int);
    let rb = bv.subrange(ib, bv.len() as int);
    assert(ra.drop_first() =~= ra1);
    assert(ra =~= seq![av[ia]] + ra1);
    if rb.len() == 0 {
        assert(merge_seq(ra1, rb) == ra1);
    }
}

/// When `a` is used up or its head is not `leq` that of `b`, the merge of
/// what is left starts with the head of `b`.
proof fn lemma_merge_step_b<T: PartialOrd>(av: Seq<T>, ia: int, bv: Seq<T>, ib: int)
    requires
        0 <= ia <= av.len(),
        0 <= ib < bv.len(),
        ia == av.len() || !leq(av[ia], bv[ib]),
    ensures
        merge_seq(av.subrange(ia, av.len() as int), bv.subrange(ib, bv.len() as int)) == seq![
            bv[ib],
        ] + merge_seq(av.subrange(ia, av.len() as int), bv.subrange(ib + 1, bv.len() as int)),
{
    let ra = av.subrange(ia, av.len() as int);
    let rb = bv.subrange(ib, bv.len() as int);
    let rb1 = bv.subrange(ib + 1, bv.len() as int);
    assert(rb.drop_first() =~= rb1);
    assert(rb =~= seq![bv[ib]] + rb1);
}

/// Takes the node at position `i` of a source, whose slots start at `base`,
/// onto the tail of `merged`, and returns the cursor for position `i + 1`.
fn take_node<T>(
    merged: &mut LinkedList<T>,
    base: usize,
    cur: usize,
    Ghost(init): Ghost<Seq<Node<T>>>,
    Ghost(ord): Ghost<Seq<usize>>,
    Ghost(vals): Ghost<Seq<T>>,
    Ghost(i): Ghost<int>,
) -> (next: Option<usize>)
    requires
        old(merged).chain_wf(),
        old(merged)@.len() < u32::MAX,
        slots_kept(*old(merged), init),
        is_source(init, base as int, ord, vals),
        0 <= i < ord.len(),
        cur == ord[i],
        untaken(old(merged).order@, base as int, ord, i),
        init.len() <= u32::MAX,
    ensures
        final(merged).chain_wf(),
        final(merged).nodes@.len() == init.len(),
        slots_kept(*final(merged), init),
        final(merged).order@ == old(merged).order@.push((base + cur) as usize),
        final(merged)@ == old(merged)@.push(vals[i]),
        untaken(final(merged).order@, base as int, ord, i + 1),
        next == cursor(ord, i + 1),
{
    reveal(is_source);
    reveal(slots_kept);
    reveal(untaken);
    let idx = base + cur;
    let next = merged.nodes[idx].next;
    add_node_to_list(merged, idx);
    proof {
        let o = old(merged).order@;
        let n = merged.order@;
        assert forall|k: int| i + 1 <= k < ord.len() implies (base + #[trigger] ord[k]) as usize
            != idx by {
            assert(ord[k] != ord[i]);
        }
        lemma_push_keeps_out(o, idx, base as int, ord, i + 1);
        assert forall|j: int|
            0 <= j < init.len() && !n.contains(j as usize) implies #[trigger] merged.nodes@[j]
            == init[j] by {
            assert(n[o.len() as int] == idx);
            if o.contains(j as usize) {
                let t = choose|t: int| 0 <= t < o.len() && o[t] == j as usize;
                assert(n[t] == j as usize);
            }
        }
    }
    next
}

/// Links the free slot `node` after the current tail of `list`, making it
/// the new tail with no successor.
fn add_node_to_list<T>(list: &mut LinkedList<T>, node: usize)
    requires
        old(list).chain_wf(),
        old(list).length < u32::MAX,
        node < old(list).nodes@.len(),
        !old(list).order@.contains(node),
    ensures
        final(list).chain_wf(),
        final(list).length == old(list).length + 1,
        final(list).order@ == old(list).order@.push(node),
        final(list)@ == old(list)@.push(old(list).nodes@[node as int].val),
        final(list).nodes@.len() == old(list).nodes@.len(),
        forall|j: int|
            0 <= j < final(list).nodes@.len() ==> (#[trigger] final(list).nodes@[j]).val == old(
                list,
            ).nodes@[j].val,
        forall|j: int|
            0 <= j < final(list).nodes@.len() && j != node && !old(list).order@.contains(
                j as usize,
            ) ==> #[trigger] final(list).nodes@[j] == old(list).nodes@[j],
{
    list.nodes[node].next = None;
    match list.end {
        None => {
            list.start = Some(node);
        },
        Some(end_idx) => {
            list.nodes[end_idx].next = Some(node);
        },
    }
    list.end = Some(node);
    list.length = list.length + 1;
    list.order = Ghost(list.order@.push(node));
    proof {
        let o = old(list).order@;
        let n = list.order@;
        assert forall|i: int| 0 <= i < n.len() - 1 implies (#[trigger] list.nodes@[n[i] as int]).next
            == Some(n[i + 1]) by {
            if i < o.len() - 1 {
                assert(o[i] != o.last());
            }
        }
        assert(list.view() =~= old(list).view().push(old(list).nodes@[node as int].val));
    }
}


/// `a` does not come after `b` under the type's comparison.
pub open spec fn leq<T: PartialOrd>(a: T, b: T) -> bool {
    a.partial_cmp_spec(&b) matches Some(Ordering::Less | Ordering::Equal)
}

/// The comparison of `T` is the one its `partial_cmp` computes, and any two
/// values are comparable.
pub open spec fn total_order<T: PartialOrd>() -> bool {
    &&& T::obeys_partial_cmp_spec()
    &&& forall|x: T, y: T| #[trigger] leq(x, y) || leq(y, x)
}

/// Each value is `leq` the one after it.
pub open spec fn sorted<T: PartialOrd>(s: Seq<T>) -> bool {
    forall|i: int| 0 <= i < s.len() - 1 ==> leq(#[trigger] s[i], s[i + 1])
}

/// The stable two-way merge: the smaller head goes first, and on a tie the
/// head of `a` does.
pub open spec fn merge_seq<T: PartialOrd>(a: Seq<T>, b: Seq<T>) -> Seq<T>
    decreases a.len() + b.len(),
{
    if a.len() == 0 {
        b
    } else if b.len() == 0 {
        a
    } else if leq(a[0], b[0]) {
        seq![a[0]] + merge_seq(a.drop_first(), b)
    } else {
        seq![b[0]] + merge_seq(a, b.drop_first())
    }
}

/// A merge holds as many values as its two inputs together.
pub proof fn lemma_merge_len<T: PartialOrd>(a: Seq<T>, b: Seq<T>)
    ensures
        merge_seq(a, b).len() == a.len() + b.len(),
    decreases a.len() + b.len(),
{
    if a.len() > 0 && b.len() > 0 {
        if leq(a[0], b[0]) {
            lemma_merge_len(a.drop_first(), b);
        } else {
            lemma_merge_len(a, b.drop_first());
        }
    }
}

/// A merge holds exactly the values of its two inputs, with multiplicity.
pub proof fn lemma_merge_multiset<T: PartialOrd>(a: Seq<T>, b: Seq<T>)
    ensures
        merge_seq(a, b).to_multiset() =~= a.to_multiset().add(b.to_multiset()),
    decreases a.len() + b.len(),
{
    broadcast use vstd::multiset::group_multiset_axioms;
    broadcast use vstd::seq_lib::lemma_multiset_commutative;

    if a.len() == 0 {
        a.to_multiset_ensures();
        vstd::multiset::lemma_multiset_empty_len(a.to_multiset());
        assert(a.to_multiset() =~= Multiset::empty());
    } else if b.len() == 0 {
        b.to_multiset_ensures();
        vstd::multiset::lemma_multiset_empty_len(b.to_multiset());
        assert(b.to_multiset() =~= Multiset::empty());
    } else if leq(a[0], b[0]) {
        lemma_merge_multiset(a.drop_first(), b);
        assert(a =~= seq![a[0]] + a.drop_first());
    } else {
        lemma_merge_multiset(a, b.drop_first());
        assert(b =~= seq![b[0]] + b.drop_first());
    }
}

/// Under a total order, merging two sorted sequences gives a sorted one.
pub proof fn lemma_merge_sorted<T: PartialOrd>(a: Seq<T>, b: Seq<T>)
    requires
        total_order::<T>(),
        sorted(a),
        sorted(b),
    ensures
        sorted(merge_seq(a, b)),
    decreases a.len() + b.len(),
{
    if a.len() > 0 && b.len() > 0 {
        let m = merge_seq(a, b);
        if leq(a[0], b[0]) {
            let a1 = a.drop_first();
            lemma_merge_sorted(a1, b);
            let r = merge_seq(a1, b);
            assert(m == seq![a[0]] + r);
            if r.len() > 0 {
                assert(r[0] == b[0] || r[0] == a[1]);
                assert(leq(m[0], m[1]));
            }
            assert forall|i: int| 0 <= i < m.len() - 1 implies leq(#[trigger] m[i], m[i + 1]) by {
                if i > 0 {
                    assert(m[i] == r[i - 1] && m[i + 1] == r[i]);
                }
            }
        } else {
            let b1 = b.drop_first();
            lemma_merge_sorted(a, b1);
            let r = merge_seq(a, b1);
            assert(leq(b[0], a[0]));
            assert(m == seq![b[0]] + r);
            if r.len() > 0 {
                assert(r[0] == a[0] || r[0] == b[1]);
                assert(leq(m[0], m[1]));
            }
            assert forall|i: int| 0 <= i < m.len() - 1 implies leq(#[trigger] m[i], m[i + 1]) by {
                if i > 0 {
                    assert(m[i] == r[i - 1] && m[i + 1] == r[i]);
                }
            }
        }
    }
}

} // verus!
