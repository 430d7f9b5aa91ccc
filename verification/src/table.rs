//! The interning store: an append-only, deduplicating table of nodes,
//! addressed by integer handles assigned in insertion order.

use vstd::prelude::*;

use crate::{children, node_closed, Exp, NodeView, Opt, VersionSpace};

verus! {

/// The handle a structurally equal node already has, or the next fresh
/// handle if no such node is stored.
pub open spec fn intern_handle<O, E>(s: Seq<NodeView<O, E>>, n: NodeView<O, E>) -> int {
    if s.contains(n) {
        s.index_of(n)
    } else {
        s.len() as int
    }
}

/// The table contents after interning `n`: unchanged if a structurally
/// equal node is stored, otherwise grown by `n` at the end.
pub open spec fn intern_seq<O, E>(s: Seq<NodeView<O, E>>, n: NodeView<O, E>) -> Seq<
    NodeView<O, E>,
> {
    if s.contains(n) {
        s
    } else {
        s.push(n)
    }
}

/// The append-only deduplicating store of version-space nodes. It is the
/// single owner of all node data; nodes reference each other only through
/// handles resolved back into the same table.
pub struct VersionTable<O, E> {
    space: Vec<VersionSpace<O, E>>,
}

impl<O, E> View for VersionTable<O, E> {
    type V = Seq<NodeView<O, E>>;

    closed spec fn view(&self) -> Seq<NodeView<O, E>> {
        self.space@.map_values(|n: VersionSpace<O, E>| n@)
    }
}

impl<O: Opt<E>, E: Exp> VersionTable<O, E> {
    /// No two stored nodes are structurally equal: interning keeps at most
    /// one copy of each node value.
    pub open spec fn wf(&self) -> bool {
        forall|i: int, j: int| 0 <= i < j < self@.len() ==> self@[i] != self@[j]
    }

    /// Every stored node references only strictly earlier handles, so the
    /// stored graph is acyclic. Tables built bottom-up through `add` have
    /// this shape.
    pub open spec fn ordered(&self) -> bool {
        forall|i: int, k: int|
            0 <= i < self@.len() && 0 <= k < children(#[trigger] self@[i]).len() ==> (
            #[trigger] children(self@[i])[k] as int) < i
    }

    /// Creates an empty table.
    pub fn new() -> (r: Self)
        ensures
            r@ == Seq::<NodeView<O, E>>::empty(),
            r.wf(),
            r.ordered(),
    {
        let r = VersionTable { space: Vec::new() };
        proof {
            assert(r@ =~= Seq::<NodeView<O, E>>::empty());
        }
        r
    }

    /// The number of nodes stored so far; handles are exactly `0 .. len`.
    pub fn len(&self) -> (r: usize)
        ensures
            r == self@.len(),
    {
        self.space.len()
    }

    /// Looks a handle up; an out-of-range handle is a recoverable miss.
    pub fn get(&self, ptr: usize) -> (r: Option<&VersionSpace<O, E>>)
        ensures
            match r {
                Some(n) => ptr < self@.len() && n@ == self@[ptr as int],
                None => ptr >= self@.len(),
            },
    {
        if ptr < self.space.len() {
            Some(&self.space[ptr])
        } else {
            None
        }
    }

    /// Interns a node: returns the existing handle of a structurally equal
    /// node, or appends the node and returns its fresh handle. This is the
    /// sole way nodes enter the table, which is what preserves structural
    /// sharing across the whole structure.
    pub fn add(&mut self, v: VersionSpace<O, E>) -> (r: usize)
        requires
            old(self).wf(),
        ensures
            final(self).wf(),
            final(self)@ == intern_seq(old(self)@, v@),
            r as int == intern_handle(old(self)@, v@),
            r < final(self)@.len(),
            final(self)@[r as int] == v@,
            old(self)@.len() <= final(self)@.len() <= old(self)@.len() + 1,
            forall|i: int| 0 <= i < old(self)@.len() ==> final(self)@[i] == old(self)@[i],
            old(self).ordered() && node_closed(v@, old(self)@.len() as nat)
                ==> final(self).ordered(),
    {
        let ghost s0 = self@;
        let n = self.space.len();
        let mut i: usize = 0;
        while i < n
            invariant
                self == old(self),
                self.wf(),
                n == s0.len(),
                self@ == s0,
                0 <= i <= n,
                forall|j: int| 0 <= j < i ==> s0[j] != v@,
            decreases n - i,
        {
            if eq_node(&self.space[i], &v) {
                proof {
                    assert(s0[i as int] == v@);
                    assert(s0.contains(v@));
                    let w = s0.index_of(v@);
                    assert(0 <= w < s0.len() && s0[w] == v@);
                    if w != i as int {
                        assert(s0[w] == s0[i as int]);
                        assert(false);
                    }
                }
                return i;
            }
            i += 1;
        }
        proof {
            assert(!s0.contains(v@)) by {
                if s0.contains(v@) {
                    let w = choose|w: int| 0 <= w < s0.len() && s0[w] == v@;
                    assert(s0[w] != v@);
                }
            }
        }
        self.space.push(v);
        proof {
            assert(self@ =~= s0.push(v@));
            assert forall|i2: int, j2: int| 0 <= i2 < j2 < self@.len() implies self@[i2]
                != self@[j2] by {
                if j2 == s0.len() as int {
                    assert(self@[i2] == s0[i2]);
                    assert(!s0.contains(v@));
                    assert(s0[i2] != v@);
                }
            }
            if old(self).ordered() && node_closed(v@, s0.len() as nat) {
                assert forall|i2: int, k: int|
                    0 <= i2 < self@.len() && 0 <= k < children(#[trigger] self@[i2]).len() implies (
                #[trigger] children(self@[i2])[k] as int) < i2 by {
                    if i2 < s0.len() as int {
                        assert(self@[i2] == s0[i2]);
                    } else {
                        assert(self@[i2] == v@);
                        assert((children(v@)[k] as nat) < s0.len() as nat);
                    }
                }
            }
        }
        n
    }
}

impl<O: Opt<E>, E: Exp> Default for VersionTable<O, E> {
    /// An empty table.
    fn default() -> (r: Self)
        ensures
            r@ == Seq::<NodeView<O, E>>::empty(),
            r.wf(),
            r.ordered(),
    {
        Self::new()
    }
}

/// The parent-to-child edges contributed by the node at handle `i`.
pub open spec fn node_edges<O, E>(i: int, n: NodeView<O, E>) -> Seq<(usize, usize)> {
    children(n).map_values(|c: usize| (i as usize, c))
}

/// All parent-to-child edges of the stored nodes, in handle order, each
/// node's children in child order.
pub open spec fn edges_view<O, E>(s: Seq<NodeView<O, E>>) -> Seq<(usize, usize)>
    decreases s.len(),
{
    if s.len() == 0 {
        Seq::empty()
    } else {
        edges_view(s.drop_last()) + node_edges(s.len() - 1, s.last())
    }
}

impl<O: Opt<E>, E: Exp> VersionTable<O, E> {
    /// Enumerates all currently interned handles, in order.
    pub fn handles(&self) -> (r: Vec<usize>)
        ensures
            r@.len() == self@.len(),
            forall|i: int| 0 <= i < r@.len() ==> #[trigger] r@[i] as int == i,
    {
        let mut r: Vec<usize> = Vec::new();
        let mut i: usize = 0;
        while i < self.space.len()
            invariant
                0 <= i <= self@.len(),
                r@.len() == i,
                forall|j: int| 0 <= j < r@.len() ==> #[trigger] r@[j] as int == j,
            decreases self@.len() - i,
        {
            r.push(i);
            i += 1;
        }
        r
    }

    /// Enumerates every parent-to-child edge derivable from the stored
    /// `Union` and `Join` nodes: each child handle paired under its owning
    /// node's handle.
    #[verifier::loop_isolation(false)]
    pub fn edges(&self) -> (r: Vec<(usize, usize)>)
        ensures
            r@ == edges_view(self@),
    {
        let mut out: Vec<(usize, usize)> = Vec::new();
        let mut i: usize = 0;
        while i < self.space.len()
            invariant
                0 <= i <= self@.len(),
                out@ == edges_view(self@.take(i as int)),
            decreases self@.len() - i,
        {
            proof {
                assert(self@.take(i as int + 1).drop_last() =~= self@.take(i as int));
                assert(self@.take(i as int + 1).last() == self@[i as int]);
            }
            let ghost cs = children(self@[i as int]);
            match &self.space[i] {
                VersionSpace::Empty => {
                    proof {
                        assert(node_edges(i as int, self@[i as int]) =~= Seq::<
                            (usize, usize),
                        >::empty());
                        assert(out@ =~= edges_view(self@.take(i as int + 1)));
                    }
                },
                VersionSpace::VS(_) => {
                    proof {
                        assert(node_edges(i as int, self@[i as int]) =~= Seq::<
                            (usize, usize),
                        >::empty());
                        assert(out@ =~= edges_view(self@.take(i as int + 1)));
                    }
                },
                VersionSpace::Union(list) => {
                    proof {
                        assert(cs == list@);
                    }
                    let mut k: usize = 0;
                    while k < list.len()
                        invariant
                            0 <= k <= list@.len(),
                            out@ == edges_view(self@.take(i as int)) + node_edges(
                                i as int,
                                self@[i as int],
                            ).take(k as int),
                        decreases list@.len() - k,
                    {
                        out.push((i, list[k]));
                        proof {
                            assert(node_edges(i as int, self@[i as int])[k as int] == (
                                i as usize,
                                list@[k as int],
                            ));
                            assert(out@ =~= edges_view(self@.take(i as int)) + node_edges(
                                i as int,
                                self@[i as int],
                            ).take(k as int + 1));
                        }
                        k += 1;
                    }
                    proof {
                        assert(node_edges(i as int, self@[i as int]).take(cs.len() as int)
                            =~= node_edges(i as int, self@[i as int]));
                        assert(out@ =~= edges_view(self@.take(i as int + 1)));
                    }
                },
                VersionSpace::Join(_, list) => {
                    proof {
                        assert(cs == list@);
                    }
                    let mut k: usize = 0;
                    while k < list.len()
                        invariant
                            0 <= k <= list@.len(),
                            out@ == edges_view(self@.take(i as int)) + node_edges(
                                i as int,
                                self@[i as int],
                            ).take(k as int),
                        decreases list@.len() - k,
                    {
                        out.push((i, list[k]));
                        proof {
                            assert(node_edges(i as int, self@[i as int])[k as int] == (
                                i as usize,
                                list@[k as int],
                            ));
                            assert(out@ =~= edges_view(self@.take(i as int)) + node_edges(
                                i as int,
                                self@[i as int],
                            ).take(k as int + 1));
                        }
                        k += 1;
                    }
                    proof {
                        assert(node_edges(i as int, self@[i as int]).take(cs.len() as int)
                            =~= node_edges(i as int, self@[i as int]));
                        assert(out@ =~= edges_view(self@.take(i as int + 1)));
                    }
                },
            }
            i += 1;
        }
        proof {
            assert(self@.take(self@.len() as int) =~= self@);
        }
        out
    }
}

/// Decides whether two handle lists are equal element for element.
fn eq_handles(a: &Vec<usize>, b: &Vec<usize>) -> (r: bool)
    ensures
        r == (a@ == b@),
{
    if a.len() != b.len() {
        return false;
    }
    let mut i: usize = 0;
    while i < a.len()
        invariant
            a@.len() == b@.len(),
            0 <= i <= a@.len(),
            forall|j: int| 0 <= j < i ==> a@[j] == b@[j],
        decreases a@.len() - i,
    {
        if a[i] != b[i] {
            return false;
        }
        i += 1;
    }
    proof {
        assert(a@ =~= b@);
    }
    true
}

/// Decides structural equality of two nodes, comparing payloads through the
/// `Exp` and `Opt` capability contracts.
pub(crate) fn eq_node<O: Opt<E>, E: Exp>(a: &VersionSpace<O, E>, b: &VersionSpace<O, E>) -> (r:
    bool)
    ensures
        r == (a@ == b@),
{
    match (a, b) {
        (VersionSpace::Empty, VersionSpace::Empty) => true,
        (VersionSpace::VS(e1), VersionSpace::VS(e2)) => e1.eq_exp(e2),
        (VersionSpace::Union(u1), VersionSpace::Union(u2)) => eq_handles(u1, u2),
        (VersionSpace::Join(o1, a1), VersionSpace::Join(o2, a2)) => o1.eq_opt(o2) && eq_handles(
            a1,
            a2,
        ),
        _ => false,
    }
}

/// Copies a handle list.
pub(crate) fn clone_handles(v: &Vec<usize>) -> (r: Vec<usize>)
    ensures
        r@ == v@,
{
    let mut r: Vec<usize> = Vec::new();
    let mut i: usize = 0;
    while i < v.len()
        invariant
            0 <= i <= v@.len(),
            r@ == v@.take(i as int),
        decreases v@.len() - i,
    {
        r.push(v[i]);
        proof {
            assert(r@ =~= v@.take(i as int + 1));
        }
        i += 1;
    }
    proof {
        assert(v@.take(v@.len() as int) =~= v@);
    }
    r
}

/// Copies a node, payloads included.
pub(crate) fn clone_node<O: Opt<E>, E: Exp>(n: &VersionSpace<O, E>) -> (r: VersionSpace<O, E>)
    ensures
        r@ == n@,
{
    match n {
        VersionSpace::Empty => VersionSpace::Empty,
        VersionSpace::VS(e) => VersionSpace::VS(e.clone_exp()),
        VersionSpace::Union(cs) => VersionSpace::Union(clone_handles(cs)),
        VersionSpace::Join(o, args) => VersionSpace::Join(o.clone_opt(), clone_handles(args)),
    }
}

} // verus!
