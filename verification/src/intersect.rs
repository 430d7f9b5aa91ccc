//! Intersection: combining two version spaces into a node denoting the
//! intersection of their sets, interning newly produced sub-nodes into the
//! same table as it goes.
//!
//! The case table is deliberately partial: intersecting a `Union` with a
//! `Union` or with a `Join` is unsupported and surfaced as an explicit
//! error, and a `Singleton` against a `Join` is conservatively `Empty`.

use vstd::prelude::*;

use crate::table::{intern_handle, intern_seq, VersionTable};
use crate::{children, node_closed, node_views, Exp, NodeView, Opt, VersionSpace};

verus! {

/// The explicit signal that an intersection combination is outside the
/// supported case table (`Union`/`Union` and `Union`/`Join`).
#[derive(Debug, PartialEq, Eq)]
pub struct Unsupported;

/// The number of positions a positional zip of the two argument lists
/// covers: the shorter length.
pub open spec fn pair_len(l1: Seq<usize>, l2: Seq<usize>) -> int {
    if l1.len() <= l2.len() {
        l1.len() as int
    } else {
        l2.len() as int
    }
}

/// The non-`Empty` nodes of `rs`, in order.
pub open spec fn keep_nonempty<O, E>(rs: Seq<NodeView<O, E>>) -> Seq<NodeView<O, E>>
    decreases rs.len(),
{
    if rs.len() == 0 {
        Seq::empty()
    } else {
        let k = keep_nonempty(rs.drop_last());
        if rs.last() is Empty {
            k
        } else {
            k.push(rs.last())
        }
    }
}

/// Interns the nodes of `ns` left to right: the resulting table and the
/// handle each node received.
pub open spec fn add_all<O, E>(tbl: Seq<NodeView<O, E>>, ns: Seq<NodeView<O, E>>) -> (Seq<
    NodeView<O, E>,
>, Seq<usize>)
    decreases ns.len(),
{
    if ns.len() == 0 {
        (tbl, Seq::empty())
    } else {
        let (t1, hs) = add_all(tbl, ns.drop_last());
        let n = ns.last();
        (intern_seq(t1, n), hs.push(intern_handle(t1, n) as usize))
    }
}

/// Intersects every child of a `Union` (looked up in the threaded table)
/// against the single node `s`, left to right, collecting all results,
/// `Empty` ones included. `bu` bounds the children, `bs` bounds `s`.
pub open spec fn union_single<O, E>(
    tbl: Seq<NodeView<O, E>>,
    cs: Seq<usize>,
    s: NodeView<O, E>,
    bu: nat,
    bs: nat,
) -> Option<(Seq<NodeView<O, E>>, Seq<NodeView<O, E>>)>
    decreases bu + bs, 0int, cs.len(),
{
    if cs.len() == 0 {
        Some((tbl, Seq::empty()))
    } else {
        match union_single(tbl, cs.drop_last(), s, bu, bs) {
            Option::None => Option::None,
            Option::Some((t1, rs)) => {
                let c = cs.last() as int;
                if c < bu {
                    match inter(t1, t1[c], s, c as nat, bs) {
                        Option::None => Option::None,
                        Option::Some((t2, r)) => Option::Some((t2, rs.push(r))),
                    }
                } else {
                    Option::Some((t1, rs.push(NodeView::Empty)))
                }
            },
        }
    }
}

/// The full `Singleton`/`Union` case: intersect each child against `s`,
/// drop `Empty` results, and intern the survivors under a new `Union` —
/// or `Empty` if none survive.
pub open spec fn union_single_wrap<O, E>(
    tbl: Seq<NodeView<O, E>>,
    cs: Seq<usize>,
    s: NodeView<O, E>,
    bu: nat,
    bs: nat,
) -> Option<(Seq<NodeView<O, E>>, NodeView<O, E>)>
    decreases bu + bs, 1int, 0int,
{
    match union_single(tbl, cs, s, bu, bs) {
        Option::None => Option::None,
        Option::Some((t1, rs)) => {
            let surv = keep_nonempty(rs);
            if surv.len() == 0 {
                Option::Some((t1, NodeView::Empty))
            } else {
                let (t2, hs) = add_all(t1, surv);
                Option::Some((t2, NodeView::Union(hs)))
            }
        },
    }
}

/// Intersects the two argument lists positionally (zip of the shorter
/// length), threading the table, collecting every positional result.
pub open spec fn join_pairs<O, E>(
    tbl: Seq<NodeView<O, E>>,
    l1: Seq<usize>,
    l2: Seq<usize>,
    ba: nat,
    bb: nat,
) -> Option<(Seq<NodeView<O, E>>, Seq<NodeView<O, E>>)>
    decreases ba + bb, 0int, pair_len(l1, l2),
{
    let n = pair_len(l1, l2);
    if n == 0 {
        Some((tbl, Seq::empty()))
    } else {
        match join_pairs(tbl, l1.take(n - 1), l2.take(n - 1), ba, bb) {
            Option::None => Option::None,
            Option::Some((t1, rs)) => {
                let c1 = l1[n - 1] as int;
                let c2 = l2[n - 1] as int;
                if c1 < ba && c2 < bb {
                    match inter(t1, t1[c1], t1[c2], c1 as nat, c2 as nat) {
                        Option::None => Option::None,
                        Option::Some((t2, r)) => Option::Some((t2, rs.push(r))),
                    }
                } else {
                    Option::Some((t1, rs.push(NodeView::Empty)))
                }
            },
        }
    }
}

/// The intersection case table over node models. `None` is the
/// unsupported-combination signal; otherwise the result is the table after
/// all interning done along the way, paired with the result node.
///
/// `ba` and `bb` bound the handles reachable from `a` and `b`; on an
/// acyclic table a node's children lie below its own handle, which makes
/// this recursion well-founded.
pub open spec fn inter<O, E>(
    tbl: Seq<NodeView<O, E>>,
    a: NodeView<O, E>,
    b: NodeView<O, E>,
    ba: nat,
    bb: nat,
) -> Option<(Seq<NodeView<O, E>>, NodeView<O, E>)>
    decreases ba + bb, 2int, 0int,
{
    match (a, b) {
        (NodeView::Empty, _) => Some((tbl, NodeView::Empty)),
        (_, NodeView::Empty) => Some((tbl, NodeView::Empty)),
        (NodeView::Single(e1), NodeView::Single(e2)) => Some(
            (
                tbl,
                if e1 == e2 {
                    NodeView::Single(e1)
                } else {
                    NodeView::Empty
                },
            ),
        ),
        (NodeView::Single(_), NodeView::Union(cs)) => union_single_wrap(tbl, cs, a, bb, ba),
        (NodeView::Union(cs), NodeView::Single(_)) => union_single_wrap(tbl, cs, b, ba, bb),
        (NodeView::Single(_), NodeView::Join(_, _)) => Some((tbl, NodeView::Empty)),
        (NodeView::Join(_, _), NodeView::Single(_)) => Some((tbl, NodeView::Empty)),
        (NodeView::Union(_), NodeView::Union(_)) => Option::None,
        (NodeView::Union(_), NodeView::Join(_, _)) => Option::None,
        (NodeView::Join(_, _), NodeView::Union(_)) => Option::None,
        (NodeView::Join(o1, l1), NodeView::Join(o2, l2)) => if o1 != o2 {
            Some((tbl, NodeView::Empty))
        } else {
            match join_pairs(tbl, l1, l2, ba, bb) {
                Option::None => Option::None,
                Option::Some((t1, rs)) => if exists|i: int| 0 <= i < rs.len() && rs[i] is Empty {
                    Some((t1, NodeView::Empty))
                } else {
                    let (t2, hs) = add_all(t1, rs);
                    Some((t2, NodeView::Join(o1, hs)))
                },
            }
        },
    }
}

/// Once the child fold fails at some prefix, it fails for the whole list.
proof fn lemma_union_single_none<O, E>(
    tbl: Seq<NodeView<O, E>>,
    cs: Seq<usize>,
    s: NodeView<O, E>,
    bu: nat,
    bs: nat,
    j: int,
)
    requires
        0 <= j <= cs.len(),
        union_single(tbl, cs.take(j), s, bu, bs) is None,
    ensures
        union_single(tbl, cs, s, bu, bs) is None,
    decreases cs.len() - j,
{
    if j < cs.len() {
        assert(cs.take(j + 1).drop_last() =~= cs.take(j));
        assert(union_single(tbl, cs.take(j + 1), s, bu, bs) is None);
        lemma_union_single_none(tbl, cs, s, bu, bs, j + 1);
    } else {
        assert(cs.take(j) =~= cs);
    }
}

/// Once the positional fold fails at some prefix, it fails for the whole
/// zip of the two lists.
proof fn lemma_join_pairs_none<O, E>(
    tbl: Seq<NodeView<O, E>>,
    l1: Seq<usize>,
    l2: Seq<usize>,
    ba: nat,
    bb: nat,
    j: int,
)
    requires
        0 <= j <= pair_len(l1, l2),
        join_pairs(tbl, l1.take(j), l2.take(j), ba, bb) is None,
    ensures
        join_pairs(tbl, l1, l2, ba, bb) is None,
    decreases pair_len(l1, l2) - j,
{
    let m = pair_len(l1, l2);
    if j < m {
        assert(pair_len(l1.take(j + 1), l2.take(j + 1)) == j + 1);
        assert(l1.take(j + 1).take(j) =~= l1.take(j));
        assert(l2.take(j + 1).take(j) =~= l2.take(j));
        assert(join_pairs(tbl, l1.take(j + 1), l2.take(j + 1), ba, bb) is None);
        lemma_join_pairs_none(tbl, l1, l2, ba, bb, j + 1);
    } else {
        if m == 0 {
            assert(join_pairs(tbl, l1.take(0), l2.take(0), ba, bb) is Some);
        } else {
            assert(pair_len(l1.take(m), l2.take(m)) == m);
            assert(l1.take(m).take(m - 1) =~= l1.take(m - 1));
            assert(l2.take(m).take(m - 1) =~= l2.take(m - 1));
            assert(l1.take(m)[m - 1] == l1[m - 1]);
            assert(l2.take(m)[m - 1] == l2[m - 1]);
            assert(join_pairs(tbl, l1, l2, ba, bb) == join_pairs(
                tbl,
                l1.take(m),
                l2.take(m),
                ba,
                bb,
            ));
        }
    }
}

/// The zip covers the shorter length only, so the fold over two lists
/// equals the fold over their common prefix.
proof fn lemma_join_pairs_full<O, E>(
    tbl: Seq<NodeView<O, E>>,
    l1: Seq<usize>,
    l2: Seq<usize>,
    ba: nat,
    bb: nat,
)
    ensures
        join_pairs(tbl, l1, l2, ba, bb) == join_pairs(
            tbl,
            l1.take(pair_len(l1, l2)),
            l2.take(pair_len(l1, l2)),
            ba,
            bb,
        ),
{
    let m = pair_len(l1, l2);
    assert(pair_len(l1.take(m), l2.take(m)) == m);
    if m > 0 {
        assert(l1.take(m).take(m - 1) =~= l1.take(m - 1));
        assert(l2.take(m).take(m - 1) =~= l2.take(m - 1));
        assert(l1.take(m)[m - 1] == l1[m - 1]);
        assert(l2.take(m)[m - 1] == l2[m - 1]);
    }
}

/// Decides whether a node is the `Empty` node.
fn is_empty_node<O, E>(n: &VersionSpace<O, E>) -> (b: bool)
    ensures
        b == (n@ is Empty),
{
    match n {
        VersionSpace::Empty => true,
        _ => false,
    }
}

/// Interns each node of `nodes` in order, returning the handles assigned.
fn add_nodes<O: Opt<E>, E: Exp>(
    table: &mut VersionTable<O, E>,
    nodes: &Vec<VersionSpace<O, E>>,
) -> (r: Vec<usize>)
    requires
        old(table).wf(),
        old(table).ordered(),
        forall|q: int|
            0 <= q < nodes@.len() ==> node_closed(
                #[trigger] nodes@[q]@,
                old(table)@.len() as nat,
            ),
    ensures
        final(table).wf(),
        final(table).ordered(),
        old(table)@.len() <= final(table)@.len(),
        forall|q: int| 0 <= q < old(table)@.len() ==> final(table)@[q] == old(table)@[q],
        add_all(old(table)@, node_views(nodes@)) == (final(table)@, r@),
        forall|q: int| 0 <= q < r@.len() ==> (#[trigger] r@[q] as nat) < final(table)@.len(),
{
    let ghost t1 = old(table)@;
    let ghost sv = node_views(nodes@);
    let mut handles: Vec<usize> = Vec::new();
    proof {
        assert(sv.take(0) =~= Seq::<NodeView<O, E>>::empty());
        assert(handles@ =~= Seq::<usize>::empty());
    }
    let mut k: usize = 0;
    while k < nodes.len()
        invariant
            0 <= k <= nodes@.len(),
            sv == node_views(nodes@),
            t1 == old(table)@,
            table.wf(),
            table.ordered(),
            t1.len() <= table@.len(),
            forall|q: int| 0 <= q < t1.len() ==> table@[q] == t1[q],
            add_all(t1, sv.take(k as int)) == (table@, handles@),
            forall|q: int|
                0 <= q < nodes@.len() ==> node_closed(#[trigger] nodes@[q]@, table@.len() as nat),
            forall|q: int| 0 <= q < handles@.len() ==> (#[trigger] handles@[q] as nat) < table@.len(),
        decreases nodes@.len() - k,
    {
        proof {
            assert(sv.take(k as int + 1).drop_last() =~= sv.take(k as int));
            assert(sv.take(k as int + 1).last() == sv[k as int]);
            assert(sv[k as int] == nodes@[k as int]@);
        }
        let node = crate::table::clone_node(&nodes[k]);
        let ghost t_pre = table@;
        let ghost h_pre = handles@;
        let h = table.add(node);
        handles.push(h);
        proof {
            assert((intern_handle(t_pre, sv[k as int]) as usize) == h);
            assert(handles@ =~= h_pre.push(h));
            assert(add_all(t1, sv.take(k as int + 1)) == (table@, handles@));
            assert forall|q: int|
                0 <= q < nodes@.len() implies node_closed(
                #[trigger] nodes@[q]@,
                table@.len() as nat,
            ) by {
                assert(node_closed(nodes@[q]@, t_pre.len() as nat));
                assert forall|w: int|
                    0 <= w < children(nodes@[q]@).len() implies (#[trigger] children(
                    nodes@[q]@,
                )[w] as nat) < table@.len() by {
                    assert((children(nodes@[q]@)[w] as nat) < t_pre.len() as nat);
                }
            }
        }
        k += 1;
    }
    proof {
        assert(sv.take(sv.len() as int) =~= sv);
    }
    handles
}

/// The `Singleton`/`Union` case: intersects every child of the union
/// against `s`, keeps the non-empty results, and wraps their interned
/// handles in a new `Union` (or returns `Empty` if none survive).
fn inter_union<O: Opt<E>, E: Exp>(
    s: &VersionSpace<O, E>,
    cs: &Vec<usize>,
    table: &mut VersionTable<O, E>,
    Ghost(bu): Ghost<nat>,
    Ghost(bs): Ghost<nat>,
) -> (r: Result<VersionSpace<O, E>, Unsupported>)
    requires
        old(table).wf(),
        old(table).ordered(),
        bu <= old(table)@.len(),
        bs <= old(table)@.len(),
        node_closed(s@, bs),
        forall|q: int| 0 <= q < cs@.len() ==> (#[trigger] cs@[q] as nat) < bu,
    ensures
        final(table).wf(),
        final(table).ordered(),
        old(table)@.len() <= final(table)@.len(),
        forall|q: int| 0 <= q < old(table)@.len() ==> final(table)@[q] == old(table)@[q],
        match union_single_wrap(old(table)@, cs@, s@, bu, bs) {
            Option::Some(p) => r matches Ok(n) && n@ == p.1 && final(table)@ == p.0,
            Option::None => r matches Err(_),
        },
        r matches Ok(n) ==> node_closed(n@, final(table)@.len() as nat),
    decreases bu + bs, 0int,
{
    let ghost t0 = old(table)@;
    let mut results: Vec<VersionSpace<O, E>> = Vec::new();
    proof {
        assert(cs@.take(0) =~= Seq::<usize>::empty());
        assert(node_views(results@) =~= Seq::<NodeView<O, E>>::empty());
    }
    let mut i: usize = 0;
    while i < cs.len()
        invariant
            0 <= i <= cs@.len(),
            table.wf(),
            table.ordered(),
            t0 == old(table)@,
            bu <= t0.len(),
            bs <= t0.len(),
            t0.len() <= table@.len(),
            forall|q: int| 0 <= q < t0.len() ==> table@[q] == t0[q],
            node_closed(s@, bs),
            forall|q: int| 0 <= q < cs@.len() ==> (#[trigger] cs@[q] as nat) < bu,
            union_single(t0, cs@.take(i as int), s@, bu, bs) == Some(
                (table@, node_views(results@)),
            ),
            forall|q: int|
                0 <= q < results@.len() ==> node_closed(
                    #[trigger] results@[q]@,
                    table@.len() as nat,
                ),
        decreases cs@.len() - i,
    {
        let c = cs[i];
        let child = match table.get(c) {
            Some(ch) => crate::table::clone_node(ch),
            None => {
                proof {
                    assert((cs@[i as int] as nat) < bu);
                    assert(false);
                }
                return Err(Unsupported);
            },
        };
        let ghost t_pre = table@;
        let ghost rs_pre = node_views(results@);
        proof {
            assert(child@ == t_pre[c as int]);
            assert forall|w: int|
                0 <= w < children(child@).len() implies (#[trigger] children(child@)[w] as nat) < (
            c as nat) by {
                assert((children(t_pre[c as int])[w] as int) < c as int);
            }
            assert(cs@.take(i as int + 1).drop_last() =~= cs@.take(i as int));
            assert(cs@.take(i as int + 1).last() == cs@[i as int]);
        }
        let rr = inter_rec(&child, s, table, Ghost(c as nat), Ghost(bs));
        match rr {
            Ok(n) => {
                proof {
                    assert(union_single(t0, cs@.take(i as int + 1), s@, bu, bs) == Some(
                        (table@, rs_pre.push(n@)),
                    ));
                    assert(node_views(results@.push(n)) =~= rs_pre.push(n@));
                }
                results.push(n);
            },
            Err(_) => {
                proof {
                    assert(union_single(t0, cs@.take(i as int + 1), s@, bu, bs) is None);
                    lemma_union_single_none(t0, cs@, s@, bu, bs, i as int + 1);
                }
                return Err(Unsupported);
            },
        }
        i += 1;
    }
    proof {
        assert(cs@.take(cs@.len() as int) =~= cs@);
    }
    let ghost t1 = table@;
    let ghost rsv = node_views(results@);
    let mut surv: Vec<VersionSpace<O, E>> = Vec::new();
    proof {
        assert(rsv.take(0) =~= Seq::<NodeView<O, E>>::empty());
        assert(node_views(surv@) =~= keep_nonempty(rsv.take(0)));
    }
    let mut j: usize = 0;
    while j < results.len()
        invariant
            0 <= j <= results@.len(),
            rsv == node_views(results@),
            table@ == t1,
            table.wf(),
            table.ordered(),
            node_views(surv@) == keep_nonempty(rsv.take(j as int)),
            forall|q: int|
                0 <= q < results@.len() ==> node_closed(
                    #[trigger] results@[q]@,
                    table@.len() as nat,
                ),
            forall|q: int|
                0 <= q < surv@.len() ==> node_closed(#[trigger] surv@[q]@, table@.len() as nat),
        decreases results@.len() - j,
    {
        proof {
            assert(rsv.take(j as int + 1).drop_last() =~= rsv.take(j as int));
            assert(rsv.take(j as int + 1).last() == rsv[j as int]);
            assert(rsv[j as int] == results@[j as int]@);
        }
        if !is_empty_node(&results[j]) {
            let kept = crate::table::clone_node(&results[j]);
            let ghost s_pre = node_views(surv@);
            surv.push(kept);
            proof {
                assert(node_views(surv@) =~= s_pre.push(results@[j as int]@));
            }
        }
        j += 1;
    }
    proof {
        assert(rsv.take(rsv.len() as int) =~= rsv);
    }
    if surv.len() == 0 {
        proof {
            assert(keep_nonempty(rsv).len() == 0);
        }
        return Ok(VersionSpace::Empty);
    }
    let handles = add_nodes(table, &surv);
    proof {
        assert(add_all(t1, keep_nonempty(rsv)) == (table@, handles@));
    }
    let out = VersionSpace::Union(handles);
    proof {
        assert forall|w: int|
            0 <= w < children(out@).len() implies (#[trigger] children(out@)[w] as nat)
            < table@.len() by {
            assert(children(out@) == out->Union_0@);
        }
    }
    Ok(out)
}

/// The recursive intersection over two owned nodes, with ghost bounds on
/// the handles each side may reach.
#[verifier::loop_isolation(false)]
fn inter_rec<O: Opt<E>, E: Exp>(
    a: &VersionSpace<O, E>,
    b: &VersionSpace<O, E>,
    table: &mut VersionTable<O, E>,
    Ghost(ba): Ghost<nat>,
    Ghost(bb): Ghost<nat>,
) -> (r: Result<VersionSpace<O, E>, Unsupported>)
    requires
        old(table).wf(),
        old(table).ordered(),
        ba <= old(table)@.len(),
        bb <= old(table)@.len(),
        node_closed(a@, ba),
        node_closed(b@, bb),
    ensures
        final(table).wf(),
        final(table).ordered(),
        old(table)@.len() <= final(table)@.len(),
        forall|q: int| 0 <= q < old(table)@.len() ==> final(table)@[q] == old(table)@[q],
        match inter(old(table)@, a@, b@, ba, bb) {
            Option::Some(p) => r matches Ok(n) && n@ == p.1 && final(table)@ == p.0,
            Option::None => r matches Err(_),
        },
        r matches Ok(n) ==> node_closed(n@, final(table)@.len() as nat),
    decreases ba + bb, 1int,
{
    match (a, b) {
        (VersionSpace::Empty, _) => Ok(VersionSpace::Empty),
        (_, VersionSpace::Empty) => Ok(VersionSpace::Empty),
        (VersionSpace::VS(e1), VersionSpace::VS(e2)) => {
            if e1.eq_exp(e2) {
                Ok(VersionSpace::VS(e1.clone_exp()))
            } else {
                Ok(VersionSpace::Empty)
            }
        },
        (VersionSpace::VS(_), VersionSpace::Union(cs)) => {
            proof {
                assert(children(b@) == cs@);
            }
            inter_union(a, cs, table, Ghost(bb), Ghost(ba))
        },
        (VersionSpace::Union(cs), VersionSpace::VS(_)) => {
            proof {
                assert(children(a@) == cs@);
            }
            inter_union(b, cs, table, Ghost(ba), Ghost(bb))
        },
        (VersionSpace::VS(_), VersionSpace::Join(_, _)) => Ok(VersionSpace::Empty),
        (VersionSpace::Join(_, _), VersionSpace::VS(_)) => Ok(VersionSpace::Empty),
        (VersionSpace::Union(_), VersionSpace::Union(_)) => Err(Unsupported),
        (VersionSpace::Union(_), VersionSpace::Join(_, _)) => Err(Unsupported),
        (VersionSpace::Join(_, _), VersionSpace::Union(_)) => Err(Unsupported),
        (VersionSpace::Join(o1, l1), VersionSpace::Join(o2, l2)) => {
            if !o1.eq_opt(o2) {
                return Ok(VersionSpace::Empty);
            }
            let ghost t0 = old(table)@;
            let n = if l1.len() <= l2.len() {
                l1.len()
            } else {
                l2.len()
            };
            proof {
                assert(n as int == pair_len(l1@, l2@));
                assert(children(a@) == l1@);
                assert(children(b@) == l2@);
                assert(l1@.take(0) =~= Seq::<usize>::empty());
                assert(l2@.take(0) =~= Seq::<usize>::empty());
            }
            let mut results: Vec<VersionSpace<O, E>> = Vec::new();
            proof {
                assert(node_views(results@) =~= Seq::<NodeView<O, E>>::empty());
            }
            let mut i: usize = 0;
            while i < n
                invariant
                    0 <= i <= n,
                    n as int == pair_len(l1@, l2@),
                    table.wf(),
                    table.ordered(),
                    t0 == old(table)@,
                    ba <= t0.len(),
                    bb <= t0.len(),
                    t0.len() <= table@.len(),
                    forall|q: int| 0 <= q < t0.len() ==> table@[q] == t0[q],
                    forall|q: int| 0 <= q < l1@.len() ==> (#[trigger] l1@[q] as nat) < ba,
                    forall|q: int| 0 <= q < l2@.len() ==> (#[trigger] l2@[q] as nat) < bb,
                    join_pairs(t0, l1@.take(i as int), l2@.take(i as int), ba, bb) == Some(
                        (table@, node_views(results@)),
                    ),
                    forall|q: int|
                        0 <= q < results@.len() ==> node_closed(
                            #[trigger] results@[q]@,
                            table@.len() as nat,
                        ),
                decreases n - i,
            {
                let c1 = l1[i];
                let c2 = l2[i];
                let ch1 = match table.get(c1) {
                    Some(ch) => crate::table::clone_node(ch),
                    None => {
                        proof {
                            assert((l1@[i as int] as nat) < ba);
                            assert(false);
                        }
                        return Err(Unsupported);
                    },
                };
                let ch2 = match table.get(c2) {
                    Some(ch) => crate::table::clone_node(ch),
                    None => {
                        proof {
                            assert((l2@[i as int] as nat) < bb);
                            assert(false);
                        }
                        return Err(Unsupported);
                    },
                };
                let ghost t_pre = table@;
                let ghost rs_pre = node_views(results@);
                proof {
                    assert(ch1@ == t_pre[c1 as int]);
                    assert(ch2@ == t_pre[c2 as int]);
                    assert forall|w: int|
                        0 <= w < children(ch1@).len() implies (#[trigger] children(
                        ch1@,
                    )[w] as nat) < (c1 as nat) by {
                        assert((children(t_pre[c1 as int])[w] as int) < c1 as int);
                    }
                    assert forall|w: int|
                        0 <= w < children(ch2@).len() implies (#[trigger] children(
                        ch2@,
                    )[w] as nat) < (c2 as nat) by {
                        assert((children(t_pre[c2 as int])[w] as int) < c2 as int);
                    }
                    assert(pair_len(l1@.take(i as int + 1), l2@.take(i as int + 1)) == i + 1);
                    assert(l1@.take(i as int + 1).take(i as int) =~= l1@.take(i as int));
                    assert(l2@.take(i as int + 1).take(i as int) =~= l2@.take(i as int));
                    assert(l1@.take(i as int + 1)[i as int] == l1@[i as int]);
                    assert(l2@.take(i as int + 1)[i as int] == l2@[i as int]);
                }
                let rr = inter_rec(&ch1, &ch2, table, Ghost(c1 as nat), Ghost(c2 as nat));
                match rr {
                    Ok(x) => {
                        proof {
                            assert(join_pairs(
                                t0,
                                l1@.take(i as int + 1),
                                l2@.take(i as int + 1),
                                ba,
                                bb,
                            ) == Some((table@, rs_pre.push(x@))));
                            assert(node_views(results@.push(x)) =~= rs_pre.push(x@));
                        }
                        results.push(x);
                    },
                    Err(_) => {
                        proof {
                            assert(join_pairs(
                                t0,
                                l1@.take(i as int + 1),
                                l2@.take(i as int + 1),
                                ba,
                                bb,
                            ) is None);
                            lemma_join_pairs_none(t0, l1@, l2@, ba, bb, i as int + 1);
                        }
                        return Err(Unsupported);
                    },
                }
                i += 1;
            }
            proof {
                lemma_join_pairs_full(t0, l1@, l2@, ba, bb);
                assert(l1@.take(pair_len(l1@, l2@)) =~= l1@.take(n as int));
                assert(l2@.take(pair_len(l1@, l2@)) =~= l2@.take(n as int));
            }
            let ghost t1 = table@;
            let ghost rsv = node_views(results@);
            let mut any_empty = false;
            let mut j: usize = 0;
            while j < results.len()
                invariant
                    0 <= j <= results@.len(),
                    rsv == node_views(results@),
                    any_empty == exists|q: int| 0 <= q < j && (#[trigger] rsv[q]) is Empty,
                decreases results@.len() - j,
            {
                if is_empty_node(&results[j]) {
                    proof {
                        assert(rsv[j as int] is Empty);
                    }
                    any_empty = true;
                }
                j += 1;
            }
            if any_empty {
                proof {
                    assert(exists|q: int| 0 <= q < rsv.len() && (#[trigger] rsv[q]) is Empty);
                }
                return Ok(VersionSpace::Empty);
            }
            proof {
                assert(!(exists|q: int| 0 <= q < rsv.len() && (#[trigger] rsv[q]) is Empty));
            }
            let handles = add_nodes(table, &results);
            proof {
                assert(add_all(t1, rsv) == (table@, handles@));
            }
            let out = VersionSpace::Join(o1.clone_opt(), handles);
            proof {
                assert forall|w: int|
                    0 <= w < children(out@).len() implies (#[trigger] children(out@)[w] as nat)
                    < table@.len() by {
                    assert(children(out@) == out->Join_1@);
                }
            }
            Ok(out)
        },
    }
}

impl<O: Opt<E>, E: Exp> VersionSpace<O, E> {
    /// Intersects this node with `v` over `table`, interning any sub-nodes
    /// the result needs. The result denotes the intersection of the two
    /// denoted sets within the supported case table; the `Union`/`Union`
    /// and `Union`/`Join` combinations are unsupported and reported as an
    /// explicit error, never silently approximated.
    pub fn intersection(&self, v: &Self, table: &mut VersionTable<O, E>) -> (r: Result<
        Self,
        Unsupported,
    >)
        requires
            old(table).wf(),
            old(table).ordered(),
            node_closed(self@, old(table)@.len() as nat),
            node_closed(v@, old(table)@.len() as nat),
        ensures
            final(table).wf(),
            final(table).ordered(),
            old(table)@.len() <= final(table)@.len(),
            forall|q: int| 0 <= q < old(table)@.len() ==> final(table)@[q] == old(table)@[q],
            match inter(
                old(table)@,
                self@,
                v@,
                old(table)@.len() as nat,
                old(table)@.len() as nat,
            ) {
                Option::Some(p) => r matches Ok(n) && n@ == p.1 && final(table)@ == p.0,
                Option::None => r matches Err(_),
            },
            (r matches Err(_)) <==> inter(
                old(table)@,
                self@,
                v@,
                old(table)@.len() as nat,
                old(table)@.len() as nat,
            ) is None,
            r matches Ok(n) ==> node_closed(n@, final(table)@.len() as nat),
            (self@ is Empty || v@ is Empty) ==> (r matches Ok(n) && n@ is Empty && final(table)@
                == old(table)@),
            (self@ is Single && v@ is Single && self@->Single_0 == v@->Single_0) ==> (r matches Ok(
                n,
            ) && n@ == self@ && final(table)@ == old(table)@),
            (self@ is Single && v@ is Single && self@->Single_0 != v@->Single_0) ==> (r matches Ok(
                n,
            ) && n@ is Empty && final(table)@ == old(table)@),
            ((self@ is Single && v@ is Join) || (self@ is Join && v@ is Single)) ==> (r matches Ok(
                n,
            ) && n@ is Empty && final(table)@ == old(table)@),
            (self@ is Join && v@ is Join && self@->Join_0 != v@->Join_0) ==> (r matches Ok(n) && n@
                is Empty && final(table)@ == old(table)@),
            ((self@ is Union && v@ is Union) || (self@ is Union && v@ is Join) || (self@ is Join
                && v@ is Union)) ==> r matches Err(_),
    {
        let ghost bound = old(table)@.len() as nat;
        inter_rec(self, v, table, Ghost(bound), Ghost(bound))
    }
}

} // verus!
