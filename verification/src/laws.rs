//! The algebra's laws, proved over the models that the executable
//! functions' contracts are stated in.

use vstd::prelude::*;

use crate::expand::{cross, cross_step, dedup, expand, expand_args, tuple_exts};
use crate::intersect::{add_all, inter, join_pairs, pair_len};
use crate::table::{intern_handle, intern_seq};
use crate::{NodeView, Opt};

verus! {

/// Interning idempotence: interning a node twice yields the same handle
/// both times, and only the first interning can grow the table — by
/// exactly one node when the node is new, by none when it is present.
pub proof fn lemma_intern_idempotent<O, E>(s: Seq<NodeView<O, E>>, n: NodeView<O, E>)
    ensures
        intern_seq(intern_seq(s, n), n) == intern_seq(s, n),
        intern_handle(intern_seq(s, n), n) == intern_handle(s, n),
        !s.contains(n) ==> intern_seq(s, n).len() == s.len() + 1,
        s.contains(n) ==> intern_seq(s, n) == s,
{
    if s.contains(n) {
        assert(intern_seq(s, n) == s);
    } else {
        let s1 = s.push(n);
        assert(s1[s.len() as int] == n);
        assert(s1.contains(n));
        assert(intern_seq(s, n) == s1);
        assert(intern_seq(s1, n) == s1);
        let w = s1.index_of(n);
        assert(0 <= w < s1.len() && s1[w] == n);
        if w < s.len() {
            assert(s[w] == n);
            assert(s.contains(n));
        }
        assert(w == s.len() as int);
        assert(intern_handle(s1, n) == s.len() as int);
        assert(intern_handle(s, n) == s.len() as int);
    }
}

/// Structural sharing: two distinct new parent nodes that reference an
/// already interned child grow a duplicate-free table by exactly the two
/// parents; the child is not stored again and keeps its handle.
pub proof fn lemma_structural_sharing<O, E>(
    s: Seq<NodeView<O, E>>,
    child: NodeView<O, E>,
    p1: NodeView<O, E>,
    p2: NodeView<O, E>,
)
    requires
        forall|i: int, j: int| 0 <= i < j < s.len() ==> s[i] != s[j],
        s.contains(child),
        p1 != p2,
        !s.contains(p1),
        !s.contains(p2),
    ensures
        intern_seq(intern_seq(s, p1), p2).len() == s.len() + 2,
        intern_handle(intern_seq(intern_seq(s, p1), p2), child) == intern_handle(s, child),
{
    let s1 = intern_seq(s, p1);
    assert(s1 == s.push(p1));
    if s1.contains(p2) {
        let w = s1.index_of(p2);
        assert(s1[w] == p2);
        if w < s.len() {
            assert(s[w] == p2);
            assert(s.contains(p2));
        } else {
            assert(s1[w] == p1);
        }
        assert(false);
    }
    let s2 = s1.push(p2);
    assert(intern_seq(s1, p2) == s2);
    assert(s2.len() == s.len() + 2);
    assert(s2.contains(child)) by {
        let w0 = s.index_of(child);
        assert(s2[w0] == child);
    }
    let w1 = s.index_of(child);
    assert(0 <= w1 < s.len() && s[w1] == child);
    let w2 = s2.index_of(child);
    assert(0 <= w2 < s2.len() && s2[w2] == child);
    if w2 == s.len() as int {
        assert(s2[w2] == p1);
        assert(p1 != child || s.contains(p1));
        assert(false);
    }
    if w2 == s.len() as int + 1 {
        assert(s2[w2] == p2);
        assert(false);
    }
    assert(w2 < s.len());
    assert(s[w2] == child);
    if w1 != w2 {
        assert(s[w1] == s[w2]);
        assert(false);
    }
}

/// Union order sensitivity: for two distinct handles, the union over them
/// in one order and the union in the other order are distinct nodes, so
/// interning both yields two distinct handles.
pub proof fn lemma_union_order_sensitive<O, E>(s: Seq<NodeView<O, E>>, h1: usize, h2: usize)
    requires
        h1 != h2,
    ensures
        ({
            let n1 = NodeView::<O, E>::Union(seq![h1, h2]);
            let n2 = NodeView::<O, E>::Union(seq![h2, h1]);
            intern_handle(s, n1) != intern_handle(intern_seq(s, n1), n2)
        }),
{
    let n1 = NodeView::<O, E>::Union(seq![h1, h2]);
    let n2 = NodeView::<O, E>::Union(seq![h2, h1]);
    assert(seq![h1, h2][0] == h1);
    assert(seq![h2, h1][0] == h2);
    assert(n1 != n2);
    let s1 = intern_seq(s, n1);
    let g1 = intern_handle(s, n1);
    let g2 = intern_handle(s1, n2);
    assert(0 <= g1 < s1.len() && s1[g1] == n1) by {
        if s.contains(n1) {
            let w = s.index_of(n1);
            assert(s[w] == n1);
        } else {
            assert(s1 == s.push(n1));
            assert(s1[s.len() as int] == n1);
        }
    }
    let s2 = intern_seq(s1, n2);
    assert(0 <= g2 < s2.len() && s2[g2] == n2) by {
        if s1.contains(n2) {
            let w = s1.index_of(n2);
            assert(s1[w] == n2);
            assert(s2 == s1);
        } else {
            assert(s2 == s1.push(n2));
            assert(s2[s1.len() as int] == n2);
        }
    }
    if g1 == g2 {
        assert(s2[g1] == s1[g1]);
        assert(n1 == n2);
        assert(false);
    }
}

/// Same-operator join distributivity: intersecting two joins over one
/// operator intersects their arguments positionally, threading the table;
/// if every positional intersection is non-empty the result is the join of
/// their interned handles, and if either is empty the result is the empty
/// node.
pub proof fn lemma_join_same_operator<O, E>(
    tbl: Seq<NodeView<O, E>>,
    o: O,
    a1: usize,
    a2: usize,
    b1: usize,
    b2: usize,
    ba: nat,
    bb: nat,
)
    requires
        (a1 as nat) < ba,
        (a2 as nat) < ba,
        (b1 as nat) < bb,
        (b2 as nat) < bb,
    ensures
        ({
            let ja = NodeView::<O, E>::Join(o, seq![a1, a2]);
            let jb = NodeView::<O, E>::Join(o, seq![b1, b2]);
            match inter(tbl, tbl[a1 as int], tbl[b1 as int], a1 as nat, b1 as nat) {
                Option::None => inter(tbl, ja, jb, ba, bb) is None,
                Option::Some(p1) => {
                    let t1 = p1.0;
                    let r1 = p1.1;
                    match inter(t1, t1[a2 as int], t1[b2 as int], a2 as nat, b2 as nat) {
                        Option::None => inter(tbl, ja, jb, ba, bb) is None,
                        Option::Some(p2) => {
                            let t2 = p2.0;
                            let r2 = p2.1;
                            if r1 is Empty || r2 is Empty {
                                inter(tbl, ja, jb, ba, bb) == Some((t2, NodeView::<O, E>::Empty))
                            } else {
                                let h1 = intern_handle(t2, r1);
                                let t3 = intern_seq(t2, r1);
                                let h2 = intern_handle(t3, r2);
                                let t4 = intern_seq(t3, r2);
                                inter(tbl, ja, jb, ba, bb) == Some(
                                    (t4, NodeView::<O, E>::Join(o, seq![h1 as usize, h2 as usize])),
                                )
                            }
                        },
                    }
                },
            }
        }),
{
    let l1 = seq![a1, a2];
    let l2 = seq![b1, b2];
    assert(pair_len(l1, l2) == 2);
    assert(l1.take(1).take(0) =~= l1.take(0));
    assert(l2.take(1).take(0) =~= l2.take(0));
    assert(pair_len(l1.take(0), l2.take(0)) == 0);
    assert(pair_len(l1.take(1), l2.take(1)) == 1);
    assert(l1.take(1)[0] == a1);
    assert(l2.take(1)[0] == b1);
    assert(l1[1] == a2);
    assert(l2[1] == b2);
    assert(l1.take(2) =~= l1);
    assert(l2.take(2) =~= l2);
    assert(join_pairs(tbl, l1.take(0), l2.take(0), ba, bb) == Some(
        (tbl, Seq::<NodeView<O, E>>::empty()),
    ));
    match inter(tbl, tbl[a1 as int], tbl[b1 as int], a1 as nat, b1 as nat) {
        Option::None => {
            assert(join_pairs(tbl, l1.take(1), l2.take(1), ba, bb) is None);
            assert(join_pairs(tbl, l1, l2, ba, bb) is None);
        },
        Option::Some(p1) => {
            let t1 = p1.0;
            let r1 = p1.1;
            assert(join_pairs(tbl, l1.take(1), l2.take(1), ba, bb) == Some(
                (t1, Seq::<NodeView<O, E>>::empty().push(r1)),
            ));
            match inter(t1, t1[a2 as int], t1[b2 as int], a2 as nat, b2 as nat) {
                Option::None => {
                    assert(join_pairs(tbl, l1, l2, ba, bb) is None);
                },
                Option::Some(p2) => {
                    let t2 = p2.0;
                    let r2 = p2.1;
                    let rs = Seq::<NodeView<O, E>>::empty().push(r1).push(r2);
                    assert(join_pairs(tbl, l1, l2, ba, bb) == Some((t2, rs)));
                    assert(rs.len() == 2 && rs[0] == r1 && rs[1] == r2);
                    if r1 is Empty || r2 is Empty {
                        assert(exists|i: int| 0 <= i < rs.len() && (#[trigger] rs[i]) is Empty) by {
                            if r1 is Empty {
                                assert(rs[0] is Empty);
                            } else {
                                assert(rs[1] is Empty);
                            }
                        }
                    } else {
                        assert(!(exists|i: int| 0 <= i < rs.len() && (#[trigger] rs[i]) is Empty))
                            by {
                            if exists|i: int| 0 <= i < rs.len() && (#[trigger] rs[i]) is Empty {
                                let i = choose|i: int|
                                    0 <= i < rs.len() && (#[trigger] rs[i]) is Empty;
                                assert(i == 0 || i == 1);
                            }
                        }
                        let h1 = intern_handle(t2, r1);
                        let t3 = intern_seq(t2, r1);
                        let h2 = intern_handle(t3, r2);
                        let e = Seq::<NodeView<O, E>>::empty();
                        assert(add_all(t2, e) == (t2, Seq::<usize>::empty()));
                        assert(rs.drop_last() =~= e.push(r1));
                        assert(e.push(r1).drop_last() =~= e);
                        assert(e.push(r1).last() == r1);
                        assert(add_all(t2, e.push(r1)) == (
                            t3,
                            Seq::<usize>::empty().push(h1 as usize),
                        ));
                        assert(rs.last() == r2);
                        assert(add_all(t2, rs) == (
                            intern_seq(t3, r2),
                            Seq::<usize>::empty().push(h1 as usize).push(h2 as usize),
                        ));
                        assert(Seq::<usize>::empty().push(h1 as usize).push(h2 as usize)
                            =~= seq![h1 as usize, h2 as usize]);
                    }
                },
            }
        },
    }
}

/// A zero-arity join expands to exactly one expression: the operator
/// applied to no arguments.
pub proof fn lemma_expand_zero_arity_join<O: Opt<E>, E>(
    tbl: Seq<NodeView<O, E>>,
    o: O,
    bound: nat,
)
    ensures
        expand(tbl, NodeView::Join(o, Seq::empty()), bound) == seq![o.apply_spec(Seq::empty())],
{
}

/// One cross-product step multiplies the tuple count by the factor size.
proof fn lemma_cross_step_len<E>(ts: Seq<Seq<E>>, f: Seq<E>)
    ensures
        cross_step(ts, f).len() == ts.len() * f.len(),
    decreases ts.len(),
{
    if ts.len() == 0 {
    } else {
        lemma_cross_step_len(ts.drop_last(), f);
        assert((ts.len() - 1) * f.len() + f.len() == ts.len() * f.len()) by (nonlinear_arith);
    }
}

/// Every tuple of a cross-product step extends a tuple of `ts` by an
/// element of `f`.
proof fn lemma_cross_step_index<E>(ts: Seq<Seq<E>>, f: Seq<E>, idx: int)
    requires
        0 <= idx < cross_step(ts, f).len(),
    ensures
        exists|x: int, y: int|
            0 <= x < ts.len() && 0 <= y < f.len() && cross_step(ts, f)[idx] == #[trigger] ts[x].push(#[trigger] f[y]),
    decreases ts.len(),
{
    if ts.len() == 0 {
    } else {
        let pre = cross_step(ts.drop_last(), f);
        if idx < pre.len() {
            lemma_cross_step_index(ts.drop_last(), f, idx);
            let (x, y) = choose|x: int, y: int|
                0 <= x < ts.drop_last().len() && 0 <= y < f.len() && cross_step(
                    ts.drop_last(),
                    f,
                )[idx] == #[trigger] ts.drop_last()[x].push(#[trigger] f[y]);
            assert(cross_step(ts, f)[idx] == pre[idx]);
            assert(ts.drop_last()[x] == ts[x]);
            assert(0 <= x < ts.len() && 0 <= y < f.len() && cross_step(ts, f)[idx] == ts[x].push(
                f[y],
            ));
        } else {
            let y = idx - pre.len();
            assert(cross_step(ts, f)[idx] == tuple_exts(ts.last(), f)[y]);
            assert(tuple_exts(ts.last(), f)[y] == ts.last().push(f[y]));
            assert(ts.last() == ts[ts.len() - 1]);
            assert(0 <= ts.len() - 1 < ts.len() && 0 <= y < f.len() && cross_step(ts, f)[idx]
                == ts[ts.len() - 1].push(f[y]));
        }
    }
}

/// Expansion cross-product size: a join over two arguments expands to
/// exactly `k * m` expressions, where `k` and `m` are the sizes of the two
/// arguments' deduplicated expansions.
pub proof fn lemma_join_expansion_size<O: Opt<E>, E>(
    tbl: Seq<NodeView<O, E>>,
    o: O,
    a: usize,
    b: usize,
    bound: nat,
)
    requires
        (a as nat) < bound,
        (b as nat) < bound,
    ensures
        expand(tbl, NodeView::Join(o, seq![a, b]), bound).len() == dedup(
            expand(tbl, tbl[a as int], a as nat),
        ).len() * dedup(expand(tbl, tbl[b as int], b as nat)).len(),
{
    let args = seq![a, b];
    let fa = dedup(expand(tbl, tbl[a as int], a as nat));
    let fb = dedup(expand(tbl, tbl[b as int], b as nat));
    let res = expand(tbl, NodeView::Join(o, args), bound);
    assert(args.drop_last() =~= seq![a]);
    assert(seq![a].drop_last() =~= Seq::<usize>::empty());
    assert(seq![a].last() == a);
    assert(args.last() == b);
    let factors = expand_args(tbl, args, bound);
    assert(expand_args(tbl, Seq::<usize>::empty(), bound) == Seq::<Seq<E>>::empty());
    assert(expand_args(tbl, seq![a], bound) == Seq::<Seq<E>>::empty().push(fa));
    assert(factors == Seq::<Seq<E>>::empty().push(fa).push(fb));
    assert(factors.drop_last() =~= seq![fa]);
    assert(seq![fa].drop_last() =~= Seq::<Seq<E>>::empty());
    assert(seq![fa].last() == fa);
    let base = cross(Seq::<Seq<E>>::empty());
    assert(base == seq![Seq::<E>::empty()]);
    let c1 = cross(seq![fa]);
    assert(c1 == cross_step(base, fa));
    assert(base.drop_last() =~= Seq::<Seq<E>>::empty());
    assert(cross_step(Seq::<Seq<E>>::empty(), fa) == Seq::<Seq<E>>::empty());
    assert(base.last() == Seq::<E>::empty());
    assert(c1 =~= tuple_exts(Seq::<E>::empty(), fa));
    assert(c1.len() == fa.len());
    assert(cross(factors) == cross_step(c1, fb));
    lemma_cross_step_len(c1, fb);
    assert(res.len() == fa.len() * fb.len());
}

/// The operator applied to exactly the two given argument expressions.
pub open spec fn pair_apply<O: Opt<E>, E>(o: O, x: E, y: E) -> E {
    o.apply_spec(seq![x, y])
}

/// Every expression a two-argument join expands to is the operator applied
/// to one pair drawn positionally from the two arguments' deduplicated
/// expansions.
pub proof fn lemma_join_expansion_element<O: Opt<E>, E>(
    tbl: Seq<NodeView<O, E>>,
    o: O,
    a: usize,
    b: usize,
    bound: nat,
    idx: int,
)
    requires
        (a as nat) < bound,
        (b as nat) < bound,
        0 <= idx < expand(tbl, NodeView::Join(o, seq![a, b]), bound).len(),
    ensures
        exists|x: int, y: int|
            #![trigger dedup(expand(tbl, tbl[a as int], a as nat))[x], dedup(expand(tbl, tbl[b as int], b as nat))[y]]
            0 <= x < dedup(expand(tbl, tbl[a as int], a as nat)).len() && 0 <= y < dedup(
                expand(tbl, tbl[b as int], b as nat),
            ).len() && expand(tbl, NodeView::Join(o, seq![a, b]), bound)[idx] == pair_apply(
                o,
                dedup(expand(tbl, tbl[a as int], a as nat))[x],
                dedup(expand(tbl, tbl[b as int], b as nat))[y],
            ),
{
    let args = seq![a, b];
    let fa = dedup(expand(tbl, tbl[a as int], a as nat));
    let fb = dedup(expand(tbl, tbl[b as int], b as nat));
    let res = expand(tbl, NodeView::Join(o, args), bound);
    assert(args.drop_last() =~= seq![a]);
    assert(seq![a].drop_last() =~= Seq::<usize>::empty());
    assert(seq![a].last() == a);
    assert(args.last() == b);
    let factors = expand_args(tbl, args, bound);
    assert(expand_args(tbl, Seq::<usize>::empty(), bound) == Seq::<Seq<E>>::empty());
    assert(expand_args(tbl, seq![a], bound) == Seq::<Seq<E>>::empty().push(fa));
    assert(factors == Seq::<Seq<E>>::empty().push(fa).push(fb));
    assert(factors.drop_last() =~= seq![fa]);
    assert(seq![fa].drop_last() =~= Seq::<Seq<E>>::empty());
    assert(seq![fa].last() == fa);
    let base = cross(Seq::<Seq<E>>::empty());
    assert(base == seq![Seq::<E>::empty()]);
    let c1 = cross(seq![fa]);
    assert(c1 == cross_step(base, fa));
    assert(base.drop_last() =~= Seq::<Seq<E>>::empty());
    assert(cross_step(Seq::<Seq<E>>::empty(), fa) == Seq::<Seq<E>>::empty());
    assert(base.last() == Seq::<E>::empty());
    assert(c1 =~= tuple_exts(Seq::<E>::empty(), fa));
    assert(cross(factors) == cross_step(c1, fb));
    let c2 = cross(factors);
    lemma_cross_step_index(c1, fb, idx);
    let (x, y) = choose|x: int, y: int|
        0 <= x < c1.len() && 0 <= y < fb.len() && cross_step(c1, fb)[idx] == #[trigger] c1[x].push(
            #[trigger] fb[y],
        );
    assert(c1[x] == tuple_exts(Seq::<E>::empty(), fa)[x]);
    assert(c1[x] == Seq::<E>::empty().push(fa[x]));
    assert(Seq::<E>::empty().push(fa[x]).push(fb[y]) =~= seq![fa[x], fb[y]]);
    assert(c2[idx] == seq![fa[x], fb[y]]);
    assert(res[idx] == pair_apply(o, fa[x], fb[y]));
}

} // verus!
