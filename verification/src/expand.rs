//! Expansion: enumerating the concrete expressions a node denotes.
//!
//! A `Union` concatenates its children's expansions in child order, without
//! deduplication across children. A `Join` deduplicates each argument's
//! expansion locally, forms the cross product across the arguments in
//! argument order, and applies the operator to every tuple; equal results
//! from different tuples are all kept. A dangling handle contributes the
//! empty set for its branch.

use vstd::prelude::*;

use crate::table::VersionTable;
use crate::{children, Exp, NodeView, Opt, VersionSpace};

verus! {

/// `n`'s children either lie below `bound` or dangle (lie at or above the
/// table length `len`).
pub open spec fn node_ok<O, E>(n: NodeView<O, E>, bound: nat, len: nat) -> bool {
    forall|i: int|
        0 <= i < children(n).len() ==> (#[trigger] children(n)[i] as nat) < bound || (children(
            n,
        )[i] as nat) >= len
}

/// `s` with every repeated element removed, keeping first occurrences.
pub open spec fn dedup<E>(s: Seq<E>) -> Seq<E>
    decreases s.len(),
{
    if s.len() == 0 {
        Seq::empty()
    } else {
        let d = dedup(s.drop_last());
        if d.contains(s.last()) {
            d
        } else {
            d.push(s.last())
        }
    }
}

/// Every tuple of `ts` extended by every element of `f`, element order
/// inside `f` preserved.
pub open spec fn tuple_exts<E>(t: Seq<E>, f: Seq<E>) -> Seq<Seq<E>> {
    f.map_values(|x: E| t.push(x))
}

/// One cross-product step: each tuple of `ts`, in order, extended by each
/// element of `f`.
pub open spec fn cross_step<E>(ts: Seq<Seq<E>>, f: Seq<E>) -> Seq<Seq<E>>
    decreases ts.len(),
{
    if ts.len() == 0 {
        Seq::empty()
    } else {
        cross_step(ts.drop_last(), f) + tuple_exts(ts.last(), f)
    }
}

/// The cross product of a list of factors: all tuples drawing one element
/// from each factor positionally, ordered with the first factor varying
/// slowest. With no factors it holds exactly the empty tuple.
pub open spec fn cross<E>(ls: Seq<Seq<E>>) -> Seq<Seq<E>>
    decreases ls.len(),
{
    if ls.len() == 0 {
        seq![Seq::empty()]
    } else {
        cross_step(cross(ls.drop_last()), ls.last())
    }
}

/// The element-wise views of a list of vectors.
pub open spec fn views_of<E>(v: Seq<Vec<E>>) -> Seq<Seq<E>> {
    v.map_values(|x: Vec<E>| x@)
}

/// The expansion of node `n` against table `tbl`: the ordered list of
/// expressions the node denotes. `bound` caps which handles may be
/// followed; a node reached through handle `h` only follows handles below
/// `h`, which is what makes the recursion well-founded on acyclic tables.
pub open spec fn expand<O: Opt<E>, E>(tbl: Seq<NodeView<O, E>>, n: NodeView<O, E>, bound: nat) -> Seq<E>
    decreases bound, 1int, 0int,
{
    match n {
        NodeView::Empty => Seq::empty(),
        NodeView::Single(e) => seq![e],
        NodeView::Union(cs) => expand_union(tbl, cs, bound),
        NodeView::Join(o, args) => if args.len() == 0 {
            seq![o.apply_spec(Seq::empty())]
        } else {
            cross(expand_args(tbl, args, bound)).map_values(|t: Seq<E>| o.apply_spec(t))
        },
    }
}

/// The concatenation, in child order, of the children's expansions; a
/// handle outside the followable range contributes nothing.
pub open spec fn expand_union<O: Opt<E>, E>(
    tbl: Seq<NodeView<O, E>>,
    cs: Seq<usize>,
    bound: nat,
) -> Seq<E>
    decreases bound, 0int, cs.len(),
{
    if cs.len() == 0 {
        Seq::empty()
    } else {
        let prefix = expand_union(tbl, cs.drop_last(), bound);
        let c = cs.last() as int;
        let tail = if c < bound {
            expand(tbl, tbl[c], c as nat)
        } else {
            Seq::empty()
        };
        prefix + tail
    }
}

/// The per-argument factors of a `Join`: each argument's expansion reduced
/// to a duplicate-free list; a handle outside the followable range yields
/// the empty factor.
pub open spec fn expand_args<O: Opt<E>, E>(
    tbl: Seq<NodeView<O, E>>,
    args: Seq<usize>,
    bound: nat,
) -> Seq<Seq<E>>
    decreases bound, 0int, args.len(),
{
    if args.len() == 0 {
        Seq::empty()
    } else {
        let prefix = expand_args(tbl, args.drop_last(), bound);
        let c = args.last() as int;
        let f = if c < bound {
            dedup(expand(tbl, tbl[c], c as nat))
        } else {
            Seq::<E>::empty()
        };
        prefix.push(f)
    }
}

/// Decides whether `v` holds an element equal to `x`.
fn contains_exec<E: Exp>(v: &Vec<E>, x: &E) -> (b: bool)
    ensures
        b == v@.contains(*x),
{
    let mut i: usize = 0;
    while i < v.len()
        invariant
            0 <= i <= v@.len(),
            forall|j: int| 0 <= j < i ==> v@[j] != *x,
        decreases v@.len() - i,
    {
        if v[i].eq_exp(x) {
            proof {
                assert(v@[i as int] == *x);
            }
            return true;
        }
        i += 1;
    }
    proof {
        if v@.contains(*x) {
            let w = choose|w: int| 0 <= w < v@.len() && v@[w] == *x;
            assert(v@[w] != *x);
        }
    }
    false
}

/// Copies a list of expressions.
fn clone_exprs<E: Exp>(v: &Vec<E>) -> (r: Vec<E>)
    ensures
        r@ == v@,
{
    let mut r: Vec<E> = Vec::new();
    let mut i: usize = 0;
    while i < v.len()
        invariant
            0 <= i <= v@.len(),
            r@ == v@.take(i as int),
        decreases v@.len() - i,
    {
        r.push(v[i].clone_exp());
        proof {
            assert(r@ =~= v@.take(i as int + 1));
        }
        i += 1;
    }
    proof {
        assert(v@.take(v@.len() as int) =~= v@);
    }
    r
}

/// Removes repeated elements, keeping the first occurrence of each.
fn dedup_exec<E: Exp>(v: &Vec<E>) -> (r: Vec<E>)
    ensures
        r@ == dedup(v@),
{
    let mut r: Vec<E> = Vec::new();
    let mut i: usize = 0;
    while i < v.len()
        invariant
            0 <= i <= v@.len(),
            r@ == dedup(v@.take(i as int)),
        decreases v@.len() - i,
    {
        proof {
            assert(v@.take(i as int + 1).drop_last() =~= v@.take(i as int));
            assert(v@.take(i as int + 1).last() == v@[i as int]);
        }
        if !contains_exec(&r, &v[i]) {
            r.push(v[i].clone_exp());
        }
        i += 1;
    }
    proof {
        assert(v@.take(v@.len() as int) =~= v@);
    }
    r
}

/// Builds the cross product of the factors, first factor varying slowest.
fn cross_exec<E: Exp>(factors: &Vec<Vec<E>>) -> (r: Vec<Vec<E>>)
    ensures
        views_of(r@) == cross(views_of(factors@)),
{
    let ghost fv = views_of(factors@);
    let mut ts: Vec<Vec<E>> = Vec::new();
    ts.push(Vec::new());
    proof {
        assert(views_of(ts@) =~= cross(fv.take(0)));
    }
    let mut k: usize = 0;
    while k < factors.len()
        invariant
            0 <= k <= factors@.len(),
            fv == views_of(factors@),
            views_of(ts@) == cross(fv.take(k as int)),
        decreases factors@.len() - k,
    {
        let ghost tv = views_of(ts@);
        let ghost f = factors@[k as int]@;
        let mut next: Vec<Vec<E>> = Vec::new();
        let mut i: usize = 0;
        while i < ts.len()
            invariant
                0 <= i <= ts@.len(),
                tv == views_of(ts@),
                f == factors@[k as int]@,
                k < factors@.len(),
                views_of(next@) == cross_step(tv.take(i as int), f),
            decreases ts@.len() - i,
        {
            let mut j: usize = 0;
            while j < factors[k].len()
                invariant
                    0 <= j <= f.len(),
                    0 <= i < ts@.len(),
                    tv == views_of(ts@),
                    f == factors@[k as int]@,
                    k < factors@.len(),
                    views_of(next@) == cross_step(tv.take(i as int), f) + tuple_exts(
                        ts@[i as int]@,
                        f.take(j as int),
                    ),
                decreases f.len() - j,
            {
                let mut t = clone_exprs(&ts[i]);
                t.push(factors[k][j].clone_exp());
                proof {
                    assert(t@ == ts@[i as int]@.push(f[j as int]));
                }
                let ghost nv = views_of(next@);
                next.push(t);
                proof {
                    assert(views_of(next@) =~= nv.push(ts@[i as int]@.push(f[j as int])));
                    assert(tuple_exts(ts@[i as int]@, f.take(j as int + 1)) =~= tuple_exts(
                        ts@[i as int]@,
                        f.take(j as int),
                    ).push(ts@[i as int]@.push(f[j as int])));
                    assert(views_of(next@) =~= cross_step(tv.take(i as int), f) + tuple_exts(
                        ts@[i as int]@,
                        f.take(j as int + 1),
                    ));
                }
                j += 1;
            }
            proof {
                assert(f.take(f.len() as int) =~= f);
                assert(tv.take(i as int + 1).drop_last() =~= tv.take(i as int));
                assert(tv.take(i as int + 1).last() == tv[i as int]);
                assert(tv[i as int] == ts@[i as int]@);
                assert(views_of(next@) =~= cross_step(tv.take(i as int + 1), f));
            }
            i += 1;
        }
        ts = next;
        proof {
            assert(tv.take(tv.len() as int) =~= tv);
            assert(fv.take(k as int + 1).drop_last() =~= fv.take(k as int));
            assert(fv.take(k as int + 1).last() == fv[k as int]);
            assert(fv[k as int] == f);
            assert(views_of(ts@) == cross_step(cross(fv.take(k as int)), f));
        }
        k += 1;
    }
    proof {
        assert(fv.take(fv.len() as int) =~= fv);
    }
    ts
}

/// Expands `n` against `table`, following handles only below `bound`.
fn expand_node<O: Opt<E>, E: Exp>(
    table: &VersionTable<O, E>,
    n: &VersionSpace<O, E>,
    Ghost(bound): Ghost<nat>,
) -> (r: Vec<E>)
    requires
        table.ordered(),
        bound <= table@.len(),
        node_ok(n@, bound, table@.len() as nat),
    ensures
        r@ == expand(table@, n@, bound),
    decreases bound,
{
    match n {
        VersionSpace::Empty => Vec::new(),
        VersionSpace::VS(e) => {
            let mut out: Vec<E> = Vec::new();
            out.push(e.clone_exp());
            proof {
                assert(out@ =~= seq![*e]);
            }
            out
        },
        VersionSpace::Union(cs) => {
            let ghost tv = table@;
            let mut out: Vec<E> = Vec::new();
            let mut i: usize = 0;
            while i < cs.len()
                invariant
                    0 <= i <= cs@.len(),
                    table.ordered(),
                    bound <= tv.len(),
                    tv == table@,
                    n@ == NodeView::<O, E>::Union(cs@),
                    node_ok(n@, bound, tv.len() as nat),
                    out@ == expand_union(tv, cs@.take(i as int), bound),
                decreases cs@.len() - i,
            {
                let c = cs[i];
                proof {
                    assert(children(n@)[i as int] == cs@[i as int]);
                    assert(cs@.take(i as int + 1).drop_last() =~= cs@.take(i as int));
                    assert(cs@.take(i as int + 1).last() == cs@[i as int]);
                }
                match table.get(c) {
                    Some(child) => {
                        proof {
                            assert((c as nat) < bound);
                            assert forall|k: int|
                                0 <= k < children(child@).len() implies (#[trigger] children(
                                child@,
                            )[k] as nat) < c as nat || (children(child@)[k] as nat)
                                >= tv.len() as nat by {
                                assert((children(tv[c as int])[k] as int) < c as int);
                            }
                        }
                        let mut sub = expand_node(table, child, Ghost(c as nat));
                        out.append(&mut sub);
                    },
                    None => {
                        proof {
                            assert((c as nat) >= bound);
                        }
                    },
                }
                i += 1;
            }
            proof {
                assert(cs@.take(cs@.len() as int) =~= cs@);
            }
            out
        },
        VersionSpace::Join(o, args) => {
            if args.len() == 0 {
                let no_args: Vec<E> = Vec::new();
                let e = o.construct_exp(no_args.as_slice());
                let mut out: Vec<E> = Vec::new();
                out.push(e);
                proof {
                    assert(no_args@ =~= Seq::<E>::empty());
                    assert(out@ =~= seq![o.apply_spec(Seq::empty())]);
                }
                out
            } else {
                let ghost tv = table@;
                let mut factors: Vec<Vec<E>> = Vec::new();
                let mut i: usize = 0;
                while i < args.len()
                    invariant
                        0 <= i <= args@.len(),
                        table.ordered(),
                        bound <= tv.len(),
                        tv == table@,
                        n@ == NodeView::<O, E>::Join(*o, args@),
                        node_ok(n@, bound, tv.len() as nat),
                        views_of(factors@) == expand_args(tv, args@.take(i as int), bound),
                    decreases args@.len() - i,
                {
                    let c = args[i];
                    proof {
                        assert(children(n@)[i as int] == args@[i as int]);
                        assert(args@.take(i as int + 1).drop_last() =~= args@.take(i as int));
                        assert(args@.take(i as int + 1).last() == args@[i as int]);
                    }
                    match table.get(c) {
                        Some(child) => {
                            proof {
                                assert((c as nat) < bound);
                                assert forall|k: int|
                                    0 <= k < children(child@).len() implies (#[trigger] children(
                                    child@,
                                )[k] as nat) < c as nat || (children(child@)[k] as nat)
                                    >= tv.len() as nat by {
                                    assert((children(tv[c as int])[k] as int) < c as int);
                                }
                            }
                            let sub = expand_node(table, child, Ghost(c as nat));
                            let f = dedup_exec(&sub);
                            factors.push(f);
                        },
                        None => {
                            proof {
                                assert((c as nat) >= bound);
                            }
                            factors.push(Vec::new());
                        },
                    }
                    proof {
                        assert(views_of(factors@) =~= expand_args(tv, args@.take(i as int + 1), bound));
                    }
                    i += 1;
                }
                proof {
                    assert(args@.take(args@.len() as int) =~= args@);
                }
                let tuples = cross_exec(&factors);
                let ghost spec_res = cross(expand_args(tv, args@, bound)).map_values(
                    |t: Seq<E>| o.apply_spec(t),
                );
                let mut out: Vec<E> = Vec::new();
                let mut j: usize = 0;
                while j < tuples.len()
                    invariant
                        0 <= j <= tuples@.len(),
                        views_of(tuples@) == cross(expand_args(tv, args@, bound)),
                        spec_res == cross(expand_args(tv, args@, bound)).map_values(
                            |t: Seq<E>| o.apply_spec(t),
                        ),
                        n@ == NodeView::<O, E>::Join(*o, args@),
                        out@ == spec_res.take(j as int),
                    decreases tuples@.len() - j,
                {
                    let e = o.construct_exp(tuples[j].as_slice());
                    out.push(e);
                    proof {
                        assert(views_of(tuples@)[j as int] == tuples@[j as int]@);
                        assert(spec_res[j as int] == o.apply_spec(tuples@[j as int]@));
                        assert(out@ =~= spec_res.take(j as int + 1));
                    }
                    j += 1;
                }
                proof {
                    assert(spec_res.take(spec_res.len() as int) =~= spec_res);
                }
                out
            }
        },
    }
}

impl<O: Opt<E>, E: Exp> VersionSpace<O, E> {
    /// Enumerates the expressions this node denotes against `table`.
    ///
    /// Union children are concatenated without cross-child deduplication;
    /// Join arguments are deduplicated locally and crossed positionally; a
    /// dangling handle contributes nothing. The table must be acyclic
    /// (every stored node references only earlier handles).
    pub fn to_exprs(&self, table: &VersionTable<O, E>) -> (r: Vec<E>)
        requires
            table.ordered(),
        ensures
            r@ == expand(table@, self@, table@.len() as nat),
    {
        let ghost bound = table@.len() as nat;
        proof {
            assert forall|i: int| 0 <= i < children(self@).len() implies (#[trigger] children(
                self@,
            )[i] as nat) < bound || (children(self@)[i] as nat) >= table@.len() as nat by {}
        }
        expand_node(table, self, Ghost(bound))
    }
}

} // verus!
