//! A version space algebra: a DAG-shaped, interned representation of large
//! sets of candidate expressions, with expansion into concrete expressions
//! and intersection of two version spaces.

use vstd::prelude::*;

pub mod expand;
pub mod intersect;
pub mod laws;
pub mod table;

pub use intersect::Unsupported;
pub use table::VersionTable;

verus! {

/// Capability contract for concrete expression values. The algebra never
/// inspects an expression; it only compares and copies them.
pub trait Exp: Sized {
    /// Decides equality of two expressions; `r` holds exactly when the two
    /// values are equal.
    fn eq_exp(&self, other: &Self) -> (r: bool)
        ensures
            r == (*self == *other),
    ;

    /// Produces a copy equal to `self`.
    fn clone_exp(&self) -> (r: Self)
        ensures
            r == *self,
    ;
}

impl Exp for i64 {
    fn eq_exp(&self, other: &Self) -> (r: bool) {
        *self == *other
    }

    fn clone_exp(&self) -> (r: Self) {
        *self
    }
}

impl Exp for bool {
    fn eq_exp(&self, other: &Self) -> (r: bool) {
        *self == *other
    }

    fn clone_exp(&self) -> (r: Self) {
        *self
    }
}

/// Capability contract for operators: a named construction rule that builds
/// one expression from an ordered list of argument expressions.
pub trait Opt<E>: Sized {
    /// The mathematical meaning of applying this operator to a list of
    /// argument expressions.
    spec fn apply_spec(&self, args: Seq<E>) -> E;

    /// Decides equality of two operators.
    fn eq_opt(&self, other: &Self) -> (r: bool)
        ensures
            r == (*self == *other),
    ;

    /// Produces a copy equal to `self`.
    fn clone_opt(&self) -> (r: Self)
        ensures
            r == *self,
    ;

    /// Applies the operator; the result is exactly `apply_spec` of the
    /// argument list.
    fn construct_exp(&self, args: &[E]) -> (r: E)
        ensures
            r == self.apply_spec(args@),
    ;
}

/// A version-space node. Children are referenced through handles (indices)
/// into the owning `VersionTable`, which is how the structure stays a DAG.
#[derive(PartialEq, Eq)]
pub enum VersionSpace<O, E> {
    /// Denotes the empty set of expressions.
    Empty,
    /// Denotes the one-element set holding exactly this expression.
    VS(E),
    /// Denotes the union of the children's sets. The order of the children
    /// is part of the node's identity: two unions over the same handles in
    /// different orders intern to different handles.
    Union(Vec<usize>),
    /// Denotes the set of results of applying the operator to every
    /// positional combination of the arguments' sets.
    Join(O, Vec<usize>),
}

/// The mathematical model of a node: the same four variants over `Seq`.
pub enum NodeView<O, E> {
    Empty,
    Single(E),
    Union(Seq<usize>),
    Join(O, Seq<usize>),
}

impl<O, E> View for VersionSpace<O, E> {
    type V = NodeView<O, E>;

    open spec fn view(&self) -> NodeView<O, E> {
        match self {
            VersionSpace::Empty => NodeView::Empty,
            VersionSpace::VS(e) => NodeView::Single(*e),
            VersionSpace::Union(cs) => NodeView::Union(cs@),
            VersionSpace::Join(o, args) => NodeView::Join(*o, args@),
        }
    }
}

/// The child handles a node refers to; leaves have none.
pub open spec fn children<O, E>(n: NodeView<O, E>) -> Seq<usize> {
    match n {
        NodeView::Empty => Seq::empty(),
        NodeView::Single(_) => Seq::empty(),
        NodeView::Union(cs) => cs,
        NodeView::Join(_, args) => args,
    }
}

/// The element-wise models of a list of nodes.
pub open spec fn node_views<O, E>(v: Seq<VersionSpace<O, E>>) -> Seq<NodeView<O, E>> {
    v.map_values(|n: VersionSpace<O, E>| n@)
}

/// Every child handle of `n` lies below `k`.
pub open spec fn node_closed<O, E>(n: NodeView<O, E>, k: nat) -> bool {
    forall|i: int| 0 <= i < children(n).len() ==> (#[trigger] children(n)[i] as nat) < k
}

} // verus!
