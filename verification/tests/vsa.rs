use vsa_rs::{Opt, Unsupported, VersionSpace, VersionTable};

#[derive(Debug, Clone, Eq, PartialEq, Hash)]
enum Op {
    Neg,
    Plus,
    Zero,
}

impl Opt<i64> for Op {
    // ghost member of the trait; it exists only for specifications and is
    // never called at run time
    fn apply_spec(&self, _args: vstd::seq::Seq<i64>) -> i64 {
        panic!()
    }

    fn eq_opt(&self, other: &Self) -> bool {
        self == other
    }

    fn clone_opt(&self) -> Self {
        self.clone()
    }

    fn construct_exp(&self, args: &[i64]) -> i64 {
        match self {
            Op::Neg => -args[0],
            Op::Plus => args[0] + args[1],
            Op::Zero => 0,
        }
    }
}

#[test]
fn intersection_with_empty() {
    let mut table: VersionTable<Op, i64> = VersionTable::new();
    assert!(
        VersionSpace::Empty.intersection(&VersionSpace::Empty, &mut table)
            == Ok(VersionSpace::Empty)
    );

    assert!(
        VersionSpace::Empty.intersection(&VersionSpace::VS(1), &mut table)
            == Ok(VersionSpace::Empty)
    );

    assert!(
        VersionSpace::VS(1).intersection(&VersionSpace::Empty, &mut table)
            == Ok(VersionSpace::Empty)
    );

    let one = table.add(VersionSpace::VS(1));

    assert!(
        VersionSpace::Empty.intersection(&VersionSpace::Union(vec![one]), &mut table)
            == Ok(VersionSpace::Empty)
    );

    assert!(
        VersionSpace::Union(vec![one]).intersection(&VersionSpace::Empty, &mut table)
            == Ok(VersionSpace::Empty)
    );

    assert!(
        VersionSpace::Empty.intersection(&VersionSpace::Join(Op::Neg, vec![one]), &mut table)
            == Ok(VersionSpace::Empty)
    );
}

#[test]
fn interning_is_idempotent() {
    let mut table: VersionTable<Op, i64> = VersionTable::new();
    assert_eq!(table.len(), 0);
    let h1 = table.add(VersionSpace::VS(7));
    assert_eq!(table.len(), 1);
    let h2 = table.add(VersionSpace::VS(7));
    assert_eq!(h1, h2);
    assert_eq!(table.len(), 1);
}

#[test]
fn structural_sharing_keeps_one_child() {
    let mut table: VersionTable<Op, i64> = VersionTable::new();
    let child = table.add(VersionSpace::VS(5));
    let before = table.len();
    let p1 = table.add(VersionSpace::Union(vec![child]));
    let p2 = table.add(VersionSpace::Join(Op::Neg, vec![child]));
    assert_ne!(p1, p2);
    assert_eq!(table.len(), before + 2);
    assert_eq!(table.add(VersionSpace::VS(5)), child);
}

#[test]
fn union_order_is_part_of_identity() {
    let mut table: VersionTable<Op, i64> = VersionTable::new();
    let h1 = table.add(VersionSpace::VS(1));
    let h2 = table.add(VersionSpace::VS(2));
    let u12 = table.add(VersionSpace::Union(vec![h1, h2]));
    let u21 = table.add(VersionSpace::Union(vec![h2, h1]));
    assert_ne!(u12, u21);
}

#[test]
fn empty_absorbs_everything() {
    let mut table: VersionTable<Op, i64> = VersionTable::new();
    let h1 = table.add(VersionSpace::VS(1));
    let h2 = table.add(VersionSpace::VS(2));
    let cases: Vec<VersionSpace<Op, i64>> = vec![
        VersionSpace::Empty,
        VersionSpace::VS(3),
        VersionSpace::Union(vec![h1, h2]),
        VersionSpace::Join(Op::Plus, vec![h1, h2]),
    ];
    for x in cases {
        assert!(VersionSpace::Empty.intersection(&x, &mut table) == Ok(VersionSpace::Empty));
        assert!(x.intersection(&VersionSpace::Empty, &mut table) == Ok(VersionSpace::Empty));
    }
}

#[test]
fn singleton_equality_law() {
    let mut table: VersionTable<Op, i64> = VersionTable::new();
    assert!(
        VersionSpace::VS(4).intersection(&VersionSpace::VS(4), &mut table)
            == Ok(VersionSpace::VS(4))
    );
    assert!(
        VersionSpace::VS(4).intersection(&VersionSpace::VS(5), &mut table)
            == Ok(VersionSpace::Empty)
    );
}

#[test]
fn singleton_equality_law_bool() {
    let mut table: VersionTable<Op2Bool, bool> = VersionTable::new();
    assert!(
        VersionSpace::VS(true).intersection(&VersionSpace::VS(true), &mut table)
            == Ok(VersionSpace::VS(true))
    );
    assert!(
        VersionSpace::VS(true).intersection(&VersionSpace::VS(false), &mut table)
            == Ok(VersionSpace::Empty)
    );
}

#[derive(Debug, Clone, Eq, PartialEq, Hash)]
enum Op2Bool {
    Not,
}

impl Opt<bool> for Op2Bool {
    // ghost member of the trait; never called at run time
    fn apply_spec(&self, _args: vstd::seq::Seq<bool>) -> bool {
        panic!()
    }

    fn eq_opt(&self, other: &Self) -> bool {
        self == other
    }

    fn clone_opt(&self) -> Self {
        self.clone()
    }

    fn construct_exp(&self, args: &[bool]) -> bool {
        match self {
            Op2Bool::Not => !args[0],
        }
    }
}

#[test]
fn singleton_distributes_over_union() {
    let mut table: VersionTable<Op, i64> = VersionTable::new();
    let h1 = table.add(VersionSpace::VS(1));
    let h2 = table.add(VersionSpace::VS(2));
    let union = VersionSpace::Union(vec![h1, h2]);
    assert!(
        VersionSpace::VS(1).intersection(&union, &mut table)
            == Ok(VersionSpace::Union(vec![h1]))
    );
    assert!(
        union.intersection(&VersionSpace::VS(2), &mut table)
            == Ok(VersionSpace::Union(vec![h2]))
    );
    assert!(VersionSpace::VS(3).intersection(&union, &mut table) == Ok(VersionSpace::Empty));
}

#[test]
fn join_same_operator_distributes_positionally() {
    let mut table: VersionTable<Op, i64> = VersionTable::new();
    let h1 = table.add(VersionSpace::VS(1));
    let h2 = table.add(VersionSpace::VS(2));
    let h3 = table.add(VersionSpace::VS(3));
    let ja = VersionSpace::Join(Op::Plus, vec![h1, h2]);
    let jb = VersionSpace::Join(Op::Plus, vec![h1, h2]);
    assert!(ja.intersection(&jb, &mut table) == Ok(VersionSpace::Join(Op::Plus, vec![h1, h2])));
    let jc = VersionSpace::Join(Op::Plus, vec![h1, h3]);
    assert!(ja.intersection(&jc, &mut table) == Ok(VersionSpace::Empty));
}

#[test]
fn join_zips_to_the_shorter_argument_list() {
    let mut table: VersionTable<Op, i64> = VersionTable::new();
    let h1 = table.add(VersionSpace::VS(1));
    let h2 = table.add(VersionSpace::VS(2));
    let long = VersionSpace::Join(Op::Plus, vec![h1, h2]);
    let short = VersionSpace::Join(Op::Plus, vec![h1]);
    assert!(long.intersection(&short, &mut table) == Ok(VersionSpace::Join(Op::Plus, vec![h1])));
}

#[test]
fn join_operator_mismatch_is_empty() {
    let mut table: VersionTable<Op, i64> = VersionTable::new();
    let h1 = table.add(VersionSpace::VS(1));
    let ja = VersionSpace::Join(Op::Neg, vec![h1]);
    let jb = VersionSpace::Join(Op::Plus, vec![h1]);
    assert!(ja.intersection(&jb, &mut table) == Ok(VersionSpace::Empty));
}

#[test]
fn singleton_against_join_is_empty() {
    let mut table: VersionTable<Op, i64> = VersionTable::new();
    let h1 = table.add(VersionSpace::VS(1));
    let join = VersionSpace::Join(Op::Neg, vec![h1]);
    assert!(VersionSpace::VS(-1).intersection(&join, &mut table) == Ok(VersionSpace::Empty));
    assert!(join.intersection(&VersionSpace::VS(-1), &mut table) == Ok(VersionSpace::Empty));
}

#[test]
fn unsupported_combinations_are_signalled() {
    let mut table: VersionTable<Op, i64> = VersionTable::new();
    let h1 = table.add(VersionSpace::VS(1));
    let u = VersionSpace::Union(vec![h1]);
    let j = VersionSpace::Join(Op::Neg, vec![h1]);
    assert!(u.intersection(&u, &mut table) == Err(Unsupported));
    assert!(u.intersection(&j, &mut table) == Err(Unsupported));
    assert!(j.intersection(&u, &mut table) == Err(Unsupported));
}

#[test]
fn zero_arity_join_expands_to_one_construction() {
    let table: VersionTable<Op, i64> = VersionTable::new();
    let j = VersionSpace::Join(Op::Zero, vec![]);
    assert_eq!(j.to_exprs(&table), vec![0]);
}

#[test]
fn join_expansion_is_the_cross_product() {
    let mut table: VersionTable<Op, i64> = VersionTable::new();
    let h1 = table.add(VersionSpace::VS(1));
    let h2 = table.add(VersionSpace::VS(2));
    let h3 = table.add(VersionSpace::VS(3));
    let ua = table.add(VersionSpace::Union(vec![h1, h2, h1]));
    let ub = table.add(VersionSpace::Union(vec![h2, h3]));
    let j = VersionSpace::Join(Op::Plus, vec![ua, ub]);
    // the left factor dedups to [1, 2], the right to [2, 3]: 2 * 2 results
    assert_eq!(j.to_exprs(&table), vec![3, 4, 4, 5]);
}

#[test]
fn union_expansion_keeps_duplicates() {
    let mut table: VersionTable<Op, i64> = VersionTable::new();
    let h1 = table.add(VersionSpace::VS(1));
    let u = VersionSpace::Union(vec![h1, h1]);
    assert_eq!(u.to_exprs(&table), vec![1, 1]);
}

#[test]
fn end_to_end_scenario() {
    let mut table: VersionTable<Op, i64> = VersionTable::new();
    let one = table.add(VersionSpace::VS(1));
    let zero = table.add(VersionSpace::VS(0));
    let sum = table.add(VersionSpace::Join(Op::Plus, vec![one, zero]));
    let sum_node = table.get(sum).expect("sum interned");
    assert_eq!(sum_node.to_exprs(&table), vec![1]);
    let u = table.add(VersionSpace::Union(vec![sum, one]));
    let u_node = table.get(u).expect("union interned");
    assert_eq!(u_node.to_exprs(&table), vec![1, 1]);
}

#[test]
fn dangling_handles_expand_to_nothing() {
    let mut table: VersionTable<Op, i64> = VersionTable::new();
    let h1 = table.add(VersionSpace::VS(1));
    let u = VersionSpace::Union(vec![99, h1]);
    assert_eq!(u.to_exprs(&table), vec![1]);
    let j = VersionSpace::Join(Op::Plus, vec![99, h1]);
    assert_eq!(j.to_exprs(&table), Vec::<i64>::new());
}

#[test]
fn default_table_is_empty() {
    let table: VersionTable<Op, i64> = Default::default();
    assert_eq!(table.len(), 0);
    assert!(table.get(0).is_none());
}

#[test]
fn get_misses_out_of_range() {
    let mut table: VersionTable<Op, i64> = VersionTable::new();
    assert!(table.get(0).is_none());
    let h1 = table.add(VersionSpace::VS(1));
    assert!(table.get(h1).is_some());
    assert!(table.get(99).is_none());
}

#[test]
fn handles_and_edges_enumerate_the_graph() {
    let mut table: VersionTable<Op, i64> = VersionTable::new();
    assert_eq!(table.handles(), Vec::<usize>::new());
    assert_eq!(table.edges(), Vec::<(usize, usize)>::new());
    let h1 = table.add(VersionSpace::VS(1));
    let h2 = table.add(VersionSpace::VS(2));
    let u = table.add(VersionSpace::Union(vec![h1, h2]));
    let j = table.add(VersionSpace::Join(Op::Plus, vec![h2, h1]));
    assert_eq!(table.handles(), vec![0, 1, 2, 3]);
    assert_eq!(table.edges(), vec![(u, h1), (u, h2), (j, h2), (j, h1)]);
}

#[test]
fn nested_union_distribution_interns_a_new_node() {
    let mut table: VersionTable<Op, i64> = VersionTable::new();
    let h1 = table.add(VersionSpace::VS(1));
    let h2 = table.add(VersionSpace::VS(2));
    let u12 = table.add(VersionSpace::Union(vec![h1, h2]));
    let before = table.len();
    let outer = VersionSpace::Union(vec![u12]);
    let result = VersionSpace::VS(1).intersection(&outer, &mut table);
    // the nested union narrows to Union([h1]), a node not seen before
    let narrowed = before;
    assert!(result == Ok(VersionSpace::Union(vec![narrowed])));
    assert_eq!(table.len(), before + 1);
    assert!(table.get(narrowed) == Some(&VersionSpace::Union(vec![h1])));
}

#[test]
fn unsupported_combination_surfaces_from_join_arguments() {
    let mut table: VersionTable<Op, i64> = VersionTable::new();
    let h1 = table.add(VersionSpace::VS(1));
    let h2 = table.add(VersionSpace::VS(2));
    let ua = table.add(VersionSpace::Union(vec![h1]));
    let ub = table.add(VersionSpace::Union(vec![h2]));
    let ja = VersionSpace::Join(Op::Plus, vec![ua]);
    let jb = VersionSpace::Join(Op::Plus, vec![ub]);
    assert!(ja.intersection(&jb, &mut table) == Err(Unsupported));
}

#[test]
fn intersection_interns_new_subnodes() {
    let mut table: VersionTable<Op, i64> = VersionTable::new();
    let h1 = table.add(VersionSpace::VS(1));
    let h2 = table.add(VersionSpace::VS(2));
    let before = table.len();
    let union = VersionSpace::Union(vec![h1, h2]);
    // the surviving child is already interned, so nothing grows
    assert!(
        VersionSpace::VS(1).intersection(&union, &mut table)
            == Ok(VersionSpace::Union(vec![h1]))
    );
    assert_eq!(table.len(), before);
}
