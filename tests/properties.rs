use linicrypt::Direction::{B, F};
use linicrypt::Operation::E;
use linicrypt::{
    decimal_string, is_in_span, is_rank_deficient, AlgebraicRepresentation, CollisionStructure, Direction, Operation,
    PrimeField,
};

fn field() -> PrimeField {
    PrimeField::new(2147483647).unwrap()
}

fn bench_program() -> AlgebraicRepresentation<5, 2, 1> {
    AlgebraicRepresentation::new(
        [0, 0, 0, 0, 1],
        [
            (E, [1, 0, 1, 0, 0], [1, 0, 0, 0, 0], [0, 0, 0, 1, 0]),
            (E, [0, 1, 0, 0, 0], [0, 0, 0, 1, 0], [0, 0, 0, 0, 1]),
        ],
    )
}

#[test]
fn prime_field_accepts_primes_only() {
    assert_eq!(PrimeField::new(2).unwrap().order(), 2);
    assert_eq!(PrimeField::new(65521).unwrap().order(), 65521);
    assert_eq!(PrimeField::new(4294967291).unwrap().order(), 4294967291);
    assert!(PrimeField::new(0).is_none());
    assert!(PrimeField::new(1).is_none());
    assert!(PrimeField::new(65535).is_none());
    assert!(PrimeField::new(4294967296).is_none());
    assert!(PrimeField::new(4294967311).is_none());
}

#[test]
fn span_membership_is_exact() {
    let f = field();
    let rows = [[1u8, 1, 0], [0, 1, 1]];
    assert!(is_in_span(&f, &[1, 2, 1], &rows));
    assert!(is_in_span(&f, &[1, 0, 255], &rows) == false);
    assert!(is_in_span(&f, &[1, 0, 1], &rows) == false);
    assert!(is_in_span(&f, &[0, 0, 0], &[]));
    assert!(!is_in_span(&f, &[0, 0, 1], &[]));
    // over GF(2), 110 + 011 == 101
    let two = PrimeField::new(2).unwrap();
    assert!(is_in_span(&two, &[1, 0, 1], &rows));
}

#[test]
fn span_unchanged_by_a_member() {
    let f = field();
    let rows = vec![[1u8, 0, 1, 0], [0, 1, 1, 0]];
    let member = [1u8, 1, 0, 0];
    assert!(!is_in_span(&f, &member, &rows));
    let outside = [0u8, 0, 1, 0];
    let member = [1u8, 1, 2, 0];
    assert!(is_in_span(&f, &member, &rows));
    let mut grown = rows.clone();
    grown.push(member);
    for v in [[0u8, 0, 1, 0], [0, 0, 0, 1], [2, 1, 3, 0], [1, 0, 1, 0]] {
        assert_eq!(is_in_span(&f, &v, &grown), is_in_span(&f, &v, &rows));
    }
    let mut bigger = rows.clone();
    bigger.push(outside);
    assert!(is_in_span(&f, &[0, 0, 1, 0], &bigger));
    assert!(!is_in_span(&f, &[0, 0, 1, 0], &rows));
}

#[test]
fn adding_rows_keeps_membership() {
    let f = field();
    let rows = vec![[1u8, 1, 0], [0, 0, 1]];
    assert!(is_in_span(&f, &[2, 2, 1], &rows));
    let more = vec![[0u8, 1, 1], [1, 1, 0], [0, 0, 1]];
    assert!(is_in_span(&f, &[2, 2, 1], &more));
}

#[test]
fn rank_deficiency() {
    let f = field();
    assert!(!is_rank_deficient(&f, &[[1u8, 0, 0], [0, 1, 0]]));
    assert!(is_rank_deficient(&f, &[[1u8, 1, 0], [2, 2, 0]]));
    assert!(is_rank_deficient(&f, &[[0u8, 0, 0]]));
    assert!(!is_rank_deficient::<3>(&f, &[]));
    assert!(!is_rank_deficient(&f, &[[1u8, 0], [0, 1], [1, 1]]));
    assert!(is_rank_deficient(&f, &[[1u8, 0, 0], [0, 1, 0], [1, 1, 0], [1, 0, 0]]));
}

#[test]
fn degenerate_program_is_flagged() {
    // the output row repeats the query's output: the wire space is not used fully
    let p = AlgebraicRepresentation::<3, 1, 1>::new([0, 0, 1], [(E, [1, 0, 0], [1, 0, 0], [0, 0, 1])]);
    assert!(p.is_degenerate(&field()));
    let q = AlgebraicRepresentation::<3, 1, 1>::new([0, 1, 1], [(E, [1, 0, 0], [0, 1, 0], [0, 0, 1])]);
    assert!(!q.is_degenerate(&field()));
}

#[test]
fn feasible_structure_is_found() {
    let cs = CollisionStructure::<2, 2> {
        permutation: [1, 0],
        cs_type: [B, B],
    };
    assert!(bench_program().has_cs(&cs, &field()));
}

#[test]
fn star_check_rejects_when_both_sides_are_shared() {
    // query 0 agrees; query 1 reads only wires that query 0 and the output fix
    let p = AlgebraicRepresentation::<3, 2, 1>::new(
        [0, 0, 1],
        [(E, [1, 0, 0], [0, 1, 0], [0, 0, 1]), (E, [1, 0, 0], [0, 1, 0], [0, 0, 1])],
    );
    let cs = CollisionStructure::<2, 1> {
        permutation: [0, 1],
        cs_type: [F],
    };
    assert!(!p.has_cs(&cs, &field()));
}

#[test]
fn same_and_different_cover_all_queries() {
    let cs = CollisionStructure::<3, 2> {
        permutation: [2, 0, 1],
        cs_type: [B, F],
    };
    let same = cs.same();
    let different = cs.different();
    assert_eq!(same.len() + different.len(), 3);
    let mut seen = vec![false; 3];
    for i in same.iter().copied().chain(different.iter().map(|d| d.0)) {
        assert!(!seen[i]);
        seen[i] = true;
    }
    assert!(seen.iter().all(|s| *s));
    assert_eq!(cs.i_star(), (0, B));
    assert_eq!(cs.directions(), &[B, F]);
}

#[test]
fn swapping_differing_queries_can_change_the_verdict() {
    let p = AlgebraicRepresentation::<5, 2, 1>::new(
        [0, 0, 1, 0, 1],
        [
            (E, [1, 1, 1, 0, 0], [1, 0, 1, 1, 0], [1, 1, 0, 0, 1]),
            (E, [0, 0, 0, 0, 1], [0, 1, 0, 0, 1], [1, 0, 1, 0, 0]),
        ],
    );
    let cs = CollisionStructure::<2, 2> {
        permutation: [0, 1],
        cs_type: [B, F],
    };
    let swapped = CollisionStructure::<2, 2> {
        permutation: [1, 0],
        cs_type: [F, B],
    };
    assert!(!p.has_cs(&cs, &field()));
    assert!(p.has_cs(&swapped, &field()));
}

#[test]
fn ids_render_permutation_split_and_directions() {
    let cs = CollisionStructure::<2, 2> {
        permutation: [0, 1],
        cs_type: [F, B],
    };
    assert_eq!(cs.id(), "01,0,FB");
    let cs = CollisionStructure::<2, 1> {
        permutation: [1, 0],
        cs_type: [B],
    };
    assert_eq!(cs.id(), "10,1,B");
    let cs = CollisionStructure::<12, 1> {
        permutation: [11, 0, 1, 2, 3, 4, 5, 6, 7, 8, 9, 10],
        cs_type: [F],
    };
    assert_eq!(cs.id(), "11012345678910,11,F");
    assert_eq!(F.to_string(), "F");
    assert_eq!(B.to_string(), "B");
    assert_eq!(decimal_string(0), "0");
    assert_eq!(decimal_string(907), "907");
}

#[test]
fn new_keeps_rows_in_order() {
    let p = bench_program();
    assert_eq!(p.m, [[0, 0, 0, 0, 1]]);
    assert_eq!(p.constraints[0].k, [1, 0, 1, 0, 0]);
    assert_eq!(p.constraints[1].x, [0, 0, 0, 1, 0]);
    assert_eq!(p.constraints[1].y, [0, 0, 0, 0, 1]);
    assert_eq!(p.constraints[1].op, E);
}
