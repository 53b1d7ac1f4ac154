use linicrypt::Direction::{B, F};
use linicrypt::Operation::E;
use linicrypt::{
    generate_all_schemes, linicrypt_to_lines, row_string, scheme_to_lines, AlgebraicRepresentation,
    CollisionStructure, SchemeType, SingleQueryScheme,
};

#[test]
fn all_single_query_schemes_in_order() {
    let schemes = generate_all_schemes();
    assert_eq!(schemes.len(), 64);
    assert_eq!(
        schemes[0],
        SingleQueryScheme {
            m: [0, 0, 1],
            k: [0, 0, 0],
            x: [0, 0, 0],
            y: [0, 0, 1]
        }
    );
    assert_eq!(schemes[1].x, [0, 1, 0]);
    assert_eq!(schemes[27].m, [0, 1, 1]);
    assert_eq!(schemes[27].k, [1, 0, 0]);
    assert_eq!(schemes[27].x, [1, 1, 0]);
    assert_eq!(schemes[63].m, [1, 1, 1]);
    assert_eq!(schemes[63].k, [1, 1, 0]);
    assert_eq!(schemes[63].x, [1, 1, 0]);
    assert!(schemes.iter().all(|s| s.y == [0, 0, 1]));
}

#[test]
fn single_query_scheme_kinds() {
    let schemes = generate_all_schemes();
    assert_eq!(schemes[0].collision_structure_type(), SchemeType::Degenerate);
    assert_eq!(schemes[22].collision_structure_type(), SchemeType::B);
    assert_eq!(schemes[24].collision_structure_type(), SchemeType::A);
    assert_eq!(schemes[27].collision_structure_type(), SchemeType::Secure);
    let count = |t: SchemeType| schemes.iter().filter(|s| s.collision_structure_type() == t).count();
    assert_eq!(count(SchemeType::Degenerate), 28);
    assert_eq!(count(SchemeType::A), 12);
    assert_eq!(count(SchemeType::B), 12);
    assert_eq!(count(SchemeType::Secure), 12);
}

#[test]
fn scheme_lines() {
    let schemes = generate_all_schemes();
    assert_eq!(scheme_to_lines(&schemes[27]), vec!["M=011", "k=100", "x=110", "y=001", "Secure"]);
    assert_eq!(scheme_to_lines(&schemes[0]), vec!["M=001", "k=000", "x=000", "y=001", "Degenerate"]);
    assert_eq!(SchemeType::A.to_string(), "A");
}

#[test]
fn program_lines() {
    let p = AlgebraicRepresentation::<5, 2, 1>::new(
        [0, 1, 0, 0, 1],
        [
            (E, [1, 0, 0, 0, 0], [0, 0, 1, 0, 0], [0, 0, 0, 1, 0]),
            (E, [0, 0, 1, 1, 0], [0, 1, 0, 0, 0], [0, 0, 0, 0, 1]),
        ],
    );
    assert_eq!(
        linicrypt_to_lines(&p),
        vec![" M=01001", "0k=10000", "0x=00100", "0y=00010", "1k=00110", "1x=01000", "1y=00001"]
    );
    assert_eq!(row_string(&[2u8, 10, 0]), "2100");
}

#[test]
fn well_formed_structures() {
    assert!(CollisionStructure::<2, 2> {
        permutation: [1, 0],
        cs_type: [F, B]
    }
    .is_well_formed());
    assert!(CollisionStructure::<2, 1> {
        permutation: [0, 1],
        cs_type: [B]
    }
    .is_well_formed());
    assert!(!CollisionStructure::<2, 2> {
        permutation: [1, 1],
        cs_type: [F, B]
    }
    .is_well_formed());
    assert!(!CollisionStructure::<2, 1> {
        permutation: [0, 2],
        cs_type: [F]
    }
    .is_well_formed());
    assert!(!CollisionStructure::<2, 0> {
        permutation: [0, 1],
        cs_type: []
    }
    .is_well_formed());
}
