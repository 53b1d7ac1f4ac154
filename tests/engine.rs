use linicrypt::Direction::{B, F};
use linicrypt::Operation::E;
use linicrypt::{AlgebraicRepresentation, CollisionStructure, Direction, Operation, PrimeField};

fn field() -> PrimeField {
    PrimeField::new(2147483647).unwrap()
}

#[test]
fn check_cs_split() {

    let cs0 = CollisionStructure::<2, 2> {
        permutation: [0, 1],
        cs_type: [F, B],
    };
    assert_eq!(cs0.same(), &[]);
    let mut different = cs0.different().into_iter();
    assert_eq!(different.next(), Some((0, F)));
    assert_eq!(different.next(), Some((1, B)));
    assert_eq!(different.next(), None);

    let cs1 = CollisionStructure::<2, 1> {
        permutation: [0, 1],
        cs_type: [B],
    };
    assert_eq!(cs1.same(), &[0]);
    let mut different = cs1.different().into_iter();
    assert_eq!(different.next(), Some((1, B)));
    assert_eq!(different.next(), None);

    let cs1 = CollisionStructure::<2, 1> {
        permutation: [1, 0],
        cs_type: [F],
    };
    assert_eq!(cs1.same(), &[1]);
    let mut different = cs1.different().into_iter();
    assert_eq!(different.next(), Some((0, F)));
    assert_eq!(different.next(), None);
}

#[test]
fn check_linicrypt_3_2_1_cs_1() {

    let cs = CollisionStructure::<2, 2> {
        permutation: [0, 1],
        cs_type: [B, F],
    };
    let p = AlgebraicRepresentation::<5, 2, 1>::new(
        [0, 1, 0, 0, 1],
        [
            (E, [1, 0, 0, 0, 0], [0, 0, 1, 0, 0], [0, 0, 0, 1, 0]),
            (E, [0, 0, 1, 1, 0], [0, 1, 0, 0, 0], [0, 0, 0, 0, 1]),
        ],
    );

    assert!(!p.has_cs(&cs, &field()));
}

#[test]
fn check_linicrypt_3_2_1_cs_2() {

    let cs = CollisionStructure::<2, 2> {
        permutation: [0, 1],
        cs_type: [B, F],
    };
    let p = AlgebraicRepresentation::<5, 2, 1>::new(
        [0, 0, 1, 0, 1],
        [
            (E, [0, 1, 0, 0, 0], [1, 0, 0, 0, 0], [0, 0, 0, 1, 0]),
            (E, [1, 1, 1, 1, 0], [0, 1, 0, 1, 0], [0, 0, 0, 0, 1]),
        ],
    );

    assert!(!p.has_cs(&cs, &field()));
}

#[test]
fn check_linicrypt_3_2_1_cs_3() {

    let cs = CollisionStructure::<2, 2> {
        permutation: [0, 1],
        cs_type: [F, B],
    };
    let p = AlgebraicRepresentation::<5, 2, 1>::new(
        [0, 0, 0, 0, 1],
        [
            (E, [0, 0, 1, 0, 0], [0, 1, 0, 0, 0], [0, 0, 0, 1, 0]),
            (E, [1, 1, 1, 0, 0], [0, 1, 0, 1, 0], [0, 0, 0, 0, 1]),
        ],
    );

    assert!(!p.has_cs(&cs, &field()));
}
