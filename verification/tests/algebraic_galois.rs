use symmetrica::algebraic::galois::{
    extension_degree, galois_group_cbrt2, galois_group_cyclotomic, galois_group_gaussian,
    galois_group_quadratic, is_galois_extension, is_prime, FieldAutomorphism, GaloisGroup,
};



#[test]
fn test_identity_automorphism() {
    let id = FieldAutomorphism::identity();
    assert_eq!(id.name, "id");
    assert_eq!(id.order, 1);
}

#[test]
fn test_galois_group_quadratic() {
    let g = galois_group_quadratic(2);
    assert_eq!(g.order, 2);
    assert!(g.is_galois);
    assert_eq!(g.elements.len(), 2);
}

#[test]
fn test_galois_group_gaussian() {
    let g = galois_group_gaussian();
    assert_eq!(g.order, 2);
    assert!(g.is_galois);
    assert!(g.is_cyclic());
    assert!(g.is_abelian());
}

#[test]
fn test_galois_group_cyclotomic() {
    // Gal(Q(ζ_3)/Q) has order φ(3) = 2
    let g3 = galois_group_cyclotomic(3);
    assert_eq!(g3.order, 2);
    assert!(g3.is_galois);

    // Gal(Q(ζ_4)/Q) has order φ(4) = 2
    let g4 = galois_group_cyclotomic(4);
    assert_eq!(g4.order, 2);
    assert!(g4.is_galois);

    // Gal(Q(ζ_5)/Q) has order φ(5) = 4
    let g5 = galois_group_cyclotomic(5);
    assert_eq!(g5.order, 4);
    assert!(g5.is_galois);
}

#[test]
fn test_galois_group_cbrt2() {
    let g = galois_group_cbrt2();
    assert_eq!(g.order, 1);
    assert!(!g.is_galois); // Q(∛2)/Q is not Galois
}

#[test]
fn test_is_galois_extension() {
    assert!(is_galois_extension(2, true, true));
    assert!(!is_galois_extension(2, false, true));
    assert!(!is_galois_extension(2, true, false));
}

#[test]
fn test_extension_degree() {
    // [Q(√2, √3) : Q] = [Q(√2, √3) : Q(√2)] * [Q(√2) : Q] = 2 * 2 = 4
    assert_eq!(extension_degree(2, 2), 4);

    // [Q(ζ_5) : Q] = φ(5) = 4
    assert_eq!(extension_degree(1, 4), 4);
}

#[test]
fn test_trivial_galois_group() {
    let g = GaloisGroup::trivial();
    assert_eq!(g.order, 1);
    assert!(g.is_galois);
    assert!(g.is_cyclic());
}

#[test]
fn test_is_prime() {
    assert!(!is_prime(0));
    assert!(!is_prime(1));
    assert!(is_prime(2));
    assert!(is_prime(3));
    assert!(!is_prime(4));
    assert!(is_prime(5));
    assert!(is_prime(7));
    assert!(!is_prime(9));
    assert!(is_prime(11));
}


#[test]
fn cyclotomic_groups_are_cyclic_exactly_when_a_generator_exists() {
    let g5 = galois_group_cyclotomic(5);
    assert_eq!(g5.order, 4);
    assert!(g5.is_cyclic());
    // (Z/8Z)* is Z/2 x Z/2
    let g8 = galois_group_cyclotomic(8);
    assert_eq!(g8.order, 4);
    assert!(!g8.is_cyclic());
    let g7 = galois_group_cyclotomic(7);
    assert!(g7.is_cyclic());
}

#[test]
fn abelian_is_decided_by_order() {
    let g7 = galois_group_cyclotomic(7);
    assert_eq!(g7.order, 6);
    assert!(g7.is_cyclic());
    let g8 = galois_group_cyclotomic(8);
    assert_eq!(g8.order, 4);
    assert!(g8.is_abelian());
}
