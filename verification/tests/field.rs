use extension_table::b_field_element::BFieldElement;
use extension_table::degree_bounds::{can_compute_bounds, compute_bounds};
use extension_table::fri_domain::FriDomain;
use extension_table::mpolynomial::{MPolynomial, Term};
use extension_table::quotients::{
    consistency_zerofier_inverse, evaluate_all, initial_zerofier_inverse, scale_all,
    terminal_zerofier_inverse, transition_zerofier_inverse,
};
use extension_table::x_field_element::XFieldElement;
use num_traits::One;
use twenty_first::shared_math::traits::{Inverse, ModPowU32};
use twenty_first::shared_math::x_field_element::XFieldElement as Reference;

const P: u64 = 0xffff_ffff_0000_0001;

fn reference(x: &XFieldElement) -> Reference {
    Reference::new_u64(x.coefficients())
}

fn coefficients(x: Reference) -> [u64; 3] {
    x.coefficients.map(|c| c.value())
}

fn domain() -> FriDomain {
    FriDomain {
        offset: BFieldElement::new(7),
        omega: BFieldElement::new(18446744069397807105),
        length: 8,
    }
}

fn polynomial(variable_count: usize, terms: &[(&[u8], [u64; 3])]) -> MPolynomial {
    let terms = terms
        .iter()
        .map(|(exponents, coefficient)| Term {
            exponents: exponents.to_vec(),
            coefficient: XFieldElement::new(*coefficient),
        })
        .collect();
    MPolynomial::new(variable_count, terms).unwrap()
}

#[test]
fn new_reduces_every_coefficient() {
    assert_eq!([0, 6, P - 1], XFieldElement::new([P, P + 6, P - 1]).coefficients());
    assert!(XFieldElement::new([P, 0, P]).is_zero());
    assert!(!XFieldElement::new([0, 1, 0]).is_zero());
    assert_eq!([1, 0, 0], XFieldElement::one().coefficients());
    assert_eq!(3, BFieldElement::new(P + 3).value());
    assert_eq!([3, 0, 0], BFieldElement::new(3).lift().coefficients());
}

#[test]
fn batch_inversion_inverts_each_element_in_place() {
    let input = vec![
        XFieldElement::new([2, 0, 0]),
        XFieldElement::new([0, 1, 0]),
        XFieldElement::new([17, 4, 99]),
    ];
    let inverses = XFieldElement::batch_inversion(&input);
    assert_eq!(3, inverses.len());
    assert_eq!([9223372034707292161, 0, 0], inverses[0].coefficients());
    // x * (1 - x^2) == x - x^3 == 1
    assert_eq!([1, 0, P - 1], inverses[1].coefficients());
    assert_eq!(Reference::one(), reference(&inverses[2]) * reference(&input[2]));
    assert!(XFieldElement::batch_inversion(&vec![]).is_empty());
}

#[test]
fn products_are_taken_modulo_the_field_polynomial() {
    let x = XFieldElement::new([0, 1, 0]);
    let x_squared = XFieldElement::new([0, 0, 1]);
    let scaled = scale_all(&vec![x, x_squared, XFieldElement::new([5, 0, 0])], &x_squared);
    // x^3 == x - 1, x^4 == x^2 - x
    assert_eq!([P - 1, 1, 0], scaled[0].coefficients());
    assert_eq!([0, P - 1, 1], scaled[1].coefficients());
    assert_eq!([0, 0, 5], scaled[2].coefficients());
}

#[test]
fn domain_values_are_a_coset() {
    let values = domain().domain_values();
    assert_eq!(8, values.len());
    assert_eq!([7, 0, 0], values[0].coefficients());
    let omega = Reference::new_u64([18446744069397807105, 0, 0]);
    for i in 0..7 {
        assert_eq!(reference(&values[i + 1]), reference(&values[i]) * omega);
    }
    assert_eq!(reference(&values[0]), reference(&values[7]) * omega);
}

#[test]
fn zerofier_inverses_cancel_the_zerofiers() {
    let domain = domain();
    let values = domain.domain_values();
    let omicron = XFieldElement::new([281474976710656, 0, 0]);
    let one = Reference::one();
    let initial = initial_zerofier_inverse(&domain);
    let consistency = consistency_zerofier_inverse(&domain, 4);
    let transition = transition_zerofier_inverse(&domain, 4, &omicron);
    let terminal = terminal_zerofier_inverse(&domain, &omicron);
    let last = reference(&omicron).inverse();
    for j in 0..8 {
        let x = reference(&values[j]);
        assert_eq!(one, reference(&initial[j]) * (x - one));
        assert_eq!(one, reference(&consistency[j]) * (x.mod_pow_u32(4) - one));
        assert_eq!(x - last, reference(&transition[j]) * (x.mod_pow_u32(4) - one));
        assert_eq!(one, reference(&terminal[j]) * (x - last));
    }
    // 7 - 1 == 6
    assert_eq!(coefficients(Reference::new_u64([6, 0, 0]).inverse()), initial[0].coefficients());
}

#[test]
fn the_inverse_of_zero_is_zero() {
    let domain = domain();
    let values = domain.domain_values();
    let terminal = terminal_zerofier_inverse(&domain, &XFieldElement::new([0, 0, 0]));
    for j in 0..8 {
        assert_eq!(Reference::one(), reference(&terminal[j]) * reference(&values[j]));
    }
}

#[test]
fn the_last_value_of_the_trace_domain_is_a_root_of_the_terminal_zerofier() {
    let omicron = Reference::new_u64([281474976710656, 0, 0]);
    assert_eq!(omicron.mod_pow_u32(3), omicron.inverse());
}

#[test]
fn evaluation_sums_all_terms() {
    let point = vec![XFieldElement::new([2, 0, 0]), XFieldElement::new([5, 0, 0])];
    let constraints = vec![
        polynomial(2, &[(&[1, 1], [3, 0, 0]), (&[0, 2], [1, 0, 0])]),
        polynomial(2, &[]),
        polynomial(2, &[(&[0, 0], [4, 0, 9])]),
        polynomial(2, &[(&[10, 0], [1, 1, 0]), (&[0, 0], [P - 24, 0, 0])]),
    ];
    let values = evaluate_all(&constraints, &point);
    assert_eq!(4, values.len());
    assert_eq!([55, 0, 0], values[0].coefficients());
    assert_eq!([0, 0, 0], values[1].coefficients());
    assert_eq!([4, 0, 9], values[2].coefficients());
    assert_eq!([1000, 1024, 0], values[3].coefficients());
}

#[test]
fn polynomials_have_matching_and_distinct_exponents() {
    let term = |exponents: &[u8]| Term {
        exponents: exponents.to_vec(),
        coefficient: XFieldElement::one(),
    };
    assert!(MPolynomial::new(2, vec![]).is_some());
    assert!(MPolynomial::new(2, vec![term(&[0, 1]), term(&[1, 0])]).is_some());
    assert!(MPolynomial::new(2, vec![term(&[0, 1]), term(&[1])]).is_none());
    assert!(MPolynomial::new(2, vec![term(&[0, 1]), term(&[1, 0]), term(&[0, 1])]).is_none());
    assert!(MPolynomial::new(0, vec![term(&[])]).is_some());
}

#[test]
fn interpolation_finds_the_polynomial_with_the_given_values() {
    let domain = domain();
    // 5 + 3 * x^2, at every value of the domain
    let codeword: Vec<XFieldElement> = domain
        .domain_values()
        .iter()
        .map(|x| {
            let x = reference(x);
            let value = Reference::new_u64([5, 0, 0]) + Reference::new_u64([3, 0, 0]) * x * x;
            XFieldElement::new(coefficients(value))
        })
        .collect();
    let mut expected = vec![XFieldElement::new([0, 0, 0]); domain.length];
    expected[0] = XFieldElement::new([5, 0, 0]);
    expected[2] = XFieldElement::new([3, 0, 0]);
    assert_eq!(expected, domain.interpolate(&codeword));
}

#[test]
fn the_order_of_terms_changes_neither_degree_bounds_nor_whether_they_can_be_computed() {
    let terms: [(&[u8], [u64; 3]); 3] =
        [(&[1, 2], [1, 0, 0]), (&[4, 0], [2, 0, 0]), (&[9, 9], [0, 0, 0])];
    let mut reversed = terms;
    reversed.reverse();
    let one_way = vec![polynomial(2, &terms)];
    let other_way = vec![polynomial(2, &reversed)];
    assert_eq!(vec![19], compute_bounds(&one_way, 2, 5, 1));
    assert_eq!(vec![19], compute_bounds(&other_way, 2, 5, 1));
    for constraints in [&one_way, &other_way] {
        assert!(can_compute_bounds(constraints, 2, i64::MAX / 4, 1));
        assert!(!can_compute_bounds(constraints, 2, i64::MAX / 4 + 1, 1));
        assert!(!can_compute_bounds(constraints, 2, i64::MAX / 4, -4));
        assert!(!can_compute_bounds(constraints, 3, 5, 1));
        assert!(!can_compute_bounds(constraints, 2, -1, 1));
        assert_eq!(2, constraints[0].variable_count());
    }
}
