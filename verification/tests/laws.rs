use extension_table::b_field_element::BFieldElement;
use extension_table::base_table::{Table, TableLike};
use extension_table::challenges::AllChallenges;
use extension_table::extension_table::{
    ExtensionTable, Quotientable, QuotientableExtensionTable, StoresConstraints,
};
use extension_table::fri_domain::FriDomain;
use extension_table::mpolynomial::{MPolynomial, Term};
use extension_table::x_field_element::XFieldElement;
use num_traits::One;
use twenty_first::shared_math::b_field_element::BFieldElement as ReferenceBase;
use twenty_first::shared_math::polynomial::Polynomial;
use twenty_first::shared_math::traits::PrimitiveRootOfUnity;
use twenty_first::shared_math::x_field_element::XFieldElement as Reference;

const HEIGHT: usize = 4;
const LENGTH: usize = 16;
const MINUS_ONE: u64 = 18446744069414584320;

/// A column that doubles from row to row, and one that holds its squares.
struct Powers {
    table: Table,
}

impl TableLike for Powers {
    fn inherited_table(&self) -> &Table {
        &self.table
    }
}

impl ExtensionTable for Powers {
    fn placeholder_challenges(&self) -> AllChallenges {
        AllChallenges { weights: vec![] }
    }

    fn dynamic_initial_constraints(&self, _challenges: &AllChallenges) -> Vec<MPolynomial> {
        starts_at_one()
    }

    fn dynamic_consistency_constraints(&self, _challenges: &AllChallenges) -> Vec<MPolynomial> {
        holds_squares()
    }

    fn dynamic_transition_constraints(&self, _challenges: &AllChallenges) -> Vec<MPolynomial> {
        doubles()
    }

    fn dynamic_terminal_constraints(&self, _challenges: &AllChallenges) -> Vec<MPolynomial> {
        ends_at_eight()
    }
}

impl StoresConstraints for Powers {}

impl Quotientable for Powers {}

impl QuotientableExtensionTable for Powers {}

fn polynomial(variable_count: usize, terms: &[(&[u8], u64)]) -> MPolynomial {
    let terms = terms
        .iter()
        .map(|(exponents, coefficient)| Term {
            exponents: exponents.to_vec(),
            coefficient: XFieldElement::new([*coefficient, 0, 0]),
        })
        .collect();
    MPolynomial::new(variable_count, terms).unwrap()
}

fn starts_at_one() -> Vec<MPolynomial> {
    vec![polynomial(2, &[(&[1, 0], 1), (&[0, 0], MINUS_ONE)])]
}

fn holds_squares() -> Vec<MPolynomial> {
    vec![polynomial(2, &[(&[0, 1], 1), (&[2, 0], MINUS_ONE)])]
}

fn doubles() -> Vec<MPolynomial> {
    vec![polynomial(4, &[(&[0, 0, 1, 0], 1), (&[1, 0, 0, 0], MINUS_ONE - 1)])]
}

fn ends_at_eight() -> Vec<MPolynomial> {
    vec![polynomial(2, &[(&[1, 0], 1), (&[0, 0], MINUS_ONE - 7)])]
}

fn table() -> Powers {
    Powers {
        table: Table {
            name: "Powers".to_string(),
            full_width: 2,
            initial_constraints: Some(starts_at_one()),
            consistency_constraints: Some(holds_squares()),
            transition_constraints: Some(doubles()),
            terminal_constraints: Some(ends_at_eight()),
            initial_quotient_degree_bounds: None,
            consistency_quotient_degree_bounds: None,
            transition_quotient_degree_bounds: None,
            terminal_quotient_degree_bounds: None,
        },
    }
}

fn omega() -> ReferenceBase {
    ReferenceBase::primitive_root_of_unity(LENGTH as u64).unwrap()
}

fn offset() -> ReferenceBase {
    ReferenceBase::new(7)
}

fn domain() -> FriDomain {
    FriDomain {
        offset: BFieldElement::new(offset().value()),
        omega: BFieldElement::new(omega().value()),
        length: LENGTH,
    }
}

fn omicron() -> ReferenceBase {
    omega().mod_pow((LENGTH / HEIGHT) as u64)
}

fn values() -> Vec<Reference> {
    domain().domain_values().iter().map(|x| Reference::new_u64(x.coefficients())).collect()
}

fn element(x: Reference) -> XFieldElement {
    XFieldElement::new(x.coefficients.map(|c| c.value()))
}

fn column(trace: [u64; 4]) -> Polynomial<Reference> {
    let points: Vec<Reference> = trace.iter().map(|n| Reference::new_u64([*n, 0, 0])).collect();
    Polynomial::fast_coset_interpolate(&ReferenceBase::one(), omicron(), &points)
}

fn rows(trace: [u64; 4]) -> Vec<Vec<XFieldElement>> {
    let a = column(trace);
    let b = column(trace.map(|n| n * n));
    values().iter().map(|x| vec![element(a.evaluate(x)), element(b.evaluate(x))]).collect()
}

fn all_quotients(trace: [u64; 4]) -> Vec<Vec<XFieldElement>> {
    let challenges = AllChallenges { weights: vec![] };
    let omicron = XFieldElement::new([omicron().value(), 0, 0]);
    table().all_quotients(&domain(), rows(trace), &challenges, omicron, HEIGHT)
}

fn interpolant(codeword: &[XFieldElement]) -> Polynomial<Reference> {
    let codeword: Vec<Reference> =
        codeword.iter().map(|x| Reference::new_u64(x.coefficients())).collect();
    Polynomial::fast_coset_interpolate(&offset(), omega(), &codeword)
}

#[test]
fn quotients_of_a_valid_trace_keep_the_degree_bounds() {
    let quotients = all_quotients([1, 2, 4, 8]);
    let bounds = table().get_all_quotient_degree_bounds(HEIGHT, 0);
    assert_eq!(vec![2, 2, 0, 2], bounds);
    assert_eq!(bounds.len(), quotients.len());
    for (quotient, bound) in quotients.iter().zip(bounds) {
        assert!(interpolant(quotient).degree() as i64 <= bound);
    }
    let outcome = table().debug_fri_domain_bound_check(&domain(), &quotients, "any");
    assert_eq!(Ok(()), outcome);
}

#[test]
fn quotients_of_a_valid_trace_are_the_values_of_quotient_polynomials() {
    let trace = [1, 2, 4, 8];
    let quotients = all_quotients(trace);
    let one = Reference::one();
    let constraint = column(trace) - Polynomial::new(vec![one]);
    let zerofier = Polynomial::new(vec![-one, one]);
    let (quotient, remainder) = constraint.divide(zerofier);
    assert_eq!(-1, remainder.degree());
    for (x, value) in values().iter().zip(&quotients[0]) {
        assert_eq!(element(quotient.evaluate(x)), *value);
    }
}

#[test]
fn transition_quotients_of_a_valid_trace_are_the_values_of_quotient_polynomials() {
    let trace = [1, 2, 4, 8];
    let quotients = all_quotients(trace);
    let one = Reference::one();
    let two = Reference::new_u64([2, 0, 0]);
    let a = column(trace);
    let next = a.scale(&omicron());
    let constraint = next - a * Polynomial::new(vec![two]);
    let last_row = Reference::new_const(omicron().mod_pow(3));
    let dividend = constraint * Polynomial::new(vec![-last_row, one]);
    let zero = one - one;
    let zerofier = Polynomial::new(vec![-one, zero, zero, zero, one]);
    let (quotient, remainder) = dividend.divide(zerofier);
    assert_eq!(-1, remainder.degree());
    for (x, value) in values().iter().zip(&quotients[2]) {
        assert_eq!(element(quotient.evaluate(x)), *value);
    }
}

#[test]
fn quotients_of_an_invalid_trace_have_maximal_degree() {
    let quotients = all_quotients([1, 2, 4, 9]);
    let good = &quotients[..2];
    let bad = &quotients[2..];
    assert_eq!(Ok(()), table().debug_fri_domain_bound_check(&domain(), good, "clean"));
    assert_eq!(
        Err("Degree of unclean quotient index 0 (total 2 quotients) in Powers must not be \
             maximal. Got degree 15, and FRI domain length was 16."
            .to_string()),
        table().debug_fri_domain_bound_check(&domain(), bad, "unclean")
    );
}

#[test]
fn a_transition_quotient_vanishes_where_its_constraint_holds() {
    let challenges = AllChallenges { weights: vec![] };
    let omicron = XFieldElement::new([omicron().value(), 0, 0]);
    let number = |n: u64| XFieldElement::new([n, 0, 0]);
    let mut rows = vec![vec![number(5), number(0)]; LENGTH];
    rows[14] = vec![number(3), number(0)];
    rows[2] = vec![number(6), number(0)];
    let quotients = table().transition_quotients(&domain(), &rows, &challenges, omicron, HEIGHT);
    for j in 0..LENGTH {
        // the successor of row 14 is row 2
        assert_eq!(j == 14, quotients[0][j].is_zero());
    }
}
