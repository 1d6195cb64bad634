use extension_table::b_field_element::BFieldElement;
use extension_table::base_table::{Table, TableLike};
use extension_table::challenges::AllChallenges;
use extension_table::decimal::{decimal, signed_decimal, two_digit_decimal};
use extension_table::degree_with_origin::{attach_origin, DegreeWithOrigin};
use extension_table::extension_table::{
    Evaluable, ExtensionTable, Quotientable, QuotientableExtensionTable, StoresConstraints,
};
use extension_table::fri_domain::FriDomain;
use extension_table::mpolynomial::{MPolynomial, Term};
use extension_table::quotients::check_interpolant_degrees;
use extension_table::table_collection::interpolant_degree;
use extension_table::x_field_element::XFieldElement;
use num_traits::One;
use twenty_first::shared_math::traits::{Inverse, ModPowU32};
use twenty_first::shared_math::x_field_element::XFieldElement as Reference;

const HEIGHT: usize = 4;
const OMEGA: u64 = 18446744069397807105;
const OMICRON: u64 = 281474976710656;

struct TestTable {
    table: Table,
}

impl TableLike for TestTable {
    fn inherited_table(&self) -> &Table {
        &self.table
    }
}

impl ExtensionTable for TestTable {
    fn placeholder_challenges(&self) -> AllChallenges {
        AllChallenges { weights: vec![XFieldElement::new([3, 0, 0])] }
    }

    fn dynamic_initial_constraints(&self, challenges: &AllChallenges) -> Vec<MPolynomial> {
        initial(challenges)
    }

    fn dynamic_consistency_constraints(&self, _challenges: &AllChallenges) -> Vec<MPolynomial> {
        consistency()
    }

    fn dynamic_transition_constraints(&self, _challenges: &AllChallenges) -> Vec<MPolynomial> {
        transition()
    }

    fn dynamic_terminal_constraints(&self, _challenges: &AllChallenges) -> Vec<MPolynomial> {
        terminal()
    }
}

impl StoresConstraints for TestTable {}

impl Quotientable for TestTable {}

impl QuotientableExtensionTable for TestTable {}

fn polynomial(variable_count: usize, terms: &[(&[u8], XFieldElement)]) -> MPolynomial {
    let terms = terms
        .iter()
        .map(|(exponents, coefficient)| Term {
            exponents: exponents.to_vec(),
            coefficient: *coefficient,
        })
        .collect();
    MPolynomial::new(variable_count, terms).unwrap()
}

fn number(n: u64) -> XFieldElement {
    XFieldElement::new([n, 0, 0])
}

// weight * a - b and a^2
fn initial(challenges: &AllChallenges) -> Vec<MPolynomial> {
    vec![
        polynomial(
            2,
            &[(&[1, 0], challenges.weights[0]), (&[0, 1], number(18446744069414584320))],
        ),
        polynomial(2, &[(&[2, 0], number(1))]),
    ]
}

// a^2 * b + 5
fn consistency() -> Vec<MPolynomial> {
    vec![polynomial(2, &[(&[2, 1], number(1)), (&[0, 0], number(5))])]
}

// a' + 2 * b and b' * a
fn transition() -> Vec<MPolynomial> {
    vec![
        polynomial(4, &[(&[0, 0, 1, 0], number(1)), (&[0, 1, 0, 0], number(2))]),
        polynomial(4, &[(&[1, 0, 0, 1], number(1))]),
    ]
}

// b
fn terminal() -> Vec<MPolynomial> {
    vec![polynomial(2, &[(&[0, 1], number(1))])]
}

fn challenges() -> AllChallenges {
    AllChallenges { weights: vec![number(3)] }
}

fn table() -> TestTable {
    TestTable {
        table: Table {
            name: "TestTable".to_string(),
            full_width: 2,
            initial_constraints: Some(initial(&challenges())),
            consistency_constraints: Some(consistency()),
            transition_constraints: Some(transition()),
            terminal_constraints: Some(terminal()),
            initial_quotient_degree_bounds: None,
            consistency_quotient_degree_bounds: None,
            transition_quotient_degree_bounds: None,
            terminal_quotient_degree_bounds: None,
        },
    }
}

fn domain() -> FriDomain {
    FriDomain { offset: BFieldElement::new(7), omega: BFieldElement::new(OMEGA), length: 8 }
}

fn rows() -> Vec<Vec<XFieldElement>> {
    (0..8u64).map(|i| vec![XFieldElement::new([i + 1, i, 2]), number(10 * i + 3)]).collect()
}

fn reference(x: &XFieldElement) -> Reference {
    Reference::new_u64(x.coefficients())
}

fn row(j: usize) -> (Reference, Reference) {
    let rows = rows();
    (reference(&rows[j][0]), reference(&rows[j][1]))
}

fn constant(n: u64) -> Reference {
    Reference::new_u64([n, 0, 0])
}

fn values() -> Vec<Reference> {
    domain().domain_values().iter().map(reference).collect()
}

#[test]
fn constraints_are_evaluated_at_a_row() {
    let table = table();
    let point = vec![number(4), number(9)];
    let next = vec![number(20), number(30)];
    let challenges = challenges();
    let evaluated = table.evaluate_initial_constraints(&point, &challenges);
    assert_eq!(vec![number(3), number(16)], evaluated);
    let evaluated = table.evaluate_consistency_constraints(&point, &challenges);
    assert_eq!(vec![number(149)], evaluated);
    let evaluated = table.evaluate_transition_constraints(&point, &next, &challenges);
    assert_eq!(vec![number(38), number(120)], evaluated);
    let evaluated = table.evaluate_terminal_constraints(&point, &challenges);
    assert_eq!(vec![number(9)], evaluated);
}

#[test]
fn names_and_widths_come_from_the_inherited_table() {
    assert_eq!("TestTable", table().name());
    assert_eq!(2, table().full_width());
}

#[test]
fn initial_quotients_times_zerofier_are_the_constraints() {
    let quotients = table().initial_quotients(&domain(), &rows(), &challenges());
    assert_eq!(2, quotients.len());
    for j in 0..8 {
        let (a, b) = row(j);
        let zerofier = values()[j] - Reference::one();
        assert_eq!(constant(3) * a - b, reference(&quotients[0][j]) * zerofier);
        assert_eq!(a * a, reference(&quotients[1][j]) * zerofier);
    }
}

#[test]
fn consistency_quotients_times_zerofier_are_the_constraints() {
    let quotients = table().consistency_quotients(&domain(), &rows(), &challenges(), HEIGHT);
    assert_eq!(1, quotients.len());
    assert_eq!(8, quotients[0].len());
    for j in 0..8 {
        let (a, b) = row(j);
        let zerofier = values()[j].mod_pow_u32(4) - Reference::one();
        assert_eq!(a * a * b + constant(5), reference(&quotients[0][j]) * zerofier);
    }
}

#[test]
fn transition_quotients_relate_a_row_to_its_successor() {
    let quotients =
        table().transition_quotients(&domain(), &rows(), &challenges(), number(OMICRON), HEIGHT);
    assert_eq!(2, quotients.len());
    for j in 0..8 {
        let (a, b) = row(j);
        let (next_a, next_b) = row((j + 2) % 8);
        let zerofier = values()[j].mod_pow_u32(4) - Reference::one();
        let numerator = values()[j] - constant(OMICRON).inverse();
        assert_eq!(
            (next_a + constant(2) * b) * numerator,
            reference(&quotients[0][j]) * zerofier
        );
        assert_eq!(next_b * a * numerator, reference(&quotients[1][j]) * zerofier);
    }
}

#[test]
fn the_successor_is_one_step_of_the_trace_further_on() {
    let values = values();
    for j in 0..8 {
        assert_eq!(values[(j + 2) & 7], constant(OMICRON) * values[j]);
    }
}

#[test]
fn terminal_quotients_times_zerofier_are_the_constraints() {
    let quotients = table().terminal_quotients(&domain(), &rows(), &challenges(), number(OMICRON));
    assert_eq!(1, quotients.len());
    for j in 0..8 {
        let (_, b) = row(j);
        let zerofier = values()[j] - constant(OMICRON).inverse();
        assert_eq!(b, reference(&quotients[0][j]) * zerofier);
    }
}

#[test]
fn a_quotient_vanishes_where_its_constraint_holds() {
    let mut rows = rows();
    rows[3] = vec![number(2), number(6)];
    let quotients = table().initial_quotients(&domain(), &rows, &challenges());
    assert!(quotients[0][3].is_zero());
    assert!(!quotients[0][4].is_zero());
    assert!(!quotients[1][3].is_zero());
}

#[test]
fn all_quotients_come_in_order() {
    let table = table();
    let omicron = number(OMICRON);
    let all = table.all_quotients(&domain(), rows(), &challenges(), omicron, HEIGHT);
    let expected = vec![
        table.initial_quotients(&domain(), &rows(), &challenges()),
        table.consistency_quotients(&domain(), &rows(), &challenges(), HEIGHT),
        table.transition_quotients(&domain(), &rows(), &challenges(), omicron, HEIGHT),
        table.terminal_quotients(&domain(), &rows(), &challenges(), omicron),
    ]
    .concat();
    assert_eq!(6, all.len());
    assert!(all.iter().all(|codeword| codeword.len() == 8));
    assert_eq!(expected, all);
}

#[test]
fn a_table_without_constraints_has_no_quotients() {
    let mut table = table();
    table.table.initial_constraints = Some(vec![]);
    assert!(table.initial_quotients(&domain(), &rows(), &challenges()).is_empty());
}

#[test]
fn degree_check_accepts_codewords_of_low_degree() {
    let constants = vec![number(12); 8];
    let zeros = vec![number(0); 8];
    // the codeword of the polynomial x^6
    let powers: Vec<XFieldElement> = values()
        .iter()
        .map(|x| XFieldElement::new(x.mod_pow_u32(6).coefficients.map(|c| c.value())))
        .collect();
    let codewords = vec![constants, zeros, powers];
    assert_eq!(Ok(()), table().debug_fri_domain_bound_check(&domain(), &codewords, "initial"));
    assert_eq!(Ok(()), table().debug_fri_domain_bound_check(&domain(), &[], "initial"));
}

#[test]
fn degree_check_reports_the_first_codeword_of_maximal_degree() {
    let constants = vec![number(12); 8];
    let mut spike = vec![number(0); 8];
    spike[2] = number(1);
    let codewords = vec![constants, spike.clone(), spike];
    assert_eq!(
        Err("Degree of transition quotient index 1 (total 3 quotients) in TestTable must not be \
             maximal. Got degree 7, and FRI domain length was 8."
            .to_string()),
        table().debug_fri_domain_bound_check(&domain(), &codewords, "transition")
    );
}

#[test]
fn degree_check_compares_each_degree_to_the_length() {
    assert_eq!(Ok(()), check_interpolant_degrees(&vec![-1, 0, 6], "terminal", "T", 8));
    assert_eq!(
        Err("Degree of terminal quotient index 2 (total 4 quotients) in T must not be maximal. \
             Got degree 7, and FRI domain length was 8."
            .to_string()),
        check_interpolant_degrees(&vec![6, -1, 7, 8], "terminal", "T", 8)
    );
    assert_eq!(
        Err("Degree of terminal quotient index 0 (total 1 quotients) in T must not be maximal. \
             Got degree -1, and FRI domain length was 0."
            .to_string()),
        check_interpolant_degrees(&vec![-1], "terminal", "T", 0)
    );
}

#[test]
fn the_interpolant_degree_is_one_less_than_the_number_of_points() {
    assert_eq!(5, interpolant_degree(4, 2));
    assert_eq!(0, interpolant_degree(1, 0));
    assert_eq!(9, interpolant_degree(0, 10));
}

#[test]
fn degree_bounds_follow_from_the_constraints() {
    let table = table();
    // interpolants have degree 4 + 2 - 1 == 5
    assert_eq!(vec![4, 9], table.get_initial_quotient_degree_bounds(HEIGHT, 2));
    assert_eq!(vec![11], table.get_consistency_quotient_degree_bounds(HEIGHT, 2));
    assert_eq!(vec![2, 7], table.get_transition_quotient_degree_bounds(HEIGHT, 2));
    assert_eq!(vec![4], table.get_terminal_quotient_degree_bounds(HEIGHT, 2));
    assert_eq!(vec![4, 9, 11, 2, 7, 4], table.get_all_quotient_degree_bounds(HEIGHT, 2));
}

#[test]
fn degree_bounds_that_are_set_are_taken_as_they_are() {
    let mut table = table();
    table.table.initial_quotient_degree_bounds = Some(vec![1, -3]);
    table.table.consistency_quotient_degree_bounds = Some(vec![]);
    table.table.transition_quotient_degree_bounds = Some(vec![8]);
    table.table.terminal_quotient_degree_bounds = Some(vec![9]);
    assert_eq!(vec![1, -3], table.get_initial_quotient_degree_bounds(0, 0));
    assert_eq!(vec![1, -3, 8, 9], table.get_all_quotient_degree_bounds(0, 0));
    let degrees = table.all_degrees_with_origin(0, 0);
    assert_eq!(4, degrees.len());
    assert_eq!(-1, degrees[2].zerofier_degree);
}

#[test]
fn the_zero_constraint_and_terms_without_coefficient_do_not_count() {
    let mut terms = vec![(vec![7u8, 0u8], number(0)), (vec![0, 0], number(4))];
    let constant = polynomial(2, &[(&terms[0].0, terms[0].1), (&terms[1].0, terms[1].1)]);
    terms.pop();
    let zero = polynomial(2, &[(&terms[0].0, terms[0].1)]);
    let bounds =
        extension_table::degree_bounds::compute_bounds(&vec![constant, zero], 2, 5, 1);
    assert_eq!(vec![-1, -2], bounds);
}

#[test]
fn all_degrees_carry_their_origin() {
    let table = table();
    let degrees = table.all_degrees_with_origin(HEIGHT, 2);
    let kinds: Vec<_> = degrees
        .iter()
        .map(|d| (d.degree, d.zerofier_degree, d.origin_index, d.origin_constraint_type.as_str()))
        .collect();
    assert_eq!(
        vec![
            (4, 1, 0, "initial constraint"),
            (9, 1, 1, "initial constraint"),
            (11, 4, 0, "consistency constraint"),
            (2, 3, 0, "transition constraint"),
            (7, 3, 1, "transition constraint"),
            (4, 1, 0, "terminal constraint"),
        ],
        kinds
    );
    for degree in &degrees {
        assert_eq!("TestTable", degree.origin_table_name);
        assert_eq!(HEIGHT, degree.origin_table_height);
        assert_eq!(2, degree.origin_num_trace_randomizers);
    }
    let bounds: Vec<i64> = degrees.iter().map(|d| d.degree).collect();
    assert_eq!(bounds, table.get_all_quotient_degree_bounds(HEIGHT, 2));
}

#[test]
fn computed_degrees_describe_the_total_degree_of_the_constraint() {
    let described: Vec<String> =
        table().all_degrees_with_origin(HEIGHT, 2).iter().map(|d| d.to_string()).collect();
    assert_eq!(
        vec![
            "Degree of poly for table TestTable (index 00) of type initial constraint is 1.",
            "Degree of poly for table TestTable (index 01) of type initial constraint is 2.",
            "Degree of poly for table TestTable (index 00) of type consistency constraint is 3.",
            "Degree of poly for table TestTable (index 00) of type transition constraint is 1.",
            "Degree of poly for table TestTable (index 01) of type transition constraint is 2.",
            "Degree of poly for table TestTable (index 00) of type terminal constraint is 1.",
        ],
        described
    );
}

#[test]
fn descriptions_pad_the_index_and_keep_the_sign() {
    let degree = DegreeWithOrigin {
        degree: -21,
        zerofier_degree: 6,
        origin_table_name: "Op".to_string(),
        origin_index: 123,
        origin_table_height: 4,
        origin_num_trace_randomizers: 2,
        origin_constraint_type: "odd".to_string(),
    };
    assert_eq!("Degree of poly for table Op (index 123) of type odd is -3.", degree.to_string());
}

#[test]
fn the_default_degree_has_no_origin() {
    let expected = DegreeWithOrigin {
        degree: -1,
        zerofier_degree: -1,
        origin_table_name: "NoTable".to_string(),
        origin_index: usize::MAX,
        origin_table_height: 0,
        origin_num_trace_randomizers: 0,
        origin_constraint_type: "NoType".to_string(),
    };
    assert_eq!(expected, DegreeWithOrigin::default());
}

#[test]
fn degrees_are_ordered_by_degree_first() {
    let degrees = attach_origin(&vec![3, -2, 3], 1, "T", 4, 2, "kind");
    assert_eq!(Some(&degrees[2]), degrees.iter().max());
    assert_eq!(Some(&degrees[1]), degrees.iter().min());
}

#[test]
fn numbers_are_written_in_decimal() {
    assert_eq!("0", decimal(0));
    assert_eq!("10", decimal(10));
    assert_eq!("18446744073709551615", decimal(u64::MAX));
    assert_eq!("-9223372036854775808", signed_decimal(i64::MIN));
    assert_eq!("-7", signed_decimal(-7));
    assert_eq!("42", signed_decimal(42));
    assert_eq!("00", two_digit_decimal(0));
    assert_eq!("09", two_digit_decimal(9));
    assert_eq!("10", two_digit_decimal(10));
    assert_eq!("456", two_digit_decimal(456));
}
