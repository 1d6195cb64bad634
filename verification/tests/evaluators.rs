use extension_table::b_field_element::BFieldElement;
use extension_table::base_table::{Table, TableLike};
use extension_table::challenges::AllChallenges;
use extension_table::extension_table::{Evaluable, ExtensionTable, Quotientable};
use extension_table::fri_domain::FriDomain;
use extension_table::mpolynomial::{MPolynomial, Term};
use extension_table::quotients::join;
use extension_table::x_field_element::XFieldElement;
use num_traits::One;
use twenty_first::shared_math::traits::{Inverse, ModPowU32};
use twenty_first::shared_math::x_field_element::XFieldElement as Reference;

const HEIGHT: usize = 4;
const OMICRON: u64 = 281474976710656;

/// A table that evaluates its constraints by code of its own, and stores none.
struct Generated {
    table: Table,
}

impl TableLike for Generated {
    fn inherited_table(&self) -> &Table {
        &self.table
    }
}

fn linear_combination(variable_count: usize, weights: &[XFieldElement]) -> Vec<MPolynomial> {
    let terms = weights
        .iter()
        .enumerate()
        .map(|(i, weight)| {
            let mut exponents = vec![0; variable_count];
            exponents[i] = 1;
            Term { exponents, coefficient: *weight }
        })
        .collect();
    vec![MPolynomial::new(variable_count, terms).unwrap()]
}

impl ExtensionTable for Generated {
    fn placeholder_challenges(&self) -> AllChallenges {
        AllChallenges { weights: vec![number(1), number(1)] }
    }

    fn dynamic_initial_constraints(&self, challenges: &AllChallenges) -> Vec<MPolynomial> {
        linear_combination(2, &challenges.weights)
    }

    fn dynamic_consistency_constraints(&self, _challenges: &AllChallenges) -> Vec<MPolynomial> {
        vec![]
    }

    fn dynamic_transition_constraints(&self, challenges: &AllChallenges) -> Vec<MPolynomial> {
        linear_combination(4, &[challenges.weights[0], number(0), challenges.weights[1]])
    }

    fn dynamic_terminal_constraints(&self, challenges: &AllChallenges) -> Vec<MPolynomial> {
        linear_combination(2, &challenges.weights[..1])
    }
}

impl Evaluable for Generated {
    fn evaluate_initial_constraints(
        &self,
        evaluation_point: &[XFieldElement],
        challenges: &AllChallenges,
    ) -> Vec<XFieldElement> {
        let weights = references(&challenges.weights);
        let point = references(evaluation_point);
        vec![element(weights[0] * point[0] + weights[1] * point[1])]
    }

    fn evaluate_consistency_constraints(
        &self,
        _evaluation_point: &[XFieldElement],
        _challenges: &AllChallenges,
    ) -> Vec<XFieldElement> {
        vec![]
    }

    fn evaluate_transition_constraints(
        &self,
        current_row: &[XFieldElement],
        next_row: &[XFieldElement],
        challenges: &AllChallenges,
    ) -> Vec<XFieldElement> {
        let weights = references(&challenges.weights);
        let (current, next) = (references(current_row), references(next_row));
        vec![element(weights[0] * current[0] + weights[1] * next[0])]
    }

    fn evaluate_terminal_constraints(
        &self,
        evaluation_point: &[XFieldElement],
        challenges: &AllChallenges,
    ) -> Vec<XFieldElement> {
        let weights = references(&challenges.weights);
        vec![element(weights[0] * references(evaluation_point)[0])]
    }
}

impl Quotientable for Generated {}

fn table() -> Generated {
    Generated {
        table: Table {
            name: "Generated".to_string(),
            full_width: 2,
            initial_constraints: None,
            consistency_constraints: None,
            transition_constraints: None,
            terminal_constraints: None,
            initial_quotient_degree_bounds: None,
            consistency_quotient_degree_bounds: None,
            transition_quotient_degree_bounds: None,
            terminal_quotient_degree_bounds: None,
        },
    }
}

fn number(n: u64) -> XFieldElement {
    XFieldElement::new([n, 0, 0])
}

fn reference(x: &XFieldElement) -> Reference {
    Reference::new_u64(x.coefficients())
}

fn references(xs: &[XFieldElement]) -> Vec<Reference> {
    xs.iter().map(reference).collect()
}

fn element(x: Reference) -> XFieldElement {
    XFieldElement::new(x.coefficients.map(|c| c.value()))
}

fn domain() -> FriDomain {
    FriDomain {
        offset: BFieldElement::new(7),
        omega: BFieldElement::new(18446744069397807105),
        length: 8,
    }
}

fn rows() -> Vec<Vec<XFieldElement>> {
    (0..8u64).map(|i| vec![XFieldElement::new([i, 4, i * i]), number(3 * i + 1)]).collect()
}

#[test]
fn quotients_are_those_of_the_given_challenges() {
    let omicron = number(OMICRON);
    let last = reference(&omicron).inverse();
    for weights in [[number(3), number(11)], [XFieldElement::new([0, 1, 2]), number(5)]] {
        let challenges = AllChallenges { weights: weights.to_vec() };
        let w = references(&weights);
        let quotients = table().all_quotients(&domain(), rows(), &challenges, omicron, HEIGHT);
        assert_eq!(3, quotients.len());
        for (j, x) in domain().domain_values().iter().enumerate() {
            let x = reference(x);
            let row = references(&rows()[j]);
            let next = references(&rows()[(j + 2) % 8]);
            let rest = x.mod_pow_u32(4) - Reference::one();
            assert_eq!(
                w[0] * row[0] + w[1] * row[1],
                reference(&quotients[0][j]) * (x - Reference::one())
            );
            assert_eq!(
                (w[0] * row[0] + w[1] * next[0]) * (x - last),
                reference(&quotients[1][j]) * rest
            );
            assert_eq!(w[0] * row[0], reference(&quotients[2][j]) * (x - last));
        }
    }
}

#[test]
fn degree_bounds_come_from_the_constraints_for_the_placeholder_challenges() {
    // interpolants have degree 4 + 2 - 1 == 5
    assert_eq!(vec![4, 2, 4], table().get_all_quotient_degree_bounds(HEIGHT, 2));
}

#[test]
fn degree_check_accepts_an_empty_list_over_any_domain() {
    let domain =
        FriDomain { offset: BFieldElement::new(0), omega: BFieldElement::new(0), length: 3 };
    assert_eq!(Ok(()), table().debug_fri_domain_bound_check(&domain, &[], "initial"));
}

#[test]
fn joined_quotients_keep_the_order_of_their_kinds() {
    let codeword = |n: u64| vec![number(n); 2];
    let joined = join(
        vec![codeword(1)],
        vec![],
        vec![codeword(2), codeword(3)],
        vec![codeword(4)],
    );
    assert_eq!(vec![codeword(1), codeword(2), codeword(3), codeword(4)], joined);
}
