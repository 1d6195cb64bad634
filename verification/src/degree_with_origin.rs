//! Degrees of quotients together with where they come from.
use crate::decimal;
use crate::mpolynomial::Degree;
use crate::table_collection;
use vstd::arithmetic::div_mod::*;
use vstd::arithmetic::mul::*;
use vstd::prelude::*;
use vstd::string::StringExecFns;

verus! {

/// The degree of a quotient, and the constraint that it stems from. Helps debugging and
/// benchmarking: the maximal degree in any table dictates the length of the FRI domain, which in
/// turn is the main bottleneck.
#[derive(Clone, PartialEq, Eq, PartialOrd, Ord, Debug)]
pub struct DegreeWithOrigin {
    pub degree: Degree,
    pub zerofier_degree: Degree,
    pub origin_table_name: String,
    pub origin_index: usize,
    pub origin_table_height: usize,
    pub origin_num_trace_randomizers: usize,
    pub origin_constraint_type: String,
}

/// What a [`DegreeWithOrigin`] holds.
pub struct OriginModel {
    pub degree: int,
    pub zerofier_degree: int,
    pub table_name: Seq<char>,
    pub index: int,
    pub table_height: usize,
    pub num_trace_randomizers: usize,
    pub constraint_type: Seq<char>,
}

impl View for DegreeWithOrigin {
    type V = OriginModel;

    open spec fn view(&self) -> OriginModel {
        OriginModel {
            degree: self.degree as int,
            zerofier_degree: self.zerofier_degree as int,
            table_name: self.origin_table_name@,
            index: self.origin_index as int,
            table_height: self.origin_table_height,
            num_trace_randomizers: self.origin_num_trace_randomizers,
            constraint_type: self.origin_constraint_type@,
        }
    }
}

impl OriginModel {
    /// The degree that the constraint has before the zerofier divides it.
    pub open spec fn corrected_degree(self) -> int {
        self.degree + self.zerofier_degree
    }

    /// The degree of the interpolants of the table's columns.
    pub open spec fn interpolant_degree(self) -> int {
        table_collection::spec_interpolant_degree(self.table_height, self.num_trace_randomizers)
    }

    /// The constraint's degree is a multiple of the degree of the columns' interpolants.
    pub open spec fn is_describable(self) -> bool {
        &&& table_collection::interpolant_degree_fits(self.table_height, self.num_trace_randomizers)
        &&& self.interpolant_degree() != 0
        &&& i64::MIN <= self.corrected_degree() <= i64::MAX
        &&& self.corrected_degree() % self.interpolant_degree() == 0
    }

    /// The text that describes the degree of the constraint in its variables.
    pub open spec fn description(self) -> Seq<char> {
        "Degree of poly for table "@ + self.table_name + " (index "@ + decimal::two_digits(
            self.index as nat,
        ) + ") of type "@ + self.constraint_type + " is "@ + decimal::signed_digits(
            self.corrected_degree() / self.interpolant_degree(),
        ) + "."@
    }
}

/// Division without a remainder rounds in no direction.
proof fn lemma_exact_division(n: int, d: int)
    requires
        d > 0,
        n % d == 0,
    ensures
        -((-n) / d) == n / d,
{
    lemma_fundamental_div_mod(n, d);
    lemma_mul_unary_negation(d, n / d);
    lemma_div_multiples_vanish(-(n / d), d);
}

impl Default for DegreeWithOrigin {
    fn default() -> (r: DegreeWithOrigin)
        ensures
            r.degree == -1,
            r.zerofier_degree == -1,
            r.origin_table_name@ == "NoTable"@,
            r.origin_index == usize::MAX,
            r.origin_table_height == 0,
            r.origin_num_trace_randomizers == 0,
            r.origin_constraint_type@ == "NoType"@,
            r@ == (OriginModel {
                degree: -1,
                zerofier_degree: -1,
                table_name: "NoTable"@,
                index: usize::MAX as int,
                table_height: 0,
                num_trace_randomizers: 0,
                constraint_type: "NoType"@,
            }),
    {
        DegreeWithOrigin {
            degree: -1,
            zerofier_degree: -1,
            origin_table_name: String::from_str("NoTable"),
            origin_index: usize::MAX,
            origin_table_height: 0,
            origin_num_trace_randomizers: 0,
            origin_constraint_type: String::from_str("NoType"),
        }
    }
}

impl DegreeWithOrigin {
    /// Describes the degree of the constraint in its variables, and where it comes from.
    pub fn to_string(&self) -> (r: String)
        requires
            self@.is_describable(),
        ensures
            r@ == "Degree of poly for table "@ + self.origin_table_name@ + " (index "@
                + decimal::two_digits(self.origin_index as nat) + ") of type "@
                + self.origin_constraint_type@ + " is "@ + decimal::signed_digits(
                (self.degree + self.zerofier_degree) / (self.origin_table_height
                    + self.origin_num_trace_randomizers - 1),
            ) + "."@,
            r@ == self@.description(),
    {
        let interpolant_degree = table_collection::interpolant_degree(
            self.origin_table_height,
            self.origin_num_trace_randomizers,
        );
        let zerofier_corrected_degree: Degree = self.degree + self.zerofier_degree;
        let degree: Degree = zerofier_corrected_degree / interpolant_degree;
        proof {
            lemma_exact_division(self@.corrected_degree(), self@.interpolant_degree());
        }
        let mut r = String::from_str("Degree of poly for table ");
        r.append(self.origin_table_name.as_str());
        r.append(" (index ");
        r.append(decimal::two_digit_decimal(self.origin_index as u64).as_str());
        r.append(") of type ");
        r.append(self.origin_constraint_type.as_str());
        r.append(" is ");
        r.append(decimal::signed_decimal(degree).as_str());
        r.append(".");
        assert(r@ =~= self@.description());
        r
    }
}

impl DegreeWithOrigin {
    /// What each of a sequence of degrees with origin holds.
    pub open spec fn views(s: Seq<DegreeWithOrigin>) -> Seq<OriginModel> {
        Seq::new(s.len(), |i: int| s[i]@)
    }
}

/// Degree bounds of one table's quotients of one kind, with their origin.
pub open spec fn with_origin(
    bounds: Seq<Degree>,
    zerofier_degree: int,
    table_name: Seq<char>,
    table_height: usize,
    num_trace_randomizers: usize,
    constraint_type: Seq<char>,
) -> Seq<OriginModel> {
    Seq::new(
        bounds.len(),
        |i: int|
            OriginModel {
                degree: bounds[i] as int,
                zerofier_degree,
                table_name,
                index: i,
                table_height,
                num_trace_randomizers,
                constraint_type,
            },
    )
}

/// Attaches their origin to the degree bounds of one table's quotients of one kind.
pub fn attach_origin(
    bounds: &Vec<Degree>,
    zerofier_degree: Degree,
    table_name: &str,
    table_height: usize,
    num_trace_randomizers: usize,
    constraint_type: &str,
) -> (r: Vec<DegreeWithOrigin>)
    ensures
        r@.len() == bounds@.len(),
        forall|i: int|
            0 <= i < r@.len() ==> {
                &&& (#[trigger] r@[i]).degree == bounds@[i]
                &&& r@[i].zerofier_degree == zerofier_degree
                &&& r@[i].origin_table_name@ == table_name@
                &&& r@[i].origin_index == i
                &&& r@[i].origin_table_height == table_height
                &&& r@[i].origin_num_trace_randomizers == num_trace_randomizers
                &&& r@[i].origin_constraint_type@ == constraint_type@
            },
        DegreeWithOrigin::views(r@) == with_origin(
            bounds@,
            zerofier_degree as int,
            table_name@,
            table_height,
            num_trace_randomizers,
            constraint_type@,
        ),
{
    let ghost expected = with_origin(
        bounds@,
        zerofier_degree as int,
        table_name@,
        table_height,
        num_trace_randomizers,
        constraint_type@,
    );
    let mut r: Vec<DegreeWithOrigin> = Vec::new();
    for i in 0..bounds.len()
        invariant
            expected == with_origin(
                bounds@,
                zerofier_degree as int,
                table_name@,
                table_height,
                num_trace_randomizers,
                constraint_type@,
            ),
            r@.len() == i,
            forall|j: int| 0 <= j < i ==> (#[trigger] r@[j])@ == expected[j],
            forall|j: int|
                0 <= j < i ==> {
                    &&& (#[trigger] r@[j]).degree == bounds@[j]
                    &&& r@[j].zerofier_degree == zerofier_degree
                    &&& r@[j].origin_table_name@ == table_name@
                    &&& r@[j].origin_index == j
                    &&& r@[j].origin_table_height == table_height
                    &&& r@[j].origin_num_trace_randomizers == num_trace_randomizers
                    &&& r@[j].origin_constraint_type@ == constraint_type@
                },
    {
        r.push(
            DegreeWithOrigin {
                degree: bounds[i],
                zerofier_degree,
                origin_table_name: String::from_str(table_name),
                origin_index: i,
                origin_table_height: table_height,
                origin_num_trace_randomizers: num_trace_randomizers,
                origin_constraint_type: String::from_str(constraint_type),
            },
        );
    }
    assert(DegreeWithOrigin::views(r@) =~= expected);
    r
}

} // verus!
