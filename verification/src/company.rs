//! The reference table and the predicate that the guest evaluates against
//! it: is the user within a company's threshold distance?
use vstd::prelude::*;
use crate::arith::{add_spec, sub_spec, mul_spec, le_spec, le};
use crate::binary32::{is_nan, value};
use crate::coordinate::Coordinate;
use crate::root::{sqrt_spec, sqrt};

verus! {

/// A named point of interest with the distance within which a user counts as
/// close to it. The threshold is a binary32 bit pattern. The name is
/// descriptive only: no result depends on it.
pub struct Company {
    pub name: String,
    pub location: Coordinate,
    pub distance_threshold: u32,
}

/// How many companies the reference table holds.
pub const COMPANY_COUNT: usize = 5;

/// The threshold of every company of the reference table: 5.0.
pub const REFERENCE_THRESHOLD: u32 = 0x40a0_0000;

/// The locations of the reference table, in its fixed order:
/// (180.15, 130.12), (0.13, 0.13), (500.12, 98.45), (-123.4, -130.12),
/// (200.15, -130.12).
pub open spec fn reference_locations() -> Seq<Coordinate> {
    seq![
        Coordinate { x: 0x4334_2666, y: 0x4302_1eb8 },
        Coordinate { x: 0x3e05_1eb8, y: 0x3e05_1eb8 },
        Coordinate { x: 0x43fa_0f5c, y: 0x42c4_e666 },
        Coordinate { x: 0xc2f6_cccd, y: 0xc302_1eb8 },
        Coordinate { x: 0x4348_2666, y: 0xc302_1eb8 },
    ]
}

/// The names of the reference table, in the same order.
pub open spec fn reference_names() -> Seq<Seq<char>> {
    seq!["Ubisoft"@, "Google"@, "Microsoft"@, "Amazon"@, "Apple"@]
}

/// Whether the companies are the reference table.
pub open spec fn is_reference_table(companies: Seq<Company>) -> bool {
    &&& companies.len() == COMPANY_COUNT
    &&& forall|i: int|
        0 <= i < COMPANY_COUNT ==> {
            &&& (#[trigger] companies[i]).name@ == reference_names()[i]
            &&& companies[i].location == reference_locations()[i]
            &&& companies[i].distance_threshold == REFERENCE_THRESHOLD
        }
}

/// The Euclidean distance between two points as single-precision
/// arithmetic computes it: each difference, each square, the sum and the root
/// rounded in turn.
pub open spec fn distance(user: Coordinate, company: Coordinate) -> u32 {
    let dx = sub_spec(company.x, user.x);
    let dy = sub_spec(company.y, user.y);
    sqrt_spec(add_spec(mul_spec(dx, dx), mul_spec(dy, dy)))
}

/// Whether a point at the given distance is within the threshold. The
/// boundary counts as within; a NaN on either side does not.
pub open spec fn within(distance: u32, threshold: u32) -> bool {
    le_spec(distance, threshold)
}

/// One flag per company, in the order of the table.
pub open spec fn flags_for(user: Coordinate, companies: Seq<Company>) -> Seq<bool> {
    Seq::new(
        companies.len(),
        |i: int| within(distance(user, companies[i].location), companies[i].distance_threshold),
    )
}

/// One flag per company of the reference table.
pub open spec fn close_enough(user: Coordinate) -> Seq<bool> {
    Seq::new(
        COMPANY_COUNT as nat,
        |i: int| within(distance(user, reference_locations()[i]), REFERENCE_THRESHOLD),
    )
}

/// The distance between the user and a company's location.
pub fn calculate_distance(user: &Coordinate, company: &Coordinate) -> (r: u32)
    ensures
        r == distance(*user, *company),
{
    let dx = crate::arith::sub(company.x, user.x);
    let dy = crate::arith::sub(company.y, user.y);
    sqrt(crate::arith::add(crate::arith::mul(dx, dx), crate::arith::mul(dy, dy)))
}

/// The reference table.
pub fn reference_companies() -> (r: Vec<Company>)
    ensures
        is_reference_table(r@),
{
    let mut companies: Vec<Company> = Vec::new();
    companies.push(
        Company {
            name: "Ubisoft".to_owned(),
            location: Coordinate { x: 0x4334_2666, y: 0x4302_1eb8 },
            distance_threshold: REFERENCE_THRESHOLD,
        },
    );
    companies.push(
        Company {
            name: "Google".to_owned(),
            location: Coordinate { x: 0x3e05_1eb8, y: 0x3e05_1eb8 },
            distance_threshold: REFERENCE_THRESHOLD,
        },
    );
    companies.push(
        Company {
            name: "Microsoft".to_owned(),
            location: Coordinate { x: 0x43fa_0f5c, y: 0x42c4_e666 },
            distance_threshold: REFERENCE_THRESHOLD,
        },
    );
    companies.push(
        Company {
            name: "Amazon".to_owned(),
            location: Coordinate { x: 0xc2f6_cccd, y: 0xc302_1eb8 },
            distance_threshold: REFERENCE_THRESHOLD,
        },
    );
    companies.push(
        Company {
            name: "Apple".to_owned(),
            location: Coordinate { x: 0x4348_2666, y: 0xc302_1eb8 },
            distance_threshold: REFERENCE_THRESHOLD,
        },
    );
    companies
}

/// Evaluates the predicate against every company of a table.
pub fn evaluate(user: &Coordinate, companies: &Vec<Company>) -> (r: Vec<bool>)
    ensures
        r@ == flags_for(*user, companies@),
{
    let mut result: Vec<bool> = Vec::new();
    let mut i: usize = 0;
    while i < companies.len()
        invariant
            i <= companies.len(),
            result@.len() == i,
            forall|j: int| 0 <= j < i ==> result@[j] == flags_for(*user, companies@)[j],
        decreases companies.len() - i,
    {
        let company = &companies[i];
        let distance = calculate_distance(user, &company.location);
        result.push(le(distance, company.distance_threshold));
        i = i + 1;
    }
    assert(result@ =~= flags_for(*user, companies@));
    result
}

/// Evaluates the predicate against the reference table.
pub fn is_user_close_enough(user: Coordinate) -> (r: Vec<bool>)
    ensures
        r@ == close_enough(user),
{
    let companies = reference_companies();
    let result = evaluate(&user, &companies);
    proof {
        lemma_reference_flags(user, companies@);
    }
    result
}

/// Against the reference table the flags are those of `close_enough`,
/// whatever the names.
pub proof fn lemma_reference_flags(user: Coordinate, companies: Seq<Company>)
    requires
        companies.len() == COMPANY_COUNT,
        forall|i: int|
            0 <= i < COMPANY_COUNT ==> (#[trigger] companies[i]).location == reference_locations()[i]
                && companies[i].distance_threshold == REFERENCE_THRESHOLD,
    ensures
        flags_for(user, companies) == close_enough(user),
{
    assert(flags_for(user, companies) =~= close_enough(user));
}

/// A user whose distance from a company equals its threshold is close
/// enough to it: the boundary is inclusive.
pub proof fn lemma_boundary_inclusive(user: Coordinate, companies: Seq<Company>, i: int)
    requires
        0 <= i < companies.len(),
        !is_nan(distance(user, companies[i].location)),
        !is_nan(companies[i].distance_threshold),
        value(distance(user, companies[i].location)) == value(companies[i].distance_threshold),
    ensures
        flags_for(user, companies)[i],
{
}

/// The same of the reference table, whose threshold is no NaN.
pub proof fn lemma_reference_boundary_inclusive(user: Coordinate, i: int)
    requires
        0 <= i < COMPANY_COUNT,
        !is_nan(distance(user, reference_locations()[i])),
        value(distance(user, reference_locations()[i])) == value(REFERENCE_THRESHOLD),
    ensures
        close_enough(user)[i],
{
}

/// A user strictly beyond every company's threshold gets no flag at all.
pub proof fn lemma_beyond_all(user: Coordinate, companies: Seq<Company>)
    requires
        forall|i: int|
            0 <= i < companies.len() ==> value(distance(user, (#[trigger] companies[i]).location))
                > value(companies[i].distance_threshold),
    ensures
        flags_for(user, companies) == Seq::new(companies.len(), |i: int| false),
{
    assert(flags_for(user, companies) =~= Seq::new(companies.len(), |i: int| false));
}

/// The same of the reference table.
pub proof fn lemma_reference_beyond_all(user: Coordinate)
    requires
        forall|i: int|
            0 <= i < COMPANY_COUNT ==> value(
                #[trigger] distance(user, reference_locations()[i]),
            ) > value(REFERENCE_THRESHOLD),
    ensures
        close_enough(user) == seq![false, false, false, false, false],
{
    assert forall|i: int| 0 <= i < COMPANY_COUNT implies !close_enough(user)[i] by {
        let d = distance(user, reference_locations()[i]);
        assert(value(d) > value(REFERENCE_THRESHOLD));
    }
    assert(close_enough(user) =~= seq![false, false, false, false, false]);
}

/// A distance that is a NaN is within no threshold.
pub proof fn lemma_nan_is_far(user: Coordinate, companies: Seq<Company>, i: int)
    requires
        0 <= i < companies.len(),
        is_nan(distance(user, companies[i].location)),
    ensures
        !flags_for(user, companies)[i],
{
}

/// Two evaluations of the same user against the same table give the same
/// flags: the result depends on nothing else.
pub proof fn lemma_deterministic(user: Coordinate, first: Seq<bool>, second: Seq<bool>)
    requires
        first == close_enough(user),
        second == close_enough(user),
    ensures
        first == second,
        first.len() == COMPANY_COUNT,
{
}

} // verus!
