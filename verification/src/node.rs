//! The record type that the similarity graph is built from.
//!
//! A `Node` is one demographic mortality-rate record: a handful of
//! categorical codes plus one numeric estimate.  Numeric attributes that the
//! source data carries with decimals are held as scaled integers so that all
//! downstream arithmetic is exact: `stub_label_num` in hundredths (the code
//! `4.13` is stored as `413`) and `estimate` in whatever fixed decimal unit
//! the caller chooses (the choice does not matter: edge weights depend only
//! on ratios of estimates).

use vstd::prelude::*;

verus! {

/// One demographic mortality-rate record.
#[derive(Debug, Clone, PartialEq)]
pub struct Node {
    /// Unit of the estimate, e.g. deaths per 100,000.
    pub unit: String,
    /// 1 for age-adjusted estimates, 2 for crude estimates.
    pub unit_num: i32,
    /// Name of the demographic axis the record belongs to.
    pub stub_name: String,
    /// Numeric code of the demographic axis, 1 to 11.
    pub stub_name_num: i32,
    /// Category label within the demographic axis.
    pub stub_label: String,
    /// Numeric code of the category, in hundredths (e.g. 413 for 4.13).
    pub stub_label_num: u64,
    /// Year of the record, as text.
    pub year: String,
    /// Numeric code of the year, 1 to 50.
    pub year_num: i32,
    /// Age bracket of the record.
    pub age: String,
    /// Numeric code of the age bracket.
    pub age_num: i32,
    /// Mortality-rate estimate as a scaled non-negative integer; 0 means
    /// the record carries no estimate.
    pub estimate: u64,
}

impl Node {
    /// The three identifying codes are small enough that they pack into one
    /// 64-bit identifier.
    pub open spec fn id_fields_bounded(self) -> bool {
        &&& self.stub_label_num < 0x1_0000_0000u64
        &&& 0 <= self.year_num < 0x1_0000i32
        &&& 0 <= self.age_num < 0x1_0000i32
    }

    /// The canonical graph identifier of this record, packed from the three
    /// categorical codes that also decide edge eligibility.
    pub open spec fn spec_id(self) -> u64
        recommends
            self.id_fields_bounded(),
    {
        id_of(self.stub_label_num as int, self.year_num as int, self.age_num as int) as u64
    }

    pub fn new(
        unit: &str, unit_num: i32, stub_name: &str, stub_name_num: i32,
        stub_label: &str, stub_label_num: u64, year: &str, year_num: i32,
        age: &str, age_num: i32, estimate: u64,
    ) -> (r: Node)
        ensures
            r.unit@ == unit@,
            r.unit_num == unit_num,
            r.stub_name@ == stub_name@,
            r.stub_name_num == stub_name_num,
            r.stub_label@ == stub_label@,
            r.stub_label_num == stub_label_num,
            r.year@ == year@,
            r.year_num == year_num,
            r.age@ == age@,
            r.age_num == age_num,
            r.estimate == estimate,
    {
        Node {
            unit: unit.to_owned(),
            unit_num,
            stub_name: stub_name.to_owned(),
            stub_name_num,
            stub_label: stub_label.to_owned(),
            stub_label_num,
            year: year.to_owned(),
            year_num,
            age: age.to_owned(),
            age_num,
            estimate,
        }
    }

    /// Computes the canonical identifier; one canonicalization point so that
    /// identifier construction is not duplicated across components.
    pub fn id(&self) -> (r: u64)
        requires
            self.id_fields_bounded(),
        ensures
            r == self.spec_id(),
    {
        self.stub_label_num * 0x1_0000_0000u64
            + (self.year_num as u64) * 0x1_0000u64
            + (self.age_num as u64)
    }
}

/// The packing rule behind `Node::spec_id`: label in the high 32 bits, year
/// in the next 16, age bracket in the low 16.
pub open spec fn id_of(label: int, year: int, age: int) -> int {
    label * 0x1_0000_0000 + year * 0x1_0000 + age
}

/// Distinct code triples give distinct identifiers, so the canonical
/// identifier really does identify a record.
pub proof fn lemma_id_injective(l1: int, y1: int, a1: int, l2: int, y2: int, a2: int)
    requires
        0 <= l1 < 0x1_0000_0000,
        0 <= y1 < 0x1_0000,
        0 <= a1 < 0x1_0000,
        0 <= l2 < 0x1_0000_0000,
        0 <= y2 < 0x1_0000,
        0 <= a2 < 0x1_0000,
        id_of(l1, y1, a1) == id_of(l2, y2, a2),
    ensures
        l1 == l2 && y1 == y2 && a1 == a2,
{
    assert(l1 == l2 && y1 * 0x1_0000 + a1 == y2 * 0x1_0000 + a2) by (nonlinear_arith)
        requires
            0 <= y1 < 0x1_0000,
            0 <= a1 < 0x1_0000,
            0 <= y2 < 0x1_0000,
            0 <= a2 < 0x1_0000,
            l1 * 0x1_0000_0000 + (y1 * 0x1_0000 + a1) == l2 * 0x1_0000_0000 + (y2 * 0x1_0000 + a2),
    ;
    assert(y1 == y2 && a1 == a2) by (nonlinear_arith)
        requires
            y1 * 0x1_0000 + a1 == y2 * 0x1_0000 + a2,
            0 <= a1 < 0x1_0000,
            0 <= a2 < 0x1_0000,
    ;
    assert(id_of(l1, y1, a1) == l1 * 0x1_0000_0000 + (y1 * 0x1_0000 + a1));
}

} // verus!
