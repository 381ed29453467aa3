//! The civil calendar and its linearization.
//!
//! A civil date is a year, a month given as one of five base months in one of
//! two polarity states (ten effective months), and a day of month in
//! `0..24`.  Every year has exactly ten months and every month exactly
//! twenty-four days, so a date linearizes to
//! `year * 240 + month_index * 24 + day`, stored entirely in the low limb of
//! a [`HashDay`].

use vstd::prelude::*;

verus! {

use crate::hashday::HashDay;
use crate::hashday::limb_base;
use vstd::arithmetic::div_mod::lemma_fundamental_div_mod_converse;

/// The polarity state of a month.
#[derive(Clone, Copy, Debug, PartialEq, Eq, Structural, Hash)]
pub enum MonthStatus {
    Greater,
    Lesser,
}

/// One of the five base months.
#[derive(Clone, Copy, Debug, PartialEq, Eq, Structural, Hash)]
pub enum Month {
    Zero,
    Niktvirin,
    Apress,
    Smosh,
    Funny,
}

/// A civil date in the ten-month, twenty-four-day calendar.
#[derive(Clone, Copy, Debug, PartialEq, Eq, Hash)]
pub struct CivilDate {
    pub year: u128,
    pub month: (MonthStatus, Month),
    pub day: u8,
}

/// The fixed bijection from (polarity, base month) to the month's position
/// `0..10` within the year, ascending: each base month contributes its
/// greater state first, then its lesser one.
pub open spec fn month_index(m: (MonthStatus, Month)) -> int {
    let base: int = match m.1 {
        Month::Zero => 0,
        Month::Niktvirin => 2,
        Month::Apress => 4,
        Month::Smosh => 6,
        Month::Funny => 8,
    };
    match m.0 {
        MonthStatus::Greater => base,
        MonthStatus::Lesser => base + 1,
    }
}

impl CivilDate {
    /// A date is well formed when its day of month is in range; the month is
    /// total by construction and the year may be any limb value.
    pub open spec fn wf(self) -> bool {
        self.day < 24
    }

    /// The linear day count of this date: full years, then full months, then
    /// the day of month.
    pub open spec fn lin(self) -> int {
        self.year * 240 + month_index(self.month) * 24 + self.day
    }

    /// Whether the linear day count fits in the low limb, the only range the
    /// calendar construction handles.
    pub open spec fn fits(self) -> bool {
        self.lin() < limb_base()
    }
}

/// Maps a month position `0..10` back to its (polarity, base month) pair.
pub fn u8_to_month(i: u8) -> (m: (MonthStatus, Month))
    requires
        i < 10,
    ensures
        month_index(m) == i,
{
    match i {
        0 => (MonthStatus::Greater, Month::Zero),
        1 => (MonthStatus::Lesser, Month::Zero),
        2 => (MonthStatus::Greater, Month::Niktvirin),
        3 => (MonthStatus::Lesser, Month::Niktvirin),
        4 => (MonthStatus::Greater, Month::Apress),
        5 => (MonthStatus::Lesser, Month::Apress),
        6 => (MonthStatus::Greater, Month::Smosh),
        7 => (MonthStatus::Lesser, Month::Smosh),
        8 => (MonthStatus::Greater, Month::Funny),
        _ => (MonthStatus::Lesser, Month::Funny),
    }
}

/// Maps a (polarity, base month) pair to its month position `0..10`.
pub fn month_to_u8(month: (MonthStatus, Month)) -> (i: u8)
    ensures
        i == month_index(month),
        i < 10,
{
    match month {
        (MonthStatus::Greater, Month::Zero) => 0,
        (MonthStatus::Lesser, Month::Zero) => 1,
        (MonthStatus::Greater, Month::Niktvirin) => 2,
        (MonthStatus::Lesser, Month::Niktvirin) => 3,
        (MonthStatus::Greater, Month::Apress) => 4,
        (MonthStatus::Lesser, Month::Apress) => 5,
        (MonthStatus::Greater, Month::Smosh) => 6,
        (MonthStatus::Lesser, Month::Smosh) => 7,
        (MonthStatus::Greater, Month::Funny) => 8,
        (MonthStatus::Lesser, Month::Funny) => 9,
    }
}

/// The civil date a low limb value decodes to: the inverse conversion
/// consults only the low limb.
pub open spec fn civil_of_lo(lo: u128) -> CivilDate {
    CivilDate {
        year: (lo as int / 240) as u128,
        month: month_of_index((lo as int % 240) / 24),
        day: (lo as int % 24) as u8,
    }
}

/// The spec-level inverse of [`month_index`].
pub open spec fn month_of_index(i: int) -> (MonthStatus, Month) {
    let status = if i % 2 == 0 {
        MonthStatus::Greater
    } else {
        MonthStatus::Lesser
    };
    let base = if i / 2 == 0 {
        Month::Zero
    } else if i / 2 == 1 {
        Month::Niktvirin
    } else if i / 2 == 2 {
        Month::Apress
    } else if i / 2 == 3 {
        Month::Smosh
    } else {
        Month::Funny
    };
    (status, base)
}

impl HashDay {
    /// Linearizes a civil date: the count lands entirely in the low limb and
    /// the high limb is zero.
    pub fn from_hdatetime(hdt: &CivilDate) -> (r: HashDay)
        requires
            hdt.wf(),
            hdt.fits(),
        ensures
            r.day_lo == hdt.lin(),
            r.day_hi == 0,
    {
        let months = month_to_u8(hdt.month);
        let days: u128 = hdt.year * 240 + (months as u128) * 24 + (hdt.day as u128);
        HashDay { day_lo: days, day_hi: 0 }
    }

    /// Decodes the low limb back into a civil date.  Only the low limb is
    /// consulted; the high limb is ignored by design.
    pub fn to_hdatetime(&self) -> (r: CivilDate)
        ensures
            r == civil_of_lo(self.day_lo),
            r.wf(),
    {
        let years = self.day_lo / 240;
        let rem = self.day_lo % 240;
        let months = (rem / 24) as u8;
        let day = (rem % 24) as u8;
        proof {
            lemma_rem_split(self.day_lo);
        }
        let month = u8_to_month(months);
        proof {
            lemma_month_index_injective(month, month_of_index((self.day_lo as int % 240) / 24));
        }
        CivilDate { year: years, month, day }
    }

    /// Linearizes the date fields of a fetched "today" packet; the packet
    /// carries the same year, month and day triple as a civil date.
    pub fn from_packetdata(packetdata: &CivilDate) -> (r: HashDay)
        requires
            packetdata.wf(),
            packetdata.fits(),
        ensures
            r.day_lo == packetdata.lin(),
            r.day_hi == 0,
    {
        Self::from_hdatetime(packetdata)
    }
}

/// Taking a low limb apart month-wise: the remainder of a year splits into a
/// month position below ten and a day below twenty-four, and the day of
/// month is also the remainder modulo twenty-four of the whole limb.
proof fn lemma_rem_split(lo: u128)
    ensures
        0 <= (lo as int % 240) / 24 < 10,
        (lo as int % 240) % 24 == lo as int % 24,
        0 <= lo as int % 24 < 24,
        0 <= lo as int / 240,
{
    let n = lo as int;
    vstd::arithmetic::div_mod::lemma_mod_bound(n, 240);
    vstd::arithmetic::div_mod::lemma_fundamental_div_mod(n, 240);
    vstd::arithmetic::div_mod::lemma_fundamental_div_mod(n % 240, 24);
    vstd::arithmetic::div_mod::lemma_mod_bound(n % 240, 24);
    let q = (n % 240) / 24;
    let r = (n % 240) % 24;
    assert(0 <= q < 10) by (nonlinear_arith)
        requires
            n % 240 == q * 24 + r,
            0 <= r < 24,
            0 <= n % 240 < 240,
    {}
    assert(n == (10 * (n / 240) + q) * 24 + r) by (nonlinear_arith)
        requires
            n == 240 * (n / 240) + n % 240,
            n % 240 == q * 24 + r,
    {}
    lemma_fundamental_div_mod_converse(n, 24, 10 * (n / 240) + q, r);
    vstd::arithmetic::div_mod::lemma_div_pos_is_pos(n, 240);
}

/// Two months with the same position are the same month.
proof fn lemma_month_index_injective(a: (MonthStatus, Month), b: (MonthStatus, Month))
    requires
        month_index(a) == month_index(b),
    ensures
        a == b,
{
}

/// Round trip: decoding the counter built from a well-formed civil date that
/// fits in the low limb gives back exactly that date.
pub proof fn lemma_civil_round_trip(d: CivilDate)
    requires
        d.wf(),
        d.fits(),
    ensures
        civil_of_lo(day_of_civil(d)) == d,
{
    let mi = month_index(d.month);
    let lo = d.lin();
    assert(0 <= mi < 10);
    assert(lo == (d.year as int) * 240 + (mi * 24 + d.day));
    assert(0 <= mi * 24 + d.day < 240);
    lemma_fundamental_div_mod_converse(lo, 240, d.year as int, mi * 24 + d.day);
    lemma_fundamental_div_mod_converse(mi * 24 + d.day, 24, mi, d.day as int);
    assert(lo == ((d.year as int) * 10 + mi) * 24 + d.day) by (nonlinear_arith)
        requires
            lo == (d.year as int) * 240 + mi * 24 + d.day,
    {}
    lemma_fundamental_div_mod_converse(lo, 24, (d.year as int) * 10 + mi, d.day as int);
    lemma_month_index_injective(d.month, month_of_index(mi));
}

/// The low limb a civil date linearizes to.
pub open spec fn day_of_civil(d: CivilDate) -> u128 {
    d.lin() as u128
}

/// Strict monotonicity: a later civil date, compared year first, then month
/// position, then day, linearizes to a strictly greater day count.
pub proof fn lemma_calendar_order(a: CivilDate, b: CivilDate)
    requires
        a.wf(),
        b.wf(),
        a.year < b.year || (a.year == b.year && month_index(a.month) < month_index(b.month)) || (
        a.year == b.year && a.month == b.month && a.day < b.day),
    ensures
        a.lin() < b.lin(),
        a.fits() && b.fits() ==> day_of_civil(a) < day_of_civil(b),
{
    let ma = month_index(a.month);
    let mb = month_index(b.month);
    assert(a.lin() < b.lin()) by (nonlinear_arith)
        requires
            a.lin() == a.year * 240 + ma * 24 + a.day,
            b.lin() == b.year * 240 + mb * 24 + b.day,
            0 <= ma < 10,
            0 <= mb < 10,
            0 <= a.day < 24,
            0 <= b.day < 24,
            0 <= a.year,
            0 <= b.year,
            a.year < b.year || (a.year == b.year && ma < mb) || (a.year == b.year && ma == mb
                && a.day < b.day),
    {}
}

} // verus!
