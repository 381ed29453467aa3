//! The human-readable date-string form.
//!
//! A date renders as `YYYY-[G|L][ZNASF]-DD`: the year in decimal, zero padded
//! on the left to at least four digits; a dash; the polarity letter, `G` for
//! greater or `L` for lesser; the base month's letter, one of `Z`, `N`, `A`,
//! `S`, `F`; a dash; and the day of month as exactly two decimal digits.
//! Rendering and parsing are exact inverses on well-formed dates.

use vstd::prelude::*;

verus! {

use crate::calendar::CivilDate;
use crate::calendar::Month;
use crate::calendar::MonthStatus;
use vstd::arithmetic::div_mod::lemma_fundamental_div_mod_converse;

/// The decimal digit bytes of `n`, most significant first, without leading
/// zeros.
pub open spec fn dec_bytes(n: nat) -> Seq<u8>
    decreases n,
{
    if n < 10 {
        seq![(48 + n) as u8]
    } else {
        dec_bytes(n / 10).push((48 + n % 10) as u8)
    }
}

/// Powers of ten.
pub open spec fn pow10(k: nat) -> int
    decreases k,
{
    if k == 0 {
        1
    } else {
        10 * pow10((k - 1) as nat)
    }
}

/// Whether every byte of `s` is a decimal digit.
pub open spec fn all_digits(s: Seq<u8>) -> bool {
    forall|i: int| 0 <= i < s.len() ==> 48 <= #[trigger] s[i] <= 57
}

/// The number a digit string denotes, most significant digit first.
pub open spec fn digits_val(s: Seq<u8>) -> int
    decreases s.len(),
{
    if s.len() == 0 {
        0
    } else {
        digits_val(s.drop_last()) * 10 + (s.last() - 48)
    }
}

/// The year field of a date's text: the decimal digits, zero padded on the
/// left to at least four.
pub open spec fn year_bytes(y: nat) -> Seq<u8> {
    let d = dec_bytes(y);
    if d.len() >= 4 {
        d
    } else {
        Seq::new((4 - d.len()) as nat, |i: int| 48u8) + d
    }
}

/// The polarity letter: `G` or `L`.
pub open spec fn status_byte(s: MonthStatus) -> u8 {
    match s {
        MonthStatus::Greater => 71,
        MonthStatus::Lesser => 76,
    }
}

/// The base month's letter: `Z`, `N`, `A`, `S` or `F`.
pub open spec fn base_month_byte(m: Month) -> u8 {
    match m {
        Month::Zero => 90,
        Month::Niktvirin => 78,
        Month::Apress => 65,
        Month::Smosh => 83,
        Month::Funny => 70,
    }
}

/// All the bytes of a date's text.
pub open spec fn date_bytes(d: CivilDate) -> Seq<u8> {
    year_bytes(d.year as nat) + seq![
        45u8,
        status_byte(d.month.0),
        base_month_byte(d.month.1),
        45u8,
        (48 + d.day as int / 10) as u8,
        (48 + d.day as int % 10) as u8,
    ]
}

/// The same text as characters.
pub open spec fn date_chars(d: CivilDate) -> Seq<char> {
    date_bytes(d).map_values(|b: u8| b as char)
}

/// The decimal digits of a number are digits, and there is at least one.
pub proof fn lemma_dec_bytes_digits(n: nat)
    ensures
        all_digits(dec_bytes(n)),
        dec_bytes(n).len() >= 1,
    decreases n,
{
    if n >= 10 {
        lemma_dec_bytes_digits(n / 10);
    }
}

/// The digit string of a number denotes that number.
pub proof fn lemma_dec_bytes_val(n: nat)
    ensures
        digits_val(dec_bytes(n)) == n,
    decreases n,
{
    if n < 10 {
        let s = dec_bytes(n);
        assert(s == seq![(48 + n) as u8]);
        assert(s.last() == (48 + n) as u8);
        assert(s.drop_last() =~= Seq::<u8>::empty());
        assert(digits_val(Seq::<u8>::empty()) == 0);
    } else {
        lemma_dec_bytes_val(n / 10);
        assert(dec_bytes(n).drop_last() =~= dec_bytes(n / 10));
        vstd::arithmetic::div_mod::lemma_fundamental_div_mod(n as int, 10);
    }
}

/// A digit string of length `k` denotes a number below `10^k`.
pub proof fn lemma_digits_val_bound(s: Seq<u8>)
    requires
        all_digits(s),
    ensures
        0 <= digits_val(s) < pow10(s.len()),
    decreases s.len(),
{
    if s.len() > 0 {
        lemma_digits_val_bound(s.drop_last());
    }
}

/// The leading digit of a number's digit string is zero only for zero.
pub proof fn lemma_dec_bytes_first(n: nat)
    ensures
        (dec_bytes(n)[0] == 48) == (n == 0),
    decreases n,
{
    if n >= 10 {
        lemma_dec_bytes_first(n / 10);
        lemma_dec_bytes_digits(n / 10);
    }
}

/// A number below `10^k` has at most `k` digits.
pub proof fn lemma_dec_bytes_len_le(n: nat, k: nat)
    requires
        k >= 1,
        n < pow10(k),
    ensures
        dec_bytes(n).len() <= k,
    decreases n,
{
    if n >= 10 {
        assert(k >= 2) by {
            if k == 1 {
                assert(pow10(0) == 1);
                assert(pow10(1int as nat) == 10);
            }
        }
        assert(n / 10 < pow10((k - 1) as nat)) by (nonlinear_arith)
            requires
                n < pow10(k),
                pow10(k) == 10 * pow10((k - 1) as nat),
                n >= 10,
        {}
        lemma_dec_bytes_len_le(n / 10, (k - 1) as nat);
    }
}

/// A number of at least `10^(k-1)` has at least `k` digits.
pub proof fn lemma_dec_bytes_len_ge(n: nat, k: nat)
    requires
        k >= 1,
        n >= pow10((k - 1) as nat),
    ensures
        dec_bytes(n).len() >= k,
    decreases n,
{
    if k >= 2 {
        assert(pow10((k - 1) as nat) == 10 * pow10((k - 2) as nat));
        assert(pow10((k - 2) as nat) >= 1) by {
            lemma_pow10_pos((k - 2) as nat);
        }
        assert(n >= 10);
        assert(n / 10 >= pow10((k - 2) as nat)) by (nonlinear_arith)
            requires
                n >= 10 * pow10((k - 2) as nat),
        {}
        lemma_dec_bytes_len_ge(n / 10, (k - 1) as nat);
    }
}

/// Powers of ten are positive.
pub proof fn lemma_pow10_pos(k: nat)
    ensures
        pow10(k) >= 1,
    decreases k,
{
    if k > 0 {
        lemma_pow10_pos((k - 1) as nat);
    }
}

/// Two digit strings of the same length denoting the same number are equal.
pub proof fn lemma_digits_val_injective(s: Seq<u8>, t: Seq<u8>)
    requires
        all_digits(s),
        all_digits(t),
        s.len() == t.len(),
        digits_val(s) == digits_val(t),
    ensures
        s == t,
    decreases s.len(),
{
    if s.len() > 0 {
        let v = digits_val(s);
        lemma_digits_val_bound(s.drop_last());
        lemma_digits_val_bound(t.drop_last());
        lemma_fundamental_div_mod_converse(
            v,
            10,
            digits_val(s.drop_last()),
            (s.last() - 48) as int,
        );
        lemma_fundamental_div_mod_converse(
            v,
            10,
            digits_val(t.drop_last()),
            (t.last() - 48) as int,
        );
        lemma_digits_val_injective(s.drop_last(), t.drop_last());
        assert(s.last() == t.last());
        assert forall|i: int| 0 <= i < s.len() implies s[i] == t[i] by {
            if i < s.len() - 1 {
                assert(s[i] == s.drop_last()[i]);
                assert(t[i] == t.drop_last()[i]);
            }
        }
        assert(s =~= t);
    } else {
        assert(s =~= t);
    }
}

/// Leading zeros do not change the number a digit string denotes.
pub proof fn lemma_digits_val_pad(k: nat, s: Seq<u8>)
    ensures
        digits_val(Seq::new(k, |i: int| 48u8) + s) == digits_val(s),
    decreases s.len(),
{
    let z = Seq::new(k, |i: int| 48u8);
    if s.len() == 0 {
        assert(z + s =~= z);
        lemma_digits_val_zeros(k);
    } else {
        assert((z + s).drop_last() =~= z + s.drop_last());
        lemma_digits_val_pad(k, s.drop_last());
        assert((z + s).last() == s.last());
    }
}

/// A string of zero digits denotes zero.
proof fn lemma_digits_val_zeros(k: nat)
    ensures
        digits_val(Seq::new(k, |i: int| 48u8)) == 0,
    decreases k,
{
    let z = Seq::new(k, |i: int| 48u8);
    if k > 0 {
        assert(z.drop_last() =~= Seq::new((k - 1) as nat, |i: int| 48u8));
        lemma_digits_val_zeros((k - 1) as nat);
    }
}

/// The year field is made of digits, is at least four long, has no leading
/// zero unless it is exactly four long, and denotes the year.
pub proof fn lemma_year_bytes(y: nat)
    ensures
        all_digits(year_bytes(y)),
        year_bytes(y).len() >= 4,
        year_bytes(y).len() == 4 || year_bytes(y)[0] != 48,
        digits_val(year_bytes(y)) == y,
{
    lemma_dec_bytes_digits(y);
    lemma_dec_bytes_val(y);
    let d = dec_bytes(y);
    if d.len() < 4 {
        let k = (4 - d.len()) as nat;
        lemma_digits_val_pad(k, d);
    } else if d.len() > 4 {
        lemma_dec_bytes_first(y);
        if y == 0 {
            assert(dec_bytes(0nat).len() == 1);
        }
    }
}

/// A digit string that is four long, or longer with no leading zero, is the
/// year field of the year it denotes.
pub proof fn lemma_year_bytes_canonical(p: Seq<u8>)
    requires
        all_digits(p),
        p.len() >= 4,
        p.len() == 4 || p[0] != 48,
    ensures
        digits_val(p) >= 0,
        year_bytes(digits_val(p) as nat) == p,
{
    lemma_digits_val_bound(p);
    let y = digits_val(p) as nat;
    lemma_dec_bytes_digits(y);
    lemma_dec_bytes_val(y);
    lemma_year_bytes(y);
    if p.len() == 4 {
        lemma_dec_bytes_len_le(y, 4);
        lemma_digits_val_injective(year_bytes(y), p);
    } else {
        assert(p[0] >= 49);
        lemma_digits_val_lead(p);
        lemma_dec_bytes_len_ge(y, p.len());
        lemma_dec_bytes_len_le(y, p.len());
        assert(dec_bytes(y).len() == p.len());
        assert(year_bytes(y) == dec_bytes(y));
        lemma_digits_val_injective(year_bytes(y), p);
    }
}

/// A digit string with a nonzero leading digit denotes at least
/// `10^(length-1)`.
proof fn lemma_digits_val_lead(p: Seq<u8>)
    requires
        all_digits(p),
        p.len() >= 1,
        p[0] >= 49,
    ensures
        digits_val(p) >= pow10((p.len() - 1) as nat),
    decreases p.len(),
{
    if p.len() == 1 {
        assert(pow10(0) == 1);
        assert(digits_val(p) == digits_val(p.drop_last()) * 10 + (p.last() - 48));
        assert(p.last() == p[0]);
        assert(digits_val(p.drop_last()) >= 0) by {
            assert(p.drop_last() =~= Seq::<u8>::empty());
        }
    } else {
        let q = p.drop_last();
        assert(q[0] == p[0]);
        assert(all_digits(q)) by {
            assert forall|i: int| 0 <= i < q.len() implies 48 <= #[trigger] q[i] <= 57 by {
                assert(q[i] == p[i]);
            }
        }
        lemma_digits_val_lead(q);
        let k = (p.len() - 1) as nat;
        assert(pow10(k) == 10 * pow10((k - 1) as nat));
        assert(48 <= p.last() <= 57) by {
            assert(p.last() == p[p.len() - 1]);
        }
        assert(digits_val(p) == digits_val(q) * 10 + (p.last() - 48));
    }
}

/// Digit strings only grow in value as digits are appended.
pub proof fn lemma_digits_val_prefix(s: Seq<u8>, j: int)
    requires
        all_digits(s),
        0 <= j <= s.len(),
    ensures
        digits_val(s.subrange(0, j)) <= digits_val(s),
    decreases s.len() - j,
{
    if j < s.len() {
        lemma_digits_val_prefix(s, j + 1);
        let a = s.subrange(0, j);
        let b = s.subrange(0, j + 1);
        assert(b.drop_last() =~= a);
        lemma_digits_val_bound(a);
    } else {
        assert(s.subrange(0, j) =~= s);
    }
}

/// Every byte of a date's text is printable ASCII.
pub proof fn lemma_date_bytes_ascii(d: CivilDate)
    requires
        d.wf(),
    ensures
        forall|i: int| 0 <= i < date_bytes(d).len() ==> 32 <= #[trigger] date_bytes(d)[i] < 127,
{
    lemma_year_bytes(d.year as nat);
    let db = date_bytes(d);
    let yb = year_bytes(d.year as nat);
    assert forall|i: int| 0 <= i < db.len() implies 32 <= #[trigger] db[i] < 127 by {
        if i < yb.len() {
            assert(db[i] == yb[i]);
            assert(48 <= yb[i] <= 57);
        }
    }
}

/// Relies on `String::from_utf8`: a byte sequence that is all ASCII is valid
/// UTF-8 and decodes to the string whose characters are exactly those bytes.
#[verifier::external_body]
fn ascii_to_string(bytes: Vec<u8>) -> (s: String)
    requires
        forall|i: int| 0 <= i < bytes@.len() ==> #[trigger] bytes@[i] < 128,
    ensures
        s@.len() == bytes@.len(),
        forall|i: int| 0 <= i < s@.len() ==> s@[i] == #[trigger] (bytes@[i] as char),
{
    String::from_utf8(bytes).unwrap()
}

/// Pushes the decimal digits of `n`, most significant first.
fn push_dec_digits(n: u128, out: &mut Vec<u8>)
    ensures
        final(out)@ == old(out)@ + dec_bytes(n as nat),
    decreases n,
{
    if n < 10 {
        out.push(48 + n as u8);
        assert(out@ =~= old(out)@ + dec_bytes(n as nat));
    } else {
        push_dec_digits(n / 10, out);
        out.push(48 + (n % 10) as u8);
        assert(out@ =~= old(out)@ + dec_bytes(n as nat));
    }
}

impl CivilDate {
    /// Renders this date as its text form.
    pub fn to_text(&self) -> (s: String)
        requires
            self.wf(),
        ensures
            s@ == date_chars(*self),
    {
        proof {
            lemma_year_bytes(self.year as nat);
            lemma_date_bytes_ascii(*self);
        }
        let mut digits: Vec<u8> = Vec::new();
        push_dec_digits(self.year, &mut digits);
        let mut bytes: Vec<u8> = Vec::new();
        let dl = digits.len();
        if dl < 4 {
            let pad = 4 - dl;
            let mut i: usize = 0;
            while i < pad
                invariant
                    i <= pad,
                    pad == 4 - dl,
                    bytes@ =~= Seq::new(i as nat, |j: int| 48u8),
                decreases pad - i,
            {
                bytes.push(48);
                i += 1;
                assert(bytes@ =~= Seq::new(i as nat, |j: int| 48u8));
            }
        }
        bytes.append(&mut digits);
        assert(bytes@ =~= year_bytes(self.year as nat));
        let status = match self.month.0 {
            MonthStatus::Greater => 71,
            MonthStatus::Lesser => 76,
        };
        let letter = match self.month.1 {
            Month::Zero => 90,
            Month::Niktvirin => 78,
            Month::Apress => 65,
            Month::Smosh => 83,
            Month::Funny => 70,
        };
        bytes.push(45);
        bytes.push(status);
        bytes.push(letter);
        bytes.push(45);
        bytes.push(48 + self.day / 10);
        bytes.push(48 + self.day % 10);
        assert(bytes@ =~= date_bytes(*self));
        let s = ascii_to_string(bytes);
        proof {
            assert(s@ =~= date_chars(*self));
        }
        s
    }

    /// Parses the text form back into a date.  Exactly the strings produced
    /// by [`CivilDate::to_text`] are accepted: on every other input the
    /// result is `None`.
    pub fn from_text(s: &str) -> (r: Option<CivilDate>)
        ensures
            match r {
                Some(d) => d.wf() && s@ == date_chars(d),
                None => forall|d: CivilDate| d.wf() ==> s@ != date_chars(d),
            },
    {
        if !s.is_ascii() {
            proof {
                assert forall|d: CivilDate| d.wf() implies s@ != date_chars(d) by {
                    lemma_date_chars_ascii(d);
                }
            }
            return None;
        }
        let b = s.as_bytes();
        let ghost sv = s@;
        let ghost bv = b@;
        proof {
            vstd::string::is_ascii_spec_bytes(s);
            assert(bv.len() == sv.len());
            assert(forall|j: int| 0 <= j < sv.len() ==> bv[j] == #[trigger] (sv[j] as u8));
        }
        let n = b.len();
        if n < 10 {
            proof {
                assert forall|d: CivilDate| d.wf() implies sv != date_chars(d) by {
                    lemma_chars_vs_bytes(sv, bv, d);
                    lemma_date_bytes_structure(d);
                }
            }
            return None;
        }
        if b[n - 6] != 45 || b[n - 3] != 45 {
            proof {
                assert forall|d: CivilDate| d.wf() implies sv != date_chars(d) by {
                    lemma_chars_vs_bytes(sv, bv, d);
                    lemma_date_bytes_structure(d);
                }
            }
            return None;
        }
        let status = b[n - 5];
        let stat: MonthStatus;
        if status == 71 {
            stat = MonthStatus::Greater;
        } else if status == 76 {
            stat = MonthStatus::Lesser;
        } else {
            proof {
                assert forall|d: CivilDate| d.wf() implies sv != date_chars(d) by {
                    lemma_chars_vs_bytes(sv, bv, d);
                    lemma_date_bytes_structure(d);
                }
            }
            return None;
        }
        let letter = b[n - 4];
        let bm: Month;
        if letter == 90 {
            bm = Month::Zero;
        } else if letter == 78 {
            bm = Month::Niktvirin;
        } else if letter == 65 {
            bm = Month::Apress;
        } else if letter == 83 {
            bm = Month::Smosh;
        } else if letter == 70 {
            bm = Month::Funny;
        } else {
            proof {
                assert forall|d: CivilDate| d.wf() implies sv != date_chars(d) by {
                    lemma_chars_vs_bytes(sv, bv, d);
                    lemma_date_bytes_structure(d);
                }
            }
            return None;
        }
        let d1 = b[n - 2];
        let d0 = b[n - 1];
        if d1 < 48 || d1 > 57 || d0 < 48 || d0 > 57 {
            proof {
                assert forall|d: CivilDate| d.wf() implies sv != date_chars(d) by {
                    lemma_chars_vs_bytes(sv, bv, d);
                    lemma_date_bytes_structure(d);
                }
            }
            return None;
        }
        let day: u8 = (d1 - 48) * 10 + (d0 - 48);
        if day >= 24 {
            proof {
                assert forall|d: CivilDate| d.wf() implies sv != date_chars(d) by {
                    lemma_chars_vs_bytes(sv, bv, d);
                    lemma_date_bytes_structure(d);
                    if sv == date_chars(d) {
                        vstd::arithmetic::div_mod::lemma_fundamental_div_mod(d.day as int, 10);
                        assert(day == d.day);
                    }
                }
            }
            return None;
        }
        let yend = n - 6;
        let mut acc: u128 = 0;
        let mut i: usize = 0;
        proof {
            assert(bv.subrange(0, 0) =~= Seq::<u8>::empty());
        }
        while i < yend
            invariant
                0 <= i <= yend,
                yend == n - 6,
                sv == s@,
                n == bv.len(),
                n >= 10,
                b@ == bv,
                bv.len() == sv.len(),
                vstd::utf8::is_ascii_chars(sv),
                forall|j: int| 0 <= j < sv.len() ==> bv[j] == #[trigger] (sv[j] as u8),
                acc == digits_val(bv.subrange(0, i as int)),
                forall|j: int| 0 <= j < i ==> 48 <= #[trigger] bv[j] <= 57,
            decreases yend - i,
        {
            let c = b[i];
            proof {
                assert((bv.subrange(0, i + 1)).drop_last() =~= bv.subrange(0, i as int));
                assert((bv.subrange(0, i + 1)).last() == bv[i as int]);
            }
            if c < 48 || c > 57 {
                proof {
                    assert forall|d: CivilDate| d.wf() implies sv != date_chars(d) by {
                        lemma_chars_vs_bytes(sv, bv, d);
                        lemma_date_bytes_structure(d);
                        if sv == date_chars(d) {
                            let yb = year_bytes(d.year as nat);
                            assert(yb == date_bytes(d).subrange(0, yend as int));
                            assert(yb[i as int] == bv[i as int]);
                        }
                    }
                }
                return None;
            }
            let acc10opt = acc.checked_mul(10);
            if acc10opt.is_none() {
                proof {
                    lemma_year_overflow(sv, bv, yend as int, i as int, acc * 10 + (c - 48));
                }
                return None;
            }
            let acc10 = acc10opt.unwrap();
            let accopt = acc10.checked_add((c - 48) as u128);
            if accopt.is_none() {
                proof {
                    lemma_year_overflow(sv, bv, yend as int, i as int, acc * 10 + (c - 48));
                }
                return None;
            }
            acc = accopt.unwrap();
            i += 1;
        }
        if yend > 4 && b[0] == 48 {
            proof {
                assert forall|d: CivilDate| d.wf() implies sv != date_chars(d) by {
                    lemma_chars_vs_bytes(sv, bv, d);
                    lemma_date_bytes_structure(d);
                    if sv == date_chars(d) {
                        let yb = year_bytes(d.year as nat);
                        assert(yb == date_bytes(d).subrange(0, yend as int));
                        assert(yb[0] == bv[0]);
                    }
                }
            }
            return None;
        }
        let date = CivilDate { year: acc, month: (stat, bm), day };
        proof {
            let yb = bv.subrange(0, yend as int);
            assert(all_digits(yb)) by {
                assert forall|j: int| 0 <= j < yb.len() implies 48 <= #[trigger] yb[j] <= 57 by {
                    assert(yb[j] == bv[j]);
                }
            }
            lemma_year_bytes_canonical(yb);
            assert(year_bytes(acc as nat) == yb);
            lemma_fundamental_div_mod_converse(day as int, 10, (d1 - 48) as int, (d0 - 48) as int);
            assert(bv =~= date_bytes(date));
            lemma_chars_vs_bytes(sv, bv, date);
        }
        Some(date)
    }
}

/// Every character of a date's text is ASCII.
proof fn lemma_date_chars_ascii(d: CivilDate)
    requires
        d.wf(),
    ensures
        vstd::utf8::is_ascii_chars(date_chars(d)),
{
    lemma_date_bytes_ascii(d);
    let cs = date_chars(d);
    assert forall|i: int| 0 <= i < cs.len() implies '\0' <= #[trigger] cs[i] <= '\u{7f}' by {
        assert(cs[i] == date_bytes(d)[i] as char);
        assert(date_bytes(d)[i] < 127);
    }
}

/// Under an ASCII reading, a string matches a date's characters exactly when
/// its bytes match the date's bytes.
proof fn lemma_chars_vs_bytes(sv: Seq<char>, bv: Seq<u8>, d: CivilDate)
    requires
        d.wf(),
        vstd::utf8::is_ascii_chars(sv),
        bv.len() == sv.len(),
        forall|i: int| 0 <= i < sv.len() ==> bv[i] == #[trigger] (sv[i] as u8),
    ensures
        (sv == date_chars(d)) <==> (bv == date_bytes(d)),
{
    lemma_date_bytes_ascii(d);
    if sv == date_chars(d) {
        assert forall|i: int| 0 <= i < bv.len() implies bv[i] == date_bytes(d)[i] by {
            assert(sv[i] == date_chars(d)[i]);
            assert(date_chars(d)[i] == date_bytes(d)[i] as char);
            assert(date_bytes(d)[i] < 128);
            assert(((date_bytes(d)[i] as char) as u8) == date_bytes(d)[i]);
            assert(bv[i] == sv[i] as u8);
        }
        assert(bv =~= date_bytes(d));
    }
    if bv == date_bytes(d) {
        assert forall|i: int| 0 <= i < sv.len() implies sv[i] == date_chars(d)[i] by {
            assert('\0' <= sv[i] <= '\u{7f}');
            assert((sv[i] as u32) < 128);
            assert(bv[i] == sv[i] as u8);
            assert(date_chars(d)[i] == date_bytes(d)[i] as char);
        }
        assert(sv =~= date_chars(d));
    }
}

/// If some prefix of the year field already denotes a value past the largest
/// limb, no date matches the text.
proof fn lemma_year_overflow(sv: Seq<char>, bv: Seq<u8>, yend: int, i: int, v: int)
    requires
        vstd::utf8::is_ascii_chars(sv),
        bv.len() == sv.len(),
        forall|j: int| 0 <= j < sv.len() ==> bv[j] == #[trigger] (sv[j] as u8),
        0 <= i < yend <= bv.len(),
        bv.len() == yend + 6,
        forall|j: int| 0 <= j < i ==> 48 <= #[trigger] bv[j] <= 57,
        48 <= bv[i] <= 57,
        v == digits_val(bv.subrange(0, i)) * 10 + (bv[i] - 48),
        v > u128::MAX,
    ensures
        forall|d: CivilDate| d.wf() ==> sv != date_chars(d),
{
    assert forall|d: CivilDate| d.wf() implies sv != date_chars(d) by {
        lemma_chars_vs_bytes(sv, bv, d);
        lemma_date_bytes_structure(d);
        if sv == date_chars(d) {
            let yb = year_bytes(d.year as nat);
            assert(yb == date_bytes(d).subrange(0, yend));
            assert(yb =~= bv.subrange(0, yend));
            assert((bv.subrange(0, i + 1)).drop_last() =~= bv.subrange(0, i));
            assert((bv.subrange(0, i + 1)).last() == bv[i]);
            assert(digits_val(bv.subrange(0, i + 1)) == v);
            assert(bv.subrange(0, i + 1) =~= yb.subrange(0, i + 1));
            lemma_digits_val_prefix(yb, i + 1);
            assert(d.year >= v);
        }
    }
}

/// Two well-formed dates with the same text are the same date, so parsing a
/// rendered date gives back exactly the date that was rendered.
pub proof fn lemma_date_text_injective(a: CivilDate, b: CivilDate)
    requires
        a.wf(),
        b.wf(),
        date_chars(a) == date_chars(b),
    ensures
        a == b,
{
    lemma_date_bytes_ascii(a);
    lemma_date_bytes_ascii(b);
    assert(date_chars(a).len() == date_bytes(a).len());
    assert(date_chars(b).len() == date_bytes(b).len());
    assert(date_bytes(a).len() == date_bytes(b).len());
    assert(date_bytes(a) =~= date_bytes(b)) by {
        assert forall|i: int| 0 <= i < date_bytes(a).len() implies date_bytes(a)[i] == date_bytes(
            b,
        )[i] by {
            assert(date_chars(a)[i] == date_chars(b)[i]);
            assert(date_chars(a)[i] == date_bytes(a)[i] as char);
            assert(date_chars(b)[i] == date_bytes(b)[i] as char);
            assert(((date_bytes(a)[i] as char) as u8) == date_bytes(a)[i]);
            assert(((date_bytes(b)[i] as char) as u8) == date_bytes(b)[i]);
        }
    }
    lemma_date_bytes_structure(a);
    lemma_date_bytes_structure(b);
    let n = date_bytes(a).len() as int;
    assert(year_bytes(a.year as nat) =~= year_bytes(b.year as nat)) by {
        assert(year_bytes(a.year as nat) == date_bytes(a).subrange(0, n - 6));
        assert(year_bytes(b.year as nat) == date_bytes(b).subrange(0, n - 6));
    }
    assert(a.year == b.year);
    vstd::arithmetic::div_mod::lemma_fundamental_div_mod(a.day as int, 10);
    vstd::arithmetic::div_mod::lemma_fundamental_div_mod(b.day as int, 10);
    assert(a.day == b.day);
}

/// The anatomy of a date's text: a year field of at least four digit bytes,
/// then dash, polarity letter, month letter, dash, and two day digit bytes.
pub proof fn lemma_date_bytes_structure(d: CivilDate)
    requires
        d.wf(),
    ensures
        ({
            let db = date_bytes(d);
            let yb = year_bytes(d.year as nat);
            &&& db.len() == yb.len() + 6
            &&& db.len() >= 10
            &&& db.subrange(0, db.len() - 6) == yb
            &&& db[db.len() - 6] == 45
            &&& db[db.len() - 5] == status_byte(d.month.0)
            &&& db[db.len() - 4] == base_month_byte(d.month.1)
            &&& db[db.len() - 3] == 45
            &&& db[db.len() - 2] == 48 + d.day as int / 10
            &&& db[db.len() - 1] == 48 + d.day as int % 10
            &&& all_digits(yb)
            &&& yb.len() >= 4
            &&& (yb.len() == 4 || yb[0] != 48)
            &&& digits_val(yb) == d.year
        }),
{
    lemma_year_bytes(d.year as nat);
    assert(date_bytes(d).subrange(0, date_bytes(d).len() - 6) =~= year_bytes(d.year as nat));
}

} // verus!
