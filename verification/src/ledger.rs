//! The day-to-seconds ledger store.
//!
//! A ledger is a mapping from [`HashDay`] to an elapsed-seconds count, kept
//! as a vector of entries in strictly ascending day order.  A day that is
//! absent means "no data", not zero seconds.  Importing folds a fetched
//! recent-history array into the map, anchored one day before a given
//! "today"; collecting walks up to twenty-four days backward from a queried
//! date and returns the present ones as display records.

use vstd::prelude::*;

verus! {

use crate::calendar::CivilDate;
use crate::calendar::civil_of_lo;
use crate::hashday::HashDay;
use crate::hashday::day_modulus;
use crate::hashday::lemma_lin_bounds;
use crate::text::date_chars;
use vstd::arithmetic::div_mod::lemma_fundamental_div_mod_converse;

/// The unit step on the day timeline.
pub open spec fn one_day() -> HashDay {
    HashDay { day_lo: 1, day_hi: 0 }
}

/// The counter a civil date linearizes to.
pub open spec fn day_of_date(d: CivilDate) -> HashDay {
    HashDay { day_lo: crate::calendar::day_of_civil(d), day_hi: 0 }
}

/// `c` moved `k` days into the past.
pub open spec fn back(c: HashDay, k: nat) -> HashDay
    decreases k,
{
    if k == 0 {
        c
    } else {
        back(c, (k - 1) as nat).sub_spec(one_day())
    }
}

/// The map a sequence of entries denotes, later entries overriding earlier
/// ones.
pub open spec fn map_of(s: Seq<(HashDay, u128)>) -> Map<HashDay, u128>
    decreases s.len(),
{
    if s.len() == 0 {
        Map::empty()
    } else {
        map_of(s.drop_last()).insert(s.last().0, s.last().1)
    }
}

/// Entries strictly ascending by day.
pub open spec fn sorted_entries(s: Seq<(HashDay, u128)>) -> bool {
    forall|i: int, j: int|
        0 <= i < j < s.len() ==> (#[trigger] s[i]).0.lin() < (#[trigger] s[j]).0.lin()
}

/// Pairwise distinct days.
pub open spec fn distinct_days(s: Seq<(HashDay, u128)>) -> bool {
    forall|i: int, j: int| 0 <= i < j < s.len() ==> (#[trigger] s[i]).0 != (#[trigger] s[j]).0
}

/// The ledger after folding in a history array: entries are taken in order,
/// most recent day first; a zero entry is the "no data" sentinel and writes
/// nothing, but the cursor still steps one day into the past for every
/// entry.
pub open spec fn import_map(m: Map<HashDay, u128>, cursor: HashDay, h: Seq<u128>) -> Map<
    HashDay,
    u128,
>
    decreases h.len(),
{
    if h.len() == 0 {
        m
    } else {
        let m1 = if h[0] != 0 {
            m.insert(cursor, h[0])
        } else {
            m
        };
        import_map(m1, cursor.sub_spec(one_day()), h.drop_first())
    }
}

/// The days found by walking `k` days into the past from `c`, most recent
/// first, paired with their seconds; absent days are skipped.
pub open spec fn collect_pairs(m: Map<HashDay, u128>, c: HashDay, k: nat) -> Seq<(HashDay, u128)>
    decreases k,
{
    if k == 0 {
        Seq::empty()
    } else {
        (if m.contains_key(c) {
            seq![(c, m[c])]
        } else {
            Seq::empty()
        }) + collect_pairs(m, c.sub_spec(one_day()), (k - 1) as nat)
    }
}

/// The externally visible outcome of a range query: a rendered date string
/// and that day's seconds.
#[derive(Debug)]
pub struct HLedgerRecord {
    pub day: String,
    pub seconds: u128,
}

/// The ledger: a sparse day-to-seconds mapping.
pub struct HLedger {
    entries: Vec<(HashDay, u128)>,
}

impl View for HLedger {
    type V = Map<HashDay, u128>;

    closed spec fn view(&self) -> Map<HashDay, u128> {
        map_of(self.entries@)
    }
}

impl HLedger {
    /// The underlying entry sequence.
    pub closed spec fn entries_seq(self) -> Seq<(HashDay, u128)> {
        self.entries@
    }

    /// Entries are kept in strictly ascending day order, which also makes
    /// the days unique.
    pub open spec fn wf(self) -> bool {
        sorted_entries(self.entries_seq())
    }

    /// A fresh, empty ledger.
    pub fn new() -> (l: HLedger)
        ensures
            l.wf(),
            l@ == Map::<HashDay, u128>::empty(),
    {
        HLedger { entries: Vec::new() }
    }

    /// Writes the seconds for a day, replacing any prior value, and keeps
    /// the entries sorted.
    #[verifier::rlimit(60)]
    pub fn insert(&mut self, day: HashDay, seconds: u128)
        requires
            old(self).wf(),
        ensures
            final(self).wf(),
            final(self)@ == old(self)@.insert(day, seconds),
    {
        let ghost s0 = self.entries@;
        proof {
            assert(sorted_entries(s0));
        }
        let mut idx: usize = 0;
        while idx < self.entries.len() && self.entries[idx].0.is_before(day)
            invariant
                0 <= idx <= self.entries@.len(),
                self.entries@ == s0,
                sorted_entries(s0),
                forall|j: int| 0 <= j < idx ==> (#[trigger] s0[j]).0.lin() < day.lin(),
            decreases self.entries@.len() - idx,
        {
            idx += 1;
        }
        proof {
            lemma_wf_keys_distinct(s0);
        }
        if idx < self.entries.len() && self.entries[idx].0.day_lo == day.day_lo
            && self.entries[idx].0.day_hi == day.day_hi {
            self.entries.set(idx, (day, seconds));
            proof {
                let s1 = self.entries@;
                assert(s1 =~= s0.update(idx as int, (day, seconds)));
                assert(s0[idx as int].0 == day);
                assert(sorted_entries(s1)) by {
                    assert forall|i: int, j: int| 0 <= i < j < s1.len() implies (
                    #[trigger] s1[i]).0.lin() < (#[trigger] s1[j]).0.lin() by {
                        assert(s0[i].0.lin() < s0[j].0.lin());
                        assert(s1[i].0.lin() == s0[i].0.lin());
                        assert(s1[j].0.lin() == s0[j].0.lin());
                    }
                }
                lemma_wf_keys_distinct(s1);
                lemma_map_of_props(s0);
                lemma_map_of_props(s1);
                assert forall|d: HashDay| #[trigger] map_of(s1).contains_key(d) implies map_of(
                    s0,
                ).insert(day, seconds).contains_key(d) && map_of(s1)[d] == map_of(s0).insert(
                    day,
                    seconds,
                )[d] by {
                    let i = choose|i: int| 0 <= i < s1.len() && s1[i].0 == d;
                    if i == idx {
                        assert(map_of(s1)[d] == seconds);
                    } else {
                        assert(s1[i] == s0[i]);
                        assert(s0[i].0.lin() != day.lin());
                        crate::hashday::lemma_day_from_lin_of_lin(s0[i].0);
                        crate::hashday::lemma_day_from_lin_of_lin(day);
                        assert(s0[i].0 != day);
                        assert(map_of(s0).contains_key(d) && map_of(s0)[d] == s0[i].1);
                    }
                }
                assert forall|d: HashDay| #[trigger] map_of(s0).insert(day, seconds).contains_key(
                    d,
                ) implies map_of(s1).contains_key(d) by {
                    if d == day {
                        assert(map_of(s1).contains_key(s1[idx as int].0));
                    } else {
                        let i = choose|i: int| 0 <= i < s0.len() && s0[i].0 == d;
                        assert(s1[i].0 == d);
                        assert(map_of(s1).contains_key(s1[i].0));
                    }
                }
                assert(map_of(s1) =~= map_of(s0).insert(day, seconds));
            }
        } else {
            proof {
                if idx < s0.len() {
                    assert(!(s0[idx as int].0.lin() < day.lin()));
                    crate::hashday::lemma_day_from_lin_of_lin(s0[idx as int].0);
                    crate::hashday::lemma_day_from_lin_of_lin(day);
                    assert(s0[idx as int].0.lin() != day.lin());
                }
            }
            self.entries.insert(idx, (day, seconds));
            proof {
                let s1 = self.entries@;
                assert(s1 == s0.insert(idx as int, (day, seconds)));
                assert(sorted_entries(s1)) by {
                assert forall|i: int, j: int| 0 <= i < j < s1.len() implies (
                #[trigger] s1[i]).0.lin() < (#[trigger] s1[j]).0.lin() by {
                    if i < idx {
                        assert(s1[i] == s0[i]);
                    } else if i > idx {
                        assert(s1[i] == s0[i - 1]);
                    }
                    if j < idx {
                        assert(s1[j] == s0[j]);
                    } else if j > idx {
                        assert(s1[j] == s0[j - 1]);
                    }
                    if j == idx {
                        assert(s1[j].0 == day);
                        assert(s0[i].0.lin() < day.lin());
                    }
                    if i == idx {
                        assert(s1[i].0 == day);
                        assert(!(s0[j - 1].0.lin() < day.lin()));
                        assert(s0[j - 1].0.lin() != day.lin());
                    }
                }
                }
                lemma_wf_keys_distinct(s1);
                lemma_map_of_props(s0);
                lemma_map_of_props(s1);
                assert forall|d: HashDay| #[trigger] map_of(s1).contains_key(d) implies map_of(
                    s0,
                ).insert(day, seconds).contains_key(d) && map_of(s1)[d] == map_of(s0).insert(
                    day,
                    seconds,
                )[d] by {
                    let i = choose|i: int| 0 <= i < s1.len() && s1[i].0 == d;
                    if i == idx {
                        assert(map_of(s1)[d] == seconds);
                    } else {
                        let i0: int = if i < idx {
                            i
                        } else {
                            i - 1
                        };
                        assert(s1[i] == s0[i0]);
                        assert(s0[i0].0.lin() != day.lin());
                        crate::hashday::lemma_day_from_lin_of_lin(s0[i0].0);
                        crate::hashday::lemma_day_from_lin_of_lin(day);
                        assert(s0[i0].0 != day);
                        assert(map_of(s0).contains_key(d) && map_of(s0)[d] == s0[i0].1);
                    }
                }
                assert forall|d: HashDay| #[trigger] map_of(s0).insert(day, seconds).contains_key(
                    d,
                ) implies map_of(s1).contains_key(d) by {
                    if d == day {
                        assert(s1[idx as int].0 == d);
                        assert(map_of(s1).contains_key(s1[idx as int].0));
                    } else {
                        let i = choose|i: int| 0 <= i < s0.len() && s0[i].0 == d;
                        let i1: int = if i < idx {
                            i
                        } else {
                            i + 1
                        };
                        assert(s1[i1].0 == d);
                        assert(map_of(s1).contains_key(s1[i1].0));
                    }
                }
                assert(map_of(s1) =~= map_of(s0).insert(day, seconds));
            }
        }
    }

    /// Looks a day up.
    fn lookup(&self, day: HashDay) -> (r: Option<u128>)
        requires
            self.wf(),
        ensures
            r == if self@.contains_key(day) {
                Some(self@[day])
            } else {
                None::<u128>
            },
    {
        proof {
            lemma_wf_keys_distinct(self.entries@);
            lemma_map_of_props(self.entries@);
        }
        let mut i: usize = 0;
        while i < self.entries.len()
            invariant
                0 <= i <= self.entries@.len(),
                self.wf(),
                forall|j: int| 0 <= j < i ==> (#[trigger] self.entries@[j]).0 != day,
            decreases self.entries@.len() - i,
        {
            let e = self.entries[i];
            if e.0.day_lo == day.day_lo && e.0.day_hi == day.day_hi {
                proof {
                    lemma_wf_keys_distinct(self.entries@);
                    lemma_map_of_props(self.entries@);
                    assert(self.entries@[i as int].0 == day);
                }
                return Some(e.1);
            }
            i += 1;
        }
        proof {
            lemma_wf_keys_distinct(self.entries@);
            lemma_map_of_props(self.entries@);
            if self@.contains_key(day) {
                let j = choose|j: int|
                    0 <= j < self.entries@.len() && self.entries@[j].0 == day;
            }
        }
        None
    }

    /// Folds a fetched history into the ledger.  `history[0]` is yesterday
    /// relative to `today`, and each later entry one day earlier; zero
    /// entries write nothing but still advance the cursor.
    pub fn import_from_htcal(&mut self, history: &Vec<u128>, today: &CivilDate)
        requires
            old(self).wf(),
            today.wf(),
            today.fits(),
        ensures
            final(self).wf(),
            final(self)@ == import_map(
                old(self)@,
                day_of_date(*today).sub_spec(one_day()),
                history@,
            ),
    {
        let mut cursor = HashDay::from_packetdata(today).sub(HashDay { day_lo: 1, day_hi: 0 });
        let ghost start = cursor;
        let ghost m0 = self@;
        proof {
            assert(history@.subrange(0, 0) =~= Seq::<u128>::empty());
        }
        let mut i: usize = 0;
        while i < history.len()
            invariant
                0 <= i <= history@.len(),
                self.wf(),
                cursor == back(start, i as nat),
                self@ == import_map(m0, start, history@.subrange(0, i as int)),
            decreases history@.len() - i,
        {
            let v = history[i];
            if v != 0 {
                self.insert(cursor, v);
            }
            cursor = cursor.sub(HashDay { day_lo: 1, day_hi: 0 });
            proof {
                let pre = history@.subrange(0, i as int);
                let unit = seq![history@[i as int]];
                assert(history@.subrange(0, i + 1) =~= pre + unit);
                lemma_import_concat(m0, start, pre, unit);
                let mb = import_map(m0, start, pre);
                let cb = back(start, i as nat);
                let m1 = if unit[0] != 0 {
                    mb.insert(cb, unit[0])
                } else {
                    mb
                };
                assert(unit.len() == 1);
                assert(import_map(mb, cb, unit) == import_map(
                    m1,
                    cb.sub_spec(one_day()),
                    unit.drop_first(),
                ));
                assert(unit.drop_first().len() == 0);
                assert(import_map(m1, cb.sub_spec(one_day()), unit.drop_first()) == m1);
                assert(back(start, (i + 1) as nat) == back(start, i as nat).sub_spec(one_day()));
            }
            i += 1;
        }
        proof {
            assert(history@.subrange(0, history@.len() as int) =~= history@);
        }
    }

    /// Walks twenty-four days backward from the queried date, most recent
    /// first, and returns a record for every day the ledger knows, with the
    /// day rendered in its text form.
    pub fn collect(&self, day: &CivilDate) -> (records: Vec<HLedgerRecord>)
        requires
            self.wf(),
            day.wf(),
            day.fits(),
        ensures
            ({
                let pairs = collect_pairs(self@, day_of_date(*day), 24);
                &&& records@.len() == pairs.len()
                &&& forall|i: int|
                    0 <= i < pairs.len() ==> records@[i].seconds == (#[trigger] pairs[i]).1
                &&& forall|i: int|
                    0 <= i < pairs.len() ==> records@[i].day@ == date_chars(
                        civil_of_lo((#[trigger] pairs[i]).0.day_lo),
                    )
            }),
    {
        let mut cursor = HashDay::from_hdatetime(day);
        let ghost start = cursor;
        let mut records: Vec<HLedgerRecord> = Vec::new();
        let mut i: usize = 0;
        while i < 24
            invariant
                0 <= i <= 24,
                self.wf(),
                cursor == back(start, i as nat),
                ({
                    let pairs = collect_pairs(self@, start, i as nat);
                    &&& records@.len() == pairs.len()
                    &&& forall|j: int|
                        0 <= j < pairs.len() ==> records@[j].seconds == (#[trigger] pairs[j]).1
                    &&& forall|j: int|
                        0 <= j < pairs.len() ==> records@[j].day@ == date_chars(
                            civil_of_lo((#[trigger] pairs[j]).0.day_lo),
                        )
                }),
            decreases 24 - i,
        {
            proof {
                lemma_collect_snoc(self@, start, i as nat);
            }
            match self.lookup(cursor) {
                Some(seconds) => {
                    let text = cursor.to_hdatetime().to_text();
                    records.push(HLedgerRecord { day: text, seconds });
                },
                None => {
                },
            }
            cursor = cursor.sub(HashDay { day_lo: 1, day_hi: 0 });
            i += 1;
        }
        records
    }

    /// The entries in ascending day order, for persisting.
    pub fn entries(&self) -> (r: &Vec<(HashDay, u128)>)
        ensures
            r@ == self.entries_seq(),
            map_of(r@) == self@,
    {
        &self.entries
    }
}

/// Records into a ledger: folds the fetched history, anchored at the fetched
/// "today", and hands the ledger back for saving.
pub fn record(ledger: HLedger, history: &Vec<u128>, today: &CivilDate) -> (r: HLedger)
    requires
        ledger.wf(),
        today.wf(),
        today.fits(),
    ensures
        r.wf(),
        r@ == import_map(ledger@, day_of_date(*today).sub_spec(one_day()), history@),
{
    let mut l = ledger;
    l.import_from_htcal(history, today);
    l
}

/// Strictly sorted entries have pairwise distinct days.
proof fn lemma_wf_keys_distinct(s: Seq<(HashDay, u128)>)
    requires
        sorted_entries(s),
    ensures
        distinct_days(s),
{
}

/// What the map of a distinct-keyed entry sequence holds: exactly the listed
/// days, each with its listed seconds.
pub proof fn lemma_map_of_props(s: Seq<(HashDay, u128)>)
    requires
        distinct_days(s),
    ensures
        forall|i: int|
            0 <= i < s.len() ==> map_of(s).contains_key((#[trigger] s[i]).0) && map_of(s)[s[i].0]
                == s[i].1,
        forall|d: HashDay|
            #[trigger] map_of(s).contains_key(d) ==> exists|i: int|
                0 <= i < s.len() && s[i].0 == d,
    decreases s.len(),
{
    if s.len() > 0 {
        let p = s.drop_last();
        assert(distinct_days(p)) by {
            assert forall|i: int, j: int| 0 <= i < j < p.len() implies (#[trigger] p[i]).0 != (
            #[trigger] p[j]).0 by {
                assert(p[i] == s[i]);
                assert(p[j] == s[j]);
            }
        }
        lemma_map_of_props(p);
        assert forall|i: int|
            0 <= i < s.len() implies map_of(s).contains_key((#[trigger] s[i]).0) && map_of(
            s,
        )[s[i].0] == s[i].1 by {
            if i < s.len() - 1 {
                assert(p[i] == s[i]);
                assert(s[i].0 != s.last().0);
            }
        }
        assert forall|d: HashDay| #[trigger] map_of(s).contains_key(d) implies exists|i: int|
            0 <= i < s.len() && s[i].0 == d by {
            if d == s.last().0 {
                assert(s[s.len() - 1].0 == d);
            } else {
                assert(map_of(p).contains_key(d));
                let i = choose|i: int| 0 <= i < p.len() && p[i].0 == d;
                assert(s[i].0 == d);
            }
        }
    }
}

/// Stepping into the past commutes with peeling the first step off.
proof fn lemma_back_shift(c: HashDay, k: nat)
    requires
        k >= 1,
    ensures
        back(c, k) == back(c.sub_spec(one_day()), (k - 1) as nat),
    decreases k,
{
    if k == 1 {
        assert(back(c, 1) == back(c, 0nat).sub_spec(one_day()));
        assert(back(c, 0nat) == c);
        assert(back(c.sub_spec(one_day()), 0nat) == c.sub_spec(one_day()));
    } else {
        lemma_back_shift(c, (k - 1) as nat);
    }
}

/// Importing a split history imports the first part, then the second from
/// where the cursor has arrived.
proof fn lemma_import_concat(m: Map<HashDay, u128>, c: HashDay, h1: Seq<u128>, h2: Seq<u128>)
    ensures
        import_map(m, c, h1 + h2) == import_map(import_map(m, c, h1), back(c, h1.len()), h2),
    decreases h1.len(),
{
    if h1.len() == 0 {
        assert(h1 + h2 =~= h2);
    } else {
        let m1 = if (h1 + h2)[0] != 0 {
            m.insert(c, (h1 + h2)[0])
        } else {
            m
        };
        assert((h1 + h2)[0] == h1[0]);
        assert((h1 + h2).drop_first() =~= h1.drop_first() + h2);
        lemma_import_concat(m1, c.sub_spec(one_day()), h1.drop_first(), h2);
        lemma_back_shift(c, h1.len());
    }
}

/// Stepping one day into the past of a counter that is not at the epoch
/// lowers its linear value by exactly one.
proof fn lemma_sub_one_lin(c: HashDay)
    requires
        c.lin() >= 1,
    ensures
        c.sub_spec(one_day()).lin() == c.lin() - 1,
{
    lemma_lin_bounds(c);
    assert(one_day().lin() == 1);
    lemma_fundamental_div_mod_converse(c.lin() - 1, day_modulus(), 0, c.lin() - 1);
    crate::hashday::lemma_lin_of_day_from_lin(c.lin() - 1);
}

/// The window bound and its order: a walk of `k` days that does not cross
/// the epoch yields at most `k` pairs, in strictly decreasing day order,
/// none of them later than the starting day.
pub proof fn lemma_collect_window(m: Map<HashDay, u128>, c: HashDay, k: nat)
    requires
        c.lin() + 1 >= k,
    ensures
        collect_pairs(m, c, k).len() <= k,
        forall|i: int, j: int|
            0 <= i < j < collect_pairs(m, c, k).len() ==> (#[trigger] collect_pairs(m, c, k)[i]).0.lin()
                > (#[trigger] collect_pairs(m, c, k)[j]).0.lin(),
        forall|i: int|
            0 <= i < collect_pairs(m, c, k).len() ==> (#[trigger] collect_pairs(m, c, k)[i]).0.lin()
                <= c.lin(),
    decreases k,
{
    if k > 0 {
        let rest = collect_pairs(m, c.sub_spec(one_day()), (k - 1) as nat);
        let head: Seq<(HashDay, u128)> = if m.contains_key(c) {
            seq![(c, m[c])]
        } else {
            Seq::empty()
        };
        let pairs = collect_pairs(m, c, k);
        assert(pairs == head + rest);
        if k >= 2 {
            lemma_sub_one_lin(c);
            lemma_collect_window(m, c.sub_spec(one_day()), (k - 1) as nat);
        } else {
            lemma_collect_window(m, c.sub_spec(one_day()), 0);
        }
        assert forall|i: int, j: int|
            0 <= i < j < pairs.len() implies (#[trigger] pairs[i]).0.lin() > (
        #[trigger] pairs[j]).0.lin() by {
            if i >= head.len() {
                assert(pairs[i] == rest[i - head.len()]);
                assert(pairs[j] == rest[j - head.len()]);
            } else {
                assert(pairs[i] == head[0]);
                assert(pairs[j] == rest[j - head.len()]);
            }
        }
        assert forall|i: int| 0 <= i < pairs.len() implies (#[trigger] pairs[i]).0.lin()
            <= c.lin() by {
            if i >= head.len() {
                assert(pairs[i] == rest[i - head.len()]);
            }
        }
    }
}

/// A walk over a ledger with no data finds nothing.
pub proof fn lemma_collect_empty(c: HashDay, k: nat)
    ensures
        collect_pairs(Map::<HashDay, u128>::empty(), c, k) == Seq::<(HashDay, u128)>::empty(),
    decreases k,
{
    if k > 0 {
        lemma_collect_empty(c.sub_spec(one_day()), (k - 1) as nat);
        assert(collect_pairs(Map::<HashDay, u128>::empty(), c, k) =~= Seq::<(
            HashDay,
            u128,
        )>::empty());
    }
}

/// An import only writes: it equals laying the patch it would write into an
/// empty ledger over the starting map, newer values winning.
proof fn lemma_import_as_patch(m: Map<HashDay, u128>, c: HashDay, h: Seq<u128>)
    ensures
        import_map(m, c, h) == m.union_prefer_right(
            import_map(Map::<HashDay, u128>::empty(), c, h),
        ),
    decreases h.len(),
{
    let e = Map::<HashDay, u128>::empty();
    if h.len() == 0 {
        assert(m.union_prefer_right(e) =~= m);
    } else {
        let m1 = if h[0] != 0 {
            m.insert(c, h[0])
        } else {
            m
        };
        let p1 = if h[0] != 0 {
            e.insert(c, h[0])
        } else {
            e
        };
        let rest = h.drop_first();
        let c1 = c.sub_spec(one_day());
        lemma_import_as_patch(m1, c1, rest);
        lemma_import_as_patch(p1, c1, rest);
        let pr = import_map(e, c1, rest);
        assert(import_map(m, c, h) == m1.union_prefer_right(pr));
        assert(import_map(e, c, h) == p1.union_prefer_right(pr));
        assert(m1.union_prefer_right(pr) =~= m.union_prefer_right(p1.union_prefer_right(pr)));
    }
}

/// Importing the same history at the same anchor twice leaves the ledger as
/// one import does.
pub proof fn lemma_import_idempotent(m: Map<HashDay, u128>, c: HashDay, h: Seq<u128>)
    ensures
        import_map(import_map(m, c, h), c, h) == import_map(m, c, h),
{
    lemma_import_as_patch(m, c, h);
    lemma_import_as_patch(import_map(m, c, h), c, h);
    let p = import_map(Map::<HashDay, u128>::empty(), c, h);
    assert(m.union_prefer_right(p).union_prefer_right(p) =~= m.union_prefer_right(p));
}

/// Extending the window by one day appends at most one pair, for the day
/// that far back.
proof fn lemma_collect_snoc(m: Map<HashDay, u128>, c: HashDay, k: nat)
    ensures
        collect_pairs(m, c, k + 1) == collect_pairs(m, c, k) + (if m.contains_key(back(c, k)) {
            seq![(back(c, k), m[back(c, k)])]
        } else {
            Seq::<(HashDay, u128)>::empty()
        }),
    decreases k,
{
    if k == 0 {
        assert(collect_pairs(m, c.sub_spec(one_day()), 0) =~= Seq::<(HashDay, u128)>::empty());
        assert(collect_pairs(m, c, 1) =~= collect_pairs(m, c, 0) + (if m.contains_key(c) {
            seq![(c, m[c])]
        } else {
            Seq::<(HashDay, u128)>::empty()
        }));
    } else {
        lemma_collect_snoc(m, c.sub_spec(one_day()), (k - 1) as nat);
        lemma_back_shift(c, k);
        assert(collect_pairs(m, c, k + 1) =~= collect_pairs(m, c, k) + (if m.contains_key(
            back(c, k),
        ) {
            seq![(back(c, k), m[back(c, k)])]
        } else {
            Seq::<(HashDay, u128)>::empty()
        }));
    }
}

} // verus!
