use ht_ledger::calendar::CivilDate;
use ht_ledger::calendar::Month;
use ht_ledger::calendar::MonthStatus;
use ht_ledger::calendar::month_to_u8;
use ht_ledger::calendar::u8_to_month;
use ht_ledger::hashday::HashDay;
use ht_ledger::ledger::HLedger;
use ht_ledger::ledger::record;

fn date(year: u128, month: (MonthStatus, Month), day: u8) -> CivilDate {
    CivilDate { year, month, day }
}

#[test]
fn round_trip_simple_date() {
    let d = date(2024, (MonthStatus::Lesser, Month::Apress), 17);
    let hd = HashDay::from_hdatetime(&d);
    assert_eq!(hd.day_hi, 0);
    assert_eq!(hd.day_lo, 2024 * 240 + 5 * 24 + 17);
    assert_eq!(hd.to_hdatetime(), d);
}

#[test]
fn round_trip_edge_dates() {
    let dates = [
        date(0, (MonthStatus::Greater, Month::Zero), 0),
        date(0, (MonthStatus::Lesser, Month::Funny), 23),
        date(1, (MonthStatus::Greater, Month::Niktvirin), 12),
        date(9999, (MonthStatus::Lesser, Month::Smosh), 1),
        date(123456789, (MonthStatus::Greater, Month::Funny), 22),
    ];
    for d in dates {
        assert_eq!(HashDay::from_hdatetime(&d).to_hdatetime(), d);
    }
}

#[test]
fn month_bijection() {
    for i in 0..10u8 {
        assert_eq!(month_to_u8(u8_to_month(i)), i);
    }
}

#[test]
fn add_sub_inverse_with_borrow() {
    let a = HashDay { day_lo: 0, day_hi: 5 };
    let b = HashDay { day_lo: 3, day_hi: 1 };
    assert_eq!(a.add(b).sub(b), a);
    assert_eq!(a.sub(b).add(b), a);
}

#[test]
fn sub_borrows_across_limbs() {
    let a = HashDay { day_lo: 0, day_hi: 5 };
    let one = HashDay { day_lo: 1, day_hi: 0 };
    let r = a.sub(one);
    assert_eq!(r.day_lo, u128::MAX);
    assert_eq!(r.day_hi, 4);
    assert_eq!(r.add(one), a);
}

#[test]
fn add_carries_across_limbs() {
    let a = HashDay { day_lo: u128::MAX, day_hi: 7 };
    let one = HashDay { day_lo: 1, day_hi: 0 };
    let r = a.add(one);
    assert_eq!(r.day_lo, 0);
    assert_eq!(r.day_hi, 8);
    assert_eq!(r.sub(one), a);
}

#[test]
fn calendar_order_is_strict() {
    let ordered = [
        date(3, (MonthStatus::Lesser, Month::Funny), 23),
        date(4, (MonthStatus::Greater, Month::Zero), 0),
        date(4, (MonthStatus::Greater, Month::Zero), 1),
        date(4, (MonthStatus::Lesser, Month::Zero), 0),
        date(4, (MonthStatus::Greater, Month::Niktvirin), 0),
        date(5, (MonthStatus::Greater, Month::Zero), 0),
    ];
    for w in ordered.windows(2) {
        let lo0 = HashDay::from_hdatetime(&w[0]).day_lo;
        let lo1 = HashDay::from_hdatetime(&w[1]).day_lo;
        assert!(lo0 < lo1);
    }
}

#[test]
fn import_anchoring_skips_sentinel_days() {
    let mut ledger = HLedger::new();
    let today = date(10, (MonthStatus::Greater, Month::Zero), 5);
    let history: Vec<u128> = vec![10, 0, 30];
    ledger.import_from_htcal(&history, &today);
    let base: u128 = 10 * 240 + 5;
    let entries = ledger.entries();
    assert_eq!(entries.len(), 2);
    assert_eq!(entries[0], (HashDay { day_lo: base - 3, day_hi: 0 }, 30));
    assert_eq!(entries[1], (HashDay { day_lo: base - 1, day_hi: 0 }, 10));
}

#[test]
fn reimport_is_idempotent() {
    let today = date(7, (MonthStatus::Lesser, Month::Smosh), 11);
    let history: Vec<u128> = vec![100, 0, 7, 7, 0, 42];
    let mut once = HLedger::new();
    once.import_from_htcal(&history, &today);
    let mut twice = HLedger::new();
    twice.import_from_htcal(&history, &today);
    twice.import_from_htcal(&history, &today);
    assert_eq!(once.entries(), twice.entries());
}

#[test]
fn record_imports_into_loaded_ledger() {
    let ledger = HLedger::new();
    let today = date(10, (MonthStatus::Greater, Month::Zero), 5);
    let history: Vec<u128> = vec![10, 0, 30];
    let saved = record(ledger, &history, &today);
    assert_eq!(saved.entries().len(), 2);
}

#[test]
fn import_overwrites_prior_values() {
    let today = date(2, (MonthStatus::Greater, Month::Zero), 3);
    let mut ledger = HLedger::new();
    ledger.import_from_htcal(&vec![5], &today);
    ledger.import_from_htcal(&vec![9], &today);
    let entries = ledger.entries();
    assert_eq!(entries.len(), 1);
    assert_eq!(entries[0].1, 9);
}

#[test]
fn collect_on_empty_ledger_is_empty() {
    let ledger = HLedger::new();
    let d = date(12, (MonthStatus::Greater, Month::Apress), 8);
    assert!(ledger.collect(&d).is_empty());
}

#[test]
fn collect_finds_imported_days_most_recent_first() {
    let mut ledger = HLedger::new();
    let today = date(10, (MonthStatus::Greater, Month::Zero), 5);
    ledger.import_from_htcal(&vec![10, 0, 30], &today);
    let records = ledger.collect(&today);
    assert_eq!(records.len(), 2);
    assert_eq!(records[0].day, "0010-GZ-04");
    assert_eq!(records[0].seconds, 10);
    assert_eq!(records[1].day, "0010-GZ-02");
    assert_eq!(records[1].seconds, 30);
}

#[test]
fn collect_window_is_bounded_and_decreasing() {
    let mut ledger = HLedger::new();
    // thirty consecutive days ending at year 1, month 0 greater, day 14
    let query = date(1, (MonthStatus::Greater, Month::Zero), 14);
    let base = HashDay::from_hdatetime(&query);
    let mut cursor = base;
    let one = HashDay { day_lo: 1, day_hi: 0 };
    for i in 0..30u128 {
        ledger.insert(cursor, 1000 + i);
        cursor = cursor.sub(one);
    }
    let records = ledger.collect(&query);
    assert_eq!(records.len(), 24);
    assert_eq!(records[0].seconds, 1000);
    assert_eq!(records[23].seconds, 1023);
    for w in records.windows(2) {
        assert!(w[0].day > w[1].day);
    }
}

#[test]
fn collect_includes_query_day_only_if_present() {
    let mut ledger = HLedger::new();
    let query = date(3, (MonthStatus::Lesser, Month::Zero), 9);
    let earlier = HashDay::from_hdatetime(&query).sub(HashDay { day_lo: 2, day_hi: 0 });
    ledger.insert(earlier, 55);
    let records = ledger.collect(&query);
    assert_eq!(records.len(), 1);
    assert_eq!(records[0].day, "0003-LZ-07");
    assert_eq!(records[0].seconds, 55);
}
