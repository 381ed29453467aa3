use ht_ledger::calendar::CivilDate;
use ht_ledger::calendar::Month;
use ht_ledger::calendar::MonthStatus;

fn date(year: u128, month: (MonthStatus, Month), day: u8) -> CivilDate {
    CivilDate { year, month, day }
}

#[test]
fn renders_padded_year_and_two_digit_day() {
    let d = date(10, (MonthStatus::Greater, Month::Zero), 4);
    assert_eq!(d.to_text(), "0010-GZ-04");
    let d = date(0, (MonthStatus::Lesser, Month::Funny), 0);
    assert_eq!(d.to_text(), "0000-LF-00");
    let d = date(2024, (MonthStatus::Lesser, Month::Apress), 17);
    assert_eq!(d.to_text(), "2024-LA-17");
    let d = date(123456, (MonthStatus::Greater, Month::Smosh), 23);
    assert_eq!(d.to_text(), "123456-GS-23");
}

#[test]
fn renders_every_month_letter() {
    let expect = [
        (Month::Zero, 'Z'),
        (Month::Niktvirin, 'N'),
        (Month::Apress, 'A'),
        (Month::Smosh, 'S'),
        (Month::Funny, 'F'),
    ];
    for (m, c) in expect {
        let s = date(1, (MonthStatus::Greater, m), 1).to_text();
        assert_eq!(s.chars().nth(6).unwrap(), c);
    }
}

#[test]
fn parses_what_it_renders() {
    let dates = [
        date(0, (MonthStatus::Greater, Month::Zero), 0),
        date(10, (MonthStatus::Greater, Month::Zero), 4),
        date(2024, (MonthStatus::Lesser, Month::Apress), 17),
        date(99999, (MonthStatus::Lesser, Month::Niktvirin), 23),
        date(u128::MAX, (MonthStatus::Greater, Month::Funny), 12),
    ];
    for d in dates {
        assert_eq!(CivilDate::from_text(&d.to_text()), Some(d));
    }
}

#[test]
fn parses_known_string() {
    let d = CivilDate::from_text("0010-GZ-05").unwrap();
    assert_eq!(d.year, 10);
    assert_eq!(d.month, (MonthStatus::Greater, Month::Zero));
    assert_eq!(d.day, 5);
}

#[test]
fn rejects_malformed_dates() {
    let bad = [
        "",
        "0010-GZ-24",      // day out of range
        "0010-GZ-4",       // one day digit
        "10-GZ-04",        // year too short
        "00010-GZ-04",     // leading zero in a five-digit year
        "0010-XZ-04",      // unknown polarity letter
        "0010-GY-04",      // unknown month letter
        "0010_GZ-04",      // wrong separator
        "0010-GZ-0a",      // day not a digit
        "a010-GZ-04",      // year not a digit
        "0010-GZ-004",     // day too long
        "340282366920938463463374607431768211456-GZ-04", // year past the low limb
        "\u{00e9}010-GZ-04", // not ASCII
    ];
    for s in bad {
        assert_eq!(CivilDate::from_text(s), None, "accepted {:?}", s);
    }
}

#[test]
fn parses_largest_year() {
    // u128::MAX is the largest year the low limb can name
    let s = "340282366920938463463374607431768211455-GZ-04";
    let d = CivilDate::from_text(s).unwrap();
    assert_eq!(d.year, u128::MAX);
    assert_eq!(d.to_text(), s);
}
