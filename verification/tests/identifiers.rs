use mio_core::{MioId, OpId, RingId};

fn id(epoch: u128, ord: usize) -> RingId {
    RingId { epoch, ord }
}

#[test]
fn stem_is_time_in_hex_then_ordinal_in_decimal() {
    assert_eq!(id(0x1a2b, 42).stem(), "1a2b-42");
    assert_eq!(id(0, 0).stem(), "0-0");
    assert_eq!(id(255, 10).stem(), "ff-10");
    assert_eq!(id(16, 100).stem(), "10-100");
    assert_eq!(
        id(u128::MAX, usize::MAX).stem(),
        format!("{:x}-{}", u128::MAX, usize::MAX)
    );
    assert_eq!(MioId(id(0xabc, 7)).stem(), "abc-7");
    assert_eq!(OpId(id(0xabc, 8)).stem(), "abc-8");
}

#[test]
fn stem_agrees_with_the_formatting_of_the_standard_library() {
    for (epoch, ord) in [
        (1u128, 1usize),
        (9, 9),
        (10, 10),
        (15, 15),
        (1 << 64, 1 << 20),
        (1_700_000_000_000_000_000, 123_456_789),
    ] {
        assert_eq!(id(epoch, ord).stem(), format!("{:x}-{}", epoch, ord));
    }
}

#[test]
fn stems_read_back() {
    for (epoch, ord) in [
        (0u128, 0usize),
        (1, 2),
        (0xdead_beef, 77),
        (u128::MAX, usize::MAX),
        (1_700_000_000_123_456_789, 5),
    ] {
        let written = id(epoch, ord);
        assert_eq!(RingId::parse(&written.stem()), Some(written));
    }
}

#[test]
fn reading_takes_either_case_and_a_plus_sign() {
    assert_eq!(RingId::parse("FF-7"), Some(id(255, 7)));
    assert_eq!(RingId::parse("aB-7"), Some(id(0xab, 7)));
    assert_eq!(RingId::parse("+ff-+7"), Some(id(255, 7)));
    assert_eq!(RingId::parse("00ff-007"), Some(id(255, 7)));
}

#[test]
fn reading_stops_at_the_second_hyphen() {
    assert_eq!(RingId::parse("ff-7-junk"), Some(id(255, 7)));
    assert_eq!(RingId::parse("ff-7-"), Some(id(255, 7)));
}

#[test]
fn what_is_no_stem_is_not_read() {
    for text in [
        "", "ff", "ff-", "-7", "-", "+-7", "ff-+", "fg-7", "ff-7a", "ff--7", " ff-7", "ff-7 ",
        "ff-é", "0x10-7",
    ] {
        assert_eq!(RingId::parse(text), None, "{:?}", text);
    }
}

#[test]
fn numbers_out_of_range_are_not_read() {
    let most = format!("{:x}-{}", u128::MAX, usize::MAX);
    assert_eq!(RingId::parse(&most), Some(id(u128::MAX, usize::MAX)));
    let time_too_large = format!("1{:x}-0", u128::MAX);
    assert_eq!(RingId::parse(&time_too_large), None);
    let ordinal_too_large = format!("0-{}0", usize::MAX);
    assert_eq!(RingId::parse(&ordinal_too_large), None);
    let ordinal_one_more = format!("0-{}", usize::MAX as u128 + 1);
    assert_eq!(RingId::parse(&ordinal_one_more), None);
}

#[test]
fn identifiers_convert_both_ways() {
    let plain = id(5, 6);
    let mio: MioId = plain.into();
    let op: OpId = plain.into();
    assert_eq!(mio, MioId(plain));
    assert_eq!(op, OpId(plain));
    assert_eq!(RingId::from(mio), plain);
    assert_eq!(RingId::from(op), plain);
}

#[test]
fn identifiers_are_the_same_where_both_parts_are() {
    assert_eq!(id(1, 2), id(1, 2));
    assert_ne!(id(1, 2), id(1, 3));
    assert_ne!(id(1, 2), id(2, 2));
}

#[test]
fn a_clock_before_the_epoch_reads_as_zero() {
    assert_eq!(mio_core::ident::nanos_or_zero(None), 0);
    assert_eq!(mio_core::ident::nanos_or_zero(Some(0)), 0);
    assert_eq!(mio_core::ident::nanos_or_zero(Some(1_700_000_000_123_456_789)), 1_700_000_000_123_456_789);
    assert_eq!(mio_core::ident::nanos_or_zero(Some(u128::MAX)), u128::MAX);
}

#[test]
fn nanoseconds_are_cut_to_whole_milliseconds() {
    assert_eq!(mio_core::ident::millis_of(0), 0);
    assert_eq!(mio_core::ident::millis_of(999_999), 0);
    assert_eq!(mio_core::ident::millis_of(1_000_000), 1);
    assert_eq!(mio_core::ident::millis_of(2_500_000), 2);
    assert_eq!(mio_core::ident::millis_of(1_700_000_000_123_456_789), 1_700_000_000_123);
    assert_eq!(mio_core::ident::millis_of(u128::MAX), u128::MAX / 1_000_000);
}

#[test]
fn the_clock_in_milliseconds_is_a_reading_in_whole_milliseconds() {
    let millis = mio_core::epoch_millis();
    assert!(millis <= u128::MAX / 1_000_000);
    assert!(millis > 0);
}
