use chain_state::error::{Code, Error};
use chain_state::pots::{EntryType, Pots, Value, ValueError};

#[test]
fn pots_walks_and_totals() {
    let mut pots = Pots::zero();
    assert_eq!(pots.total_value().unwrap(), Value(0));
    pots.append_fees(Value(7)).unwrap();
    pots.append_fees(Value(5)).unwrap();
    assert_eq!(pots.total_value().unwrap(), Value(12));
    let mut entries = pots.entries();
    let first = entries.next().unwrap();
    assert_eq!(first.value(), Value(12));
    assert!(matches!(first.entry_type(), EntryType::Fees));
    let second = entries.next().unwrap();
    assert_eq!(second.value(), Value(0));
    assert!(matches!(second.entry_type(), EntryType::Treasury));
    assert!(entries.next().is_none());
    let mut values = pots.values();
    assert_eq!(values.next(), Some(Value(12)));
    assert_eq!(values.next(), Some(Value(0)));
    assert_eq!(values.next(), None);
    pots.set_from_entry(&second);
    pots.set_from_entry(&chain_state::pots::Entry::Treasury(Value(3)));
    assert_eq!(pots.total_value().unwrap(), Value(15));
    assert_eq!(pots.append_fees(Value(u64::MAX)).unwrap_err(), ValueError::Overflow);
    assert_eq!(Value(u64::MAX).checked_add(Value(1)).unwrap_err(), ValueError::Overflow);
}

#[test]
fn error_codes_carry_through() {
    let e = Error::new(Code::NotFound, String::from("missing block"));
    assert_eq!(e.code(), Code::NotFound);
    assert_eq!(e.source(), "missing block");
    assert_eq!(e.message(), "not found");
    assert_eq!(Error::new(Code::Aborted, String::new()).message(), "the operation was aborted");
}
