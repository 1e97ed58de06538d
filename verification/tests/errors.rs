use deckpack::{Error, Kind};

#[test]
fn error_keeps_kind_and_message() {
    let err = Error::new(Kind::SavingDeck, String::from("disk full"));
    assert_eq!(err.kind(), Kind::SavingDeck);
    assert_eq!(err.message(), "disk full");
}

#[test]
fn error_describe_names_the_operation() {
    let err = Error::new(Kind::SavingDeck, String::from("boom"));
    assert_eq!(err.describe(), "Error while saving deck to .deck file: boom");
    let err = Error::new(Kind::GettingDeckFromFile, String::from("boom"));
    assert_eq!(err.describe(), "Error while getting deck from .deck file: boom");
    let err = Error::new(Kind::SavingFileDesc, String::from("boom"));
    assert_eq!(err.describe(), "Error while saving program file descriptor: boom");
    let err = Error::new(Kind::CreatingFileDesc, String::from("boom"));
    assert_eq!(err.describe(), "Error while creating program file descriptor: boom");
    let err = Error::new(Kind::OpeningFileDesc, String::from("boom"));
    assert_eq!(err.describe(), "Error while opening program file descriptor: boom");
}
