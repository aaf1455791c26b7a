use nova_forms::Accept;
use nova_forms::AcceptError;
use nova_forms::Date;
use nova_forms::DateTime;
use nova_forms::DateTimeError;
use nova_forms::Email;
use nova_forms::Iban;
use nova_forms::NonEmptyString;
use nova_forms::NonEmptyStringError;
use nova_forms::Phone;
use nova_forms::PostalCodeCH;
use nova_forms::Telephone;
use nova_forms::TelephoneError;
use nova_forms::Time;

#[test]
fn test_accept() {
    assert_eq!(Accept::validate(true).unwrap().get(), true);
    assert_eq!(Accept::validate(false).unwrap_err(), AcceptError::NotAccepted);
}

#[test]
fn test_non_empty_string() {
    assert_eq!(NonEmptyString::validate("hi".to_string()).unwrap().as_str(), "hi");
    assert_eq!(
        NonEmptyString::validate(String::new()).unwrap_err(),
        NonEmptyStringError::EmptyString
    );
}

#[test]
fn test_telephone() {
    assert_eq!(
        Telephone::validate("+41234567890".to_string()).unwrap().as_str(),
        "+41234567890"
    );
    assert!(Telephone::validate("(123) 456-7890".to_string()).is_ok());
    assert!(Telephone::validate("123.456.7890".to_string()).is_ok());
    assert_eq!(
        Telephone::validate("12ab".to_string()).unwrap_err(),
        TelephoneError::InvalidFormat
    );
    assert!(Telephone::validate("123456".to_string()).is_err());
}

#[test]
fn test_email() {
    assert_eq!(
        Email::validate("test@example.com".to_string()).unwrap().as_str(),
        "test@example.com"
    );
    assert!(Email::validate("a.b+c@mail.example.org".to_string()).is_ok());
    assert!(Email::validate("foo@bar".to_string()).is_err());
    assert!(Email::validate("a@b.c".to_string()).is_err());
    assert!(Email::validate("@example.com".to_string()).is_err());
    assert!(Email::validate("two@at@signs.com".to_string()).is_err());
}

#[test]
fn test_iban() {
    assert_eq!(
        Iban::validate("CH9300762011623852957".to_string()).unwrap().as_str(),
        "CH9300762011623852957"
    );
    assert!(Iban::validate("XX12".to_string()).is_err());
    assert!(Iban::validate("ch9300762011623852957".to_string()).is_err());
}

#[test]
fn test_phone_field() {
    assert_eq!(
        Phone::validate("+41791234567".to_string()).unwrap().as_str(),
        "+41791234567"
    );
    assert!(Phone::validate("+1".to_string()).is_err());
    assert!(Phone::validate("12 34".to_string()).is_err());
}

#[test]
fn test_postal_code() {
    assert_eq!(PostalCodeCH::validate("6210".to_string()).unwrap().as_str(), "6210");
    assert!(PostalCodeCH::validate("62a0".to_string()).is_err());
    assert!(PostalCodeCH::validate("12345".to_string()).is_err());
}

#[test]
fn test_date() {
    let d = Date::from_str("2024-02-29").unwrap();
    assert_eq!(d.year(), 2024);
    assert_eq!(d.month(), 2);
    assert_eq!(d.day(), 29);
    assert_eq!(d.to_string(), "2024-02-29");
    assert_eq!(Date::from_str("2023-02-29").unwrap_err(), DateTimeError::Parse);
    assert!(Date::from_str("2023-13-01").is_err());
    assert!(Date::from_str("2023-1-1").is_err());
    assert_eq!(Date::new(1999, 12, 31).to_string(), "1999-12-31");
    assert_eq!(Date::new(7, 1, 2).to_string(), "0007-01-02");
}

#[test]
fn test_time() {
    let t = Time::from_str("09:30").unwrap();
    assert_eq!(t.hour(), 9);
    assert_eq!(t.minute(), 30);
    assert_eq!(t.to_string(), "09:30");
    assert!(Time::from_str("24:00").is_err());
    assert!(Time::from_str("9:30").is_err());
}

#[test]
fn test_date_time() {
    let dt = DateTime::from_str("2024-02-29T09:30").unwrap();
    assert_eq!(dt.date().year(), 2024);
    assert_eq!(dt.time().minute(), 30);
    assert_eq!(dt.to_string(), "2024-02-29T09:30");
    assert!(DateTime::from_str("2024-02-29 09:30").is_err());
}
