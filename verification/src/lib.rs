//! A hierarchical, path-addressed form-state engine.
//!
//! Form data is addressed by [`QueryString`] paths in bracket notation
//! (`person[addresses][0][city]`), stored in a [`Data`] tree that converts
//! to and from the flat `key=value&…` wire format, and mirrored by a live
//! registration tree of group and input nodes that propagates validation
//! triggers, disabled state and error aggregation.

pub mod app_context;
pub mod datatypes;
pub mod dates;
pub mod form_context;
pub mod form_data;
pub mod query_string;
pub mod repeatable;
pub mod text;
pub mod wiring;

pub use app_context::AppContext;
pub use datatypes::Accept;
pub use datatypes::AcceptError;
pub use datatypes::Email;
pub use datatypes::EmailError;
pub use datatypes::EmailRule;
pub use datatypes::Field;
pub use datatypes::FieldError;
pub use datatypes::Iban;
pub use datatypes::IbanError;
pub use datatypes::IbanRule;
pub use datatypes::Phone;
pub use datatypes::PhoneError;
pub use datatypes::PhoneRule;
pub use datatypes::PostalCodeCH;
pub use datatypes::PostalCodeCHError;
pub use datatypes::PostalCodeCHRule;
pub use datatypes::Rule;
pub use datatypes::NonEmptyString;
pub use datatypes::NonEmptyStringError;
pub use datatypes::Telephone;
pub use datatypes::TelephoneError;
pub use dates::Date;
pub use dates::DateTime;
pub use dates::DateTimeError;
pub use dates::Time;
pub use form_context::BaseGroupContext;
pub use form_context::GroupContext;
pub use form_context::InputContext;
pub use form_context::Node;
pub use form_context::NodeModel;
pub use form_context::Version;
pub use form_data::Data;
pub use form_data::DataModel;
pub use form_data::FormData;
pub use form_data::GroupData;
pub use form_data::InputData;
pub use query_string::QueryString;
pub use query_string::QueryStringPart;
pub use query_string::SegModel;
pub use repeatable::Repeatable;
pub use wiring::FieldWiring;
