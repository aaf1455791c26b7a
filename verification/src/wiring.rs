use vstd::prelude::*;

use crate::query_string::QueryString;
use crate::query_string::SegModel;

verus! {

/// The decision core that wires one input field to the form: it tracks
/// whether the field's error may be shown yet, and picks the message to
/// display. A field shows no parse error until it has either been edited
/// or been covered by a validation sweep, so that untouched fields do not
/// flash red; an explicitly supplied message always shows.
#[derive(Debug)]
pub struct FieldWiring {
    qs: QueryString,
    show_error: bool,
}

impl FieldWiring {
    /// The path of the wired field.
    pub closed spec fn path(&self) -> Seq<SegModel> {
        self.qs@
    }

    /// Whether an error on this field may currently be shown.
    pub closed spec fn shows_error(&self) -> bool {
        self.show_error
    }

    /// Wires a freshly mounted field: its error stays hidden until the
    /// field is touched or validated.
    pub fn wire(qs: QueryString) -> (r: Self)
        ensures
            r.path() == qs@,
            !r.shows_error(),
    {
        FieldWiring { qs, show_error: false }
    }

    pub fn qs(&self) -> (r: &QueryString)
        ensures
            r@ == self.path(),
    {
        &self.qs
    }

    /// An edit of the field makes its error visible from now on.
    pub fn on_edit(&mut self)
        ensures
            final(self).path() == old(self).path(),
            final(self).shows_error(),
    {
        self.show_error = true;
    }

    /// A validation sweep that covers the field makes its error visible;
    /// one that does not changes nothing.
    pub fn on_validate(&mut self, validate_signal: bool)
        ensures
            final(self).path() == old(self).path(),
            final(self).shows_error() == (old(self).shows_error() || validate_signal),
    {
        if validate_signal {
            self.show_error = true;
        }
    }

    /// The message the field displays: an explicitly supplied message
    /// always, else the field's own parse error once errors may be shown,
    /// else nothing.
    pub fn error_message(&self, custom: Option<String>, parse_error: Option<String>) -> (r:
        Option<String>)
        ensures
            custom is Some ==> r == custom,
            custom is None && self.shows_error() ==> r == parse_error,
            custom is None && !self.shows_error() ==> r is None,
    {
        if custom.is_some() {
            custom
        } else if self.show_error {
            parse_error
        } else {
            None
        }
    }
}

} // verus!
