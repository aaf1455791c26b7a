use vstd::prelude::*;

use crate::text::all_digits;
use crate::text::is_digit;
use crate::text::str_chars;

verus! {

// ---------------------------------------------------------------------------
// Accept
// ---------------------------------------------------------------------------

/// A datatype for checkboxes that must be ticked before a form can be
/// submitted, such as a terms-and-conditions checkbox.
#[derive(Debug, Clone, Copy, PartialEq, Eq, Structural)]
pub struct Accept(bool);

/// The error returned when the input is not accepted.
#[derive(Debug, Clone, Copy, PartialEq, Eq, Structural)]
pub enum AcceptError {
    NotAccepted,
}

impl View for Accept {
    type V = bool;

    closed spec fn view(&self) -> bool {
        self.0
    }
}

impl Accept {
    /// Accepts exactly the ticked state.
    pub fn validate(input: bool) -> (r: Result<Accept, AcceptError>)
        ensures
            input ==> (r matches Ok(a) && a@ == input),
            !input ==> (r matches Err(e) && e == AcceptError::NotAccepted),
    {
        if !input {
            Err(AcceptError::NotAccepted)
        } else {
            Ok(Accept(input))
        }
    }

    pub fn get(&self) -> (r: bool)
        ensures
            r == self@,
    {
        self.0
    }
}

// ---------------------------------------------------------------------------
// NonEmptyString
// ---------------------------------------------------------------------------

/// A string that is known to be nonempty.
#[derive(Debug)]
pub struct NonEmptyString(String);

/// The error returned when the input is an empty string.
#[derive(Debug, Clone, Copy, PartialEq, Eq, Structural)]
pub enum NonEmptyStringError {
    EmptyString,
}

impl View for NonEmptyString {
    type V = Seq<char>;

    closed spec fn view(&self) -> Seq<char> {
        self.0@
    }
}

impl NonEmptyString {
    /// Accepts exactly the nonempty strings, unchanged.
    pub fn validate(input: String) -> (r: Result<NonEmptyString, NonEmptyStringError>)
        ensures
            input@.len() > 0 ==> (r matches Ok(v) && v@ == input@),
            input@.len() == 0 ==> (r matches Err(e) && e == NonEmptyStringError::EmptyString),
    {
        if input.as_str().unicode_len() == 0 {
            Err(NonEmptyStringError::EmptyString)
        } else {
            Ok(NonEmptyString(input))
        }
    }

    pub fn as_str(&self) -> (r: &str)
        ensures
            r@ == self@,
    {
        self.0.as_str()
    }
}

// ---------------------------------------------------------------------------
// Telephone
// ---------------------------------------------------------------------------

/// A separator accepted between telephone number groups: dash, dot or
/// whitespace.
pub open spec fn is_phone_sep(c: char) -> bool {
    c == '-' || c == '.' || c == ' ' || c == '\t' || c == '\n' || c == '\r' || c == '\x0b'
        || c == '\x0c'
}

pub open spec fn digits_run(s: Seq<char>, i: int, n: int) -> bool {
    i + n <= s.len() && forall|t: int| i <= t < i + n ==> is_digit(s[t])
}

pub open spec fn skip_opt(s: Seq<char>, i: int, c: char) -> int {
    if i < s.len() && s[i] == c {
        i + 1
    } else {
        i
    }
}

pub open spec fn skip_opt_sep(s: Seq<char>, i: int) -> int {
    if i < s.len() && is_phone_sep(s[i]) {
        i + 1
    } else {
        i
    }
}

/// The accepted telephone shape: an optional `+`, an optional `(`, three
/// digits, an optional `)`, then two more digit groups of three and of
/// four to six digits, each after an optional separator.
pub open spec fn telephone_chars(s: Seq<char>) -> bool {
    let i1 = skip_opt(s, 0, '+');
    let i2 = skip_opt(s, i1, '(');
    digits_run(s, i2, 3) && {
        let i4 = skip_opt(s, i2 + 3, ')');
        let i5 = skip_opt_sep(s, i4);
        digits_run(s, i5, 3) && {
            let i7 = skip_opt_sep(s, i5 + 3);
            4 <= s.len() - i7 <= 6 && digits_run(s, i7, s.len() - i7)
        }
    }
}

/// A telephone number in the accepted shape.
#[derive(Debug)]
pub struct Telephone(String);

/// The error returned when the input is not a well-shaped telephone
/// number.
#[derive(Debug, Clone, Copy, PartialEq, Eq, Structural)]
pub enum TelephoneError {
    InvalidFormat,
}

impl View for Telephone {
    type V = Seq<char>;

    closed spec fn view(&self) -> Seq<char> {
        self.0@
    }
}

fn digits_run_check(v: &Vec<char>, i: usize, n: usize) -> (r: bool)
    ensures
        r == digits_run(v@, i as int, n as int),
{
    if n > v.len() || i > v.len() - n {
        return false;
    }
    let mut t: usize = i;
    while t < i + n
        invariant
            i <= t <= i + n,
            i + n <= v@.len(),
            v@.len() <= usize::MAX,
            forall|u: int| i <= u < t ==> is_digit(v@[u]),
        decreases i + n - t,
    {
        let c = v[t];
        if c < '0' || c > '9' {
            return false;
        }
        t += 1;
    }
    true
}

impl Telephone {
    /// Accepts exactly the strings of the telephone shape, unchanged.
    pub fn validate(input: String) -> (r: Result<Telephone, TelephoneError>)
        ensures
            telephone_chars(input@) ==> (r matches Ok(v) && v@ == input@),
            !telephone_chars(input@) ==> (r matches Err(e) && e == TelephoneError::InvalidFormat),
    {
        let v = str_chars(input.as_str());
        let n: usize = v.len();
        let mut i: usize = 0;
        if i < n && v[i] == '+' {
            i += 1;
        }
        if i < n && v[i] == '(' {
            i += 1;
        }
        proof {
            assert(i == skip_opt(v@, skip_opt(v@, 0, '+'), '('));
        }
        if !digits_run_check(&v, i, 3) {
            return Err(TelephoneError::InvalidFormat);
        }
        i += 3;
        if i < n && v[i] == ')' {
            i += 1;
        }
        let ghost i4 = i as int;
        if i < n {
            let c = v[i];
            if c == '-' || c == '.' || c == ' ' || c == '\t' || c == '\n' || c == '\r'
                || c == '\x0b' || c == '\x0c' {
                i += 1;
            }
        }
        proof {
            assert(i == skip_opt_sep(v@, i4));
        }
        if !digits_run_check(&v, i, 3) {
            return Err(TelephoneError::InvalidFormat);
        }
        i += 3;
        let ghost i6 = i as int;
        if i < n {
            let c = v[i];
            if c == '-' || c == '.' || c == ' ' || c == '\t' || c == '\n' || c == '\r'
                || c == '\x0b' || c == '\x0c' {
                i += 1;
            }
        }
        proof {
            assert(i == skip_opt_sep(v@, i6));
        }
        if n - i < 4 || n - i > 6 {
            return Err(TelephoneError::InvalidFormat);
        }
        if !digits_run_check(&v, i, n - i) {
            return Err(TelephoneError::InvalidFormat);
        }
        Ok(Telephone(input))
    }

    pub fn as_str(&self) -> (r: &str)
        ensures
            r@ == self@,
    {
        self.0.as_str()
    }
}

// ---------------------------------------------------------------------------
// Rule-checked fields
// ---------------------------------------------------------------------------

pub open spec fn is_upper(c: char) -> bool {
    65 <= c as int <= 90
}

pub open spec fn is_lower(c: char) -> bool {
    97 <= c as int <= 122
}

pub open spec fn is_alpha(c: char) -> bool {
    is_upper(c) || is_lower(c)
}

pub open spec fn is_alnum(c: char) -> bool {
    is_alpha(c) || is_digit(c)
}

/// A validation rule: which raw strings a field of this kind accepts.
pub trait Rule {
    spec fn matches(s: Seq<char>) -> bool;

    /// Decides the rule.
    fn check(s: &str) -> (r: bool)
        ensures
            r == Self::matches(s@),
    ;
}

/// A field whose value is known to match the rule `R`.
#[derive(Debug)]
pub struct Field<R: Rule> {
    value: String,
    rule: core::marker::PhantomData<R>,
}

/// The error returned when a field input does not match its rule.
#[derive(Debug)]
pub enum FieldError<R: Rule> {
    InvalidFormat(core::marker::PhantomData<R>),
}

impl<R: Rule> View for Field<R> {
    type V = Seq<char>;

    closed spec fn view(&self) -> Seq<char> {
        self.value@
    }
}

impl<R: Rule> Field<R> {
    /// Accepts exactly the strings matching `R`, unchanged.
    pub fn validate(input: String) -> (r: Result<Field<R>, FieldError<R>>)
        ensures
            R::matches(input@) ==> (r matches Ok(f) && f@ == input@),
            !R::matches(input@) ==> r is Err,
    {
        if R::check(input.as_str()) {
            Ok(Field { value: input, rule: core::marker::PhantomData })
        } else {
            Err(FieldError::InvalidFormat(core::marker::PhantomData))
        }
    }

    pub fn as_str(&self) -> (r: &str)
        ensures
            r@ == self@,
    {
        self.value.as_str()
    }
}

// ---------------------------------------------------------------------------
// Swiss postal codes: exactly four digits
// ---------------------------------------------------------------------------

#[derive(Debug)]
pub struct PostalCodeCHRule;

impl Rule for PostalCodeCHRule {
    open spec fn matches(s: Seq<char>) -> bool {
        s.len() == 4 && all_digits(s)
    }

    #[verifier::loop_isolation(false)]
    fn check(s: &str) -> (r: bool) {
        let v = str_chars(s);
        if v.len() != 4 {
            return false;
        }
        digits_run_check(&v, 0, 4)
    }
}

pub type PostalCodeCH = Field<PostalCodeCHRule>;

pub type PostalCodeCHError = FieldError<PostalCodeCHRule>;

// ---------------------------------------------------------------------------
// Phone numbers: an optional plus, then four to seventeen digits
// ---------------------------------------------------------------------------

#[derive(Debug)]
pub struct PhoneRule;

impl Rule for PhoneRule {
    open spec fn matches(s: Seq<char>) -> bool {
        let start: int = if s.len() > 0 && s[0] == '+' {
            1
        } else {
            0
        };
        4 <= s.len() - start <= 17 && digits_run(s, start, s.len() - start)
    }

    #[verifier::loop_isolation(false)]
    fn check(s: &str) -> (r: bool) {
        let v = str_chars(s);
        let n: usize = v.len();
        let start: usize = if n > 0 && v[0] == '+' {
            1
        } else {
            0
        };
        if n - start < 4 || n - start > 17 {
            return false;
        }
        digits_run_check(&v, start, n - start)
    }
}

pub type Phone = Field<PhoneRule>;

pub type PhoneError = FieldError<PhoneRule>;

// ---------------------------------------------------------------------------
// IBANs: two uppercase letters, two digits, then 11 to 30 alphanumerics
// ---------------------------------------------------------------------------

#[derive(Debug)]
pub struct IbanRule;

impl Rule for IbanRule {
    open spec fn matches(s: Seq<char>) -> bool {
        15 <= s.len() <= 34 && is_upper(s[0]) && is_upper(s[1]) && is_digit(s[2]) && is_digit(
            s[3],
        ) && forall|t: int| 4 <= t < s.len() ==> is_alnum(s[t])
    }

    #[verifier::loop_isolation(false)]
    fn check(s: &str) -> (r: bool) {
        let v = str_chars(s);
        let n: usize = v.len();
        if n < 15 || n > 34 {
            return false;
        }
        if !(v[0] >= 'A' && v[0] <= 'Z' && v[1] >= 'A' && v[1] <= 'Z') {
            return false;
        }
        if !(v[2] >= '0' && v[2] <= '9' && v[3] >= '0' && v[3] <= '9') {
            return false;
        }
        let mut t: usize = 4;
        while t < n
            invariant
                4 <= t <= n,
                n == v@.len(),
                forall|u: int| 4 <= u < t ==> is_alnum(v@[u]),
            decreases n - t,
        {
            let c = v[t];
            if !((c >= '0' && c <= '9') || (c >= 'A' && c <= 'Z') || (c >= 'a' && c <= 'z')) {
                return false;
            }
            t += 1;
        }
        true
    }
}

pub type Iban = Field<IbanRule>;

pub type IbanError = FieldError<IbanRule>;

// ---------------------------------------------------------------------------
// Email addresses
// ---------------------------------------------------------------------------

pub open spec fn email_local_char(c: char) -> bool {
    is_alnum(c) || c == '.' || c == '_' || c == '%' || c == '+' || c == '-'
}

pub open spec fn email_domain_char(c: char) -> bool {
    is_alnum(c) || c == '.' || c == '-'
}

/// A split of an email address: `a` the position of the `@` after a
/// nonempty local part, `d` the position of the dot before a final
/// all-alphabetic label of at least two characters.
pub open spec fn email_split_at(s: Seq<char>, a: int, d: int) -> bool {
    &&& 1 <= a
    &&& a + 1 < d
    &&& d + 2 < s.len()
    &&& s[a] == '@'
    &&& s[d] == '.'
    &&& forall|t: int| 0 <= t < a ==> email_local_char(s[t])
    &&& forall|t: int| a < t < d ==> email_domain_char(s[t])
    &&& forall|t: int| d < t < s.len() ==> is_alpha(s[t])
}

pub open spec fn email_chars(s: Seq<char>) -> bool {
    exists|a: int, d: int| email_split_at(s, a, d)
}

#[derive(Debug)]
pub struct EmailRule;

impl Rule for EmailRule {
    open spec fn matches(s: Seq<char>) -> bool {
        email_chars(s)
    }

    #[verifier::loop_isolation(false)]
    fn check(s: &str) -> (r: bool) {
        let v = str_chars(s);
        let n: usize = v.len();
        // the local part ends at the first `@`
        let mut a: usize = 0;
        while a < n && v[a] != '@'
            invariant
                a <= n,
                n == v@.len(),
                forall|t: int| 0 <= t < a ==> v@[t] != '@',
            decreases n - a,
        {
            a += 1;
        }
        if a == n || a == 0 {
            proof {
                if email_chars(v@) {
                    let (a2, d2): (int, int) = choose|a2: int, d2: int|
                        email_split_at(v@, a2, d2);
                    if a2 != a {
                        if a2 < a {
                            assert(v@[a2] != '@');
                        } else {
                            assert(a < n);
                            assert(email_local_char(v@[a as int]));
                        }
                    }
                    assert(false);
                }
            }
            return false;
        }
        let mut t: usize = 0;
        while t < a
            invariant
                t <= a < n,
                n == v@.len(),
                v@[a as int] == '@',
                forall|u: int| 0 <= u < a ==> u >= t || v@[u] != '@',
                forall|u: int| 0 <= u < t ==> email_local_char(v@[u]),
                forall|u: int| 0 <= u < a ==> v@[u] != '@',
            decreases a - t,
        {
            let c = v[t];
            if !((c >= '0' && c <= '9') || (c >= 'A' && c <= 'Z') || (c >= 'a' && c <= 'z') || c
                == '.' || c == '_' || c == '%' || c == '+' || c == '-') {
                proof {
                    if email_chars(v@) {
                        let (a2, d2): (int, int) = choose|a2: int, d2: int|
                            email_split_at(v@, a2, d2);
                        if a2 < a {
                            assert(v@[a2] != '@');
                        }
                        if a2 > a {
                            assert(email_local_char(v@[a as int]));
                        }
                        assert(a2 == a);
                        assert(email_local_char(v@[t as int]));
                        assert(false);
                    }
                }
                return false;
            }
            t += 1;
        }
        // the final label starts after the last dot
        let mut d: usize = n;
        let mut found = false;
        let mut u: usize = n;
        while u > a + 1 && !found
            invariant
                a + 1 <= u <= n,
                n == v@.len(),
                found ==> a + 1 <= d < n && v@[d as int] == '.',
                !found ==> forall|t2: int| u <= t2 < n ==> v@[t2] != '.',
                found ==> forall|t2: int| d < t2 < n ==> v@[t2] != '.',
            decreases u,
        {
            u -= 1;
            if v[u] == '.' {
                d = u;
                found = true;
            }
        }
        if !found {
            proof {
                if email_chars(v@) {
                    let (a2, d2): (int, int) = choose|a2: int, d2: int|
                        email_split_at(v@, a2, d2);
                    if a2 < a {
                        assert(v@[a2] != '@');
                    }
                    if a2 > a {
                        assert(email_local_char(v@[a as int]));
                    }
                    assert(a2 == a);
                    assert(v@[d2] == '.');
                    assert(false);
                }
            }
            return false;
        }
        // the unique admissible split is (a, d)
        if d < a + 2 || n - d < 3 {
            proof {
                if email_chars(v@) {
                    let (a2, d2): (int, int) = choose|a2: int, d2: int|
                        email_split_at(v@, a2, d2);
                    if a2 < a {
                        assert(v@[a2] != '@');
                    }
                    if a2 > a {
                        assert(email_local_char(v@[a as int]));
                    }
                    assert(a2 == a);
                    if d2 > d {
                        assert(v@[d2] != '.');
                    }
                    if d2 < d {
                        assert(is_alpha(v@[d as int]));
                    }
                    assert(d2 == d);
                    assert(false);
                }
            }
            return false;
        }
        let mut t2: usize = a + 1;
        while t2 < d
            invariant
                a + 1 <= t2 <= d < n,
                n == v@.len(),
                v@[a as int] == '@',
                v@[d as int] == '.',
                forall|u2: int| 0 <= u2 < a ==> v@[u2] != '@',
                forall|u2: int| d < u2 < n ==> v@[u2] != '.',
                forall|u2: int| 0 <= u2 < a ==> email_local_char(v@[u2]),
                forall|u2: int| a < u2 < t2 ==> email_domain_char(v@[u2]),
            decreases d - t2,
        {
            let c = v[t2];
            if !((c >= '0' && c <= '9') || (c >= 'A' && c <= 'Z') || (c >= 'a' && c <= 'z') || c
                == '.' || c == '-') {
                proof {
                    if email_chars(v@) {
                        let (a2, d2): (int, int) = choose|a2: int, d2: int|
                            email_split_at(v@, a2, d2);
                        if a2 < a {
                            assert(v@[a2] != '@');
                        }
                        if a2 > a {
                            assert(email_local_char(v@[a as int]));
                        }
                        assert(a2 == a);
                        if d2 > d {
                            assert(v@[d2] != '.');
                        }
                        if d2 < d {
                            assert(is_alpha(v@[d as int]));
                        }
                        assert(d2 == d);
                        assert(email_domain_char(v@[t2 as int]));
                        assert(false);
                    }
                }
                return false;
            }
            t2 += 1;
        }
        let mut t3: usize = d + 1;
        while t3 < n
            invariant
                d + 1 <= t3 <= n,
                n == v@.len(),
                v@[a as int] == '@',
                v@[d as int] == '.',
                a + 2 <= d,
                n - d >= 3,
                forall|u2: int| 0 <= u2 < a ==> v@[u2] != '@',
                forall|u2: int| d < u2 < n ==> v@[u2] != '.',
                forall|u2: int| 0 <= u2 < a ==> email_local_char(v@[u2]),
                forall|u2: int| a < u2 < d ==> email_domain_char(v@[u2]),
                forall|u2: int| d < u2 < t3 ==> is_alpha(v@[u2]),
            decreases n - t3,
        {
            let c = v[t3];
            if !((c >= 'A' && c <= 'Z') || (c >= 'a' && c <= 'z')) {
                proof {
                    if email_chars(v@) {
                        let (a2, d2): (int, int) = choose|a2: int, d2: int|
                            email_split_at(v@, a2, d2);
                        if a2 < a {
                            assert(v@[a2] != '@');
                        }
                        if a2 > a {
                            assert(email_local_char(v@[a as int]));
                        }
                        assert(a2 == a);
                        if d2 > d {
                            assert(v@[d2] != '.');
                        }
                        if d2 < d {
                            assert(is_alpha(v@[d as int]));
                        }
                        assert(d2 == d);
                        assert(is_alpha(v@[t3 as int]));
                        assert(false);
                    }
                }
                return false;
            }
            t3 += 1;
        }
        proof {
            assert(email_split_at(v@, a as int, d as int));
        }
        true
    }
}

pub type Email = Field<EmailRule>;

pub type EmailError = FieldError<EmailRule>;

} // verus!
