use vstd::prelude::*;
use vstd::string::StrSliceExecFns;
use vstd::string::StringExecFns;
use crate::error::{Error, Result};
use crate::text::{
    contains_text, decimal, has_prefix, signed_decimal, signed_text, starts_with, unsigned_text,
};

verus! {

/// Whether the regular-expression engine accepts `pattern`.
pub uninterp spec fn pattern_compiles(pattern: Seq<char>) -> bool;

/// Whether the compiled `pattern` finds a match anywhere in `text`.
pub uninterp spec fn pattern_matches(pattern: Seq<char>, text: Seq<char>) -> bool;

/// Relies on `regex::Regex::new`, which fails exactly on the patterns that the
/// engine refuses (the error is handed on as its message), and on
/// `regex::Regex::is_match`, which tells whether a match exists anywhere in
/// the text.
#[verifier::external_body]
fn regex_is_match(pattern: &str, text: &str) -> (r: core::result::Result<bool, String>)
    ensures
        r is Ok <==> pattern_compiles(pattern@),
        r matches Ok(b) ==> b == pattern_matches(pattern@, text@),
{
    match regex::Regex::new(pattern) {
        Ok(re) => Ok(re.is_match(text)),
        Err(e) => Err(e.to_string()),
    }
}

/// Whether `r` is a validation failure that carries the message `msg`.
pub open spec fn fails_with(r: Result<()>, msg: Seq<char>) -> bool {
    r matches Err(Error::Validation(m)) && m@ == msg
}

/// The pattern that an e-mail address must match.
pub open spec fn email_pattern() -> Seq<char> {
    "^[a-zA-Z0-9._%+-]+@[a-zA-Z0-9.-]+\\.[a-zA-Z]{2,}$"@
}

/// The message of a failed lower bound on a number.
pub open spec fn min_message(min: int) -> Seq<char> {
    "Value must be >= "@ + signed_decimal(min)
}

/// The message of a failed upper bound on a number.
pub open spec fn max_message(max: int) -> Seq<char> {
    "Value must be <= "@ + signed_decimal(max)
}

/// The message of a failed lower bound on a length.
pub open spec fn min_length_message(min: nat) -> Seq<char> {
    "String length must be >= "@ + decimal(min) + " characters"@
}

/// The message of a failed upper bound on a length.
pub open spec fn max_length_message(max: nat) -> Seq<char> {
    "String length must be <= "@ + decimal(max) + " characters"@
}

/// The text that one validation error contributes to a combined message.
pub open spec fn entry_text(e: (Seq<char>, Seq<char>)) -> Seq<char> {
    e.0 + ": "@ + e.1
}

/// The combined message of a list of validation errors, separated by commas.
pub open spec fn joined_text(es: Seq<(Seq<char>, Seq<char>)>) -> Seq<char>
    decreases es.len(),
{
    if es.len() == 0 {
        Seq::empty()
    } else if es.len() == 1 {
        entry_text(es[0])
    } else {
        joined_text(es.drop_last()) + ", "@ + entry_text(es.last())
    }
}

fn validation_error(msg: String) -> (r: Result<()>)
    ensures
        fails_with(r, msg@),
{
    Err(Error::Validation(msg))
}

fn message_of(text: &str) -> (r: String)
    ensures
        r@ == text@,
{
    String::from_str(text)
}

/// One failed field rule.
#[derive(Debug, Clone)]
pub struct ValidationError {
    /// Name of the field that failed.
    pub field: String,
    /// What was wrong with it.
    pub message: String,
}

impl ValidationError {
    /// A failure of `field`, described by `message`.
    pub fn new(field: &str, message: &str) -> (r: Self)
        ensures
            r.field@ == field@,
            r.message@ == message@,
    {
        ValidationError { field: String::from_str(field), message: String::from_str(message) }
    }
}

/// The failures collected while checking a record, in the order they were found.
#[derive(Debug, Clone)]
pub struct ValidationErrors {
    errors: Vec<ValidationError>,
}

impl View for ValidationErrors {
    type V = Seq<(Seq<char>, Seq<char>)>;

    closed spec fn view(&self) -> Self::V {
        self.errors@.map_values(|e: ValidationError| (e.field@, e.message@))
    }
}

impl ValidationErrors {
    /// An empty collection.
    pub fn new() -> (r: Self)
        ensures
            r@ == Seq::<(Seq<char>, Seq<char>)>::empty(),
    {
        let r = ValidationErrors { errors: Vec::new() };
        assert(r@ =~= Seq::<(Seq<char>, Seq<char>)>::empty());
        r
    }

    /// Records a failure of `field`, after those already held.
    pub fn add(&mut self, field: &str, message: &str)
        ensures
            final(self)@ == old(self)@.push((field@, message@)),
    {
        self.errors.push(ValidationError::new(field, message));
        assert(final(self)@ =~= old(self)@.push((field@, message@)));
    }

    /// Whether no failure was recorded.
    pub fn is_empty(&self) -> (r: bool)
        ensures
            r == (self@.len() == 0),
    {
        self.errors.len() == 0
    }

    /// The recorded failures, oldest first.
    pub fn errors(&self) -> (r: &[ValidationError])
        ensures
            r@.map_values(|e: ValidationError| (e.field@, e.message@)) == self@,
    {
        self.errors.as_slice()
    }

    /// Success when nothing was recorded; otherwise a validation error whose
    /// message lists each failure as `field: message`, separated by commas.
    pub fn into_result(self) -> (r: Result<()>)
        ensures
            self@.len() == 0 ==> r is Ok,
            self@.len() > 0 ==> fails_with(r, joined_text(self@)),
    {
        let n = self.errors.len();
        if n == 0 {
            return Ok(());
        }
        let ghost es = self@;
        let mut text = String::new();
        let mut i: usize = 0;
        while i < n
            invariant
                n == self.errors@.len(),
                es == self@,
                i <= n,
                text@ == joined_text(es.take(i as int)),
            decreases n - i,
        {
            let e = &self.errors[i];
            proof {
                reveal_strlit(", ");
                reveal_strlit(": ");
                assert(es.take(i + 1).drop_last() =~= es.take(i as int));
                assert(es.take(i + 1).last() == es[i as int]);
                if i == 0 {
                    assert(es.take(0) =~= Seq::<(Seq<char>, Seq<char>)>::empty());
                }
            }
            if i > 0 {
                text.append(", ");
            }
            text.append(e.field.as_str());
            text.append(": ");
            text.append(e.message.as_str());
            proof {
                if i == 0 {
                    assert(text@ =~= entry_text(es[0]));
                } else {
                    assert(text@ =~= joined_text(es.take(i as int)) + ", "@ + entry_text(es[i as int]));
                }
            }
            i = i + 1;
        }
        assert(es.take(n as int) =~= es);
        validation_error(text)
    }
}

impl Default for ValidationErrors {
    fn default() -> (r: Self)
        ensures
            r@ == Seq::<(Seq<char>, Seq<char>)>::empty(),
    {
        Self::new()
    }
}

/// A rule that a value of type `T` can be checked against.
pub trait Validator<T> {
    /// Checks `value`, with a validation error when it breaks the rule.
    fn validate(&self, value: &T) -> Result<()>;
}

/// The built-in field rules.
pub struct Validators;

impl Validators {
    /// Accepts a number that is at least `min`.
    pub fn min(value: &i64, min: i64) -> (r: Result<()>)
        ensures
            *value >= min ==> r is Ok,
            *value < min ==> fails_with(r, min_message(min as int)),
    {
        if *value >= min {
            Ok(())
        } else {
            proof { reveal_strlit("Value must be >= "); }
            let mut msg = message_of("Value must be >= ");
            msg.append(signed_text(min).as_str());
            validation_error(msg)
        }
    }

    /// Accepts a number that is at most `max`.
    pub fn max(value: &i64, max: i64) -> (r: Result<()>)
        ensures
            *value <= max ==> r is Ok,
            *value > max ==> fails_with(r, max_message(max as int)),
    {
        if *value <= max {
            Ok(())
        } else {
            proof { reveal_strlit("Value must be <= "); }
            let mut msg = message_of("Value must be <= ");
            msg.append(signed_text(max).as_str());
            validation_error(msg)
        }
    }

    /// Accepts a text of at least `min` bytes.
    pub fn min_length(value: &str, min: usize) -> (r: Result<()>)
        ensures
            value.len() >= min ==> r is Ok,
            value.len() < min ==> fails_with(r, min_length_message(min as nat)),
    {
        if value.len() >= min {
            Ok(())
        } else {
            proof {
                reveal_strlit("String length must be >= ");
                reveal_strlit(" characters");
            }
            let mut msg = message_of("String length must be >= ");
            msg.append(unsigned_text(min as u64).as_str());
            msg.append(" characters");
            validation_error(msg)
        }
    }

    /// Accepts a text of at most `max` bytes.
    pub fn max_length(value: &str, max: usize) -> (r: Result<()>)
        ensures
            value.len() <= max ==> r is Ok,
            value.len() > max ==> fails_with(r, max_length_message(max as nat)),
    {
        if value.len() <= max {
            Ok(())
        } else {
            proof {
                reveal_strlit("String length must be <= ");
                reveal_strlit(" characters");
            }
            let mut msg = message_of("String length must be <= ");
            msg.append(unsigned_text(max as u64).as_str());
            msg.append(" characters");
            validation_error(msg)
        }
    }

    /// Accepts a text shaped like an e-mail address: a local part, `@`, a
    /// domain with a dot, and a top-level part of two letters or more.
    pub fn email(value: &str) -> (r: Result<()>)
        ensures
            r is Ok <==> pattern_compiles(email_pattern()) && pattern_matches(email_pattern(), value@),
            r is Err ==> fails_with(r, "Invalid email format"@),
    {
        let found = regex_is_match("^[a-zA-Z0-9._%+-]+@[a-zA-Z0-9.-]+\\.[a-zA-Z]{2,}$", value);
        match found {
            Ok(true) => Ok(()),
            _ => validation_error(message_of("Invalid email format")),
        }
    }

    /// Accepts a text that starts with `http://` or `https://`.
    pub fn url(value: &str) -> (r: Result<()>)
        ensures
            r is Ok <==> (starts_with(value@, "http://"@) || starts_with(value@, "https://"@)),
            r is Err ==> fails_with(
                r,
                "Invalid URL format (must start with http:// or https://)"@,
            ),
    {
        if has_prefix(value, "http://") || has_prefix(value, "https://") {
            Ok(())
        } else {
            validation_error(message_of("Invalid URL format (must start with http:// or https://)"))
        }
    }

    /// Accepts a text that is not empty.
    pub fn required(value: &str) -> (r: Result<()>)
        ensures
            r is Ok <==> value@.len() > 0,
            r is Err ==> fails_with(r, "Field is required"@),
    {
        if !value.is_empty() {
            Ok(())
        } else {
            validation_error(message_of("Field is required"))
        }
    }

    /// Accepts an option that holds a value.
    pub fn required_option<T>(value: &Option<T>) -> (r: Result<()>)
        ensures
            r is Ok <==> value is Some,
            r is Err ==> fails_with(r, "Field is required"@),
    {
        if value.is_some() {
            Ok(())
        } else {
            validation_error(message_of("Field is required"))
        }
    }

    /// Accepts a text in which the regular expression `pattern` finds a match.
    /// A pattern that does not compile is itself a validation failure.
    pub fn pattern(value: &str, pattern: &str) -> (r: Result<()>)
        ensures
            r is Ok <==> pattern_compiles(pattern@) && pattern_matches(pattern@, value@),
            pattern_compiles(pattern@) && !pattern_matches(pattern@, value@) ==> fails_with(
                r,
                "Value does not match pattern: "@ + pattern@,
            ),
            !pattern_compiles(pattern@) ==> r matches Err(Error::Validation(_)),
    {
        match regex_is_match(pattern, value) {
            Ok(true) => Ok(()),
            Ok(false) => {
                proof { reveal_strlit("Value does not match pattern: "); }
                let mut msg = message_of("Value does not match pattern: ");
                msg.append(pattern);
                validation_error(msg)
            },
            Err(e) => {
                let mut msg = message_of("Invalid regex pattern: ");
                msg.append(e.as_str());
                validation_error(msg)
            },
        }
    }

    /// Accepts a number within `min ..= max`; the lower bound is checked first.
    pub fn range(value: &i64, min: i64, max: i64) -> (r: Result<()>)
        ensures
            r is Ok <==> min <= *value <= max,
            *value < min ==> fails_with(r, min_message(min as int)),
            min <= *value && *value > max ==> fails_with(r, max_message(max as int)),
    {
        Self::min(value, min)?;
        Self::max(value, max)?;
        Ok(())
    }

    /// Accepts a text whose byte length is within `min ..= max`; the lower
    /// bound is checked first.
    pub fn length_range(value: &str, min: usize, max: usize) -> (r: Result<()>)
        ensures
            r is Ok <==> min <= value.len() <= max,
            value.len() < min ==> fails_with(r, min_length_message(min as nat)),
            min <= value.len() && value.len() > max ==> fails_with(
                r,
                max_length_message(max as nat),
            ),
    {
        Self::min_length(value, min)?;
        Self::max_length(value, max)?;
        Ok(())
    }
}

} // verus!
