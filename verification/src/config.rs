//! The user's settings: the test command, the Docker container, and when the
//! last check for a newer release happened.
use vstd::prelude::*;

use crate::text::{trim, trimmed};

verus! {

/// The user's settings, as stored between runs.
pub struct Config {
    pub test_command: Option<String>,
    pub container_name: Option<String>,
    /// When the last update check happened, in RFC 3339; empty when never.
    pub updated_check_at: String,
}

/// The settings as plain text.
pub struct ConfigView {
    pub test_command: Option<Seq<char>>,
    pub container_name: Option<Seq<char>>,
    pub updated_check_at: Seq<char>,
}

pub open spec fn text_of(o: Option<String>) -> Option<Seq<char>> {
    match o {
        Some(s) => Some(s@),
        None => None,
    }
}

impl View for Config {
    type V = ConfigView;

    open spec fn view(&self) -> ConfigView {
        ConfigView {
            test_command: text_of(self.test_command),
            container_name: text_of(self.container_name),
            updated_check_at: self.updated_check_at@,
        }
    }
}

/// An instant in UTC: seconds since the Unix epoch and the nanoseconds
/// within that second (as `chrono::DateTime<Utc>` holds it).
#[derive(Clone, Copy, Debug, PartialEq, Eq, Structural)]
pub struct CheckInstant {
    pub seconds: i64,
    pub nanoseconds: u32,
}

/// The RFC 3339 text that `chrono` writes for an instant (`to_rfc3339`), or
/// `None` when `chrono` cannot represent the instant.
pub uninterp spec fn rfc3339_of_instant(seconds: i64, nanoseconds: u32) -> Option<Seq<char>>;

/// The instant (in UTC) that `chrono` reads from an RFC 3339 text
/// (`parse_from_rfc3339`), or `None` when the text is not RFC 3339.
pub uninterp spec fn instant_of_rfc3339(text: Seq<char>) -> Option<(i64, u32)>;

/// An instant from the start of year 0000 to the end of year 9999 (UTC),
/// outside a leap second: the instants whose RFC 3339 text has a four-digit
/// year.
pub open spec fn four_digit_year(seconds: i64, nanoseconds: u32) -> bool {
    -62167219200 <= seconds <= 253402300799 && nanoseconds < 1_000_000_000
}

/// Calls `chrono::DateTime::<Utc>::from_timestamp` and then `to_rfc3339`.
/// Claims that the text is the name `rfc3339_of_instant` of the arguments,
/// and that it is never empty (it always starts with the date). For an
/// instant with a four-digit year it also claims what `chrono`'s source
/// shows: `from_timestamp` gives a value, and `parse_from_rfc3339` reads the
/// text back as the same instant. It does not say on which other instants
/// `chrono` gives `None`.
#[verifier::external_body]
fn format_rfc3339(seconds: i64, nanoseconds: u32) -> (r: Option<String>)
    ensures
        (match r {
            Some(t) => rfc3339_of_instant(seconds, nanoseconds) == Some(t@) && t@.len() > 0 && (
            four_digit_year(seconds, nanoseconds) ==> instant_of_rfc3339(t@) == Some(
                (seconds, nanoseconds),
            )),
            None => rfc3339_of_instant(seconds, nanoseconds) is None && !four_digit_year(
                seconds,
                nanoseconds,
            ),
        }),
{
    match chrono::DateTime::from_timestamp(seconds, nanoseconds) {
        Some(t) => Some(t.to_rfc3339()),
        None => None,
    }
}

/// Calls `chrono::DateTime::parse_from_rfc3339`, then `with_timezone(&Utc)`,
/// `timestamp` and `timestamp_subsec_nanos` on the result. Claims only that
/// the result is the name `instant_of_rfc3339` of the text.
#[verifier::external_body]
fn parse_rfc3339(text: &str) -> (r: Option<(i64, u32)>)
    ensures
        r == instant_of_rfc3339(text@),
{
    match chrono::DateTime::parse_from_rfc3339(text) {
        Ok(t) => {
            let utc = t.with_timezone(&chrono::Utc);
            Some((utc.timestamp(), utc.timestamp_subsec_nanos()))
        },
        Err(_) => None,
    }
}

impl Default for Config {
    /// No test command, no container, never checked for updates.
    fn default() -> (c: Self)
        ensures
            c.test_command is None,
            c.container_name is None,
            c.updated_check_at@.len() == 0,
    {
        Config { test_command: None, container_name: None, updated_check_at: String::new() }
    }
}

impl Config {
    /// The configured test command, if any.
    pub fn configured_test_command(&self) -> (r: Option<String>)
        ensures
            text_of(r) == self@.test_command,
    {
        match &self.test_command {
            Some(c) => Some(c.clone()),
            None => None,
        }
    }

    /// Stores the command the user typed, without surrounding whitespace, and
    /// returns it.
    pub fn set_test_command(&mut self, input: &str) -> (r: String)
        ensures
            r@ == trim(input@),
            final(self)@ == (ConfigView { test_command: Some(trim(input@)), ..old(self)@ }),
    {
        let command = trimmed(input);
        self.test_command = Some(command.clone());
        command
    }

    /// The configured Docker container, if any.
    pub fn configured_container_name(&self) -> (r: Option<String>)
        ensures
            text_of(r) == self@.container_name,
    {
        match &self.container_name {
            Some(c) => Some(c.clone()),
            None => None,
        }
    }

    /// Stores the container name the user typed, without surrounding
    /// whitespace, and returns it.
    pub fn set_container_name(&mut self, input: &str) -> (r: String)
        ensures
            r@ == trim(input@),
            final(self)@ == (ConfigView { container_name: Some(trim(input@)), ..old(self)@ }),
    {
        let name = trimmed(input);
        self.container_name = Some(name.clone());
        name
    }

    /// An update check has been recorded.
    pub fn has_updated_check_at(&self) -> (b: bool)
        ensures
            b == (self.updated_check_at@.len() > 0),
    {
        !self.updated_check_at.as_str().is_empty()
    }

    /// Records `at` as the time of the last update check, in RFC 3339; answers
    /// whether `chrono` could represent `at` (else nothing changes). An
    /// instant with a four-digit year is always stored, and reads back as
    /// itself.
    pub fn set_updated_check_at(&mut self, at: CheckInstant) -> (stored: bool)
        ensures
            stored == rfc3339_of_instant(at.seconds, at.nanoseconds) is Some,
            four_digit_year(at.seconds, at.nanoseconds) ==> stored && instant_of_rfc3339(
                final(self).updated_check_at@,
            ) == Some((at.seconds, at.nanoseconds)),
            stored ==> final(self).updated_check_at@.len() > 0,
            stored ==> final(self)@ == (ConfigView {
                updated_check_at: rfc3339_of_instant(at.seconds, at.nanoseconds)->0,
                ..old(self)@
            }),
            !stored ==> final(self)@ == old(self)@,
    {
        match format_rfc3339(at.seconds, at.nanoseconds) {
            Some(text) => {
                self.updated_check_at = text;
                true
            },
            None => false,
        }
    }

    /// The time of the last update check; `None` when the stored text is not
    /// RFC 3339 (as when no check was ever recorded).
    pub fn try_get_updated_check_at(&self) -> (r: Option<CheckInstant>)
        ensures
            (match instant_of_rfc3339(self.updated_check_at@) {
                Some((s, n)) => r == Some(CheckInstant { seconds: s, nanoseconds: n }),
                None => r is None,
            }),
    {
        match parse_rfc3339(self.updated_check_at.as_str()) {
            Some(_) => Some(self.get_updated_check_at()),
            None => None,
        }
    }

    /// The time of the last update check, which must be recorded as RFC 3339.
    pub fn get_updated_check_at(&self) -> (r: CheckInstant)
        requires
            instant_of_rfc3339(self.updated_check_at@) is Some,
        ensures
            (r.seconds, r.nanoseconds) == instant_of_rfc3339(self.updated_check_at@)->0,
    {
        match parse_rfc3339(self.updated_check_at.as_str()) {
            Some((seconds, nanoseconds)) => CheckInstant { seconds, nanoseconds },
            None => CheckInstant { seconds: 0, nanoseconds: 0 },
        }
    }
}

/// After the test command is set from `input`, reading it gives back
/// `input` without surrounding whitespace, and the other settings are as
/// they were.
pub proof fn lemma_test_command_read_after_write(before: Config, after: Config, input: Seq<char>)
    requires
        after@ == (ConfigView { test_command: Some(trim(input)), ..before@ }),
    ensures
        after@.test_command == Some(trim(input)),
        after@.container_name == before@.container_name,
        after@.updated_check_at == before@.updated_check_at,
{
}

/// After the container name is set from `input`, reading it gives back
/// `input` without surrounding whitespace, and the other settings are as
/// they were.
pub proof fn lemma_container_read_after_write(before: Config, after: Config, input: Seq<char>)
    requires
        after@ == (ConfigView { container_name: Some(trim(input)), ..before@ }),
    ensures
        after@.container_name == Some(trim(input)),
        after@.test_command == before@.test_command,
        after@.updated_check_at == before@.updated_check_at,
{
}

} // verus!
