//! The optional settings block: where the week starts.
use vstd::prelude::*;
use crate::calendar::{hms_field, plain_hms, parse_time_of_day, parse_weekday_name, time_of_text, weekday_of_name, Time, Weekday};

verus! {

/// When the week starts: a weekday and a time of day.
#[derive(Clone, Copy, Debug, PartialEq, Eq, Structural)]
pub struct Start {
    pub weekday: Weekday,
    pub time: Time,
}

/// The settings that a log may carry ahead of its records.
#[derive(Clone, Copy, Debug, PartialEq, Eq, Structural)]
pub struct Settings {
    pub start: Start,
}

impl Settings {
    pub open spec fn wf(self) -> bool {
        self.start.time.wf()
    }
}

#[verifier::external_type_specification]
#[verifier::external_body]
pub struct ExTomlError(toml::de::Error);

/// Why a settings block was refused.
#[derive(Debug)]
pub enum SettingsError {
    /// The block is no TOML document.
    Syntax(toml::de::Error),
    /// A field is absent or not of the expected TOML type; holds its path.
    MissingField(String),
    /// `start.weekday` names no weekday; holds the text.
    InvalidWeekday(String),
    /// `start.time` is no time of day; holds the text.
    InvalidTime(String),
}

/// What a TOML document `text` holds under the table `table`: `None` when
/// `text` is no TOML document, `Some(None)` when `table` is absent or no
/// table, else the strings stored under `first` and `second` (`None` for an
/// entry that is absent or no string).
pub uninterp spec fn toml_strings(text: Seq<char>, table: Seq<char>, first: Seq<char>, second: Seq<char>) -> Option<
    Option<(Option<Seq<char>>, Option<Seq<char>>)>,
>;

/// Relies on `toml::from_str` into a `toml::Table`, then on `Table::get`
/// with `Value::as_table` for `table` and with `Value::as_str` for `first`
/// and `second`.
#[verifier::external_body]
fn toml_table_strings(text: &str, table: &str, first: &str, second: &str) -> (r: Result<
    Option<(Option<String>, Option<String>)>,
    toml::de::Error,
>)
    ensures
        match r {
            Err(_) => toml_strings(text@, table@, first@, second@) is None,
            Ok(None) => toml_strings(text@, table@, first@, second@) == Some(
                None::<(Option<Seq<char>>, Option<Seq<char>>)>,
            ),
            Ok(Some((a, b))) => toml_strings(text@, table@, first@, second@) == Some(
                Some((opt_view(a), opt_view(b))),
            ),
        },
{
    let doc: toml::Table = toml::from_str(text)?;
    let inner = match doc.get(table).and_then(toml::Value::as_table) {
        Some(t) => t,
        None => return Ok(None),
    };
    let a = inner.get(first).and_then(toml::Value::as_str).map(String::from);
    let b = inner.get(second).and_then(toml::Value::as_str).map(String::from);
    Ok(Some((a, b)))
}

/// The settings that the TOML text `text` spells, if it spells any.
pub open spec fn settings_of_text(text: Seq<char>) -> Option<Settings> {
    match toml_strings(text, "start"@, "weekday"@, "time"@) {
        Some(Some((w, t))) => settings_of_fields(w, t),
        _ => None,
    }
}

/// What the fields `start.weekday` and `start.time` of a settings document
/// give, when their texts are `weekday` and `time` (`None` where a field is
/// absent or holds no string).
pub open spec fn settings_of_fields(weekday: Option<Seq<char>>, time: Option<Seq<char>>) -> Option<Settings> {
    match (weekday, time) {
        (Some(w), Some(t)) => match (weekday_of_name(w), time_of_text(t)) {
            (Some(i), Some((secs, nanos))) => Some(
                Settings {
                    start: Start {
                        weekday: weekday_from_index(i as int),
                        time: Time { secs, nanos },
                    },
                },
            ),
            _ => None,
        },
        _ => None,
    }
}

pub open spec fn weekday_from_index(i: int) -> Weekday {
    if i == 0 {
        Weekday::Mon
    } else if i == 1 {
        Weekday::Tue
    } else if i == 2 {
        Weekday::Wed
    } else if i == 3 {
        Weekday::Thu
    } else if i == 4 {
        Weekday::Fri
    } else if i == 5 {
        Weekday::Sat
    } else {
        Weekday::Sun
    }
}

pub open spec fn opt_view(s: Option<String>) -> Option<Seq<char>> {
    match s {
        Some(x) => Some(x@),
        None => None,
    }
}

/// Builds the settings from the texts of `start.weekday` and `start.time`.
pub fn settings_from_fields(weekday: Option<String>, time: Option<String>) -> (r: Result<Settings, SettingsError>)
    ensures
        match r {
            Ok(s) => s.wf() && settings_of_fields(opt_view(weekday), opt_view(time)) == Some(s),
            Err(_) => settings_of_fields(opt_view(weekday), opt_view(time)).is_none(),
        },
        weekday.is_none() ==> r matches Err(SettingsError::MissingField(_)),
        weekday.is_some() && time.is_none() ==> r matches Err(SettingsError::MissingField(_)),
        (weekday matches Some(w) && weekday_of_name(w@) is Some) && (time matches Some(t) && plain_hms(t@)) ==> (
        r matches Ok(st) && st.start.time == (Time {
            secs: (hms_field(time.unwrap()@, 0) * 3600 + hms_field(time.unwrap()@, 3) * 60 + hms_field(
                time.unwrap()@,
                6,
            )) as u32,
            nanos: 0,
        }) && st.start.weekday.index() == weekday_of_name(weekday.unwrap()@).unwrap() as int),
{
    let w = match weekday {
        Some(w) => w,
        None => return Err(SettingsError::MissingField("start.weekday".to_string())),
    };
    let t = match time {
        Some(t) => t,
        None => return Err(SettingsError::MissingField("start.time".to_string())),
    };
    let index = match parse_weekday_name(w.as_str()) {
        Some(i) => i,
        None => return Err(SettingsError::InvalidWeekday(w)),
    };
    let tod = match parse_time_of_day(t.as_str()) {
        Some(x) => x,
        None => return Err(SettingsError::InvalidTime(t)),
    };
    let wd = Weekday::from_index(index);
    proof {
        assert(wd == weekday_from_index(index as int));
    }
    Ok(Settings { start: Start { weekday: wd, time: tod } })
}

/// Reads settings from the text of a TOML document with a `[start]` table
/// holding `weekday` and `time` strings.
pub fn settings_from_toml(text: &str) -> (r: Result<Settings, SettingsError>)
    ensures
        r is Ok <==> settings_of_text(text@) is Some,
        r matches Ok(s) ==> s.wf() && settings_of_text(text@) == Some(s),
        toml_strings(text@, "start"@, "weekday"@, "time"@) is None ==> (r matches Err(e) && e is Syntax),
        toml_strings(text@, "start"@, "weekday"@, "time"@) == Some(None::<(Option<Seq<char>>, Option<Seq<char>>)>)
            ==> (r matches Err(e) && e is MissingField),
{
    let fields = match toml_table_strings(text, "start", "weekday", "time") {
        Ok(f) => f,
        Err(e) => return Err(SettingsError::Syntax(e)),
    };
    match fields {
        Some((weekday, time)) => settings_from_fields(weekday, time),
        None => Err(SettingsError::MissingField("start".to_string())),
    }
}

} // verus!
