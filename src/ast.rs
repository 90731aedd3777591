//! The document tree that the parser builds.
use vstd::prelude::*;
use crate::calendar::{Date, Time};
use crate::settings::Settings;

verus! {

/// A length of time, in whole seconds.
#[derive(Clone, Copy, Debug, PartialEq, Eq, Structural)]
pub struct Duration {
    pub secs: u128,
}

/// A log: optional settings and the day records in source order.
#[derive(Clone, Debug, PartialEq, Eq)]
pub struct File {
    pub settings: Option<Settings>,
    pub records: Vec<DayRecord>,
}

/// One day and what was logged on it.
#[derive(Clone, Debug, PartialEq, Eq)]
pub struct DayRecord {
    pub date: Date,
    pub events: Vec<Event>,
}

/// One logged activity: optional tags and its time intervals.
#[derive(Clone, Debug, PartialEq, Eq)]
pub struct Event {
    pub tags: Option<Tags>,
    pub info: Vec<EventInfo>,
}

/// Tags in the order they were written.
#[derive(Clone, Debug, PartialEq, Eq)]
pub struct Tags {
    pub tags: Vec<Tag>,
}

/// A label with an optional free-text detail.
#[derive(Clone, Debug, PartialEq, Eq)]
pub struct Tag {
    pub title: String,
    pub detail: Option<String>,
}

/// A start time on the record's day and how long it lasted.
#[derive(Clone, Copy, Debug, PartialEq, Eq, Structural)]
pub struct EventInfo {
    pub time: Time,
    pub duration: Duration,
}

} // verus!
