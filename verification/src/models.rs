//! The records the analytics read and the values they derive.

use crate::calendar::Date;
use crate::sorting::Dated;
use vstd::prelude::*;

verus! {

/// A cycle that the user recorded as starting on `start_date`.
#[derive(Clone, Debug, PartialEq, Eq)]
pub struct Cycle {
    pub id: u128,
    pub user_id: u128,
    pub start_date: Date,
    /// Microseconds since the Unix epoch.
    pub created_at: i64,
}

impl Dated for Cycle {
    open spec fn date_of(&self) -> Date {
        self.start_date
    }

    fn date(&self) -> (date: Date) {
        self.start_date
    }
}

/// Where the user stands in the current cycle.
#[derive(Clone, Debug, PartialEq, Eq)]
pub struct CycleSummary {
    pub cycle_day: i64,
    pub in_fertile_window: bool,
    pub period_expected_in_days: i64,
    pub start_date: Date,
}

/// The symptoms logged on one day.
#[derive(Clone, Debug, PartialEq, Eq)]
pub struct SymptomsByDate {
    pub logged_at: Date,
    pub symptoms: Vec<String>,
}

/// What each of the texts holds.
pub open spec fn text_views(texts: Seq<String>) -> Seq<Seq<char>> {
    texts.map_values(|text: String| text@)
}

/// What a [`SymptomsByDate`] holds.
pub ghost struct SymptomsByDateView {
    pub logged_at: Date,
    pub symptoms: Seq<Seq<char>>,
}

impl View for SymptomsByDate {
    type V = SymptomsByDateView;

    open spec fn view(&self) -> SymptomsByDateView {
        SymptomsByDateView { logged_at: self.logged_at, symptoms: text_views(self.symptoms@) }
    }
}

/// One logged symptom.
#[derive(Clone, Debug, PartialEq, Eq)]
pub struct SymptomLog {
    pub logged_at: Date,
    pub symptom_type: String,
    pub intensity: Option<String>,
}

impl Dated for SymptomLog {
    open spec fn date_of(&self) -> Date {
        self.logged_at
    }

    fn date(&self) -> (date: Date) {
        self.logged_at
    }
}

/// A request to remove a symptom, as it arrives: nothing in it is parsed yet.
#[derive(Clone, Debug, PartialEq, Eq)]
pub struct DeleteSymptomRequest {
    pub user_id: String,
    pub logged_at: String,
    pub symptom_type: String,
}

/// A request for the bleeding history of one user.
#[derive(Clone, Debug, PartialEq, Eq)]
pub struct BleedingHistoryRequest {
    pub user_id: u128,
}

/// A bleeding log as the record store hands it out: the intensity may be missing.
#[derive(Clone, Debug, PartialEq, Eq)]
pub struct BleedingLogEntry {
    pub date: Date,
    pub intensity: Option<String>,
}

impl Dated for BleedingLogEntry {
    open spec fn date_of(&self) -> Date {
        self.date
    }

    fn date(&self) -> (date: Date) {
        self.date
    }
}

/// One day of bleeding.
#[derive(Clone, Debug, PartialEq, Eq)]
pub struct BleedingDay {
    pub date: Date,
    pub intensity: String,
}

/// What a [`BleedingDay`] holds.
pub ghost struct BleedingDayView {
    pub date: Date,
    pub intensity: Seq<char>,
}

impl View for BleedingDay {
    type V = BleedingDayView;

    open spec fn view(&self) -> BleedingDayView {
        BleedingDayView { date: self.date, intensity: self.intensity@ }
    }
}

/// A bleeding episode: days of bleeding that follow one another.
#[derive(Clone, Debug, PartialEq, Eq)]
pub struct BleedingCycle {
    pub start_date: Date,
    pub end_date: Date,
    pub days: Vec<BleedingDay>,
}

/// What a [`BleedingCycle`] holds.
pub ghost struct BleedingCycleView {
    pub start_date: Date,
    pub end_date: Date,
    pub days: Seq<BleedingDayView>,
}

impl View for BleedingCycle {
    type V = BleedingCycleView;

    open spec fn view(&self) -> BleedingCycleView {
        BleedingCycleView {
            start_date: self.start_date,
            end_date: self.end_date,
            days: self.days@.map_values(|day: BleedingDay| day@),
        }
    }
}

} // verus!
