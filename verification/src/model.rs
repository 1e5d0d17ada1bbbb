//! The records that go in and out of the engine.

use vstd::prelude::*;
use crate::date::{normalized_date, Date};
use crate::parse::{i32_of_text, parse_i32};

verus! {

/// What stands in a stored draw for a text field that the source left out.
pub const MISSING: &'static str = "999";

/// The place given to a draw whose source names none.
pub const MISSING_PLACE: i32 = 999;

/// The lottery a raw draw belongs to.
#[derive(Clone, Debug, PartialEq, Eq)]
pub struct Lottery {
    pub title: Option<String>,
}

/// One raw draw of a snapshot, every field as the source gave it.
#[derive(Clone, Debug, PartialEq, Eq)]
pub struct BichoDraw {
    pub place: Option<String>,
    pub lottery: Lottery,
    pub thousand: Option<String>,
    pub hour: Option<String>,
    pub group: Option<String>,
    pub date: Option<String>,
}

/// A snapshot as the provider publishes it: groups of raw draws.
#[derive(Clone, Debug, PartialEq, Eq)]
pub struct BichoData {
    pub bicho_lotteries_draws: Vec<Vec<BichoDraw>>,
    pub show_more: bool,
    pub status: String,
}

/// A group of numbers that a user follows for one hour and place.
#[derive(Clone, Debug, PartialEq, Eq)]
pub struct BichoGroup {
    pub id: Option<u32>,
    pub hour: String,
    pub place: u32,
    pub group: Vec<u32>,
}

/// How many draws have passed since a group last matched.
#[derive(Clone, Debug, PartialEq, Eq)]
pub struct LossSequence {
    pub hour: String,
    pub group: String,
    pub place: u32,
    pub loss_sequence: i32,
}

/// The size of a table of draws and the time of its latest ingestion.
#[derive(Clone, Copy, Debug, PartialEq, Eq, Structural)]
pub struct DatabaseInfo {
    pub total_rows: i32,
    pub date: Option<i64>,
}

/// One stored draw.
#[derive(Debug, PartialEq, Eq)]
pub struct DrawRecord {
    pub place: i32,
    pub date: Date,
    pub hour: String,
    pub milhar: String,
    pub group: String,
    pub updated_at: i64,
}

/// A `BichoDraw` with its texts as sequences of characters.
pub struct DrawEntry {
    pub place: Option<Seq<char>>,
    pub title: Option<Seq<char>>,
    pub thousand: Option<Seq<char>>,
    pub hour: Option<Seq<char>>,
    pub group: Option<Seq<char>>,
    pub date: Option<Seq<char>>,
}

/// A `BichoGroup` with its texts and numbers as sequences.
pub struct GroupView {
    pub id: Option<u32>,
    pub hour: Seq<char>,
    pub place: u32,
    pub group: Seq<u32>,
}

/// A `LossSequence` with its texts as sequences of characters.
pub struct LossView {
    pub hour: Seq<char>,
    pub group: Seq<char>,
    pub place: u32,
    pub loss_sequence: i32,
}

/// A `DrawRecord` with its texts as sequences of characters.
pub struct DrawRow {
    pub place: i32,
    pub date: Date,
    pub hour: Seq<char>,
    pub milhar: Seq<char>,
    pub group: Seq<char>,
    pub updated_at: i64,
}

impl DeepView for BichoDraw {
    type V = DrawEntry;

    open spec fn deep_view(&self) -> DrawEntry {
        DrawEntry {
            place: self.place.deep_view(),
            title: self.lottery.title.deep_view(),
            thousand: self.thousand.deep_view(),
            hour: self.hour.deep_view(),
            group: self.group.deep_view(),
            date: self.date.deep_view(),
        }
    }
}

impl View for BichoGroup {
    type V = GroupView;

    open spec fn view(&self) -> GroupView {
        GroupView { id: self.id, hour: self.hour@, place: self.place, group: self.group@ }
    }
}

impl DeepView for BichoGroup {
    type V = GroupView;

    open spec fn deep_view(&self) -> GroupView {
        self@
    }
}

impl View for LossSequence {
    type V = LossView;

    open spec fn view(&self) -> LossView {
        LossView {
            hour: self.hour@,
            group: self.group@,
            place: self.place,
            loss_sequence: self.loss_sequence,
        }
    }
}

impl DeepView for LossSequence {
    type V = LossView;

    open spec fn deep_view(&self) -> LossView {
        self@
    }
}

impl View for DrawRecord {
    type V = DrawRow;

    open spec fn view(&self) -> DrawRow {
        DrawRow {
            place: self.place,
            date: self.date,
            hour: self.hour@,
            milhar: self.milhar@,
            group: self.group@,
            updated_at: self.updated_at,
        }
    }
}

impl DeepView for DrawRecord {
    type V = DrawRow;

    open spec fn deep_view(&self) -> DrawRow {
        self@
    }
}

impl Clone for DrawRecord {
    fn clone(&self) -> (copy: Self)
        ensures
            copy == *self,
    {
        DrawRecord {
            place: self.place,
            date: self.date,
            hour: self.hour.clone(),
            milhar: self.milhar.clone(),
            group: self.group.clone(),
            updated_at: self.updated_at,
        }
    }
}

/// The raw draws of a snapshot, group after group, in the order given.
pub open spec fn all_entries(groups: Seq<Seq<DrawEntry>>) -> Seq<DrawEntry>
    decreases groups.len(),
{
    if groups.len() == 0 {
        Seq::<DrawEntry>::empty()
    } else {
        all_entries(groups.drop_last()) + groups.last()
    }
}

impl BichoData {
    /// The raw draws of this snapshot, in the order given.
    pub open spec fn entries(&self) -> Seq<DrawEntry> {
        all_entries(self.bicho_lotteries_draws.deep_view())
    }
}

/// The place of a raw draw: the number its `place` writes, 999 where the
/// field is absent, and none where the field writes no number.
pub open spec fn place_of(e: DrawEntry) -> Option<i32> {
    match e.place {
        Some(s) => i32_of_text(s),
        None => Some(MISSING_PLACE),
    }
}

/// The text kept for a field: the field itself, or `999` where it is absent.
pub open spec fn text_or_missing(field: Option<Seq<char>>) -> Seq<char> {
    match field {
        Some(s) => s,
        None => MISSING@,
    }
}

/// The row that stands for the raw draw `e` when it is ingested at `now`;
/// none where its place cannot be read.
pub open spec fn row_of(e: DrawEntry, now: i64) -> Option<DrawRow> {
    match place_of(e) {
        Some(place) => Some(
            DrawRow {
                place,
                date: normalized_date(e.date),
                hour: text_or_missing(e.hour),
                milhar: text_or_missing(e.thousand),
                group: text_or_missing(e.group),
                updated_at: now,
            },
        ),
        None => None,
    }
}

/// The text kept for a field.
fn owned_or_missing(field: &Option<String>) -> (text: String)
    ensures
        text@ == text_or_missing(field.deep_view()),
{
    match field {
        Some(s) => s.clone(),
        None => MISSING.to_owned(),
    }
}

impl BichoDraw {
    /// The record that stands for this raw draw when it is ingested at `now`;
    /// none where its place cannot be read.
    pub fn to_record(&self, now: i64) -> (record: Option<DrawRecord>)
        ensures
            record.deep_view() == row_of(self.deep_view(), now),
    {
        let place = match &self.place {
            Some(s) => parse_i32(s.as_str()),
            None => Some(MISSING_PLACE),
        };
        match place {
            Some(place) => Some(
                DrawRecord {
                    place,
                    date: Date::normalized(&self.date),
                    hour: owned_or_missing(&self.hour),
                    milhar: owned_or_missing(&self.thousand),
                    group: owned_or_missing(&self.group),
                    updated_at: now,
                },
            ),
            None => None,
        }
    }
}

} // verus!
