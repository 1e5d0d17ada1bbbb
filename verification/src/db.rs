//! The operations of the engine, each on the tables of one house: the house
//! name is turned into table names, the tables are made where they are not
//! there yet, and the work is done on them.

use vstd::prelude::*;
use crate::analytics::{loss_sequences, loss_sequences_of};
use crate::database::{Database, Table, TableView};
use crate::draws::{
    first_occurrences, has_negative_place, hours_of, latest_update, places_of, DrawTable, MAX_ROWS,
};
use crate::error::{Error, ErrorView, StorageError, ValidationError};
use crate::groups::{
    added, answers, deleted, edited, lemma_add_twice_fails, listed, rows_after, GroupRow, GroupTable,
};
use crate::ingest::{
    all_new_and_distinct, count_readable, ingest, ingested, lemma_ingested_again,
    lemma_ingested_with_room, progress_of, IngestResult,
};
use crate::model::{
    BichoData, BichoGroup, DatabaseInfo, DrawEntry, DrawRecord, DrawRow, GroupView, LossSequence,
};
use crate::naming::{
    check_identifier, is_identifier, lemma_group_name_is_identifier, resolve, table_names,
};

verus! {

/// A table of draws without rows, which holds up to `MAX_ROWS` rows.
pub open spec fn no_draws() -> TableView {
    TableView::Draws { rows: Seq::<DrawRow>::empty(), limit: MAX_ROWS as nat }
}

/// A table of groups without rows.
pub open spec fn no_groups() -> TableView {
    TableView::Groups(Seq::<GroupRow>::empty())
}

/// `tables` with the table `fresh` under `name`, unless a table goes by
/// that name already.
pub open spec fn with_table(
    tables: Map<Seq<char>, TableView>,
    name: Seq<char>,
    fresh: TableView,
) -> Map<Seq<char>, TableView> {
    if tables.contains_key(name) {
        tables
    } else {
        tables.insert(name, fresh)
    }
}

/// Whether `outcome` is the failure `e`.
pub open spec fn fails_with<T>(outcome: Result<T, Error>, e: ErrorView) -> bool {
    outcome is Err && outcome->Err_0@ == e
}

/// The failure for a house name that gives no table name.
pub open spec fn invalid_name() -> ErrorView {
    ErrorView::Validation(ValidationError::InvalidHouseName)
}

/// The failure for a table that has the columns of the other kind.
pub open spec fn mismatch() -> ErrorView {
    ErrorView::Storage(StorageError::SchemaMismatch)
}

/// Makes the table of draws `table_name` if no table goes by that name; a
/// table that is there stays as it is, whichever kind it is of. Fails with
/// `InvalidHouseName`, the store unchanged, where the name is empty or holds
/// a character that is not allowed.
pub fn create_house_table_in_not_exists(db: &mut Database, table_name: &str) -> (outcome: Result<
    (),
    Error,
>)
    requires
        old(db).wf(),
    ensures
        final(db).wf(),
        match outcome {
            Ok(_) => is_identifier(table_name@) && final(db)@ == with_table(
                old(db)@,
                table_name@,
                no_draws(),
            ),
            Err(e) => !is_identifier(table_name@) && e@ == invalid_name() && final(db)@ == old(db)@,
        },
{
    if !check_identifier(table_name) {
        return Err(Error::Validation(ValidationError::InvalidHouseName));
    }
    if db.contains(table_name) {
        return Ok(());
    }
    match db.attach(table_name, Table::Draws(DrawTable::new())) {
        Ok(_) => Ok(()),
        Err(e) => Err(e),
    }
}

/// Makes the table of groups `table_name` if no table goes by that name; a
/// table that is there stays as it is, whichever kind it is of. Fails with
/// `InvalidHouseName`, the store unchanged, where the name is empty or holds
/// a character that is not allowed.
pub fn create_group_table_in_not_exists(db: &mut Database, table_name: &str) -> (outcome: Result<
    (),
    Error,
>)
    requires
        old(db).wf(),
    ensures
        final(db).wf(),
        match outcome {
            Ok(_) => is_identifier(table_name@) && final(db)@ == with_table(
                old(db)@,
                table_name@,
                no_groups(),
            ),
            Err(e) => !is_identifier(table_name@) && e@ == invalid_name() && final(db)@ == old(db)@,
        },
{
    if !check_identifier(table_name) {
        return Err(Error::Validation(ValidationError::InvalidHouseName));
    }
    if db.contains(table_name) {
        return Ok(());
    }
    match db.attach(table_name, Table::Groups(GroupTable::new())) {
        Ok(_) => Ok(()),
        Err(e) => Err(e),
    }
}

/// The number of draws of the house and the time of its latest ingestion.
/// The table of draws is made first if it is not there.
///
/// Fails with `InvalidHouseName` where the house name gives no table name,
/// and with `SchemaMismatch` where the table of that name is one of groups.
pub fn get_table_info(db: &mut Database, house_name: String) -> (outcome: Result<
    DatabaseInfo,
    Error,
>)
    requires
        old(db).wf(),
    ensures
        final(db).wf(),
        match table_names(house_name@) {
            None => fails_with(outcome, invalid_name()) && final(db)@ == old(db)@,
            Some(names) => {
                &&& final(db)@ == with_table(old(db)@, names.draws, no_draws())
                &&& match final(db)@[names.draws] {
                    TableView::Draws { rows, .. } => outcome is Ok && outcome->Ok_0.total_rows
                        == rows.len() && outcome->Ok_0.date == latest_update(rows),
                    TableView::Groups(_) => fails_with(outcome, mismatch()),
                }
            },
        },
{
    let names = resolve(house_name.as_str())?;
    create_house_table_in_not_exists(db, names.draws.as_str())?;
    match db.table(names.draws.as_str()) {
        Some(Table::Draws(draws)) => Ok(draws.info()),
        _ => Err(Error::Storage(StorageError::SchemaMismatch)),
    }
}

/// The draws of the house, oldest first. The table of draws is made first
/// if it is not there.
///
/// Fails with `InvalidHouseName` where the house name gives no table name,
/// and with `SchemaMismatch` where the table of that name is one of groups.
pub fn export_table(db: &mut Database, house_name: String) -> (outcome: Result<
    Vec<DrawRecord>,
    Error,
>)
    requires
        old(db).wf(),
    ensures
        final(db).wf(),
        match table_names(house_name@) {
            None => fails_with(outcome, invalid_name()) && final(db)@ == old(db)@,
            Some(names) => {
                &&& final(db)@ == with_table(old(db)@, names.draws, no_draws())
                &&& match final(db)@[names.draws] {
                    TableView::Draws { rows, .. } => outcome is Ok && outcome->Ok_0.deep_view() == rows,
                    TableView::Groups(_) => fails_with(outcome, mismatch()),
                }
            },
        },
{
    let names = resolve(house_name.as_str())?;
    create_house_table_in_not_exists(db, names.draws.as_str())?;
    match db.table(names.draws.as_str()) {
        Some(Table::Draws(draws)) => Ok(draws.export()),
        _ => Err(Error::Storage(StorageError::SchemaMismatch)),
    }
}

/// The hours that occur among the draws of the house, each once, in the
/// order in which they first occur. The table of draws is made first if it
/// is not there.
///
/// Fails with `InvalidHouseName` where the house name gives no table name,
/// and with `SchemaMismatch` where the table of that name is one of groups.
pub fn get_hours(db: &mut Database, house_name: String) -> (outcome: Result<Vec<String>, Error>)
    requires
        old(db).wf(),
    ensures
        final(db).wf(),
        match table_names(house_name@) {
            None => fails_with(outcome, invalid_name()) && final(db)@ == old(db)@,
            Some(names) => {
                &&& final(db)@ == with_table(old(db)@, names.draws, no_draws())
                &&& match final(db)@[names.draws] {
                    TableView::Draws { rows, .. } => outcome is Ok && outcome->Ok_0.deep_view()
                        == first_occurrences(hours_of(rows)),
                    TableView::Groups(_) => fails_with(outcome, mismatch()),
                }
            },
        },
{
    let names = resolve(house_name.as_str())?;
    create_house_table_in_not_exists(db, names.draws.as_str())?;
    match db.table(names.draws.as_str()) {
        Some(Table::Draws(draws)) => Ok(draws.hours()),
        _ => Err(Error::Storage(StorageError::SchemaMismatch)),
    }
}

/// The places that occur among the draws of the house, each once, in the
/// order in which they first occur. The table of draws is made first if it
/// is not there.
///
/// Fails with `InvalidHouseName` where the house name gives no table name,
/// with `SchemaMismatch` where the table of that name is one of groups, and
/// with `ValueOutOfRange` where a stored place is negative.
pub fn get_places(db: &mut Database, house_name: String) -> (outcome: Result<Vec<u32>, Error>)
    requires
        old(db).wf(),
    ensures
        final(db).wf(),
        match table_names(house_name@) {
            None => fails_with(outcome, invalid_name()) && final(db)@ == old(db)@,
            Some(names) => {
                &&& final(db)@ == with_table(old(db)@, names.draws, no_draws())
                &&& match final(db)@[names.draws] {
                    TableView::Draws { rows, .. } => if has_negative_place(rows) {
                        fails_with(outcome, ErrorView::Storage(StorageError::ValueOutOfRange))
                    } else {
                        &&& outcome is Ok
                        &&& outcome->Ok_0@.len() == first_occurrences(places_of(rows)).len()
                        &&& forall|k: int|
                            0 <= k < outcome->Ok_0@.len() ==> (#[trigger] outcome->Ok_0@[k]) as int
                                == first_occurrences(places_of(rows))[k] as int
                    },
                    TableView::Groups(_) => fails_with(outcome, mismatch()),
                }
            },
        },
{
    let names = resolve(house_name.as_str())?;
    create_house_table_in_not_exists(db, names.draws.as_str())?;
    match db.table(names.draws.as_str()) {
        Some(Table::Draws(draws)) => draws.places(),
        _ => Err(Error::Storage(StorageError::SchemaMismatch)),
    }
}

/// What saving the raw draws `entries` at `now` into the table of draws
/// `name` does to the store `tables` and to the values `reported` so far.
/// The table is there afterwards, made empty where it was not there. Where
/// it is a table of draws, it holds as many rows at most as before, and its
/// rows, the answer and what is reported are those of the ingestion of
/// `entries` into its rows; no other table changes. Where it is a table of
/// groups, the answer is `SchemaMismatch`, and nothing is reported.
pub open spec fn saved(
    tables: Map<Seq<char>, TableView>,
    name: Seq<char>,
    entries: Seq<DrawEntry>,
    expected: nat,
    now: i64,
    reported: Seq<u32>,
    outcome: Result<IngestResult, Error>,
    tables_after: Map<Seq<char>, TableView>,
    reported_after: Seq<u32>,
) -> bool {
    let opened = with_table(tables, name, no_draws());
    match opened[name] {
        TableView::Draws { rows, limit } => {
            &&& tables_after.contains_key(name)
            &&& tables_after[name] is Draws
            &&& tables_after[name]->limit == limit
            &&& tables_after == opened.insert(name, tables_after[name])
            &&& ingested(
                rows,
                limit,
                entries,
                expected,
                now,
                reported,
                outcome,
                tables_after[name]->rows,
                reported_after,
            )
        },
        TableView::Groups(_) => fails_with(outcome, mismatch()) && tables_after == opened
            && reported_after == reported,
    }
}

/// Ingests the raw draws of `bicho_data` into the table of draws of the
/// house, as one transaction at the time `now`. The table is made first if
/// it is not there. `progress` receives one value after each raw draw, the
/// share of `expected` that is processed but never more than 99, and 100
/// once at the end: 100 is the last value that it receives and no other
/// value is 100.
///
/// Fails with `InvalidHouseName` where the house name gives no table name,
/// with `SchemaMismatch` where the table of that name is one of groups, and
/// with `TableFull` where the table cannot hold all the new rows: the table
/// is then as it was.
pub fn save_bicho_data(
    db: &mut Database,
    house_name: String,
    bicho_data: &BichoData,
    expected: usize,
    now: i64,
    progress: &mut Vec<u32>,
) -> (outcome: Result<IngestResult, Error>)
    requires
        old(db).wf(),
    ensures
        final(db).wf(),
        match table_names(house_name@) {
            None => fails_with(outcome, invalid_name()) && final(db)@ == old(db)@ && final(progress)@
                == old(progress)@,
            Some(names) => saved(
                old(db)@,
                names.draws,
                bicho_data.entries(),
                expected as nat,
                now,
                old(progress)@,
                outcome,
                final(db)@,
                final(progress)@,
            ),
        },
{
    let names = resolve(house_name.as_str())?;
    create_house_table_in_not_exists(db, names.draws.as_str())?;
    let ghost opened = db@;
    match db.detach(names.draws.as_str()) {
        Some(Table::Draws(mut draws)) => {
            let outcome = ingest(&mut draws, bicho_data, expected, now, progress);
            let ghost after = TableView::Draws { rows: draws@, limit: draws.capacity() };
            let _ = db.attach(names.draws.as_str(), Table::Draws(draws));
            assert(db@ =~= opened.insert(names.draws@, after));
            outcome
        },
        Some(other) => {
            let _ = db.attach(names.draws.as_str(), other);
            assert(db@ =~= opened);
            Err(Error::Storage(StorageError::SchemaMismatch))
        },
        None => Err(Error::Storage(StorageError::SchemaMismatch)),
    }
}

/// The groups of the house, in the order in which they were added, each with
/// its id. The table of groups is made first if it is not there.
///
/// Fails with `InvalidHouseName` where the house name gives no table name,
/// and with `SchemaMismatch` where the table of that name is one of draws.
pub fn get_groups(db: &mut Database, house_name: String) -> (outcome: Result<
    Vec<BichoGroup>,
    Error,
>)
    requires
        old(db).wf(),
    ensures
        final(db).wf(),
        match table_names(house_name@) {
            None => fails_with(outcome, invalid_name()) && final(db)@ == old(db)@,
            Some(names) => {
                &&& final(db)@ == with_table(old(db)@, names.groups, no_groups())
                &&& match final(db)@[names.groups] {
                    TableView::Groups(rows) => outcome is Ok && outcome->Ok_0.deep_view()
                        == listed(rows),
                    TableView::Draws { .. } => fails_with(outcome, mismatch()),
                }
            },
        },
{
    let names = resolve(house_name.as_str())?;
    proof {
        lemma_group_name_is_identifier(names.draws@);
    }
    create_group_table_in_not_exists(db, names.groups.as_str())?;
    match db.table(names.groups.as_str()) {
        Some(Table::Groups(groups)) => Ok(groups.list()),
        _ => Err(Error::Storage(StorageError::SchemaMismatch)),
    }
}

/// What a change to the groups of a house makes of the store `tables`, where
/// `change` says what it makes of the rows of the table of groups: the table
/// is there afterwards, with the new rows on success and the old ones on
/// failure.
pub open spec fn groups_changed(
    tables: Map<Seq<char>, TableView>,
    name: Seq<char>,
    change: spec_fn(Seq<GroupRow>) -> Result<Seq<GroupRow>, ErrorView>,
) -> Map<Seq<char>, TableView> {
    let opened = with_table(tables, name, no_groups());
    match opened[name] {
        TableView::Groups(rows) => opened.insert(
            name,
            TableView::Groups(rows_after(rows, change(rows))),
        ),
        TableView::Draws { .. } => opened,
    }
}

/// What a change to the groups of a house answers: what `change` says for
/// the rows of the table of groups, and `SchemaMismatch` where the table of
/// that name is one of draws.
pub open spec fn groups_change_answers(
    tables: Map<Seq<char>, TableView>,
    name: Seq<char>,
    change: spec_fn(Seq<GroupRow>) -> Result<Seq<GroupRow>, ErrorView>,
    outcome: Result<(), Error>,
) -> bool {
    match with_table(tables, name, no_groups())[name] {
        TableView::Groups(rows) => answers(outcome, change(rows)),
        TableView::Draws { .. } => fails_with(outcome, mismatch()),
    }
}

/// Adds the group `data` to the groups of the house, under a new id, at the
/// time `now`. The table of groups is made first if it is not there.
///
/// Fails with `InvalidHouseName` where the house name gives no table name,
/// with `SchemaMismatch` where the table of that name is one of draws, with
/// `DuplicateGroup` where a group is there for the hour and place of `data`,
/// and with `IdsExhausted` where the largest id is taken. Nothing is added
/// then.
pub fn add_group(db: &mut Database, house_name: String, data: BichoGroup, now: i64) -> (outcome:
    Result<(), Error>)
    requires
        old(db).wf(),
    ensures
        final(db).wf(),
        match table_names(house_name@) {
            None => fails_with(outcome, invalid_name()) && final(db)@ == old(db)@,
            Some(names) => {
                &&& groups_change_answers(
                    old(db)@,
                    names.groups,
                    |rows: Seq<GroupRow>| added(rows, data@, now),
                    outcome,
                )
                &&& final(db)@ == groups_changed(
                    old(db)@,
                    names.groups,
                    |rows: Seq<GroupRow>| added(rows, data@, now),
                )
            },
        },
{
    let names = resolve(house_name.as_str())?;
    proof {
        lemma_group_name_is_identifier(names.draws@);
    }
    create_group_table_in_not_exists(db, names.groups.as_str())?;
    let ghost opened = db@;
    match db.detach(names.groups.as_str()) {
        Some(Table::Groups(mut groups)) => {
            let outcome = groups.add(&data, now);
            let ghost after = TableView::Groups(groups@);
            let _ = db.attach(names.groups.as_str(), Table::Groups(groups));
            assert(db@ =~= opened.insert(names.groups@, after));
            outcome
        },
        Some(other) => {
            let _ = db.attach(names.groups.as_str(), other);
            assert(db@ =~= opened);
            Err(Error::Storage(StorageError::SchemaMismatch))
        },
        None => Err(Error::Storage(StorageError::SchemaMismatch)),
    }
}

/// Gives the group of the house that has the id of `data` the hour, place
/// and numbers of `data`, and the time `now`. The table of groups is made
/// first if it is not there. Where no group has the id, nothing changes and
/// nothing fails.
///
/// Fails with `MissingId` where `data` has no id, with `InvalidHouseName`
/// where the house name gives no table name, with `SchemaMismatch` where the
/// table of that name is one of draws, and with `DuplicateGroup` where
/// another group is there for the hour and place of `data`. No group is
/// changed then.
pub fn edit_group(db: &mut Database, house_name: String, data: BichoGroup, now: i64) -> (outcome:
    Result<(), Error>)
    requires
        old(db).wf(),
    ensures
        final(db).wf(),
        data.id is None ==> fails_with(
            outcome,
            ErrorView::Validation(ValidationError::MissingId),
        ) && final(db)@ == old(db)@,
        data.id is Some ==> match table_names(house_name@) {
            None => fails_with(outcome, invalid_name()) && final(db)@ == old(db)@,
            Some(names) => {
                &&& groups_change_answers(
                    old(db)@,
                    names.groups,
                    |rows: Seq<GroupRow>| edited(rows, data@, now),
                    outcome,
                )
                &&& final(db)@ == groups_changed(
                    old(db)@,
                    names.groups,
                    |rows: Seq<GroupRow>| edited(rows, data@, now),
                )
            },
        },
{
    if data.id.is_none() {
        return Err(Error::Validation(ValidationError::MissingId));
    }
    let names = resolve(house_name.as_str())?;
    proof {
        lemma_group_name_is_identifier(names.draws@);
    }
    create_group_table_in_not_exists(db, names.groups.as_str())?;
    let ghost opened = db@;
    match db.detach(names.groups.as_str()) {
        Some(Table::Groups(mut groups)) => {
            let outcome = groups.edit(&data, now);
            let ghost after = TableView::Groups(groups@);
            let _ = db.attach(names.groups.as_str(), Table::Groups(groups));
            assert(db@ =~= opened.insert(names.groups@, after));
            outcome
        },
        Some(other) => {
            let _ = db.attach(names.groups.as_str(), other);
            assert(db@ =~= opened);
            Err(Error::Storage(StorageError::SchemaMismatch))
        },
        None => Err(Error::Storage(StorageError::SchemaMismatch)),
    }
}

/// Takes the group with the id `id` away from the groups of the house, and
/// no other. The table of groups is made first if it is not there.
///
/// Fails with `InvalidHouseName` where the house name gives no table name,
/// with `SchemaMismatch` where the table of that name is one of draws, and
/// with `NotFound` where no group has the id. No group is taken away then.
pub fn delete_group(db: &mut Database, house_name: String, id: u32) -> (outcome: Result<(), Error>)
    requires
        old(db).wf(),
    ensures
        final(db).wf(),
        match table_names(house_name@) {
            None => fails_with(outcome, invalid_name()) && final(db)@ == old(db)@,
            Some(names) => {
                &&& groups_change_answers(
                    old(db)@,
                    names.groups,
                    |rows: Seq<GroupRow>| deleted(rows, id),
                    outcome,
                )
                &&& final(db)@ == groups_changed(
                    old(db)@,
                    names.groups,
                    |rows: Seq<GroupRow>| deleted(rows, id),
                )
            },
        },
{
    let names = resolve(house_name.as_str())?;
    proof {
        lemma_group_name_is_identifier(names.draws@);
    }
    create_group_table_in_not_exists(db, names.groups.as_str())?;
    let ghost opened = db@;
    match db.detach(names.groups.as_str()) {
        Some(Table::Groups(mut groups)) => {
            let outcome = groups.delete(id);
            let ghost after = TableView::Groups(groups@);
            let _ = db.attach(names.groups.as_str(), Table::Groups(groups));
            assert(db@ =~= opened.insert(names.groups@, after));
            outcome
        },
        Some(other) => {
            let _ = db.attach(names.groups.as_str(), other);
            assert(db@ =~= opened);
            Err(Error::Storage(StorageError::SchemaMismatch))
        },
        None => Err(Error::Storage(StorageError::SchemaMismatch)),
    }
}

/// The loss sequence of each group of the house over the draws of the house,
/// one for each stored group, in their order. Both tables are made first
/// where they are not there.
///
/// Fails with `InvalidHouseName` where the house name gives no table name,
/// and with `SchemaMismatch` where one of the two tables is of the other
/// kind.
pub fn get_loss_sequence(db: &mut Database, house_name: String) -> (outcome: Result<
    Vec<LossSequence>,
    Error,
>)
    requires
        old(db).wf(),
    ensures
        final(db).wf(),
        match table_names(house_name@) {
            None => fails_with(outcome, invalid_name()) && final(db)@ == old(db)@,
            Some(names) => {
                &&& final(db)@ == with_table(
                    with_table(old(db)@, names.draws, no_draws()),
                    names.groups,
                    no_groups(),
                )
                &&& match (final(db)@[names.draws], final(db)@[names.groups]) {
                    (TableView::Draws { rows: draws, .. }, TableView::Groups(groups)) => outcome is Ok
                        && outcome->Ok_0.deep_view() == loss_sequences(draws, groups),
                    _ => fails_with(outcome, mismatch()),
                }
            },
        },
{
    let names = resolve(house_name.as_str())?;
    proof {
        lemma_group_name_is_identifier(names.draws@);
    }
    create_house_table_in_not_exists(db, names.draws.as_str())?;
    create_group_table_in_not_exists(db, names.groups.as_str())?;
    match (db.table(names.draws.as_str()), db.table(names.groups.as_str())) {
        (Some(Table::Draws(draws)), Some(Table::Groups(groups))) => Ok(
            loss_sequences_of(draws, groups),
        ),
        _ => Err(Error::Storage(StorageError::SchemaMismatch)),
    }
}

/// The table of draws `name` as `tables` holds it: a table without rows
/// where the store has no table of that name.
pub open spec fn draws_of(tables: Map<Seq<char>, TableView>, name: Seq<char>) -> TableView {
    with_table(tables, name, no_draws())[name]
}

/// Saving into a table of draws that has room: where the raw draws with a
/// readable place are all of different place, day and hour, none of them is
/// in the table yet and the table can hold a row for each of them, the save
/// succeeds, and the table then holds as many more rows as there are raw
/// draws with a readable place; a raw draw whose place cannot be read adds no
/// row. For a table that was empty or not there, that is the number of its
/// rows, which `get_table_info` reports as `total_rows`.
pub proof fn lemma_save_counts_readable(
    tables: Map<Seq<char>, TableView>,
    name: Seq<char>,
    entries: Seq<DrawEntry>,
    expected: nat,
    now: i64,
    reported: Seq<u32>,
    outcome: Result<IngestResult, Error>,
    tables_after: Map<Seq<char>, TableView>,
    reported_after: Seq<u32>,
)
    requires
        draws_of(tables, name) is Draws,
        all_new_and_distinct(draws_of(tables, name)->rows, entries),
        draws_of(tables, name)->rows.len() + count_readable(entries) <= draws_of(
            tables,
            name,
        )->limit,
        saved(tables, name, entries, expected, now, reported, outcome, tables_after, reported_after),
    ensures
        outcome is Ok,
        outcome->Ok_0.inserted == count_readable(entries),
        outcome->Ok_0.skipped == entries.len() - count_readable(entries),
        draws_of(tables_after, name) is Draws,
        draws_of(tables_after, name)->rows.len() == draws_of(tables, name)->rows.len()
            + count_readable(entries),
        draws_of(tables, name)->rows.len() == 0 ==> draws_of(tables_after, name)->rows.len()
            == count_readable(entries),
        reported_after == reported + progress_of(entries.len(), expected),
{
    lemma_ingested_with_room(
        draws_of(tables, name)->rows,
        draws_of(tables, name)->limit,
        entries,
        expected,
        now,
        reported,
        outcome,
        tables_after[name]->rows,
        reported_after,
    );
}

/// Saving the same raw draws a second time, after a save that succeeded,
/// succeeds too, adds no row and leaves the store as the first save left it:
/// the number of rows does not change.
pub proof fn lemma_save_again(
    tables: Map<Seq<char>, TableView>,
    name: Seq<char>,
    entries: Seq<DrawEntry>,
    expected: nat,
    now: i64,
    later: i64,
    reported: Seq<u32>,
    first: Result<IngestResult, Error>,
    tables_after: Map<Seq<char>, TableView>,
    reported_after: Seq<u32>,
    second: Result<IngestResult, Error>,
    tables_at_last: Map<Seq<char>, TableView>,
    reported_at_last: Seq<u32>,
)
    requires
        first is Ok,
        saved(tables, name, entries, expected, now, reported, first, tables_after, reported_after),
        saved(
            tables_after,
            name,
            entries,
            expected,
            later,
            reported_after,
            second,
            tables_at_last,
            reported_at_last,
        ),
    ensures
        second is Ok,
        second->Ok_0.inserted == 0,
        second->Ok_0.skipped == entries.len(),
        tables_at_last == tables_after,
{
    let opened = with_table(tables, name, no_draws());
    assert(with_table(tables_after, name, no_draws()) == tables_after);
    lemma_ingested_again(
        opened[name]->rows,
        opened[name]->limit,
        entries,
        expected,
        now,
        later,
        reported,
        first->Ok_0,
        tables_after[name]->rows,
        reported_after,
        second,
        tables_at_last[name]->rows,
        reported_at_last,
    );
    assert(tables_at_last[name] == tables_after[name]);
    assert(tables_at_last =~= tables_after);
}

/// Once `add_group` has added a group to the groups of a house, adding
/// another one for the same hour and place to the groups of that house fails
/// with `DuplicateGroup` and leaves the store as it is.
pub proof fn lemma_add_group_twice(
    tables: Map<Seq<char>, TableView>,
    name: Seq<char>,
    first: GroupView,
    second: GroupView,
    now: i64,
    later: i64,
    first_outcome: Result<(), Error>,
    second_outcome: Result<(), Error>,
)
    requires
        second.hour == first.hour,
        second.place == first.place,
        first_outcome is Ok,
        groups_change_answers(tables, name, |rows: Seq<GroupRow>| added(rows, first, now), first_outcome),
        groups_change_answers(
            groups_changed(tables, name, |rows: Seq<GroupRow>| added(rows, first, now)),
            name,
            |rows: Seq<GroupRow>| added(rows, second, later),
            second_outcome,
        ),
    ensures
        fails_with(
            second_outcome,
            ErrorView::DuplicateGroup { hour: first.hour, place: first.place },
        ),
        groups_changed(
            groups_changed(tables, name, |rows: Seq<GroupRow>| added(rows, first, now)),
            name,
            |rows: Seq<GroupRow>| added(rows, second, later),
        ) == groups_changed(tables, name, |rows: Seq<GroupRow>| added(rows, first, now)),
{
    let opened = with_table(tables, name, no_groups());
    let rows = opened[name]->Groups_0;
    let once = groups_changed(tables, name, |rows: Seq<GroupRow>| added(rows, first, now));
    lemma_add_twice_fails(rows, first, second, now, later);
    let rows_once = added(rows, first, now)->Ok_0;
    assert(once == opened.insert(name, TableView::Groups(rows_once)));
    assert(with_table(once, name, no_groups()) == once);
    assert(once[name] == TableView::Groups(rows_once));
    let twice = groups_changed(once, name, |rows: Seq<GroupRow>| added(rows, second, later));
    assert(twice =~= once);
}

} // verus!
