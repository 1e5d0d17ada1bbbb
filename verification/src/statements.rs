//! The statements that the tables of a house are kept with in a SQL store.
//!
//! A table name is put into the text of a statement only after it has passed
//! the check of its characters, and then between double quotes. Every value
//! of a row goes in as a numbered parameter, never as text.

use vstd::prelude::*;
use crate::error::{Error, ValidationError};
use crate::naming::{check_identifier, is_identifier};
use crate::text::{push_str_chars, string_of};

verus! {

pub const CREATE_TABLE: &'static str = "CREATE TABLE IF NOT EXISTS ";

pub const DRAW_COLUMNS: &'static str =
    " (id INTEGER PRIMARY KEY, place INTEGER NOT NULL, date INTEGER NOT NULL, hour TEXT NOT NULL, milhar TEXT NOT NULL, \"group\" TEXT NOT NULL, updated_at INTEGER NOT NULL DEFAULT (strftime('%s', 'now')), UNIQUE (place, date, hour))";

pub const GROUP_COLUMNS: &'static str =
    " (id INTEGER PRIMARY KEY, hour TEXT NOT NULL, place INTEGER NOT NULL, \"group\" TEXT NOT NULL, updated_at INTEGER NOT NULL DEFAULT (strftime('%s', 'now')), UNIQUE (hour, place))";

pub const SELECT_DRAWS: &'static str =
    "SELECT place, strftime('%Y-%m-%d', date, 'unixepoch'), hour, CAST(milhar AS TEXT), CAST(\"group\" AS TEXT), updated_at FROM ";

pub const SELECT_GROUPS: &'static str = "SELECT id, hour, place, \"group\", updated_at FROM ";

pub const BY_ID: &'static str = " ORDER BY id";

pub const INSERT_INTO: &'static str = "INSERT INTO ";

pub const DRAW_VALUES: &'static str =
    " (place, date, hour, milhar, \"group\", updated_at) VALUES (?1, strftime('%s', ?2), ?3, ?4, ?5, ?6)";

pub const GROUP_VALUES: &'static str =
    " (id, hour, place, \"group\", updated_at) VALUES (?1, ?2, ?3, ?4, ?5)";

pub const DELETE_FROM: &'static str = "DELETE FROM ";

pub const SELECT_ALL: &'static str = "SELECT * FROM ";

pub const FIRST_ROW: &'static str = " LIMIT 1";

pub const NOTHING: &'static str = "";

/// `table` between double quotes.
pub open spec fn quoted(table: Seq<char>) -> Seq<char> {
    seq!['"'] + table + seq!['"']
}

/// The statement made of `head`, the quoted table name and `tail`.
pub open spec fn statement_text(head: Seq<char>, table: Seq<char>, tail: Seq<char>) -> Seq<char> {
    head + quoted(table) + tail
}

/// Whether `outcome` is the statement made of `head`, the quoted name
/// `table` and `tail` where `table` passes the check of its characters, and
/// the failure `InvalidHouseName` where it does not.
pub open spec fn is_statement(
    outcome: Result<String, Error>,
    head: Seq<char>,
    table: Seq<char>,
    tail: Seq<char>,
) -> bool {
    match outcome {
        Ok(text) => is_identifier(table) && text@ == statement_text(head, table, tail),
        Err(e) => !is_identifier(table) && e@ == Error::Validation(
            ValidationError::InvalidHouseName,
        )@,
    }
}

/// The statement made of `head`, the quoted name `table` and `tail`. Fails
/// with `InvalidHouseName` where `table` is empty or holds a character that
/// is not allowed in a table name.
pub fn statement(head: &str, table: &str, tail: &str) -> (outcome: Result<String, Error>)
    ensures
        is_statement(outcome, head@, table@, tail@),
{
    if !check_identifier(table) {
        return Err(Error::Validation(ValidationError::InvalidHouseName));
    }
    let mut out: Vec<char> = Vec::new();
    push_str_chars(&mut out, head);
    out.push('"');
    push_str_chars(&mut out, table);
    out.push('"');
    push_str_chars(&mut out, tail);
    assert(out@ =~= statement_text(head@, table@, tail@));
    Ok(string_of(&out))
}

/// The statement that makes the table of draws `table` if it is not there.
pub fn create_draws_table(table: &str) -> (outcome: Result<String, Error>)
    ensures
        is_statement(outcome, CREATE_TABLE@, table@, DRAW_COLUMNS@),
{
    statement(CREATE_TABLE, table, DRAW_COLUMNS)
}

/// The statement that makes the table of groups `table` if it is not there.
pub fn create_groups_table(table: &str) -> (outcome: Result<String, Error>)
    ensures
        is_statement(outcome, CREATE_TABLE@, table@, GROUP_COLUMNS@),
{
    statement(CREATE_TABLE, table, GROUP_COLUMNS)
}

/// The statement that reads the draws of `table`, oldest first, each with
/// its day as `YYYY-MM-DD` and with its number and its group as text,
/// whether the table keeps them as text or as numbers.
pub fn select_draws(table: &str) -> (outcome: Result<String, Error>)
    ensures
        is_statement(outcome, SELECT_DRAWS@, table@, BY_ID@),
{
    statement(SELECT_DRAWS, table, BY_ID)
}

/// The statement that adds one draw to `table`; its parameters are the
/// place, the day as `YYYY-MM-DD`, the hour, the number, the group and the
/// time of ingestion.
pub fn insert_draw(table: &str) -> (outcome: Result<String, Error>)
    ensures
        is_statement(outcome, INSERT_INTO@, table@, DRAW_VALUES@),
{
    statement(INSERT_INTO, table, DRAW_VALUES)
}

/// The statement that reads the groups of `table`, in the order of their
/// ids.
pub fn select_groups(table: &str) -> (outcome: Result<String, Error>)
    ensures
        is_statement(outcome, SELECT_GROUPS@, table@, BY_ID@),
{
    statement(SELECT_GROUPS, table, BY_ID)
}

/// The statement that adds one group to `table`; its parameters are the id,
/// the hour, the place, the numbers as stored text and the time of the last
/// change.
pub fn insert_group(table: &str) -> (outcome: Result<String, Error>)
    ensures
        is_statement(outcome, INSERT_INTO@, table@, GROUP_VALUES@),
{
    statement(INSERT_INTO, table, GROUP_VALUES)
}

/// The statement that empties `table`.
pub fn delete_all(table: &str) -> (outcome: Result<String, Error>)
    ensures
        is_statement(outcome, DELETE_FROM@, table@, NOTHING@),
{
    statement(DELETE_FROM, table, NOTHING)
}

/// The statement that reads every column of every row of `table`.
pub fn select_all(table: &str) -> (outcome: Result<String, Error>)
    ensures
        is_statement(outcome, SELECT_ALL@, table@, NOTHING@),
{
    statement(SELECT_ALL, table, NOTHING)
}

/// The statement that reads every column of one row of `table`, which is
/// enough to learn the names of its columns.
pub fn select_first_row(table: &str) -> (outcome: Result<String, Error>)
    ensures
        is_statement(outcome, SELECT_ALL@, table@, FIRST_ROW@),
{
    statement(SELECT_ALL, table, FIRST_ROW)
}

/// In a statement the table name stands between two double quotes and holds
/// none itself: the quoted name ends where it is meant to end.
pub proof fn lemma_quoted_name_is_closed(table: Seq<char>)
    requires
        is_identifier(table),
    ensures
        quoted(table).len() == table.len() + 2,
        quoted(table)[0] == '"',
        quoted(table)[quoted(table).len() - 1] == '"',
        forall|i: int| 0 < i < quoted(table).len() - 1 ==> #[trigger] quoted(table)[i] != '"',
{
    assert forall|i: int| 0 < i < quoted(table).len() - 1 implies #[trigger] quoted(table)[i]
        != '"' by {
        assert(quoted(table)[i] == table[i - 1]);
        crate::naming::lemma_identifier_is_plain(table, i - 1);
    }
}

} // verus!
