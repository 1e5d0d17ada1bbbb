//! From the free text of a house name to the names of its two tables.
//!
//! A house name is normalised by putting an underscore in place of each
//! hyphen and each white space character. The result names the table of
//! draws; with `group_` in front it names the table of groups. A name is
//! only ever used for a table once it has been checked against the allowed
//! characters: letters, digits and the underscore.

use vstd::prelude::*;
use crate::error::{Error, ValidationError};
use crate::parse::is_whitespace;
use crate::text::{chars_of, is_digit};

verus! {

/// The pattern that matches one separator in a house name: a hyphen or a
/// white space character.
pub const SEPARATORS: &'static str = "[-\\s]";

/// What stands in place of each separator.
pub const SEPARATOR_SUBSTITUTE: &'static str = "_";

/// What the name of a table of groups starts with.
pub const GROUP_PREFIX: &'static str = "group_";

/// Whether `c` is a separator in a house name: a hyphen or a white space
/// character.
pub open spec fn is_separator(c: char) -> bool {
    c == '-' || is_whitespace(c)
}

/// `text` with an underscore in place of each separator.
pub open spec fn with_underscores(text: Seq<char>) -> Seq<char> {
    Seq::new(
        text.len(),
        |i: int|
            if is_separator(text[i]) {
                '_'
            } else {
                text[i]
            },
    )
}

/// What `char::is_alphanumeric` returns for `c`.
pub uninterp spec fn is_alphanumeric(c: char) -> bool;

/// Calls `regex::Regex::new` on `pattern` and, where that compiles,
/// `Regex::replace_all` on `text` with the replacement `rep`.
///
/// The contract speaks of one pattern only, `[-\s]`, with the replacement
/// `_`, and says what the documentation of the crate gives for them: the
/// pattern compiles; it matches one character at a time, a hyphen or a
/// character with the Unicode property `White_Space`; and every match is
/// replaced by the replacement, which holds no `$` and so is put in as it
/// is. Of other patterns and replacements nothing is claimed.
#[verifier::external_body]
fn replace_all(pattern: &str, text: &str, rep: &str) -> (out: Option<String>)
    ensures
        pattern@ == SEPARATORS@ && rep@ == SEPARATOR_SUBSTITUTE@ ==> out.deep_view() == Some(
            with_underscores(text@),
        ),
{
    match regex::Regex::new(pattern) {
        Ok(re) => Some(re.replace_all(text, rep).into_owned()),
        Err(_) => None,
    }
}

/// Calls `char::is_alphanumeric`, std's test for a letter or a digit of any
/// script.
#[verifier::external_body]
fn alphanumeric(c: char) -> (yes: bool)
    ensures
        yes == is_alphanumeric(c),
{
    c.is_alphanumeric()
}

/// Whether `c` is an ASCII letter, an ASCII digit or the underscore.
pub open spec fn is_plain_name_char(c: char) -> bool {
    c == '_' || is_digit(c) || ('a' <= c && c <= 'z') || ('A' <= c && c <= 'Z')
}

/// Whether `c` may stand in a table name: an ASCII letter or digit, the
/// underscore, or a character outside ASCII that std counts as
/// alphanumeric. No other ASCII character is allowed.
pub open spec fn is_name_char(c: char) -> bool {
    is_plain_name_char(c) || (c as u32 >= 128 && is_alphanumeric(c))
}

/// Whether `s` may name a table: it is not empty and holds allowed
/// characters only.
pub open spec fn is_identifier(s: Seq<char>) -> bool {
    s.len() > 0 && forall|i: int| 0 <= i < s.len() ==> is_name_char(#[trigger] s[i])
}

/// The normalised form of a house name: an underscore stands in place of
/// each hyphen and each white space character.
pub open spec fn normalized_name(house: Seq<char>) -> Seq<char> {
    with_underscores(house)
}

/// The names of the two tables of one house.
#[derive(Clone, Debug, PartialEq, Eq)]
pub struct TableNames {
    /// The table of draws.
    pub draws: String,
    /// The table of groups.
    pub groups: String,
}

/// `TableNames` with its texts as sequences of characters.
pub struct TableNamesView {
    pub draws: Seq<char>,
    pub groups: Seq<char>,
}

impl View for TableNames {
    type V = TableNamesView;

    open spec fn view(&self) -> TableNamesView {
        TableNamesView { draws: self.draws@, groups: self.groups@ }
    }
}

/// The table names that go with a normalised house name, if it passes the
/// check of its characters.
pub open spec fn names_of_normalized(normalized: Seq<char>) -> Option<TableNamesView> {
    if is_identifier(normalized) {
        Some(TableNamesView { draws: normalized, groups: GROUP_PREFIX@ + normalized })
    } else {
        None
    }
}

/// The table names of a house, if its name gives any.
pub open spec fn table_names(house: Seq<char>) -> Option<TableNamesView> {
    names_of_normalized(normalized_name(house))
}

/// Whether `c` may stand in a table name.
pub fn name_char(c: char) -> (allowed: bool)
    ensures
        allowed == is_name_char(c),
{
    c == '_' || ('0' <= c && c <= '9') || ('a' <= c && c <= 'z') || ('A' <= c && c <= 'Z') || (c as u32
        >= 128 && alphanumeric(c))
}

/// Whether `name` may name a table.
pub fn check_identifier(name: &str) -> (allowed: bool)
    ensures
        allowed == is_identifier(name@),
{
    let chars = chars_of(name);
    if chars.len() == 0 {
        return false;
    }
    let mut i: usize = 0;
    while i < chars.len()
        invariant
            i <= chars.len(),
            chars@ == name@,
            forall|k: int| 0 <= k < i ==> is_name_char(#[trigger] chars@[k]),
        decreases chars.len() - i,
    {
        if !name_char(chars[i]) {
            return false;
        }
        i = i + 1;
    }
    true
}

/// A table name that passed the check, with `group_` in front, passes too.
pub proof fn lemma_group_name_is_identifier(name: Seq<char>)
    requires
        is_identifier(name),
    ensures
        is_identifier(GROUP_PREFIX@ + name),
        GROUP_PREFIX@ + name != name,
{
    reveal_strlit("group_");
    let full = GROUP_PREFIX@ + name;
    assert forall|i: int| 0 <= i < full.len() implies is_name_char(#[trigger] full[i]) by {
        if i >= 6 {
            assert(full[i] == name[i - 6]);
        }
    }
    assert(full.len() == name.len() + 6);
}

/// Normalising keeps the length of a name and leaves no separator in it;
/// a name without separators stays as it is, so normalising twice is
/// normalising once.
pub proof fn lemma_normalized_has_no_separator(house: Seq<char>)
    ensures
        normalized_name(house).len() == house.len(),
        forall|i: int| 0 <= i < house.len() ==> !is_separator(#[trigger] normalized_name(house)[i]),
        (forall|i: int| 0 <= i < house.len() ==> !is_separator(#[trigger] house[i]))
            ==> normalized_name(house) == house,
        normalized_name(normalized_name(house)) == normalized_name(house),
{
    let once = normalized_name(house);
    assert forall|i: int| 0 <= i < house.len() implies !is_separator(#[trigger] once[i]) by {}
    if forall|i: int| 0 <= i < house.len() ==> !is_separator(#[trigger] house[i]) {
        assert(once =~= house);
    }
    assert(normalized_name(once) =~= once);
}

/// A house gets table names exactly if its name is not empty and each of
/// its characters is a separator or allowed in a table name.
pub proof fn lemma_table_names_exist(house: Seq<char>)
    ensures
        table_names(house) is Some <==> house.len() > 0 && forall|i: int|
            0 <= i < house.len() ==> is_separator(#[trigger] house[i]) || is_name_char(house[i]),
{
    let name = normalized_name(house);
    if house.len() > 0 && forall|i: int|
        0 <= i < house.len() ==> is_separator(#[trigger] house[i]) || is_name_char(house[i]) {
        assert forall|i: int| 0 <= i < name.len() implies is_name_char(#[trigger] name[i]) by {
            if !is_separator(house[i]) {
                assert(is_name_char(house[i]));
            }
        }
    }
    if table_names(house) is Some {
        assert forall|i: int| 0 <= i < house.len() implies is_separator(#[trigger] house[i])
            || is_name_char(house[i]) by {
            assert(is_name_char(name[i]));
        }
    }
}

/// A name that passed the check holds none of the ASCII characters that end
/// or break a quoted name in a statement: no quote of either kind, no
/// semicolon, no white space, no control character; in fact no ASCII
/// character at all but letters, digits and the underscore.
pub proof fn lemma_identifier_is_plain(name: Seq<char>, i: int)
    requires
        is_identifier(name),
        0 <= i < name.len(),
    ensures
        name[i] as u32 >= 128 || is_plain_name_char(name[i]),
        name[i] != '"',
        name[i] != '\'',
        name[i] != ';',
        name[i] != ' ',
        name[i] != '-',
        name[i] as u32 >= 32,
{
    assert(is_name_char(name[i]));
}

/// The normalised form of a house name: an underscore stands in place of
/// each hyphen and each white space character.
pub fn format_database_name(house_name: &str) -> (name: String)
    ensures
        name@ == normalized_name(house_name@),
{
    match replace_all(SEPARATORS, house_name, SEPARATOR_SUBSTITUTE) {
        Some(name) => name,
        None => house_name.to_owned(),
    }
}

/// The table names that go with the normalised house name `normalized`.
/// Fails with `InvalidHouseName` where it is empty or holds a character that
/// is not allowed.
pub fn names_for(normalized: String) -> (names: Result<TableNames, Error>)
    ensures
        match names_of_normalized(normalized@) {
            Some(n) => names is Ok && names->Ok_0@ == n,
            None => names is Err && names->Err_0@ == Error::Validation(
                ValidationError::InvalidHouseName,
            )@,
        },
{
    if check_identifier(normalized.as_str()) {
        let mut groups: Vec<char> = Vec::new();
        crate::text::push_str_chars(&mut groups, GROUP_PREFIX);
        crate::text::push_str_chars(&mut groups, normalized.as_str());
        let groups = crate::text::string_of(&groups);
        Ok(TableNames { draws: normalized, groups })
    } else {
        Err(Error::Validation(ValidationError::InvalidHouseName))
    }
}

/// The names of the two tables of the house `house_name`. Fails with
/// `InvalidHouseName` where the normalised name does not pass the check of
/// its characters.
pub fn resolve(house_name: &str) -> (names: Result<TableNames, Error>)
    ensures
        match table_names(house_name@) {
            Some(n) => names is Ok && names->Ok_0@ == n,
            None => names is Err && names->Err_0@ == Error::Validation(
                ValidationError::InvalidHouseName,
            )@,
        },
{
    names_for(format_database_name(house_name))
}

} // verus!
