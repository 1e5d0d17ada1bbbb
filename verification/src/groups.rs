//! The table of groups of one house: the numbers that a user follows for an
//! hour and a place, at most one group for each hour and place.

use vstd::prelude::*;
use crate::error::{
    DuplicateGroupError, Error, ErrorView, NotFoundError, StorageError, ValidationError,
};
use crate::model::{BichoGroup, GroupView};
use crate::parse::{
    is_whitespace, lemma_split_append_field, lemma_split_extend, parse_u32_range, split,
    split_ranges, trim, trim_end, trim_range, trim_start, u32_of_text,
};
use crate::text::{
    chars_of, decimal_digits, is_digit, lemma_decimal_round_trip, push_decimal, string_of,
};

verus! {

// ---------------------------------------------------------------------
// The numbers of a group as stored text
// ---------------------------------------------------------------------

/// The text that stores `numbers`: their decimal writings in order, with a
/// comma and a space between one and the next.
pub open spec fn encode_numbers(numbers: Seq<u32>) -> Seq<char>
    decreases numbers.len(),
{
    if numbers.len() == 0 {
        Seq::<char>::empty()
    } else if numbers.len() == 1 {
        decimal_digits(numbers[0] as nat)
    } else {
        encode_numbers(numbers.drop_last()) + seq![',', ' '] + decimal_digits(
            numbers.last() as nat,
        )
    }
}

/// The number that one field of the stored text writes, white space around
/// it left out.
pub open spec fn number_of_token(token: Seq<char>) -> Option<u32> {
    u32_of_text(trim(token))
}

/// The numbers that `tokens` write, in order, without the tokens that write
/// none.
pub open spec fn numbers_of_tokens(tokens: Seq<Seq<char>>) -> Seq<u32>
    decreases tokens.len(),
{
    if tokens.len() == 0 {
        Seq::<u32>::empty()
    } else {
        let head = numbers_of_tokens(tokens.drop_last());
        match number_of_token(tokens.last()) {
            Some(n) => head.push(n),
            None => head,
        }
    }
}

/// The numbers that the stored text `text` holds: its fields between commas
/// that write a number, in order.
pub open spec fn decode_numbers(text: Seq<char>) -> Seq<u32> {
    numbers_of_tokens(split(text, ','))
}

/// The text that stores `numbers`.
pub fn encode(numbers: &Vec<u32>) -> (text: String)
    ensures
        text@ == encode_numbers(numbers@),
{
    let mut out: Vec<char> = Vec::new();
    let mut i: usize = 0;
    assert(numbers@.take(0) =~= Seq::<u32>::empty());
    while i < numbers.len()
        invariant
            i <= numbers.len(),
            out@ == encode_numbers(numbers@.take(i as int)),
        decreases numbers.len() - i,
    {
        let ghost before = out@;
        proof {
            assert(numbers@.take(i + 1).drop_last() =~= numbers@.take(i as int));
            assert(numbers@.take(i + 1).last() == numbers@[i as int]);
        }
        if i > 0 {
            out.push(',');
            out.push(' ');
            assert(out@ =~= before + seq![',', ' ']);
        } else {
            assert(before =~= Seq::<char>::empty());
            assert(numbers@.take(1)[0] == numbers@[0]);
        }
        push_decimal(&mut out, numbers[i] as u64);
        i = i + 1;
    }
    assert(numbers@.take(numbers@.len() as int) =~= numbers@);
    string_of(&out)
}

/// The numbers that the stored text `text` holds.
pub fn decode(text: &str) -> (numbers: Vec<u32>)
    ensures
        numbers@ == decode_numbers(text@),
{
    let chars = chars_of(text);
    let fields = split_ranges(&chars, ',');
    let ghost tokens = split(chars@, ',');
    let mut out: Vec<u32> = Vec::new();
    let mut i: usize = 0;
    assert(tokens.take(0) =~= Seq::<Seq<char>>::empty());
    while i < fields.len()
        invariant
            i <= fields.len(),
            tokens == split(chars@, ','),
            fields@.len() == tokens.len(),
            forall|k: int|
                0 <= k < fields@.len() ==> (#[trigger] fields@[k]).0 <= fields@[k].1
                    <= chars@.len() && chars@.subrange(fields@[k].0 as int, fields@[k].1 as int)
                    == tokens[k],
            out@ == numbers_of_tokens(tokens.take(i as int)),
        decreases fields.len() - i,
    {
        let (from, to) = fields[i];
        proof {
            assert(fields@[i as int].0 == from && fields@[i as int].1 == to);
            assert(tokens.take(i + 1).drop_last() =~= tokens.take(i as int));
            assert(tokens.take(i + 1).last() == tokens[i as int]);
        }
        let (a, b) = trim_range(&chars, from, to);
        match parse_u32_range(&chars, a, b) {
            Some(n) => {
                out.push(n);
            },
            None => {},
        }
        i = i + 1;
    }
    assert(tokens.take(tokens.len() as int) =~= tokens);
    out
}

/// A decimal writing, with or without a space in front, is a field that
/// writes its number.
pub proof fn lemma_number_token(n: u32)
    ensures
        number_of_token(decimal_digits(n as nat)) == Some(n),
        number_of_token(seq![' '] + decimal_digits(n as nat)) == Some(n),
        forall|i: int|
            0 <= i < decimal_digits(n as nat).len() ==> decimal_digits(n as nat)[i] != ',',
        forall|i: int|
            0 <= i < (seq![' '] + decimal_digits(n as nat)).len() ==> (seq![' '] + decimal_digits(
                n as nat,
            ))[i] != ',',
{
    let d = decimal_digits(n as nat);
    lemma_decimal_round_trip(n as nat);
    assert(is_digit(d[0]));
    assert(is_digit(d.last()));
    assert(!is_whitespace(d[0]));
    assert(!is_whitespace(d.last()));
    assert(trim_start(d) == d);
    assert(trim_end(d) == d);
    let s = seq![' '] + d;
    assert(is_whitespace(s[0]));
    assert(s.drop_first() == d);
    assert(trim_start(s) == d);
    assert forall|i: int| 0 <= i < d.len() implies d[i] != ',' by {
        assert(is_digit(d[i]));
    }
    assert forall|i: int| 0 <= i < s.len() implies s[i] != ',' by {
        if i > 0 {
            assert(s[i] == d[i - 1]);
            assert(is_digit(d[i - 1]));
        }
    }
}

/// The fields of the text that stores one number or more.
pub open spec fn tokens_of(numbers: Seq<u32>) -> Seq<Seq<char>> {
    Seq::new(
        numbers.len(),
        |i: int|
            if i == 0 {
                decimal_digits(numbers[0] as nat)
            } else {
                seq![' '] + decimal_digits(numbers[i] as nat)
            },
    )
}

/// The stored text of one number or more splits at its commas into one
/// field for each number.
pub proof fn lemma_split_encoded(numbers: Seq<u32>)
    requires
        numbers.len() >= 1,
    ensures
        split(encode_numbers(numbers), ',') == tokens_of(numbers),
    decreases numbers.len(),
{
    let last = numbers.last();
    lemma_number_token(last);
    if numbers.len() == 1 {
        let d = decimal_digits(numbers[0] as nat);
        lemma_split_extend(Seq::<char>::empty(), d, ',');
        assert(Seq::<char>::empty() + d == d);
        assert(split(Seq::<char>::empty(), ',') == seq![Seq::<char>::empty()]);
        assert(split(d, ',') =~= tokens_of(numbers));
    } else {
        let front = numbers.drop_last();
        lemma_split_encoded(front);
        let field = seq![' '] + decimal_digits(last as nat);
        lemma_split_append_field(encode_numbers(front), field, ',');
        assert(encode_numbers(numbers) =~= encode_numbers(front).push(',') + field);
        assert(tokens_of(front).push(field) =~= tokens_of(numbers));
    }
}

/// The fields of a stored text write the numbers that were stored.
pub proof fn lemma_numbers_of_tokens_of(numbers: Seq<u32>)
    ensures
        numbers_of_tokens(tokens_of(numbers)) == numbers,
    decreases numbers.len(),
{
    if numbers.len() == 0 {
        assert(tokens_of(numbers) =~= Seq::<Seq<char>>::empty());
        assert(numbers =~= Seq::<u32>::empty());
    } else {
        let front = numbers.drop_last();
        lemma_numbers_of_tokens_of(front);
        lemma_number_token(numbers.last());
        assert(tokens_of(numbers).drop_last() =~= tokens_of(front));
        assert(numbers_of_tokens(tokens_of(numbers)) =~= front.push(numbers.last()));
        assert(front.push(numbers.last()) =~= numbers);
    }
}

/// Numbers that are stored as text and read back are the same numbers in
/// the same order.
pub proof fn lemma_decode_encode(numbers: Seq<u32>)
    ensures
        decode_numbers(encode_numbers(numbers)) == numbers,
{
    if numbers.len() == 0 {
        let tokens = split(Seq::<char>::empty(), ',');
        assert(tokens == seq![Seq::<char>::empty()]);
        assert(tokens.drop_last() =~= Seq::<Seq<char>>::empty());
        assert(trim_start(Seq::<char>::empty()) == Seq::<char>::empty());
        assert(trim_end(Seq::<char>::empty()) == Seq::<char>::empty());
        assert(number_of_token(tokens.last()) is None);
        assert(numbers_of_tokens(tokens.drop_last()) =~= Seq::<u32>::empty());
        assert(numbers_of_tokens(tokens) =~= numbers);
    } else {
        lemma_split_encoded(numbers);
        lemma_numbers_of_tokens_of(numbers);
    }
}

// ---------------------------------------------------------------------
// The table
// ---------------------------------------------------------------------

/// One stored group.
#[derive(Debug, PartialEq, Eq)]
pub struct GroupRecord {
    pub id: u32,
    pub hour: String,
    pub place: u32,
    /// The numbers of the group, as stored text.
    pub group: String,
    pub updated_at: i64,
}

/// A `GroupRecord` with its texts as sequences of characters.
pub struct GroupRow {
    pub id: u32,
    pub hour: Seq<char>,
    pub place: u32,
    pub group: Seq<char>,
    pub updated_at: i64,
}

impl View for GroupRecord {
    type V = GroupRow;

    open spec fn view(&self) -> GroupRow {
        GroupRow {
            id: self.id,
            hour: self.hour@,
            place: self.place,
            group: self.group@,
            updated_at: self.updated_at,
        }
    }
}

impl DeepView for GroupRecord {
    type V = GroupRow;

    open spec fn deep_view(&self) -> GroupRow {
        self@
    }
}

impl Clone for GroupRecord {
    fn clone(&self) -> (copy: Self)
        ensures
            copy == *self,
    {
        GroupRecord {
            id: self.id,
            hour: self.hour.clone(),
            place: self.place,
            group: self.group.clone(),
            updated_at: self.updated_at,
        }
    }
}

/// Whether `rows` holds a group for this hour and place.
pub open spec fn slot_taken(rows: Seq<GroupRow>, hour: Seq<char>, place: u32) -> bool {
    exists|i: int| 0 <= i < rows.len() && (#[trigger] rows[i]).hour == hour && rows[i].place == place
}

/// Whether `rows` holds a group for this hour and place under another id
/// than `id`.
pub open spec fn slot_taken_by_other(rows: Seq<GroupRow>, hour: Seq<char>, place: u32, id: u32) -> bool {
    exists|i: int|
        0 <= i < rows.len() && (#[trigger] rows[i]).hour == hour && rows[i].place == place
            && rows[i].id != id
}

/// Whether `rows` holds a group with this id.
pub open spec fn has_id(rows: Seq<GroupRow>, id: u32) -> bool {
    exists|i: int| 0 <= i < rows.len() && (#[trigger] rows[i]).id == id
}

/// Where in `rows` the group with this id stands.
pub open spec fn index_of_id(rows: Seq<GroupRow>, id: u32) -> int {
    choose|i: int| 0 <= i < rows.len() && (#[trigger] rows[i]).id == id
}

/// Whether no two rows are groups for the same hour and place.
pub open spec fn unique_slots(rows: Seq<GroupRow>) -> bool {
    forall|i: int, j: int|
        0 <= i < j < rows.len() ==> !((#[trigger] rows[i]).hour == (#[trigger] rows[j]).hour
            && rows[i].place == rows[j].place)
}

/// Whether each row has a larger id than the rows before it.
pub open spec fn increasing_ids(rows: Seq<GroupRow>) -> bool {
    forall|i: int, j: int| 0 <= i < j < rows.len() ==> (#[trigger] rows[i]).id < (#[trigger] rows[j]).id
}

/// The id that the next new group gets: 1 in an empty table, else one more
/// than the largest id there.
pub open spec fn next_id(rows: Seq<GroupRow>) -> int {
    if rows.len() == 0 {
        1
    } else {
        rows.last().id + 1
    }
}

/// The row that stores the group `g` under `id` from the time `now`.
pub open spec fn row_for(g: GroupView, id: u32, now: i64) -> GroupRow {
    GroupRow { id, hour: g.hour, place: g.place, group: encode_numbers(g.group), updated_at: now }
}

/// The group that the row `r` stores.
pub open spec fn group_of_row(r: GroupRow) -> GroupView {
    GroupView { id: Some(r.id), hour: r.hour, place: r.place, group: decode_numbers(r.group) }
}

/// The groups that `rows` store, in the order of the rows.
pub open spec fn listed(rows: Seq<GroupRow>) -> Seq<GroupView> {
    Seq::new(rows.len(), |i: int| group_of_row(rows[i]))
}

/// What adding the group `g` at `now` makes of `rows`, or why it fails: a
/// group is there for the hour and place, or no id is left.
pub open spec fn added(rows: Seq<GroupRow>, g: GroupView, now: i64) -> Result<
    Seq<GroupRow>,
    ErrorView,
> {
    if slot_taken(rows, g.hour, g.place) {
        Err(ErrorView::DuplicateGroup { hour: g.hour, place: g.place })
    } else if next_id(rows) > u32::MAX {
        Err(ErrorView::Storage(StorageError::IdsExhausted))
    } else {
        Ok(rows.push(row_for(g, next_id(rows) as u32, now)))
    }
}

/// What editing the group `g` at `now` makes of `rows`, or why it fails: `g`
/// has no id, or another group is there for its hour and place. Where no
/// group has the id of `g`, nothing changes.
pub open spec fn edited(rows: Seq<GroupRow>, g: GroupView, now: i64) -> Result<
    Seq<GroupRow>,
    ErrorView,
> {
    match g.id {
        None => Err(ErrorView::Validation(ValidationError::MissingId)),
        Some(id) => if !has_id(rows, id) {
            Ok(rows)
        } else if slot_taken_by_other(rows, g.hour, g.place, id) {
            Err(ErrorView::DuplicateGroup { hour: g.hour, place: g.place })
        } else {
            Ok(rows.update(index_of_id(rows, id), row_for(g, id, now)))
        },
    }
}

/// What deleting the group with the id `id` makes of `rows`, or why it
/// fails: no group has the id.
pub open spec fn deleted(rows: Seq<GroupRow>, id: u32) -> Result<Seq<GroupRow>, ErrorView> {
    if has_id(rows, id) {
        Ok(rows.remove(index_of_id(rows, id)))
    } else {
        Err(ErrorView::NotFound { id })
    }
}

/// What an operation on the table answers: nothing on success, the failure
/// otherwise.
pub open spec fn answers(outcome: Result<(), Error>, expected: Result<Seq<GroupRow>, ErrorView>) -> bool {
    match expected {
        Ok(_) => outcome is Ok,
        Err(e) => outcome is Err && outcome->Err_0@ == e,
    }
}

/// The rows after an operation: the new ones on success, the old ones on
/// failure.
pub open spec fn rows_after(before: Seq<GroupRow>, expected: Result<Seq<GroupRow>, ErrorView>) -> Seq<
    GroupRow,
> {
    match expected {
        Ok(rows) => rows,
        Err(_) => before,
    }
}

/// The table of groups of one house.
pub struct GroupTable {
    rows: Vec<GroupRecord>,
}

impl View for GroupTable {
    type V = Seq<GroupRow>;

    closed spec fn view(&self) -> Seq<GroupRow> {
        self.rows.deep_view()
    }
}

impl GroupTable {
    /// What holds of every table: ids grow from row to row, and no two rows
    /// are groups for the same hour and place.
    pub open spec fn wf(&self) -> bool {
        increasing_ids(self@) && unique_slots(self@)
    }

    /// A table without rows.
    pub fn new() -> (table: GroupTable)
        ensures
            table.wf(),
            table@ == Seq::<GroupRow>::empty(),
    {
        let table = GroupTable { rows: Vec::new() };
        assert(table@ =~= Seq::<GroupRow>::empty());
        table
    }

    /// The number of rows.
    pub fn len(&self) -> (n: usize)
        ensures
            n == self@.len(),
    {
        self.rows.len()
    }

    /// The rows, in the order in which they were added.
    pub fn rows(&self) -> (rows: &Vec<GroupRecord>)
        ensures
            rows.deep_view() == self@,
    {
        &self.rows
    }

    /// Where the group for this hour and place stands, if there is one.
    fn find_slot(&self, hour: &String, place: u32) -> (found: Option<usize>)
        ensures
            match found {
                Some(i) => i < self@.len() && self@[i as int].hour == hour@ && self@[i as int].place
                    == place,
                None => !slot_taken(self@, hour@, place),
            },
    {
        let mut i: usize = 0;
        while i < self.rows.len()
            invariant
                i <= self.rows.len(),
                forall|k: int|
                    0 <= k < i ==> !((#[trigger] self@[k]).hour == hour@ && self@[k].place == place),
            decreases self.rows.len() - i,
        {
            if self.rows[i].place == place && self.rows[i].hour == *hour {
                assert(self@[i as int] == self.rows@[i as int]@);
                return Some(i);
            }
            assert(self@[i as int] == self.rows@[i as int]@);
            i = i + 1;
        }
        None
    }

    /// Where the group with this id stands, if there is one.
    fn find_id(&self, id: u32) -> (found: Option<usize>)
        requires
            self.wf(),
        ensures
            match found {
                Some(i) => has_id(self@, id) && i == index_of_id(self@, id) && i < self@.len()
                    && self@[i as int].id == id,
                None => !has_id(self@, id),
            },
    {
        let mut i: usize = 0;
        while i < self.rows.len()
            invariant
                i <= self.rows.len(),
                self.wf(),
                forall|k: int| 0 <= k < i ==> (#[trigger] self@[k]).id != id,
            decreases self.rows.len() - i,
        {
            assert(self@[i as int] == self.rows@[i as int]@);
            if self.rows[i].id == id {
                proof {
                    let k = index_of_id(self@, id);
                    assert(0 <= k < self@.len() && self@[k].id == id);
                    if k < i {
                        assert(self@[k].id < self@[i as int].id);
                    }
                    if i < k {
                        assert(self@[i as int].id < self@[k].id);
                    }
                }
                return Some(i);
            }
            i = i + 1;
        }
        None
    }

    /// Takes in a row read back from storage. It is put at the end if its id
    /// is larger than every id in the table and no group is there for its
    /// hour and place; otherwise the table stays as it is and `false` comes
    /// back.
    pub fn load(&mut self, record: GroupRecord) -> (taken: bool)
        requires
            old(self).wf(),
        ensures
            final(self).wf(),
            taken == ((old(self)@.len() == 0 || old(self)@.last().id < record.id) && !slot_taken(
                old(self)@,
                record.hour@,
                record.place,
            )),
            taken ==> final(self)@ == old(self)@.push(record@),
            !taken ==> final(self)@ == old(self)@,
    {
        let n = self.rows.len();
        if n > 0 {
            assert(self@[n - 1] == self.rows@[n - 1]@);
            if self.rows[n - 1].id >= record.id {
                return false;
            }
        }
        if self.find_slot(&record.hour, record.place).is_some() {
            return false;
        }
        self.append(record);
        true
    }

    /// Puts `record` at the end.
    fn append(&mut self, record: GroupRecord)
        requires
            old(self).wf(),
            old(self)@.len() > 0 ==> old(self)@.last().id < record.id,
            !slot_taken(old(self)@, record.hour@, record.place),
        ensures
            final(self).wf(),
            final(self)@ == old(self)@.push(record@),
    {
        let ghost before = self@;
        let ghost row = record@;
        self.rows.push(record);
        proof {
            assert(self@ =~= before.push(row));
            assert forall|i: int, j: int| 0 <= i < j < self@.len() implies (#[trigger] self@[i]).id < (
            #[trigger] self@[j]).id by {
                assert(self@[i] == before[i]);
                if j < before.len() {
                    assert(self@[j] == before[j]);
                } else if i < before.len() - 1 {
                    assert(before[i].id < before[before.len() - 1].id);
                }
            }
            assert forall|i: int, j: int| 0 <= i < j < self@.len() implies !((
            #[trigger] self@[i]).hour == (#[trigger] self@[j]).hour && self@[i].place
                == self@[j].place) by {
                assert(self@[i] == before[i]);
                if j < before.len() {
                    assert(self@[j] == before[j]);
                }
            }
        }
    }

    /// The groups of the table, in the order in which they were added, each
    /// with its id and with the numbers that its stored text holds.
    pub fn list(&self) -> (groups: Vec<BichoGroup>)
        ensures
            groups.deep_view() == listed(self@),
    {
        let mut out: Vec<BichoGroup> = Vec::new();
        let mut i: usize = 0;
        while i < self.rows.len()
            invariant
                i <= self.rows.len(),
                out@.len() == i,
                forall|k: int| 0 <= k < i ==> (#[trigger] out@[k])@ == group_of_row(self@[k]),
            decreases self.rows.len() - i,
        {
            let row = &self.rows[i];
            assert(self@[i as int] == row@);
            out.push(
                BichoGroup {
                    id: Some(row.id),
                    hour: row.hour.clone(),
                    place: row.place,
                    group: decode(row.group.as_str()),
                },
            );
            i = i + 1;
        }
        assert(out.deep_view() =~= listed(self@));
        out
    }

    /// Adds the group `data` under a new id; an id that `data` carries is
    /// not looked at. Fails with `DuplicateGroup` where a group is there for
    /// its hour and place, and with `IdsExhausted` where the largest id is
    /// taken; the table is then unchanged.
    pub fn add(&mut self, data: &BichoGroup, now: i64) -> (outcome: Result<(), Error>)
        requires
            old(self).wf(),
        ensures
            final(self).wf(),
            answers(outcome, added(old(self)@, data@, now)),
            final(self)@ == rows_after(old(self)@, added(old(self)@, data@, now)),
    {
        if self.find_slot(&data.hour, data.place).is_some() {
            return Err(
                Error::DuplicateGroup(
                    DuplicateGroupError { hour: data.hour.clone(), place: data.place },
                ),
            );
        }
        let n = self.rows.len();
        let id: u32 = if n == 0 {
            1
        } else {
            assert(self@[n - 1] == self.rows@[n - 1]@);
            let top = self.rows[n - 1].id;
            if top == u32::MAX {
                return Err(Error::Storage(StorageError::IdsExhausted));
            }
            top + 1
        };
        self.append(
            GroupRecord {
                id,
                hour: data.hour.clone(),
                place: data.place,
                group: encode(&data.group),
                updated_at: now,
            },
        );
        Ok(())
    }

    /// Gives the group with the id of `data` the hour, place and numbers of
    /// `data` and the time `now`. Fails with `MissingId` where `data` has no
    /// id, and with `DuplicateGroup` where another group is there for the
    /// hour and place; the table is then unchanged. Where no group has the
    /// id, nothing changes and nothing fails.
    pub fn edit(&mut self, data: &BichoGroup, now: i64) -> (outcome: Result<(), Error>)
        requires
            old(self).wf(),
        ensures
            final(self).wf(),
            answers(outcome, edited(old(self)@, data@, now)),
            final(self)@ == rows_after(old(self)@, edited(old(self)@, data@, now)),
    {
        let id = match data.id {
            Some(id) => id,
            None => {
                return Err(Error::Validation(ValidationError::MissingId));
            },
        };
        let at = match self.find_id(id) {
            Some(at) => at,
            None => {
                return Ok(());
            },
        };
        let ghost before = self@;
        match self.find_slot(&data.hour, data.place) {
            Some(k) => {
                if k != at {
                    proof {
                        if k < at {
                            assert(before[k as int].id < before[at as int].id);
                        } else {
                            assert(before[at as int].id < before[k as int].id);
                        }
                        assert(slot_taken_by_other(before, data.hour@, data.place, id));
                    }
                    return Err(
                        Error::DuplicateGroup(
                            DuplicateGroupError { hour: data.hour.clone(), place: data.place },
                        ),
                    );
                }
                proof {
                    assert forall|m: int|
                        0 <= m < before.len() && (#[trigger] before[m]).hour == data.hour@
                            && before[m].place == data.place implies before[m].id == id by {
                        if m < k {
                            assert(!(before[m].hour == before[k as int].hour && before[m].place
                                == before[k as int].place));
                        }
                        if k < m {
                            assert(!(before[k as int].hour == before[m].hour
                                && before[k as int].place == before[m].place));
                        }
                    }
                }
            },
            None => {},
        }
        assert(!slot_taken_by_other(before, data.hour@, data.place, id));
        let record = GroupRecord {
            id,
            hour: data.hour.clone(),
            place: data.place,
            group: encode(&data.group),
            updated_at: now,
        };
        let ghost row = record@;
        self.rows[at] = record;
        proof {
            assert(self@ =~= before.update(at as int, row));
            assert forall|i: int, j: int| 0 <= i < j < self@.len() implies (#[trigger] self@[i]).id < (
            #[trigger] self@[j]).id by {
                assert(before[i].id < before[j].id);
            }
            assert forall|i: int, j: int| 0 <= i < j < self@.len() implies !((
            #[trigger] self@[i]).hour == (#[trigger] self@[j]).hour && self@[i].place
                == self@[j].place) by {
                assert(before[i].id < before[j].id);
                if i != at && j != at {
                    assert(!(before[i].hour == before[j].hour && before[i].place
                        == before[j].place));
                }
            }
        }
        Ok(())
    }

    /// Takes away the group with the id `id`, and no other. Fails with
    /// `NotFound`, the table unchanged, where no group has the id.
    pub fn delete(&mut self, id: u32) -> (outcome: Result<(), Error>)
        requires
            old(self).wf(),
        ensures
            final(self).wf(),
            answers(outcome, deleted(old(self)@, id)),
            final(self)@ == rows_after(old(self)@, deleted(old(self)@, id)),
    {
        let at = match self.find_id(id) {
            Some(at) => at,
            None => {
                return Err(Error::NotFound(NotFoundError { id }));
            },
        };
        let ghost before = self@;
        let gone = self.rows.remove(at);
        proof {
            assert(self@ =~= before.remove(at as int));
            assert forall|i: int, j: int| 0 <= i < j < self@.len() implies (#[trigger] self@[i]).id < (
            #[trigger] self@[j]).id by {
                let a = if i < at { i } else { i + 1 };
                let b = if j < at { j } else { j + 1 };
                assert(before[a].id < before[b].id);
            }
            assert forall|i: int, j: int| 0 <= i < j < self@.len() implies !((
            #[trigger] self@[i]).hour == (#[trigger] self@[j]).hour && self@[i].place
                == self@[j].place) by {
                let a = if i < at { i } else { i + 1 };
                let b = if j < at { j } else { j + 1 };
                assert(!(before[a].hour == before[b].hour && before[a].place == before[b].place));
            }
        }
        Ok(())
    }
}

// ---------------------------------------------------------------------
// What holds of every table of groups
// ---------------------------------------------------------------------

/// Once a group is added for an hour and place, adding another for the same
/// hour and place fails with `DuplicateGroup`, whatever its numbers and id,
/// and leaves the rows as they are.
pub proof fn lemma_add_twice_fails(
    rows: Seq<GroupRow>,
    first: GroupView,
    second: GroupView,
    now: i64,
    later: i64,
)
    requires
        added(rows, first, now) is Ok,
        second.hour == first.hour,
        second.place == first.place,
    ensures
        added(added(rows, first, now)->Ok_0, second, later) == Err::<Seq<GroupRow>, ErrorView>(
            ErrorView::DuplicateGroup { hour: first.hour, place: first.place },
        ),
        rows_after(added(rows, first, now)->Ok_0, added(added(rows, first, now)->Ok_0, second, later))
            == added(rows, first, now)->Ok_0,
{
    let once = added(rows, first, now)->Ok_0;
    assert(once[rows.len() as int].hour == first.hour && once[rows.len() as int].place
        == first.place);
}

/// Editing with a group that has no id fails with `MissingId` and leaves the
/// rows as they are.
pub proof fn lemma_edit_without_id_fails(rows: Seq<GroupRow>, g: GroupView, now: i64)
    requires
        g.id is None,
    ensures
        edited(rows, g, now) == Err::<Seq<GroupRow>, ErrorView>(
            ErrorView::Validation(ValidationError::MissingId),
        ),
        rows_after(rows, edited(rows, g, now)) == rows,
{
}

/// Deleting under an id that no group has fails with `NotFound` and leaves
/// the rows as they are.
pub proof fn lemma_delete_unknown_fails(rows: Seq<GroupRow>, id: u32)
    requires
        !has_id(rows, id),
    ensures
        deleted(rows, id) == Err::<Seq<GroupRow>, ErrorView>(ErrorView::NotFound { id }),
        rows_after(rows, deleted(rows, id)) == rows,
{
}

/// Deleting under an id that a group has takes away that one row: one row
/// fewer, no row with the id left, and every other row still there.
pub proof fn lemma_delete_takes_one(rows: Seq<GroupRow>, id: u32)
    requires
        increasing_ids(rows),
        has_id(rows, id),
    ensures
        deleted(rows, id) is Ok,
        deleted(rows, id)->Ok_0.len() == rows.len() - 1,
        !has_id(deleted(rows, id)->Ok_0, id),
        forall|i: int|
            0 <= i < rows.len() && (#[trigger] rows[i]).id != id ==> deleted(
                rows,
                id,
            )->Ok_0.contains(rows[i]),
{
    let at = index_of_id(rows, id);
    let rest = rows.remove(at);
    assert forall|k: int| 0 <= k < rest.len() implies (#[trigger] rest[k]).id != id by {
        let j = if k < at { k } else { k + 1 };
        assert(rest[k] == rows[j]);
        if j < at {
            assert(rows[j].id < rows[at].id);
        } else {
            assert(rows[at].id < rows[j].id);
        }
    }
    assert forall|i: int| 0 <= i < rows.len() && (#[trigger] rows[i]).id != id implies rest.contains(
        rows[i],
    ) by {
        let k = if i < at { i } else { i - 1 };
        assert(rest[k] == rows[i]);
    }
}

/// A group that was added is listed last, under its new id, with the hour,
/// the place and the very numbers that were handed in; the groups listed
/// before are the ones that were there.
pub proof fn lemma_added_is_listed(rows: Seq<GroupRow>, g: GroupView, now: i64)
    requires
        added(rows, g, now) is Ok,
    ensures
        listed(added(rows, g, now)->Ok_0) == listed(rows).push(
            GroupView {
                id: Some(next_id(rows) as u32),
                hour: g.hour,
                place: g.place,
                group: g.group,
            },
        ),
{
    lemma_decode_encode(g.group);
    let after = added(rows, g, now)->Ok_0;
    assert(listed(after) =~= listed(rows).push(
        GroupView { id: Some(next_id(rows) as u32), hour: g.hour, place: g.place, group: g.group },
    ));
}

/// Adding, editing and deleting keep the rows as the rows of a table of
/// groups must be.
pub proof fn lemma_changes_keep_rows_ok(rows: Seq<GroupRow>, g: GroupView, now: i64, id: u32)
    requires
        increasing_ids(rows),
        unique_slots(rows),
    ensures
        increasing_ids(rows_after(rows, added(rows, g, now))),
        unique_slots(rows_after(rows, added(rows, g, now))),
        increasing_ids(rows_after(rows, edited(rows, g, now))),
        unique_slots(rows_after(rows, edited(rows, g, now))),
        increasing_ids(rows_after(rows, deleted(rows, id))),
        unique_slots(rows_after(rows, deleted(rows, id))),
{
    match added(rows, g, now) {
        Ok(after) => {
            assert forall|i: int, j: int| 0 <= i < j < after.len() implies (#[trigger] after[i]).id < (
            #[trigger] after[j]).id by {
                if j == rows.len() && i < rows.len() - 1 {
                    assert(rows[i].id < rows[rows.len() - 1].id);
                }
            }
        },
        Err(_) => {},
    }
    match edited(rows, g, now) {
        Ok(after) => {
            if g.id is Some && has_id(rows, g.id->0) {
                let at = index_of_id(rows, g.id->0);
                assert forall|i: int, j: int| 0 <= i < j < after.len() implies (
                #[trigger] after[i]).id < (#[trigger] after[j]).id by {
                    assert(rows[i].id < rows[j].id);
                }
                assert forall|i: int, j: int| 0 <= i < j < after.len() implies !((
                #[trigger] after[i]).hour == (#[trigger] after[j]).hour && after[i].place
                    == after[j].place) by {
                    assert(rows[i].id < rows[j].id);
                    if i != at && j != at {
                        assert(!(rows[i].hour == rows[j].hour && rows[i].place == rows[j].place));
                    }
                }
            }
        },
        Err(_) => {},
    }
    match deleted(rows, id) {
        Ok(after) => {
            let at = index_of_id(rows, id);
            assert forall|i: int, j: int| 0 <= i < j < after.len() implies (#[trigger] after[i]).id < (
            #[trigger] after[j]).id by {
                let a = if i < at { i } else { i + 1 };
                let b = if j < at { j } else { j + 1 };
                assert(rows[a].id < rows[b].id);
            }
            assert forall|i: int, j: int| 0 <= i < j < after.len() implies !((
            #[trigger] after[i]).hour == (#[trigger] after[j]).hour && after[i].place
                == after[j].place) by {
                let a = if i < at { i } else { i + 1 };
                let b = if j < at { j } else { j + 1 };
                assert(!(rows[a].hour == rows[b].hour && rows[a].place == rows[b].place));
            }
        },
        Err(_) => {},
    }
}

} // verus!
