//! The table of draws of one house: rows that are only ever added, at most
//! one for each place, day and hour.

use vstd::prelude::*;
use crate::date::Date;
use crate::error::{Error, StorageError};
use crate::model::{DatabaseInfo, DrawRecord, DrawRow};

verus! {

/// The most rows that any table of draws holds: the largest number that the
/// count of rows, an `i32`, can report.
pub const MAX_ROWS: usize = 2147483647;

/// Whether `row` is the draw of this place, day and hour.
pub open spec fn has_key(row: DrawRow, place: i32, date: Date, hour: Seq<char>) -> bool {
    row.place == place && row.date == date && row.hour == hour
}

/// Whether two rows are draws of the same place, day and hour.
pub open spec fn same_key(a: DrawRow, b: DrawRow) -> bool {
    has_key(a, b.place, b.date, b.hour)
}

/// Whether `rows` holds a draw of this place, day and hour.
pub open spec fn key_taken(rows: Seq<DrawRow>, place: i32, date: Date, hour: Seq<char>) -> bool {
    exists|i: int| 0 <= i < rows.len() && has_key(#[trigger] rows[i], place, date, hour)
}

/// Whether no two rows are draws of the same place, day and hour.
pub open spec fn unique_keys(rows: Seq<DrawRow>) -> bool {
    forall|i: int, j: int|
        0 <= i < j < rows.len() ==> !same_key(#[trigger] rows[i], #[trigger] rows[j])
}

/// `rows` after an attempt to add `row`: unchanged where a draw of the same
/// place, day and hour is there already.
pub open spec fn insert_row(rows: Seq<DrawRow>, row: DrawRow) -> Seq<DrawRow> {
    if key_taken(rows, row.place, row.date, row.hour) {
        rows
    } else {
        rows.push(row)
    }
}

/// The latest ingestion time among `rows`, if there is any row.
pub open spec fn latest_update(rows: Seq<DrawRow>) -> Option<i64>
    decreases rows.len(),
{
    if rows.len() == 0 {
        None
    } else {
        match latest_update(rows.drop_last()) {
            Some(t) => if t < rows.last().updated_at {
                Some(rows.last().updated_at)
            } else {
                Some(t)
            },
            None => Some(rows.last().updated_at),
        }
    }
}

/// The values of `s` without repetitions, each where it first occurs.
pub open spec fn first_occurrences<A>(s: Seq<A>) -> Seq<A>
    decreases s.len(),
{
    if s.len() == 0 {
        Seq::<A>::empty()
    } else {
        let head = first_occurrences(s.drop_last());
        if head.contains(s.last()) {
            head
        } else {
            head.push(s.last())
        }
    }
}

/// The hours of `rows`, row by row.
pub open spec fn hours_of(rows: Seq<DrawRow>) -> Seq<Seq<char>> {
    Seq::new(rows.len(), |i: int| rows[i].hour)
}

/// The places of `rows`, row by row.
pub open spec fn places_of(rows: Seq<DrawRow>) -> Seq<i32> {
    Seq::new(rows.len(), |i: int| rows[i].place)
}

/// Whether some row has a negative place.
pub open spec fn has_negative_place(rows: Seq<DrawRow>) -> bool {
    exists|i: int| 0 <= i < rows.len() && (#[trigger] rows[i]).place < 0
}

/// The table of draws of one house.
pub struct DrawTable {
    rows: Vec<DrawRecord>,
    limit: usize,
}

impl View for DrawTable {
    type V = Seq<DrawRow>;

    closed spec fn view(&self) -> Seq<DrawRow> {
        self.rows.deep_view()
    }
}

impl DrawTable {
    /// The most rows that this table holds.
    pub closed spec fn capacity(&self) -> nat {
        self.limit as nat
    }

    /// What holds of every table: no two rows share place, day and hour, and
    /// there are no more rows than the table holds, which is at most
    /// `MAX_ROWS`.
    pub open spec fn wf(&self) -> bool {
        unique_keys(self@) && self@.len() <= self.capacity() <= MAX_ROWS
    }

    /// A table without rows that holds up to `MAX_ROWS` rows.
    pub fn new() -> (table: DrawTable)
        ensures
            table.wf(),
            table@ == Seq::<DrawRow>::empty(),
            table.capacity() == MAX_ROWS,
    {
        let table = DrawTable { rows: Vec::new(), limit: MAX_ROWS };
        assert(table@ =~= Seq::<DrawRow>::empty());
        table
    }

    /// A table without rows that holds up to `limit` rows, and never more
    /// than `MAX_ROWS`.
    pub fn with_limit(limit: usize) -> (table: DrawTable)
        ensures
            table.wf(),
            table@ == Seq::<DrawRow>::empty(),
            table.capacity() == if limit <= MAX_ROWS {
                limit
            } else {
                MAX_ROWS
            },
    {
        let limit = if limit <= MAX_ROWS {
            limit
        } else {
            MAX_ROWS
        };
        let table = DrawTable { rows: Vec::new(), limit };
        assert(table@ =~= Seq::<DrawRow>::empty());
        table
    }

    /// The most rows that this table holds.
    pub fn limit(&self) -> (limit: usize)
        ensures
            limit == self.capacity(),
    {
        self.limit
    }

    /// The number of rows.
    pub fn len(&self) -> (n: usize)
        ensures
            n == self@.len(),
    {
        self.rows.len()
    }

    /// The rows, oldest first.
    pub fn rows(&self) -> (rows: &Vec<DrawRecord>)
        ensures
            rows.deep_view() == self@,
    {
        &self.rows
    }

    /// A copy of the rows, oldest first.
    pub fn export(&self) -> (rows: Vec<DrawRecord>)
        ensures
            rows.deep_view() == self@,
    {
        let mut out: Vec<DrawRecord> = Vec::new();
        let mut i: usize = 0;
        while i < self.rows.len()
            invariant
                i <= self.rows.len(),
                out@.len() == i,
                forall|k: int| 0 <= k < i ==> out@[k] == self.rows@[k],
            decreases self.rows.len() - i,
        {
            out.push(self.rows[i].clone());
            i = i + 1;
        }
        assert(out.deep_view() =~= self@);
        out
    }

    /// Whether the table holds a draw of this place, day and hour.
    pub fn contains(&self, place: i32, date: Date, hour: &String) -> (found: bool)
        ensures
            found == key_taken(self@, place, date, hour@),
    {
        let mut i: usize = 0;
        while i < self.rows.len()
            invariant
                i <= self.rows.len(),
                forall|k: int| 0 <= k < i ==> !has_key(#[trigger] self@[k], place, date, hour@),
            decreases self.rows.len() - i,
        {
            let row = &self.rows[i];
            if row.place == place && row.date == date && row.hour == *hour {
                assert(has_key(self@[i as int], place, date, hour@));
                return true;
            }
            i = i + 1;
        }
        false
    }

    /// Adds `record` unless a draw of the same place, day and hour is there
    /// already, in which case the table stays as it is and `false` comes
    /// back. Fails with `TableFull`, the table unchanged, where the row is
    /// new and the table holds as many rows as it can.
    pub fn insert(&mut self, record: DrawRecord) -> (added: Result<bool, Error>)
        requires
            old(self).wf(),
        ensures
            final(self).wf(),
            final(self).capacity() == old(self).capacity(),
            match added {
                Ok(true) => !key_taken(old(self)@, record.place, record.date, record.hour@)
                    && old(self)@.len() < old(self).capacity() && final(self)@ == old(self)@.push(record@),
                Ok(false) => key_taken(old(self)@, record.place, record.date, record.hour@)
                    && final(self)@ == old(self)@,
                Err(e) => !key_taken(old(self)@, record.place, record.date, record.hour@)
                    && old(self)@.len() == old(self).capacity() && final(self)@ == old(self)@
                    && e@ == Error::Storage(StorageError::TableFull)@,
            },
            added is Ok ==> final(self)@ == insert_row(old(self)@, record@),
    {
        if self.contains(record.place, record.date, &record.hour) {
            return Ok(false);
        }
        if self.rows.len() >= self.limit {
            return Err(Error::Storage(StorageError::TableFull));
        }
        let ghost before = self@;
        let ghost row = record@;
        self.rows.push(record);
        proof {
            assert(self@ =~= before.push(row));
            assert forall|i: int, j: int| 0 <= i < j < self@.len() implies !same_key(
                #[trigger] self@[i],
                #[trigger] self@[j],
            ) by {
                if j == before.len() {
                    assert(self@[i] == before[i]);
                    assert(!has_key(before[i], row.place, row.date, row.hour));
                } else {
                    assert(self@[i] == before[i]);
                    assert(self@[j] == before[j]);
                }
            }
        }
        Ok(true)
    }

    /// Takes away every row from position `len` on.
    pub(crate) fn truncate(&mut self, len: usize)
        requires
            old(self).wf(),
            len <= old(self)@.len(),
        ensures
            final(self).wf(),
            final(self).capacity() == old(self).capacity(),
            final(self)@ == old(self)@.take(len as int),
    {
        let ghost before = self@;
        self.rows.truncate(len);
        proof {
            assert(self@ =~= before.take(len as int));
            assert forall|i: int, j: int| 0 <= i < j < self@.len() implies !same_key(
                #[trigger] self@[i],
                #[trigger] self@[j],
            ) by {
                assert(self@[i] == before[i]);
                assert(self@[j] == before[j]);
            }
        }
    }

    /// The number of rows and the time of the latest ingestion.
    pub fn info(&self) -> (info: DatabaseInfo)
        requires
            self.wf(),
        ensures
            info.total_rows == self@.len(),
            info.date == latest_update(self@),
    {
        let mut latest: Option<i64> = None;
        let mut i: usize = 0;
        assert(self@.take(0) =~= Seq::<DrawRow>::empty());
        while i < self.rows.len()
            invariant
                i <= self.rows.len(),
                latest == latest_update(self@.take(i as int)),
            decreases self.rows.len() - i,
        {
            let t = self.rows[i].updated_at;
            proof {
                assert(self@.take(i + 1).drop_last() =~= self@.take(i as int));
                assert(self@.take(i + 1).last() == self@[i as int]);
            }
            latest = match latest {
                Some(best) => if best < t {
                    Some(t)
                } else {
                    Some(best)
                },
                None => Some(t),
            };
            i = i + 1;
        }
        assert(self@.take(self@.len() as int) =~= self@);
        DatabaseInfo { total_rows: self.rows.len() as i32, date: latest }
    }

    /// The hours that occur among the draws, each once, in the order in which
    /// they first occur.
    pub fn hours(&self) -> (hours: Vec<String>)
        ensures
            hours.deep_view() == first_occurrences(hours_of(self@)),
    {
        let mut out: Vec<String> = Vec::new();
        let mut i: usize = 0;
        let ghost all = hours_of(self@);
        assert(all.take(0) =~= Seq::<Seq<char>>::empty());
        assert(out.deep_view() =~= Seq::<Seq<char>>::empty());
        while i < self.rows.len()
            invariant
                i <= self.rows.len(),
                all == hours_of(self@),
                out.deep_view() == first_occurrences(all.take(i as int)),
            decreases self.rows.len() - i,
        {
            let hour = &self.rows[i].hour;
            proof {
                assert(all.take(i + 1).drop_last() =~= all.take(i as int));
                assert(all.take(i + 1).last() == hour@);
            }
            let ghost seen = out.deep_view();
            let mut found = false;
            let mut k: usize = 0;
            while k < out.len()
                invariant
                    k <= out.len(),
                    seen == out.deep_view(),
                    !found ==> forall|m: int| 0 <= m < k ==> seen[m] != hour@,
                    found ==> seen.contains(hour@),
                decreases out.len() - k,
            {
                if out[k] == *hour {
                    assert(seen[k as int] == hour@);
                    found = true;
                }
                k = k + 1;
            }
            if !found {
                out.push(hour.clone());
                assert(out.deep_view() =~= seen.push(hour@));
            }
            i = i + 1;
        }
        assert(all.take(all.len() as int) =~= all);
        out
    }

    /// The places that occur among the draws, each once, in the order in
    /// which they first occur. Fails with `ValueOutOfRange` where a stored
    /// place is negative.
    pub fn places(&self) -> (places: Result<Vec<u32>, Error>)
        ensures
            match places {
                Ok(v) => !has_negative_place(self@) && v@.len() == first_occurrences(
                    places_of(self@),
                ).len() && forall|k: int|
                    0 <= k < v@.len() ==> (#[trigger] v@[k]) as int == first_occurrences(
                        places_of(self@),
                    )[k] as int,
                Err(e) => has_negative_place(self@) && e@ == Error::Storage(
                    StorageError::ValueOutOfRange,
                )@,
            },
    {
        let mut out: Vec<u32> = Vec::new();
        let mut i: usize = 0;
        let ghost all = places_of(self@);
        assert(all.take(0) =~= Seq::<i32>::empty());
        while i < self.rows.len()
            invariant
                i <= self.rows.len(),
                all == places_of(self@),
                forall|k: int| 0 <= k < i ==> (#[trigger] self@[k]).place >= 0,
                out@.len() == first_occurrences(all.take(i as int)).len(),
                forall|k: int|
                    0 <= k < out@.len() ==> (#[trigger] out@[k]) as int == first_occurrences(
                        all.take(i as int),
                    )[k] as int,
            decreases self.rows.len() - i,
        {
            let place = self.rows[i].place;
            if place < 0 {
                assert(self@[i as int].place < 0);
                return Err(Error::Storage(StorageError::ValueOutOfRange));
            }
            let value = place as u32;
            proof {
                assert(all.take(i + 1).drop_last() =~= all.take(i as int));
                assert(all.take(i + 1).last() == place);
            }
            let ghost seen = first_occurrences(all.take(i as int));
            let mut found = false;
            let mut k: usize = 0;
            while k < out.len()
                invariant
                    k <= out.len(),
                    out@.len() == seen.len(),
                    value as int == place as int,
                    forall|m: int| 0 <= m < out@.len() ==> (#[trigger] out@[m]) as int == seen[m] as int,
                    !found ==> forall|m: int| 0 <= m < k ==> seen[m] != place,
                    found ==> seen.contains(place),
                decreases out.len() - k,
            {
                if out[k] == value {
                    assert(seen[k as int] == place);
                    found = true;
                }
                k = k + 1;
            }
            if !found {
                out.push(value);
            }
            i = i + 1;
        }
        assert(all.take(all.len() as int) =~= all);
        Ok(out)
    }
}

/// The values without repetitions are the values: nothing occurs twice, and
/// a value is among them exactly if it occurs in the sequence.
pub proof fn lemma_first_occurrences<A>(s: Seq<A>)
    ensures
        first_occurrences(s).no_duplicates(),
        first_occurrences(s).len() <= s.len(),
        forall|a: A| first_occurrences(s).contains(a) <==> s.contains(a),
    decreases s.len(),
{
    if s.len() > 0 {
        let front = s.drop_last();
        let head = first_occurrences(front);
        let out = first_occurrences(s);
        lemma_first_occurrences(front);
        assert forall|a: A| out.contains(a) <==> s.contains(a) by {
            if out.contains(a) {
                let k = choose|k: int| 0 <= k < out.len() && out[k] == a;
                if k < head.len() {
                    assert(head[k] == a);
                    assert(head.contains(a));
                    assert(front.contains(a));
                    let m = choose|m: int| 0 <= m < front.len() && front[m] == a;
                    assert(s[m] == a);
                } else {
                    assert(s[s.len() - 1] == a);
                }
            }
            if s.contains(a) {
                let m = choose|m: int| 0 <= m < s.len() && s[m] == a;
                if m < front.len() {
                    assert(front[m] == a);
                    assert(front.contains(a));
                    assert(head.contains(a));
                    let k = choose|k: int| 0 <= k < head.len() && head[k] == a;
                    assert(out[k] == a);
                } else {
                    if head.contains(a) {
                        let k = choose|k: int| 0 <= k < head.len() && head[k] == a;
                        assert(out[k] == a);
                    } else {
                        assert(out[head.len() as int] == a);
                    }
                }
            }
        }
    }
}

} // verus!
