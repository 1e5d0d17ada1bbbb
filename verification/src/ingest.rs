//! Ingestion: the raw draws of a snapshot become rows of a table of draws,
//! all of them or none, with progress reported along the way.

use vstd::prelude::*;
use crate::draws::{has_key, insert_row, key_taken, same_key, unique_keys, DrawTable};
use crate::error::{Error, StorageError};
use crate::date::{normalized_date, Date};
use crate::model::{
    all_entries, place_of, row_of, text_or_missing, BichoData, DrawEntry, DrawRow,
};

verus! {

/// How an ingestion ended: the rows it added and the raw draws it left out.
#[derive(Clone, Copy, Debug, PartialEq, Eq, Structural)]
pub struct IngestResult {
    pub inserted: usize,
    pub skipped: usize,
}

/// `rows` after the raw draw `e` is ingested at `now`: unchanged where its
/// place cannot be read or a draw of its place, day and hour is there
/// already.
pub open spec fn ingest_entry(rows: Seq<DrawRow>, e: DrawEntry, now: i64) -> Seq<DrawRow> {
    match row_of(e, now) {
        Some(row) => insert_row(rows, row),
        None => rows,
    }
}

/// `rows` after the raw draws `entries` are ingested at `now`, one after the
/// other in the order given.
pub open spec fn ingest_entries(rows: Seq<DrawRow>, entries: Seq<DrawEntry>, now: i64) -> Seq<
    DrawRow,
>
    decreases entries.len(),
{
    if entries.len() == 0 {
        rows
    } else {
        ingest_entry(ingest_entries(rows, entries.drop_last(), now), entries.last(), now)
    }
}

/// The most that is reported after a raw draw: 100 is kept for the end of
/// the ingestion.
pub const ALMOST_DONE: u32 = 99;

/// What is reported once `done` raw draws out of `expected` are processed:
/// the share that is done, in whole per cent, but never more than 99, also
/// when more raw draws come than were expected; and 0 where nothing is
/// expected, so that there is no share to speak of.
pub open spec fn percent(done: nat, expected: nat) -> nat {
    if expected == 0 {
        0
    } else if done >= expected {
        ALMOST_DONE as nat
    } else {
        done * 100 / expected
    }
}

/// What is reported while `n` raw draws are processed, one value after each.
pub open spec fn progress_steps(n: nat, expected: nat) -> Seq<u32> {
    Seq::new(n, |k: int| percent((k + 1) as nat, expected) as u32)
}

/// What a whole ingestion of `n` raw draws reports: one value after each
/// draw, each below 100, and 100 once, at the end.
pub open spec fn progress_of(n: nat, expected: nat) -> Seq<u32> {
    progress_steps(n, expected).push(100)
}

/// What is reported once `done` raw draws out of `expected` are processed.
pub fn percent_done(done: u64, expected: u64) -> (p: u32)
    ensures
        p == percent(done as nat, expected as nat),
        p <= ALMOST_DONE,
{
    if expected == 0 {
        0
    } else if done >= expected {
        ALMOST_DONE
    } else {
        let scaled: u128 = (done as u128) * 100;
        let p: u128 = scaled / (expected as u128);
        proof {
            lemma_percent_below(done as nat, expected as nat);
        }
        p as u32
    }
}

/// Before the work is done the share stays under 100.
pub proof fn lemma_percent_below(done: nat, expected: nat)
    requires
        done < expected,
    ensures
        done * 100 / expected < 100,
{
    assert(done * 100 / expected < 100) by (nonlinear_arith)
        requires
            done < expected,
    ;
}

/// Ingestion only adds rows at the end: what was there stays, in place.
pub proof fn lemma_ingest_extends(rows: Seq<DrawRow>, entries: Seq<DrawEntry>, now: i64)
    ensures
        rows.len() <= ingest_entries(rows, entries, now).len(),
        ingest_entries(rows, entries, now).len() <= rows.len() + entries.len(),
        ingest_entries(rows, entries, now).take(rows.len() as int) == rows,
    decreases entries.len(),
{
    if entries.len() == 0 {
        assert(rows.take(rows.len() as int) == rows);
    } else {
        lemma_ingest_extends(rows, entries.drop_last(), now);
        let mid = ingest_entries(rows, entries.drop_last(), now);
        let end = ingest_entries(rows, entries, now);
        assert(end.take(rows.len() as int) == mid.take(rows.len() as int));
    }
}

/// Ingesting more raw draws never leaves fewer rows.
pub proof fn lemma_ingest_monotone(rows: Seq<DrawRow>, entries: Seq<DrawEntry>, now: i64, k: int)
    requires
        0 <= k <= entries.len(),
    ensures
        ingest_entries(rows, entries.take(k), now).len() <= ingest_entries(
            rows,
            entries,
            now,
        ).len(),
    decreases entries.len(),
{
    if k == entries.len() {
        assert(entries.take(k) == entries);
    } else {
        assert(entries.drop_last().take(k) == entries.take(k));
        lemma_ingest_monotone(rows, entries.drop_last(), now, k);
    }
}

/// Ingestion keeps the rows free of two draws of one place, day and hour.
pub proof fn lemma_ingest_unique(rows: Seq<DrawRow>, entries: Seq<DrawEntry>, now: i64)
    requires
        unique_keys(rows),
    ensures
        unique_keys(ingest_entries(rows, entries, now)),
    decreases entries.len(),
{
    if entries.len() > 0 {
        lemma_ingest_unique(rows, entries.drop_last(), now);
        let mid = ingest_entries(rows, entries.drop_last(), now);
        let end = ingest_entries(rows, entries, now);
        match row_of(entries.last(), now) {
            Some(row) => {
                if !key_taken(mid, row.place, row.date, row.hour) {
                    assert forall|i: int, j: int| 0 <= i < j < end.len() implies !same_key(
                        #[trigger] end[i],
                        #[trigger] end[j],
                    ) by {
                        if j == mid.len() {
                            assert(end[i] == mid[i]);
                            assert(!has_key(mid[i], row.place, row.date, row.hour));
                        } else {
                            assert(end[i] == mid[i]);
                            assert(end[j] == mid[j]);
                        }
                    }
                }
            },
            None => {},
        }
    }
}

/// The raw draws of the first groups of a snapshot are the first raw draws
/// of the whole snapshot.
pub proof fn lemma_all_entries_prefix(groups: Seq<Seq<DrawEntry>>, k: int)
    requires
        0 <= k <= groups.len(),
    ensures
        all_entries(groups.take(k)).len() <= all_entries(groups).len(),
        all_entries(groups.take(k)) == all_entries(groups).take(
            all_entries(groups.take(k)).len() as int,
        ),
    decreases groups.len(),
{
    if k == groups.len() {
        assert(groups.take(k) == groups);
        assert(all_entries(groups).take(all_entries(groups).len() as int) == all_entries(groups));
    } else {
        assert(groups.drop_last().take(k) == groups.take(k));
        lemma_all_entries_prefix(groups.drop_last(), k);
        let part = all_entries(groups.take(k));
        let most = all_entries(groups.drop_last());
        assert(part == (most + groups.last()).take(part.len() as int));
    }
}

/// What an ingestion of `entries` at `now` does to a table that held `before`
/// and holds up to `limit` rows, and to the values `reported` so far. On
/// success the table holds `before` with the raw draws ingested, the answer
/// counts the rows added and the raw draws left out, and one value for each
/// raw draw and a closing 100 are reported. It fails, with `TableFull`,
/// exactly where the rows would pass `limit`: the table is then as before,
/// and what is reported stops short of the raw draw whose row did not fit.
pub open spec fn ingested(
    before: Seq<DrawRow>,
    limit: nat,
    entries: Seq<DrawEntry>,
    expected: nat,
    now: i64,
    reported: Seq<u32>,
    outcome: Result<IngestResult, Error>,
    after: Seq<DrawRow>,
    reported_after: Seq<u32>,
) -> bool {
    match outcome {
        Ok(done) => {
            &&& after == ingest_entries(before, entries, now)
            &&& after.len() <= limit
            &&& done.inserted == after.len() - before.len()
            &&& done.inserted + done.skipped == entries.len()
            &&& reported_after == reported + progress_of(entries.len(), expected)
        },
        Err(e) => {
            &&& e@ == Error::Storage(StorageError::TableFull)@
            &&& ingest_entries(before, entries, now).len() > limit
            &&& after == before
            &&& exists|k: int|
                0 <= k < entries.len() && reported_after == reported + progress_steps(
                    k as nat,
                    expected,
                ) && ingest_entries(before, #[trigger] entries.take(k), now).len() == limit
                    && ingest_entries(before, entries.take(k + 1), now).len() > limit
        },
    }
}

/// The value to report once one more raw draw than `done` is processed.
fn percent_after(done: usize, expected: usize) -> (p: u32)
    ensures
        p == percent((done + 1) as nat, expected as nat),
        p <= ALMOST_DONE,
{
    if done >= expected {
        percent_done(expected as u64, expected as u64)
    } else {
        percent_done(done as u64 + 1, expected as u64)
    }
}

/// Ingests the raw draws of `data` into `table`, in the order given, as one
/// transaction. A draw whose place cannot be read, or whose place, day and
/// hour are in the table already, is left out and counted as skipped. After
/// each raw draw the share of `expected` that is processed, but never more
/// than 99, is added to `progress`, and 100 once at the end, after the last
/// raw draw: 100 is the last value added and no other value added is 100.
///
/// Fails with `TableFull` where the table cannot hold all the new rows; the
/// table is then as it was before, and `progress` holds the values reported
/// before the row that did not fit.
pub fn ingest(
    table: &mut DrawTable,
    data: &BichoData,
    expected: usize,
    now: i64,
    progress: &mut Vec<u32>,
) -> (outcome: Result<IngestResult, Error>)
    requires
        old(table).wf(),
    ensures
        final(table).wf(),
        final(table).capacity() == old(table).capacity(),
        ingested(
            old(table)@,
            old(table).capacity(),
            data.entries(),
            expected as nat,
            now,
            old(progress)@,
            outcome,
            final(table)@,
            final(progress)@,
        ),
{
    let ghost start = table@;
    let ghost reported = progress@;
    let ghost groups = data.bicho_lotteries_draws.deep_view();
    let ghost entries = data.entries();
    let first_new: usize = table.len();
    let first_report: usize = progress.len();
    let mut inserted: usize = 0;
    let mut skipped: usize = 0;
    let mut i: usize = 0;
    proof {
        assert(groups.take(0) =~= Seq::<Seq<DrawEntry>>::empty());
        assert(progress@ =~= reported + progress_steps(0, expected as nat));
    }
    while i < data.bicho_lotteries_draws.len()
        invariant
            i <= data.bicho_lotteries_draws.len(),
            groups == data.bicho_lotteries_draws.deep_view(),
            entries == all_entries(groups),
            entries == data.entries(),
            start == old(table)@,
            reported == old(progress)@,
            start.len() == first_new,
            reported.len() == first_report,
            table.wf(),
            table.capacity() == old(table).capacity(),
            table@ == ingest_entries(start, all_entries(groups.take(i as int)), now),
            inserted == table@.len() - start.len(),
            inserted + skipped == all_entries(groups.take(i as int)).len(),
            progress@ == reported + progress_steps((inserted + skipped) as nat, expected as nat),
        decreases data.bicho_lotteries_draws.len() - i,
    {
        let group = &data.bicho_lotteries_draws[i];
        let ghost done_before = all_entries(groups.take(i as int));
        let ghost this = groups[i as int];
        proof {
            assert(this == group.deep_view());
            assert(groups.take(i + 1).drop_last() =~= groups.take(i as int));
            assert(groups.take(i + 1).last() == this);
            assert(all_entries(groups.take(i + 1)) == done_before + this);
            assert(done_before + this.take(0) =~= done_before);
            lemma_all_entries_prefix(groups, i + 1);
        }
        let mut j: usize = 0;
        while j < group.len()
            invariant
                j <= group.len(),
                this == group.deep_view(),
                entries == data.entries(),
                start == old(table)@,
                reported == old(progress)@,
                start.len() == first_new,
                reported.len() == first_report,
                table.wf(),
                table.capacity() == old(table).capacity(),
                table@ == ingest_entries(start, done_before + this.take(j as int), now),
                inserted == table@.len() - start.len(),
                inserted + skipped == done_before.len() + j,
                progress@ == reported + progress_steps(
                    (inserted + skipped) as nat,
                    expected as nat,
                ),
                (done_before + this).len() <= entries.len(),
                done_before + this == entries.take((done_before + this).len() as int),
            decreases group.len() - j,
        {
            let ghost seen = done_before + this.take(j as int);
            let ghost next = done_before + this.take(j + 1);
            proof {
                assert(next.drop_last() =~= seen);
                assert(next.last() == this[j as int]);
                assert(this[j as int] == group@[j as int].deep_view());
                assert(next =~= entries.take(next.len() as int));
                assert(seen =~= entries.take(seen.len() as int));
            }
            match group[j].to_record(now) {
                Some(record) => {
                    match table.insert(record) {
                        Ok(_) => {},
                        Err(e) => {
                            proof {
                                lemma_ingest_extends(start, seen, now);
                                lemma_ingest_monotone(start, entries, now, next.len() as int);
                                let k = seen.len() as int;
                                assert(entries.take(k) == seen);
                                assert(entries.take(k + 1) == next);
                                assert(ingest_entries(start, next, now).len() > table.capacity());
                                assert(ingest_entries(start, entries.take(k), now).len()
                                    == table.capacity());
                            }
                            table.truncate(first_new);
                            assert(table@ == start);
                            return Err(e);
                        },
                    }
                },
                None => {},
            }
            assert(table@ == ingest_entries(start, next, now));
            let done: usize = progress.len() - first_report;
            progress.push(percent_after(done, expected));
            assert(progress@ =~= reported + progress_steps((done + 1) as nat, expected as nat));
            inserted = table.len() - first_new;
            skipped = progress.len() - first_report - inserted;
            j = j + 1;
        }
        proof {
            assert(this.take(this.len() as int) =~= this);
        }
        i = i + 1;
    }
    proof {
        assert(groups.take(groups.len() as int) =~= groups);
    }
    progress.push(100);
    Ok(IngestResult { inserted, skipped })
}

// ---------------------------------------------------------------------
// What holds of every ingestion
// ---------------------------------------------------------------------

/// How many of `entries` have a place that can be read.
pub open spec fn count_readable(entries: Seq<DrawEntry>) -> nat
    decreases entries.len(),
{
    if entries.len() == 0 {
        0
    } else {
        count_readable(entries.drop_last()) + if place_of(entries.last()) is Some {
            1nat
        } else {
            0nat
        }
    }
}

/// Whether the raw draw `e` is a draw of this place, day and hour.
pub open spec fn entry_has_key(e: DrawEntry, place: i32, date: Date, hour: Seq<char>) -> bool {
    place_of(e) == Some(place) && normalized_date(e.date) == date && text_or_missing(e.hour)
        == hour
}

/// Whether the raw draws of `entries` that have a readable place are draws
/// of pairwise different place, day and hour, none of which is in `rows`.
pub open spec fn all_new_and_distinct(rows: Seq<DrawRow>, entries: Seq<DrawEntry>) -> bool {
    &&& forall|i: int, j: int|
        0 <= i < j < entries.len() && place_of(#[trigger] entries[i]) is Some ==> !entry_has_key(
            #[trigger] entries[j],
            place_of(entries[i])->0,
            normalized_date(entries[i].date),
            text_or_missing(entries[i].hour),
        )
    &&& forall|i: int, k: int|
        0 <= i < entries.len() && 0 <= k < rows.len() ==> !entry_has_key(
            #[trigger] entries[i],
            (#[trigger] rows[k]).place,
            rows[k].date,
            rows[k].hour,
        )
}

/// Every row after an ingestion was there before or stands for one of the
/// raw draws.
pub proof fn lemma_ingest_origin(rows: Seq<DrawRow>, entries: Seq<DrawEntry>, now: i64, k: int)
    requires
        0 <= k < ingest_entries(rows, entries, now).len(),
    ensures
        k < rows.len() || exists|i: int|
            0 <= i < entries.len() && row_of(#[trigger] entries[i], now) == Some(
                ingest_entries(rows, entries, now)[k],
            ),
    decreases entries.len(),
{
    lemma_ingest_extends(rows, entries, now);
    if entries.len() > 0 {
        let mid = ingest_entries(rows, entries.drop_last(), now);
        if k < mid.len() {
            lemma_ingest_origin(rows, entries.drop_last(), now, k);
            if k >= rows.len() {
                let i = choose|i: int|
                    0 <= i < entries.drop_last().len() && row_of(
                        #[trigger] entries.drop_last()[i],
                        now,
                    ) == Some(mid[k]);
                assert(entries[i] == entries.drop_last()[i]);
            }
        } else {
            assert(row_of(entries[entries.len() - 1], now) == Some(
                ingest_entries(rows, entries, now)[k],
            ));
        }
    }
}

/// Where the raw draws with a readable place are all of different place,
/// day and hour, and none of them is in the table yet, an ingestion adds one
/// row for each of them: the table then holds as many more rows as there are
/// raw draws with a readable place. The number of rows of a table that was
/// empty, which is what its info reports as `total_rows`, is then the number
/// of raw draws with a readable place.
pub proof fn lemma_ingest_counts_readable(rows: Seq<DrawRow>, entries: Seq<DrawEntry>, now: i64)
    requires
        all_new_and_distinct(rows, entries),
    ensures
        ingest_entries(rows, entries, now).len() == rows.len() + count_readable(entries),
        rows.len() == 0 ==> ingest_entries(rows, entries, now).len() == count_readable(entries),
    decreases entries.len(),
{
    if entries.len() > 0 {
        let front = entries.drop_last();
        let last = entries.last();
        assert(all_new_and_distinct(rows, front)) by {
            assert forall|i: int, j: int|
                0 <= i < j < front.len() && place_of(#[trigger] front[i]) is Some implies !entry_has_key(
                #[trigger] front[j],
                place_of(front[i])->0,
                normalized_date(front[i].date),
                text_or_missing(front[i].hour),
            ) by {
                assert(front[i] == entries[i]);
                assert(front[j] == entries[j]);
            }
            assert forall|i: int, k: int|
                0 <= i < front.len() && 0 <= k < rows.len() implies !entry_has_key(
                #[trigger] front[i],
                (#[trigger] rows[k]).place,
                rows[k].date,
                rows[k].hour,
            ) by {
                assert(front[i] == entries[i]);
            }
        }
        lemma_ingest_counts_readable(rows, front, now);
        let mid = ingest_entries(rows, front, now);
        match row_of(last, now) {
            Some(row) => {
                assert(!key_taken(mid, row.place, row.date, row.hour)) by {
                    if key_taken(mid, row.place, row.date, row.hour) {
                        let k = choose|k: int|
                            0 <= k < mid.len() && has_key(
                                #[trigger] mid[k],
                                row.place,
                                row.date,
                                row.hour,
                            );
                        lemma_ingest_origin(rows, front, now, k);
                        lemma_ingest_extends(rows, front, now);
                        if k < rows.len() {
                            assert(mid[k] == mid.take(rows.len() as int)[k]);
                            assert(mid[k] == rows[k]);
                            assert(entry_has_key(
                                entries[entries.len() - 1],
                                rows[k].place,
                                rows[k].date,
                                rows[k].hour,
                            ));
                        } else {
                            let i = choose|i: int|
                                0 <= i < front.len() && row_of(#[trigger] front[i], now) == Some(
                                    mid[k],
                                );
                            assert(front[i] == entries[i]);
                            assert(entry_has_key(
                                entries[entries.len() - 1],
                                place_of(entries[i])->0,
                                normalized_date(entries[i].date),
                                text_or_missing(entries[i].hour),
                            ));
                        }
                    }
                }
            },
            None => {},
        }
    }
}

/// After an ingestion the table holds a draw for the place, day and hour of
/// every raw draw with a readable place.
pub proof fn lemma_ingest_covers(rows: Seq<DrawRow>, entries: Seq<DrawEntry>, now: i64, i: int)
    requires
        0 <= i < entries.len(),
        place_of(entries[i]) is Some,
    ensures
        key_taken(
            ingest_entries(rows, entries, now),
            place_of(entries[i])->0,
            normalized_date(entries[i].date),
            text_or_missing(entries[i].hour),
        ),
    decreases entries.len(),
{
    let front = entries.drop_last();
    let mid = ingest_entries(rows, front, now);
    let end = ingest_entries(rows, entries, now);
    let place = place_of(entries[i])->0;
    let date = normalized_date(entries[i].date);
    let hour = text_or_missing(entries[i].hour);
    if i < entries.len() - 1 {
        assert(front[i] == entries[i]);
        lemma_ingest_covers(rows, front, now, i);
        let k = choose|k: int| 0 <= k < mid.len() && has_key(#[trigger] mid[k], place, date, hour);
        assert(end == ingest_entry(mid, entries.last(), now));
        assert(end[k] == mid[k]);
        assert(has_key(end[k], place, date, hour));
    } else {
        let row = row_of(entries[i], now)->0;
        if key_taken(mid, place, date, hour) {
            assert(end == mid);
        } else {
            assert(end == mid.push(row));
            assert(has_key(end[mid.len() as int], place, date, hour));
        }
    }
}

/// Raw draws whose place, day and hour are all in the table already leave
/// it as it is.
pub proof fn lemma_ingest_nothing_new(rows: Seq<DrawRow>, entries: Seq<DrawEntry>, now: i64)
    requires
        forall|i: int|
            0 <= i < entries.len() && place_of(#[trigger] entries[i]) is Some ==> key_taken(
                rows,
                place_of(entries[i])->0,
                normalized_date(entries[i].date),
                text_or_missing(entries[i].hour),
            ),
    ensures
        ingest_entries(rows, entries, now) == rows,
    decreases entries.len(),
{
    if entries.len() > 0 {
        let front = entries.drop_last();
        assert forall|i: int| 0 <= i < front.len() && place_of(#[trigger] front[i]) is Some implies key_taken(
            rows,
            place_of(front[i])->0,
            normalized_date(front[i].date),
            text_or_missing(front[i].hour),
        ) by {
            assert(front[i] == entries[i]);
        }
        lemma_ingest_nothing_new(rows, front, now);
        let last = entries[entries.len() - 1];
        assert(entries.last() == last);
    }
}

/// Ingesting the same raw draws a second time, at whatever time, changes
/// nothing: the table has the rows, and so the number of rows, that it had
/// after the first time.
pub proof fn lemma_ingest_idempotent(
    rows: Seq<DrawRow>,
    entries: Seq<DrawEntry>,
    now: i64,
    later: i64,
)
    ensures
        ingest_entries(ingest_entries(rows, entries, now), entries, later) == ingest_entries(
            rows,
            entries,
            now,
        ),
{
    let once = ingest_entries(rows, entries, now);
    assert forall|i: int| 0 <= i < entries.len() && place_of(#[trigger] entries[i]) is Some implies key_taken(
        once,
        place_of(entries[i])->0,
        normalized_date(entries[i].date),
        text_or_missing(entries[i].hour),
    ) by {
        lemma_ingest_covers(rows, entries, now, i);
    }
    lemma_ingest_nothing_new(once, entries, later);
}

/// An ingestion that succeeded, of raw draws that were all of different
/// place, day and hour and not in the table yet, leaves as many more rows as
/// there are raw draws with a readable place, and counts as many as
/// inserted.
pub proof fn lemma_ingested_counts_readable(
    before: Seq<DrawRow>,
    limit: nat,
    entries: Seq<DrawEntry>,
    expected: nat,
    now: i64,
    reported: Seq<u32>,
    done: IngestResult,
    after: Seq<DrawRow>,
    reported_after: Seq<u32>,
)
    requires
        all_new_and_distinct(before, entries),
        ingested(
            before,
            limit,
            entries,
            expected,
            now,
            reported,
            Ok::<IngestResult, Error>(done),
            after,
            reported_after,
        ),
    ensures
        after.len() == before.len() + count_readable(entries),
        done.inserted == count_readable(entries),
        done.skipped == entries.len() - count_readable(entries),
{
    lemma_ingest_counts_readable(before, entries, now);
}

/// An ingestion into a table that has room succeeds: where the raw draws
/// with a readable place are all of different place, day and hour, none of
/// them is in the table yet and the table can hold a row for each of them,
/// the answer is `Ok`, as many rows are added as there are raw draws with a
/// readable place, the others are skipped, and the whole of the progress is
/// reported.
pub proof fn lemma_ingested_with_room(
    before: Seq<DrawRow>,
    limit: nat,
    entries: Seq<DrawEntry>,
    expected: nat,
    now: i64,
    reported: Seq<u32>,
    outcome: Result<IngestResult, Error>,
    after: Seq<DrawRow>,
    reported_after: Seq<u32>,
)
    requires
        all_new_and_distinct(before, entries),
        before.len() + count_readable(entries) <= limit,
        ingested(before, limit, entries, expected, now, reported, outcome, after, reported_after),
    ensures
        outcome is Ok,
        after.len() == before.len() + count_readable(entries),
        outcome->Ok_0.inserted == count_readable(entries),
        outcome->Ok_0.skipped == entries.len() - count_readable(entries),
        reported_after == reported + progress_of(entries.len(), expected),
{
    lemma_ingest_counts_readable(before, entries, now);
}

/// An ingestion of the raw draws that a first ingestion succeeded with
/// succeeds too, inserts nothing, skips them all and leaves the table, and
/// so its number of rows, as the first one left it.
pub proof fn lemma_ingested_again(
    before: Seq<DrawRow>,
    limit: nat,
    entries: Seq<DrawEntry>,
    expected: nat,
    now: i64,
    later: i64,
    reported: Seq<u32>,
    first: IngestResult,
    after: Seq<DrawRow>,
    reported_after: Seq<u32>,
    second: Result<IngestResult, Error>,
    at_last: Seq<DrawRow>,
    reported_at_last: Seq<u32>,
)
    requires
        ingested(
            before,
            limit,
            entries,
            expected,
            now,
            reported,
            Ok::<IngestResult, Error>(first),
            after,
            reported_after,
        ),
        ingested(
            after,
            limit,
            entries,
            expected,
            later,
            reported_after,
            second,
            at_last,
            reported_at_last,
        ),
    ensures
        second is Ok,
        second->Ok_0.inserted == 0,
        second->Ok_0.skipped == entries.len(),
        at_last == after,
{
    lemma_ingest_idempotent(before, entries, now, later);
}

/// What is reported after a raw draw never goes down as more raw draws are
/// processed, and stays below 100.
pub proof fn lemma_percent_monotone(a: nat, b: nat, expected: nat)
    requires
        a <= b,
    ensures
        percent(a, expected) <= percent(b, expected) < 100,
{
    if expected > 0 {
        if b < expected {
            lemma_percent_below(b, expected);
            vstd::arithmetic::div_mod::lemma_div_is_ordered(
                (a * 100) as int,
                (b * 100) as int,
                expected as int,
            );
        } else if a < expected {
            lemma_percent_below(a, expected);
        }
    }
}

/// What an ingestion of `n` raw draws reports: one value for each raw draw
/// and one more at the end, `n + 1` in all; none smaller than the one before
/// it; every one but the last below 100; and the last one 100, which so
/// occurs exactly once. This holds whatever is expected, zero too, and
/// however many raw draws there are, none too.
pub proof fn lemma_progress_shape(n: nat, expected: nat)
    ensures
        progress_of(n, expected).len() == n + 1,
        progress_of(n, expected).last() == 100,
        forall|k: int| 0 <= k < n ==> #[trigger] progress_of(n, expected)[k] < 100,
        forall|k: int| 0 <= k <= n ==> (#[trigger] progress_of(n, expected)[k] == 100 <==> k == n),
        forall|i: int, j: int|
            0 <= i <= j <= n ==> #[trigger] progress_of(n, expected)[i] <= #[trigger] progress_of(
                n,
                expected,
            )[j],
{
    let all = progress_of(n, expected);
    assert forall|k: int| 0 <= k < n implies #[trigger] all[k] < 100 by {
        lemma_percent_monotone((k + 1) as nat, (k + 1) as nat, expected);
    }
    assert forall|i: int, j: int| 0 <= i <= j <= n implies #[trigger] all[i] <= #[trigger] all[j] by {
        if j < n {
            lemma_percent_monotone((i + 1) as nat, (j + 1) as nat, expected);
        } else if i < n {
            lemma_percent_monotone((i + 1) as nat, (i + 1) as nat, expected);
        }
    }
}

} // verus!
