//! The loss sequence: how many draws of an hour and place have passed since
//! one of the numbers of a group last came out there.

use vstd::prelude::*;
use crate::date::Date;
use crate::draws::DrawTable;
use crate::groups::{decode, decode_numbers, GroupRow, GroupTable};
use crate::model::{DrawRow, LossSequence, LossView};
use crate::parse::{parse_u32, u32_of_text};

verus! {

/// The loss sequence of a group none of whose numbers ever came out.
pub const NEVER: i32 = 999;

/// Whether `row` is a draw of this hour and place.
pub open spec fn in_slot(row: DrawRow, hour: Seq<char>, place: u32) -> bool {
    row.hour == hour && row.place as int == place as int
}

/// Whether `row` is a draw of this hour and place whose group is one of
/// `numbers`.
pub open spec fn is_hit(row: DrawRow, hour: Seq<char>, place: u32, numbers: Seq<u32>) -> bool {
    in_slot(row, hour, place) && match u32_of_text(row.group) {
        Some(n) => numbers.contains(n),
        None => false,
    }
}

/// The later of `best` and `date`.
pub open spec fn later_of(best: Option<Date>, date: Date) -> Option<Date> {
    match best {
        Some(d) => if d.before(date) {
            Some(date)
        } else {
            Some(d)
        },
        None => Some(date),
    }
}

/// The day of the latest draw of this hour and place whose group is one of
/// `numbers`, if there is any.
pub open spec fn latest_hit(rows: Seq<DrawRow>, hour: Seq<char>, place: u32, numbers: Seq<u32>) -> Option<
    Date,
>
    decreases rows.len(),
{
    if rows.len() == 0 {
        None
    } else {
        let best = latest_hit(rows.drop_last(), hour, place, numbers);
        if is_hit(rows.last(), hour, place, numbers) {
            later_of(best, rows.last().date)
        } else {
            best
        }
    }
}

/// How many draws of this hour and place are of a later day than `date`.
pub open spec fn draws_after(rows: Seq<DrawRow>, hour: Seq<char>, place: u32, date: Date) -> nat
    decreases rows.len(),
{
    if rows.len() == 0 {
        0
    } else {
        draws_after(rows.drop_last(), hour, place, date) + if in_slot(rows.last(), hour, place)
            && date.before(rows.last().date) {
            1nat
        } else {
            0nat
        }
    }
}

/// The loss sequence of `numbers` at this hour and place: the number of
/// draws there since one of them last came out, and 999 where none ever did.
pub open spec fn loss_of(rows: Seq<DrawRow>, hour: Seq<char>, place: u32, numbers: Seq<u32>) -> int {
    match latest_hit(rows, hour, place, numbers) {
        Some(date) => draws_after(rows, hour, place, date) as int,
        None => NEVER as int,
    }
}

/// The loss sequence of the stored group `g` over the draws `rows`.
pub open spec fn loss_for_group(rows: Seq<DrawRow>, g: GroupRow) -> LossView {
    LossView {
        hour: g.hour,
        group: g.group,
        place: g.place,
        loss_sequence: loss_of(rows, g.hour, g.place, decode_numbers(g.group)) as i32,
    }
}

/// The loss sequences of the stored groups, one for each, in their order.
pub open spec fn loss_sequences(rows: Seq<DrawRow>, groups: Seq<GroupRow>) -> Seq<LossView> {
    Seq::new(groups.len(), |i: int| loss_for_group(rows, groups[i]))
}

/// Whether `n` is one of `numbers`.
fn is_member(numbers: &Vec<u32>, n: u32) -> (found: bool)
    ensures
        found == numbers@.contains(n),
{
    let mut i: usize = 0;
    while i < numbers.len()
        invariant
            i <= numbers.len(),
            forall|k: int| 0 <= k < i ==> numbers@[k] != n,
        decreases numbers.len() - i,
    {
        if numbers[i] == n {
            return true;
        }
        i = i + 1;
    }
    false
}

/// The loss sequence of `numbers` at this hour and place over the draws of
/// `draws`.
pub fn loss_sequence_of(draws: &DrawTable, hour: &String, place: u32, numbers: &Vec<u32>) -> (loss:
    i32)
    requires
        draws.wf(),
    ensures
        loss == loss_of(draws@, hour@, place, numbers@),
{
    let rows = draws.rows();
    let ghost all = draws@;
    let mut best: Option<Date> = None;
    let mut i: usize = 0;
    assert(all.take(0) =~= Seq::<DrawRow>::empty());
    while i < rows.len()
        invariant
            i <= rows.len(),
            rows.deep_view() == all,
            best == latest_hit(all.take(i as int), hour@, place, numbers@),
        decreases rows.len() - i,
    {
        let row = &rows[i];
        proof {
            assert(all[i as int] == row@);
            assert(all.take(i + 1).drop_last() =~= all.take(i as int));
            assert(all.take(i + 1).last() == row@);
        }
        if row.place >= 0 && row.place as u32 == place && row.hour == *hour {
            let hit = match parse_u32(row.group.as_str()) {
                Some(n) => is_member(numbers, n),
                None => false,
            };
            if hit {
                best = match best {
                    Some(d) => if d.is_before(&row.date) {
                        Some(row.date)
                    } else {
                        Some(d)
                    },
                    None => Some(row.date),
                };
            }
        }
        i = i + 1;
    }
    assert(all.take(all.len() as int) =~= all);
    let date = match best {
        Some(date) => date,
        None => {
            return NEVER;
        },
    };
    let mut count: usize = 0;
    let mut k: usize = 0;
    while k < rows.len()
        invariant
            k <= rows.len(),
            rows.deep_view() == all,
            count == draws_after(all.take(k as int), hour@, place, date),
            count <= k,
        decreases rows.len() - k,
    {
        let row = &rows[k];
        proof {
            assert(all[k as int] == row@);
            assert(all.take(k + 1).drop_last() =~= all.take(k as int));
            assert(all.take(k + 1).last() == row@);
        }
        if row.place >= 0 && row.place as u32 == place && row.hour == *hour && date.is_before(
            &row.date,
        ) {
            count = count + 1;
        }
        k = k + 1;
    }
    assert(all.take(all.len() as int) =~= all);
    count as i32
}

/// The loss sequences of the groups of `groups` over the draws of `draws`,
/// one for each stored group, in their order. Each carries the hour, the
/// place and the numbers of its group as they are stored.
pub fn loss_sequences_of(draws: &DrawTable, groups: &GroupTable) -> (losses: Vec<LossSequence>)
    requires
        draws.wf(),
    ensures
        losses.deep_view() == loss_sequences(draws@, groups@),
{
    let rows = groups.rows();
    let mut out: Vec<LossSequence> = Vec::new();
    let mut i: usize = 0;
    while i < rows.len()
        invariant
            i <= rows.len(),
            draws.wf(),
            rows.deep_view() == groups@,
            out@.len() == i,
            forall|k: int| 0 <= k < i ==> (#[trigger] out@[k])@ == loss_for_group(draws@, groups@[k]),
        decreases rows.len() - i,
    {
        let row = &rows[i];
        assert(groups@[i as int] == row@);
        let numbers = decode(row.group.as_str());
        let loss = loss_sequence_of(draws, &row.hour, row.place, &numbers);
        out.push(
            LossSequence {
                hour: row.hour.clone(),
                group: row.group.clone(),
                place: row.place,
                loss_sequence: loss,
            },
        );
        i = i + 1;
    }
    assert(out.deep_view() =~= loss_sequences(draws@, groups@));
    out
}

// ---------------------------------------------------------------------
// What holds of every loss sequence
// ---------------------------------------------------------------------

/// Where none of the numbers ever came out at the hour and place, there is
/// no latest hit.
pub proof fn lemma_no_hit(rows: Seq<DrawRow>, hour: Seq<char>, place: u32, numbers: Seq<u32>)
    requires
        forall|i: int| 0 <= i < rows.len() ==> !is_hit(#[trigger] rows[i], hour, place, numbers),
    ensures
        latest_hit(rows, hour, place, numbers) is None,
    decreases rows.len(),
{
    if rows.len() > 0 {
        assert forall|i: int| 0 <= i < rows.drop_last().len() implies !is_hit(
            #[trigger] rows.drop_last()[i],
            hour,
            place,
            numbers,
        ) by {
            assert(rows.drop_last()[i] == rows[i]);
        }
        lemma_no_hit(rows.drop_last(), hour, place, numbers);
        assert(!is_hit(rows[rows.len() - 1], hour, place, numbers));
    }
}

/// The loss sequence of a group none of whose numbers ever came out at its
/// hour and place is 999.
pub proof fn lemma_never_hit_is_999(
    rows: Seq<DrawRow>,
    hour: Seq<char>,
    place: u32,
    numbers: Seq<u32>,
)
    requires
        forall|i: int| 0 <= i < rows.len() ==> !is_hit(#[trigger] rows[i], hour, place, numbers),
    ensures
        loss_of(rows, hour, place, numbers) == 999,
{
    lemma_no_hit(rows, hour, place, numbers);
}

/// The latest hit is the day of a hit, and no hit is of a later day; there
/// is one as soon as there is a hit.
pub proof fn lemma_latest_hit(rows: Seq<DrawRow>, hour: Seq<char>, place: u32, numbers: Seq<u32>)
    ensures
        match latest_hit(rows, hour, place, numbers) {
            Some(date) => {
                &&& exists|i: int|
                    0 <= i < rows.len() && is_hit(#[trigger] rows[i], hour, place, numbers)
                        && rows[i].date == date
                &&& forall|i: int|
                    0 <= i < rows.len() && is_hit(#[trigger] rows[i], hour, place, numbers)
                        ==> !date.before(rows[i].date)
            },
            None => forall|i: int|
                0 <= i < rows.len() ==> !is_hit(#[trigger] rows[i], hour, place, numbers),
        },
    decreases rows.len(),
{
    if rows.len() > 0 {
        let front = rows.drop_last();
        let last = rows[rows.len() - 1];
        lemma_latest_hit(front, hour, place, numbers);
        let best = latest_hit(front, hour, place, numbers);
        assert(forall|i: int| 0 <= i < front.len() ==> front[i] == rows[i]);
        match latest_hit(rows, hour, place, numbers) {
            Some(date) => {
                if is_hit(last, hour, place, numbers) && later_of(best, last.date) == Some(
                    last.date,
                ) {
                    assert(is_hit(rows[rows.len() - 1], hour, place, numbers) && rows[rows.len()
                        - 1].date == date);
                } else {
                    let i = choose|i: int|
                        0 <= i < front.len() && is_hit(#[trigger] front[i], hour, place, numbers)
                            && front[i].date == date;
                    assert(is_hit(rows[i], hour, place, numbers) && rows[i].date == date);
                }
                assert forall|i: int|
                    0 <= i < rows.len() && is_hit(
                        #[trigger] rows[i],
                        hour,
                        place,
                        numbers,
                    ) implies !date.before(rows[i].date) by {
                    if i < front.len() {
                        assert(is_hit(front[i], hour, place, numbers));
                    }
                }
            },
            None => {
                assert forall|i: int| 0 <= i < rows.len() implies !is_hit(
                    #[trigger] rows[i],
                    hour,
                    place,
                    numbers,
                ) by {
                    if i < front.len() {
                        assert(!is_hit(front[i], hour, place, numbers));
                    }
                }
            },
        }
    }
}

/// Where no draw of the hour and place is of a later day than `date`, none
/// is counted.
pub proof fn lemma_nothing_after(rows: Seq<DrawRow>, hour: Seq<char>, place: u32, date: Date)
    requires
        forall|i: int|
            0 <= i < rows.len() && in_slot(#[trigger] rows[i], hour, place) ==> !date.before(
                rows[i].date,
            ),
    ensures
        draws_after(rows, hour, place, date) == 0,
    decreases rows.len(),
{
    if rows.len() > 0 {
        assert forall|i: int|
            0 <= i < rows.drop_last().len() && in_slot(
                #[trigger] rows.drop_last()[i],
                hour,
                place,
            ) implies !date.before(rows.drop_last()[i].date) by {
            assert(rows.drop_last()[i] == rows[i]);
        }
        lemma_nothing_after(rows.drop_last(), hour, place, date);
        assert(in_slot(rows[rows.len() - 1], hour, place) ==> !date.before(
            rows[rows.len() - 1].date,
        ));
    }
}

/// Where the latest draw of the hour and place is itself a hit, the loss
/// sequence is 0.
pub proof fn lemma_hit_on_latest_draw_is_zero(
    rows: Seq<DrawRow>,
    hour: Seq<char>,
    place: u32,
    numbers: Seq<u32>,
    k: int,
)
    requires
        0 <= k < rows.len(),
        is_hit(rows[k], hour, place, numbers),
        forall|i: int|
            0 <= i < rows.len() && in_slot(#[trigger] rows[i], hour, place) ==> !rows[k].date.before(
                rows[i].date,
            ),
    ensures
        loss_of(rows, hour, place, numbers) == 0,
{
    lemma_latest_hit(rows, hour, place, numbers);
    let date = latest_hit(rows, hour, place, numbers)->0;
    assert(!date.before(rows[k].date));
    let i = choose|i: int|
        0 <= i < rows.len() && is_hit(#[trigger] rows[i], hour, place, numbers) && rows[i].date
            == date;
    assert(!rows[k].date.before(rows[i].date));
    crate::date::lemma_date_order(date, rows[k].date, date);
    assert(date == rows[k].date);
    lemma_nothing_after(rows, hour, place, date);
}

} // verus!
