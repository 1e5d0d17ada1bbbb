use get_bicho::date::Date;
use get_bicho::draws::DrawTable;
use get_bicho::error::{Error, StorageError};
use get_bicho::ingest::{ingest, percent_done, IngestResult};
use get_bicho::model::{BichoData, BichoDraw, DrawRecord, Lottery};

fn draw(place: Option<&str>, date: Option<&str>, hour: Option<&str>) -> BichoDraw {
    BichoDraw {
        place: place.map(|s| s.to_string()),
        lottery: Lottery { title: Some("PT".to_string()) },
        thousand: Some("1234".to_string()),
        hour: hour.map(|s| s.to_string()),
        group: Some("09".to_string()),
        date: date.map(|s| s.to_string()),
    }
}

fn snapshot(groups: Vec<Vec<BichoDraw>>) -> BichoData {
    BichoData { bicho_lotteries_draws: groups, show_more: false, status: "ok".to_string() }
}

fn non_decreasing(values: &[u32]) -> bool {
    values.windows(2).all(|w| w[0] <= w[1])
}

#[test]
fn to_record_reads_every_field() {
    let raw = draw(Some("3"), Some("05/03/2024"), Some("14h"));
    assert_eq!(
        raw.to_record(77),
        Some(DrawRecord {
            place: 3,
            date: Date { year: 2024, month: 3, day: 5 },
            hour: "14h".to_string(),
            milhar: "1234".to_string(),
            group: "09".to_string(),
            updated_at: 77,
        })
    );
}

#[test]
fn to_record_puts_sentinels_for_what_is_missing() {
    let raw = BichoDraw {
        place: None,
        lottery: Lottery { title: None },
        thousand: None,
        hour: None,
        group: None,
        date: None,
    };
    assert_eq!(
        raw.to_record(1),
        Some(DrawRecord {
            place: 999,
            date: Date { year: 1970, month: 1, day: 1 },
            hour: "999".to_string(),
            milhar: "999".to_string(),
            group: "999".to_string(),
            updated_at: 1,
        })
    );
}

#[test]
fn to_record_gives_up_on_an_unreadable_place() {
    assert_eq!(draw(Some("1º"), Some("05/03/2024"), Some("14h")).to_record(1), None);
    assert_eq!(draw(Some(""), Some("05/03/2024"), Some("14h")).to_record(1), None);
    assert_eq!(draw(Some(" 1"), Some("05/03/2024"), Some("14h")).to_record(1), None);
}

#[test]
fn to_record_uses_the_epoch_for_an_unreadable_date() {
    let record = draw(Some("1"), Some("yesterday"), Some("14h")).to_record(1).unwrap();
    assert_eq!(record.date, Date { year: 1970, month: 1, day: 1 });
    let record = draw(Some("1"), Some("1/2/2024"), Some("14h")).to_record(1).unwrap();
    assert_eq!(record.date, Date { year: 1970, month: 1, day: 1 });
}

#[test]
fn ingest_adds_one_row_for_each_readable_distinct_draw() {
    let data = snapshot(vec![
        vec![
            draw(Some("1"), Some("01/01/2024"), Some("10h")),
            draw(Some("2"), Some("01/01/2024"), Some("10h")),
            draw(Some("x"), Some("01/01/2024"), Some("10h")),
        ],
        vec![],
        vec![
            draw(Some("1"), Some("02/01/2024"), Some("10h")),
            draw(None, Some("02/01/2024"), Some("10h")),
            draw(Some("1"), Some("02/01/2024"), Some("14h")),
            draw(Some(""), None, None),
        ],
    ]);
    let mut table = DrawTable::new();
    let mut progress = Vec::new();
    let outcome = ingest(&mut table, &data, 7, 100, &mut progress);
    assert_eq!(outcome, Ok(IngestResult { inserted: 5, skipped: 2 }));
    assert_eq!(table.len(), 5);
    assert_eq!(table.info().total_rows, 5);
    assert_eq!(table.info().date, Some(100));
    assert_eq!(table.rows()[0].place, 1);
    assert_eq!(table.rows()[1].place, 2);
    assert_eq!(table.rows()[2].date, Date { year: 2024, month: 1, day: 2 });
    assert_eq!(table.rows()[3].place, 999);
    assert_eq!(table.rows()[4].hour, "14h");
}

#[test]
fn ingest_skips_draws_that_are_there_already() {
    let data = snapshot(vec![vec![
        draw(Some("1"), Some("01/01/2024"), Some("10h")),
        draw(Some("1"), Some("01/01/2024"), Some("10h")),
        draw(Some("+1"), Some("01/01/2024"), Some("10h")),
        draw(Some("1"), Some("01/01/2024"), Some("11h")),
    ]]);
    let mut table = DrawTable::new();
    let mut progress = Vec::new();
    let outcome = ingest(&mut table, &data, 4, 100, &mut progress);
    assert_eq!(outcome, Ok(IngestResult { inserted: 2, skipped: 2 }));
    assert_eq!(table.len(), 2);
}

#[test]
fn ingesting_the_same_snapshot_again_changes_nothing() {
    let data = snapshot(vec![
        vec![
            draw(Some("1"), Some("01/01/2024"), Some("10h")),
            draw(Some("2"), Some("01/01/2024"), Some("10h")),
        ],
        vec![draw(Some("?"), None, None), draw(Some("3"), Some("bad"), None)],
    ]);
    let mut table = DrawTable::new();
    let mut progress = Vec::new();
    assert_eq!(
        ingest(&mut table, &data, 4, 100, &mut progress),
        Ok(IngestResult { inserted: 3, skipped: 1 })
    );
    let before = table.export();
    assert_eq!(
        ingest(&mut table, &data, 4, 200, &mut progress),
        Ok(IngestResult { inserted: 0, skipped: 4 })
    );
    assert_eq!(table.export(), before);
    assert_eq!(table.info().total_rows, 3);
    assert_eq!(table.info().date, Some(100));
}

#[test]
fn progress_is_reported_after_each_draw_and_ends_at_100() {
    let data = snapshot(vec![
        vec![
            draw(Some("1"), Some("01/01/2024"), Some("10h")),
            draw(Some("x"), Some("01/01/2024"), Some("10h")),
        ],
        vec![
            draw(Some("1"), Some("01/01/2024"), Some("10h")),
            draw(Some("4"), Some("01/01/2024"), Some("10h")),
        ],
    ]);
    let mut table = DrawTable::new();
    let mut progress = Vec::new();
    assert!(ingest(&mut table, &data, 4, 100, &mut progress).is_ok());
    assert_eq!(progress, vec![25, 50, 75, 99, 100]);
}

#[test]
fn progress_is_measured_against_what_is_expected() {
    let data = snapshot(vec![vec![
        draw(Some("1"), Some("01/01/2024"), Some("10h")),
        draw(Some("2"), Some("01/01/2024"), Some("10h")),
        draw(Some("3"), Some("01/01/2024"), Some("10h")),
    ]]);
    let mut table = DrawTable::new();
    let mut progress = Vec::new();
    assert!(ingest(&mut table, &data, 200, 100, &mut progress).is_ok());
    assert_eq!(progress, vec![0, 1, 1, 100]);
    let mut table = DrawTable::new();
    let mut progress = Vec::new();
    assert!(ingest(&mut table, &data, 2, 100, &mut progress).is_ok());
    assert_eq!(progress, vec![50, 99, 99, 100]);
}

#[test]
fn progress_with_nothing_expected_still_ends_once_at_100() {
    let empty = snapshot(vec![]);
    let mut table = DrawTable::new();
    let mut progress = Vec::new();
    assert_eq!(
        ingest(&mut table, &empty, 0, 100, &mut progress),
        Ok(IngestResult { inserted: 0, skipped: 0 })
    );
    assert_eq!(progress, vec![100]);

    let data = snapshot(vec![vec![
        draw(Some("1"), Some("01/01/2024"), Some("10h")),
        draw(Some("no"), Some("01/01/2024"), Some("10h")),
    ]]);
    let mut progress = Vec::new();
    assert_eq!(
        ingest(&mut table, &data, 0, 100, &mut progress),
        Ok(IngestResult { inserted: 1, skipped: 1 })
    );
    assert_eq!(progress, vec![0, 0, 100]);
    assert!(non_decreasing(&progress));
}

#[test]
fn progress_of_an_empty_snapshot_is_a_single_100() {
    let mut table = DrawTable::new();
    let mut progress = Vec::new();
    assert!(ingest(&mut table, &snapshot(vec![vec![], vec![]]), 50, 100, &mut progress).is_ok());
    assert_eq!(progress, vec![100]);
}

#[test]
fn progress_is_added_after_what_the_sink_holds() {
    let data = snapshot(vec![vec![draw(Some("1"), Some("01/01/2024"), Some("10h"))]]);
    let mut table = DrawTable::new();
    let mut progress = vec![7, 8];
    assert!(ingest(&mut table, &data, 1, 100, &mut progress).is_ok());
    assert_eq!(progress, vec![7, 8, 99, 100]);
}

#[test]
fn progress_never_goes_down() {
    let mut draws = Vec::new();
    let mut i = 0;
    while i < 37 {
        draws.push(draw(Some(&i.to_string()), Some("01/01/2024"), Some("10h")));
        i += 1;
    }
    let data = snapshot(vec![draws]);
    for expected in [0usize, 1, 7, 36, 37, 38, 1000] {
        let mut table = DrawTable::new();
        let mut progress = Vec::new();
        assert!(ingest(&mut table, &data, expected, 100, &mut progress).is_ok());
        assert_eq!(progress.len(), 38);
        assert!(non_decreasing(&progress));
        assert!(progress[..37].iter().all(|p| *p < 100));
        assert_eq!(progress[37], 100);
        assert_eq!(progress.iter().filter(|p| **p == 100).count(), 1);
    }
}

#[test]
fn percent_done_is_the_share_in_whole_per_cent_and_at_most_99() {
    assert_eq!(percent_done(0, 0), 0);
    assert_eq!(percent_done(5, 0), 0);
    assert_eq!(percent_done(0, 3), 0);
    assert_eq!(percent_done(1, 3), 33);
    assert_eq!(percent_done(2, 3), 66);
    assert_eq!(percent_done(3, 3), 99);
    assert_eq!(percent_done(4, 3), 99);
    assert_eq!(percent_done(199, 200), 99);
    assert_eq!(percent_done(u64::MAX - 1, u64::MAX), 99);
    assert_eq!(percent_done(u64::MAX, u64::MAX), 99);
    assert_eq!(percent_done(1, 1), 99);
    assert_eq!(percent_done(99, 100), 99);
    assert_eq!(percent_done(98, 100), 98);
}

#[test]
fn an_ingestion_that_does_not_fit_leaves_the_table_as_it_was() {
    let mut table = DrawTable::with_limit(3);
    let mut progress = Vec::new();
    let first = snapshot(vec![vec![
        draw(Some("1"), Some("01/01/2024"), Some("10h")),
        draw(Some("2"), Some("01/01/2024"), Some("10h")),
    ]]);
    assert_eq!(
        ingest(&mut table, &first, 2, 100, &mut progress),
        Ok(IngestResult { inserted: 2, skipped: 0 })
    );
    let before = table.export();
    let second = snapshot(vec![
        vec![
            draw(Some("1"), Some("01/01/2024"), Some("10h")),
            draw(Some("3"), Some("01/01/2024"), Some("10h")),
            draw(Some("?"), Some("01/01/2024"), Some("10h")),
        ],
        vec![
            draw(Some("4"), Some("01/01/2024"), Some("10h")),
            draw(Some("5"), Some("01/01/2024"), Some("10h")),
        ],
    ]);
    let mut progress = Vec::new();
    assert_eq!(
        ingest(&mut table, &second, 5, 200, &mut progress),
        Err(Error::Storage(StorageError::TableFull))
    );
    assert_eq!(table.export(), before);
    assert_eq!(table.len(), 2);
    assert_eq!(progress, vec![20, 40, 60]);
}

#[test]
fn an_ingestion_that_just_fits_succeeds() {
    let mut table = DrawTable::with_limit(2);
    let mut progress = Vec::new();
    let data = snapshot(vec![vec![
        draw(Some("1"), Some("01/01/2024"), Some("10h")),
        draw(Some("1"), Some("01/01/2024"), Some("10h")),
        draw(Some("2"), Some("01/01/2024"), Some("10h")),
        draw(Some("2"), Some("01/01/2024"), Some("10h")),
        draw(Some("x"), Some("01/01/2024"), Some("10h")),
    ]]);
    assert_eq!(
        ingest(&mut table, &data, 5, 100, &mut progress),
        Ok(IngestResult { inserted: 2, skipped: 3 })
    );
    assert_eq!(table.len(), 2);
    assert_eq!(table.limit(), 2);
}

#[test]
fn one_hundred_is_reported_exactly_once_as_the_last_value() {
    let one = snapshot(vec![vec![draw(Some("1"), Some("01/01/2024"), Some("10h"))]]);
    let mut table = DrawTable::new();
    let mut progress = Vec::new();
    assert_eq!(
        ingest(&mut table, &one, 1, 100, &mut progress),
        Ok(IngestResult { inserted: 1, skipped: 0 })
    );
    assert_eq!(progress, vec![99, 100]);

    let three = snapshot(vec![
        vec![draw(Some("2"), Some("01/01/2024"), Some("10h"))],
        vec![
            draw(Some("3"), Some("01/01/2024"), Some("10h")),
            draw(Some("x"), Some("01/01/2024"), Some("10h")),
        ],
    ]);
    for expected in [0usize, 1, 2, 3, 4] {
        let mut table = DrawTable::new();
        let mut progress = Vec::new();
        assert!(ingest(&mut table, &three, expected, 100, &mut progress).is_ok());
        assert_eq!(progress.len(), 4);
        assert_eq!(progress.iter().filter(|p| **p == 100).count(), 1);
        assert_eq!(progress.last(), Some(&100));
        assert!(non_decreasing(&progress));
    }
}

#[test]
fn an_ingestion_that_fails_reports_no_100() {
    let mut table = DrawTable::with_limit(1);
    let data = snapshot(vec![vec![
        draw(Some("1"), Some("01/01/2024"), Some("10h")),
        draw(Some("2"), Some("01/01/2024"), Some("10h")),
    ]]);
    let mut progress = Vec::new();
    assert_eq!(
        ingest(&mut table, &data, 1, 100, &mut progress),
        Err(Error::Storage(StorageError::TableFull))
    );
    assert_eq!(progress, vec![99]);
    assert_eq!(table.len(), 0);
}
