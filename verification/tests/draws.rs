use get_bicho::date::Date;
use get_bicho::draws::{DrawTable, MAX_ROWS};
use get_bicho::error::{Error, StorageError};
use get_bicho::model::{DatabaseInfo, DrawRecord};

fn record(place: i32, day: u8, hour: &str, group: &str, updated_at: i64) -> DrawRecord {
    DrawRecord {
        place,
        date: Date { year: 2024, month: 1, day },
        hour: hour.to_string(),
        milhar: "1234".to_string(),
        group: group.to_string(),
        updated_at,
    }
}

#[test]
fn a_new_table_is_empty() {
    let table = DrawTable::new();
    assert_eq!(table.len(), 0);
    assert!(table.rows().is_empty());
    assert_eq!(table.info(), DatabaseInfo { total_rows: 0, date: None });
    assert_eq!(table.hours(), Vec::<String>::new());
    assert_eq!(table.places(), Ok(vec![]));
}

#[test]
fn insert_adds_a_new_draw() {
    let mut table = DrawTable::new();
    assert_eq!(table.insert(record(1, 1, "10h", "23", 5)), Ok(true));
    assert_eq!(table.insert(record(2, 1, "10h", "23", 5)), Ok(true));
    assert_eq!(table.insert(record(1, 2, "10h", "23", 5)), Ok(true));
    assert_eq!(table.insert(record(1, 1, "14h", "23", 5)), Ok(true));
    assert_eq!(table.len(), 4);
    assert_eq!(table.rows()[0], record(1, 1, "10h", "23", 5));
    assert_eq!(table.rows()[3], record(1, 1, "14h", "23", 5));
}

#[test]
fn insert_skips_a_draw_of_the_same_place_day_and_hour() {
    let mut table = DrawTable::new();
    assert_eq!(table.insert(record(1, 1, "10h", "23", 5)), Ok(true));
    assert_eq!(table.insert(record(1, 1, "10h", "07", 9)), Ok(false));
    assert_eq!(table.len(), 1);
    assert_eq!(table.rows()[0], record(1, 1, "10h", "23", 5));
}

#[test]
fn contains_looks_at_place_day_and_hour() {
    let mut table = DrawTable::new();
    assert_eq!(table.insert(record(1, 1, "10h", "23", 5)), Ok(true));
    let day = Date { year: 2024, month: 1, day: 1 };
    assert!(table.contains(1, day, &"10h".to_string()));
    assert!(!table.contains(2, day, &"10h".to_string()));
    assert!(!table.contains(1, day, &"11h".to_string()));
    assert!(!table.contains(1, Date { year: 2024, month: 1, day: 2 }, &"10h".to_string()));
}

#[test]
fn info_counts_rows_and_finds_the_latest_update() {
    let mut table = DrawTable::new();
    assert_eq!(table.insert(record(1, 1, "10h", "23", 50)), Ok(true));
    assert_eq!(table.insert(record(1, 2, "10h", "23", 70)), Ok(true));
    assert_eq!(table.insert(record(1, 3, "10h", "23", 60)), Ok(true));
    assert_eq!(table.info(), DatabaseInfo { total_rows: 3, date: Some(70) });
}

#[test]
fn info_handles_negative_times() {
    let mut table = DrawTable::new();
    assert_eq!(table.insert(record(1, 1, "10h", "23", -50)), Ok(true));
    assert_eq!(table.insert(record(1, 2, "10h", "23", -70)), Ok(true));
    assert_eq!(table.info(), DatabaseInfo { total_rows: 2, date: Some(-50) });
}

#[test]
fn hours_come_once_each_in_order_of_first_occurrence() {
    let mut table = DrawTable::new();
    assert_eq!(table.insert(record(1, 1, "14h", "23", 5)), Ok(true));
    assert_eq!(table.insert(record(1, 1, "10h", "23", 5)), Ok(true));
    assert_eq!(table.insert(record(2, 1, "14h", "23", 5)), Ok(true));
    assert_eq!(table.insert(record(1, 2, "21h", "23", 5)), Ok(true));
    assert_eq!(table.insert(record(3, 1, "10h", "23", 5)), Ok(true));
    assert_eq!(table.hours(), vec!["14h".to_string(), "10h".to_string(), "21h".to_string()]);
}

#[test]
fn places_come_once_each_in_order_of_first_occurrence() {
    let mut table = DrawTable::new();
    assert_eq!(table.insert(record(3, 1, "14h", "23", 5)), Ok(true));
    assert_eq!(table.insert(record(1, 1, "14h", "23", 5)), Ok(true));
    assert_eq!(table.insert(record(3, 2, "14h", "23", 5)), Ok(true));
    assert_eq!(table.insert(record(0, 2, "14h", "23", 5)), Ok(true));
    assert_eq!(table.insert(record(999, 2, "14h", "23", 5)), Ok(true));
    assert_eq!(table.places(), Ok(vec![3, 1, 0, 999]));
}

#[test]
fn places_fail_on_a_negative_place() {
    let mut table = DrawTable::new();
    assert_eq!(table.insert(record(3, 1, "14h", "23", 5)), Ok(true));
    assert_eq!(table.insert(record(-1, 1, "14h", "23", 5)), Ok(true));
    assert_eq!(table.places(), Err(Error::Storage(StorageError::ValueOutOfRange)));
}

#[test]
fn export_copies_the_rows() {
    let mut table = DrawTable::new();
    assert_eq!(table.insert(record(1, 1, "10h", "23", 5)), Ok(true));
    assert_eq!(table.insert(record(2, 1, "10h", "24", 6)), Ok(true));
    assert_eq!(table.export(), vec![record(1, 1, "10h", "23", 5), record(2, 1, "10h", "24", 6)]);
    assert_eq!(table.len(), 2);
}

#[test]
fn the_row_limit_is_the_largest_count_that_fits() {
    assert_eq!(MAX_ROWS, i32::MAX as usize);
}

#[test]
fn a_full_table_takes_no_new_draw() {
    let mut table = DrawTable::with_limit(2);
    assert_eq!(table.limit(), 2);
    assert_eq!(table.insert(record(1, 1, "10h", "23", 5)), Ok(true));
    assert_eq!(table.insert(record(1, 2, "10h", "23", 5)), Ok(true));
    assert_eq!(
        table.insert(record(1, 3, "10h", "23", 5)),
        Err(Error::Storage(StorageError::TableFull))
    );
    assert_eq!(table.insert(record(1, 1, "10h", "99", 6)), Ok(false));
    assert_eq!(table.len(), 2);
    let mut none = DrawTable::with_limit(0);
    assert_eq!(
        none.insert(record(1, 1, "10h", "23", 5)),
        Err(Error::Storage(StorageError::TableFull))
    );
}

#[test]
fn no_table_holds_more_than_the_row_limit() {
    assert_eq!(DrawTable::new().limit(), MAX_ROWS);
    assert_eq!(DrawTable::with_limit(usize::MAX).limit(), MAX_ROWS);
    assert_eq!(DrawTable::with_limit(10).limit(), 10);
}
