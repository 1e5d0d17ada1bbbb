use get_bicho::database::{Database, Table};
use get_bicho::date::Date;
use get_bicho::draws::DrawTable;
use get_bicho::db::{
    add_group, create_group_table_in_not_exists, create_house_table_in_not_exists, delete_group,
    edit_group, export_table, get_groups, get_hours, get_loss_sequence, get_places,
    get_table_info, save_bicho_data,
};
use get_bicho::error::{
    DuplicateGroupError, Error, NotFoundError, StorageError, ValidationError,
};
use get_bicho::ingest::IngestResult;
use get_bicho::model::{
    BichoData, BichoDraw, BichoGroup, DatabaseInfo, DrawRecord, Lottery, LossSequence,
};

fn draw(place: &str, date: &str, hour: &str, group: &str) -> BichoDraw {
    BichoDraw {
        place: Some(place.to_string()),
        lottery: Lottery { title: None },
        thousand: Some("4321".to_string()),
        hour: Some(hour.to_string()),
        group: Some(group.to_string()),
        date: Some(date.to_string()),
    }
}

fn snapshot(draws: Vec<BichoDraw>) -> BichoData {
    BichoData { bicho_lotteries_draws: vec![draws], show_more: true, status: "success".to_string() }
}

fn group(id: Option<u32>, hour: &str, place: u32, numbers: &[u32]) -> BichoGroup {
    BichoGroup { id, hour: hour.to_string(), place, group: numbers.to_vec() }
}

fn house() -> String {
    "A Zebra".to_string()
}

fn invalid<T>() -> Result<T, Error> {
    Err(Error::Validation(ValidationError::InvalidHouseName))
}

fn mismatch<T>() -> Result<T, Error> {
    Err(Error::Storage(StorageError::SchemaMismatch))
}

#[test]
fn create_makes_a_table_once() {
    let mut db = Database::new();
    assert_eq!(create_house_table_in_not_exists(&mut db, "A_Zebra"), Ok(()));
    assert_eq!(create_group_table_in_not_exists(&mut db, "group_A_Zebra"), Ok(()));
    assert!(matches!(db.table("A_Zebra"), Some(Table::Draws(_))));
    assert!(matches!(db.table("group_A_Zebra"), Some(Table::Groups(_))));
    let mut sink = Vec::new();
    let data = snapshot(vec![draw("1", "01/01/2024", "10h", "23")]);
    assert!(save_bicho_data(&mut db, house(), &data, 1, 5, &mut sink).is_ok());
    assert_eq!(create_house_table_in_not_exists(&mut db, "A_Zebra"), Ok(()));
    assert_eq!(create_group_table_in_not_exists(&mut db, "A_Zebra"), Ok(()));
    assert_eq!(
        get_table_info(&mut db, house()),
        Ok(DatabaseInfo { total_rows: 1, date: Some(5) })
    );
    assert_eq!(db.names().len(), 2);
}

#[test]
fn create_refuses_a_name_with_other_characters() {
    let mut db = Database::new();
    assert_eq!(create_house_table_in_not_exists(&mut db, "A Zebra"), invalid());
    assert_eq!(create_group_table_in_not_exists(&mut db, "x;y"), invalid());
    assert_eq!(create_house_table_in_not_exists(&mut db, ""), invalid());
    assert!(db.names().is_empty());
}

#[test]
fn table_info_of_a_new_house_is_empty() {
    let mut db = Database::new();
    assert_eq!(get_table_info(&mut db, house()), Ok(DatabaseInfo { total_rows: 0, date: None }));
    assert!(db.contains("A_Zebra"));
    assert!(!db.contains("group_A_Zebra"));
}

#[test]
fn total_rows_is_the_number_of_draws_with_a_readable_place() {
    let mut db = Database::new();
    let data = snapshot(vec![
        draw("1", "01/01/2024", "10h", "23"),
        draw("2", "01/01/2024", "10h", "24"),
        draw("primeiro", "01/01/2024", "10h", "24"),
        draw("3", "01/01/2024", "10h", "25"),
        draw("", "02/01/2024", "10h", "25"),
        draw("1", "02/01/2024", "10h", "25"),
    ]);
    let mut sink = Vec::new();
    assert_eq!(
        save_bicho_data(&mut db, house(), &data, 6, 1700000000, &mut sink),
        Ok(IngestResult { inserted: 4, skipped: 2 })
    );
    assert_eq!(
        get_table_info(&mut db, house()),
        Ok(DatabaseInfo { total_rows: 4, date: Some(1700000000) })
    );
    assert_eq!(sink, vec![16, 33, 50, 66, 83, 99, 100]);
}

#[test]
fn saving_the_same_data_again_keeps_total_rows() {
    let mut db = Database::new();
    let data = snapshot(vec![
        draw("1", "01/01/2024", "10h", "23"),
        draw("2", "01/01/2024", "10h", "24"),
    ]);
    let mut sink = Vec::new();
    assert_eq!(
        save_bicho_data(&mut db, house(), &data, 2, 10, &mut sink),
        Ok(IngestResult { inserted: 2, skipped: 0 })
    );
    assert_eq!(
        save_bicho_data(&mut db, house(), &data, 2, 20, &mut sink),
        Ok(IngestResult { inserted: 0, skipped: 2 })
    );
    assert_eq!(get_table_info(&mut db, house()), Ok(DatabaseInfo { total_rows: 2, date: Some(10) }));
}

#[test]
fn houses_are_kept_apart() {
    let mut db = Database::new();
    let data = snapshot(vec![draw("1", "01/01/2024", "10h", "23")]);
    let mut sink = Vec::new();
    assert!(save_bicho_data(&mut db, "PT Rio".to_string(), &data, 1, 10, &mut sink).is_ok());
    assert_eq!(get_table_info(&mut db, "PT Rio".to_string()).map(|i| i.total_rows), Ok(1));
    assert_eq!(get_table_info(&mut db, "PT-Rio".to_string()).map(|i| i.total_rows), Ok(1));
    assert_eq!(get_table_info(&mut db, "PT SP".to_string()).map(|i| i.total_rows), Ok(0));
    assert_eq!(add_group(&mut db, "PT Rio".to_string(), group(None, "10h", 1, &[1]), 0), Ok(()));
    assert_eq!(get_groups(&mut db, "PT SP".to_string()), Ok(vec![]));
    assert_eq!(get_groups(&mut db, "PT Rio".to_string()).map(|g| g.len()), Ok(1));
}

#[test]
fn an_invalid_house_name_fails_everywhere_and_makes_no_table() {
    let mut db = Database::new();
    let bad = || "x'; DROP TABLE y; --".to_string();
    let mut sink = Vec::new();
    assert_eq!(get_table_info(&mut db, bad()), invalid());
    assert_eq!(save_bicho_data(&mut db, bad(), &snapshot(vec![]), 1, 0, &mut sink), invalid());
    assert_eq!(export_table(&mut db, bad()), invalid());
    assert_eq!(get_hours(&mut db, bad()), invalid());
    assert_eq!(get_places(&mut db, bad()), invalid());
    assert_eq!(get_groups(&mut db, bad()), invalid());
    assert_eq!(add_group(&mut db, bad(), group(None, "10h", 1, &[1]), 0), invalid());
    assert_eq!(edit_group(&mut db, bad(), group(Some(1), "10h", 1, &[1]), 0), invalid());
    assert_eq!(delete_group(&mut db, bad(), 1), invalid());
    assert_eq!(get_loss_sequence(&mut db, bad()), invalid());
    assert_eq!(get_table_info(&mut db, String::new()), invalid());
    assert!(db.names().is_empty());
    assert!(sink.is_empty());
}

#[test]
fn a_table_of_the_other_kind_is_a_schema_mismatch() {
    let mut db = Database::new();
    assert_eq!(add_group(&mut db, "x".to_string(), group(None, "10h", 1, &[1]), 0), Ok(()));
    let clash = || "group x".to_string();
    let mut sink = Vec::new();
    assert_eq!(get_table_info(&mut db, clash()), mismatch());
    assert_eq!(save_bicho_data(&mut db, clash(), &snapshot(vec![]), 1, 0, &mut sink), mismatch());
    assert_eq!(export_table(&mut db, clash()), mismatch());
    assert_eq!(get_hours(&mut db, clash()), mismatch());
    assert_eq!(get_places(&mut db, clash()), mismatch());
    assert_eq!(get_loss_sequence(&mut db, clash()), mismatch());
    assert!(sink.is_empty());
    assert_eq!(get_groups(&mut db, "x".to_string()).map(|g| g.len()), Ok(1));

    let mut db = Database::new();
    assert_eq!(get_table_info(&mut db, clash()).map(|i| i.total_rows), Ok(0));
    assert_eq!(get_groups(&mut db, "x".to_string()), mismatch());
    assert_eq!(add_group(&mut db, "x".to_string(), group(None, "10h", 1, &[1]), 0), mismatch());
    assert_eq!(edit_group(&mut db, "x".to_string(), group(Some(1), "10h", 1, &[1]), 0), mismatch());
    assert_eq!(delete_group(&mut db, "x".to_string(), 1), mismatch());
    assert_eq!(get_loss_sequence(&mut db, "x".to_string()), mismatch());
    assert_eq!(get_table_info(&mut db, clash()).map(|i| i.total_rows), Ok(0));
}

#[test]
fn export_gives_the_rows_oldest_first() {
    let mut db = Database::new();
    assert_eq!(export_table(&mut db, house()), Ok(vec![]));
    let data = snapshot(vec![
        draw("2", "03/02/2024", "14h", "24"),
        draw("1", "bad date", "10h", "23"),
    ]);
    let mut sink = Vec::new();
    assert!(save_bicho_data(&mut db, house(), &data, 2, 42, &mut sink).is_ok());
    let row = |place: i32, date: Date, hour: &str, group: &str| DrawRecord {
        place,
        date,
        hour: hour.to_string(),
        milhar: "4321".to_string(),
        group: group.to_string(),
        updated_at: 42,
    };
    assert_eq!(
        export_table(&mut db, house()),
        Ok(vec![
            row(2, Date { year: 2024, month: 2, day: 3 }, "14h", "24"),
            row(1, Date { year: 1970, month: 1, day: 1 }, "10h", "23"),
        ])
    );
}

#[test]
fn hours_and_places_are_distinct() {
    let mut db = Database::new();
    assert_eq!(get_hours(&mut db, house()), Ok(vec![]));
    assert_eq!(get_places(&mut db, house()), Ok(vec![]));
    let data = snapshot(vec![
        draw("2", "03/02/2024", "14h", "24"),
        draw("1", "03/02/2024", "14h", "24"),
        draw("2", "03/02/2024", "10h", "24"),
        draw("2", "04/02/2024", "10h", "24"),
    ]);
    let mut sink = Vec::new();
    assert!(save_bicho_data(&mut db, house(), &data, 4, 42, &mut sink).is_ok());
    assert_eq!(get_hours(&mut db, house()), Ok(vec!["14h".to_string(), "10h".to_string()]));
    assert_eq!(get_places(&mut db, house()), Ok(vec![2, 1]));
}

#[test]
fn places_fail_where_a_place_is_negative() {
    let mut db = Database::new();
    let data = snapshot(vec![draw("-2", "03/02/2024", "14h", "24")]);
    let mut sink = Vec::new();
    assert!(save_bicho_data(&mut db, house(), &data, 1, 42, &mut sink).is_ok());
    assert_eq!(get_places(&mut db, house()), Err(Error::Storage(StorageError::ValueOutOfRange)));
}

#[test]
fn groups_are_added_listed_edited_and_deleted() {
    let mut db = Database::new();
    assert_eq!(get_groups(&mut db, house()), Ok(vec![]));
    assert_eq!(add_group(&mut db, house(), group(None, "10h", 1, &[23, 24]), 1), Ok(()));
    assert_eq!(add_group(&mut db, house(), group(None, "14h", 1, &[1]), 2), Ok(()));
    assert_eq!(
        get_groups(&mut db, house()),
        Ok(vec![group(Some(1), "10h", 1, &[23, 24]), group(Some(2), "14h", 1, &[1])])
    );
    assert_eq!(edit_group(&mut db, house(), group(Some(2), "21h", 5, &[9]), 3), Ok(()));
    assert_eq!(delete_group(&mut db, house(), 1), Ok(()));
    assert_eq!(get_groups(&mut db, house()), Ok(vec![group(Some(2), "21h", 5, &[9])]));
}

#[test]
fn add_group_twice_fails_the_second_time() {
    let mut db = Database::new();
    assert_eq!(add_group(&mut db, house(), group(None, "10h", 1, &[23]), 1), Ok(()));
    assert_eq!(
        add_group(&mut db, house(), group(None, "10h", 1, &[23]), 2),
        Err(Error::DuplicateGroup(DuplicateGroupError { hour: "10h".to_string(), place: 1 }))
    );
    assert_eq!(get_groups(&mut db, house()), Ok(vec![group(Some(1), "10h", 1, &[23])]));
}

#[test]
fn edit_group_without_id_fails() {
    let mut db = Database::new();
    assert_eq!(add_group(&mut db, house(), group(None, "10h", 1, &[23]), 1), Ok(()));
    assert_eq!(
        edit_group(&mut db, house(), group(None, "11h", 1, &[23]), 2),
        Err(Error::Validation(ValidationError::MissingId))
    );
    assert_eq!(
        edit_group(&mut db, "bad;name".to_string(), group(None, "11h", 1, &[23]), 2),
        Err(Error::Validation(ValidationError::MissingId))
    );
    assert_eq!(get_groups(&mut db, house()), Ok(vec![group(Some(1), "10h", 1, &[23])]));
}

#[test]
fn edit_group_onto_another_group_fails() {
    let mut db = Database::new();
    assert_eq!(add_group(&mut db, house(), group(None, "10h", 1, &[23]), 1), Ok(()));
    assert_eq!(add_group(&mut db, house(), group(None, "10h", 2, &[23]), 1), Ok(()));
    assert_eq!(
        edit_group(&mut db, house(), group(Some(1), "10h", 2, &[23]), 2),
        Err(Error::DuplicateGroup(DuplicateGroupError { hour: "10h".to_string(), place: 2 }))
    );
}

#[test]
fn delete_group_with_an_unknown_id_fails_and_changes_nothing() {
    let mut db = Database::new();
    assert_eq!(delete_group(&mut db, house(), 5), Err(Error::NotFound(NotFoundError { id: 5 })));
    assert_eq!(add_group(&mut db, house(), group(None, "10h", 1, &[23]), 1), Ok(()));
    assert_eq!(delete_group(&mut db, house(), 5), Err(Error::NotFound(NotFoundError { id: 5 })));
    assert_eq!(get_groups(&mut db, house()), Ok(vec![group(Some(1), "10h", 1, &[23])]));
}

#[test]
fn loss_sequence_of_a_group_that_never_matched_is_999() {
    let mut db = Database::new();
    assert_eq!(get_loss_sequence(&mut db, house()), Ok(vec![]));
    assert_eq!(add_group(&mut db, house(), group(None, "10h", 1, &[23]), 1), Ok(()));
    assert_eq!(
        get_loss_sequence(&mut db, house()),
        Ok(vec![LossSequence {
            hour: "10h".to_string(),
            group: "23".to_string(),
            place: 1,
            loss_sequence: 999,
        }])
    );
    let data = snapshot(vec![draw("1", "01/01/2024", "10h", "22")]);
    let mut sink = Vec::new();
    assert!(save_bicho_data(&mut db, house(), &data, 1, 42, &mut sink).is_ok());
    assert_eq!(get_loss_sequence(&mut db, house()).map(|l| l[0].loss_sequence), Ok(999));
}

#[test]
fn loss_sequence_after_hits_on_days_1_3_5() {
    let mut db = Database::new();
    assert_eq!(add_group(&mut db, house(), group(None, "10h", 1, &[23]), 1), Ok(()));
    let data = snapshot(vec![
        draw("1", "01/01/2024", "10h", "23"),
        draw("1", "03/01/2024", "10h", "23"),
        draw("1", "05/01/2024", "10h", "23"),
    ]);
    let mut sink = Vec::new();
    assert_eq!(
        save_bicho_data(&mut db, house(), &data, 3, 42, &mut sink),
        Ok(IngestResult { inserted: 3, skipped: 0 })
    );
    let expected = |loss_sequence: i32| {
        Ok(vec![LossSequence {
            hour: "10h".to_string(),
            group: "23".to_string(),
            place: 1,
            loss_sequence,
        }])
    };
    assert_eq!(get_loss_sequence(&mut db, house()), expected(0));
    let more = snapshot(vec![
        draw("1", "06/01/2024", "10h", "01"),
        draw("1", "07/01/2024", "10h", "02"),
        draw("2", "08/01/2024", "10h", "02"),
        draw("1", "08/01/2024", "14h", "02"),
        draw("1", "04/01/2024", "10h", "02"),
    ]);
    assert!(save_bicho_data(&mut db, house(), &more, 5, 43, &mut sink).is_ok());
    assert_eq!(get_loss_sequence(&mut db, house()), expected(2));
}

#[test]
fn saving_more_than_the_table_holds_fails_and_keeps_the_table() {
    let mut db = Database::new();
    assert!(matches!(db.attach("A_Zebra", Table::Draws(DrawTable::with_limit(2))), Ok(None)));
    let data = snapshot(vec![
        draw("1", "01/01/2024", "10h", "23"),
        draw("2", "01/01/2024", "10h", "23"),
    ]);
    let mut sink = Vec::new();
    assert_eq!(
        save_bicho_data(&mut db, house(), &data, 2, 42, &mut sink),
        Ok(IngestResult { inserted: 2, skipped: 0 })
    );
    let more = snapshot(vec![
        draw("1", "01/01/2024", "10h", "23"),
        draw("3", "01/01/2024", "10h", "23"),
        draw("4", "01/01/2024", "10h", "23"),
    ]);
    let mut sink = Vec::new();
    assert_eq!(
        save_bicho_data(&mut db, house(), &more, 3, 43, &mut sink),
        Err(Error::Storage(StorageError::TableFull))
    );
    assert_eq!(sink, vec![33]);
    assert_eq!(get_table_info(&mut db, house()), Ok(DatabaseInfo { total_rows: 2, date: Some(42) }));
}
