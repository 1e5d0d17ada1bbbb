use get_bicho::database::{Database, Table};
use get_bicho::date::Date;
use get_bicho::draws::DrawTable;
use get_bicho::error::{Error, ValidationError};
use get_bicho::groups::GroupTable;
use get_bicho::model::DrawRecord;

fn one_draw() -> DrawTable {
    let mut table = DrawTable::new();
    let record = DrawRecord {
        place: 1,
        date: Date { year: 2024, month: 1, day: 1 },
        hour: "10h".to_string(),
        milhar: "1234".to_string(),
        group: "23".to_string(),
        updated_at: 0,
    };
    assert_eq!(table.insert(record), Ok(true));
    table
}

fn draws_len(db: &Database, name: &str) -> Option<usize> {
    match db.table(name) {
        Some(Table::Draws(t)) => Some(t.len()),
        _ => None,
    }
}

fn groups_len(db: &Database, name: &str) -> Option<usize> {
    match db.table(name) {
        Some(Table::Groups(t)) => Some(t.len()),
        _ => None,
    }
}

#[test]
fn a_new_store_has_no_tables() {
    let db = Database::new();
    assert!(!db.contains("a"));
    assert!(db.table("a").is_none());
    assert!(db.names().is_empty());
}

#[test]
fn attach_puts_a_table_under_its_name() {
    let mut db = Database::new();
    assert!(matches!(db.attach("a", Table::Draws(one_draw())), Ok(None)));
    assert!(matches!(db.attach("group_a", Table::Groups(GroupTable::new())), Ok(None)));
    assert!(db.contains("a"));
    assert!(db.contains("group_a"));
    assert!(!db.contains("A"));
    assert_eq!(draws_len(&db, "a"), Some(1));
    assert_eq!(groups_len(&db, "group_a"), Some(0));
    assert_eq!(groups_len(&db, "a"), None);
    assert_eq!(db.names(), vec!["a".to_string(), "group_a".to_string()]);
}

#[test]
fn attach_hands_back_the_table_it_replaces() {
    let mut db = Database::new();
    assert!(matches!(db.attach("a", Table::Draws(one_draw())), Ok(None)));
    match db.attach("a", Table::Draws(DrawTable::new())) {
        Ok(Some(Table::Draws(old))) => assert_eq!(old.len(), 1),
        _ => panic!("the table that was there must come back"),
    }
    assert_eq!(draws_len(&db, "a"), Some(0));
    assert_eq!(db.names().len(), 1);
}

#[test]
fn attach_refuses_a_name_with_other_characters() {
    let mut db = Database::new();
    for name in ["", "a b", "a-b", "a;b", "\"a\""] {
        assert!(matches!(
            db.attach(name, Table::Draws(DrawTable::new())),
            Err(Error::Validation(ValidationError::InvalidHouseName))
        ));
    }
    assert!(db.names().is_empty());
}

#[test]
fn detach_takes_the_table_out() {
    let mut db = Database::new();
    assert!(matches!(db.attach("a", Table::Draws(one_draw())), Ok(None)));
    assert!(matches!(db.attach("b", Table::Draws(DrawTable::new())), Ok(None)));
    assert!(matches!(db.attach("c", Table::Groups(GroupTable::new())), Ok(None)));
    assert!(db.detach("x").is_none());
    match db.detach("a") {
        Some(Table::Draws(t)) => assert_eq!(t.len(), 1),
        _ => panic!("the table of draws must come out"),
    }
    assert!(!db.contains("a"));
    assert!(db.detach("a").is_none());
    assert_eq!(draws_len(&db, "b"), Some(0));
    assert_eq!(groups_len(&db, "c"), Some(0));
    assert_eq!(db.names().len(), 2);
}
