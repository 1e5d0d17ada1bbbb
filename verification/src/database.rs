//! The store: the tables of all houses, each under its name.

use vstd::prelude::*;
use crate::draws::{unique_keys, DrawTable, MAX_ROWS};
use crate::error::{Error, ValidationError};
use crate::groups::{increasing_ids, unique_slots, GroupRow, GroupTable};
use crate::model::DrawRow;
use crate::naming::{check_identifier, is_identifier};

verus! {

/// A table of the store: one of draws or one of groups.
pub enum Table {
    Draws(DrawTable),
    Groups(GroupTable),
}

/// A table of the store as its rows: those of a table of draws, with the
/// number of rows that it holds at most, or those of a table of groups.
pub enum TableView {
    Draws { rows: Seq<DrawRow>, limit: nat },
    Groups(Seq<GroupRow>),
}

impl View for Table {
    type V = TableView;

    open spec fn view(&self) -> TableView {
        match self {
            Table::Draws(t) => TableView::Draws { rows: t@, limit: t.capacity() },
            Table::Groups(t) => TableView::Groups(t@),
        }
    }
}

impl Table {
    /// What holds of every table, whichever kind it is of.
    pub open spec fn wf(&self) -> bool {
        match self {
            Table::Draws(t) => t.wf(),
            Table::Groups(t) => t.wf(),
        }
    }
}

/// What holds of the rows of every table.
pub open spec fn rows_ok(table: TableView) -> bool {
    match table {
        TableView::Draws { rows, limit } => unique_keys(rows) && rows.len() <= limit <= MAX_ROWS,
        TableView::Groups(rows) => increasing_ids(rows) && unique_slots(rows),
    }
}

/// What holds of every store: each table goes by a name made of allowed
/// characters only, and its rows are as the rows of a table must be.
pub open spec fn store_ok(tables: Map<Seq<char>, TableView>) -> bool {
    forall|name: Seq<char>| #[trigger]
        tables.contains_key(name) ==> is_identifier(name) && rows_ok(tables[name])
}

/// Whether `name` is the name at some position of `names`.
pub open spec fn is_listed(names: Seq<String>, name: Seq<char>) -> bool {
    exists|i: int| 0 <= i < names.len() && (#[trigger] names[i])@ == name
}

/// A position of `names` at which `name` stands.
pub open spec fn position(names: Seq<String>, name: Seq<char>) -> int {
    choose|i: int| 0 <= i < names.len() && (#[trigger] names[i])@ == name
}

/// The tables of all houses, by name.
pub struct Database {
    names: Vec<String>,
    tables: Vec<Table>,
}

impl View for Database {
    type V = Map<Seq<char>, TableView>;

    closed spec fn view(&self) -> Map<Seq<char>, TableView> {
        Map::new(
            |name: Seq<char>| is_listed(self.names@, name),
            |name: Seq<char>| self.tables@[position(self.names@, name)]@,
        )
    }
}

impl Database {
    /// What holds of every store as it is laid out in memory: a name for
    /// each table, no name twice, each name made of allowed characters, and
    /// each table as a table must be.
    pub closed spec fn wf(&self) -> bool {
        &&& self.names@.len() == self.tables@.len()
        &&& forall|i: int, j: int|
            0 <= i < j < self.names@.len() ==> (#[trigger] self.names@[i])@ != (
            #[trigger] self.names@[j])@
        &&& forall|i: int| 0 <= i < self.names@.len() ==> is_identifier((#[trigger] self.names@[i])@)
        &&& forall|i: int| 0 <= i < self.tables@.len() ==> (#[trigger] self.tables@[i]).wf()
    }

    /// In a store that is laid out as it must be, the table at position `i`
    /// is the one that the view gives for the name at position `i`.
    proof fn lemma_position(&self, i: int)
        requires
            self.wf(),
            0 <= i < self.names@.len(),
        ensures
            is_listed(self.names@, self.names@[i]@),
            position(self.names@, self.names@[i]@) == i,
            self@.contains_key(self.names@[i]@),
            self@[self.names@[i]@] == self.tables@[i]@,
    {
        let name = self.names@[i]@;
        let k = position(self.names@, name);
        assert(0 <= k < self.names@.len() && self.names@[k]@ == name);
        if k < i {
            assert(self.names@[k]@ != self.names@[i]@);
        }
        if i < k {
            assert(self.names@[i]@ != self.names@[k]@);
        }
    }

    /// A store that is laid out as it must be shows tables that are as they
    /// must be.
    pub proof fn lemma_store_ok(&self)
        requires
            self.wf(),
        ensures
            store_ok(self@),
    {
        assert forall|name: Seq<char>| #[trigger] self@.contains_key(name) implies is_identifier(
            name,
        ) && rows_ok(self@[name]) by {
            let i = position(self.names@, name);
            assert(0 <= i < self.names@.len() && self.names@[i]@ == name);
            self.lemma_position(i);
            assert(self.tables@[i].wf());
        }
    }

    /// A store without tables.
    pub fn new() -> (db: Database)
        ensures
            db.wf(),
            db@ == Map::<Seq<char>, TableView>::empty(),
    {
        let db = Database { names: Vec::new(), tables: Vec::new() };
        assert(db@ =~= Map::<Seq<char>, TableView>::empty());
        db
    }

    /// Where the table `name` stands, if the store has it.
    fn find(&self, name: &String) -> (found: Option<usize>)
        requires
            self.wf(),
        ensures
            match found {
                Some(i) => i < self.names@.len() && self.names@[i as int]@ == name@
                    && self@.contains_key(name@) && self@[name@] == self.tables@[i as int]@,
                None => !self@.contains_key(name@),
            },
    {
        let mut i: usize = 0;
        while i < self.names.len()
            invariant
                i <= self.names.len(),
                self.wf(),
                forall|k: int| 0 <= k < i ==> (#[trigger] self.names@[k])@ != name@,
            decreases self.names.len() - i,
        {
            if self.names[i] == *name {
                proof {
                    self.lemma_position(i as int);
                }
                return Some(i);
            }
            i = i + 1;
        }
        None
    }

    /// Whether the store has a table `name`.
    pub fn contains(&self, name: &str) -> (found: bool)
        requires
            self.wf(),
        ensures
            found == self@.contains_key(name@),
    {
        let name: String = name.to_owned();
        self.find(&name).is_some()
    }

    /// The table `name`, if the store has it.
    pub fn table(&self, name: &str) -> (table: Option<&Table>)
        requires
            self.wf(),
        ensures
            match table {
                Some(t) => self@.contains_key(name@) && self@[name@] == t@ && t.wf(),
                None => !self@.contains_key(name@),
            },
    {
        let name: String = name.to_owned();
        match self.find(&name) {
            Some(i) => Some(&self.tables[i]),
            None => None,
        }
    }

    /// The names of the tables, each once.
    pub fn names(&self) -> (names: Vec<String>)
        requires
            self.wf(),
        ensures
            forall|i: int, j: int|
                0 <= i < j < names@.len() ==> (#[trigger] names@[i])@ != (#[trigger] names@[j])@,
            forall|name: Seq<char>|
                self@.contains_key(name) <==> exists|i: int|
                    0 <= i < names@.len() && (#[trigger] names@[i])@ == name,
    {
        let names = self.names.clone();
        proof {
            assert(names@.len() == self.names@.len());
            assert(forall|i: int| 0 <= i < names@.len() ==> names@[i] == self.names@[i]);
            assert forall|name: Seq<char>| self@.contains_key(name) <==> exists|i: int|
                0 <= i < names@.len() && (#[trigger] names@[i])@ == name by {
                if self@.contains_key(name) {
                    let i = position(self.names@, name);
                    assert(names@[i]@ == name);
                }
                if exists|i: int| 0 <= i < names@.len() && (#[trigger] names@[i])@ == name {
                    let i = choose|i: int| 0 <= i < names@.len() && (#[trigger] names@[i])@ == name;
                    assert(self.names@[i]@ == name);
                }
            }
        }
        names
    }

    /// Puts `table` under `name`, in place of the table that went by that
    /// name if there was one, which comes back. Fails with
    /// `InvalidHouseName`, the store unchanged, where `name` is empty or
    /// holds a character that is not allowed.
    pub fn attach(&mut self, name: &str, table: Table) -> (previous: Result<Option<Table>, Error>)
        requires
            old(self).wf(),
            table.wf(),
        ensures
            final(self).wf(),
            match previous {
                Ok(before) => {
                    &&& is_identifier(name@)
                    &&& final(self)@ == old(self)@.insert(name@, table@)
                    &&& match before {
                        Some(t) => old(self)@.contains_key(name@) && old(self)@[name@] == t@
                            && t.wf(),
                        None => !old(self)@.contains_key(name@),
                    }
                },
                Err(e) => {
                    &&& !is_identifier(name@)
                    &&& e@ == Error::Validation(ValidationError::InvalidHouseName)@
                    &&& final(self)@ == old(self)@
                },
            },
    {
        if !check_identifier(name) {
            return Err(Error::Validation(ValidationError::InvalidHouseName));
        }
        let name: String = name.to_owned();
        let ghost before = *self;
        let ghost shown = table@;
        match self.find(&name) {
            Some(i) => {
                let mut table = table;
                std::mem::swap(&mut self.tables[i], &mut table);
                proof {
                    assert(self.names@ == before.names@);
                    assert forall|k: int| 0 <= k < self.names@.len() implies self@.contains_key(
                        #[trigger] self.names@[k]@,
                    ) && self@[self.names@[k]@] == self.tables@[k]@ by {
                        self.lemma_position(k);
                    }
                    assert forall|n: Seq<char>| #[trigger]
                        before@.insert(name@, shown).contains_key(n) implies self@.contains_key(n)
                        && self@[n] == before@.insert(name@, shown)[n] by {
                        let k = position(before.names@, n);
                        assert(0 <= k < before.names@.len() && before.names@[k]@ == n);
                        before.lemma_position(k);
                        self.lemma_position(k);
                    }
                    assert(self@ =~= before@.insert(name@, shown));
                }
                Ok(Some(table))
            },
            None => {
                self.names.push(name);
                self.tables.push(table);
                proof {
                    let last = before.names@.len() as int;
                    assert forall|i: int, j: int| 0 <= i < j < self.names@.len() implies (
                    #[trigger] self.names@[i])@ != (#[trigger] self.names@[j])@ by {
                        if j == last {
                            assert(self.names@[i] == before.names@[i]);
                            assert(is_listed(before.names@, before.names@[i]@));
                        }
                    }
                    assert forall|n: Seq<char>| #[trigger]
                        before@.insert(name@, shown).contains_key(n) implies self@.contains_key(n)
                        && self@[n] == before@.insert(name@, shown)[n] by {
                        if n == name@ {
                            self.lemma_position(last);
                        } else {
                            let k = position(before.names@, n);
                            assert(0 <= k < before.names@.len() && before.names@[k]@ == n);
                            before.lemma_position(k);
                            self.lemma_position(k);
                        }
                    }
                    assert forall|n: Seq<char>| #[trigger] self@.contains_key(n) implies before@.insert(
                        name@,
                        shown,
                    ).contains_key(n) by {
                        let k = position(self.names@, n);
                        assert(0 <= k < self.names@.len() && self.names@[k]@ == n);
                        if k < last {
                            assert(before.names@[k]@ == n);
                        }
                    }
                    assert(self@ =~= before@.insert(name@, shown));
                }
                Ok(None)
            },
        }
    }

    /// Takes the table `name` out of the store and hands it over, if the
    /// store has it.
    pub fn detach(&mut self, name: &str) -> (table: Option<Table>)
        requires
            old(self).wf(),
        ensures
            final(self).wf(),
            final(self)@ == old(self)@.remove(name@),
            match table {
                Some(t) => old(self)@.contains_key(name@) && old(self)@[name@] == t@ && t.wf(),
                None => !old(self)@.contains_key(name@),
            },
    {
        let name: String = name.to_owned();
        let ghost before = *self;
        match self.find(&name) {
            Some(i) => {
                let gone = self.names.remove(i);
                let table = self.tables.remove(i);
                proof {
                    assert forall|a: int, b: int| 0 <= a < b < self.names@.len() implies (
                    #[trigger] self.names@[a])@ != (#[trigger] self.names@[b])@ by {
                        let x = if a < i { a } else { a + 1 };
                        let y = if b < i { b } else { b + 1 };
                        assert(before.names@[x]@ != before.names@[y]@);
                    }
                    assert forall|a: int| 0 <= a < self.names@.len() implies is_identifier(
                        (#[trigger] self.names@[a])@,
                    ) by {
                        let x = if a < i { a } else { a + 1 };
                        assert(is_identifier(before.names@[x]@));
                    }
                    assert forall|a: int| 0 <= a < self.tables@.len() implies (
                    #[trigger] self.tables@[a]).wf() by {
                        let x = if a < i { a } else { a + 1 };
                        assert(before.tables@[x].wf());
                    }
                    assert forall|n: Seq<char>| #[trigger]
                        before@.remove(name@).contains_key(n) implies self@.contains_key(n)
                        && self@[n] == before@.remove(name@)[n] by {
                        let k = position(before.names@, n);
                        assert(0 <= k < before.names@.len() && before.names@[k]@ == n);
                        before.lemma_position(k);
                        let a = if k < i { k } else { k - 1 };
                        assert(self.names@[a] == before.names@[k]);
                        self.lemma_position(a);
                    }
                    assert forall|n: Seq<char>| #[trigger] self@.contains_key(n) implies before@.remove(
                        name@,
                    ).contains_key(n) by {
                        let a = position(self.names@, n);
                        assert(0 <= a < self.names@.len() && self.names@[a]@ == n);
                        let x = if a < i { a } else { a + 1 };
                        assert(before.names@[x]@ == n);
                        before.lemma_position(x);
                        before.lemma_position(i as int);
                    }
                    assert(self@ =~= before@.remove(name@));
                }
                Some(table)
            },
            None => {
                proof {
                    assert(self@ =~= before@.remove(name@));
                }
                None
            },
        }
    }
}

} // verus!
