//! The failures that the engine reports to its caller.

use vstd::prelude::*;
use crate::text::{decimal_digits, push_decimal, push_str_chars, string_of};

verus! {

/// The caller handed in something malformed.
#[derive(Clone, Copy, Debug, PartialEq, Eq, Structural)]
pub enum ValidationError {
    /// A group to edit carries no id.
    MissingId,
    /// The house name gives no usable table name.
    InvalidHouseName,
}

/// The store could not carry out an operation.
#[derive(Clone, Copy, Debug, PartialEq, Eq, Structural)]
pub enum StorageError {
    /// A table of that name exists with the columns of the other kind.
    SchemaMismatch,
    /// The table cannot hold another row.
    TableFull,
    /// No id is left for a new row.
    IdsExhausted,
    /// A stored number does not fit the type it is read as.
    ValueOutOfRange,
}

/// There was nothing to ingest.
#[derive(Clone, Copy, Debug, PartialEq, Eq, Structural)]
pub enum IngestionError {
    /// The caller asked for zero units of data.
    EmptyRequest,
}

/// A group already exists for this hour and place.
#[derive(Clone, Debug, PartialEq, Eq)]
pub struct DuplicateGroupError {
    pub hour: String,
    pub place: u32,
}

/// No group has this id.
#[derive(Clone, Copy, Debug, PartialEq, Eq, Structural)]
pub struct NotFoundError {
    pub id: u32,
}

/// Any failure of the engine.
#[derive(Clone, Debug, PartialEq, Eq)]
pub enum Error {
    Validation(ValidationError),
    DuplicateGroup(DuplicateGroupError),
    NotFound(NotFoundError),
    Storage(StorageError),
    Ingestion(IngestionError),
}

/// An `Error` with its texts as sequences of characters.
pub enum ErrorView {
    Validation(ValidationError),
    DuplicateGroup { hour: Seq<char>, place: u32 },
    NotFound { id: u32 },
    Storage(StorageError),
    Ingestion(IngestionError),
}

impl View for Error {
    type V = ErrorView;

    open spec fn view(&self) -> ErrorView {
        match self {
            Error::Validation(e) => ErrorView::Validation(*e),
            Error::DuplicateGroup(e) => ErrorView::DuplicateGroup { hour: e.hour@, place: e.place },
            Error::NotFound(e) => ErrorView::NotFound { id: e.id },
            Error::Storage(e) => ErrorView::Storage(*e),
            Error::Ingestion(e) => ErrorView::Ingestion(*e),
        }
    }
}

/// The sentence shown to the user for each failure.
pub open spec fn message_text(e: ErrorView) -> Seq<char> {
    match e {
        ErrorView::Validation(ValidationError::MissingId) => "Erro ao enviar ID"@,
        ErrorView::Validation(ValidationError::InvalidHouseName) => "Nome de casa inválido"@,
        ErrorView::DuplicateGroup { hour, place } => "o grupo das "@ + hour + " horas do "@
            + decimal_digits(place as nat) + "º premio já está cadastrado"@,
        ErrorView::NotFound { id } => "Nenhum grupo encontrado com o id "@ + decimal_digits(
            id as nat,
        ),
        ErrorView::Storage(StorageError::SchemaMismatch) => "a tabela tem outro formato"@,
        ErrorView::Storage(StorageError::TableFull) => "a tabela está cheia"@,
        ErrorView::Storage(StorageError::IdsExhausted) => "não há mais ids disponíveis"@,
        ErrorView::Storage(StorageError::ValueOutOfRange) => "valor fora do intervalo"@,
        ErrorView::Ingestion(IngestionError::EmptyRequest) => "não há atualizações pendentes"@,
    }
}

impl Error {
    /// The sentence shown to the user for this failure.
    pub fn message(&self) -> (text: String)
        ensures
            text@ == message_text(self@),
    {
        match self {
            Error::Validation(ValidationError::MissingId) => "Erro ao enviar ID".to_owned(),
            Error::Validation(ValidationError::InvalidHouseName) => {
                "Nome de casa inválido".to_owned()
            },
            Error::DuplicateGroup(e) => {
                let mut out: Vec<char> = Vec::new();
                push_str_chars(&mut out, "o grupo das ");
                push_str_chars(&mut out, e.hour.as_str());
                push_str_chars(&mut out, " horas do ");
                push_decimal(&mut out, e.place as u64);
                push_str_chars(&mut out, "º premio já está cadastrado");
                string_of(&out)
            },
            Error::NotFound(e) => {
                let mut out: Vec<char> = Vec::new();
                push_str_chars(&mut out, "Nenhum grupo encontrado com o id ");
                push_decimal(&mut out, e.id as u64);
                string_of(&out)
            },
            Error::Storage(StorageError::SchemaMismatch) => "a tabela tem outro formato".to_owned(),
            Error::Storage(StorageError::TableFull) => "a tabela está cheia".to_owned(),
            Error::Storage(StorageError::IdsExhausted) => "não há mais ids disponíveis".to_owned(),
            Error::Storage(StorageError::ValueOutOfRange) => "valor fora do intervalo".to_owned(),
            Error::Ingestion(IngestionError::EmptyRequest) => {
                "não há atualizações pendentes".to_owned()
            },
        }
    }
}

} // verus!
