//! The text of a spreadsheet.
use crate::parts::{
    has_one_kind, has_small_parts, is_compound, is_compound_file, is_of_one_kind, parts_fit,
};
use crate::text::texts;
use calamine::Reader;
use calamine::Sheets;
use std::io::Cursor;
use vstd::prelude::*;

verus! {

/// `calamine::Sheets`, a workbook that is open for reading.
#[verifier::external_type_specification]
#[verifier::external_body]
#[verifier::reject_recursive_types(RS)]
pub struct ExSheets<RS>(calamine::Sheets<RS>);

/// How the bytes of a workbook are to be read.
#[derive(Debug, Clone, Copy, PartialEq, Eq, Structural)]
pub enum WorkbookKind {
    /// As an Office Open XML workbook.
    Xlsx,
    /// As whatever kind of workbook they turn out to be.
    Any,
}

/// The bytes that an open workbook was made of, and how they were read.
pub uninterp spec fn workbook_source(workbook: Sheets<Cursor<Vec<u8>>>) -> (Seq<u8>, WorkbookKind);

/// Why bytes cannot be read as an Office Open XML workbook, or nothing.
pub uninterp spec fn xlsx_complaint(bytes: Seq<u8>) -> Option<Seq<char>>;

/// Why bytes cannot be read as any kind of workbook, or nothing.
pub uninterp spec fn any_complaint(bytes: Seq<u8>) -> Option<Seq<char>>;

/// The names of the sheets of a workbook, in its order.
pub uninterp spec fn sheet_names_of(bytes: Seq<u8>, kind: WorkbookKind) -> Seq<Seq<char>>;

/// The cells of a sheet, row by row, as text, or why they cannot be read.
pub uninterp spec fn sheet_rows_of(bytes: Seq<u8>, kind: WorkbookKind, name: Seq<char>) -> Result<
    Seq<Seq<Seq<char>>>,
    Seq<char>,
>;

/// Whether bytes can be handed over as a workbook of a kind: they are no compound file, and
/// the numbers in their parts are small enough. Where the kind is open, they are a workbook
/// of the Office Open XML kind, or else neither a binary workbook nor an open document.
pub open spec fn is_readable(bytes: Seq<u8>, kind: WorkbookKind) -> bool {
    &&& !is_compound(bytes)
    &&& parts_fit(bytes)
    &&& kind is Any ==> xlsx_complaint(bytes) is None || is_of_one_kind(bytes)
}

/// Whether bytes can be handed over as a workbook of a kind.
pub fn can_read(bytes: &Vec<u8>, kind: WorkbookKind) -> (readable: bool)
    ensures
        readable == is_readable(bytes@, kind),
{
    if is_compound_file(bytes) || !has_small_parts(bytes) {
        return false;
    }
    match kind {
        WorkbookKind::Xlsx => true,
        WorkbookKind::Any => {
            if has_one_kind(bytes) {
                return true;
            }
            let copy = bytes.clone();
            proof {
                assert(copy@ =~= bytes@);
            }
            open_xlsx(copy).is_ok()
        },
    }
}

/// Whether opening bytes as a workbook went as it must.
pub open spec fn is_workbook(
    outcome: Result<Sheets<Cursor<Vec<u8>>>, String>,
    bytes: Seq<u8>,
    kind: WorkbookKind,
    complaint: Option<Seq<char>>,
) -> bool {
    match outcome {
        Ok(workbook) => complaint is None && workbook_source(workbook) == (bytes, kind),
        Err(message) => complaint == Some(message@),
    }
}

/// The texts of rows of cells.
pub open spec fn row_texts(rows: Seq<Vec<String>>) -> Seq<Seq<Seq<char>>> {
    rows.map_values(|row: Vec<String>| texts(row@))
}

/// Rows of cells or a message, by their content.
pub open spec fn rows_outcome(outcome: Result<Vec<Vec<String>>, String>) -> Result<
    Seq<Seq<Seq<char>>>,
    Seq<char>,
> {
    match outcome {
        Ok(rows) => Ok(row_texts(rows@)),
        Err(message) => Err(message@),
    }
}

/// `calamine::open_workbook_from_rs` for `calamine::Xlsx` opens an Office Open XML
/// workbook, or complains. The bytes decide which. It is not asked to read compound files,
/// nor numbers that are out of its bounds: with those it may panic.
#[verifier::external_body]
pub(crate) fn open_xlsx(bytes: Vec<u8>) -> (outcome: Result<Sheets<Cursor<Vec<u8>>>, String>)
    requires
        is_readable(bytes@, WorkbookKind::Xlsx),
    ensures
        is_workbook(outcome, bytes@, WorkbookKind::Xlsx, xlsx_complaint(bytes@)),
{
    calamine::open_workbook_from_rs::<calamine::Xlsx<_>, _>(Cursor::new(bytes))
        .map(Sheets::Xlsx)
        .map_err(|error| calamine::Error::Xlsx(error).to_string())
}

/// `calamine::open_workbook_auto_from_rs` opens a workbook of any kind it knows, or
/// complains. The bytes decide which. It is not asked to read compound files, binary
/// workbooks and open documents, nor numbers that are out of its bounds: with those it may
/// panic.
#[verifier::external_body]
pub(crate) fn open_any(bytes: Vec<u8>) -> (outcome: Result<Sheets<Cursor<Vec<u8>>>, String>)
    requires
        is_readable(bytes@, WorkbookKind::Any),
    ensures
        is_workbook(outcome, bytes@, WorkbookKind::Any, any_complaint(bytes@)),
{
    calamine::open_workbook_auto_from_rs(Cursor::new(bytes)).map_err(|error| error.to_string())
}

/// `calamine::Reader::sheet_names` gives the names of the sheets in the workbook's
/// order.
#[verifier::external_body]
pub(crate) fn sheet_names(workbook: &Sheets<Cursor<Vec<u8>>>) -> (names: Vec<String>)
    ensures
        texts(names@) == sheet_names_of(
            workbook_source(*workbook).0,
            workbook_source(*workbook).1,
        ),
{
    workbook.sheet_names()
}

/// `calamine::Reader::worksheet_range` reads a sheet; each cell is put down by its
/// `Display`. The workbook and the name decide the outcome, and the workbook stays as
/// it is. The references in the sheet must fit, for the crate's arithmetic on them is not
/// checked; that there is memory for the rectangle of cells they span is not stated.
#[verifier::external_body]
pub(crate) fn sheet_rows(workbook: &mut Sheets<Cursor<Vec<u8>>>, name: &str) -> (outcome: Result<
    Vec<Vec<String>>,
    String,
>)
    requires
        is_readable(workbook_source(*old(workbook)).0, workbook_source(*old(workbook)).1),
    ensures
        rows_outcome(outcome) == sheet_rows_of(
            workbook_source(*old(workbook)).0,
            workbook_source(*old(workbook)).1,
            name@,
        ),
        workbook_source(*final(workbook)) == workbook_source(*old(workbook)),
{
    let range = workbook.worksheet_range(name).map_err(|error| error.to_string())?;
    Ok(range.rows().map(|row| row.iter().map(ToString::to_string).collect()).collect())
}

} // verus!
