//! Reference documents: which files are taken, and the text that is taken from them.
use crate::archive::{
    archive_complaint, entry_size, entry_size_of, entry_text, entry_text_of, open_archive,
};
use crate::text::{
    borrowed_text, chars_of, equal_ignoring_case, folded, is_space, join2, join3, join_all, joined,
    law_white_space_parts_words, lemma_run_ends, lemma_run_len, lemma_strip_end, lemma_strip_start,
    lemma_texts_push, lemma_trimmed, line_feed, lines, lines_of, optional_text, run_len, slice_of,
    spaces, string_of, strip_end, strip_start, texts, trim, trim_chars, trimmed,
    without_carriage_return, words, words_of,
};
use crate::workbook::{
    any_complaint, can_read, is_readable, open_any, open_xlsx, row_texts, rows_outcome, sheet_names,
    sheet_names_of, sheet_rows, sheet_rows_of, workbook_source, xlsx_complaint, WorkbookKind,
};
use crate::xml::{document_text, extract_docx_text};
use vstd::prelude::*;

verus! {

/// How large a reference document may be, in bytes.
pub const MAX_FILE_BYTES: u64 = 20_971_520;

/// How much text is taken from a reference document, in characters.
pub const MAX_EXTRACTED_CHARS: usize = 12_000;

/// How large the text part of a word processor's document may be, in bytes.
pub const MAX_XML_BYTES: u64 = 41_943_040;

/// A document that translations may refer to.
#[derive(Debug)]
pub struct ReferenceDocument {
    pub name: String,
    pub content: String,
    pub truncated: bool,
}

/// The content of a reference document.
pub struct ReferenceModel {
    pub name: Seq<char>,
    pub content: Seq<char>,
    pub truncated: bool,
}

impl View for ReferenceDocument {
    type V = ReferenceModel;

    open spec fn view(&self) -> ReferenceModel {
        ReferenceModel { name: self.name@, content: self.content@, truncated: self.truncated }
    }
}

/// Why a file cannot be a reference document.
#[derive(Debug, PartialEq, Eq)]
pub enum DocumentError {
    NotFound(String),
    NotAFile(String),
    UnsupportedFormat,
    FileTooLarge,
    Empty,
    Read(String),
    Parse(String),
}

/// The content of a document error.
pub enum DocumentErrorModel {
    NotFound(Seq<char>),
    NotAFile(Seq<char>),
    UnsupportedFormat,
    FileTooLarge,
    Empty,
    Read(Seq<char>),
    Parse(Seq<char>),
}

impl View for DocumentError {
    type V = DocumentErrorModel;

    open spec fn view(&self) -> DocumentErrorModel {
        match self {
            DocumentError::NotFound(path) => DocumentErrorModel::NotFound(path@),
            DocumentError::NotAFile(path) => DocumentErrorModel::NotAFile(path@),
            DocumentError::UnsupportedFormat => DocumentErrorModel::UnsupportedFormat,
            DocumentError::FileTooLarge => DocumentErrorModel::FileTooLarge,
            DocumentError::Empty => DocumentErrorModel::Empty,
            DocumentError::Read(detail) => DocumentErrorModel::Read(detail@),
            DocumentError::Parse(detail) => DocumentErrorModel::Parse(detail@),
        }
    }
}

impl DocumentErrorModel {
    /// The error as people read it.
    pub open spec fn text(self) -> Seq<char> {
        match self {
            DocumentErrorModel::NotFound(path) => "参考文档不存在："@ + path,
            DocumentErrorModel::NotAFile(path) => "参考文档必须是普通文件："@ + path,
            DocumentErrorModel::UnsupportedFormat => "暂只支持 .txt、.docx 和 .xlsx 参考文档"@,
            DocumentErrorModel::FileTooLarge => "参考文档不能超过 20MB"@,
            DocumentErrorModel::Empty => "参考文档没有可提取的文字"@,
            DocumentErrorModel::Read(detail) => "无法读取参考文档："@ + detail,
            DocumentErrorModel::Parse(detail) => "无法解析参考文档："@ + detail,
        }
    }
}

impl DocumentError {
    /// The error as people read it.
    pub fn message(&self) -> (message: String)
        ensures
            message@ == self@.text(),
    {
        match self {
            DocumentError::NotFound(path) => join2("参考文档不存在：", path.as_str()),
            DocumentError::NotAFile(path) => join2("参考文档必须是普通文件：", path.as_str()),
            DocumentError::UnsupportedFormat => "暂只支持 .txt、.docx 和 .xlsx 参考文档".to_owned(),
            DocumentError::FileTooLarge => "参考文档不能超过 20MB".to_owned(),
            DocumentError::Empty => "参考文档没有可提取的文字".to_owned(),
            DocumentError::Read(detail) => join2("无法读取参考文档：", detail.as_str()),
            DocumentError::Parse(detail) => join2("无法解析参考文档：", detail.as_str()),
        }
    }
}

/// A text or an error, by their content.
pub open spec fn extraction_outcome(outcome: Result<String, DocumentError>) -> Result<
    Seq<char>,
    DocumentErrorModel,
> {
    match outcome {
        Ok(text) => Ok(text@),
        Err(error) => Err(error@),
    }
}

// ---------------------------------------------------------------------------------
// Which file
// ---------------------------------------------------------------------------------

/// The predicate that holds of quotation marks.
pub open spec fn quotes() -> spec_fn(char) -> bool {
    |c: char| c == '"' || c == '\''
}

/// The path that a user asks for: without white space and quotation marks around it.
pub open spec fn path_of(raw: Seq<char>) -> Option<Seq<char>> {
    let path = strip_end(strip_start(trimmed(raw), quotes()), quotes());
    if path.len() == 0 {
        None
    } else {
        Some(path)
    }
}

/// What follows the home directory in a path that begins with it.
pub open spec fn below_home(path: Seq<char>) -> Option<Seq<char>> {
    if path.len() >= 2 && path[0] == '~' && path[1] == '/' {
        Some(path.skip(2))
    } else {
        None
    }
}

/// The path that a user asks for, if they ask for any.
pub fn requested_path(raw: &str) -> (path: Option<String>)
    ensures
        optional_text(path) == path_of(raw@),
{
    let chars = trim_chars(&chars_of(raw));
    let mut start: usize = 0;
    proof {
        assert(chars@.skip(0) == chars@);
    }
    while start < chars.len() && (chars[start] == '"' || chars[start] == '\'')
        invariant
            start <= chars.len(),
            strip_start(chars@.skip(start as int), quotes()) == strip_start(chars@, quotes()),
        decreases chars.len() - start,
    {
        proof {
            assert(chars@.skip(start as int)[0] == chars@[start as int]);
            assert(chars@.skip(start as int).skip(1) == chars@.skip(start + 1));
        }
        start = start + 1;
    }
    let ghost rest = chars@.skip(start as int);
    proof {
        if start < chars.len() {
            assert(rest[0] == chars@[start as int]);
        }
        assert(rest == strip_start(chars@, quotes()));
    }
    let mut end: usize = chars.len();
    proof {
        assert(chars@.subrange(start as int, end as int) == rest);
    }
    while end > start && (chars[end - 1] == '"' || chars[end - 1] == '\'')
        invariant
            start <= end <= chars.len(),
            strip_end(chars@.subrange(start as int, end as int), quotes()) == strip_end(
                rest,
                quotes(),
            ),
        decreases end,
    {
        proof {
            let here = chars@.subrange(start as int, end as int);
            assert(here.last() == chars@[end - 1]);
            assert(here.drop_last() == chars@.subrange(start as int, end - 1));
        }
        end = end - 1;
    }
    proof {
        if end > start {
            assert(chars@.subrange(start as int, end as int).last() == chars@[end - 1]);
        }
    }
    let path = slice_of(&chars, start, end);
    if path.len() == 0 {
        None
    } else {
        Some(string_of(&path))
    }
}

/// What follows the home directory in a path that begins with it.
pub fn home_relative(path: &str) -> (rest: Option<String>)
    ensures
        optional_text(rest) == below_home(path@),
{
    let chars = chars_of(path);
    if chars.len() >= 2 && chars[0] == '~' && chars[1] == '/' {
        let rest = slice_of(&chars, 2, chars.len());
        proof {
            assert(rest@ == path@.skip(2));
        }
        Some(string_of(&rest))
    } else {
        None
    }
}

/// What the file system says of a path.
#[derive(Debug, Clone, Copy, PartialEq, Eq, Structural)]
pub enum FileFacts {
    /// There is nothing there, or it cannot be looked at.
    Missing,
    /// There is something that is no regular file.
    NotAFile,
    /// There is a regular file of so many bytes.
    File(u64),
}

/// The kinds of reference documents.
#[derive(Debug, Clone, Copy, PartialEq, Eq, Structural)]
pub enum DocumentFormat {
    Text,
    Docx,
    Xlsx,
}

/// The kind of document that a file name's extension stands for, ASCII case aside.
pub open spec fn format_of(extension: Option<Seq<char>>) -> Option<DocumentFormat> {
    match extension {
        None => None,
        Some(text) => {
            if folded(text) == folded("txt"@) {
                Some(DocumentFormat::Text)
            } else if folded(text) == folded("docx"@) {
                Some(DocumentFormat::Docx)
            } else if folded(text) == folded("xlsx"@) {
                Some(DocumentFormat::Xlsx)
            } else {
                None
            }
        },
    }
}

/// Whether a file can be a reference document, and of which kind.
pub open spec fn accepted(shown: Seq<char>, facts: FileFacts, extension: Option<Seq<char>>) -> Result<
    DocumentFormat,
    DocumentErrorModel,
> {
    match facts {
        FileFacts::Missing => Err(DocumentErrorModel::NotFound(shown)),
        FileFacts::NotAFile => Err(DocumentErrorModel::NotAFile(shown)),
        FileFacts::File(length) => if length > MAX_FILE_BYTES {
            Err(DocumentErrorModel::FileTooLarge)
        } else {
            match format_of(extension) {
                Some(format) => Ok(format),
                None => Err(DocumentErrorModel::UnsupportedFormat),
            }
        },
    }
}

/// Checks that a file can be a reference document, and says of which kind. `shown` is
/// the path as it is shown to people, `extension` that of its file name.
pub fn validate_reference_path(shown: &str, facts: FileFacts, extension: Option<&str>) -> (outcome:
    Result<DocumentFormat, DocumentError>)
    ensures
        match outcome {
            Ok(format) => accepted(shown@, facts, borrowed_text(extension)) matches Ok(expected)
                && format == expected,
            Err(error) => accepted(shown@, facts, borrowed_text(extension)) matches Err(expected)
                && error@ == expected,
        },
{
    match facts {
        FileFacts::Missing => Err(DocumentError::NotFound(shown.to_owned())),
        FileFacts::NotAFile => Err(DocumentError::NotAFile(shown.to_owned())),
        FileFacts::File(length) => {
            if length > MAX_FILE_BYTES {
                return Err(DocumentError::FileTooLarge);
            }
            match extension {
                None => Err(DocumentError::UnsupportedFormat),
                Some(text) => {
                    if equal_ignoring_case(text, "txt") {
                        Ok(DocumentFormat::Text)
                    } else if equal_ignoring_case(text, "docx") {
                        Ok(DocumentFormat::Docx)
                    } else if equal_ignoring_case(text, "xlsx") {
                        Ok(DocumentFormat::Xlsx)
                    } else {
                        Err(DocumentError::UnsupportedFormat)
                    }
                },
            }
        },
    }
}

// ---------------------------------------------------------------------------------
// What is taken from a file
// ---------------------------------------------------------------------------------

/// The text of a word processor's document, or why there is none.
pub open spec fn docx_content(bytes: Seq<u8>) -> Result<Seq<char>, DocumentErrorModel> {
    match archive_complaint(bytes) {
        Some(detail) => Err(DocumentErrorModel::Parse("DOCX ZIP："@ + detail)),
        None => match entry_size_of(bytes, "word/document.xml"@) {
            Err(detail) => Err(
                DocumentErrorModel::Parse("缺少 word/document.xml："@ + detail),
            ),
            Ok(size) => if size > MAX_XML_BYTES {
                Err(DocumentErrorModel::FileTooLarge)
            } else {
                match entry_text_of(bytes, "word/document.xml"@, (MAX_XML_BYTES + 1) as u64) {
                    Err(detail) => Err(DocumentErrorModel::Read(detail)),
                    Ok(xml) => match document_text(xml) {
                        Err(detail) => Err(DocumentErrorModel::Parse(detail)),
                        Ok(text) => Ok(text),
                    },
                }
            },
        },
    }
}

/// The text of a word processor's document, or why there is none.
pub fn read_docx(bytes: Vec<u8>) -> (outcome: Result<String, DocumentError>)
    ensures
        extraction_outcome(outcome) == docx_content(bytes@),
{
    let mut archive = match open_archive(bytes) {
        Ok(archive) => archive,
        Err(detail) => {
            return Err(DocumentError::Parse(join2("DOCX ZIP：", detail.as_str())));
        },
    };
    match entry_size(&mut archive, "word/document.xml") {
        Ok(size) => {
            if size > MAX_XML_BYTES {
                return Err(DocumentError::FileTooLarge);
            }
        },
        Err(detail) => {
            return Err(
                DocumentError::Parse(join2("缺少 word/document.xml：", detail.as_str())),
            );
        },
    }
    match entry_text(&mut archive, "word/document.xml", MAX_XML_BYTES + 1) {
        Ok(xml) => match extract_docx_text(xml.as_str()) {
            Ok(text) => Ok(text),
            Err(detail) => Err(DocumentError::Parse(detail)),
        },
        Err(detail) => Err(DocumentError::Read(detail)),
    }
}

/// The cells of a row that hold any text.
pub open spec fn filled_cells(row: Seq<Seq<char>>) -> Seq<Seq<char>>
    decreases row.len(),
{
    if row.len() == 0 {
        Seq::empty()
    } else if trimmed(row.last()).len() > 0 {
        filled_cells(row.drop_last()).push(row.last())
    } else {
        filled_cells(row.drop_last())
    }
}

/// A row as a line: its filled cells with tabs between. A row without any is no line.
pub open spec fn row_line(row: Seq<Seq<char>>) -> Seq<char> {
    if filled_cells(row).len() == 0 {
        Seq::empty()
    } else {
        joined(filled_cells(row), "\t"@).push('\n')
    }
}

/// The text with the lines of rows behind it, up to the row with which it is long
/// enough.
pub open spec fn with_rows(output: Seq<char>, rows: Seq<Seq<Seq<char>>>) -> Seq<char>
    decreases rows.len(),
{
    if rows.len() == 0 {
        output
    } else {
        let next = output + row_line(rows[0]);
        if next.len() >= MAX_EXTRACTED_CHARS {
            next
        } else {
            with_rows(next, rows.skip(1))
        }
    }
}

/// The line that stands before the rows of a sheet.
pub open spec fn sheet_heading(name: Seq<char>) -> Seq<char> {
    "[工作表："@ + name + "]\n"@
}

/// The text with a sheet behind it, or why the sheet cannot be read.
pub open spec fn with_sheet(
    output: Seq<char>,
    name: Seq<char>,
    rows: Result<Seq<Seq<Seq<char>>>, Seq<char>>,
) -> Result<Seq<char>, DocumentErrorModel> {
    match rows {
        Err(detail) => Err(DocumentErrorModel::Parse("工作表 "@ + name + "："@ + detail)),
        Ok(rows) => Ok(with_rows(output + sheet_heading(name), rows)),
    }
}

/// The text with the sheets of a workbook behind it, up to the sheet with which it is
/// long enough, or why a sheet cannot be read.
pub open spec fn with_sheets(
    output: Seq<char>,
    names: Seq<Seq<char>>,
    bytes: Seq<u8>,
    kind: WorkbookKind,
) -> Result<Seq<char>, DocumentErrorModel>
    decreases names.len(),
{
    if names.len() == 0 || output.len() >= MAX_EXTRACTED_CHARS {
        Ok(output)
    } else {
        match with_sheet(output, names[0], sheet_rows_of(bytes, kind, names[0])) {
            Err(error) => Err(error),
            Ok(longer) => with_sheets(longer, names.skip(1), bytes, kind),
        }
    }
}

/// Why bytes cannot be read as a workbook of a kind, or nothing.
pub open spec fn workbook_complaint(bytes: Seq<u8>, kind: WorkbookKind) -> Option<Seq<char>> {
    match kind {
        WorkbookKind::Xlsx => xlsx_complaint(bytes),
        WorkbookKind::Any => any_complaint(bytes),
    }
}

/// That a workbook cannot be opened.
pub open spec fn unopened(detail: Seq<char>) -> DocumentErrorModel {
    DocumentErrorModel::Parse("XLSX："@ + detail)
}

/// The error that a workbook cannot be opened.
pub fn opening_error(detail: &str) -> (error: DocumentError)
    ensures
        error@ == unopened(detail@),
{
    DocumentError::Parse(join2("XLSX：", detail))
}

/// The text of a workbook, or why there is none.
pub open spec fn xlsx_content(bytes: Seq<u8>, kind: WorkbookKind) -> Result<
    Seq<char>,
    DocumentErrorModel,
> {
    match workbook_complaint(bytes, kind) {
        Some(detail) => Err(unopened(detail)),
        None => with_sheets(Seq::empty(), sheet_names_of(bytes, kind), bytes, kind),
    }
}

/// The cells of a row that hold any text.
fn keep_filled(row: &Vec<String>) -> (filled: Vec<String>)
    ensures
        texts(filled@) == filled_cells(texts(row@)),
{
    let mut filled: Vec<String> = Vec::new();
    let mut i: usize = 0;
    proof {
        assert(texts(row@).take(0) =~= Seq::empty());
        assert(texts(filled@) =~= Seq::empty());
    }
    while i < row.len()
        invariant
            i <= row.len(),
            texts(filled@) == filled_cells(texts(row@).take(i as int)),
        decreases row.len() - i,
    {
        proof {
            let next = texts(row@).take(i + 1);
            assert(next.drop_last() =~= texts(row@).take(i as int));
            assert(next.last() == row@[i as int]@);
        }
        if !trim(row[i].as_str()).as_str().is_empty() {
            let cell = row[i].clone();
            proof {
                lemma_texts_push(filled@, cell);
            }
            filled.push(cell);
        }
        i = i + 1;
    }
    proof {
        assert(texts(row@).take(row@.len() as int) =~= texts(row@));
    }
    filled
}

/// Puts the lines of rows behind a text, up to the row with which it is long enough.
pub fn append_rows(output: &mut String, rows: &Vec<Vec<String>>)
    ensures
        final(output)@ == with_rows(old(output)@, row_texts(rows@)),
{
    let ghost all = row_texts(rows@);
    let mut i: usize = 0;
    proof {
        assert(all.skip(0) =~= all);
    }
    while i < rows.len()
        invariant
            i <= rows.len(),
            all == row_texts(rows@),
            with_rows(output@, all.skip(i as int)) == with_rows(old(output)@, all),
        decreases rows.len() - i,
    {
        let filled = keep_filled(&rows[i]);
        proof {
            assert(all.skip(i as int)[0] == texts(rows@[i as int]@));
            assert(all.skip(i as int).skip(1) =~= all.skip(i + 1));
            assert(output@ + Seq::<char>::empty() =~= output@);
        }
        if filled.len() > 0 {
            let ghost before = output@;
            let line = join_all(&filled, "\t");
            output.append(line.as_str());
            output.push('\n');
            proof {
                assert(output@ =~= before + line@.push('\n'));
            }
        }
        if chars_of(output.as_str()).len() >= MAX_EXTRACTED_CHARS {
            return;
        }
        i = i + 1;
    }
}

/// The text of a workbook as its sheets come in.
#[derive(Debug)]
pub struct SheetText {
    text: String,
}

impl View for SheetText {
    type V = Seq<char>;

    closed spec fn view(&self) -> Seq<char> {
        self.text@
    }
}

impl SheetText {
    /// No text.
    pub fn new() -> (sheets: Self)
        ensures
            sheets@ == Seq::<char>::empty(),
    {
        let text = String::new();
        proof {
            assert(text@ =~= Seq::empty());
        }
        SheetText { text }
    }

    /// Whether the text is long enough, so that no more sheets are read.
    pub fn is_full(&self) -> (full: bool)
        ensures
            full == (self@.len() >= MAX_EXTRACTED_CHARS),
    {
        chars_of(self.text.as_str()).len() >= MAX_EXTRACTED_CHARS
    }

    /// Takes the next sheet, or why it cannot be read.
    pub fn take_sheet(&mut self, name: &str, rows: Result<Vec<Vec<String>>, String>) -> (outcome:
        Result<(), DocumentError>)
        ensures
            match with_sheet(old(self)@, name@, rows_outcome(rows)) {
                Ok(text) => outcome is Ok && final(self)@ == text,
                Err(expected) => outcome matches Err(error) && error@ == expected && final(self)@
                    == old(self)@,
            },
    {
        match rows {
            Err(detail) => {
                let head = join3("工作表 ", name, "：");
                Err(DocumentError::Parse(join2(head.as_str(), detail.as_str())))
            },
            Ok(rows) => {
                let heading = join3("[工作表：", name, "]\n");
                self.text.append(heading.as_str());
                append_rows(&mut self.text, &rows);
                Ok(())
            },
        }
    }

    /// The text of the sheets that came in.
    pub fn into_text(self) -> (text: String)
        ensures
            text@ == self@,
    {
        self.text
    }
}

/// The text of a workbook, or why there is none.
pub fn read_xlsx(bytes: Vec<u8>, kind: WorkbookKind) -> (outcome: Result<String, DocumentError>)
    requires
        is_readable(bytes@, kind),
    ensures
        extraction_outcome(outcome) == xlsx_content(bytes@, kind),
{
    let ghost source = bytes@;
    let opened = match kind {
        WorkbookKind::Xlsx => open_xlsx(bytes),
        WorkbookKind::Any => open_any(bytes),
    };
    let mut workbook = match opened {
        Ok(workbook) => workbook,
        Err(detail) => {
            return Err(opening_error(detail.as_str()));
        },
    };
    let names = sheet_names(&workbook);
    let ghost all = texts(names@);
    let mut output = SheetText::new();
    let mut i: usize = 0;
    proof {
        assert(all.skip(0) =~= all);
    }
    while i < names.len()
        invariant
            i <= names.len(),
            all == texts(names@),
            source == bytes@,
            is_readable(source, kind),
            workbook_source(workbook) == (source, kind),
            with_sheets(output@, all.skip(i as int), source, kind) == xlsx_content(source, kind),
        decreases names.len() - i,
    {
        proof {
            assert(all.skip(i as int)[0] == names@[i as int]@);
            assert(all.skip(i as int).skip(1) =~= all.skip(i + 1));
        }
        if output.is_full() {
            return Ok(output.into_text());
        }
        let name = names[i].as_str();
        let rows = sheet_rows(&mut workbook, name);
        if let Err(error) = output.take_sheet(name, rows) {
            return Err(error);
        }
        i = i + 1;
    }
    Ok(output.into_text())
}

/// The lines of a text, each with single spaces between its words, and without the
/// empty ones.
pub open spec fn tidy_lines(lines: Seq<Seq<char>>) -> Seq<Seq<char>>
    decreases lines.len(),
{
    if lines.len() == 0 {
        Seq::empty()
    } else {
        let line = joined(words(lines.last()), " "@);
        if line.len() > 0 {
            tidy_lines(lines.drop_last()).push(line)
        } else {
            tidy_lines(lines.drop_last())
        }
    }
}

/// A text with single spaces between words and without empty lines.
pub open spec fn tidy(text: Seq<char>) -> Seq<char> {
    joined(tidy_lines(lines(text)), "\n"@)
}

/// A text with single spaces between words and without empty lines.
pub fn normalize_whitespace(input: &str) -> (text: String)
    ensures
        text@ == tidy(input@),
{
    let found = lines_of(input);
    let ghost all = texts(found@);
    let mut kept: Vec<String> = Vec::new();
    let mut i: usize = 0;
    proof {
        assert(all.take(0) =~= Seq::empty());
        assert(texts(kept@) =~= Seq::empty());
    }
    while i < found.len()
        invariant
            i <= found.len(),
            all == texts(found@),
            texts(kept@) == tidy_lines(all.take(i as int)),
        decreases found.len() - i,
    {
        let line = join_all(&words_of(found[i].as_str()), " ");
        proof {
            assert(all.take(i + 1).drop_last() =~= all.take(i as int));
            assert(all.take(i + 1).last() == found@[i as int]@);
        }
        if !line.as_str().is_empty() {
            proof {
                lemma_texts_push(kept@, line);
            }
            kept.push(line);
        }
        i = i + 1;
    }
    proof {
        assert(all.take(all.len() as int) =~= all);
    }
    join_all(&kept, "\n")
}

/// At most `limit` characters of a text, with a note where there were more, and whether
/// there were.
pub open spec fn shortened(text: Seq<char>, limit: nat) -> (Seq<char>, bool) {
    if text.len() <= limit {
        (text, false)
    } else {
        (text.take(limit as int) + "\n[内容已截断]"@, true)
    }
}

/// At most `limit` characters of a text, with a note where there were more, and whether
/// there were.
pub fn truncate_chars(input: &str, limit: usize) -> (outcome: (String, bool))
    ensures
        (outcome.0@, outcome.1) == shortened(input@, limit as nat),
{
    let chars = chars_of(input);
    if chars.len() <= limit {
        return (input.to_owned(), false);
    }
    let head = slice_of(&chars, 0, limit);
    proof {
        assert(head@ == input@.take(limit as int));
    }
    (join2(string_of(&head).as_str(), "\n[内容已截断]"), true)
}

/// A file that was read.
#[derive(Debug)]
pub enum ReferenceFile {
    /// A text file.
    Text(String),
    /// A word processor's document.
    Docx(Vec<u8>),
    /// A workbook.
    Xlsx(Vec<u8>, WorkbookKind),
}

impl ReferenceFile {
    /// Whether the file can be handed over to what reads it.
    pub open spec fn can_be_loaded(self) -> bool {
        self matches ReferenceFile::Xlsx(bytes, kind) ==> is_readable(bytes@, kind)
    }

    /// The text in the file, or why there is none.
    pub open spec fn content(self) -> Result<Seq<char>, DocumentErrorModel> {
        match self {
            ReferenceFile::Text(text) => Ok(text@),
            ReferenceFile::Docx(bytes) => docx_content(bytes@),
            ReferenceFile::Xlsx(bytes, kind) => xlsx_content(bytes@, kind),
        }
    }
}

/// The reference document that an extracted text makes under a file name.
pub open spec fn document_of(name: Option<Seq<char>>, extracted: Seq<char>) -> Result<
    ReferenceModel,
    DocumentErrorModel,
> {
    if tidy(extracted).len() == 0 {
        Err(DocumentErrorModel::Empty)
    } else {
        let (content, truncated) = shortened(tidy(extracted), MAX_EXTRACTED_CHARS as nat);
        Ok(
            ReferenceModel {
                name: match name {
                    Some(text) => text,
                    None => "参考文档"@,
                },
                content,
                truncated,
            },
        )
    }
}

/// A reference document or an error, by their content.
pub open spec fn document_outcome(outcome: Result<ReferenceDocument, DocumentError>) -> Result<
    ReferenceModel,
    DocumentErrorModel,
> {
    match outcome {
        Ok(document) => Ok(document@),
        Err(error) => Err(error@),
    }
}

/// The reference document that an extracted text makes under a file name.
pub fn reference_from(name: Option<&str>, extracted: &str) -> (outcome: Result<
    ReferenceDocument,
    DocumentError,
>)
    ensures
        document_outcome(outcome) == document_of(borrowed_text(name), extracted@),
{
    let normalized = normalize_whitespace(extracted);
    if normalized.as_str().is_empty() {
        return Err(DocumentError::Empty);
    }
    let (content, truncated) = truncate_chars(normalized.as_str(), MAX_EXTRACTED_CHARS);
    let name = match name {
        Some(text) => text.to_owned(),
        None => "参考文档".to_owned(),
    };
    Ok(ReferenceDocument { name, content, truncated })
}

/// The reference document that a file makes under a name, or why it makes none.
pub open spec fn loaded(name: Option<Seq<char>>, file: ReferenceFile) -> Result<
    ReferenceModel,
    DocumentErrorModel,
> {
    match file.content() {
        Ok(extracted) => document_of(name, extracted),
        Err(error) => Err(error),
    }
}

/// The reference document that a file makes under its name, or why it makes none. Or the
/// file, where it is a workbook that cannot be handed over as it is: its sheets may still
/// be read elsewhere, and taken one by one.
pub fn try_load_reference_document(name: Option<&str>, file: ReferenceFile) -> (outcome: Result<
    Result<ReferenceDocument, DocumentError>,
    ReferenceFile,
>)
    ensures
        match outcome {
            Ok(outcome) => file.can_be_loaded() && document_outcome(outcome) == loaded(
                borrowed_text(name),
                file,
            ),
            Err(back) => !file.can_be_loaded() && back == file,
        },
{
    let can_be_loaded = match &file {
        ReferenceFile::Xlsx(bytes, kind) => can_read(bytes, *kind),
        _ => true,
    };
    if can_be_loaded {
        Ok(load_reference_document(name, file))
    } else {
        Err(file)
    }
}

/// The reference document that a file makes under its name, or why it makes none.
pub fn load_reference_document(name: Option<&str>, file: ReferenceFile) -> (outcome: Result<
    ReferenceDocument,
    DocumentError,
>)
    requires
        file.can_be_loaded(),
    ensures
        document_outcome(outcome) == loaded(borrowed_text(name), file),
{
    let extracted = match file {
        ReferenceFile::Text(text) => Ok(text),
        ReferenceFile::Docx(bytes) => read_docx(bytes),
        ReferenceFile::Xlsx(bytes, kind) => read_xlsx(bytes, kind),
    };
    match extracted {
        Ok(text) => reference_from(name, text.as_str()),
        Err(error) => Err(error),
    }
}

/// What a language model is told as background: the text that was given for it, and the
/// content of the document behind that, with as many characters as are taken from a
/// document. There is none where both are blank.
pub open spec fn background_of(direct: Seq<char>, document: Option<Seq<char>>) -> Option<Seq<char>> {
    let given = trimmed(direct);
    let extracted = match document {
        Some(content) => trimmed(content),
        None => Seq::empty(),
    };
    let whole = if given.len() == 0 {
        extracted
    } else if extracted.len() == 0 {
        given
    } else {
        given + "\n"@ + extracted
    };
    if whole.len() == 0 {
        None
    } else {
        Some(shortened(whole, MAX_EXTRACTED_CHARS as nat).0)
    }
}

/// What a language model is told as background.
pub fn background(direct: &str, document: Option<&str>) -> (text: Option<String>)
    ensures
        optional_text(text) == background_of(direct@, borrowed_text(document)),
{
    let given = trim(direct);
    let extracted = match document {
        Some(content) => trim(content),
        None => String::new(),
    };
    let whole = if given.as_str().is_empty() {
        extracted
    } else if extracted.as_str().is_empty() {
        given
    } else {
        join3(given.as_str(), "\n", extracted.as_str())
    };
    if whole.as_str().is_empty() {
        return None;
    }
    let (text, _) = truncate_chars(whole.as_str(), MAX_EXTRACTED_CHARS);
    Some(text)
}

// ---------------------------------------------------------------------------------
// Laws
// ---------------------------------------------------------------------------------

/// The given text and the document together keep no more than the characters that are taken
/// from a document and the note that there were more, and the given text comes first: the
/// document gets what it leaves.
pub proof fn law_given_text_comes_first(direct: Seq<char>, document: Option<Seq<char>>)
    ensures
        background_of(direct, document) matches Some(text) ==> {
            let given = trimmed(direct);
            &&& 0 < text.len() <= MAX_EXTRACTED_CHARS + "\n[内容已截断]"@.len()
            &&& given.len() <= MAX_EXTRACTED_CHARS ==> given.is_prefix_of(text)
            &&& given.len() > MAX_EXTRACTED_CHARS ==> text == shortened(
                given,
                MAX_EXTRACTED_CHARS as nat,
            ).0
        },
        background_of(direct, document) is None <==> trimmed(direct).len() == 0 && (
        document matches Some(content) ==> trimmed(content).len() == 0),
{
    if let Some(text) = background_of(direct, document) {
        let given = trimmed(direct);
        let extracted = match document {
            Some(content) => trimmed(content),
            None => Seq::empty(),
        };
        if given.len() > 0 && extracted.len() > 0 {
            let whole = given + "\n"@ + extracted;
            if given.len() <= MAX_EXTRACTED_CHARS {
                assert(text.subrange(0, given.len() as int) =~= given);
            } else {
                assert(whole.take(MAX_EXTRACTED_CHARS as int) =~= given.take(
                    MAX_EXTRACTED_CHARS as int,
                ));
            }
        } else if given.len() <= MAX_EXTRACTED_CHARS {
            assert(text.subrange(0, given.len() as int) =~= given);
        }
    }
}

/// A reference document is never empty, and holds no more than the characters that are
/// taken from a file and the note that there were more.
pub proof fn law_document_is_short_and_not_empty(name: Option<Seq<char>>, extracted: Seq<char>)
    ensures
        document_of(name, extracted) matches Ok(document) ==> {
            &&& document.content.len() > 0
            &&& document.truncated == (tidy(extracted).len() > MAX_EXTRACTED_CHARS)
            &&& !document.truncated ==> document.content == tidy(extracted)
                && document.content.len() <= MAX_EXTRACTED_CHARS
            &&& document.truncated ==> document.content.len() == MAX_EXTRACTED_CHARS
                + "\n[内容已截断]"@.len()
            &&& document.truncated ==> tidy(extracted).take(
                MAX_EXTRACTED_CHARS as int,
            ).is_prefix_of(document.content)
        },
{
    if let Ok(document) = document_of(name, extracted) {
        if document.truncated {
            let kept = tidy(extracted).take(MAX_EXTRACTED_CHARS as int);
            assert(document.content.subrange(0, kept.len() as int) =~= kept);
        }
    }
}

/// A file that is missing, no regular file, too large or of an unknown kind is refused,
/// whatever it holds; any other is taken.
pub proof fn law_only_known_small_files_are_accepted(
    shown: Seq<char>,
    facts: FileFacts,
    extension: Option<Seq<char>>,
)
    ensures
        accepted(shown, facts, extension) is Ok <==> (facts matches FileFacts::File(length)
            && length <= MAX_FILE_BYTES && format_of(extension) is Some),
{
}

/// The rows of a sheet only add to the end of the text.
pub proof fn law_rows_are_appended(output: Seq<char>, rows: Seq<Seq<Seq<char>>>)
    ensures
        output.is_prefix_of(with_rows(output, rows)),
    decreases rows.len(),
{
    if rows.len() == 0 {
        assert(output.subrange(0, output.len() as int) =~= output);
    } else {
        let next = output + row_line(rows[0]);
        if next.len() >= MAX_EXTRACTED_CHARS {
            assert(next.subrange(0, output.len() as int) =~= output);
        } else {
            law_rows_are_appended(next, rows.skip(1));
            let whole = with_rows(output, rows);
            assert(whole.subrange(0, output.len() as int) =~= whole.subrange(
                0,
                next.len() as int,
            ).subrange(0, output.len() as int));
            assert(next.subrange(0, output.len() as int) =~= output);
        }
    }
}

/// Whether a text is one word: it says something, and without white space.
pub open spec fn is_word(text: Seq<char>) -> bool {
    text.len() > 0 && forall|i: int| 0 <= i < text.len() ==> !is_space(#[trigger] text[i])
}

/// Whether a text is a tidy line: words with single spaces between them.
pub open spec fn is_tidy_line(line: Seq<char>) -> bool {
    &&& line.len() > 0
    &&& joined(words(line), " "@) == line
    &&& forall|i: int| 0 <= i < line.len() ==> #[trigger] line[i] != '\n'
    &&& !is_space(line.last())
}

/// The words of a text are words.
proof fn lemma_words_are_words(text: Seq<char>)
    ensures
        forall|i: int| 0 <= i < words(text).len() ==> is_word(#[trigger] words(text)[i]),
    decreases text.len(),
{
    let rest = strip_start(text, spaces());
    lemma_strip_start(text, spaces());
    if rest.len() > 0 {
        let n = run_len(rest, spaces()) as int;
        lemma_run_len(rest, spaces());
        assert(!spaces()(rest[0]));
        lemma_words_are_words(rest.skip(n));
        let first = rest.take(n);
        assert forall|i: int| 0 <= i < first.len() implies !is_space(#[trigger] first[i]) by {
            assert(!spaces()(rest[i]));
        }
        assert forall|i: int| 0 <= i < words(text).len() implies is_word(
            #[trigger] words(text)[i],
        ) by {
            if i > 0 {
                assert(words(text)[i] == words(rest.skip(n))[i - 1]);
            }
        }
    }
}

/// What is joined begins with the first part.
proof fn lemma_joined_from_the_front(parts: Seq<Seq<char>>, separator: Seq<char>)
    requires
        parts.len() > 1,
    ensures
        joined(parts, separator) == parts[0] + separator + joined(parts.skip(1), separator),
    decreases parts.len(),
{
    let tail = parts.skip(1);
    if parts.len() == 2 {
        assert(joined(parts.drop_last(), separator) == parts[0]);
        assert(joined(tail, separator) == parts[1]);
    } else {
        lemma_joined_from_the_front(parts.drop_last(), separator);
        assert(parts.drop_last().skip(1) =~= tail.drop_last());
        assert(joined(parts, separator) =~= parts[0] + separator + (joined(
            tail.drop_last(),
            separator,
        ) + separator + tail.last()));
    }
}

/// The words of words with single spaces between them are those words.
proof fn lemma_joined_words(parts: Seq<Seq<char>>)
    requires
        forall|i: int| 0 <= i < parts.len() ==> is_word(#[trigger] parts[i]),
    ensures
        words(joined(parts, " "@)) == parts,
        parts.len() > 0 ==> joined(parts, " "@).len() > 0 && !is_space(joined(parts, " "@)[0])
            && !is_space(joined(parts, " "@).last()),
        forall|i: int|
            0 <= i < joined(parts, " "@).len() ==> (#[trigger] joined(parts, " "@)[i] == ' '
                || !is_space(joined(parts, " "@)[i])),
    decreases parts.len(),
{
    reveal_strlit(" ");
    let text = joined(parts, " "@);
    if parts.len() == 0 {
        assert(words(text) =~= parts);
    } else {
        let word = parts[0];
        let tail = parts.skip(1);
        assert(is_word(word));
        if parts.len() > 1 {
            assert forall|i: int| 0 <= i < tail.len() implies is_word(#[trigger] tail[i]) by {
                assert(tail[i] == parts[i + 1]);
            }
            lemma_joined_from_the_front(parts, " "@);
            lemma_joined_words(tail);
        }
        assert(text.take(word.len() as int) =~= word);
        assert(text[0] == word[0]);
        assert(!spaces()(text[0]));
        assert forall|i: int| 0 <= i < word.len() implies !#[trigger] spaces()(text[i]) by {
            assert(text[i] == word[i]);
        }
        if parts.len() > 1 {
            assert(text[word.len() as int] == ' ');
            lemma_run_ends(text, spaces(), word.len());
            let rest = text.skip(word.len() as int);
            assert(rest.skip(1) =~= joined(tail, " "@));
            assert(rest[0] == ' ' && spaces()(rest[0]));
            assert(strip_start(rest, spaces()) == strip_start(rest.skip(1), spaces()));
            assert(words(rest) == words(rest.skip(1)));
            assert(words(text) =~= seq![word] + tail);
            assert(text.last() == joined(tail, " "@).last());
            assert forall|i: int| 0 <= i < text.len() implies (#[trigger] text[i] == ' '
                || !is_space(text[i])) by {
                if i < word.len() {
                    assert(text[i] == word[i]);
                } else if i > word.len() {
                    assert(text[i] == joined(tail, " "@)[i - word.len() - 1]);
                }
            }
        } else {
            assert(text == word);
            lemma_run_ends(text, spaces(), word.len());
            assert(text.skip(word.len() as int) =~= Seq::empty());
            assert(words(Seq::empty()) =~= Seq::empty());
            assert(words(text) =~= seq![word]);
        }
        assert(parts =~= seq![word] + tail);
    }
}

/// The lines of tidy lines with a line feed between each two are those lines.
proof fn lemma_joined_lines(parts: Seq<Seq<char>>)
    requires
        forall|i: int| 0 <= i < parts.len() ==> is_tidy_line(#[trigger] parts[i]),
    ensures
        lines(joined(parts, "\n"@)) == parts,
        parts.len() > 0 ==> joined(parts, "\n"@).len() > 0,
    decreases parts.len(),
{
    reveal_strlit("\n");
    let text = joined(parts, "\n"@);
    if parts.len() == 0 {
        assert(lines(text) =~= parts);
    } else {
        let line = parts[0];
        let tail = parts.skip(1);
        assert(is_tidy_line(line));
        if parts.len() > 1 {
            assert forall|i: int| 0 <= i < tail.len() implies is_tidy_line(#[trigger] tail[i]) by {
                assert(tail[i] == parts[i + 1]);
            }
            lemma_joined_from_the_front(parts, "\n"@);
            lemma_joined_lines(tail);
        }
        assert(text.take(line.len() as int) =~= line);
        assert forall|i: int| 0 <= i < line.len() implies !#[trigger] line_feed()(text[i]) by {
            assert(text[i] == line[i]);
        }
        if parts.len() > 1 {
            assert(text[line.len() as int] == '\n');
            lemma_run_ends(text, line_feed(), line.len());
            assert(text.skip(line.len() as int + 1) =~= joined(tail, "\n"@));
            assert(is_space('\r'));
            assert(without_carriage_return(line) == line);
            assert(lines(text) =~= seq![line] + tail);
        } else {
            lemma_run_ends(text, line_feed(), line.len());
            assert(lines(text) =~= seq![line]);
        }
        assert(parts =~= seq![line] + tail);
    }
}

/// Tidying lines gives tidy lines.
proof fn lemma_tidy_lines_are_tidy(found: Seq<Seq<char>>)
    ensures
        forall|i: int|
            0 <= i < tidy_lines(found).len() ==> is_tidy_line(#[trigger] tidy_lines(found)[i]),
    decreases found.len(),
{
    if found.len() > 0 {
        lemma_tidy_lines_are_tidy(found.drop_last());
        let parts = words(found.last());
        lemma_words_are_words(found.last());
        lemma_joined_words(parts);
        let line = joined(parts, " "@);
        assert forall|i: int| 0 <= i < line.len() implies #[trigger] line[i] != '\n' by {
            assert(line[i] == ' ' || !is_space(line[i]));
        }
        let before = tidy_lines(found.drop_last());
        assert forall|i: int| 0 <= i < tidy_lines(found).len() implies is_tidy_line(
            #[trigger] tidy_lines(found)[i],
        ) by {
            if i < before.len() {
                assert(tidy_lines(found)[i] == before[i]);
            }
        }
    }
}

/// Tidy lines stay as they are.
proof fn lemma_tidy_lines_stay(found: Seq<Seq<char>>)
    requires
        forall|i: int| 0 <= i < found.len() ==> is_tidy_line(#[trigger] found[i]),
    ensures
        tidy_lines(found) == found,
    decreases found.len(),
{
    if found.len() > 0 {
        let front = found.drop_last();
        assert forall|i: int| 0 <= i < front.len() implies is_tidy_line(#[trigger] front[i]) by {
            assert(front[i] == found[i]);
        }
        lemma_tidy_lines_stay(front);
        assert(is_tidy_line(found[found.len() - 1]));
        assert(tidy_lines(found) =~= found);
    } else {
        assert(tidy_lines(found) =~= found);
    }
}

/// A text that was tidied is tidy: its lines are words with single spaces between them,
/// and to tidy it again changes nothing.
pub proof fn law_tidied_text_is_tidy(text: Seq<char>)
    ensures
        tidy(tidy(text)) == tidy(text),
        forall|i: int|
            0 <= i < lines(tidy(text)).len() ==> is_tidy_line(#[trigger] lines(tidy(text))[i]),
{
    let kept = tidy_lines(lines(text));
    lemma_tidy_lines_are_tidy(lines(text));
    lemma_joined_lines(kept);
    lemma_tidy_lines_stay(kept);
}

// ---------------------------------------------------------------------------------
// The whole text of a workbook
// ---------------------------------------------------------------------------------

/// Cells from the first to the last that are not blank, with a tab between each two.
pub open spec fn tabbed(row: Seq<Seq<char>>) -> Seq<char>
    decreases row.len(),
{
    if row.len() == 0 {
        Seq::empty()
    } else if trimmed(row[0]).len() == 0 {
        tabbed(row.skip(1))
    } else if tabbed(row.skip(1)).len() == 0 {
        row[0]
    } else {
        row[0] + seq!['\t'] + tabbed(row.skip(1))
    }
}

/// Rows from the first to the last as lines, without those whose cells are all blank.
pub open spec fn lined(rows: Seq<Seq<Seq<char>>>) -> Seq<char>
    decreases rows.len(),
{
    if rows.len() == 0 {
        Seq::empty()
    } else if tabbed(rows[0]).len() == 0 {
        lined(rows.skip(1))
    } else {
        tabbed(rows[0]) + seq!['\n'] + lined(rows.skip(1))
    }
}

/// Sheets from the first to the last, each as a heading and the lines of its rows, up to a
/// sheet that cannot be read.
pub open spec fn all_sheets(names: Seq<Seq<char>>, bytes: Seq<u8>, kind: WorkbookKind) -> Seq<char>
    decreases names.len(),
{
    if names.len() == 0 {
        Seq::empty()
    } else {
        match sheet_rows_of(bytes, kind, names[0]) {
            Ok(rows) => "[工作表："@ + names[0] + "]\n"@ + lined(rows) + all_sheets(
                names.skip(1),
                bytes,
                kind,
            ),
            Err(_) => Seq::empty(),
        }
    }
}

/// The filled cells of a row begin with its first cell, if that is filled.
proof fn lemma_filled_from_the_front(row: Seq<Seq<char>>)
    requires
        row.len() > 0,
    ensures
        trimmed(row[0]).len() > 0 ==> filled_cells(row) == seq![row[0]] + filled_cells(row.skip(1)),
        trimmed(row[0]).len() == 0 ==> filled_cells(row) == filled_cells(row.skip(1)),
    decreases row.len(),
{
    if row.len() == 1 {
        assert(row.skip(1) =~= Seq::empty());
        assert(row.drop_last() =~= Seq::empty());
        assert(filled_cells(row.skip(1)) =~= Seq::empty());
        assert(filled_cells(row.drop_last()) =~= Seq::empty());
        if trimmed(row[0]).len() > 0 {
            assert(filled_cells(row) =~= seq![row[0]] + filled_cells(row.skip(1)));
        }
    } else {
        lemma_filled_from_the_front(row.drop_last());
        assert(row.drop_last().skip(1) =~= row.skip(1).drop_last());
        assert(row.skip(1).last() == row.last());
        if trimmed(row[0]).len() > 0 {
            assert(filled_cells(row) =~= seq![row[0]] + filled_cells(row.skip(1)));
        }
    }
}

/// The filled cells of a row say something each, and are what is tabbed.
proof fn lemma_row_is_tabbed(row: Seq<Seq<char>>)
    ensures
        joined(filled_cells(row), "\t"@) == tabbed(row),
        filled_cells(row).len() == 0 <==> tabbed(row).len() == 0,
    decreases row.len(),
{
    reveal_strlit("\t");
    let filled = filled_cells(row);
    if row.len() > 0 {
        let tail = row.skip(1);
        lemma_filled_from_the_front(row);
        lemma_row_is_tabbed(tail);
        lemma_trimmed(row[0]);
        if trimmed(row[0]).len() > 0 {
            if filled_cells(tail).len() == 0 {
                assert(filled =~= seq![row[0]]);
            } else {
                lemma_joined_from_the_front(filled, "\t"@);
                assert(filled.skip(1) =~= filled_cells(tail));
                assert("\t"@ =~= seq!['\t']);
            }
        }
    }
}

/// Rows are added line by line, until the text is long enough.
proof fn lemma_rows_are_lined(output: Seq<char>, rows: Seq<Seq<Seq<char>>>)
    ensures
        with_rows(output, rows).is_prefix_of(output + lined(rows)),
        with_rows(output, rows).len() < MAX_EXTRACTED_CHARS ==> with_rows(output, rows) == output
            + lined(rows),
    decreases rows.len(),
{
    let whole = output + lined(rows);
    if rows.len() == 0 {
        assert(whole =~= output);
        assert(whole.subrange(0, output.len() as int) =~= output);
    } else {
        let next = output + row_line(rows[0]);
        lemma_row_is_tabbed(rows[0]);
        assert(whole =~= next + lined(rows.skip(1))) by {
            if tabbed(rows[0]).len() > 0 {
                assert(row_line(rows[0]) =~= tabbed(rows[0]) + seq!['\n']);
            }
        }
        if next.len() >= MAX_EXTRACTED_CHARS {
            assert(whole.subrange(0, next.len() as int) =~= next);
        } else {
            lemma_rows_are_lined(next, rows.skip(1));
        }
    }
}

/// Sheets are added one behind the other, until the text is long enough.
proof fn lemma_sheets_are_added(
    output: Seq<char>,
    names: Seq<Seq<char>>,
    bytes: Seq<u8>,
    kind: WorkbookKind,
)
    ensures
        with_sheets(output, names, bytes, kind) matches Ok(text) ==> {
            &&& text.is_prefix_of(output + all_sheets(names, bytes, kind))
            &&& text.len() < MAX_EXTRACTED_CHARS ==> text == output + all_sheets(names, bytes, kind)
            &&& text.len() < MAX_EXTRACTED_CHARS ==> forall|i: int|
                0 <= i < names.len() ==> sheet_rows_of(bytes, kind, #[trigger] names[i]) is Ok
        },
        with_sheets(output, names, bytes, kind) matches Err(error) ==> exists|i: int|
            0 <= i < names.len() && (sheet_rows_of(bytes, kind, #[trigger] names[i]) matches Err(
                detail,
            ) && error == DocumentErrorModel::Parse("工作表 "@ + names[i] + "："@ + detail))
                && (output + all_sheets(names.take(i), bytes, kind)).len() < MAX_EXTRACTED_CHARS
                && forall|j: int|
                0 <= j < i ==> sheet_rows_of(bytes, kind, #[trigger] names[j]) is Ok,
    decreases names.len(),
{
    let whole = output + all_sheets(names, bytes, kind);
    assert(whole.subrange(0, output.len() as int) =~= output);
    if names.len() == 0 {
        assert(whole =~= output);
    } else if output.len() < MAX_EXTRACTED_CHARS {
        assert(names.take(0) =~= Seq::empty());
        assert(output + all_sheets(names.take(0), bytes, kind) =~= output);
        match sheet_rows_of(bytes, kind, names[0]) {
            Err(_) => {},
            Ok(rows) => {
                let headed = output + sheet_heading(names[0]);
                let longer = with_rows(headed, rows);
                let tail = names.skip(1);
                lemma_rows_are_lined(headed, rows);
                lemma_sheets_are_added(longer, tail, bytes, kind);
                assert(whole =~= headed + lined(rows) + all_sheets(tail, bytes, kind));
                if longer.len() >= MAX_EXTRACTED_CHARS {
                    let sheet = headed + lined(rows);
                    assert(whole.subrange(0, longer.len() as int) =~= sheet.subrange(
                        0,
                        longer.len() as int,
                    ));
                } else {
                    if let Err(error) = with_sheets(longer, tail, bytes, kind) {
                        let i = choose|i: int|
                            0 <= i < tail.len() && (sheet_rows_of(
                                bytes,
                                kind,
                                #[trigger] tail[i],
                            ) matches Err(detail) && error == DocumentErrorModel::Parse(
                                "工作表 "@ + tail[i] + "："@ + detail,
                            )) && (longer + all_sheets(tail.take(i), bytes, kind)).len()
                                < MAX_EXTRACTED_CHARS && forall|j: int|
                                0 <= j < i ==> sheet_rows_of(bytes, kind, #[trigger] tail[j]) is Ok;
                        assert(tail[i] == names[i + 1]);
                        assert(names.take(i + 1).skip(1) =~= tail.take(i));
                        assert(names.take(i + 1)[0] == names[0]);
                        assert(output + all_sheets(names.take(i + 1), bytes, kind) =~= longer
                            + all_sheets(tail.take(i), bytes, kind));
                        assert forall|j: int| 0 <= j < i + 1 implies sheet_rows_of(
                            bytes,
                            kind,
                            #[trigger] names[j],
                        ) is Ok by {
                            if j > 0 {
                                assert(names[j] == tail[j - 1]);
                            }
                        }
                    } else {
                        assert forall|i: int|
                            (with_sheets(longer, tail, bytes, kind) matches Ok(text) && text.len()
                                < MAX_EXTRACTED_CHARS) && 0 <= i < names.len() implies sheet_rows_of(
                            bytes,
                            kind,
                            #[trigger] names[i],
                        ) is Ok by {
                            if i > 0 {
                                assert(names[i] == tail[i - 1]);
                            }
                        }
                    }
                }
            },
        }
    }
}

/// A workbook's text is all its sheets, one behind the other, each with its heading and a
/// line for every row that has a cell that is not blank: the whole of it where it is shorter
/// than what is taken from a document, and else as much of it from the front. The first
/// sheet that cannot be read before that is why there is no text.
pub proof fn law_workbook_text_is_all_sheets(bytes: Seq<u8>, kind: WorkbookKind)
    ensures
        xlsx_content(bytes, kind) matches Ok(text) ==> {
            let names = sheet_names_of(bytes, kind);
            &&& text.is_prefix_of(all_sheets(names, bytes, kind))
            &&& text.len() < 12_000 ==> text == all_sheets(names, bytes, kind) && forall|i: int|
                0 <= i < names.len() ==> sheet_rows_of(bytes, kind, #[trigger] names[i]) is Ok
        },
        (match kind {
            WorkbookKind::Xlsx => xlsx_complaint(bytes),
            WorkbookKind::Any => any_complaint(bytes),
        }) is None ==> (xlsx_content(bytes, kind) matches Err(error)
            ==> {
            let names = sheet_names_of(bytes, kind);
            exists|i: int|
                0 <= i < names.len() && (sheet_rows_of(
                    bytes,
                    kind,
                    #[trigger] names[i],
                ) matches Err(detail) && error == DocumentErrorModel::Parse(
                    "工作表 "@ + names[i] + "："@ + detail,
                )) && all_sheets(names.take(i), bytes, kind).len() < 12_000 && forall|j: int|
                    0 <= j < i ==> sheet_rows_of(bytes, kind, #[trigger] names[j]) is Ok
        }),
        (match kind {
            WorkbookKind::Xlsx => xlsx_complaint(bytes),
            WorkbookKind::Any => any_complaint(bytes),
        }) matches Some(detail) ==> xlsx_content(bytes, kind) == Err::<
            Seq<char>,
            DocumentErrorModel,
        >(DocumentErrorModel::Parse("XLSX："@ + detail)),
{
    let names = sheet_names_of(bytes, kind);
    lemma_sheets_are_added(Seq::empty(), names, bytes, kind);
    assert(Seq::<char>::empty() + all_sheets(names, bytes, kind) =~= all_sheets(names, bytes, kind));
    assert forall|i: int| 0 <= i < names.len() implies (Seq::<char>::empty() + all_sheets(
        #[trigger] names.take(i),
        bytes,
        kind,
    )) == all_sheets(names.take(i), bytes, kind) by {
        assert(Seq::<char>::empty() + all_sheets(names.take(i), bytes, kind) =~= all_sheets(
            names.take(i),
            bytes,
            kind,
        ));
    }
}

/// The lines of a row stand among those of all.
proof fn lemma_row_stands_in_lines(rows: Seq<Seq<Seq<char>>>, at: int)
    requires
        0 <= at < rows.len(),
        tabbed(rows[at]).len() > 0,
    ensures
        lined(rows) == lined(rows.take(at)) + tabbed(rows[at]) + seq!['\n'] + lined(
            rows.skip(at + 1),
        ),
    decreases at,
{
    if at == 0 {
        assert(lined(rows.take(0)) =~= Seq::empty());
        assert(lined(rows) =~= lined(rows.take(at)) + tabbed(rows[at]) + seq!['\n'] + lined(
            rows.skip(at + 1),
        ));
    } else {
        let tail = rows.skip(1);
        lemma_row_stands_in_lines(tail, at - 1);
        assert(tail[at - 1] == rows[at]);
        assert(rows.take(at).skip(1) =~= tail.take(at - 1));
        assert(rows.take(at)[0] == rows[0]);
        assert(tail.skip(at) =~= rows.skip(at + 1));
        assert(lined(rows) =~= lined(rows.take(at)) + tabbed(rows[at]) + seq!['\n'] + lined(
            rows.skip(at + 1),
        ));
    }
}

/// Every row with a cell that is not blank is a line of its sheet, behind the lines of the
/// rows before it, and every cell that is not blank stands in the line of its row, behind
/// the cells before it.
pub proof fn law_every_filled_cell_is_kept(rows: Seq<Seq<Seq<char>>>, at: int, cell: int)
    requires
        0 <= at < rows.len(),
        0 <= cell < rows[at].len(),
        trimmed(rows[at][cell]).len() > 0,
    ensures
        ({
            let row = rows[at];
            let before = tabbed(row.take(cell));
            let behind = tabbed(row.skip(cell + 1));
            &&& lined(rows) == lined(rows.take(at)) + tabbed(row) + seq!['\n'] + lined(
                rows.skip(at + 1),
            )
            &&& tabbed(row) == (if before.len() == 0 {
                Seq::empty()
            } else {
                before + seq!['\t']
            }) + row[cell] + (if behind.len() == 0 {
                Seq::empty()
            } else {
                seq!['\t'] + behind
            })
            &&& joined(filled_cells(row), "\t"@) == tabbed(row)
        }),
{
    lemma_cell_stands_in_row(rows[at], cell);
    lemma_trimmed(rows[at][cell]);
    lemma_row_stands_in_lines(rows, at);
    lemma_row_is_tabbed(rows[at]);
}

/// A cell that is not blank stands in its row.
proof fn lemma_cell_stands_in_row(row: Seq<Seq<char>>, at: int)
    requires
        0 <= at < row.len(),
        trimmed(row[at]).len() > 0,
    ensures
        ({
            let before = tabbed(row.take(at));
            let behind = tabbed(row.skip(at + 1));
            tabbed(row) == (if before.len() == 0 {
                Seq::empty()
            } else {
                before + seq!['\t']
            }) + row[at] + (if behind.len() == 0 {
                Seq::empty()
            } else {
                seq!['\t'] + behind
            })
        }),
        tabbed(row).len() > 0,
    decreases at,
{
    let before = tabbed(row.take(at));
    let behind = tabbed(row.skip(at + 1));
    let left = if before.len() == 0 {
        Seq::empty()
    } else {
        before + seq!['\t']
    };
    let right = if behind.len() == 0 {
        Seq::empty()
    } else {
        seq!['\t'] + behind
    };
    lemma_trimmed(row[at]);
    if at == 0 {
        assert(tabbed(row.take(0)) =~= Seq::empty());
        assert(tabbed(row) =~= left + row[at] + right);
    } else {
        let tail = row.skip(1);
        lemma_cell_stands_in_row(tail, at - 1);
        assert(tail[at - 1] == row[at]);
        assert(row.take(at).skip(1) =~= tail.take(at - 1));
        assert(row.take(at)[0] == row[0]);
        assert(tail.skip(at) =~= row.skip(at + 1));
        lemma_trimmed(row[0]);
        assert(tabbed(row) =~= left + row[at] + right);
    }
}

// ---------------------------------------------------------------------------------
// What is kept of a text
// ---------------------------------------------------------------------------------

/// The words of texts, one text behind the other.
pub open spec fn all_words(parts: Seq<Seq<char>>) -> Seq<Seq<char>>
    decreases parts.len(),
{
    if parts.len() == 0 {
        Seq::empty()
    } else {
        all_words(parts.drop_last()) + words(parts.last())
    }
}

/// The words of the first text come first.
proof fn lemma_all_words_from_the_front(parts: Seq<Seq<char>>)
    requires
        parts.len() > 0,
    ensures
        all_words(parts) == words(parts[0]) + all_words(parts.skip(1)),
    decreases parts.len(),
{
    if parts.len() == 1 {
        assert(parts.drop_last() =~= Seq::empty());
        assert(parts.skip(1) =~= Seq::empty());
        assert(all_words(parts.drop_last()) =~= Seq::empty());
        assert(all_words(parts) =~= words(parts[0]) + all_words(parts.skip(1)));
    } else {
        lemma_all_words_from_the_front(parts.drop_last());
        assert(parts.drop_last().skip(1) =~= parts.skip(1).drop_last());
        assert(all_words(parts) =~= words(parts[0]) + all_words(parts.skip(1)));
    }
}

/// The words of a text are the words of its lines.
proof fn lemma_words_of_lines(text: Seq<char>)
    ensures
        all_words(lines(text)) == words(text),
    decreases text.len(),
{
    if text.len() == 0 {
        assert(words(text) =~= Seq::empty());
        assert(all_words(lines(text)) =~= Seq::empty());
    } else {
        let n = run_len(text, line_feed()) as int;
        lemma_run_len(text, line_feed());
        if n < text.len() {
            let line = text.take(n);
            let rest = text.skip(n + 1);
            let kept = without_carriage_return(line);
            assert(text[n] == '\n');
            assert(text =~= line + seq!['\n'] + rest);
            law_white_space_parts_words(line, '\n', rest);
            lemma_words_of_lines(rest);
            lemma_all_words_from_the_front(lines(text));
            assert(lines(text).skip(1) =~= lines(rest));
            if kept != line {
                assert(line =~= kept + seq!['\r'] + Seq::<char>::empty());
                law_white_space_parts_words(kept, '\r', Seq::empty());
                assert(words(Seq::<char>::empty()) =~= Seq::empty());
                assert(words(line) =~= words(kept));
            }
        } else {
            lemma_all_words_from_the_front(lines(text));
            assert(lines(text).skip(1) =~= Seq::empty());
            assert(all_words(lines(text).skip(1)) =~= Seq::empty());
            assert(all_words(lines(text)) =~= words(text));
        }
    }
}

/// Tidied lines say what the lines say.
proof fn lemma_tidied_lines_keep_words(found: Seq<Seq<char>>)
    ensures
        words(joined(tidy_lines(found), "\n"@)) == all_words(found),
        tidy_lines(found).map_values(|line: Seq<char>| words(line)) == found.map_values(
            |line: Seq<char>| words(line),
        ).filter(|said: Seq<Seq<char>>| said.len() > 0),
    decreases found.len(),
{
    reveal(Seq::filter);
    reveal_strlit("\n");
    let said = |line: Seq<char>| words(line);
    let some = |said: Seq<Seq<char>>| said.len() > 0;
    if found.len() == 0 {
        assert(words(joined(tidy_lines(found), "\n"@)) =~= Seq::empty());
        assert(tidy_lines(found).map_values(said) =~= found.map_values(said).filter(some));
    } else {
        let front = found.drop_last();
        let last = found.last();
        let kept = tidy_lines(front);
        let line = joined(words(last), " "@);
        lemma_tidied_lines_keep_words(front);
        lemma_words_are_words(last);
        lemma_joined_words(words(last));
        assert(found.map_values(said).drop_last() =~= front.map_values(said));
        assert(found.map_values(said).last() == words(last));
        if line.len() > 0 {
            let longer = kept.push(line);
            assert(longer.drop_last() =~= kept);
            assert(words(last).len() > 0);
            if kept.len() > 0 {
                let before = joined(kept, "\n"@);
                assert("\n"@ =~= seq!['\n']);
                assert(joined(longer, "\n"@) =~= before + seq!['\n'] + line);
                law_white_space_parts_words(before, '\n', line);
            } else {
                assert(longer =~= seq![line]);
                assert(words(joined(kept, "\n"@)) =~= Seq::empty());
                assert(all_words(found) =~= words(line));
            }
            assert(longer.map_values(said) =~= kept.map_values(said).push(words(line)));
        } else {
            assert(words(last) =~= Seq::empty()) by {
                if words(last).len() > 0 {
                    assert(line.len() > 0);
                }
            }
            assert(all_words(found) =~= all_words(front));
        }
    }
}

/// Tidying a text keeps all its words in their order, and each line with a word is a line.
pub proof fn law_tidying_keeps_every_word(text: Seq<char>)
    ensures
        words(tidy(text)) == words(text),
        lines(tidy(text)).map_values(|line: Seq<char>| words(line)) == lines(text).map_values(
            |line: Seq<char>| words(line),
        ).filter(|said: Seq<Seq<char>>| said.len() > 0),
        tidy(text).len() == 0 <==> words(text).len() == 0,
{
    lemma_words_of_lines(text);
    lemma_tidied_lines_keep_words(lines(text));
    lemma_tidy_lines_are_tidy(lines(text));
    lemma_joined_lines(tidy_lines(lines(text)));
    let kept = tidy_lines(lines(text));
    if words(text).len() == 0 {
        if kept.len() > 0 {
            assert(is_tidy_line(kept[0]));
            let line = kept[0];
            lemma_all_words_from_the_front(lines(tidy(text)));
            lemma_words_of_lines(tidy(text));
            assert(joined(words(line), " "@) == line);
            assert(words(line).len() > 0);
            assert(words(tidy(text)).len() > 0);
        }
        assert(tidy(text) =~= Seq::empty());
    } else if tidy(text).len() == 0 {
        assert(words(tidy(text)) =~= Seq::empty());
    }
}

/// A reference document has the name of its file and says what the file says: all of it up
/// to twelve thousand characters, and beyond that those from the front and a note. Only a
/// file without a word makes none.
pub proof fn law_document_says_what_the_file_says(name: Option<Seq<char>>, extracted: Seq<char>)
    ensures
        match document_of(name, extracted) {
            Err(error) => error is Empty && words(extracted).len() == 0,
            Ok(document) => {
                &&& words(extracted).len() > 0
                &&& name matches Some(given) ==> document.name == given
                &&& !document.truncated ==> document.content.len() <= 12_000 && words(
                    document.content,
                ) == words(extracted)
                &&& document.truncated ==> exists|kept: Seq<char>, rest: Seq<char>|
                    kept.len() == 12_000 && rest.len() > 0 && document.content == kept
                        + "\n[内容已截断]"@ && words(#[trigger] (kept + rest)) == words(extracted)
            },
        },
{
    law_tidying_keeps_every_word(extracted);
    if let Ok(document) = document_of(name, extracted) {
        if document.truncated {
            let kept = tidy(extracted).take(12_000);
            let rest = tidy(extracted).skip(12_000);
            assert(kept + rest =~= tidy(extracted));
        }
    }
}

/// The background is the given text and the document, each without white space around it
/// and a line feed between them where there are both: all of it up to twelve thousand
/// characters, and beyond that those from the front and a note.
pub proof fn law_background_says_both(direct: Seq<char>, document: Seq<char>)
    ensures
        ({
            let whole = if trimmed(direct).len() > 0 && trimmed(document).len() > 0 {
                trimmed(direct) + seq!['\n'] + trimmed(document)
            } else {
                trimmed(direct) + trimmed(document)
            };
            match background_of(direct, Some(document)) {
                None => whole.len() == 0,
                Some(text) => whole.len() > 0 && (if whole.len() <= 12_000 {
                    text == whole
                } else {
                    text == whole.take(12_000) + "\n[内容已截断]"@
                }),
            }
        }),
        background_of(direct, None) == background_of(direct, Some(Seq::empty())),
{
    reveal_strlit("\n");
    assert("\n"@ =~= seq!['\n']);
    assert(trimmed(Seq::empty()) =~= Seq::empty());
    assert(trimmed(direct) + Seq::<char>::empty() =~= trimmed(direct));
    assert(trimmed(direct) + trimmed(document) =~= (if trimmed(direct).len() == 0 {
        trimmed(document)
    } else {
        trimmed(direct) + trimmed(document)
    }));
    if trimmed(document).len() == 0 {
        assert(trimmed(direct) + trimmed(document) =~= trimmed(direct));
    }
}

/// The path that a user asks for is what they wrote, without white space around it and then
/// without quotation marks around it.
pub proof fn law_path_is_what_was_written(raw: Seq<char>)
    ensures
        exists|front: Seq<char>, path: Seq<char>, back: Seq<char>|
            trimmed(raw) == #[trigger] (front + path + back) && (forall|i: int|
                0 <= i < front.len() ==> (#[trigger] front[i] == '"' || front[i] == '\''))
                && (forall|i: int|
                0 <= i < back.len() ==> (#[trigger] back[i] == '"' || back[i] == '\'')) && (
            path.len() > 0 ==> path[0] != '"' && path[0] != '\'' && path.last() != '"'
                && path.last() != '\'') && path_of(raw) == (if path.len() == 0 {
                None
            } else {
                Some(path)
            }),
{
    let text = trimmed(raw);
    let rest = strip_start(text, quotes());
    let path = strip_end(rest, quotes());
    lemma_strip_start(text, quotes());
    lemma_strip_end(rest, quotes());
    let front = text.take(text.len() - rest.len());
    let back = rest.skip(path.len() as int);
    assert(text =~= front + path + back);
    assert forall|i: int| 0 <= i < front.len() implies (#[trigger] front[i] == '"' || front[i]
        == '\'') by {
        assert(quotes()(text[i]));
    }
    assert forall|i: int| 0 <= i < back.len() implies (#[trigger] back[i] == '"' || back[i]
        == '\'') by {
        assert(quotes()(rest[path.len() + i]));
    }
    if path.len() > 0 {
        assert(!quotes()(rest[0]));
        assert(path[0] == rest[0]);
        assert(!quotes()(path.last()));
    }
}

/// A file of up to twenty megabytes is taken as what its extension says, and no other.
pub proof fn law_extension_tells_the_kind(shown: Seq<char>, length: u64, extension: Seq<char>)
    ensures
        accepted(shown, FileFacts::File(length), Some(extension)) == (if length > 20_971_520 {
            Err(DocumentErrorModel::FileTooLarge)
        } else if folded(extension) == folded(seq!['t', 'x', 't']) {
            Ok(DocumentFormat::Text)
        } else if folded(extension) == folded(seq!['d', 'o', 'c', 'x']) {
            Ok(DocumentFormat::Docx)
        } else if folded(extension) == folded(seq!['x', 'l', 's', 'x']) {
            Ok(DocumentFormat::Xlsx)
        } else {
            Err(DocumentErrorModel::UnsupportedFormat)
        }),
        accepted(shown, FileFacts::Missing, Some(extension)) == Err::<
            DocumentFormat,
            DocumentErrorModel,
        >(DocumentErrorModel::NotFound(shown)),
        accepted(shown, FileFacts::NotAFile, Some(extension)) == Err::<
            DocumentFormat,
            DocumentErrorModel,
        >(DocumentErrorModel::NotAFile(shown)),
{
    reveal_strlit("txt");
    reveal_strlit("docx");
    reveal_strlit("xlsx");
    assert("txt"@ =~= seq!['t', 'x', 't']);
    assert("docx"@ =~= seq!['d', 'o', 'c', 'x']);
    assert("xlsx"@ =~= seq!['x', 'l', 's', 'x']);
}

/// A word processor's document says what its text part says, if that part is there, is no
/// larger than forty megabytes and can be read; if not, there is a complaint.
pub proof fn law_docx_text_is_that_of_its_part(bytes: Seq<u8>, xml: Seq<char>)
    ensures
        docx_content(bytes) is Ok ==> archive_complaint(bytes) is None && (entry_size_of(
            bytes,
            "word/document.xml"@,
        ) matches Ok(size) && size <= 41_943_040) && (entry_text_of(
            bytes,
            "word/document.xml"@,
            41_943_041,
        ) matches Ok(part) && document_text(part) == Ok::<Seq<char>, Seq<char>>(
            docx_content(bytes)->Ok_0,
        )),
        archive_complaint(bytes) is None && (entry_size_of(
            bytes,
            "word/document.xml"@,
        ) matches Ok(size) && size <= 41_943_040) && entry_text_of(
            bytes,
            "word/document.xml"@,
            41_943_041,
        ) == Ok::<Seq<char>, Seq<char>>(xml) ==> match document_text(xml) {
            Ok(text) => docx_content(bytes) == Ok::<Seq<char>, DocumentErrorModel>(text),
            Err(detail) => docx_content(bytes) == Err::<Seq<char>, DocumentErrorModel>(
                DocumentErrorModel::Parse(detail),
            ),
        },
{
}

/// A path that begins with the home directory is read below it, and no other path is.
pub proof fn law_home_is_read_below(path: Seq<char>, rest: Seq<char>)
    ensures
        below_home(seq!['~', '/'] + rest) == Some(rest),
        below_home(path) matches Some(below) ==> path == seq!['~', '/'] + below,
{
    assert((seq!['~', '/'] + rest).skip(2) =~= rest);
    if let Some(below) = below_home(path) {
        assert(path =~= seq!['~', '/'] + below);
    }
}

/// The rows that are taken end with the one with which the text is long enough.
proof fn lemma_rows_stop(output: Seq<char>, rows: Seq<Seq<Seq<char>>>) -> (count: int)
    requires
        rows.len() > 0,
        with_rows(output, rows).len() >= MAX_EXTRACTED_CHARS,
    ensures
        1 <= count <= rows.len(),
        with_rows(output, rows) == output + lined(rows.take(count)),
        count > 1 ==> (output + lined(rows.take(count - 1))).len() < MAX_EXTRACTED_CHARS,
    decreases rows.len(),
{
    let next = output + row_line(rows[0]);
    let tail = rows.skip(1);
    lemma_row_is_tabbed(rows[0]);
    assert(rows.take(1).skip(1) =~= Seq::empty());
    assert(lined(rows.take(1).skip(1)) =~= Seq::empty());
    assert(rows.take(1)[0] == rows[0]);
    assert(lined(rows.take(1)) =~= row_line(rows[0]));
    if next.len() >= MAX_EXTRACTED_CHARS {
        1
    } else {
        assert(with_rows(next, Seq::empty()) == next);
        assert(tail.len() > 0) by {
            if tail.len() == 0 {
                assert(tail =~= Seq::empty());
            }
        }
        let count = lemma_rows_stop(next, tail);
        assert(rows.take(count + 1).skip(1) =~= tail.take(count));
        assert(rows.take(count + 1)[0] == rows[0]);
        assert(lined(rows.take(count + 1)) =~= row_line(rows[0]) + lined(tail.take(count)));
        assert(output + lined(rows.take(count + 1)) =~= next + lined(tail.take(count)));
        if count > 1 {
            assert(rows.take(count).skip(1) =~= tail.take(count - 1));
            assert(rows.take(count)[0] == rows[0]);
            assert(lined(rows.take(count)) =~= row_line(rows[0]) + lined(tail.take(count - 1)));
            assert(output + lined(rows.take(count)) =~= next + lined(tail.take(count - 1)));
        }
        count + 1
    }
}

/// Whether a text ends with some rows of a sheet, behind the sheets before it, and was not
/// long enough before the last of these rows.
pub open spec fn ends_with_row(
    text: Seq<char>,
    before: Seq<char>,
    name: Seq<char>,
    rows: Seq<Seq<Seq<char>>>,
    count: int,
) -> bool {
    let headed = before + "[工作表："@ + name + "]\n"@;
    &&& 0 <= count <= rows.len()
    &&& text == headed + lined(rows.take(count))
    &&& before.len() < 12_000
    &&& count == 0 ==> rows.len() == 0
    &&& count > 1 ==> (headed + lined(rows.take(count - 1))).len() < 12_000
}

/// The sheets that are taken end with the one with which the text is long enough.
proof fn lemma_sheets_stop(
    output: Seq<char>,
    names: Seq<Seq<char>>,
    bytes: Seq<u8>,
    kind: WorkbookKind,
) -> (place: (int, int))
    requires
        output.len() < MAX_EXTRACTED_CHARS,
        with_sheets(output, names, bytes, kind) is Ok,
        with_sheets(output, names, bytes, kind)->Ok_0.len() >= MAX_EXTRACTED_CHARS,
    ensures
        0 <= place.0 < names.len(),
        sheet_rows_of(bytes, kind, names[place.0]) is Ok,
        ends_with_row(
            with_sheets(output, names, bytes, kind)->Ok_0,
            output + all_sheets(names.take(place.0), bytes, kind),
            names[place.0],
            sheet_rows_of(bytes, kind, names[place.0])->Ok_0,
            place.1,
        ),
    decreases names.len(),
{
    let rows = sheet_rows_of(bytes, kind, names[0])->Ok_0;
    let headed = output + sheet_heading(names[0]);
    let longer = with_rows(headed, rows);
    let tail = names.skip(1);
    assert(headed =~= output + "[工作表："@ + names[0] + "]\n"@);
    assert(names.take(0) =~= Seq::empty());
    assert(output + all_sheets(names.take(0), bytes, kind) =~= output);
    if longer.len() >= MAX_EXTRACTED_CHARS {
        if rows.len() == 0 {
            assert(lined(rows.take(0)) =~= Seq::empty());
            assert(headed + lined(rows.take(0)) =~= headed);
            (0, 0)
        } else {
            let count = lemma_rows_stop(headed, rows);
            (0, count)
        }
    } else {
        lemma_rows_are_lined(headed, rows);
        let place = lemma_sheets_stop(longer, tail, bytes, kind);
        assert(tail[place.0] == names[place.0 + 1]);
        assert(names.take(place.0 + 1).skip(1) =~= tail.take(place.0));
        assert(names.take(place.0 + 1)[0] == names[0]);
        assert(output + all_sheets(names.take(place.0 + 1), bytes, kind) =~= longer + all_sheets(
            tail.take(place.0),
            bytes,
            kind,
        ));
        (place.0 + 1, place.1)
    }
}

/// Reading a workbook ends with the row with which its text has twelve thousand characters,
/// and with no earlier and no later one.
pub proof fn law_reading_ends_with_a_row(bytes: Seq<u8>, kind: WorkbookKind)
    requires
        xlsx_content(bytes, kind) is Ok,
        xlsx_content(bytes, kind)->Ok_0.len() >= 12_000,
    ensures
        exists|i: int, count: int|
            0 <= i < sheet_names_of(bytes, kind).len() && sheet_rows_of(
                bytes,
                kind,
                sheet_names_of(bytes, kind)[i],
            ) is Ok && #[trigger] ends_with_row(
                xlsx_content(bytes, kind)->Ok_0,
                all_sheets(sheet_names_of(bytes, kind).take(i), bytes, kind),
                sheet_names_of(bytes, kind)[i],
                sheet_rows_of(bytes, kind, sheet_names_of(bytes, kind)[i])->Ok_0,
                count,
            ),
{
    let names = sheet_names_of(bytes, kind);
    let place = lemma_sheets_stop(Seq::empty(), names, bytes, kind);
    let before = all_sheets(names.take(place.0), bytes, kind);
    assert(Seq::<char>::empty() + before =~= before);
    assert(ends_with_row(
        xlsx_content(bytes, kind)->Ok_0,
        before,
        names[place.0],
        sheet_rows_of(bytes, kind, names[place.0])->Ok_0,
        place.1,
    ));
}

} // verus!
