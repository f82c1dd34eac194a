use std::io::{Cursor, Write};

use realtime_ai_translation::document::{
    append_rows, background, home_relative, load_reference_document, normalize_whitespace,
    opening_error, read_docx, read_xlsx, reference_from, requested_path, truncate_chars,
    try_load_reference_document, validate_reference_path, DocumentError, DocumentFormat, FileFacts,
    ReferenceFile, SheetText, MAX_EXTRACTED_CHARS, MAX_FILE_BYTES,
};
use realtime_ai_translation::parts::{
    has_one_kind, has_small_parts, is_compound_file, is_small_part, is_small_tag, PartRole,
};
use realtime_ai_translation::workbook::{can_read, WorkbookKind};
use realtime_ai_translation::xml::{extract_docx_text, TextGatherer, XmlEvent, XmlTag};
use zip::{write::SimpleFileOptions, ZipWriter};

fn archive(entries: &[(&str, &str)]) -> Vec<u8> {
    let mut archive = ZipWriter::new(Cursor::new(Vec::new()));
    for (name, content) in entries {
        archive
            .start_file(*name, SimpleFileOptions::default())
            .expect("start ZIP entry");
        archive.write_all(content.as_bytes()).expect("write ZIP entry");
    }
    archive.finish().expect("finish archive").into_inner()
}

const SHEET: &str = r#"<worksheet xmlns="http://schemas.openxmlformats.org/spreadsheetml/2006/main"><sheetData><row r="1"><c r="A1" t="inlineStr"><is><t>产品名</t></is></c><c r="B1" t="inlineStr"><is><t>Aurora</t></is></c></row></sheetData></worksheet>"#;

fn workbook() -> Vec<u8> {
    workbook_of(SHEET, &[])
}

fn workbook_of(sheet: &str, more: &[(&str, &str)]) -> Vec<u8> {
    let mut entries = vec![
        (
            "[Content_Types].xml",
            r#"<Types xmlns="http://schemas.openxmlformats.org/package/2006/content-types"><Default Extension="rels" ContentType="application/vnd.openxmlformats-package.relationships+xml"/><Default Extension="xml" ContentType="application/xml"/><Override PartName="/xl/workbook.xml" ContentType="application/vnd.openxmlformats-officedocument.spreadsheetml.sheet.main+xml"/><Override PartName="/xl/worksheets/sheet1.xml" ContentType="application/vnd.openxmlformats-officedocument.spreadsheetml.worksheet+xml"/></Types>"#,
        ),
        (
            "_rels/.rels",
            r#"<Relationships xmlns="http://schemas.openxmlformats.org/package/2006/relationships"><Relationship Id="rId1" Type="http://schemas.openxmlformats.org/officeDocument/2006/relationships/officeDocument" Target="xl/workbook.xml"/></Relationships>"#,
        ),
        (
            "xl/workbook.xml",
            r#"<workbook xmlns="http://schemas.openxmlformats.org/spreadsheetml/2006/main" xmlns:r="http://schemas.openxmlformats.org/officeDocument/2006/relationships"><sheets><sheet name="Terms" sheetId="1" r:id="rId1"/></sheets></workbook>"#,
        ),
        (
            "xl/_rels/workbook.xml.rels",
            r#"<Relationships xmlns="http://schemas.openxmlformats.org/package/2006/relationships"><Relationship Id="rId1" Type="http://schemas.openxmlformats.org/officeDocument/2006/relationships/worksheet" Target="worksheets/sheet1.xml"/></Relationships>"#,
        ),
        ("xl/worksheets/sheet1.xml", sheet),
    ];
    entries.extend_from_slice(more);
    archive(&entries)
}

/// Whether a workbook is given back as it is.
fn is_given_back(bytes: Vec<u8>, kind: WorkbookKind) -> bool {
    let copy = bytes.clone();
    match try_load_reference_document(None, ReferenceFile::Xlsx(bytes, kind)) {
        Ok(_) => false,
        Err(ReferenceFile::Xlsx(back, same)) => back == copy && same == kind,
        Err(other) => panic!("unexpected {other:?}"),
    }
}

#[test]
fn loads_and_normalizes_utf8_text() {
    let document = load_reference_document(
        Some("brief.txt"),
        ReferenceFile::Text("产品名   Aurora\n\n 固定译法  Dawn".to_owned()),
    )
    .expect("load reference");
    assert_eq!(document.name, "brief.txt");
    assert_eq!(document.content, "产品名 Aurora\n固定译法 Dawn");
    assert!(!document.truncated);
}

#[test]
fn extracts_paragraphs_from_docx_xml() {
    let bytes = archive(&[(
        "word/document.xml",
        r#"<w:document xmlns:w="urn:test"><w:body><w:p><w:r><w:t>Aurora &amp; Dawn</w:t></w:r></w:p><w:p><w:r><w:t>第二段</w:t></w:r></w:p></w:body></w:document>"#,
    )]);
    let document = load_reference_document(Some("brief.docx"), ReferenceFile::Docx(bytes))
        .expect("load docx");
    assert_eq!(document.content, "Aurora & Dawn\n第二段");
}

#[test]
fn extracts_cells_and_sheet_name_from_xlsx() {
    let document = load_reference_document(
        Some("brief.xlsx"),
        ReferenceFile::Xlsx(workbook(), WorkbookKind::Xlsx),
    )
    .expect("load xlsx");
    assert_eq!(document.content, "[工作表：Terms]\n产品名 Aurora");
    assert_eq!(
        read_xlsx(workbook(), WorkbookKind::Any).expect("any kind"),
        "[工作表：Terms]\n产品名\tAurora\n"
    );
}

#[test]
fn rejects_unsupported_documents() {
    assert!(matches!(
        validate_reference_path("brief.pdf", FileFacts::File(13), Some("pdf")),
        Err(DocumentError::UnsupportedFormat)
    ));
}

#[test]
fn files_are_checked_before_they_are_read() {
    assert_eq!(
        validate_reference_path("a.txt", FileFacts::File(1), Some("TXT")),
        Ok(DocumentFormat::Text)
    );
    assert_eq!(
        validate_reference_path("a.docx", FileFacts::File(MAX_FILE_BYTES), Some("docx")),
        Ok(DocumentFormat::Docx)
    );
    assert_eq!(
        validate_reference_path("a.Xlsx", FileFacts::File(0), Some("Xlsx")),
        Ok(DocumentFormat::Xlsx)
    );
    assert_eq!(
        validate_reference_path("a.txt", FileFacts::File(MAX_FILE_BYTES + 1), Some("txt")),
        Err(DocumentError::FileTooLarge)
    );
    assert_eq!(
        validate_reference_path("/x/a.txt", FileFacts::Missing, Some("txt")),
        Err(DocumentError::NotFound("/x/a.txt".to_owned()))
    );
    assert_eq!(
        validate_reference_path("/x", FileFacts::NotAFile, None),
        Err(DocumentError::NotAFile("/x".to_owned()))
    );
    assert_eq!(
        validate_reference_path("/x", FileFacts::File(3), None),
        Err(DocumentError::UnsupportedFormat)
    );
}

#[test]
fn paths_lose_white_space_and_quotes() {
    assert_eq!(requested_path("  \"'/tmp/a b.txt'\" "), Some("/tmp/a b.txt".to_owned()));
    assert_eq!(requested_path(" '' "), None);
    assert_eq!(requested_path(""), None);
    assert_eq!(home_relative("~/notes/a.txt"), Some("notes/a.txt".to_owned()));
    assert_eq!(home_relative("~notes"), None);
    assert_eq!(home_relative("/a"), None);
}

#[test]
fn long_documents_are_cut() {
    let long = "字".repeat(MAX_EXTRACTED_CHARS + 5);
    let document = reference_from(None, &long).expect("document");
    assert!(document.truncated);
    assert_eq!(document.name, "参考文档");
    assert!(document.content.ends_with("\n[内容已截断]"));
    assert_eq!(document.content.chars().count(), MAX_EXTRACTED_CHARS + 8);
    assert_eq!(truncate_chars("abc", 3), ("abc".to_owned(), false));
    assert_eq!(truncate_chars("abcd", 3), ("abc\n[内容已截断]".to_owned(), true));
}

#[test]
fn empty_documents_are_refused() {
    assert_eq!(reference_from(Some("x"), " \n\t ").expect_err("empty"), DocumentError::Empty);
}

#[test]
fn white_space_is_tidied() {
    assert_eq!(normalize_whitespace("a \t b\r\n\n\u{3000}c"), "a b\nc");
    assert_eq!(normalize_whitespace(""), "");
    let tidied = normalize_whitespace(" x\u{a0} y \r\n \r\r\n z\r");
    assert_eq!(tidied, "x y\nz");
    assert_eq!(normalize_whitespace(&tidied), tidied);
}

#[test]
fn damaged_archives_are_refused() {
    match read_docx(b"no archive".to_vec()) {
        Err(DocumentError::Parse(message)) => assert!(message.starts_with("DOCX ZIP：")),
        other => panic!("unexpected {other:?}"),
    }
    match read_docx(archive(&[("other.xml", "<a/>")])) {
        Err(DocumentError::Parse(message)) => {
            assert!(message.starts_with("缺少 word/document.xml："))
        }
        other => panic!("unexpected {other:?}"),
    }
    match read_xlsx(b"no workbook".to_vec(), WorkbookKind::Xlsx) {
        Err(DocumentError::Parse(message)) => assert!(message.starts_with("XLSX：Xlsx error: ")),
        other => panic!("unexpected {other:?}"),
    }
    match read_xlsx(b"no workbook".to_vec(), WorkbookKind::Any) {
        Err(DocumentError::Parse(message)) => {
            assert_eq!(message, "XLSX：Cannot detect file format")
        }
        other => panic!("unexpected {other:?}"),
    }
}

#[test]
fn compound_files_are_given_back() {
    let mut bytes = vec![0xd0, 0xcf, 0x11, 0xe0, 0xa1, 0xb1, 0x1a, 0xe1];
    bytes.resize(511, 0xff);
    assert!(!is_compound_file(&bytes));
    match read_xlsx(bytes.clone(), WorkbookKind::Xlsx) {
        Err(DocumentError::Parse(message)) => assert!(message.starts_with("XLSX：Xlsx error: ")),
        other => panic!("unexpected {other:?}"),
    }
    for length in [512usize, 2_000] {
        bytes.resize(length, 0xff);
        assert!(is_compound_file(&bytes));
        assert!(is_given_back(bytes.clone(), WorkbookKind::Xlsx));
        assert!(is_given_back(bytes.clone(), WorkbookKind::Any));
    }
    assert!(!is_compound_file(&workbook()));
}

#[test]
fn numbers_out_of_bounds_are_given_back() {
    for sheet in [
        r#"<worksheet><dimension ref="B2:A1"/><sheetData/></worksheet>"#,
        r#"<worksheet><dimension ref="A2:B1"/><sheetData/></worksheet>"#,
        r#"<x:worksheet xmlns:x="u"><x:dimension  ref = 'B1:A1'></x:dimension></x:worksheet>"#,
        r#"<worksheet><dimension ref="A1:ABCD1"/><sheetData/></worksheet>"#,
        r#"<worksheet><sheetData><row r="12345678"/></sheetData></worksheet>"#,
        r#"<worksheet><sheetData><row r="1"><c r="ABCDEFGHIJ1"/></row></sheetData></worksheet>"#,
        r#"<worksheet><sheetData><row r="1"><c t="n" r="A99999999999"/></row></sheetData></worksheet>"#,
    ] {
        assert!(is_given_back(workbook_of(sheet, &[]), WorkbookKind::Xlsx), "{sheet}");
        assert!(is_given_back(workbook_of(sheet, &[]), WorkbookKind::Any), "{sheet}");
    }
    let strings = [(
        "xl/sharedStrings.xml",
        r#"<sst count="1" uniqueCount="18446744073709551615"><si><t>a</t></si></sst>"#,
    )];
    assert!(is_given_back(workbook_of(SHEET, &strings), WorkbookKind::Xlsx));
    let styles = format!(
        r#"<styleSheet><numFmts><numFmt numFmtId="200" formatCode="{}"/></numFmts></styleSheet>"#,
        "[".repeat(256)
    );
    let styles = [("xl/styles.xml", styles.as_str())];
    assert!(is_given_back(workbook_of(SHEET, &styles), WorkbookKind::Xlsx));
}

#[test]
fn only_what_is_read_is_looked_at() {
    let sheet = SHEET.replace("<sheetData>", r#"<dimension ref="A001:B1"/><sheetData>"#).replace(
        "</worksheet>",
        r#"<dimension ref="B2:A1"/></worksheet>"#,
    );
    let code = "0".repeat(300);
    let styles = format!(
        r#"<styleSheet><numFmts><numFmt numFmtId="200" formatCode="[Red]{code}"/></numFmts></styleSheet>"#
    );
    let more = [
        (
            "xl/sharedStrings.xml",
            r#"<sst count="1" uniqueCount="000000001"><si><t>a</t></si></sst>"#,
        ),
        ("xl/styles.xml", styles.as_str()),
        ("xl/media/picture.png", "\u{1}<c r=\u{2}"),
        ("xl/calcChain.xml", r#"<calcChain><c r="A99999999999"/></calcChain>"#),
        (
            "xl/worksheets/left.xml",
            r#"<worksheet><dimension ref="B2:A1"/><sheetData/></worksheet>"#,
        ),
    ];
    for kind in [WorkbookKind::Xlsx, WorkbookKind::Any] {
        assert!(can_read(&workbook_of(&sheet, &more), kind));
        assert_eq!(
            read_xlsx(workbook_of(&sheet, &more), kind).expect("workbook"),
            "[工作表：Terms]\n产品名\tAurora\n"
        );
    }
}

#[test]
fn complaints_of_the_reader_are_passed_on() {
    let no_column = SHEET.replace(r#"r="A1""#, r#"r="1""#);
    match read_xlsx(workbook_of(&no_column, &[]), WorkbookKind::Xlsx) {
        Err(DocumentError::Parse(message)) => assert!(message.starts_with("工作表 Terms：")),
        other => panic!("unexpected {other:?}"),
    }
    assert!(!is_given_back(workbook_of(&no_column, &[]), WorkbookKind::Any));
}

#[test]
fn other_kinds_of_workbooks_are_given_back() {
    for name in ["mimetype", "xl/workbook.bin", "XL\\Styles.bin", "xl/sharedStrings.BIN"] {
        let bytes = workbook_of(SHEET, &[(name, "")]);
        assert!(read_xlsx(bytes.clone(), WorkbookKind::Xlsx).is_ok());
        assert!(read_xlsx(bytes.clone(), WorkbookKind::Any).is_ok());
        assert!(!is_given_back(bytes, WorkbookKind::Any));
        let other = archive(&[(name, "")]);
        assert!(!has_one_kind(&other));
        assert!(is_given_back(other.clone(), WorkbookKind::Any));
        assert!(!is_given_back(other, WorkbookKind::Xlsx));
    }
    assert!(has_one_kind(&workbook()));
    assert!(has_one_kind(&b"no archive".to_vec()));
}

#[test]
fn sheets_can_be_taken_one_by_one() {
    let mut text = SheetText::new();
    assert!(!text.is_full());
    let rows = vec![vec!["a".to_owned(), "b".to_owned()]];
    assert_eq!(text.take_sheet("One", Ok(rows)), Ok(()));
    assert_eq!(
        text.take_sheet("Two", Err("gone".to_owned())),
        Err(DocumentError::Parse("工作表 Two：gone".to_owned()))
    );
    assert_eq!(text.take_sheet("Three", Ok(vec![vec!["x".repeat(12_000)]])), Ok(()));
    assert!(text.is_full());
    assert!(text.into_text().starts_with("[工作表：One]\na\tb\n[工作表：Three]\nxxx"));
    assert_eq!(opening_error("no"), DocumentError::Parse("XLSX：no".to_owned()));
}

#[test]
fn background_puts_the_given_text_first() {
    assert_eq!(background(" given ", Some("document")), Some("given\ndocument".to_owned()));
    assert_eq!(background("given", None), Some("given".to_owned()));
    assert_eq!(background("", Some(" document")), Some("document".to_owned()));
    assert_eq!(background(" ", Some("\n")), None);
    let long = background(&"g".repeat(11_998), Some("document")).expect("background");
    assert_eq!(long, format!("{}\nd\n[内容已截断]", "g".repeat(11_998)));
    let full = background(&"g".repeat(13_000), Some("document")).expect("background");
    assert_eq!(full, format!("{}\n[内容已截断]", "g".repeat(12_000)));
}

#[test]
fn tags_are_held_to_their_bounds() {
    let tag = |role: PartRole, inside: bool, name: &str, attributes: &str| {
        let tag = XmlTag { name: name.to_owned(), attributes: attributes.to_owned() };
        is_small_tag(role, inside, &tag)
    };
    let cell = |attributes: &str| tag(PartRole::Sheet, true, "c", attributes);
    assert!(cell(r#" r="XFD1048576""#));
    assert!(cell(r#" r="A0000000000001""#));
    assert!(cell(r#" r="A1 99999999999""#));
    assert!(!cell(r#" r="XFDA1""#));
    assert!(!cell(" r\t=\n'A12345678'"));
    assert!(cell(r#" s="A12345678""#));
    assert!(tag(PartRole::Sheet, true, "cell", r#" r="A12345678""#));
    assert!(tag(PartRole::Sheet, false, "c", r#" r="A12345678""#));
    let dimension = |attributes: &str| tag(PartRole::Sheet, false, "dimension", attributes);
    assert!(dimension(r#" ref="A1""#));
    assert!(dimension(r#" ref="a1:B2""#));
    assert!(dimension(r#" ref="Z1:AA1""#));
    assert!(!dimension(r#" ref="AA1:Z1""#));
    assert!(dimension(r#" ref="B2:A1:C3""#));
    assert!(dimension(r#" ref="B2:1""#));
    assert!(!dimension(r#" ref="A1:B2:C12345678""#));
    assert!(tag(PartRole::Strings, false, "sst", r#" uniqueCount="9999999""#));
    assert!(tag(PartRole::Strings, false, "sst", r#" uniqueCount="10000000x""#));
    assert!(!tag(PartRole::Strings, false, "sst", r#" uniqueCount="10000000""#));
    assert!(is_small_part(PartRole::Sheet, &b"no tags".to_vec()));
    assert!(is_small_part(PartRole::Sheet, &br#"<row r="12345678">"#.to_vec()));
    assert!(!is_small_part(PartRole::Sheet, &br#"<sheetData><row r="12345678">"#.to_vec()));
    assert!(has_small_parts(&workbook()));
}

#[test]
fn text_that_is_no_utf8_cannot_be_read() {
    let mut writer = ZipWriter::new(Cursor::new(Vec::new()));
    writer
        .start_file("word/document.xml", SimpleFileOptions::default())
        .expect("start");
    writer.write_all(&[0xff, 0xfe, 0x00]).expect("write");
    let bytes = writer.finish().expect("finish").into_inner();
    assert!(matches!(read_docx(bytes), Err(DocumentError::Read(_))));
}

#[test]
fn document_text_follows_tags_and_references() {
    assert_eq!(
        extract_docx_text(
            "<p>skip<t>a\r\nb</t><tab/><br/><t>&lt;&#65;&#x42;&unknown;&apos;&quot;&gt;</t></p><tab></tab>"
        ),
        Ok("a\nb\t\n<AB'\">\n\t".to_owned())
    );
    assert!(extract_docx_text("<t>&#0;</t>").is_err());
    assert!(extract_docx_text("<t>").is_ok());
    assert!(extract_docx_text("<t></p>").is_err());
    assert_eq!(extract_docx_text("<a>&#0;</a>"), Ok(String::new()));
}

#[test]
fn gathered_text_depends_on_the_run() {
    let mut gatherer = TextGatherer::new();
    gatherer.take_event(&XmlEvent::Text("outside".to_owned()));
    gatherer.take_event(&XmlEvent::Start("t".to_owned()));
    gatherer.take_event(&XmlEvent::Text("in".to_owned()));
    gatherer.take_reference("amp", None);
    gatherer.take_reference("#33", Some('!'));
    gatherer.take_event(&XmlEvent::End("t".to_owned()));
    gatherer.take_reference("amp", None);
    gatherer.take_event(&XmlEvent::Other);
    gatherer.take_event(&XmlEvent::End("p".to_owned()));
    assert_eq!(gatherer.into_text(), "in&!\n");
}

#[test]
fn rows_are_lines_of_filled_cells() {
    let mut output = "head\n".to_owned();
    append_rows(
        &mut output,
        &vec![
            vec!["a".to_owned(), " ".to_owned(), "b".to_owned()],
            vec!["".to_owned()],
            vec!["c".to_owned()],
        ],
    );
    assert_eq!(output, "head\na\tb\nc\n");
    let mut long = "x".repeat(MAX_EXTRACTED_CHARS);
    append_rows(&mut long, &vec![vec!["a".to_owned()], vec!["b".to_owned()]]);
    assert!(long.ends_with("xa\n"));
}

#[test]
fn document_errors_have_their_messages() {
    assert_eq!(DocumentError::NotFound("p".to_owned()).message(), "参考文档不存在：p");
    assert_eq!(DocumentError::NotAFile("p".to_owned()).message(), "参考文档必须是普通文件：p");
    assert_eq!(
        DocumentError::UnsupportedFormat.message(),
        "暂只支持 .txt、.docx 和 .xlsx 参考文档"
    );
    assert_eq!(DocumentError::FileTooLarge.message(), "参考文档不能超过 20MB");
    assert_eq!(DocumentError::Empty.message(), "参考文档没有可提取的文字");
    assert_eq!(DocumentError::Read("d".to_owned()).message(), "无法读取参考文档：d");
    assert_eq!(DocumentError::Parse("d".to_owned()).message(), "无法解析参考文档：d");
}
