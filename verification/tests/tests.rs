use csv_codec::Reader;
use csv_codec::ReaderBuilder;
use csv_codec::Writer;

fn field(s: &str) -> Vec<u8> {
    s.as_bytes().to_vec()
}

fn row(fields: &[&str]) -> Vec<Vec<u8>> {
    fields.iter().map(|f| field(f)).collect()
}

fn buffer_string(w: &Writer) -> String {
    String::from_utf8(w.to_buffer().clone()).unwrap()
}

#[test]
fn writer_write_1() {
    let mut writer = Writer::new();
    writer.write_row(&row(&["a", "b", "c"]));
    assert_eq!(buffer_string(&writer), "a,b,c");
}

#[test]
fn writer_write_2() {
    let mut writer = Writer::new();
    writer.write_row(&row(&["a", "", "c"]));
    writer.write_row(&row(&["a", "\n", ","]));
    assert_eq!(buffer_string(&writer), "a,,c\na,\"\n\",\",\"");
}

#[test]
fn tests_write_1() {
    let mut writer = Writer::new();
    writer.write_row(&row(&["a", "b", "c"]));
    assert_eq!(buffer_string(&writer), "a,b,c");
}

#[test]
fn tests_write_2() {
    let mut writer = Writer::new();
    writer.write_row(&row(&["a", "", "c"]));
    writer.write_row(&row(&["a", "\n", ","]));
    assert_eq!(buffer_string(&writer), "a,,c\na,\"\n\",\",\"");
}

#[test]
fn empty_input_yields_no_rows_and_no_header() {
    let mut reader = Reader::from(Vec::new());
    let rows = reader.iter();
    assert_eq!(rows.len(), 0);
    assert!(reader.state.headers.is_none());
}

#[test]
fn empty_input_read_row_is_none() {
    let mut reader = Reader::from(Vec::new());
    assert!(reader.read_row().is_none());
    assert!(reader.state.headers.is_none());
}

#[test]
fn header_is_captured_and_withheld() {
    let mut reader = Reader::from(field("h1,h2,h3\na,b,c"));
    let rows = reader.iter();
    assert_eq!(rows, vec![row(&["a", "b", "c"])]);
    assert_eq!(reader.state.headers, Some(row(&["h1", "h2", "h3"])));
}

#[test]
fn header_kept_as_data_when_not_skipped() {
    let mut reader = ReaderBuilder::new()
        .skip_headers(false)
        .from(field("h1,h2\na,b"));
    let rows = reader.iter();
    assert_eq!(rows, vec![row(&["h1", "h2"]), row(&["a", "b"])]);
    assert_eq!(reader.state.headers, Some(row(&["h1", "h2"])));
}

#[test]
fn read_row_steps_through_data_rows() {
    let mut reader = Reader::from(field("h1,h2\na,b\nc,d"));
    assert_eq!(reader.read_row(), Some(row(&["a", "b"])));
    assert_eq!(reader.read_row(), Some(row(&["c", "d"])));
    assert_eq!(reader.read_row(), None);
    assert_eq!(reader.state.headers, Some(row(&["h1", "h2"])));
}

#[test]
fn custom_delimiter() {
    let mut reader = ReaderBuilder::new()
        .delimiter(b'|')
        .skip_headers(false)
        .from(field("x|y\nz|w"));
    let rows = reader.iter();
    assert_eq!(rows, vec![row(&["x", "y"]), row(&["z", "w"])]);
}

#[test]
fn whitespace_trimmed_when_on() {
    let mut reader = ReaderBuilder::new()
        .skip_headers(false)
        .from(field(" a , b ,c "));
    let rows = reader.iter();
    assert_eq!(rows, vec![row(&["a", "b", "c"])]);
}

#[test]
fn whitespace_kept_when_trimming_off() {
    let mut reader = ReaderBuilder::new()
        .skip_headers(false)
        .trim_whitespace(false)
        .from(field(" a , b ,c "));
    let rows = reader.iter();
    assert_eq!(rows, vec![row(&[" a ", " b ", "c "])]);
}

#[test]
fn crlf_line_endings_are_stripped() {
    let mut reader = ReaderBuilder::new()
        .skip_headers(false)
        .trim_whitespace(false)
        .from(field("a,b\r\nc,d"));
    let rows = reader.iter();
    assert_eq!(rows, vec![row(&["a", "b"]), row(&["c", "d"])]);
}

#[test]
fn plain_rows_round_trip() {
    let written = vec![row(&["x", "y"]), row(&["z", "w"])];
    let mut writer = Writer::new();
    writer.write_row(&written[0]);
    writer.write_row(&written[1]);
    let mut reader = ReaderBuilder::new()
        .skip_headers(false)
        .trim_whitespace(false)
        .from(writer.to_buffer().clone());
    let rows = reader.iter();
    assert_eq!(rows, written);
}

#[test]
fn custom_delimiter_round_trip() {
    let written = vec![row(&["x", "y"]), row(&["z", "w"])];
    let mut writer = Writer::with_delimiter(b'|');
    writer.write_row(&written[0]);
    writer.write_row(&written[1]);
    assert_eq!(buffer_string(&writer), "x|y\nz|w");
    let mut reader = ReaderBuilder::new()
        .delimiter(b'|')
        .skip_headers(false)
        .trim_whitespace(false)
        .from(writer.to_buffer().clone());
    assert_eq!(reader.iter(), written);
}

#[test]
fn field_with_quote_byte_is_wrapped() {
    let mut writer = Writer::new();
    writer.write_row(&row(&["q\"x", "y"]));
    assert_eq!(buffer_string(&writer), "\"q\"x\",y");
}

#[test]
fn field_with_backslash_is_wrapped() {
    let mut writer = Writer::new();
    writer.write_row(&row(&["a\\b"]));
    assert_eq!(buffer_string(&writer), "\"a\\b\"");
}

#[test]
fn rows_joined_by_single_newline_no_trailing() {
    let mut writer = Writer::new();
    writer.write_row(&row(&["a"]));
    writer.write_row(&row(&["b"]));
    writer.write_row(&row(&["c"]));
    assert_eq!(buffer_string(&writer), "a\nb\nc");
}

#[test]
fn empty_fields_kept_by_reader() {
    let mut reader = ReaderBuilder::new()
        .skip_headers(false)
        .trim_whitespace(false)
        .from(field("a,,c"));
    let rows = reader.iter();
    assert_eq!(rows, vec![row(&["a", "", "c"])]);
}
