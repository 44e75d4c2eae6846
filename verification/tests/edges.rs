use justcsv::{CsvReader, CsvReaderConfig, CsvWriter, CsvWriterConfig, Error, NewLine};

#[test]
fn writer_headers_first() {
    let mut writer = CsvWriter::new(String::new());
    writer
        .write_headers(&vec!["a".to_string(), "b".to_string()])
        .unwrap();
    writer
        .write_row(&vec!["1".to_string(), "2".to_string()])
        .unwrap();
    assert_eq!("a,b\r\n1,2", writer.into_inner());
}

#[test]
fn writer_headers_after_data_fail() {
    let mut writer = CsvWriter::new(String::new());
    writer
        .write_row(&vec!["1".to_string(), "2".to_string()])
        .unwrap();
    let before = "1,2";
    assert!(matches!(
        writer.write_headers(&vec!["a".to_string(), "b".to_string()]),
        Err(Error::WriteHeadersAfterRecords)
    ));
    assert_eq!(before, writer.into_inner());
}

#[test]
fn writer_document() {
    let doc = vec![
        vec!["1".to_string(), "2".to_string()],
        vec!["3".to_string(), "4".to_string()],
    ];
    let mut writer = CsvWriter::new(String::new());
    writer.write_document(&doc).unwrap();
    assert_eq!("1,2\r\n3,4", writer.into_inner());
}

#[test]
fn writer_unix_end_of_line() {
    let config = CsvWriterConfig::new().unix_end_of_line();
    let mut writer = CsvWriter::with_config(String::new(), config);
    writer
        .write_row(&vec!["1".to_string(), "2".to_string()])
        .unwrap();
    writer
        .write_row(&vec!["3".to_string(), "4".to_string()])
        .unwrap();
    assert_eq!("1,2\n3,4", writer.into_inner());
}

#[test]
fn writer_custom_end_of_line() {
    let config = CsvWriterConfig::new().custom_end_of_line("|".to_string());
    let mut writer = CsvWriter::with_config(String::new(), config);
    writer.write_row(&vec!["1".to_string()]).unwrap();
    writer.write_row(&vec!["2".to_string()]).unwrap();
    assert_eq!("1|2", writer.into_inner());
}

#[test]
fn writer_custom_separator_and_quote() {
    let config = CsvWriterConfig::new().separator(';').escape('\'');
    let mut writer = CsvWriter::with_config(String::new(), config);
    writer
        .write_row(&vec!["plain".to_string(), "has;separator".to_string(), "has'quote".to_string()])
        .unwrap();
    assert_eq!("plain;'has;separator';'has''quote'", writer.into_inner());
}

#[test]
fn round_trip_default_config() {
    let row = vec![
        "plain".to_string(),
        "with,comma".to_string(),
        "with\"quote\"".to_string(),
        "with\nnewline".to_string(),
        "".to_string(),
    ];
    let mut writer = CsvWriter::new(String::new());
    writer.write_row(&row).unwrap();
    let text = writer.into_inner();
    let mut reader = CsvReader::new(text.as_bytes());
    assert_eq!(row, reader.next().unwrap().unwrap());
    assert!(reader.next().is_none());
}

#[test]
fn round_trip_custom_config() {
    let row = vec![
        "plain".to_string(),
        "with;separator".to_string(),
        "with'quote'".to_string(),
    ];
    let writer_config = CsvWriterConfig::new().separator(';').escape('\'');
    let mut writer = CsvWriter::with_config(String::new(), writer_config);
    writer.write_row(&row).unwrap();
    let text = writer.into_inner();
    let reader_config = CsvReaderConfig::default().separator(';').escape('\'');
    let mut reader = CsvReader::with_config(text.as_bytes(), reader_config);
    assert_eq!(row, reader.next().unwrap().unwrap());
    assert!(reader.next().is_none());
}

#[test]
fn quote_doubling_round_trip() {
    let field = "she said \"hi\" twice".to_string();
    let mut writer = CsvWriter::new(String::new());
    writer.write_row(&vec![field.clone()]).unwrap();
    let text = writer.into_inner();
    assert_eq!("\"she said \"\"hi\"\" twice\"", text);
    let mut reader = CsvReader::new(text.as_bytes());
    assert_eq!(vec![field], reader.next().unwrap().unwrap());
}

#[test]
fn unexpected_eof_on_open_quote() {
    let mut reader = CsvReader::new("a,\"unfinished".as_bytes());
    assert!(matches!(reader.next_row(), Err(Error::UnexpectedEof)));
}

#[test]
fn stream_complete_after_last_row() {
    let mut reader = CsvReader::new("a,b".as_bytes());
    assert_eq!(vec!["a", "b"], reader.next_row().unwrap());
    assert!(matches!(reader.next_row(), Err(Error::StreamComplete)));
}

#[test]
fn malformed_record_error() {
    let mut reader = CsvReader::new("\"a\"junk,b".as_bytes());
    assert!(matches!(reader.next_row(), Err(Error::Malformed)));
}

#[test]
fn invalid_utf8_source() {
    let bytes: Vec<u8> = vec![0xff, 0xfe, 0x2c];
    let mut reader = CsvReader::new(&bytes);
    assert!(matches!(reader.next(), Some(Err(Error::InvalidUtf8))));
}

#[test]
fn cyrillic_through_reader() {
    let mut reader = CsvReader::new("мама,мыла,раму\r\nкот, \"пёс\",ёж".as_bytes());
    assert_eq!(vec!["мама", "мыла", "раму"], reader.next().unwrap().unwrap());
    assert_eq!(vec!["кот", "пёс", "ёж"], reader.next().unwrap().unwrap());
    assert!(reader.next().is_none());
}

#[test]
fn reader_config_builders() {
    let config = CsvReaderConfig::default()
        .has_headers(true)
        .separator(';')
        .escape('\'');
    assert!(config.has_headers);
    assert_eq!(';', config.separator);
    assert_eq!('\'', config.escape);
}

#[test]
fn failed_header_parse_leaves_headers_absent() {
    let buf = "\"bad\"header,row\r\n1,2".as_bytes();
    let mut reader = CsvReader::with_config(
        buf,
        CsvReaderConfig {
            has_headers: true,
            ..Default::default()
        },
    );
    assert!(reader.headers().is_none());
    assert_eq!(vec!["1", "2"], reader.next().unwrap().unwrap());
}

#[test]
fn custom_error_holds_description() {
    let e = Error::custom("something odd".to_string());
    assert_eq!(Error::Custom("something odd".to_string()), e);
}

#[test]
fn rfc_newline_as_string() {
    assert_eq!("\r\n", NewLine::Rfc.as_string());
    assert_eq!("\n", NewLine::Unix.as_string());
    assert_eq!("--", NewLine::Custom("--".to_string()).as_string());
}
