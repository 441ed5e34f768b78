use discord_extractor::application::ExtractionServiceImpl;
use discord_extractor::domain::ExtractedRecord;
use discord_extractor::grouping::group_records;
use discord_extractor::markdown::MarkdownWriterAdapter;
use discord_extractor::ports::DataRepository;
use discord_extractor::ports::ExtractionError;
use discord_extractor::ports::MarkdownWriter;
use discord_extractor::sqlite::SqliteDataRepository;
use discord_extractor::text::str_compare;
use discord_extractor::text::usize_to_dec_string;
use discord_extractor::utils::extract_year_month;
use discord_extractor::utils::format_timestamp_to_local;
use discord_extractor::utils::parse_timestamp_epoch;
use discord_extractor::utils::partition_key_of;

fn record(channel: &str, user: &str, timestamp: &str, content: &str) -> ExtractedRecord {
    ExtractedRecord {
        channel_name: channel.to_string(),
        username: user.to_string(),
        timestamp: timestamp.to_string(),
        content: content.to_string(),
    }
}

fn adapter() -> MarkdownWriterAdapter {
    MarkdownWriterAdapter::new("out".to_string())
}

#[test]
fn test_partition_key_of_normalized_timestamp() {
    let display = format_timestamp_to_local("2025-12-16 10:30:00");
    assert_eq!(extract_year_month(&display), Some("2025-12".to_string()));
    assert_eq!(partition_key_of(&display), "2025-12");
}

#[test]
fn test_partition_key_of_empty_and_invalid() {
    assert_eq!(format_timestamp_to_local(""), "");
    assert_eq!(partition_key_of(""), "unknown");
    assert_eq!(format_timestamp_to_local("not-a-timestamp"), "not-a-timestamp");
    assert_eq!(partition_key_of("not-a-timestamp"), "unknown");
}

#[test]
fn test_parse_timestamp_epoch_cascade() {
    // all four supported encodings of the same UTC instant (or its date)
    assert_eq!(parse_timestamp_epoch("2025-12-16T10:30:00Z"), Some(1765881000));
    assert_eq!(parse_timestamp_epoch("2025-12-16T10:30:00+00:00"), Some(1765881000));
    assert_eq!(parse_timestamp_epoch("2025-12-16T10:30:00"), Some(1765881000));
    assert_eq!(parse_timestamp_epoch("2025-12-16 10:30:00"), Some(1765881000));
    assert_eq!(parse_timestamp_epoch("2025-12-16"), Some(1765843200));
    assert_eq!(parse_timestamp_epoch("not-a-timestamp"), None);
    assert_eq!(parse_timestamp_epoch(""), None);
}

#[test]
fn test_normalizer_rewrites_parsed_timestamps() {
    let input = "2025-12-16T10:30:00Z";
    let result = format_timestamp_to_local(input);
    // a parsed timestamp is re-rendered, never echoed
    assert_ne!(result, input);
    assert!(result.starts_with("2025-12-16"));
}

#[test]
fn test_format_markdown_empty_group_is_empty_document() {
    let out = adapter().format_markdown("general", &Vec::new());
    assert_eq!(out, "");
}

#[test]
fn test_format_markdown_exact_document() {
    let records = vec![
        record("general", "alice", "2025-12-16 10:30:00 UTC", "hello"),
        record("general", "bob", "2025-12-16 11:00:00 UTC", "   "),
    ];
    let out = adapter().format_markdown("general", &records);
    let expected = "# #general\n\n*2 messages*\n\n---\n\n\
        **alice** *2025-12-16 10:30:00 UTC*\n\nhello\n\n---\n\n\
        **bob** *2025-12-16 11:00:00 UTC*\n\n*[No content]*\n\n---\n\n";
    assert_eq!(out, expected);
}

#[test]
fn test_format_markdown_trims_message_body() {
    let records = vec![record("general", "alice", "2025-12-16 10:30:00 UTC", "  hi there  ")];
    let out = adapter().format_markdown("general", &records);
    assert!(out.contains("\n\nhi there\n\n"));
    assert!(!out.contains("  hi there  "));
}

#[test]
fn test_group_records_partition_counts() {
    let records = vec![
        record("general", "alice", "2025-11-05 10:00:00 UTC", "one"),
        record("random", "bob", "2025-12-01 09:00:00 UTC", "two"),
        record("general", "carol", "2025-11-20 12:00:00 UTC", "three"),
        record("general", "dave", "2025-12-02 08:00:00 UTC", "four"),
    ];
    let groups = group_records(&records);
    assert_eq!(groups.len(), 3);
    // ascending by channel, then partition
    assert_eq!(groups[0].channel, "general");
    assert_eq!(groups[0].partition, "2025-11");
    assert_eq!(groups[1].channel, "general");
    assert_eq!(groups[1].partition, "2025-12");
    assert_eq!(groups[2].channel, "random");
    assert_eq!(groups[2].partition, "2025-12");
    // stable partition: input order kept inside a group
    assert_eq!(groups[0].records.len(), 2);
    assert_eq!(groups[0].records[0].username, "alice");
    assert_eq!(groups[0].records[1].username, "carol");
    // no record lost or duplicated
    let total: usize = groups.iter().map(|g| g.records.len()).sum();
    assert_eq!(total, records.len());
}

#[test]
fn test_group_records_unknown_partition() {
    let records = vec![record("general", "alice", "whenever", "hi")];
    let groups = group_records(&records);
    assert_eq!(groups.len(), 1);
    assert_eq!(groups[0].partition, "unknown");
}

#[test]
fn test_build_documents_empty_input_no_documents() {
    let docs = adapter().build_documents(&Vec::new());
    assert_eq!(docs.len(), 0);
}

#[test]
fn test_pipeline_three_records_two_channels_two_months() {
    let records = vec![
        record("general", "alice", "2025-11-05 10:00:00 UTC", "hello"),
        record("general", "bob", "2025-12-01 09:00:00 UTC", "winter"),
        record("random", "carol", "2025-12-02 08:00:00 UTC", "aside"),
    ];
    let docs = adapter().build_documents(&records);
    assert_eq!(docs.len(), 3);
    assert_eq!(docs[0].filename, "general-2025-11.md");
    assert_eq!(docs[1].filename, "general-2025-12.md");
    assert_eq!(docs[2].filename, "random-2025-12.md");
    assert_eq!(
        docs[0].content,
        "# #general\n\n*1 messages*\n\n---\n\n\
         **alice** *2025-11-05 10:00:00 UTC*\n\nhello\n\n---\n\n"
    );
    assert_eq!(
        docs[1].content,
        "# #general\n\n*1 messages*\n\n---\n\n\
         **bob** *2025-12-01 09:00:00 UTC*\n\nwinter\n\n---\n\n"
    );
    assert_eq!(
        docs[2].content,
        "# #random\n\n*1 messages*\n\n---\n\n\
         **carol** *2025-12-02 08:00:00 UTC*\n\naside\n\n---\n\n"
    );
}

#[test]
fn test_pipeline_sanitizes_channel_in_filename() {
    let records = vec![record("chan/nel:odd", "alice", "2025-12-16 10:30:00 UTC", "hi")];
    let docs = adapter().build_documents(&records);
    assert_eq!(docs.len(), 1);
    assert_eq!(docs[0].filename, "chan-nel-odd-2025-12.md");
    // the document title keeps the original channel name
    assert!(docs[0].content.starts_with("# #chan/nel:odd\n\n"));
}

#[test]
fn test_pipeline_idempotent() {
    let records = vec![
        record("general", "alice", "2025-11-05 10:00:00 UTC", "hello"),
        record("random", "bob", "junk", ""),
        record("general", "carol", "2025-11-06 10:00:00 UTC", "again"),
    ];
    let first = adapter().build_documents(&records);
    let second = adapter().build_documents(&records);
    assert_eq!(first.len(), second.len());
    for (a, b) in first.iter().zip(second.iter()) {
        assert_eq!(a.filename, b.filename);
        assert_eq!(a.content, b.content);
    }
}

#[test]
fn test_usize_to_dec_string() {
    assert_eq!(usize_to_dec_string(0), "0");
    assert_eq!(usize_to_dec_string(7), "7");
    assert_eq!(usize_to_dec_string(10), "10");
    assert_eq!(usize_to_dec_string(120534), "120534");
}

#[test]
fn test_str_compare_order() {
    assert_eq!(str_compare("alpha", "beta"), -1);
    assert_eq!(str_compare("beta", "alpha"), 1);
    assert_eq!(str_compare("alpha", "alpha"), 0);
    assert_eq!(str_compare("alp", "alpha"), -1);
    assert_eq!(str_compare("", "a"), -1);
}

struct FailingRepo;

impl DataRepository for FailingRepo {
    fn fetch_all_records(&self) -> Result<Vec<ExtractedRecord>, ExtractionError> {
        Err(ExtractionError { message: "fetch failed".to_string() })
    }
}

struct StubRepo {
    records: Vec<ExtractedRecord>,
}

impl DataRepository for StubRepo {
    fn fetch_all_records(&self) -> Result<Vec<ExtractedRecord>, ExtractionError> {
        Ok(self.records.clone())
    }
}

struct NullWriter;

impl MarkdownWriter for NullWriter {
    fn write(&self, _records: &Vec<ExtractedRecord>) -> Result<(), ExtractionError> {
        Ok(())
    }
}

struct FailingWriter;

impl MarkdownWriter for FailingWriter {
    fn write(&self, _records: &Vec<ExtractedRecord>) -> Result<(), ExtractionError> {
        Err(ExtractionError { message: "write failed".to_string() })
    }
}

#[test]
fn test_execute_extraction_fetch_error_aborts() {
    let service = ExtractionServiceImpl::new(FailingRepo, NullWriter);
    let result = service.execute_extraction();
    assert_eq!(result.unwrap_err().message, "fetch failed");
}

#[test]
fn test_execute_extraction_write_error_surfaces() {
    let service = ExtractionServiceImpl::new(
        StubRepo { records: vec![record("general", "alice", "2025-12-16", "hi")] },
        FailingWriter,
    );
    let result = service.execute_extraction();
    assert_eq!(result.unwrap_err().message, "write failed");
}

#[test]
fn test_execute_extraction_success() {
    let service = ExtractionServiceImpl::new(StubRepo { records: Vec::new() }, NullWriter);
    assert!(service.execute_extraction().is_ok());
}

#[test]
fn test_adapter_and_repository_settings() {
    let adapter = MarkdownWriterAdapter::new("some/dir".to_string());
    assert_eq!(adapter.output_folder(), "some/dir");
    assert_eq!(adapter.extract_year_month("2025-03-01"), Some("2025-03".to_string()));
    assert_eq!(adapter.sanitize_filename(" a*b "), "a-b");
    let repo = SqliteDataRepository::new("db.sqlite".to_string());
    assert_eq!(repo.db_path(), "db.sqlite");
}
