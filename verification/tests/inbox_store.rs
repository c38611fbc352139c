//! The inbox document: its rules, its written form, its size limit, and the loading
//! and the creation of its file.

use commandshelf::error::AppError;
use commandshelf::inbox_store::{
    check_inbox_bytes, frame_inbox_json, initialize_empty_inbox_document, judge_decoded,
    load_inbox_document, parse_inbox_document_bytes, serialize_inbox_document,
    validate_inbox_document, CreateFailure, InboxInitialization, InboxInitializationEvent,
    InboxLoad, InboxLoadEvent, MAX_INBOX_BYTES,
};
use commandshelf::model::{InboxDocument, InboxEntry};
use serde_json::Value;

/// The smallest valid document with an entry that mixes text and a link.
fn valid_document() -> InboxDocument {
    InboxDocument {
        schema_version: 1,
        items: vec![InboxEntry {
            id: "inbox-1".to_string(),
            content: "稍后查看\nhttps://example.com".to_string(),
            created_at: "2026-07-14T06:32:00.000Z".to_string(),
            updated_at: "2026-07-14T06:32:00.000Z".to_string(),
        }],
    }
}

fn entry(id: &str, content: &str, created_at: &str, updated_at: &str) -> InboxEntry {
    InboxEntry {
        id: id.to_string(),
        content: content.to_string(),
        created_at: created_at.to_string(),
        updated_at: updated_at.to_string(),
    }
}

fn with_items(items: Vec<InboxEntry>) -> InboxDocument {
    InboxDocument {
        schema_version: 1,
        items,
    }
}

fn member(value: &Value, key: &str) -> Result<String, String> {
    match value.get(key).and_then(Value::as_str) {
        Some(text) => Ok(text.to_string()),
        None => Err(format!("missing field `{key}`")),
    }
}

fn decode_entry(value: &Value) -> Result<InboxEntry, String> {
    Ok(InboxEntry {
        id: member(value, "id")?,
        content: member(value, "content")?,
        created_at: member(value, "createdAt")?,
        updated_at: member(value, "updatedAt")?,
    })
}

/// Decodes a document as an application does.
fn decode(bytes: &[u8]) -> Result<InboxDocument, String> {
    let value: Value = serde_json::from_slice(bytes).map_err(|error| error.to_string())?;
    let schema_version = match value.get("schemaVersion").and_then(Value::as_u64) {
        Some(version) => u32::try_from(version).map_err(|error| error.to_string())?,
        None => return Err("missing field `schemaVersion`".to_string()),
    };
    let items = match value.get("items").and_then(Value::as_array) {
        Some(items) => items
            .iter()
            .map(decode_entry)
            .collect::<Result<Vec<_>, _>>()?,
        None => return Err("missing field `items`".to_string()),
    };
    Ok(InboxDocument {
        schema_version,
        items,
    })
}

/// Runs a creation on a file that is held in memory.
fn create(file: &mut Option<Vec<u8>>, write_fails: bool) -> Result<(), AppError> {
    let mut run = initialize_empty_inbox_document();
    loop {
        let event = match &run {
            InboxInitialization::CreateNew { .. } => InboxInitializationEvent::Created {
                created: if file.is_some() {
                    Err(CreateFailure {
                        already_exists: true,
                        detail: "File exists".to_string(),
                    })
                } else {
                    *file = Some(Vec::new());
                    Ok(())
                },
            },
            InboxInitialization::WriteContents { contents } => InboxInitializationEvent::Written {
                written: if write_fails {
                    *file = Some(contents[..3].to_vec());
                    Err("No space left on device".to_string())
                } else {
                    *file = Some(contents.clone());
                    Ok(())
                },
            },
            InboxInitialization::RemoveIncomplete { .. } => {
                *file = None;
                InboxInitializationEvent::Removed
            }
            InboxInitialization::Finished { outcome } => return outcome.clone(),
        };
        run = run.advance(event);
    }
}

/// Loads a file that is held in memory.
fn load(file: &Option<Vec<u8>>) -> Result<(InboxDocument, String), AppError> {
    let size = match file {
        Some(bytes) => Ok(bytes.len() as u64),
        None => Err("No such file".to_string()),
    };
    let mut run = load_inbox_document(size);
    loop {
        let event = match &run {
            InboxLoad::ReadContents => InboxLoadEvent::Contents {
                contents: file.clone().ok_or("No such file".to_string()),
            },
            InboxLoad::Decode { bytes } => InboxLoadEvent::Decoded {
                decoded: decode(bytes),
            },
            InboxLoad::Finished { outcome } => return outcome.clone(),
        };
        run = run.advance(event);
    }
}

#[test]
fn initializes_once_without_replacing_existing_document() {
    let mut file: Option<Vec<u8>> = None;

    create(&mut file, false).expect("首次初始化应成功");
    let original_bytes = file.clone().expect("应能读取初始化文件");
    let (document, hash) = load(&file).expect("初始化文档应可加载");

    assert_eq!(document, InboxDocument::empty());
    assert_eq!(hash.len(), 64, "SHA-256 应使用 64 位十六进制文本");
    let error = create(&mut file, false).expect_err("已有文件不得被初始化覆盖");
    assert_eq!(error.code, "INBOX_ALREADY_EXISTS");
    assert_eq!(file.expect("已有文档应保留"), original_bytes);
}

#[test]
fn rejects_unsupported_schema_version() {
    let mut document = valid_document();
    document.schema_version = 2;

    let error = validate_inbox_document(&document).expect_err("未来版本应被拒绝");
    assert_eq!(error.code, "INBOX_UNSUPPORTED_SCHEMA");
}

#[test]
fn rejects_duplicate_ids_and_blank_required_fields() {
    let mut duplicate = valid_document();
    duplicate.items.push(duplicate.items[0].clone());
    assert_eq!(
        validate_inbox_document(&duplicate)
            .expect_err("重复 ID 应被拒绝")
            .code,
        "INBOX_INVALID"
    );

    let mut blank_content = valid_document();
    blank_content.items[0].content = " \n ".to_string();
    assert_eq!(
        validate_inbox_document(&blank_content)
            .expect_err("空白内容应被拒绝")
            .code,
        "INBOX_INVALID"
    );

    let mut blank_time = valid_document();
    blank_time.items[0].updated_at.clear();
    assert_eq!(
        validate_inbox_document(&blank_time)
            .expect_err("空更新时间应被拒绝")
            .code,
        "INBOX_INVALID"
    );
}

#[test]
fn serializes_stable_format_and_round_trips() {
    let document = valid_document();
    let bytes = serialize_inbox_document(&document).expect("合法文档应可序列化");
    let text = std::str::from_utf8(&bytes).expect("序列化结果应为 UTF-8");

    assert!(text.contains("\"schemaVersion\": 1"));
    assert!(text.contains("\"createdAt\""));
    assert!(text.ends_with('\n'));
    assert!(!text.contains("\r\n"));
    let (reloaded, _) = parse_inbox_document_bytes(&bytes, decode).expect("序列化结果应可读回");
    assert_eq!(reloaded, document);
}

#[test]
fn rejects_document_over_size_limit() {
    let bytes = vec![b' '; MAX_INBOX_BYTES as usize + 1];

    let error = parse_inbox_document_bytes(&bytes, decode).expect_err("超限文件应被拒绝");
    assert_eq!(error.code, "INBOX_TOO_LARGE");
}

#[test]
fn never_decodes_what_is_refused_before() {
    let oversized = vec![b' '; MAX_INBOX_BYTES as usize + 1];
    let not_text = vec![0xff, 0xfe];
    for bytes in [oversized, not_text] {
        let mut decoded = false;
        let result = parse_inbox_document_bytes(&bytes, |bytes: &[u8]| {
            decoded = true;
            decode(bytes)
        });
        assert!(result.is_err());
        assert!(!decoded);
    }
}

#[test]
fn writes_the_whole_format() {
    let mut document = valid_document();
    document.items.push(entry("b", "\"q\"\r\n\\", "t1", "t2"));
    let bytes = serialize_inbox_document(&document).unwrap();
    let expected = concat(&[
        "{\n",
        "  \"schemaVersion\": 1,\n",
        "  \"items\": [\n",
        "    {\n",
        "      \"id\": \"inbox-1\",\n",
        "      \"content\": \"稍后查看\\nhttps://example.com\",\n",
        "      \"createdAt\": \"2026-07-14T06:32:00.000Z\",\n",
        "      \"updatedAt\": \"2026-07-14T06:32:00.000Z\"\n",
        "    },\n",
        "    {\n",
        "      \"id\": \"b\",\n",
        "      \"content\": \"\\\"q\\\"\\r\\n\\\\\",\n",
        "      \"createdAt\": \"t1\",\n",
        "      \"updatedAt\": \"t2\"\n",
        "    }\n",
        "  ]\n",
        "}\n",
    ]);
    assert_eq!(std::str::from_utf8(&bytes).unwrap(), expected);
    assert_eq!(
        parse_inbox_document_bytes(&bytes, decode).unwrap().0,
        document
    );
}

fn concat(parts: &[&str]) -> String {
    let mut whole = String::new();
    for part in parts {
        whole.push_str(part);
    }
    whole
}

#[test]
fn writes_and_hashes_the_empty_document() {
    let bytes = serialize_inbox_document(&InboxDocument::empty()).unwrap();
    assert_eq!(
        bytes,
        b"{\n  \"schemaVersion\": 1,\n  \"items\": []\n}\n".to_vec()
    );
    let (document, hash) = parse_inbox_document_bytes(&bytes, decode).unwrap();
    assert_eq!(document, InboxDocument::empty());
    assert_eq!(
        hash,
        "0e5e19436438b496cb29a0243523d31a7369bd1228b84cc6779d8ca88eaeec17"
    );
    let compact = b"{\"schemaVersion\":1,\"items\":[]}";
    let (_, hash) = parse_inbox_document_bytes(compact, decode).unwrap();
    assert_eq!(
        hash,
        "3fec395cc64c23628f3e5ed6765c32f77628cec39f588c470450dc3c81019a2c"
    );
}

#[test]
fn distinct_documents_are_written_differently() {
    let mut written: Vec<Vec<u8>> = Vec::new();
    let documents = [
        with_items(vec![]),
        with_items(vec![entry("a", "b", "c", "d")]),
        with_items(vec![entry("a", "b", "d", "c")]),
        with_items(vec![entry("a", "b\\", "c", "d")]),
        with_items(vec![entry("a", "b\n", "c", "d")]),
        with_items(vec![entry("a", "b\\n", "c", "d")]),
        with_items(vec![entry("a", "b\", \"x\": \"", "c", "d")]),
        with_items(vec![entry("a", "b", "c", "d"), entry("e", "b", "c", "d")]),
        with_items(vec![entry("e", "b", "c", "d"), entry("a", "b", "c", "d")]),
    ];
    for document in documents {
        let bytes = serialize_inbox_document(&document).unwrap();
        assert!(bytes.ends_with(b"}\n"));
        assert!(!written.contains(&bytes));
        assert_eq!(
            parse_inbox_document_bytes(&bytes, decode).unwrap().0,
            document
        );
        written.push(bytes);
    }
}

#[test]
fn a_line_feed_behind_changes_only_the_hash() {
    let mut bytes = serialize_inbox_document(&valid_document()).unwrap();
    let (document, hash) = parse_inbox_document_bytes(&bytes, decode).unwrap();
    bytes.push(b'\n');
    let (same, other_hash) = parse_inbox_document_bytes(&bytes, decode).unwrap();
    assert_eq!(same, document);
    assert_ne!(other_hash, hash);
}

#[test]
fn a_load_leaves_the_file_as_it_was() {
    for contents in [None, Some(b"[]".to_vec()), Some(vec![0xff]), Some(b"{}".to_vec())] {
        let file = contents.clone();
        assert!(load(&file).is_err());
        assert_eq!(file, contents);
    }
    let file = Some(serialize_inbox_document(&InboxDocument::empty()).unwrap());
    let (_, hash) = load(&file).unwrap();
    assert_eq!(hash.len(), 64);
    assert!(hash.chars().all(|c| matches!(c, '0'..='9' | 'a'..='f')));
}

#[test]
fn unsupported_schema_error_names_the_version() {
    let mut document = InboxDocument::empty();
    document.schema_version = 4294967295;
    let error = validate_inbox_document(&document).unwrap_err();
    assert_eq!(
        error,
        AppError::new(
            "INBOX_UNSUPPORTED_SCHEMA",
            "不支持 inbox.json 的 schemaVersion 4294967295。".to_string(),
            "使用支持 schemaVersion 1 的临时收集文件。",
            false,
        )
    );
    document.schema_version = 0;
    assert_eq!(
        validate_inbox_document(&document).unwrap_err().message,
        "不支持 inbox.json 的 schemaVersion 0。"
    );
    assert_eq!(
        serialize_inbox_document(&document).unwrap_err().code,
        "INBOX_UNSUPPORTED_SCHEMA"
    );
}

#[test]
fn the_first_broken_rule_is_reported() {
    let message = |items: Vec<InboxEntry>| {
        let error = validate_inbox_document(&with_items(items)).unwrap_err();
        assert_eq!(error.code, "INBOX_INVALID");
        assert_eq!(
            error.suggestion,
            "修复 inbox.json 后重新加载；应用不会覆盖原文件。"
        );
        assert!(!error.retryable);
        error.message
    };
    let blank_id = "临时记录 ID 不能为空。";
    let duplicate_id = "临时记录 ID 必须在文档内唯一。";
    let blank_content = "临时记录内容不能为空。";
    let blank_time = "临时记录的创建时间和更新时间不能为空。";

    assert_eq!(message(vec![entry("", "", "", "")]), blank_id);
    assert_eq!(message(vec![entry("\u{3000}\t", "c", "t", "t")]), blank_id);
    assert_eq!(
        message(vec![entry("a", "c", "t", "t"), entry("a", "", "", "")]),
        duplicate_id
    );
    assert_eq!(
        message(vec![entry("a", "\u{a0}", "", "t")]),
        blank_content
    );
    assert_eq!(message(vec![entry("a", "c", " ", "t")]), blank_time);
    assert_eq!(message(vec![entry("a", "c", "t", "\r\n")]), blank_time);
    assert_eq!(
        message(vec![
            entry("a", "c", "t", "t"),
            entry("b", "", "t", "t"),
            entry("a", "c", "t", "t"),
        ]),
        blank_content
    );
}

#[test]
fn ids_are_told_apart_to_the_letter() {
    let document = with_items(vec![
        entry("a", "c", "t", "t"),
        entry("A", "c", "t", "t"),
        entry(" a", "c", "t", "t"),
        entry("a\u{200b}", "c", "t", "t"),
    ]);
    assert_eq!(validate_inbox_document(&document), Ok(()));
    assert_eq!(validate_inbox_document(&InboxDocument::empty()), Ok(()));
}

#[test]
fn reports_text_that_is_not_utf8() {
    let error = check_inbox_bytes(&[b'{', 0xc3, 0x28, b'}']).unwrap_err();
    assert_eq!(
        error,
        AppError::new(
            "INBOX_INVALID",
            "inbox.json 不是有效 UTF-8 文本。".to_string(),
            "用 UTF-8 编码修复文件后重新加载；应用不会覆盖原文件。",
            false,
        )
    );
    assert_eq!(check_inbox_bytes("中".as_bytes()), Ok(()));
    assert_eq!(check_inbox_bytes(&[]), Ok(()));
}

#[test]
fn reports_json_of_another_shape() {
    let error = parse_inbox_document_bytes(b"{}", decode).unwrap_err();
    assert_eq!(
        error,
        AppError::new(
            "INBOX_INVALID",
            "inbox.json 的 JSON 结构无效：missing field `schemaVersion`".to_string(),
            "修复文件格式后重新加载；应用不会覆盖原文件。",
            false,
        )
    );
    assert_eq!(
        judge_decoded(b"{}", Err("x".to_string()))
            .unwrap_err()
            .message,
        "inbox.json 的 JSON 结构无效：x"
    );
    let invalid = with_items(vec![entry("", "c", "t", "t")]);
    assert_eq!(
        judge_decoded(b"{}", Ok(invalid)).unwrap_err().message,
        "临时记录 ID 不能为空。"
    );
}

#[test]
fn the_size_limit_is_inclusive() {
    let limit = MAX_INBOX_BYTES as usize;
    assert_eq!(limit, 10_485_760);
    assert_eq!(check_inbox_bytes(&vec![b' '; limit]), Ok(()));
    assert_eq!(
        check_inbox_bytes(&vec![b' '; limit + 1])
            .unwrap_err()
            .message,
        "inbox.json 超过第一版 10 MB 的加载上限。"
    );
    assert_eq!(
        frame_inbox_json(Ok(vec![b' '; limit - 1])).unwrap().len(),
        limit
    );
    let error = frame_inbox_json(Ok(vec![b' '; limit])).unwrap_err();
    assert_eq!(error.code, "INBOX_TOO_LARGE");
    assert_eq!(error.message, "生成的 inbox.json 将超过第一版 10 MB 上限。");
    assert_eq!(error.suggestion, "精简临时记录内容后重试。");
}

#[test]
fn refuses_to_write_a_document_that_is_too_large() {
    let mut document = valid_document();
    document.items[0].content = "x".repeat(MAX_INBOX_BYTES as usize);
    assert_eq!(
        serialize_inbox_document(&document).unwrap_err().code,
        "INBOX_TOO_LARGE"
    );
}

#[test]
fn reports_json_that_could_not_be_made() {
    assert_eq!(
        frame_inbox_json(Err("no".to_string())).unwrap_err(),
        AppError::new(
            "INBOX_SERIALIZE_FAILED",
            "无法生成 inbox.json：no".to_string(),
            "保留当前内容并重试。",
            true,
        )
    );
}

#[test]
fn load_reports_a_missing_and_an_unreadable_file() {
    assert_eq!(
        load(&None).unwrap_err(),
        AppError::new(
            "INBOX_NOT_FOUND",
            "无法读取 inbox.json：No such file".to_string(),
            "确认临时收集文件仍在仓库根目录后重试。",
            true,
        )
    );
    let run = load_inbox_document(Ok(3)).advance(InboxLoadEvent::Contents {
        contents: Err("denied".to_string()),
    });
    match run {
        InboxLoad::Finished {
            outcome: Err(error),
        } => assert_eq!(
            error,
            AppError::new(
                "INBOX_READ_FAILED",
                "无法读取 inbox.json：denied".to_string(),
                "检查文件权限和磁盘状态后重试。",
                true,
            )
        ),
        _ => panic!("the load has to end"),
    }
}

#[test]
fn load_does_not_read_an_oversized_file() {
    match load_inbox_document(Ok(MAX_INBOX_BYTES + 1)) {
        InboxLoad::Finished {
            outcome: Err(error),
        } => assert_eq!(error.code, "INBOX_TOO_LARGE"),
        _ => panic!("the load has to end"),
    }
    assert!(matches!(
        load_inbox_document(Ok(MAX_INBOX_BYTES)),
        InboxLoad::ReadContents
    ));
    // The file has grown since its size was asked for.
    let run = load_inbox_document(Ok(1)).advance(InboxLoadEvent::Contents {
        contents: Ok(vec![b' '; MAX_INBOX_BYTES as usize + 1]),
    });
    match run {
        InboxLoad::Finished {
            outcome: Err(error),
        } => assert_eq!(error.code, "INBOX_TOO_LARGE"),
        _ => panic!("the load has to end"),
    }
}

#[test]
fn load_agrees_with_parse() {
    let bytes = serialize_inbox_document(&valid_document()).unwrap();
    assert_eq!(
        load(&Some(bytes.clone())),
        parse_inbox_document_bytes(&bytes, decode)
    );
    let broken = b"[]".to_vec();
    assert_eq!(
        load(&Some(broken.clone())),
        parse_inbox_document_bytes(&broken, decode)
    );
}

#[test]
fn an_event_that_nothing_asked_for_changes_nothing() {
    let run = load_inbox_document(Ok(0)).advance(InboxLoadEvent::Decoded {
        decoded: Ok(InboxDocument::empty()),
    });
    assert!(matches!(run, InboxLoad::ReadContents));
    let run = initialize_empty_inbox_document().advance(InboxInitializationEvent::Removed);
    assert!(matches!(run, InboxInitialization::CreateNew { .. }));
}

#[test]
fn an_incomplete_new_file_is_removed() {
    let mut file: Option<Vec<u8>> = None;
    let error = create(&mut file, true).unwrap_err();
    assert_eq!(
        error,
        AppError::new(
            "INBOX_WRITE_FAILED",
            "无法完整初始化 inbox.json：No space left on device".to_string(),
            "检查磁盘状态后重试。",
            true,
        )
    );
    assert_eq!(file, None);
}

#[test]
fn reports_a_file_that_could_not_be_created() {
    let run = initialize_empty_inbox_document().advance(InboxInitializationEvent::Created {
        created: Err(CreateFailure {
            already_exists: false,
            detail: "denied".to_string(),
        }),
    });
    match run {
        InboxInitialization::Finished {
            outcome: Err(error),
        } => assert_eq!(
            error,
            AppError::new(
                "INBOX_WRITE_FAILED",
                "无法创建 inbox.json：denied".to_string(),
                "检查仓库目录权限和磁盘空间后重试。",
                true,
            )
        ),
        _ => panic!("the creation has to end"),
    }
}
