//! Reading, checking, writing and creating `inbox.json`.
//!
//! A file that is refused is never replaced by an empty document.

use crate::error::{self, AppError, ErrorModel};
use crate::model::{self, DocumentModel, EntryModel, InboxDocument, InboxEntry};
use crate::outside::{self, is_utf8, sha256_digest, to_vec_pretty};
use crate::text::{self, decimal_text, is_blank, joined, lower_hex_text};
use vstd::hash_set::StringHashSet;
use vstd::prelude::*;
use vstd::utf8;

verus! {

/// The size in bytes that an inbox file may have.
pub const MAX_INBOX_BYTES: u64 = 10 * 1024 * 1024;

/// The error of a document that breaks a rule.
pub open spec fn invalid_inbox_error(message: Seq<char>) -> ErrorModel {
    error::error_model(
        "INBOX_INVALID"@,
        message,
        "修复 inbox.json 后重新加载；应用不会覆盖原文件。"@,
        false,
    )
}

/// The error of a file that is over [`MAX_INBOX_BYTES`].
pub open spec fn oversized_error(message: Seq<char>) -> ErrorModel {
    error::error_model("INBOX_TOO_LARGE"@, message, "精简临时记录内容后重试。"@, false)
}

/// The error of a document in another version.
pub open spec fn unsupported_schema_error(schema_version: u32) -> ErrorModel {
    error::error_model(
        "INBOX_UNSUPPORTED_SCHEMA"@,
        "不支持 inbox.json 的 schemaVersion "@ + text::decimal(schema_version as nat) + "。"@,
        "使用支持 schemaVersion 1 的临时收集文件。"@,
        false,
    )
}

/// The rule that the entry at `i` breaks, if it breaks one: the first of the
/// rules, in the order in which they are checked.
pub open spec fn entry_error(items: Seq<EntryModel>, i: int) -> Option<ErrorModel> {
    let item = items[i];
    if text::blank(item.id) {
        Some(invalid_inbox_error("临时记录 ID 不能为空。"@))
    } else if exists|j: int| 0 <= j < i && #[trigger] items[j].id == item.id {
        Some(invalid_inbox_error("临时记录 ID 必须在文档内唯一。"@))
    } else if text::blank(item.content) {
        Some(invalid_inbox_error("临时记录内容不能为空。"@))
    } else if text::blank(item.created_at) || text::blank(item.updated_at) {
        Some(invalid_inbox_error("临时记录的创建时间和更新时间不能为空。"@))
    } else {
        None
    }
}

/// The error of the first entry that breaks a rule, among the first `n`.
pub open spec fn first_entry_error(items: Seq<EntryModel>, n: int) -> Option<ErrorModel>
    decreases n,
{
    if n <= 0 {
        None
    } else {
        match first_entry_error(items, n - 1) {
            Some(error) => Some(error),
            None => entry_error(items, n - 1),
        }
    }
}

/// The error that a document is refused with, if it is refused.
pub open spec fn validation_error(document: DocumentModel) -> Option<ErrorModel> {
    if document.schema_version != 1 {
        Some(unsupported_schema_error(document.schema_version))
    } else {
        first_entry_error(document.items, document.items.len() as int)
    }
}

/// A document that keeps the rules: it is in version 1, no text of an entry is
/// blank, and no two entries share an ID.
pub open spec fn valid_document(document: DocumentModel) -> bool {
    &&& document.schema_version == 1
    &&& forall|i: int|
        0 <= i < document.items.len() ==> {
            let item = #[trigger] document.items[i];
            !text::blank(item.id) && !text::blank(item.content) && !text::blank(item.created_at) && !text::blank(
                item.updated_at,
            )
        }
    &&& forall|i: int, j: int|
        0 <= i < j < document.items.len() ==> (#[trigger] document.items[i]).id != (
        #[trigger] document.items[j]).id
}

proof fn lemma_first_entry_error(items: Seq<EntryModel>, n: int)
    requires
        0 <= n <= items.len(),
    ensures
        first_entry_error(items, n) is None <==> forall|i: int|
            0 <= i < n ==> #[trigger] entry_error(items, i) is None,
    decreases n,
{
    if n > 0 {
        lemma_first_entry_error(items, n - 1);
        assert(first_entry_error(items, n) is None <==> first_entry_error(items, n - 1) is None
            && entry_error(items, n - 1) is None);
    }
}

/// A document is accepted exactly if it keeps the rules: it is in version 1, there is
/// more than white space in each of the four texts of every entry, and no two entries
/// share an ID.
pub proof fn law_accepted_iff_valid(document: DocumentModel)
    ensures
        validation_error(document) is None <==> valid_document(document),
        validation_error(document) is None <==> document.schema_version == 1 && (forall|i: int|
            0 <= i < document.items.len() ==> {
                let item = #[trigger] document.items[i];
                text::has_text(item.id) && text::has_text(item.content) && text::has_text(
                    item.created_at,
                ) && text::has_text(item.updated_at)
            }) && (forall|i: int, j: int|
            0 <= i < j < document.items.len() ==> (#[trigger] document.items[i]).id != (
            #[trigger] document.items[j]).id),
{
    let items = document.items;
    let n = items.len() as int;
    assert forall|s: Seq<char>| text::blank(s) <==> !#[trigger] text::has_text(s) by {
        text::law_blank_iff_all_white_space(s);
    }
    assert forall|s: Seq<char>| #[trigger] text::blank(s) <==> !text::has_text(s) by {
        text::law_blank_iff_all_white_space(s);
    }
    lemma_first_entry_error(items, n);
    if validation_error(document) is None {
        assert forall|i: int| 0 <= i < n implies {
            let item = #[trigger] items[i];
            !text::blank(item.id) && !text::blank(item.content) && !text::blank(item.created_at) && !text::blank(
                item.updated_at,
            )
        } by {
            assert(entry_error(items, i) is None);
        }
        assert forall|i: int, j: int| 0 <= i < j < n implies (#[trigger] items[i]).id != (
        #[trigger] items[j]).id by {
            assert(entry_error(items, j) is None);
        }
    }
    if valid_document(document) {
        assert forall|i: int| 0 <= i < n implies #[trigger] entry_error(items, i) is None by {
            assert(!text::blank(items[i].id));
        }
    }
}

/// The error of a document of another version names that version. Otherwise the error is
/// that of the first entry that breaks a rule, which the result is the place of: of the
/// rules that this entry breaks, that on the ID comes first, then that on IDs that are
/// the same, then that on the content, and then that on the times. Trying again never
/// helps.
pub proof fn law_first_broken_rule_is_reported(document: DocumentModel) -> (place: int)
    ensures
        document.schema_version != 1 ==> (validation_error(document) matches Some(error)
            && error.code == "INBOX_UNSUPPORTED_SCHEMA"@ && error.message
            == "不支持 inbox.json 的 schemaVersion "@ + text::decimal(
            document.schema_version as nat,
        ) + "。"@ && error.suggestion == "使用支持 schemaVersion 1 的临时收集文件。"@
            && !error.retryable),
        document.schema_version == 1 ==> (validation_error(document) matches Some(error) ==> {
            let items = document.items;
            let item = items[place];
            &&& 0 <= place < items.len()
            &&& forall|i: int|
                0 <= i < place ==> {
                    let earlier = #[trigger] items[i];
                    text::has_text(earlier.id) && text::has_text(earlier.content) && text::has_text(
                        earlier.created_at,
                    ) && text::has_text(earlier.updated_at)
                }
            &&& forall|i: int, j: int|
                0 <= i < j < place ==> (#[trigger] items[i]).id != (#[trigger] items[j]).id
            &&& error.code == "INBOX_INVALID"@
            &&& error.suggestion == "修复 inbox.json 后重新加载；应用不会覆盖原文件。"@
            &&& !error.retryable
            &&& if !text::has_text(item.id) {
                error.message == "临时记录 ID 不能为空。"@
            } else if exists|j: int| 0 <= j < place && (#[trigger] items[j]).id == item.id {
                error.message == "临时记录 ID 必须在文档内唯一。"@
            } else if !text::has_text(item.content) {
                error.message == "临时记录内容不能为空。"@
            } else {
                &&& error.message == "临时记录的创建时间和更新时间不能为空。"@
                &&& !text::has_text(item.created_at) || !text::has_text(item.updated_at)
            }
        }),
{
    assert forall|s: Seq<char>| text::blank(s) <==> !#[trigger] text::has_text(s) by {
        text::law_blank_iff_all_white_space(s);
    }
    if document.schema_version == 1 && validation_error(document) is Some {
        let items = document.items;
        let place = lemma_first_broken(items, items.len() as int);
        lemma_first_entry_error(items, place);
        assert forall|i: int| 0 <= i < place implies {
            let earlier = #[trigger] items[i];
            text::has_text(earlier.id) && text::has_text(earlier.content) && text::has_text(
                earlier.created_at,
            ) && text::has_text(earlier.updated_at)
        } by {
            assert(entry_error(items, i) is None);
        }
        assert forall|i: int, j: int| 0 <= i < j < place implies (#[trigger] items[i]).id != (
        #[trigger] items[j]).id by {
            assert(entry_error(items, j) is None);
        }
        place
    } else {
        0
    }
}

proof fn lemma_first_broken(items: Seq<EntryModel>, n: int) -> (place: int)
    requires
        0 <= n <= items.len(),
        first_entry_error(items, n) is Some,
    ensures
        0 <= place < n,
        first_entry_error(items, place) is None,
        first_entry_error(items, n) == entry_error(items, place),
    decreases n,
{
    if first_entry_error(items, n - 1) is Some {
        lemma_first_broken(items, n - 1)
    } else {
        n - 1
    }
}

/// Makes the error of a document that breaks a rule.
pub fn invalid_inbox(message: &str) -> (res: AppError)
    ensures
        res@ == invalid_inbox_error(message@),
{
    AppError::new(
        "INBOX_INVALID",
        message.to_owned(),
        "修复 inbox.json 后重新加载；应用不会覆盖原文件。",
        false,
    )
}

/// Makes the error of a file that is too large; reading and writing share its code.
pub fn too_large_error(message: &str) -> (res: AppError)
    ensures
        res@ == oversized_error(message@),
{
    AppError::new("INBOX_TOO_LARGE", message.to_owned(), "精简临时记录内容后重试。", false)
}

/// Checks the version of a document, and the ID, the content and the times of
/// each entry; the first rule that is broken gives the error.
pub fn validate_inbox_document(document: &InboxDocument) -> (res: Result<(), AppError>)
    ensures
        res is Ok <==> validation_error(document@) is None,
        res matches Err(error) ==> validation_error(document@) == Some(error@),
        res is Ok ==> document.schema_version == 1 && forall|i: int|
            0 <= i < document.items@.len() ==> {
                let item = #[trigger] document.items@[i];
                text::has_text(item.id@) && text::has_text(item.content@) && text::has_text(
                    item.created_at@,
                ) && text::has_text(item.updated_at@)
            },
{
    if document.schema_version != 1 {
        let mut message: String = joined(
            "不支持 inbox.json 的 schemaVersion ",
            decimal_text(document.schema_version as u128).as_str(),
        );
        message.append("。");
        return Err(
            AppError::new(
                "INBOX_UNSUPPORTED_SCHEMA",
                message,
                "使用支持 schemaVersion 1 的临时收集文件。",
                false,
            ),
        );
    }
    let ghost items = document@.items;
    let mut item_ids: StringHashSet = StringHashSet::new();
    let mut i: usize = 0;
    while i < document.items.len()
        invariant
            i <= document.items.len(),
            items == document@.items,
            document@.schema_version == 1,
            first_entry_error(items, i as int) is None,
            forall|id: Seq<char>|
                item_ids@.contains(id) <==> exists|j: int|
                    0 <= j < i && #[trigger] items[j].id == id,
        decreases document.items.len() - i,
    {
        let item: &InboxEntry = &document.items[i];
        assert(items[i as int] == item@);
        proof {
            lemma_later_entry_error(items, i as int, items.len() as int);
        }
        if is_blank(item.id.as_str()) {
            return Err(invalid_inbox("临时记录 ID 不能为空。"));
        }
        if !item_ids.insert(item.id.clone()) {
            return Err(invalid_inbox("临时记录 ID 必须在文档内唯一。"));
        }
        if is_blank(item.content.as_str()) {
            return Err(invalid_inbox("临时记录内容不能为空。"));
        }
        if is_blank(item.created_at.as_str()) || is_blank(item.updated_at.as_str()) {
            return Err(invalid_inbox("临时记录的创建时间和更新时间不能为空。"));
        }
        i = i + 1;
    }
    proof {
        law_accepted_iff_valid(document@);
        assert forall|k: int| 0 <= k < document.items@.len() implies {
            let item = #[trigger] document.items@[k];
            text::has_text(item.id@) && text::has_text(item.content@) && text::has_text(
                item.created_at@,
            ) && text::has_text(item.updated_at@)
        } by {
            assert(document@.items[k] == document.items@[k]@);
        }
    }
    Ok(())
}

/// Once an entry breaks a rule after a run of entries that break none, what
/// follows it makes no difference.
proof fn lemma_later_entry_error(items: Seq<EntryModel>, i: int, n: int)
    requires
        0 <= i < n <= items.len(),
        first_entry_error(items, i) is None,
    ensures
        entry_error(items, i) is Some ==> first_entry_error(items, n) == entry_error(items, i),
    decreases n,
{
    if n > i + 1 {
        lemma_later_entry_error(items, i, n - 1);
    }
}

/// The JSON members of an entry, in the order in which they are written.
pub open spec fn entry_members(entry: EntryModel) -> Seq<(Seq<char>, Seq<char>)> {
    seq![
        ("id"@, entry.id),
        ("content"@, entry.content),
        ("createdAt"@, entry.created_at),
        ("updatedAt"@, entry.updated_at),
    ]
}

/// The members that all entries of a document are written as.
pub open spec fn document_rows(items: Seq<EntryModel>) -> Seq<Seq<(Seq<char>, Seq<char>)>> {
    items.map_values(|entry: EntryModel| entry_members(entry))
}

/// The JSON text of a document.
pub open spec fn document_json(document: DocumentModel) -> Seq<u8> {
    outside::pretty_json(
        "schemaVersion"@,
        document.schema_version,
        "items"@,
        document_rows(document.items),
    )
}

/// There are as many rows as entries, and each row holds the four members of the entry
/// in its place, and no others.
pub proof fn law_rows_follow_the_entries(items: Seq<EntryModel>, i: int)
    ensures
        document_rows(items).len() == items.len(),
        0 <= i < items.len() ==> {
            let row = document_rows(items)[i];
            &&& row.len() == 4
            &&& row[0] == ("id"@, items[i].id)
            &&& row[1] == ("content"@, items[i].content)
            &&& row[2] == ("createdAt"@, items[i].created_at)
            &&& row[3] == ("updatedAt"@, items[i].updated_at)
        },
{
}

/// The value of the member `key` of a JSON object.
pub open spec fn member(row: Seq<(Seq<char>, Seq<char>)>, key: Seq<char>) -> Seq<char> {
    row[choose|k: int| 0 <= k < row.len() && (#[trigger] row[k]).0 == key].1
}

/// The entry that a JSON object holds.
pub open spec fn entry_of(row: Seq<(Seq<char>, Seq<char>)>) -> EntryModel {
    EntryModel {
        id: member(row, "id"@),
        content: member(row, "content"@),
        created_at: member(row, "createdAt"@),
        updated_at: member(row, "updatedAt"@),
    }
}

/// `bytes` are the JSON text, with a line feed behind it, of a version and of rows in
/// which no key occurs twice.
pub open spec fn is_text_of(
    bytes: Seq<u8>,
    version: u32,
    rows: Seq<Seq<(Seq<char>, Seq<char>)>>,
) -> bool {
    &&& bytes == outside::pretty_json("schemaVersion"@, version, "items"@, rows).push(10u8)
    &&& outside::distinct_keys(rows)
}

/// The document that JSON text holds: its version, and the entry of each row, in the
/// order of the rows.
pub open spec fn document_in(bytes: Seq<u8>) -> DocumentModel {
    let (version, rows) = choose|version: u32, rows: Seq<Seq<(Seq<char>, Seq<char>)>>| #[trigger]
        is_text_of(bytes, version, rows);
    DocumentModel {
        schema_version: version,
        items: Seq::new(rows.len(), |i: int| entry_of(rows[i])),
    }
}

/// A document that is written in full is given by its version and its rows: the rows of
/// its entries, read row by row and member by member, are its entries again.
pub proof fn law_rows_give_the_entries_back(items: Seq<EntryModel>)
    ensures
        Seq::new(document_rows(items).len(), |i: int| entry_of(document_rows(items)[i])) == items,
{
    reveal_strlit("id");
    reveal_strlit("content");
    reveal_strlit("createdAt");
    reveal_strlit("updatedAt");
    assert("id"@.len() == 2 && "content"@.len() == 7);
    assert("createdAt"@.len() == 9 && "updatedAt"@.len() == 9);
    assert("createdAt"@[0] != "updatedAt"@[0]);
    let rows = document_rows(items);
    let again = Seq::new(rows.len(), |i: int| entry_of(rows[i]));
    assert forall|i: int| 0 <= i < items.len() implies #[trigger] again[i] == items[i] by {
        let row = rows[i];
        law_rows_follow_the_entries(items, i);
        assert(row[0].0 == "id"@ && row[1].0 == "content"@);
        assert(row[2].0 == "createdAt"@ && row[3].0 == "updatedAt"@);
        assert(member(row, "id"@) == items[i].id);
        assert(member(row, "content"@) == items[i].content);
        assert(member(row, "createdAt"@) == items[i].created_at);
        assert(member(row, "updatedAt"@) == items[i].updated_at);
    }
    assert(again =~= items);
}

/// The outcome of an operation that gives bytes back.
pub open spec fn bytes_outcome(outcome: Result<Vec<u8>, AppError>) -> Result<Seq<u8>, ErrorModel> {
    match outcome {
        Ok(bytes) => Ok(bytes@),
        Err(error) => Err(error@),
    }
}

/// What becomes of the JSON text of a document, or of the failure to make it: a
/// line feed ends it, and it has to fit the size limit with that line feed.
pub open spec fn framed(encoded: Result<Seq<u8>, Seq<char>>) -> Result<Seq<u8>, ErrorModel> {
    match encoded {
        Ok(json) => if json.len() + 1 > MAX_INBOX_BYTES {
            Err(oversized_error("生成的 inbox.json 将超过第一版 10 MB 上限。"@))
        } else {
            Ok(json.push(10u8))
        },
        Err(detail) => Err(
            error::error_model(
                "INBOX_SERIALIZE_FAILED"@,
                "无法生成 inbox.json："@ + detail,
                "保留当前内容并重试。"@,
                true,
            ),
        ),
    }
}

/// What writing a document gives: the error that it is refused with, or its JSON
/// text and a line feed.
pub open spec fn serialized(document: DocumentModel) -> Result<Seq<u8>, ErrorModel> {
    match validation_error(document) {
        Some(error) => Err(error),
        None => framed(Ok(document_json(document))),
    }
}

/// A document is written exactly if it keeps the rules and its JSON text has fewer than
/// 10485760 bytes; it is written as that text, of its version and its rows, and one line
/// feed. A document that breaks a rule is refused with the error of that rule, and one
/// that is too large with an error of its own.
pub proof fn law_document_is_written_in_full(document: DocumentModel)
    ensures
        ({
            let json = outside::pretty_json(
                "schemaVersion"@,
                document.schema_version,
                "items"@,
                document_rows(document.items),
            );
            match serialized(document) {
                Ok(bytes) => validation_error(document) is None && json.len() < 10485760 && bytes
                    == json.push(10u8),
                Err(error) => match validation_error(document) {
                    Some(broken) => error == broken,
                    None => {
                        &&& json.len() >= 10485760
                        &&& error.code == "INBOX_TOO_LARGE"@
                        &&& error.message == "生成的 inbox.json 将超过第一版 10 MB 上限。"@
                        &&& error.suggestion == "精简临时记录内容后重试。"@
                        &&& !error.retryable
                    },
                },
            }
        }),
{
}

/// Whatever JSON text is framed, a line feed comes behind it if it then has no more than
/// 10485760 bytes, and it is refused otherwise; that there is no text is reported with
/// the reason, and trying again can help.
pub proof fn law_text_is_framed(encoded: Result<Seq<u8>, Seq<char>>)
    ensures
        match (encoded, framed(encoded)) {
            (Ok(json), Ok(bytes)) => json.len() < 10485760 && bytes.len() == json.len() + 1
                && json.is_prefix_of(bytes) && bytes.last() == 10u8,
            (Ok(json), Err(error)) => json.len() >= 10485760 && error.code == "INBOX_TOO_LARGE"@
                && error.message == "生成的 inbox.json 将超过第一版 10 MB 上限。"@
                && error.suggestion == "精简临时记录内容后重试。"@ && !error.retryable,
            (Err(detail), Ok(_)) => false,
            (Err(detail), Err(error)) => error.code == "INBOX_SERIALIZE_FAILED"@ && error.message
                == "无法生成 inbox.json："@ + detail && error.suggestion
                == "保留当前内容并重试。"@ && error.retryable,
        },
{
    if let Ok(json) = encoded {
        assert(json.push(10u8).subrange(0, json.len() as int) =~= json);
    }
}

/// Ends the JSON text of a document with a line feed and holds it to the size
/// limit, or reports that there is no such text.
pub fn frame_inbox_json(encoded: Result<Vec<u8>, String>) -> (res: Result<Vec<u8>, AppError>)
    ensures
        bytes_outcome(res) == framed(
            match encoded {
                Ok(json) => Ok(json@),
                Err(detail) => Err(detail@),
            },
        ),
{
    match encoded {
        Ok(json) => {
            if json.len() as u64 >= MAX_INBOX_BYTES {
                return Err(too_large_error("生成的 inbox.json 将超过第一版 10 MB 上限。"));
            }
            let mut bytes: Vec<u8> = json;
            bytes.push(10u8);
            Ok(bytes)
        },
        Err(detail) => Err(
            AppError::new(
                "INBOX_SERIALIZE_FAILED",
                joined("无法生成 inbox.json：", detail.as_str()),
                "保留当前内容并重试。",
                true,
            ),
        ),
    }
}

proof fn lemma_line_feed_keeps_utf8(bytes: Seq<u8>)
    requires
        utf8::valid_utf8(bytes),
    ensures
        utf8::valid_utf8(bytes.push(10u8)),
{
    let feed = seq![10u8];
    assert(utf8::is_leading_byte_width_1(feed[0]));
    assert(utf8::codepoint_width_1(10u8) == 10) by {
        assert(10u8 & 0x7f == 10) by (bit_vector);
    }
    assert(utf8::pop_first_scalar(feed) =~= Seq::<u8>::empty());
    assert(utf8::valid_utf8(feed)) by {
        reveal_with_fuel(utf8::valid_utf8, 2);
    }
    utf8::valid_utf8_concat(bytes, feed);
    assert(bytes + feed =~= bytes.push(10u8));
}

/// The two keys of a document are not the same, and they are short.
proof fn lemma_written_keys()
    ensures
        "schemaVersion"@ != "items"@,
        utf8::encode_utf8("schemaVersion"@).len() == 13,
        utf8::encode_utf8("items"@).len() == 5,
{
    reveal_strlit("schemaVersion");
    reveal_strlit("items");
    assert("schemaVersion"@.len() != "items"@.len());
    utf8::is_ascii_chars_encode_utf8("schemaVersion"@);
    utf8::is_ascii_chars_encode_utf8("items"@);
}

/// No key occurs twice among the members of an entry.
proof fn lemma_distinct_members(items: Seq<EntryModel>)
    ensures
        outside::distinct_keys(document_rows(items)),
{
    reveal_strlit("id");
    reveal_strlit("content");
    reveal_strlit("createdAt");
    reveal_strlit("updatedAt");
    assert("id"@.len() == 2 && "content"@.len() == 7);
    assert("createdAt"@.len() == 9 && "updatedAt"@.len() == 9);
    assert("createdAt"@[0] != "updatedAt"@[0]);
    let rows = document_rows(items);
    assert forall|r: int, i: int, j: int|
        0 <= r < rows.len() && 0 <= i < j < rows[r].len() implies (#[trigger] rows[r][i]).0 != (
    #[trigger] rows[r][j]).0 by {
        let row = entry_members(items[r]);
        assert(rows[r] == row);
        assert(row[0].0 == "id"@ && row[1].0 == "content"@);
        assert(row[2].0 == "createdAt"@ && row[3].0 == "updatedAt"@);
    }
}

/// The members of entries tell the entries.
proof fn lemma_members_tell_entries(a: Seq<EntryModel>, b: Seq<EntryModel>)
    ensures
        document_rows(a) == document_rows(b) ==> a == b,
{
    if document_rows(a) == document_rows(b) {
        assert(document_rows(a).len() == a.len());
        assert(document_rows(b).len() == b.len());
        assert forall|i: int| 0 <= i < a.len() implies a[i] == b[i] by {
            let x = document_rows(a)[i];
            let y = document_rows(b)[i];
            assert(x == entry_members(a[i]) && y == entry_members(b[i]));
            assert(x[0].1 == y[0].1 && x[1].1 == y[1].1 && x[2].1 == y[2].1 && x[3].1 == y[3].1);
        }
        assert(a =~= b);
    }
}

fn entry_row(entry: &InboxEntry) -> (res: Vec<(String, String)>)
    ensures
        res.deep_view() == entry_members(entry@),
{
    let mut row: Vec<(String, String)> = Vec::new();
    row.push(("id".to_owned(), entry.id.clone()));
    row.push(("content".to_owned(), entry.content.clone()));
    row.push(("createdAt".to_owned(), entry.created_at.clone()));
    row.push(("updatedAt".to_owned(), entry.updated_at.clone()));
    assert(row.deep_view() =~= entry_members(entry@));
    row
}

/// Checks a document and writes it as JSON with an indentation of two spaces, line
/// feeds, and a line feed at the end. What it writes holds the document, entry by entry
/// and in their order, and passes every check of a reader, which gives the document
/// back with the hash of those bytes if its decoder gives the document back. No other
/// document is written as the same bytes, and the empty document is always written.
pub fn serialize_inbox_document(document: &InboxDocument) -> (res: Result<Vec<u8>, AppError>)
    ensures
        bytes_outcome(res) == serialized(document@),
        res matches Ok(bytes) ==> {
            &&& bytes@.len() >= 2
            &&& bytes@.last() == 10u8
            &&& bytes@[bytes@.len() - 2] == 125u8
            &&& !bytes@.contains(13u8)
            &&& bytes_error(bytes@) is None
            &&& judged(bytes@, Ok(document@)) == Ok::<(DocumentModel, Seq<char>), ErrorModel>(
                (document@, content_hash(bytes@)),
            )
            &&& forall|other: DocumentModel| #[trigger]
                serialized(other) == Ok::<Seq<u8>, ErrorModel>(bytes@) ==> other == document@
            &&& exists|rows: Seq<Seq<(Seq<char>, Seq<char>)>>| #[trigger]
                is_text_of(bytes@, document.schema_version, rows)
            &&& document_in(bytes@) == document@
        },
        document@ == model::empty_document() ==> res is Ok,
{
    validate_inbox_document(document)?;
    let mut rows: Vec<Vec<(String, String)>> = Vec::new();
    let mut i: usize = 0;
    while i < document.items.len()
        invariant
            i <= document.items.len(),
            rows.deep_view() == document_rows(document@.items.take(i as int)),
        decreases document.items.len() - i,
    {
        let ghost before = rows.deep_view();
        let row: Vec<(String, String)> = entry_row(&document.items[i]);
        rows.push(row);
        i = i + 1;
        assert(document@.items[i - 1] == document.items[i - 1]@);
        assert(rows.deep_view() =~= before.push(row.deep_view()));
        assert(rows.deep_view() =~= document_rows(document@.items.take(i as int)));
    }
    assert(document@.items.take(i as int) =~= document@.items);
    let encoded: Result<Vec<u8>, String> = to_vec_pretty(
        "schemaVersion",
        document.schema_version,
        "items",
        &rows,
    );
    proof {
        let json = encoded->Ok_0@;
        lemma_line_feed_keeps_utf8(json);
        lemma_written_keys();
        lemma_distinct_members(document@.items);
        assert forall|other: DocumentModel| #[trigger]
            serialized(other) == Ok::<Seq<u8>, ErrorModel>(json.push(10u8)) implies other
            == document@ by {
            assert(document_json(other) =~= json) by {
                assert(document_json(other).push(10u8).drop_last() =~= document_json(other));
                assert(json.push(10u8).drop_last() =~= json);
            }
            lemma_distinct_members(other.items);
            lemma_members_tell_entries(other.items, document@.items);
        }
        let bytes = json.push(10u8);
        let written = document_rows(document@.items);
        assert(is_text_of(bytes, document.schema_version, written));
        assert(document_in(bytes) == document@) by {
            let (version, rows) = choose|version: u32, rows: Seq<Seq<(Seq<char>, Seq<char>)>>|
             #[trigger] is_text_of(bytes, version, rows);
            let text = outside::pretty_json("schemaVersion"@, version, "items"@, rows);
            assert(text =~= json) by {
                assert(text.push(10u8).drop_last() =~= text);
                assert(json.push(10u8).drop_last() =~= json);
            }
            assert(version == document.schema_version && rows == written);
            law_rows_give_the_entries_back(document@.items);
        }
    }
    frame_inbox_json(encoded)
}

/// The hash of a file: the SHA-256 digest of its bytes in hexadecimal notation.
pub open spec fn content_hash(bytes: Seq<u8>) -> Seq<char> {
    text::lower_hex(outside::sha256(bytes))
}

/// What a hash looks like: sixty-four lower case hexadecimal digits.
pub open spec fn is_content_hash(hash: Seq<char>) -> bool {
    hash.len() == 64 && forall|i: int| 0 <= i < 64 ==> text::is_lower_hex(#[trigger] hash[i])
}

/// A decoded document, or why there is none.
pub open spec fn decoded_model(decoded: Result<InboxDocument, String>) -> Result<
    DocumentModel,
    Seq<char>,
> {
    match decoded {
        Ok(document) => Ok(document@),
        Err(detail) => Err(detail@),
    }
}

/// The outcome of an operation that gives a document and a hash back.
pub open spec fn loaded_outcome(outcome: Result<(InboxDocument, String), AppError>) -> Result<
    (DocumentModel, Seq<char>),
    ErrorModel,
> {
    match outcome {
        Ok(loaded) => Ok((loaded.0@, loaded.1@)),
        Err(error) => Err(error@),
    }
}

/// The error of bytes that are refused before they are decoded.
pub open spec fn bytes_error(bytes: Seq<u8>) -> Option<ErrorModel> {
    if bytes.len() > MAX_INBOX_BYTES {
        Some(oversized_error("inbox.json 超过第一版 10 MB 的加载上限。"@))
    } else if !utf8::valid_utf8(bytes) {
        Some(
            error::error_model(
                "INBOX_INVALID"@,
                "inbox.json 不是有效 UTF-8 文本。"@,
                "用 UTF-8 编码修复文件后重新加载；应用不会覆盖原文件。"@,
                false,
            ),
        )
    } else {
        None
    }
}

/// What becomes of what the decoder made of `bytes`: a document that keeps the
/// rules comes back with the hash of the bytes.
pub open spec fn judged(bytes: Seq<u8>, decoded: Result<DocumentModel, Seq<char>>) -> Result<
    (DocumentModel, Seq<char>),
    ErrorModel,
> {
    match decoded {
        Ok(document) => match validation_error(document) {
            Some(error) => Err(error),
            None => Ok((document, content_hash(bytes))),
        },
        Err(detail) => Err(
            error::error_model(
                "INBOX_INVALID"@,
                "inbox.json 的 JSON 结构无效："@ + detail,
                "修复文件格式后重新加载；应用不会覆盖原文件。"@,
                false,
            ),
        ),
    }
}

/// The hash of bytes tells the whole of their SHA-256 digest: the digits `2 * i` and
/// `2 * i + 1` stand for byte `i` of it, and there are no others. Bytes with different
/// digests have different hashes.
pub proof fn law_hash_tells_the_digest(bytes: Seq<u8>, other: Seq<u8>, i: int)
    ensures
        content_hash(bytes).len() == 2 * outside::sha256(bytes).len(),
        0 <= i < outside::sha256(bytes).len() ==> text::byte_at(content_hash(bytes), i)
            == outside::sha256(bytes)[i] && text::is_lower_hex(content_hash(bytes)[2 * i])
            && text::is_lower_hex(content_hash(bytes)[2 * i + 1]),
        outside::sha256(bytes) != outside::sha256(other) ==> content_hash(bytes) != content_hash(
            other,
        ),
{
    text::law_lower_hex(outside::sha256(bytes), outside::sha256(other));
}

/// Bytes go on to the decoder exactly if they are no more than 10485760 and valid UTF-8;
/// of the two the size is looked at first.
pub proof fn law_bytes_are_refused(bytes: Seq<u8>)
    ensures
        bytes_error(bytes) is None <==> bytes.len() <= 10485760 && utf8::valid_utf8(bytes),
        bytes_error(bytes) matches Some(error) ==> !error.retryable && if bytes.len() > 10485760 {
            &&& error.code == "INBOX_TOO_LARGE"@
            &&& error.message == "inbox.json 超过第一版 10 MB 的加载上限。"@
            &&& error.suggestion == "精简临时记录内容后重试。"@
        } else {
            &&& error.code == "INBOX_INVALID"@
            &&& error.message == "inbox.json 不是有效 UTF-8 文本。"@
            &&& error.suggestion == "用 UTF-8 编码修复文件后重新加载；应用不会覆盖原文件。"@
        },
{
}

/// Whatever the bytes look like, a decoded document is given back exactly if it keeps the
/// rules, as it is and with the SHA-256 digest of the bytes in hexadecimal notation.
pub proof fn law_valid_document_is_given_back(bytes: Seq<u8>, document: DocumentModel)
    ensures
        judged(bytes, Ok(document)) is Ok <==> document.schema_version == 1 && (forall|i: int|
            0 <= i < document.items.len() ==> {
                let item = #[trigger] document.items[i];
                text::has_text(item.id) && text::has_text(item.content) && text::has_text(
                    item.created_at,
                ) && text::has_text(item.updated_at)
            }) && (forall|i: int, j: int|
            0 <= i < j < document.items.len() ==> (#[trigger] document.items[i]).id != (
            #[trigger] document.items[j]).id),
        judged(bytes, Ok(document)) matches Ok(loaded) ==> loaded.0 == document && loaded.1
            == text::lower_hex(outside::sha256(bytes)),
        judged(bytes, Ok(document)) matches Err(error) ==> validation_error(document)
            == Some(error),
{
    law_accepted_iff_valid(document);
}

/// Bytes that hold no document are reported with what the decoder says, and trying again
/// does not help.
pub proof fn law_undecodable_bytes_are_reported(bytes: Seq<u8>, detail: Seq<char>)
    ensures
        judged(bytes, Err(detail)) matches Err(error) && error.code == "INBOX_INVALID"@
            && error.message == "inbox.json 的 JSON 结构无效："@ + detail && error.suggestion
            == "修复文件格式后重新加载；应用不会覆盖原文件。"@ && !error.retryable,
{
}

/// Refuses bytes that are over the size limit or not valid UTF-8.
pub fn check_inbox_bytes(bytes: &[u8]) -> (res: Result<(), AppError>)
    ensures
        res is Ok <==> bytes_error(bytes@) is None,
        res matches Err(error) ==> bytes_error(bytes@) == Some(error@),
{
    if bytes.len() as u64 > MAX_INBOX_BYTES {
        return Err(too_large_error("inbox.json 超过第一版 10 MB 的加载上限。"));
    }
    if !is_utf8(bytes) {
        return Err(
            AppError::new(
                "INBOX_INVALID",
                "inbox.json 不是有效 UTF-8 文本。".to_owned(),
                "用 UTF-8 编码修复文件后重新加载；应用不会覆盖原文件。",
                false,
            ),
        );
    }
    Ok(())
}

/// Judges what the decoder made of `bytes`: checks the document, and gives it back
/// with the hash of the bytes.
pub fn judge_decoded(bytes: &[u8], decoded: Result<InboxDocument, String>) -> (res: Result<
    (InboxDocument, String),
    AppError,
>)
    ensures
        loaded_outcome(res) == judged(bytes@, decoded_model(decoded)),
        res matches Ok(loaded) ==> is_content_hash(loaded.1@),
        res matches Ok(loaded) ==> decoded == Ok::<InboxDocument, String>(loaded.0) && forall|i: int|
            0 <= i < 32 ==> #[trigger] text::byte_at(loaded.1@, i) == outside::sha256(bytes@)[i],
        decoded matches Ok(document) ==> (res is Ok <==> valid_document(document@)),
{
    match decoded {
        Ok(document) => {
            proof {
                law_accepted_iff_valid(document@);
            }
            validate_inbox_document(&document)?;
            let digest: Vec<u8> = sha256_digest(bytes);
            let hash: String = lower_hex_text(digest.as_slice());
            proof {
                text::law_lower_hex(digest@, digest@);
            }
            Ok((document, hash))
        },
        Err(detail) => Err(
            AppError::new(
                "INBOX_INVALID",
                joined("inbox.json 的 JSON 结构无效：", detail.as_str()),
                "修复文件格式后重新加载；应用不会覆盖原文件。",
                false,
            ),
        ),
    }
}

/// Reads a document out of bytes and checks it; the hash of the bytes comes with
/// it. The decoder is only ever called on valid UTF-8 within the size limit.
pub fn parse_inbox_document_bytes<D: FnOnce(&[u8]) -> Result<InboxDocument, String>>(
    bytes: &[u8],
    decode: D,
) -> (res: Result<(InboxDocument, String), AppError>)
    requires
        bytes_error(bytes@) is None ==> call_requires(decode, (bytes,)),
    ensures
        match bytes_error(bytes@) {
            Some(error) => loaded_outcome(res) == Err::<(DocumentModel, Seq<char>), ErrorModel>(
                error,
            ),
            None => exists|decoded: Result<InboxDocument, String>|
                #[trigger] call_ensures(decode, (bytes,), decoded) && loaded_outcome(res)
                    == judged(bytes@, decoded_model(decoded)),
        },
        res matches Ok(loaded) ==> is_content_hash(loaded.1@),
        res matches Ok(loaded) ==> bytes@.len() <= 10485760 && utf8::valid_utf8(bytes@)
            && call_ensures(decode, (bytes,), Ok(loaded.0)) && valid_document(loaded.0@)
            && forall|i: int|
            0 <= i < 32 ==> #[trigger] text::byte_at(loaded.1@, i) == outside::sha256(bytes@)[i],
        bytes@.len() <= 10485760 && utf8::valid_utf8(bytes@) && (forall|
            decoded: Result<InboxDocument, String>,
        | #[trigger]
            call_ensures(decode, (bytes,), decoded) ==> decoded is Ok && valid_document(
                decoded->Ok_0@,
            )) ==> res is Ok,
{
    check_inbox_bytes(bytes)?;
    let decoded: Result<InboxDocument, String> = decode(bytes);
    judge_decoded(bytes, decoded)
}

/// A load of `inbox.json` whose size is known: the action that comes next, or how
/// it ended.
pub enum InboxLoad {
    /// Read the file.
    ReadContents,
    /// Decode these bytes.
    Decode { bytes: Vec<u8> },
    /// Nothing is left to do.
    Finished { outcome: Result<(InboxDocument, String), AppError> },
}

/// What came back of an action of an [`InboxLoad`].
pub enum InboxLoadEvent {
    /// The bytes of the file, or why it cannot be read.
    Contents { contents: Result<Vec<u8>, String> },
    /// The document, or why the bytes hold none.
    Decoded { decoded: Result<InboxDocument, String> },
}

/// The state of an [`InboxLoad`].
pub enum LoadModel {
    ReadContents,
    Decode { bytes: Seq<u8> },
    Finished { outcome: Result<(DocumentModel, Seq<char>), ErrorModel> },
}

/// What an [`InboxLoadEvent`] says.
pub enum LoadEventModel {
    Contents { contents: Result<Seq<u8>, Seq<char>> },
    Decoded { decoded: Result<DocumentModel, Seq<char>> },
}

impl View for InboxLoad {
    type V = LoadModel;

    open spec fn view(&self) -> LoadModel {
        match self {
            InboxLoad::ReadContents => LoadModel::ReadContents,
            InboxLoad::Decode { bytes } => LoadModel::Decode { bytes: bytes@ },
            InboxLoad::Finished { outcome } => LoadModel::Finished {
                outcome: loaded_outcome(*outcome),
            },
        }
    }
}

impl View for InboxLoadEvent {
    type V = LoadEventModel;

    open spec fn view(&self) -> LoadEventModel {
        match self {
            InboxLoadEvent::Contents { contents } => LoadEventModel::Contents {
                contents: match contents {
                    Ok(bytes) => Ok(bytes@),
                    Err(detail) => Err(detail@),
                },
            },
            InboxLoadEvent::Decoded { decoded } => LoadEventModel::Decoded {
                decoded: decoded_model(*decoded),
            },
        }
    }
}

/// A load and what comes back of its actions are told in full: all bytes of the file, the
/// document, the hash, and the detail of a failure.
pub proof fn law_load_is_told_in_full(load: InboxLoad, event: InboxLoadEvent)
    ensures
        match load {
            InboxLoad::ReadContents => load@ == LoadModel::ReadContents,
            InboxLoad::Decode { bytes } => load@ == (LoadModel::Decode { bytes: bytes@ }),
            InboxLoad::Finished { outcome: Ok(loaded) } => load@ == (LoadModel::Finished {
                outcome: Ok((loaded.0@, loaded.1@)),
            }),
            InboxLoad::Finished { outcome: Err(error) } => load@ == (LoadModel::Finished {
                outcome: Err(error@),
            }),
        },
        match event {
            InboxLoadEvent::Contents { contents: Ok(bytes) } => event@ == (
            LoadEventModel::Contents { contents: Ok(bytes@) }),
            InboxLoadEvent::Contents { contents: Err(detail) } => event@ == (
            LoadEventModel::Contents { contents: Err(detail@) }),
            InboxLoadEvent::Decoded { decoded: Ok(document) } => event@ == (
            LoadEventModel::Decoded { decoded: Ok(document@) }),
            InboxLoadEvent::Decoded { decoded: Err(detail) } => event@ == (
            LoadEventModel::Decoded { decoded: Err(detail@) }),
        },
{
}

/// Bytes, documents and hashes that come out of an operation are told in full, and so is
/// why there are none.
pub proof fn law_outcomes_are_told_in_full(
    written: Result<Vec<u8>, AppError>,
    decoded: Result<InboxDocument, String>,
    loaded: Result<(InboxDocument, String), AppError>,
)
    ensures
        match written {
            Ok(bytes) => bytes_outcome(written) == Ok::<Seq<u8>, ErrorModel>(bytes@),
            Err(error) => bytes_outcome(written) == Err::<Seq<u8>, ErrorModel>(error@),
        },
        match decoded {
            Ok(document) => decoded_model(decoded) == Ok::<DocumentModel, Seq<char>>(document@),
            Err(detail) => decoded_model(decoded) == Err::<DocumentModel, Seq<char>>(detail@),
        },
        match loaded {
            Ok(pair) => loaded_outcome(loaded) == Ok::<(DocumentModel, Seq<char>), ErrorModel>(
                (pair.0@, pair.1@),
            ),
            Err(error) => loaded_outcome(loaded) == Err::<(DocumentModel, Seq<char>), ErrorModel>(
                error@,
            ),
        },
{
}

/// Where a load starts, once the size of the file has been asked for.
pub open spec fn load_start(size: Result<u64, Seq<char>>) -> LoadModel {
    match size {
        Ok(size) => if size > MAX_INBOX_BYTES {
            LoadModel::Finished {
                outcome: Err(oversized_error("inbox.json 超过第一版 10 MB 的加载上限。"@)),
            }
        } else {
            LoadModel::ReadContents
        },
        Err(detail) => LoadModel::Finished {
            outcome: Err(
                error::error_model(
                    "INBOX_NOT_FOUND"@,
                    "无法读取 inbox.json："@ + detail,
                    "确认临时收集文件仍在仓库根目录后重试。"@,
                    true,
                ),
            ),
        },
    }
}

/// Where a load goes after an event. An event that nothing asked for changes
/// nothing.
pub open spec fn load_next(state: LoadModel, event: LoadEventModel) -> LoadModel {
    match (state, event) {
        (LoadModel::ReadContents, LoadEventModel::Contents { contents: Ok(bytes) }) =>
            match bytes_error(bytes) {
                Some(error) => LoadModel::Finished { outcome: Err(error) },
                None => LoadModel::Decode { bytes },
            },
        (LoadModel::ReadContents, LoadEventModel::Contents { contents: Err(detail) }) =>
            LoadModel::Finished {
                outcome: Err(
                    error::error_model(
                        "INBOX_READ_FAILED"@,
                        "无法读取 inbox.json："@ + detail,
                        "检查文件权限和磁盘状态后重试。"@,
                        true,
                    ),
                ),
            },
        (LoadModel::Decode { bytes }, LoadEventModel::Decoded { decoded }) => LoadModel::Finished {
            outcome: judged(bytes, decoded),
        },
        _ => state,
    }
}

/// Starts a load of `inbox.json` from the size that the file system reports for
/// it, or from why it reports none. A file over the limit is not read.
pub fn load_inbox_document(size: Result<u64, String>) -> (res: InboxLoad)
    ensures
        res@ == load_start(
            match size {
                Ok(size) => Ok(size),
                Err(detail) => Err(detail@),
            },
        ),
{
    match size {
        Ok(size) => if size > MAX_INBOX_BYTES {
            InboxLoad::Finished {
                outcome: Err(too_large_error("inbox.json 超过第一版 10 MB 的加载上限。")),
            }
        } else {
            InboxLoad::ReadContents
        },
        Err(detail) => InboxLoad::Finished {
            outcome: Err(
                AppError::new(
                    "INBOX_NOT_FOUND",
                    joined("无法读取 inbox.json：", detail.as_str()),
                    "确认临时收集文件仍在仓库根目录后重试。",
                    true,
                ),
            ),
        },
    }
}

impl InboxLoad {
    /// Takes what came back of the action.
    pub fn advance(self, event: InboxLoadEvent) -> (res: InboxLoad)
        ensures
            res@ == load_next(self@, event@),
            self@ is Decode ==> match res@ {
                LoadModel::Finished { outcome: Ok(loaded) } => is_content_hash(loaded.1),
                _ => true,
            },
            match (self, event) {
                (
                    InboxLoad::ReadContents,
                    InboxLoadEvent::Contents { contents: Ok(bytes) },
                ) => if bytes@.len() <= 10485760 && utf8::valid_utf8(bytes@) {
                    res == (InboxLoad::Decode { bytes })
                } else {
                    res matches InboxLoad::Finished { outcome: Err(_) }
                },
                (
                    InboxLoad::Decode { bytes },
                    InboxLoadEvent::Decoded { decoded: Ok(document) },
                ) => if valid_document(document@) {
                    res matches InboxLoad::Finished { outcome: Ok(loaded) } && loaded.0 == document
                        && loaded.1@ == content_hash(bytes@)
                } else {
                    res matches InboxLoad::Finished { outcome: Err(_) }
                },
                _ => true,
            },
    {
        match (self, event) {
            (InboxLoad::ReadContents, InboxLoadEvent::Contents { contents }) => match contents {
                Ok(bytes) => match check_inbox_bytes(bytes.as_slice()) {
                    Ok(()) => InboxLoad::Decode { bytes },
                    Err(error) => InboxLoad::Finished { outcome: Err(error) },
                },
                Err(detail) => InboxLoad::Finished {
                    outcome: Err(
                        AppError::new(
                            "INBOX_READ_FAILED",
                            joined("无法读取 inbox.json：", detail.as_str()),
                            "检查文件权限和磁盘状态后重试。",
                            true,
                        ),
                    ),
                },
            },
            (InboxLoad::Decode { bytes }, InboxLoadEvent::Decoded { decoded }) =>
                InboxLoad::Finished { outcome: judge_decoded(bytes.as_slice(), decoded) },
            (state, _) => state,
        }
    }
}

/// A file is read exactly if its size is known and no more than 10485760. Its bytes go to
/// the decoder if they are no more than that and valid UTF-8. The document in them is
/// given back exactly if it keeps the rules, as it is and with the SHA-256 digest of the
/// bytes in hexadecimal notation; this does not depend on anything else.
pub proof fn law_valid_file_is_loaded(size: u64, bytes: Seq<u8>, document: DocumentModel)
    ensures
        ({
            let start = load_start(Ok(size));
            let read = load_next(start, LoadEventModel::Contents { contents: Ok(bytes) });
            let end = load_next(read, LoadEventModel::Decoded { decoded: Ok(document) });
            &&& size <= 10485760 <==> start == LoadModel::ReadContents
            &&& size <= 10485760 && bytes.len() <= 10485760 && utf8::valid_utf8(bytes) <==> read
                == (LoadModel::Decode { bytes })
            &&& end is Finished
            &&& (end == LoadModel::Finished {
                outcome: Ok((document, text::lower_hex(outside::sha256(bytes)))),
            }) <==> size <= 10485760 && bytes.len() <= 10485760 && utf8::valid_utf8(bytes) && document.schema_version == 1 && (forall|i: int|
            0 <= i < document.items.len() ==> {
                let item = #[trigger] document.items[i];
                text::has_text(item.id) && text::has_text(item.content) && text::has_text(
                    item.created_at,
                ) && text::has_text(item.updated_at)
            }) && (forall|i: int, j: int|
            0 <= i < j < document.items.len() ==> (#[trigger] document.items[i]).id != (
            #[trigger] document.items[j]).id)
            &&& (end matches LoadModel::Finished { outcome: Ok(loaded) } ==> loaded == (
                document,
                text::lower_hex(outside::sha256(bytes)),
            ))
        }),
{
    law_accepted_iff_valid(document);
}

/// How a load that cannot go on ends: where the size cannot be found out, where it is
/// over the limit, and where the file cannot be read. What the file system says is part
/// of the message. What nothing asked for changes nothing.
pub proof fn law_load_failures_are_reported(
    detail: Seq<char>,
    size: u64,
    state: LoadModel,
    event: LoadEventModel,
)
    ensures
        load_start(Err(detail)) matches LoadModel::Finished { outcome: Err(error) } && error.code
            == "INBOX_NOT_FOUND"@ && error.message == "无法读取 inbox.json："@ + detail
            && error.suggestion == "确认临时收集文件仍在仓库根目录后重试。"@ && error.retryable,
        size > 10485760 ==> (load_start(Ok(size)) matches LoadModel::Finished {
            outcome: Err(error),
        } && error.code == "INBOX_TOO_LARGE"@ && error.message
            == "inbox.json 超过第一版 10 MB 的加载上限。"@ && error.suggestion
            == "精简临时记录内容后重试。"@ && !error.retryable),
        load_next(
            LoadModel::ReadContents,
            LoadEventModel::Contents { contents: Err(detail) },
        ) matches LoadModel::Finished { outcome: Err(error) } && error.code
            == "INBOX_READ_FAILED"@ && error.message == "无法读取 inbox.json："@ + detail
            && error.suggestion == "检查文件权限和磁盘状态后重试。"@ && error.retryable,
        state is ReadContents && event is Decoded ==> load_next(state, event) == state,
        state is Decode && event is Contents ==> load_next(state, event) == state,
        state is Finished ==> load_next(state, event) == state,
{
}

/// A load judges the bytes of a file as [`parse_inbox_document_bytes`] does.
pub proof fn law_load_judges_as_parse_does(
    size: u64,
    bytes: Seq<u8>,
    decoded: Result<DocumentModel, Seq<char>>,
)
    requires
        size <= MAX_INBOX_BYTES,
    ensures
        load_next(
            load_next(load_start(Ok(size)), LoadEventModel::Contents { contents: Ok(bytes) }),
            LoadEventModel::Decoded { decoded },
        ) == (LoadModel::Finished {
            outcome: match bytes_error(bytes) {
                Some(error) => Err(error),
                None => judged(bytes, decoded),
            },
        }),
{
}

/// A document that was written to a file is what a load of that file gives back,
/// with the hash of the file, if the decoder gives the document back. The bytes are
/// valid UTF-8, as they are whenever [`serialize_inbox_document`] wrote them.
pub proof fn law_written_document_is_loaded(document: DocumentModel, bytes: Seq<u8>)
    requires
        serialized(document) == Ok::<Seq<u8>, ErrorModel>(bytes),
        utf8::valid_utf8(bytes),
    ensures
        valid_document(document),
        bytes_error(bytes) is None,
        load_next(
            load_next(
                load_start(Ok(bytes.len() as u64)),
                LoadEventModel::Contents { contents: Ok(bytes) },
            ),
            LoadEventModel::Decoded { decoded: Ok(document) },
        ) == (LoadModel::Finished { outcome: Ok((document, content_hash(bytes))) }),
{
    law_accepted_iff_valid(document);
}

/// Every document that was written is read back with the hash of its bytes, and is the
/// only one that is written as them, if the decoder reads what was written. The bytes
/// are valid UTF-8, as they are whenever [`serialize_inbox_document`] wrote them.
pub proof fn law_written_document_is_read_back(
    document: DocumentModel,
    bytes: Seq<u8>,
    decoder: spec_fn(Seq<u8>) -> Result<DocumentModel, Seq<char>>,
)
    requires
        forall|one: DocumentModel| #[trigger]
            serialized(one) is Ok ==> decoder(serialized(one)->Ok_0) == Ok::<
                DocumentModel,
                Seq<char>,
            >(one),
        serialized(document) == Ok::<Seq<u8>, ErrorModel>(bytes),
        utf8::valid_utf8(bytes),
    ensures
        bytes_error(bytes) is None,
        judged(bytes, decoder(bytes)) == Ok::<(DocumentModel, Seq<char>), ErrorModel>(
            (document, content_hash(bytes)),
        ),
        forall|other: DocumentModel| #[trigger]
            serialized(other) == Ok::<Seq<u8>, ErrorModel>(bytes) ==> other == document,
{
}

/// A line feed behind the text of a document changes the hash and nothing else, if the
/// decoder makes the same of both.
pub proof fn law_line_feed_changes_only_the_hash(
    bytes: Seq<u8>,
    decoded: Result<DocumentModel, Seq<char>>,
    document: DocumentModel,
    hash: Seq<char>,
)
    requires
        bytes.len() < MAX_INBOX_BYTES,
        bytes_error(bytes) is None,
        judged(bytes, decoded) == Ok::<(DocumentModel, Seq<char>), ErrorModel>((document, hash)),
    ensures
        bytes_error(bytes.push(10u8)) is None,
        judged(bytes.push(10u8), decoded) == Ok::<(DocumentModel, Seq<char>), ErrorModel>(
            (document, content_hash(bytes.push(10u8))),
        ),
{
    lemma_line_feed_keeps_utf8(bytes);
}

/// Where a load is after some events.
pub open spec fn load_after(start: LoadModel, events: Seq<LoadEventModel>) -> LoadModel
    decreases events.len(),
{
    if events.len() == 0 {
        start
    } else {
        load_next(load_after(start, events.drop_last()), events.last())
    }
}

/// Whatever a load is told, it reads no file whose size is over the limit or not
/// known, it has nothing decoded but valid UTF-8 within the limit, and a document
/// that it gives back keeps the rules.
pub proof fn law_load_refuses_early(size: Result<u64, Seq<char>>, events: Seq<LoadEventModel>)
    ensures
        ({
            let state = load_after(load_start(size), events);
            &&& !(size matches Ok(n) && n <= MAX_INBOX_BYTES) ==> state == load_start(size)
                && state is Finished
            &&& state matches LoadModel::Decode { bytes } ==> bytes_error(bytes) is None
            &&& state matches LoadModel::Finished { outcome: Ok(loaded) } ==> valid_document(
                loaded.0,
            )
        }),
    decreases events.len(),
{
    if events.len() > 0 {
        law_load_refuses_early(size, events.drop_last());
        if let LoadEventModel::Decoded { decoded: Ok(document) } = events.last() {
            law_accepted_iff_valid(document);
        }
    }
}

/// Performing the action of a load turns `before` into `after`, where both are what
/// `inbox.json` holds, if it exists, and gives `event`. A load reads and decodes; it
/// has no action that writes.
pub open spec fn load_performed(
    state: LoadModel,
    before: Option<Seq<u8>>,
    event: LoadEventModel,
    after: Option<Seq<u8>>,
) -> bool {
    match state {
        LoadModel::ReadContents => after == before && match event {
            LoadEventModel::Contents { contents: Ok(bytes) } => before == Some(bytes),
            LoadEventModel::Contents { contents: Err(_) } => true,
            _ => false,
        },
        LoadModel::Decode { bytes } => after == before && event is Decoded,
        LoadModel::Finished { outcome } => after == before,
    }
}

/// A load from its start: the states it goes through, what the file holds in each of
/// them, and the event between two of them.
pub open spec fn load_run(
    size: Result<u64, Seq<char>>,
    states: Seq<LoadModel>,
    files: Seq<Option<Seq<u8>>>,
    events: Seq<LoadEventModel>,
) -> bool {
    &&& states.len() == files.len() == events.len() + 1
    &&& states[0] == load_start(size)
    &&& forall|i: int|
        #![trigger events[i]]
        0 <= i < events.len() ==> states[i + 1] == load_next(states[i], events[i])
            && load_performed(states[i], files[i], events[i], files[i + 1])
}

/// However a load goes, and however it ends, the file is as it was: an invalid one
/// keeps its bytes, and a missing one is not created. A document that a load gives
/// back comes with the hash of the file.
pub proof fn law_load_leaves_the_file_as_it_was(
    size: Result<u64, Seq<char>>,
    states: Seq<LoadModel>,
    files: Seq<Option<Seq<u8>>>,
    events: Seq<LoadEventModel>,
    i: int,
)
    requires
        load_run(size, states, files, events),
        0 <= i < states.len(),
    ensures
        files[i] == files[0],
        states[i] matches LoadModel::Decode { bytes } ==> files[0] == Some(bytes),
        match states[i] {
            LoadModel::Finished { outcome: Ok(loaded) } => files[0] is Some && loaded.1
                == content_hash(files[0]->0) && valid_document(loaded.0),
            _ => true,
        },
    decreases i,
{
    if i > 0 {
        law_load_leaves_the_file_as_it_was(size, states, files, events, i - 1);
        let event = events[i - 1];
        assert(states[i] == load_next(states[i - 1], event));
        if let LoadEventModel::Decoded { decoded: Ok(document) } = event {
            law_accepted_iff_valid(document);
        }
    }
}

/// The creation of `inbox.json`: the action that comes next, or how it ended.
pub enum InboxInitialization {
    /// Create the file, which must not exist yet.
    CreateNew { contents: Vec<u8> },
    /// Write all of the contents into the new file and flush it.
    WriteContents { contents: Vec<u8> },
    /// Remove the new file, which is incomplete.
    RemoveIncomplete { error: AppError },
    /// Nothing is left to do.
    Finished { outcome: Result<(), AppError> },
}

/// Why a file was not created.
pub struct CreateFailure {
    /// There is a file of that name already.
    pub already_exists: bool,
    /// What the file system says.
    pub detail: String,
}

/// What came back of an action of an [`InboxInitialization`].
pub enum InboxInitializationEvent {
    /// Whether the file was created.
    Created { created: Result<(), CreateFailure> },
    /// Whether the contents were written and flushed.
    Written { written: Result<(), String> },
    /// The removal was tried.
    Removed,
}

/// The state of an [`InboxInitialization`].
pub enum InitializationModel {
    CreateNew { contents: Seq<u8> },
    WriteContents { contents: Seq<u8> },
    RemoveIncomplete { error: ErrorModel },
    Finished { outcome: Result<(), ErrorModel> },
}

/// What an [`InboxInitializationEvent`] says; a creation that failed gives whether
/// the file exists already, and the detail.
pub enum InitializationEventModel {
    Created { created: Result<(), (bool, Seq<char>)> },
    Written { written: Result<(), Seq<char>> },
    Removed,
}

impl View for InboxInitialization {
    type V = InitializationModel;

    open spec fn view(&self) -> InitializationModel {
        match self {
            InboxInitialization::CreateNew { contents } => InitializationModel::CreateNew {
                contents: contents@,
            },
            InboxInitialization::WriteContents { contents } => InitializationModel::WriteContents {
                contents: contents@,
            },
            InboxInitialization::RemoveIncomplete { error } =>
                InitializationModel::RemoveIncomplete { error: error@ },
            InboxInitialization::Finished { outcome } => InitializationModel::Finished {
                outcome: error::unit_outcome(*outcome),
            },
        }
    }
}

impl View for InboxInitializationEvent {
    type V = InitializationEventModel;

    open spec fn view(&self) -> InitializationEventModel {
        match self {
            InboxInitializationEvent::Created { created } => InitializationEventModel::Created {
                created: match created {
                    Ok(()) => Ok(()),
                    Err(failure) => Err((failure.already_exists, failure.detail@)),
                },
            },
            InboxInitializationEvent::Written { written } => InitializationEventModel::Written {
                written: match written {
                    Ok(()) => Ok(()),
                    Err(detail) => Err(detail@),
                },
            },
            InboxInitializationEvent::Removed => InitializationEventModel::Removed,
        }
    }
}

/// A creation and what comes back of its actions are told in full: all of the contents,
/// and the detail of a failure.
pub proof fn law_creation_is_told_in_full(
    creation: InboxInitialization,
    event: InboxInitializationEvent,
)
    ensures
        match creation {
            InboxInitialization::CreateNew { contents } => creation@ == (
            InitializationModel::CreateNew { contents: contents@ }),
            InboxInitialization::WriteContents { contents } => creation@ == (
            InitializationModel::WriteContents { contents: contents@ }),
            InboxInitialization::RemoveIncomplete { error } => creation@ == (
            InitializationModel::RemoveIncomplete { error: error@ }),
            InboxInitialization::Finished { outcome: Ok(()) } => creation@ == (
            InitializationModel::Finished { outcome: Ok(()) }),
            InboxInitialization::Finished { outcome: Err(error) } => creation@ == (
            InitializationModel::Finished { outcome: Err(error@) }),
        },
        match event {
            InboxInitializationEvent::Created { created: Ok(()) } => event@ == (
            InitializationEventModel::Created { created: Ok(()) }),
            InboxInitializationEvent::Created { created: Err(failure) } => event@ == (
            InitializationEventModel::Created {
                created: Err((failure.already_exists, failure.detail@)),
            }),
            InboxInitializationEvent::Written { written: Ok(()) } => event@ == (
            InitializationEventModel::Written { written: Ok(()) }),
            InboxInitializationEvent::Written { written: Err(detail) } => event@ == (
            InitializationEventModel::Written { written: Err(detail@) }),
            InboxInitializationEvent::Removed => event@ == InitializationEventModel::Removed,
        },
{
}

/// The error of a file that could not be created.
pub open spec fn creation_error(already_exists: bool, detail: Seq<char>) -> ErrorModel {
    if already_exists {
        error::error_model(
            "INBOX_ALREADY_EXISTS"@,
            "inbox.json 已经存在，初始化操作已停止。"@,
            "重新加载现有临时收集文件。"@,
            false,
        )
    } else {
        error::error_model(
            "INBOX_WRITE_FAILED"@,
            "无法创建 inbox.json："@ + detail,
            "检查仓库目录权限和磁盘空间后重试。"@,
            true,
        )
    }
}

/// The error of a new file that could not be written in full.
pub open spec fn incomplete_error(detail: Seq<char>) -> ErrorModel {
    error::error_model(
        "INBOX_WRITE_FAILED"@,
        "无法完整初始化 inbox.json："@ + detail,
        "检查磁盘状态后重试。"@,
        true,
    )
}

/// Where a creation starts.
pub open spec fn initialization_start() -> InitializationModel {
    match serialized(model::empty_document()) {
        Ok(contents) => InitializationModel::CreateNew { contents },
        Err(error) => InitializationModel::Finished { outcome: Err(error) },
    }
}

/// Where a creation goes after an event. An event that nothing asked for changes
/// nothing.
pub open spec fn initialization_next(
    state: InitializationModel,
    event: InitializationEventModel,
) -> InitializationModel {
    match (state, event) {
        (
            InitializationModel::CreateNew { contents },
            InitializationEventModel::Created { created: Ok(()) },
        ) => InitializationModel::WriteContents { contents },
        (
            InitializationModel::CreateNew { contents },
            InitializationEventModel::Created { created: Err(failure) },
        ) => InitializationModel::Finished { outcome: Err(creation_error(failure.0, failure.1)) },
        (
            InitializationModel::WriteContents { contents },
            InitializationEventModel::Written { written: Ok(()) },
        ) => InitializationModel::Finished { outcome: Ok(()) },
        (
            InitializationModel::WriteContents { contents },
            InitializationEventModel::Written { written: Err(detail) },
        ) => InitializationModel::RemoveIncomplete { error: incomplete_error(detail) },
        (InitializationModel::RemoveIncomplete { error }, InitializationEventModel::Removed) =>
            InitializationModel::Finished { outcome: Err(error) },
        _ => state,
    }
}

/// Starts the creation of an inbox file that holds the empty document. The file is
/// only written if this creation is what made it, and its contents can be loaded.
pub fn initialize_empty_inbox_document() -> (res: InboxInitialization)
    ensures
        res@ == initialization_start(),
        res@ matches InitializationModel::CreateNew { contents } && {
            &&& bytes_error(contents) is None
            &&& judged(contents, Ok(model::empty_document())) == Ok::<
                (DocumentModel, Seq<char>),
                ErrorModel,
            >((model::empty_document(), content_hash(contents)))
            &&& contents == outside::pretty_json(
                "schemaVersion"@,
                1,
                "items"@,
                Seq::empty(),
            ).push(10u8)
            &&& document_in(contents).schema_version == 1
            &&& document_in(contents).items.len() == 0
        },
{
    proof {
        assert(document_rows(Seq::empty()) =~= Seq::empty());
    }
    match serialize_inbox_document(&InboxDocument::empty()) {
        Ok(contents) => InboxInitialization::CreateNew { contents },
        Err(error) => InboxInitialization::Finished { outcome: Err(error) },
    }
}

impl InboxInitialization {
    /// Takes what came back of the action.
    pub fn advance(self, event: InboxInitializationEvent) -> (res: InboxInitialization)
        ensures
            res@ == initialization_next(self@, event@),
            match (self, event) {
                (
                    InboxInitialization::CreateNew { contents },
                    InboxInitializationEvent::Created { created: Ok(()) },
                ) => res == (InboxInitialization::WriteContents { contents }),
                (
                    InboxInitialization::WriteContents { contents },
                    InboxInitializationEvent::Written { written: Ok(()) },
                ) => res == (InboxInitialization::Finished { outcome: Ok(()) }),
                _ => true,
            },
    {
        match (self, event) {
            (
                InboxInitialization::CreateNew { contents },
                InboxInitializationEvent::Created { created },
            ) => match created {
                Ok(()) => InboxInitialization::WriteContents { contents },
                Err(failure) => {
                    let error: AppError = if failure.already_exists {
                        AppError::new(
                            "INBOX_ALREADY_EXISTS",
                            "inbox.json 已经存在，初始化操作已停止。".to_owned(),
                            "重新加载现有临时收集文件。",
                            false,
                        )
                    } else {
                        AppError::new(
                            "INBOX_WRITE_FAILED",
                            joined("无法创建 inbox.json：", failure.detail.as_str()),
                            "检查仓库目录权限和磁盘空间后重试。",
                            true,
                        )
                    };
                    InboxInitialization::Finished { outcome: Err(error) }
                },
            },
            (
                InboxInitialization::WriteContents { contents: _ },
                InboxInitializationEvent::Written { written },
            ) => match written {
                Ok(()) => InboxInitialization::Finished { outcome: Ok(()) },
                Err(detail) => InboxInitialization::RemoveIncomplete {
                    error: AppError::new(
                        "INBOX_WRITE_FAILED",
                        joined("无法完整初始化 inbox.json：", detail.as_str()),
                        "检查磁盘状态后重试。",
                        true,
                    ),
                },
            },
            (
                InboxInitialization::RemoveIncomplete { error },
                InboxInitializationEvent::Removed,
            ) => InboxInitialization::Finished { outcome: Err(error) },
            (state, _) => state,
        }
    }
}

/// Performing the action of `state` turns `before` into `after`, where both are
/// what `inbox.json` holds, and gives `event`. A file is only created where there
/// is none, and it starts out empty; a write that fails may leave anything, and a
/// removal may fail.
pub open spec fn performed(
    state: InitializationModel,
    before: Option<Seq<u8>>,
    event: InitializationEventModel,
    after: Option<Seq<u8>>,
) -> bool {
    match state {
        InitializationModel::CreateNew { contents } => event matches
            InitializationEventModel::Created { created } && if created is Ok {
            before is None && after == Some(Seq::<u8>::empty())
        } else {
            after == before && (created->Err_0.0 ==> before is Some)
        },
        InitializationModel::WriteContents { contents } => event matches
            InitializationEventModel::Written { written } && after is Some && (written is Ok
            ==> after == Some(contents)),
        InitializationModel::RemoveIncomplete { error } => event is Removed && (after is None
            || after == before),
        InitializationModel::Finished { outcome } => after == before,
    }
}

/// A creation from its start: the states it goes through, what the file holds in
/// each of them, and the event between two of them.
pub open spec fn initialization_run(
    states: Seq<InitializationModel>,
    files: Seq<Option<Seq<u8>>>,
    events: Seq<InitializationEventModel>,
) -> bool {
    &&& states.len() == files.len() == events.len() + 1
    &&& states[0] == initialization_start()
    &&& forall|i: int|
        #![trigger events[i]]
        0 <= i < events.len() ==> states[i + 1] == initialization_next(states[i], events[i])
            && performed(states[i], files[i], events[i], files[i + 1])
}

proof fn lemma_initialization_run(
    states: Seq<InitializationModel>,
    files: Seq<Option<Seq<u8>>>,
    events: Seq<InitializationEventModel>,
    i: int,
)
    requires
        initialization_run(states, files, events),
        0 <= i < states.len(),
    ensures
        states[i] matches InitializationModel::CreateNew { contents } ==> serialized(
            model::empty_document(),
        ) == Ok::<Seq<u8>, ErrorModel>(contents) && files[i] == files[0],
        states[i] matches InitializationModel::WriteContents { contents } ==> serialized(
            model::empty_document(),
        ) == Ok::<Seq<u8>, ErrorModel>(contents) && files[0] is None,
        states[i] is RemoveIncomplete ==> files[0] is None,
        states[i] matches InitializationModel::Finished { outcome: Ok(_) } ==> files[0] is None
            && files[i] is Some && serialized(model::empty_document()) == Ok::<
            Seq<u8>,
            ErrorModel,
        >(files[i]->0),
        files[0] is Some ==> files[i] == files[0],
    decreases i,
{
    if i > 0 {
        lemma_initialization_run(states, files, events, i - 1);
        let event = events[i - 1];
        assert(states[i] == initialization_next(states[i - 1], event));
    }
}

/// A creation in which every action succeeds writes what it set out to write, and ends
/// without an error; an action that fails ends it with an error that says why. A file
/// that is there already is not written, and one that was not written in full is to be
/// removed before the end. What nothing asked for changes nothing.
pub proof fn law_creation_takes_its_course(
    contents: Seq<u8>,
    detail: Seq<char>,
    error: ErrorModel,
    state: InitializationModel,
    event: InitializationEventModel,
)
    ensures
        ({
            let create = InitializationModel::CreateNew { contents };
            let write = InitializationModel::WriteContents { contents };
            let created = InitializationEventModel::Created { created: Ok(()) };
            let written = InitializationEventModel::Written { written: Ok(()) };
            let exists_already = InitializationEventModel::Created { created: Err((true, detail)) };
            let not_created = InitializationEventModel::Created { created: Err((false, detail)) };
            let not_written = InitializationEventModel::Written { written: Err(detail) };
            &&& initialization_next(create, created) == write
            &&& initialization_next(write, written) == (InitializationModel::Finished {
                outcome: Ok(()),
            })
            &&& (initialization_next(create, exists_already) matches InitializationModel::Finished {
                outcome: Err(reported),
            } && reported.code == "INBOX_ALREADY_EXISTS"@ && reported.message
                == "inbox.json 已经存在，初始化操作已停止。"@ && reported.suggestion
                == "重新加载现有临时收集文件。"@ && !reported.retryable)
            &&& (initialization_next(create, not_created) matches InitializationModel::Finished {
                outcome: Err(reported),
            } && reported.code == "INBOX_WRITE_FAILED"@ && reported.message
                == "无法创建 inbox.json："@ + detail && reported.suggestion
                == "检查仓库目录权限和磁盘空间后重试。"@ && reported.retryable)
            &&& (initialization_next(
                write,
                not_written,
            ) matches InitializationModel::RemoveIncomplete { error: reported } && reported.code
                == "INBOX_WRITE_FAILED"@ && reported.message
                == "无法完整初始化 inbox.json："@ + detail && reported.suggestion
                == "检查磁盘状态后重试。"@ && reported.retryable)
            &&& initialization_next(
                InitializationModel::RemoveIncomplete { error },
                InitializationEventModel::Removed,
            ) == (InitializationModel::Finished { outcome: Err(error) })
            &&& state is Finished || (state is CreateNew && event !is Created) || (
            state is WriteContents && event !is Written) || (state is RemoveIncomplete
                && event !is Removed) ==> initialization_next(state, event) == state
        }),
{
}

/// What a creation sets out to write is a document that holds version 1 and no rows, if
/// that is not too large to be written.
pub proof fn law_creation_starts_with_the_empty_document()
    ensures
        ({
            let json = outside::pretty_json("schemaVersion"@, 1, "items"@, Seq::empty());
            json.len() < 10485760 ==> initialization_start() == (InitializationModel::CreateNew {
                contents: json.push(10u8),
            })
        }),
{
    assert(document_rows(Seq::empty()) =~= Seq::empty());
    law_accepted_iff_valid(model::empty_document());
}

/// However a creation goes, a file that was there before keeps its bytes.
pub proof fn law_initialization_keeps_an_existing_file(
    states: Seq<InitializationModel>,
    files: Seq<Option<Seq<u8>>>,
    events: Seq<InitializationEventModel>,
)
    requires
        initialization_run(states, files, events),
        files[0] is Some,
    ensures
        forall|i: int| 0 <= i < files.len() ==> #[trigger] files[i] == files[0],
        states.last() !is WriteContents,
        states.last() !is RemoveIncomplete,
        states.last() matches InitializationModel::Finished { outcome } ==> outcome is Err,
{
    assert forall|i: int| 0 <= i < files.len() implies #[trigger] files[i] == files[0] by {
        lemma_initialization_run(states, files, events, i);
    }
    lemma_initialization_run(states, files, events, states.len() - 1);
}

/// A creation that succeeds leaves the file that did not exist before with the
/// written form of the empty document.
pub proof fn law_initialization_writes_the_empty_document(
    states: Seq<InitializationModel>,
    files: Seq<Option<Seq<u8>>>,
    events: Seq<InitializationEventModel>,
)
    requires
        initialization_run(states, files, events),
        states.last() == (InitializationModel::Finished { outcome: Ok(()) }),
    ensures
        files[0] is None,
        files.last() is Some,
        serialized(model::empty_document()) == Ok::<Seq<u8>, ErrorModel>(files.last()->0),
{
    lemma_initialization_run(states, files, events, states.len() - 1);
}

} // verus!
