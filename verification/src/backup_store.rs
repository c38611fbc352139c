//! Backups of the managed files, taken before a file is overwritten.
//!
//! Backups are kept below the configuration directory of the machine, apart for
//! each repository and for each file, and the most recent ones are retained. A
//! backup that fails stops the write that it was taken for.

use crate::backup_names::{self, backup_file_name, sort_backups};
use crate::error::{self, AppError, ErrorModel};
use crate::outside::{self, sha256_digest};
use crate::text::{self, joined, lower_hex_text};
use vstd::prelude::*;
use vstd::utf8;

verus! {

/// How many backups of a file are retained.
pub const RETAINED_BACKUPS: usize = 10;

/// The directory name of a repository: the start of the SHA-256 digest of its path
/// in lower case, in hexadecimal notation.
pub open spec fn fingerprint(repository_root: Seq<char>) -> Seq<char> {
    text::lower_hex(
        outside::sha256(utf8::encode_utf8(outside::lower_case(repository_root))),
    ).take(16)
}

/// Computes the directory name of a repository. It does not spell the path out, it
/// is the same after a restart, and the case of letters makes no difference to it.
pub fn repository_fingerprint(repository_root: &str) -> (res: String)
    ensures
        res@ == fingerprint(repository_root@),
        res@.len() == 16,
        forall|i: int| 0 <= i < 16 ==> text::is_lower_hex(#[trigger] res@[i]),
        forall|i: int|
            0 <= i < 8 ==> #[trigger] text::byte_at(res@, i) == outside::sha256(
                utf8::encode_utf8(outside::lower_case(repository_root@)),
            )[i],
{
    let normalized: String = repository_root.to_lowercase();
    let digest: Vec<u8> = sha256_digest(normalized.as_str().as_bytes());
    let hex: String = lower_hex_text(digest.as_slice());
    proof {
        text::law_lower_hex(digest@, digest@);
        assert(hex@.subrange(0, 16) =~= hex@.take(16));
        assert forall|i: int| 0 <= i < 8 implies #[trigger] text::byte_at(hex@.take(16), i)
            == digest@[i] by {
            law_fingerprint_tells_the_digest(repository_root@, repository_root@, i);
        }
    }
    hex.as_str().substring_char(0, 16).to_owned()
}

/// The fingerprint depends on the whole path: its sixteen digits stand for the first eight
/// bytes of the digest of all of the path in lower case, two digits for each. Paths whose
/// digests differ in one of these bytes have different fingerprints. A digest has
/// thirty-two bytes, as that of [`repository_fingerprint`] has.
pub proof fn law_fingerprint_tells_the_digest(a: Seq<char>, b: Seq<char>, i: int)
    ensures
        ({
            let x = outside::sha256(utf8::encode_utf8(outside::lower_case(a)));
            let y = outside::sha256(utf8::encode_utf8(outside::lower_case(b)));
            x.len() == 32 && y.len() == 32 ==> {
                &&& fingerprint(a).len() == 16
                &&& 0 <= i < 8 ==> {
                    &&& text::byte_at(fingerprint(a), i) == x[i]
                    &&& text::is_lower_hex(fingerprint(a)[2 * i])
                    &&& text::is_lower_hex(fingerprint(a)[2 * i + 1])
                    &&& x[i] != y[i] ==> fingerprint(a) != fingerprint(b)
                }
                &&& x.take(8) == y.take(8) ==> fingerprint(a) == fingerprint(b)
            }
        }),
{
    let x = outside::sha256(utf8::encode_utf8(outside::lower_case(a)));
    let y = outside::sha256(utf8::encode_utf8(outside::lower_case(b)));
    if x.len() == 32 && y.len() == 32 {
        text::law_lower_hex(x, y);
        text::law_lower_hex(y, x);
        let f = fingerprint(a);
        let g = fingerprint(b);
        if 0 <= i < 8 {
            assert(text::byte_at(text::lower_hex(x), i) == x[i]);
            assert(text::byte_at(text::lower_hex(y), i) == y[i]);
            assert(f[2 * i] == text::lower_hex(x)[2 * i]);
            assert(f[2 * i + 1] == text::lower_hex(x)[2 * i + 1]);
            assert(g[2 * i] == text::lower_hex(y)[2 * i]);
            assert(g[2 * i + 1] == text::lower_hex(y)[2 * i + 1]);
            assert(text::byte_at(f, i) == x[i]);
            assert(text::byte_at(g, i) == y[i]);
        }
        if x.take(8) == y.take(8) {
            assert forall|k: int| 0 <= k < 16 implies f[k] == g[k] by {
                assert(x.take(8)[k / 2] == y.take(8)[k / 2]);
                assert(x[k / 2] == y[k / 2]);
            }
            assert(f =~= g);
        }
    }
}

/// Paths that differ in the case of letters alone have the same fingerprint.
pub proof fn law_fingerprint_ignores_case(a: Seq<char>, b: Seq<char>)
    requires
        outside::lower_case(a) == outside::lower_case(b),
    ensures
        fingerprint(a) == fingerprint(b),
{
}

/// The error of a backup that failed.
pub open spec fn backup_error(message: Seq<char>, suggestion: Seq<char>) -> ErrorModel {
    error::error_model("BACKUP_FAILED"@, message, suggestion, true)
}

fn backup_failed(message: String, suggestion: &str) -> (res: AppError)
    ensures
        res@ == backup_error(message@, suggestion@),
{
    AppError::new("BACKUP_FAILED", message, suggestion, true)
}

/// The outcome of an operation that gives names back: those of a path below the
/// configuration directory, level by level, or those of files.
pub open spec fn names_outcome(outcome: Result<Vec<String>, AppError>) -> Result<
    Seq<Seq<char>>,
    ErrorModel,
> {
    match outcome {
        Ok(path) => Ok(path.deep_view()),
        Err(error) => Err(error@),
    }
}

/// The path of the backup that is taken at a time, in milliseconds, with a sequence
/// number; or why there is no such time.
pub open spec fn stamped_path(
    directory: Seq<Seq<char>>,
    file_stem: Seq<char>,
    stamp: Result<(u128, u64), Seq<char>>,
) -> Result<Seq<Seq<char>>, ErrorModel> {
    match stamp {
        Ok(stamp) => Ok(
            directory.push(backup_names::backup_name(file_stem, stamp.0, stamp.1)),
        ),
        Err(detail) => Err(
            backup_error("系统时间无法用于创建备份："@ + detail, "校准系统时间后重试保存。"@),
        ),
    }
}

/// Copies a path.
fn copied_path(path: &Vec<String>) -> (res: Vec<String>)
    ensures
        res.deep_view() == path.deep_view(),
{
    let mut res: Vec<String> = Vec::new();
    let mut i: usize = 0;
    while i < path.len()
        invariant
            i <= path@.len(),
            res.deep_view() == path.deep_view().take(i as int),
        decreases path.len() - i,
    {
        let ghost before = res.deep_view();
        res.push(path[i].clone());
        i = i + 1;
        assert(res.deep_view() =~= before.push(path.deep_view()[i - 1]));
        assert(res.deep_view() =~= path.deep_view().take(i as int));
    }
    assert(path.deep_view().take(i as int) =~= path.deep_view());
    res
}

/// Extends a path by a name.
fn path_below(directory: &Vec<String>, name: String) -> (res: Vec<String>)
    ensures
        res.deep_view() == directory.deep_view().push(name@),
{
    let mut res: Vec<String> = copied_path(directory);
    res.push(name);
    assert(res.deep_view() =~= directory.deep_view().push(name@));
    res
}

/// Names the next backup after the time and the sequence number; without a time
/// there is an error, and no older backup is overwritten.
pub fn next_backup_path(
    directory: &Vec<String>,
    file_stem: &str,
    stamp: Result<(u128, u64), String>,
) -> (res: Result<Vec<String>, AppError>)
    ensures
        names_outcome(res) == stamped_path(
            directory.deep_view(),
            file_stem@,
            match stamp {
                Ok(stamp) => Ok(stamp),
                Err(detail) => Err(detail@),
            },
        ),
        res is Ok <==> stamp is Ok,
        stamp matches Ok(stamp) ==> res->Ok_0.deep_view() == directory.deep_view().push(
            backup_names::backup_name(file_stem@, stamp.0, stamp.1),
        ),
{
    match stamp {
        Ok(stamp) => Ok(path_below(directory, backup_file_name(file_stem, stamp.0, stamp.1))),
        Err(detail) => Err(
            backup_failed(
                joined("系统时间无法用于创建备份：", detail.as_str()),
                "校准系统时间后重试保存。",
            ),
        ),
    }
}

/// Every time and every sequence number give a path: the directory, and in it the name of
/// the backup of the two. Only without a time there is none, and the error says why.
pub proof fn law_every_time_gives_a_path(
    directory: Seq<Seq<char>>,
    file_stem: Seq<char>,
    stamp: (u128, u64),
    detail: Seq<char>,
)
    ensures
        stamped_path(directory, file_stem, Ok(stamp)) matches Ok(path) && path.len()
            == directory.len() + 1 && path.drop_last() == directory && path.last()
            == backup_names::backup_name(file_stem, stamp.0, stamp.1),
        stamped_path(directory, file_stem, Err(detail)) matches Err(error) && error.code
            == "BACKUP_FAILED"@ && error.message == "系统时间无法用于创建备份："@ + detail
            && error.suggestion == "校准系统时间后重试保存。"@ && error.retryable,
{
    let name = backup_names::backup_name(file_stem, stamp.0, stamp.1);
    assert(directory.push(name).drop_last() =~= directory);
}

/// How many of `n` backups are too many.
pub open spec fn excess(n: nat) -> int {
    if n > RETAINED_BACKUPS {
        n - RETAINED_BACKUPS
    } else {
        0
    }
}

/// The backups that have to go: the first in the order of removal, as many as there
/// are too many.
pub open spec fn doomed(file_stem: Seq<char>, backups: Seq<Seq<char>>) -> Seq<Seq<char>> {
    backup_names::removal_order(file_stem, backups).take(excess(backups.len()))
}

/// The backups that stay.
pub open spec fn retained(file_stem: Seq<char>, backups: Seq<Seq<char>>) -> Seq<Seq<char>> {
    backup_names::removal_order(file_stem, backups).skip(excess(backups.len()))
}

/// What rotation makes of a listing of the backup directory, or of the failure to
/// list it.
pub open spec fn rotation(
    file_stem: Seq<char>,
    listing: Result<Seq<Option<Seq<char>>>, Seq<char>>,
) -> Result<Seq<Seq<char>>, ErrorModel> {
    match listing {
        Ok(listing) => Ok(doomed(file_stem, backup_names::backups_in(file_stem, listing))),
        Err(detail) => Err(
            backup_error("无法检查本地备份目录："@ + detail, "检查 APPDATA 目录权限后重试。"@),
        ),
    }
}

/// The names in a listing, or why there is none.
pub open spec fn listing_outcome(listing: Result<Vec<Option<String>>, String>) -> Result<
    Seq<Option<Seq<char>>>,
    Seq<char>,
> {
    match listing {
        Ok(listing) => Ok(backup_names::listing_model(listing@)),
        Err(detail) => Err(detail@),
    }
}

/// Chooses the backups of a file that have to go, in the order in which they go, the
/// oldest of those that tell their age first. A listing has
/// one entry for each file of the backup directory: its name, or nothing if it
/// could not be read or is no text.
pub fn rotate_backups(file_stem: &str, listing: Result<Vec<Option<String>>, String>) -> (res:
    Result<Vec<String>, AppError>)
    ensures
        names_outcome(res) == rotation(file_stem@, listing_outcome(listing)),
        res is Ok <==> listing is Ok,
{
    match listing {
        Ok(listing) => {
            let mut backups: Vec<String> = sort_backups(file_stem, &listing);
            let ghost found = backup_names::backups_in(
                file_stem@,
                backup_names::listing_model(listing@),
            );
            let ghost sorted = backups.deep_view();
            proof {
                backup_names::law_removal_order(file_stem@, found);
            }
            let remove_count: usize = backups.len().saturating_sub(RETAINED_BACKUPS);
            backups.truncate(remove_count);
            assert(backups.deep_view() =~= sorted.take(remove_count as int));
            Ok(backups)
        },
        Err(detail) => Err(
            backup_failed(
                joined("无法检查本地备份目录：", detail.as_str()),
                "检查 APPDATA 目录权限后重试。",
            ),
        ),
    }
}

/// Rotation parts the backups into those that go and those that stay. As many stay
/// as there are, but no more than [`RETAINED_BACKUPS`]. Of the backups that tell
/// their age, none that goes is newer than one that stays; another file goes exactly
/// if it is among the first in the order of the text.
pub proof fn law_most_recent_backups_are_retained(file_stem: Seq<char>, backups: Seq<Seq<char>>)
    ensures
        doomed(file_stem, backups) + retained(file_stem, backups) == backup_names::removal_order(
            file_stem,
            backups,
        ),
        retained(file_stem, backups).len() == if backups.len() > RETAINED_BACKUPS {
            RETAINED_BACKUPS as nat
        } else {
            backups.len()
        },
        forall|name: Seq<char>| #[trigger]
            backups.contains(name) <==> doomed(file_stem, backups).contains(name) || retained(
                file_stem,
                backups,
            ).contains(name),
        forall|old: Seq<char>, new: Seq<char>| #[trigger]
            doomed(file_stem, backups).contains(old) && #[trigger] retained(
                file_stem,
                backups,
            ).contains(new) && backup_names::is_dated(file_stem, old) && backup_names::is_dated(
                file_stem,
                new,
            ) ==> backup_names::not_newer(file_stem, old, new),
        forall|name: Seq<char>|
            !backup_names::is_dated(file_stem, name) ==> (#[trigger] doomed(
                file_stem,
                backups,
            ).contains(name) <==> backup_names::by_text(backups).take(
                excess(backups.len()),
            ).contains(name)),
{
    let order = backup_names::removal_order(file_stem, backups);
    let text = backup_names::by_text(backups);
    let gone = doomed(file_stem, backups);
    let kept = retained(file_stem, backups);
    let n = excess(backups.len());
    backup_names::law_removal_order(file_stem, backups);
    assert(gone + kept =~= order);
    assert forall|name: Seq<char>| #[trigger] backups.contains(name) <==> gone.contains(name)
        || kept.contains(name) by {
        assert(backups.contains(name) <==> order.contains(name));
        if order.contains(name) {
            let i = choose|i: int| 0 <= i < order.len() && order[i] == name;
            if i < n {
                assert(gone[i] == name);
            } else {
                assert(kept[i - n] == name);
            }
        }
        if gone.contains(name) {
            let i = choose|i: int| 0 <= i < gone.len() && gone[i] == name;
            assert(order[i] == name);
        }
        if kept.contains(name) {
            let i = choose|i: int| 0 <= i < kept.len() && kept[i] == name;
            assert(order[i + n] == name);
        }
    }
    assert forall|old: Seq<char>, new: Seq<char>| #[trigger] gone.contains(old) && #[trigger]
        kept.contains(new) && backup_names::is_dated(file_stem, old) && backup_names::is_dated(
        file_stem,
        new,
    ) implies backup_names::not_newer(file_stem, old, new) by {
        let i = choose|i: int| 0 <= i < gone.len() && gone[i] == old;
        let j = choose|j: int| 0 <= j < kept.len() && kept[j] == new;
        assert(order[i] == old && order[j + n] == new);
    }
    assert forall|name: Seq<char>| !backup_names::is_dated(
        file_stem,
        name,
    ) implies (#[trigger] gone.contains(name) <==> text.take(n).contains(name)) by {
        if gone.contains(name) {
            let i = choose|i: int| 0 <= i < gone.len() && gone[i] == name;
            assert(order[i] == name);
            assert(text.take(n)[i] == name);
        }
        if text.take(n).contains(name) {
            let i = choose|i: int| 0 <= i < n && text.take(n)[i] == name;
            assert(text[i] == name);
            assert(order[i] == name);
            assert(gone[i] == name);
        }
    }
}

/// A listing always tells what has to go: of the backups in it as many as there are over
/// ten, from the start of the order of removal. Only where there is no listing there is
/// an error, which says why.
pub proof fn law_rotation_keeps_ten(
    file_stem: Seq<char>,
    listing: Seq<Option<Seq<char>>>,
    detail: Seq<char>,
)
    ensures
        rotation(file_stem, Ok(listing)) matches Ok(gone) && {
            let backups = backup_names::backups_in(file_stem, listing);
            let order = backup_names::removal_order(file_stem, backups);
            &&& backups.len() <= 10 ==> gone.len() == 0
            &&& backups.len() > 10 ==> gone.len() == backups.len() - 10
            &&& gone.len() <= order.len()
            &&& forall|i: int| 0 <= i < gone.len() ==> #[trigger] gone[i] == order[i]
        },
        rotation(file_stem, Err(detail)) matches Err(error) && error.code == "BACKUP_FAILED"@
            && error.message == "无法检查本地备份目录："@ + detail && error.suggestion
            == "检查 APPDATA 目录权限后重试。"@ && error.retryable,
{
    backup_names::law_removal_order(file_stem, backup_names::backups_in(file_stem, listing));
}

/// No backup goes while an older one stays.
pub proof fn law_older_backups_go_first(
    file_stem: Seq<char>,
    listing: Seq<Option<Seq<char>>>,
    old: (u128, u64),
    new: (u128, u64),
)
    ensures
        ({
            let gone = rotation(file_stem, Ok(listing))->Ok_0;
            let old_name = backup_names::backup_name(file_stem, old.0, old.1);
            let new_name = backup_names::backup_name(file_stem, new.0, new.1);
            gone.contains(old_name) && listing.contains(Some(new_name)) && !gone.contains(new_name)
                ==> old.0 < new.0 || (old.0 == new.0 && old.1 < new.1)
        }),
{
    let backups = backup_names::backups_in(file_stem, listing);
    let old_name = backup_names::backup_name(file_stem, old.0, old.1);
    let new_name = backup_names::backup_name(file_stem, new.0, new.1);
    backup_names::law_backups_in(file_stem, listing);
    backup_names::law_backup_name_is_recognized(file_stem, new.0, new.1);
    backup_names::law_stamp_is_read_back(file_stem, old.0, old.1);
    backup_names::law_stamp_is_read_back(file_stem, new.0, new.1);
    backup_names::law_age_follows_the_stamp(file_stem, old, new);
    law_most_recent_backups_are_retained(file_stem, backups);
    if listing.contains(Some(new_name)) {
        assert(backups.contains(new_name));
    }
}

/// Among the places of the backups that stay there is one for a backup that tells its
/// age: files that tell none do not hold all of them.
pub open spec fn has_room(file_stem: Seq<char>, backups: Seq<Seq<char>>) -> bool {
    exists|i: int|
        excess(backups.len()) <= i < backups.len() && backup_names::is_dated(
            file_stem,
            #[trigger] backup_names::by_text(backups)[i],
        )
}

/// Where no name occurs twice, the newest of the backups that tell their age stays
/// exactly if there is room for one, and goes otherwise. There is room if the files
/// that tell no age are fewer than [`RETAINED_BACKUPS`].
pub proof fn law_newest_backup_is_retained(
    file_stem: Seq<char>,
    backups: Seq<Seq<char>>,
    newest: Seq<char>,
)
    requires
        backups.no_duplicates(),
        backups.contains(newest),
        backup_names::is_dated(file_stem, newest),
        forall|name: Seq<char>| #[trigger]
            backups.contains(name) && backup_names::is_dated(file_stem, name)
                ==> backup_names::not_newer(file_stem, name, newest),
    ensures
        retained(file_stem, backups).contains(newest) <==> has_room(file_stem, backups),
        doomed(file_stem, backups).contains(newest) <==> !has_room(file_stem, backups),
        backups.len() - backup_names::dated(file_stem, backups).len() < RETAINED_BACKUPS
            ==> has_room(file_stem, backups),
{
    let order = backup_names::removal_order(file_stem, backups);
    let text = backup_names::by_text(backups);
    let gone = doomed(file_stem, backups);
    let kept = retained(file_stem, backups);
    let leq = backup_names::age_order(file_stem);
    let n = excess(backups.len());
    backup_names::law_removal_order(file_stem, backups);
    backup_names::law_orders_are_total(file_stem);
    law_most_recent_backups_are_retained(file_stem, backups);
    if kept.contains(newest) {
        let i = choose|i: int| 0 <= i < kept.len() && kept[i] == newest;
        assert(order[i + n] == newest);
        assert(backup_names::is_dated(file_stem, text[i + n]));
    } else {
        assert(order.contains(newest));
        let i = choose|i: int| 0 <= i < order.len() && order[i] == newest;
        assert(i < n) by {
            if i >= n {
                assert(kept[i - n] == newest);
            }
        }
        assert(gone[i] == newest);
        if has_room(file_stem, backups) {
            let j = choose|j: int|
                n <= j < backups.len() && backup_names::is_dated(file_stem, #[trigger] text[j]);
            assert(backup_names::is_dated(file_stem, order[j]));
            assert(order.contains(order[j]));
            assert(leq(newest, order[j]) && leq(order[j], newest));
            assert(order[i] == order[j]);
        }
        let aged = backup_names::dated(file_stem, kept);
        backup_names::law_dated(file_stem, kept);
        if aged.len() > 0 {
            assert(aged.contains(aged[0]));
            let j = choose|j: int| 0 <= j < kept.len() && kept[j] == aged[0];
            assert(backup_names::is_dated(file_stem, order[j + n]));
            assert(backup_names::is_dated(file_stem, text[j + n]));
        }
        backup_names::law_dated_in_parts(file_stem, gone, kept);
        backup_names::law_dated(file_stem, gone);
    }
}

/// A backup of a managed file. Its actions are performed below the configuration
/// directory of the machine, in `directory`, on behalf of the file that is about to
/// be overwritten.
pub struct BackupRun {
    /// The directory of the backup, one name for each level.
    pub directory: Vec<String>,
    /// The name of the file, without its ending.
    pub file_stem: String,
    /// How far the backup has come.
    pub step: BackupStep,
}

/// How far a backup has come: the action that comes next, or how it ended.
pub enum BackupStep {
    /// Create the directory and those above it, as far as they are missing.
    CreateDirectory,
    /// Read the clock and, where there is a time, draw the next sequence number.
    TakeStamp,
    /// Copy the file to `path`.
    CopyDocument { path: Vec<String> },
    /// Flush the copy to the disk.
    FlushCopy { path: Vec<String> },
    /// List the directory.
    ListDirectory { path: Vec<String> },
    /// Remove the backup `next` from the directory; `later` ones follow it.
    RemoveBackup { path: Vec<String>, next: String, later: Vec<String> },
    /// Nothing is left to do; a backup that succeeded is at the path.
    Finished { outcome: Result<Vec<String>, AppError> },
}

/// Why a backup was not removed.
pub struct RemoveFailure {
    /// The path of the backup, as it is shown to the user.
    pub path: String,
    /// What the file system says.
    pub detail: String,
}

/// What came back of an action of a [`BackupRun`].
pub enum BackupEvent {
    /// Whether the directory is there.
    DirectoryCreated { created: Result<(), String> },
    /// The time in milliseconds and the sequence number, or why there is no time.
    Stamped { stamp: Result<(u128, u64), String> },
    /// Whether the file was copied.
    Copied { copied: Result<(), String> },
    /// Whether the copy was flushed.
    Flushed { flushed: Result<(), String> },
    /// The entries of the directory, or why it cannot be listed.
    Listed { listing: Result<Vec<Option<String>>, String> },
    /// Whether the backup was removed.
    Removed { removed: Result<(), RemoveFailure> },
}

/// The state of a [`BackupRun`].
pub struct BackupModel {
    pub directory: Seq<Seq<char>>,
    pub file_stem: Seq<char>,
    pub step: StepModel,
}

/// The state of a [`BackupStep`].
pub enum StepModel {
    CreateDirectory,
    TakeStamp,
    CopyDocument { path: Seq<Seq<char>> },
    FlushCopy { path: Seq<Seq<char>> },
    ListDirectory { path: Seq<Seq<char>> },
    RemoveBackup { path: Seq<Seq<char>>, next: Seq<char>, later: Seq<Seq<char>> },
    Finished { outcome: Result<Seq<Seq<char>>, ErrorModel> },
}

/// What a [`BackupEvent`] says; a removal that failed gives the path and the detail.
pub enum BackupEventModel {
    DirectoryCreated { created: Result<(), Seq<char>> },
    Stamped { stamp: Result<(u128, u64), Seq<char>> },
    Copied { copied: Result<(), Seq<char>> },
    Flushed { flushed: Result<(), Seq<char>> },
    Listed { listing: Result<Seq<Option<Seq<char>>>, Seq<char>> },
    Removed { removed: Result<(), (Seq<char>, Seq<char>)> },
}

impl View for BackupStep {
    type V = StepModel;

    open spec fn view(&self) -> StepModel {
        match self {
            BackupStep::CreateDirectory => StepModel::CreateDirectory,
            BackupStep::TakeStamp => StepModel::TakeStamp,
            BackupStep::CopyDocument { path } => StepModel::CopyDocument { path: path.deep_view() },
            BackupStep::FlushCopy { path } => StepModel::FlushCopy { path: path.deep_view() },
            BackupStep::ListDirectory { path } => StepModel::ListDirectory {
                path: path.deep_view(),
            },
            BackupStep::RemoveBackup { path, next, later } => StepModel::RemoveBackup {
                path: path.deep_view(),
                next: next@,
                later: later.deep_view(),
            },
            BackupStep::Finished { outcome } => StepModel::Finished {
                outcome: names_outcome(*outcome),
            },
        }
    }
}

impl View for BackupRun {
    type V = BackupModel;

    open spec fn view(&self) -> BackupModel {
        BackupModel {
            directory: self.directory.deep_view(),
            file_stem: self.file_stem@,
            step: self.step@,
        }
    }
}

/// Success, or the detail of a failure.
pub open spec fn detail_outcome(outcome: Result<(), String>) -> Result<(), Seq<char>> {
    match outcome {
        Ok(()) => Ok(()),
        Err(detail) => Err(detail@),
    }
}

impl View for BackupEvent {
    type V = BackupEventModel;

    open spec fn view(&self) -> BackupEventModel {
        match self {
            BackupEvent::DirectoryCreated { created } => BackupEventModel::DirectoryCreated {
                created: detail_outcome(*created),
            },
            BackupEvent::Stamped { stamp } => BackupEventModel::Stamped {
                stamp: match stamp {
                    Ok(stamp) => Ok(*stamp),
                    Err(detail) => Err(detail@),
                },
            },
            BackupEvent::Copied { copied } => BackupEventModel::Copied {
                copied: detail_outcome(*copied),
            },
            BackupEvent::Flushed { flushed } => BackupEventModel::Flushed {
                flushed: detail_outcome(*flushed),
            },
            BackupEvent::Listed { listing } => BackupEventModel::Listed {
                listing: listing_outcome(*listing),
            },
            BackupEvent::Removed { removed } => BackupEventModel::Removed {
                removed: match removed {
                    Ok(()) => Ok(()),
                    Err(failure) => Err((failure.path@, failure.detail@)),
                },
            },
        }
    }
}

/// What comes back of an action is told in full, with all of the detail of a failure.
pub proof fn law_event_is_told_in_full(event: BackupEvent)
    ensures
        match event {
            BackupEvent::DirectoryCreated { created: Ok(()) } => event@ == (
            BackupEventModel::DirectoryCreated { created: Ok(()) }),
            BackupEvent::DirectoryCreated { created: Err(detail) } => event@ == (
            BackupEventModel::DirectoryCreated { created: Err(detail@) }),
            BackupEvent::Stamped { stamp: Ok(stamp) } => event@ == (BackupEventModel::Stamped {
                stamp: Ok((stamp.0, stamp.1)),
            }),
            BackupEvent::Stamped { stamp: Err(detail) } => event@ == (BackupEventModel::Stamped {
                stamp: Err(detail@),
            }),
            BackupEvent::Copied { copied: Ok(()) } => event@ == (BackupEventModel::Copied {
                copied: Ok(()),
            }),
            BackupEvent::Copied { copied: Err(detail) } => event@ == (BackupEventModel::Copied {
                copied: Err(detail@),
            }),
            BackupEvent::Flushed { flushed: Ok(()) } => event@ == (BackupEventModel::Flushed {
                flushed: Ok(()),
            }),
            BackupEvent::Flushed { flushed: Err(detail) } => event@ == (BackupEventModel::Flushed {
                flushed: Err(detail@),
            }),
            BackupEvent::Listed { listing: Ok(listing) } => event@ == (BackupEventModel::Listed {
                listing: Ok(backup_names::listing_model(listing@)),
            }),
            BackupEvent::Listed { listing: Err(detail) } => event@ == (BackupEventModel::Listed {
                listing: Err(detail@),
            }),
            BackupEvent::Removed { removed: Ok(()) } => event@ == (BackupEventModel::Removed {
                removed: Ok(()),
            }),
            BackupEvent::Removed { removed: Err(failure) } => event@ == (
            BackupEventModel::Removed { removed: Err((failure.path@, failure.detail@)) }),
        },
{
}

/// How far a backup has come is told in full: its directory, its file, and the step with
/// all the names in it.
pub proof fn law_run_is_told_in_full(run: BackupRun)
    ensures
        run@.directory == run.directory.deep_view(),
        run@.file_stem == run.file_stem@,
        match run.step {
            BackupStep::CreateDirectory => run@.step == StepModel::CreateDirectory,
            BackupStep::TakeStamp => run@.step == StepModel::TakeStamp,
            BackupStep::CopyDocument { path } => run@.step == (StepModel::CopyDocument {
                path: path.deep_view(),
            }),
            BackupStep::FlushCopy { path } => run@.step == (StepModel::FlushCopy {
                path: path.deep_view(),
            }),
            BackupStep::ListDirectory { path } => run@.step == (StepModel::ListDirectory {
                path: path.deep_view(),
            }),
            BackupStep::RemoveBackup { path, next, later } => run@.step == (
            StepModel::RemoveBackup {
                path: path.deep_view(),
                next: next@,
                later: later.deep_view(),
            }),
            BackupStep::Finished { outcome: Ok(path) } => run@.step == (StepModel::Finished {
                outcome: Ok(path.deep_view()),
            }),
            BackupStep::Finished { outcome: Err(error) } => run@.step == (StepModel::Finished {
                outcome: Err(error@),
            }),
        },
{
}

/// Names and listings that come out of an operation are told in full, and so is why there
/// are none.
pub proof fn law_outcomes_are_told_in_full(
    names: Result<Vec<String>, AppError>,
    listing: Result<Vec<Option<String>>, String>,
)
    ensures
        match names {
            Ok(names_given) => names_outcome(names) == Ok::<Seq<Seq<char>>, ErrorModel>(
                names_given.deep_view(),
            ),
            Err(error) => names_outcome(names) == Err::<Seq<Seq<char>>, ErrorModel>(error@),
        },
        match listing {
            Ok(entries) => listing_outcome(listing) == Ok::<Seq<Option<Seq<char>>>, Seq<char>>(
                backup_names::listing_model(entries@),
            ),
            Err(detail) => listing_outcome(listing) == Err::<Seq<Option<Seq<char>>>, Seq<char>>(
                detail@,
            ),
        },
{
}

/// Where a backup of a file of a repository starts.
pub open spec fn backup_start(repository_root: Seq<char>, file_stem: Seq<char>) -> BackupModel {
    BackupModel {
        directory: seq!["backups"@, fingerprint(repository_root)],
        file_stem,
        step: StepModel::CreateDirectory,
    }
}

/// A backup starts with its directory, in which the backups of one repository are, below
/// `backups`; it is for the file that it was started for.
pub proof fn law_backup_starts_with_its_directory(repository_root: Seq<char>, file_stem: Seq<char>)
    ensures
        ({
            let start = backup_start(repository_root, file_stem);
            &&& start.directory.len() == 2
            &&& start.directory[0] == "backups"@
            &&& start.directory[1] == fingerprint(repository_root)
            &&& start.file_stem == file_stem
            &&& start.step == StepModel::CreateDirectory
        }),
{
}

/// What is left to do once the new backup is at `path` and the remaining ones have
/// to go.
pub open spec fn removal_step(path: Seq<Seq<char>>, remaining: Seq<Seq<char>>) -> StepModel {
    if remaining.len() == 0 {
        StepModel::Finished { outcome: Ok(path) }
    } else {
        StepModel::RemoveBackup {
            path,
            next: remaining.first(),
            later: remaining.drop_first(),
        }
    }
}

/// A step that ends in an error.
pub open spec fn failed_step(message: Seq<char>, suggestion: Seq<char>) -> StepModel {
    StepModel::Finished { outcome: Err(backup_error(message, suggestion)) }
}

/// The step after an event. An event that nothing asked for changes nothing.
pub open spec fn next_step(state: BackupModel, event: BackupEventModel) -> StepModel {
    match (state.step, event) {
        (StepModel::CreateDirectory, BackupEventModel::DirectoryCreated { created }) =>
            match created {
                Ok(()) => StepModel::TakeStamp,
                Err(detail) => failed_step(
                    "无法创建本地备份目录："@ + detail,
                    "检查 APPDATA 目录权限后重试保存。"@,
                ),
            },
        (StepModel::TakeStamp, BackupEventModel::Stamped { stamp }) => match stamped_path(
            state.directory,
            state.file_stem,
            stamp,
        ) {
            Ok(path) => StepModel::CopyDocument { path },
            Err(error) => StepModel::Finished { outcome: Err(error) },
        },
        (StepModel::CopyDocument { path }, BackupEventModel::Copied { copied }) => match copied {
            Ok(()) => StepModel::FlushCopy { path },
            Err(detail) => failed_step(
                "无法备份当前 "@ + state.file_stem + ".json："@ + detail,
                "确认数据文件可读且磁盘空间充足后重试。"@,
            ),
        },
        (StepModel::FlushCopy { path }, BackupEventModel::Flushed { flushed }) => match flushed {
            Ok(()) => StepModel::ListDirectory { path },
            Err(detail) => failed_step(
                "无法把本地备份刷新到磁盘："@ + detail,
                "检查磁盘状态后重试。"@,
            ),
        },
        (StepModel::ListDirectory { path }, BackupEventModel::Listed { listing }) =>
            match rotation(state.file_stem, listing) {
                Ok(remaining) => removal_step(path, remaining),
                Err(error) => StepModel::Finished { outcome: Err(error) },
            },
        (
            StepModel::RemoveBackup { path, next, later },
            BackupEventModel::Removed { removed },
        ) => match removed {
            Ok(()) => removal_step(path, later),
            Err(failure) => failed_step(
                "无法清理旧备份 "@ + failure.0 + "："@ + failure.1,
                "检查备份目录是否被其他程序占用后重试。"@,
            ),
        },
        _ => state.step,
    }
}

/// Where a backup goes after an event.
pub open spec fn backup_next(state: BackupModel, event: BackupEventModel) -> BackupModel {
    BackupModel {
        directory: state.directory,
        file_stem: state.file_stem,
        step: next_step(state, event),
    }
}

/// Starts a backup of the file `file_stem` of a repository, whose path is given as
/// text.
pub fn backup_managed_file(repository_root: &str, file_stem: &str) -> (res: BackupRun)
    ensures
        res@ == backup_start(repository_root@, file_stem@),
        res.directory.deep_view() == seq!["backups"@, fingerprint(repository_root@)],
        res.file_stem@ == file_stem@,
        res.step == BackupStep::CreateDirectory,
{
    let mut directory: Vec<String> = Vec::new();
    directory.push("backups".to_owned());
    directory.push(repository_fingerprint(repository_root));
    assert(directory.deep_view() =~= seq!["backups"@, fingerprint(repository_root@)]);
    BackupRun { directory, file_stem: file_stem.to_owned(), step: BackupStep::CreateDirectory }
}

/// Starts a backup of the command file of a repository.
pub fn backup_document(repository_root: &str) -> (res: BackupRun)
    ensures
        res@ == backup_start(repository_root@, "commands"@),
        res.directory.deep_view() == seq!["backups"@, fingerprint(repository_root@)],
        res.file_stem@ == "commands"@,
        res.step == BackupStep::CreateDirectory,
{
    backup_managed_file(repository_root, "commands")
}

/// Starts a backup of the inbox file of a repository; its backups and those of the
/// command file are counted apart.
pub fn backup_inbox_document(repository_root: &str) -> (res: BackupRun)
    ensures
        res@ == backup_start(repository_root@, "inbox"@),
        res.directory.deep_view() == seq!["backups"@, fingerprint(repository_root@)],
        res.file_stem@ == "inbox"@,
        res.step == BackupStep::CreateDirectory,
{
    backup_managed_file(repository_root, "inbox")
}

fn failed(message: String, suggestion: &str) -> (res: BackupStep)
    ensures
        res@ == failed_step(message@, suggestion@),
{
    BackupStep::Finished { outcome: Err(backup_failed(message, suggestion)) }
}

fn removal(path: Vec<String>, remaining: Vec<String>) -> (res: BackupStep)
    ensures
        res@ == removal_step(path.deep_view(), remaining.deep_view()),
{
    if remaining.len() == 0 {
        BackupStep::Finished { outcome: Ok(path) }
    } else {
        let mut later: Vec<String> = remaining;
        let next: String = later.remove(0);
        assert(later.deep_view() =~= remaining.deep_view().drop_first());
        BackupStep::RemoveBackup { path, next, later }
    }
}

impl BackupRun {
    /// Takes what came back of the action.
    pub fn advance(self, event: BackupEvent) -> (res: BackupRun)
        ensures
            res@ == backup_next(self@, event@),
            res.directory == self.directory,
            res.file_stem == self.file_stem,
            match (self.step, event) {
                (
                    BackupStep::CreateDirectory,
                    BackupEvent::DirectoryCreated { created: Ok(()) },
                ) => res.step == BackupStep::TakeStamp,
                (BackupStep::TakeStamp, BackupEvent::Stamped { stamp: Ok(stamp) }) => res.step
                    matches BackupStep::CopyDocument { path } && path.deep_view()
                    == self.directory.deep_view().push(
                    backup_names::backup_name(self.file_stem@, stamp.0, stamp.1),
                ),
                (BackupStep::CopyDocument { path }, BackupEvent::Copied { copied: Ok(()) }) =>
                    res.step == (BackupStep::FlushCopy { path }),
                (BackupStep::FlushCopy { path }, BackupEvent::Flushed { flushed: Ok(()) }) =>
                    res.step == (BackupStep::ListDirectory { path }),
                _ => true,
            },
    {
        let BackupRun { directory, file_stem, step } = self;
        let next: BackupStep = match (step, event) {
            (BackupStep::CreateDirectory, BackupEvent::DirectoryCreated { created }) =>
                match created {
                    Ok(()) => BackupStep::TakeStamp,
                    Err(detail) => failed(
                        joined("无法创建本地备份目录：", detail.as_str()),
                        "检查 APPDATA 目录权限后重试保存。",
                    ),
                },
            (BackupStep::TakeStamp, BackupEvent::Stamped { stamp }) => match next_backup_path(
                &directory,
                file_stem.as_str(),
                stamp,
            ) {
                Ok(path) => BackupStep::CopyDocument { path },
                Err(error) => BackupStep::Finished { outcome: Err(error) },
            },
            (BackupStep::CopyDocument { path }, BackupEvent::Copied { copied }) => match copied {
                Ok(()) => BackupStep::FlushCopy { path },
                Err(detail) => {
                    let mut message: String = joined("无法备份当前 ", file_stem.as_str());
                    message.append(".json：");
                    message.append(detail.as_str());
                    failed(message, "确认数据文件可读且磁盘空间充足后重试。")
                },
            },
            (BackupStep::FlushCopy { path }, BackupEvent::Flushed { flushed }) => match flushed {
                Ok(()) => BackupStep::ListDirectory { path },
                Err(detail) => failed(
                    joined("无法把本地备份刷新到磁盘：", detail.as_str()),
                    "检查磁盘状态后重试。",
                ),
            },
            (BackupStep::ListDirectory { path }, BackupEvent::Listed { listing }) =>
                match rotate_backups(file_stem.as_str(), listing) {
                    Ok(remaining) => removal(path, remaining),
                    Err(error) => BackupStep::Finished { outcome: Err(error) },
                },
            (
                BackupStep::RemoveBackup { path, next: _, later },
                BackupEvent::Removed { removed },
            ) => match removed {
                Ok(()) => removal(path, later),
                Err(failure) => {
                    let mut message: String = joined("无法清理旧备份 ", failure.path.as_str());
                    message.append("：");
                    message.append(failure.detail.as_str());
                    failed(message, "检查备份目录是否被其他程序占用后重试。")
                },
            },
            (step, _) => step,
        };
        BackupRun { directory, file_stem, step: next }
    }
}

/// Where a backup is after some events.
pub open spec fn backup_after(start: BackupModel, events: Seq<BackupEventModel>) -> BackupModel
    decreases events.len(),
{
    if events.len() == 0 {
        start
    } else {
        backup_next(backup_after(start, events.drop_last()), events.last())
    }
}

/// A path that leads to a backup of the file, right in the directory of the backup,
/// whose name tells its age.
pub open spec fn leads_to_backup(state: BackupModel, path: Seq<Seq<char>>) -> bool {
    &&& path.len() > 0
    &&& path.drop_last() == state.directory
    &&& backup_names::is_backup_of(state.file_stem, path.last())
    &&& backup_names::is_dated(state.file_stem, path.last())
}

/// A backup touches its own directory alone, and there only backups of its file.
pub open spec fn confined(state: BackupModel) -> bool {
    match state.step {
        StepModel::CreateDirectory => true,
        StepModel::TakeStamp => true,
        StepModel::CopyDocument { path } => leads_to_backup(state, path),
        StepModel::FlushCopy { path } => leads_to_backup(state, path),
        StepModel::ListDirectory { path } => leads_to_backup(state, path),
        StepModel::RemoveBackup { path, next, later } => leads_to_backup(state, path)
            && backup_names::is_backup_of(state.file_stem, next) && forall|i: int|
            0 <= i < later.len() ==> backup_names::is_backup_of(
                state.file_stem,
                #[trigger] later[i],
            ),
        StepModel::Finished { outcome: Ok(path) } => leads_to_backup(state, path),
        StepModel::Finished { outcome: Err(_) } => true,
    }
}

proof fn lemma_confined_next(state: BackupModel, event: BackupEventModel)
    requires
        confined(state),
    ensures
        confined(backup_next(state, event)),
{
    match (state.step, event) {
        (StepModel::TakeStamp, BackupEventModel::Stamped { stamp: Ok(stamp) }) => {
            let name = backup_names::backup_name(state.file_stem, stamp.0, stamp.1);
            backup_names::law_backup_name_is_recognized(state.file_stem, stamp.0, stamp.1);
            backup_names::law_stamp_is_read_back(state.file_stem, stamp.0, stamp.1);
            assert(state.directory.push(name).drop_last() =~= state.directory);
        },
        (StepModel::ListDirectory { path }, BackupEventModel::Listed { listing: Ok(listing) }) => {
            let backups = backup_names::backups_in(state.file_stem, listing);
            let gone = doomed(state.file_stem, backups);
            backup_names::law_backups_in(state.file_stem, listing);
            law_most_recent_backups_are_retained(state.file_stem, backups);
            backup_names::law_removal_order(state.file_stem, backups);
            assert forall|i: int| 0 <= i < gone.len() implies backup_names::is_backup_of(
                state.file_stem,
                #[trigger] gone[i],
            ) by {
                assert(gone.contains(gone[i]));
                assert(backups.contains(gone[i]));
            }
        },
        _ => {},
    }
}

/// Whatever a backup is told, what it creates, writes, lists and removes is in the
/// directory of the repository below `backups`, and every file among it is a backup
/// of the file that it was started for.
pub proof fn law_backup_is_confined(
    repository_root: Seq<char>,
    file_stem: Seq<char>,
    events: Seq<BackupEventModel>,
)
    ensures
        ({
            let state = backup_after(backup_start(repository_root, file_stem), events);
            &&& state.directory == seq!["backups"@, fingerprint(repository_root)]
            &&& state.file_stem == file_stem
            &&& confined(state)
        }),
    decreases events.len(),
{
    if events.len() > 0 {
        law_backup_is_confined(repository_root, file_stem, events.drop_last());
        lemma_confined_next(
            backup_after(backup_start(repository_root, file_stem), events.drop_last()),
            events.last(),
        );
    }
}

/// The action of the step was performed, and it failed.
pub open spec fn action_failed(step: StepModel, event: BackupEventModel) -> bool {
    match (step, event) {
        (StepModel::CreateDirectory, BackupEventModel::DirectoryCreated { created }) => created
            is Err,
        (StepModel::TakeStamp, BackupEventModel::Stamped { stamp }) => stamp is Err,
        (StepModel::CopyDocument { path }, BackupEventModel::Copied { copied }) => copied is Err,
        (StepModel::FlushCopy { path }, BackupEventModel::Flushed { flushed }) => flushed is Err,
        (StepModel::ListDirectory { path }, BackupEventModel::Listed { listing }) => listing is Err,
        (
            StepModel::RemoveBackup { path, next, later },
            BackupEventModel::Removed { removed },
        ) => removed is Err,
        _ => false,
    }
}

/// The backup ended without an error.
pub open spec fn succeeded(step: StepModel) -> bool {
    match step {
        StepModel::Finished { outcome } => outcome is Ok,
        _ => false,
    }
}

/// A failure of any action ends the backup with an error, and nothing changes after
/// its end.
pub proof fn law_failure_ends_the_backup(state: BackupModel, event: BackupEventModel)
    ensures
        state.step is Finished ==> backup_next(state, event) == state,
        action_failed(state.step, event) ==> match backup_next(state, event).step {
            StepModel::Finished { outcome: Err(error) } => error.code == "BACKUP_FAILED"@
                && error.retryable,
            _ => false,
        },
{
}

/// A step ends in an error only if its own action failed. The directory and the file that
/// a backup is for never change.
pub proof fn law_only_a_failure_ends_in_an_error(state: BackupModel, event: BackupEventModel)
    ensures
        backup_next(state, event).directory == state.directory,
        backup_next(state, event).file_stem == state.file_stem,
        !action_failed(state.step, event) ==> (backup_next(
            state,
            event,
        ).step matches StepModel::Finished { outcome: Err(error) } ==> state.step
            == (StepModel::Finished { outcome: Err(error) })),
{
}

/// What comes back of another action than the one that was asked for changes nothing.
pub proof fn law_event_out_of_turn_changes_nothing(state: BackupModel, event: BackupEventModel)
    requires
        !(state.step is CreateDirectory && event is DirectoryCreated),
        !(state.step is TakeStamp && event is Stamped),
        !(state.step is CopyDocument && event is Copied),
        !(state.step is FlushCopy && event is Flushed),
        !(state.step is ListDirectory && event is Listed),
        !(state.step is RemoveBackup && event is Removed),
    ensures
        backup_next(state, event) == state,
{
}

/// Each action that fails is reported with what failed and what the file system says;
/// trying again can help.
pub proof fn law_failures_are_told_apart(
    state: BackupModel,
    event: BackupEventModel,
    detail: Seq<char>,
    shown: Seq<char>,
)
    ensures
        action_failed(state.step, event) ==> {
            let end = backup_next(state, event).step;
            &&& end is Finished
            &&& end->outcome is Err
            &&& end->outcome->Err_0.code == "BACKUP_FAILED"@
            &&& end->outcome->Err_0.retryable
            &&& event == (BackupEventModel::DirectoryCreated { created: Err(detail) }) ==> {
                &&& end->outcome->Err_0.message == "无法创建本地备份目录："@ + detail
                &&& end->outcome->Err_0.suggestion == "检查 APPDATA 目录权限后重试保存。"@
            }
            &&& event == (BackupEventModel::Stamped { stamp: Err(detail) }) ==> {
                &&& end->outcome->Err_0.message == "系统时间无法用于创建备份："@ + detail
                &&& end->outcome->Err_0.suggestion == "校准系统时间后重试保存。"@
            }
            &&& event == (BackupEventModel::Copied { copied: Err(detail) }) ==> {
                &&& end->outcome->Err_0.message == "无法备份当前 "@ + state.file_stem + ".json："@
                    + detail
                &&& end->outcome->Err_0.suggestion == "确认数据文件可读且磁盘空间充足后重试。"@
            }
            &&& event == (BackupEventModel::Flushed { flushed: Err(detail) }) ==> {
                &&& end->outcome->Err_0.message == "无法把本地备份刷新到磁盘："@ + detail
                &&& end->outcome->Err_0.suggestion == "检查磁盘状态后重试。"@
            }
            &&& event == (BackupEventModel::Listed { listing: Err(detail) }) ==> {
                &&& end->outcome->Err_0.message == "无法检查本地备份目录："@ + detail
                &&& end->outcome->Err_0.suggestion == "检查 APPDATA 目录权限后重试。"@
            }
            &&& event == (BackupEventModel::Removed { removed: Err((shown, detail)) }) ==> {
                &&& end->outcome->Err_0.message == "无法清理旧备份 "@ + shown + "："@ + detail
                &&& end->outcome->Err_0.suggestion == "检查备份目录是否被其他程序占用后重试。"@
            }
        },
{
}

/// What comes back where every action succeeds: the directory is there, the clock and the
/// sequence number give `stamp`, the file is copied and flushed, the directory holds
/// `listing`, and then `removals` files are removed.
pub open spec fn all_goes_well(
    stamp: (u128, u64),
    listing: Seq<Option<Seq<char>>>,
    removals: nat,
) -> Seq<BackupEventModel> {
    seq![
        BackupEventModel::DirectoryCreated { created: Ok(()) },
        BackupEventModel::Stamped { stamp: Ok(stamp) },
        BackupEventModel::Copied { copied: Ok(()) },
        BackupEventModel::Flushed { flushed: Ok(()) },
        BackupEventModel::Listed { listing: Ok(listing) },
    ] + Seq::new(removals, |i: int| BackupEventModel::Removed { removed: Ok(()) })
}

/// Whatever the time, the sequence number and the files of the directory are, a backup in
/// which every action succeeds does succeed. It creates the directory, takes the time,
/// copies the file to the path of that time and sequence number, flushes the copy, lists
/// the directory, and removes what is over ten, one after the other in the order of
/// removal. Then it ends, and gives that path back.
pub proof fn law_backup_succeeds(
    repository_root: Seq<char>,
    file_stem: Seq<char>,
    stamp: (u128, u64),
    listing: Seq<Option<Seq<char>>>,
    removals: nat,
)
    ensures
        ({
            let start = backup_start(repository_root, file_stem);
            let events = all_goes_well(stamp, listing, removals);
            let path = seq![
                "backups"@,
                fingerprint(repository_root),
                backup_names::backup_name(file_stem, stamp.0, stamp.1),
            ];
            let backups = backup_names::backups_in(file_stem, listing);
            let order = backup_names::removal_order(file_stem, backups);
            &&& backup_after(start, events.take(0)).step == StepModel::CreateDirectory
            &&& backup_after(start, events.take(1)).step == StepModel::TakeStamp
            &&& backup_after(start, events.take(2)).step == (StepModel::CopyDocument { path })
            &&& backup_after(start, events.take(3)).step == (StepModel::FlushCopy { path })
            &&& backup_after(start, events.take(4)).step == (StepModel::ListDirectory { path })
            &&& removals + 10 >= backups.len() ==> backup_after(start, events).step == (
            StepModel::Finished { outcome: Ok(path) })
            &&& removals + 10 < backups.len() ==> backup_after(start, events).step == (
            StepModel::RemoveBackup {
                path,
                next: order[removals as int],
                later: order.subrange(removals as int + 1, backups.len() - 10),
            })
        }),
    decreases removals,
{
    let start = backup_start(repository_root, file_stem);
    let events = all_goes_well(stamp, listing, removals);
    let name = backup_names::backup_name(file_stem, stamp.0, stamp.1);
    let path = seq!["backups"@, fingerprint(repository_root), name];
    let backups = backup_names::backups_in(file_stem, listing);
    let order = backup_names::removal_order(file_stem, backups);
    let gone = doomed(file_stem, backups);
    backup_names::law_removal_order(file_stem, backups);
    assert(start.directory.push(name) =~= path);
    assert(events.take(0) =~= Seq::empty());
    assert(events.take(1).drop_last() =~= events.take(0));
    assert(events.take(2).drop_last() =~= events.take(1));
    assert(events.take(3).drop_last() =~= events.take(2));
    assert(events.take(4).drop_last() =~= events.take(3));
    assert(events.take(5).drop_last() =~= events.take(4));
    assert(events.take(1).last() == events[0]);
    assert(events.take(2).last() == events[1]);
    assert(events.take(3).last() == events[2]);
    assert(events.take(4).last() == events[3]);
    assert(events.take(5).last() == events[4]);
    lemma_kept_apart(repository_root, file_stem, events, 0);
    lemma_kept_apart(repository_root, file_stem, events, 1);
    lemma_kept_apart(repository_root, file_stem, events, 2);
    lemma_kept_apart(repository_root, file_stem, events, 3);
    lemma_kept_apart(repository_root, file_stem, events, 4);
    if removals == 0 {
        assert(events.take(5) =~= events);
        if backups.len() > 10 {
            assert(gone.first() == order[0]);
            assert(gone.drop_first() =~= order.subrange(1, backups.len() - 10));
        }
    } else {
        let fewer = (removals - 1) as nat;
        let before = all_goes_well(stamp, listing, fewer);
        law_backup_succeeds(repository_root, file_stem, stamp, listing, fewer);
        assert(events.drop_last() =~= before);
        assert(events.last() == (BackupEventModel::Removed { removed: Ok(()) }));
        if fewer + 10 < backups.len() {
            let later = order.subrange(fewer as int + 1, backups.len() - 10);
            if later.len() > 0 {
                assert(later.first() == order[removals as int]);
                assert(later.drop_first() =~= order.subrange(removals as int + 1, backups.len() - 10));
            }
        }
    }
}

proof fn lemma_kept_apart(
    repository_root: Seq<char>,
    file_stem: Seq<char>,
    events: Seq<BackupEventModel>,
    n: int,
)
    requires
        0 <= n <= events.len(),
    ensures
        ({
            let state = backup_after(backup_start(repository_root, file_stem), events.take(n));
            state.directory == seq!["backups"@, fingerprint(repository_root)] && state.file_stem
                == file_stem
        }),
{
    law_backup_is_confined(repository_root, file_stem, events.take(n));
}

/// A backup that succeeds has created its directory, taken a time, copied the file
/// to the path that it gives, flushed the copy and listed the directory; and it
/// removes nothing before that.
pub proof fn law_success_takes_every_action(
    repository_root: Seq<char>,
    file_stem: Seq<char>,
    events: Seq<BackupEventModel>,
) -> (stamp: (u128, u64))
    ensures
        ({
            let start = backup_start(repository_root, file_stem);
            let step = backup_after(start, events).step;
            (step is RemoveBackup || succeeded(step)) ==> {
                &&& events.contains(BackupEventModel::DirectoryCreated { created: Ok(()) })
                &&& events.contains(BackupEventModel::Stamped { stamp: Ok(stamp) })
                &&& events.contains(BackupEventModel::Copied { copied: Ok(()) })
                &&& events.contains(BackupEventModel::Flushed { flushed: Ok(()) })
                &&& exists|listing: Seq<Option<Seq<char>>>| #[trigger]
                    events.contains(BackupEventModel::Listed { listing: Ok(listing) })
                &&& (step matches StepModel::Finished { outcome: Ok(path) } ==> path
                    == start.directory.push(
                    backup_names::backup_name(file_stem, stamp.0, stamp.1),
                ))
            }
        }),
{
    let n = events.len() as int;
    assert(events.take(n) =~= events);
    lemma_actions_taken(repository_root, file_stem, events, n)
}

/// How much of the way to a step is done: the events that lead there are among the
/// first `n`, and the path is the one that the stamp gives.
spec fn way_done(
    start: BackupModel,
    step: StepModel,
    events: Seq<BackupEventModel>,
    stamp: (u128, u64),
) -> bool {
    let created = events.contains(BackupEventModel::DirectoryCreated { created: Ok(()) });
    let stamped = events.contains(BackupEventModel::Stamped { stamp: Ok(stamp) });
    let copied = events.contains(BackupEventModel::Copied { copied: Ok(()) });
    let flushed = events.contains(BackupEventModel::Flushed { flushed: Ok(()) });
    let listed = exists|listing: Seq<Option<Seq<char>>>| #[trigger]
        events.contains(BackupEventModel::Listed { listing: Ok(listing) });
    let target = start.directory.push(
        backup_names::backup_name(start.file_stem, stamp.0, stamp.1),
    );
    match step {
        StepModel::CreateDirectory => true,
        StepModel::TakeStamp => created,
        StepModel::CopyDocument { path } => created && stamped && path == target,
        StepModel::FlushCopy { path } => created && stamped && copied && path == target,
        StepModel::ListDirectory { path } => created && stamped && copied && flushed && path
            == target,
        StepModel::RemoveBackup { path, next, later } => created && stamped && copied && flushed
            && listed && path == target,
        StepModel::Finished { outcome: Ok(path) } => created && stamped && copied && flushed
            && listed && path == target,
        StepModel::Finished { outcome: Err(_) } => true,
    }
}

proof fn lemma_actions_taken(
    repository_root: Seq<char>,
    file_stem: Seq<char>,
    events: Seq<BackupEventModel>,
    n: int,
) -> (stamp: (u128, u64))
    requires
        0 <= n <= events.len(),
    ensures
        way_done(
            backup_start(repository_root, file_stem),
            backup_after(backup_start(repository_root, file_stem), events.take(n)).step,
            events.take(n),
            stamp,
        ),
    decreases n,
{
    let start = backup_start(repository_root, file_stem);
    if n == 0 {
        (0, 0)
    } else {
        let now = events.take(n);
        let before = events.take(n - 1);
        let event = events[n - 1];
        let earlier = lemma_actions_taken(repository_root, file_stem, events, n - 1);
        let state = backup_after(start, before);
        assert(now.drop_last() =~= before);
        assert(now[n - 1] == event);
        assert(now.contains(event));
        assert forall|one: BackupEventModel| #[trigger] before.contains(one) implies now.contains(
            one,
        ) by {
            let i = choose|i: int| 0 <= i < before.len() && before[i] == one;
            assert(now[i] == one);
        }
        law_backup_is_confined(repository_root, file_stem, before);
        if state.step is RemoveBackup || succeeded(state.step) {
            let listing = choose|listing: Seq<Option<Seq<char>>>| #[trigger]
                before.contains(BackupEventModel::Listed { listing: Ok(listing) });
            assert(now.contains(BackupEventModel::Listed { listing: Ok(listing) }));
        }
        assert(way_done(start, state.step, now, earlier));
        match (state.step, event) {
            (StepModel::TakeStamp, BackupEventModel::Stamped { stamp: Ok(stamp) }) => stamp,
            (
                StepModel::ListDirectory { path },
                BackupEventModel::Listed { listing: Ok(listing) },
            ) => {
                assert(now.contains(BackupEventModel::Listed { listing: Ok(listing) }));
                earlier
            },
            (StepModel::CreateDirectory, BackupEventModel::DirectoryCreated { created: Ok(unit) }) => {
                assert(unit == ());
                earlier
            },
            (StepModel::CopyDocument { path }, BackupEventModel::Copied { copied: Ok(unit) }) => {
                assert(unit == ());
                earlier
            },
            (StepModel::FlushCopy { path }, BackupEventModel::Flushed { flushed: Ok(unit) }) => {
                assert(unit == ());
                earlier
            },
            _ => earlier,
        }
    }
}

/// A listing names files of a directory, each once. It may leave files out, which
/// could not be read.
pub open spec fn lists(directory: Map<Seq<char>, Seq<u8>>, listing: Seq<Option<Seq<char>>>) -> bool {
    &&& forall|name: Seq<char>| #[trigger]
        listing.contains(Some(name)) ==> directory.contains_key(name)
    &&& forall|i: int, j: int|
        0 <= i < j < listing.len() && #[trigger] listing[i] is Some ==> listing[i]
            != #[trigger] listing[j]
}

/// A file that was in a directory, and that a listing of it left out.
pub open spec fn left_out(
    directory: Map<Seq<char>, Seq<u8>>,
    listing: Seq<Option<Seq<char>>>,
    name: Seq<char>,
) -> bool {
    directory.contains_key(name) && !listing.contains(Some(name))
}

/// Performing the action of `state` turns `before` into `after`, where both are the
/// files of the backup directory, and gives `event`. The file that is backed up
/// holds `document`; a copy that fails may leave anything under its name.
pub open spec fn backup_performed(
    state: BackupModel,
    document: Seq<u8>,
    before: Map<Seq<char>, Seq<u8>>,
    event: BackupEventModel,
    after: Map<Seq<char>, Seq<u8>>,
) -> bool {
    match (state.step, event) {
        (StepModel::CopyDocument { path }, BackupEventModel::Copied { copied }) => if copied is Ok {
            after == before.insert(path.last(), document)
        } else {
            after.remove(path.last()) == before.remove(path.last())
        },
        (StepModel::ListDirectory { path }, BackupEventModel::Listed { listing }) => after == before
            && (listing is Ok ==> lists(before, listing->Ok_0)),
        (
            StepModel::RemoveBackup { path, next, later },
            BackupEventModel::Removed { removed },
        ) => if removed is Ok {
            after == before.remove(next)
        } else {
            after == before
        },
        (StepModel::CreateDirectory, BackupEventModel::DirectoryCreated { created }) => after
            == before,
        (StepModel::TakeStamp, BackupEventModel::Stamped { stamp }) => after == before,
        (StepModel::FlushCopy { path }, BackupEventModel::Flushed { flushed }) => after == before,
        (StepModel::Finished { outcome }, _) => after == before,
        _ => false,
    }
}

/// A backup from its start: the states it goes through, the files of the backup
/// directory in each of them, and the event between two of them.
pub open spec fn backup_run(
    start: BackupModel,
    document: Seq<u8>,
    states: Seq<BackupModel>,
    directories: Seq<Map<Seq<char>, Seq<u8>>>,
    events: Seq<BackupEventModel>,
) -> bool {
    &&& states.len() == directories.len() == events.len() + 1
    &&& states[0] == start
    &&& forall|i: int|
        #![trigger events[i]]
        0 <= i < events.len() ==> states[i + 1] == backup_next(states[i], events[i])
            && backup_performed(states[i], document, directories[i], events[i], directories[i + 1])
}

/// In state `k` the directory was asked for and listed.
pub open spec fn listed_at(
    states: Seq<BackupModel>,
    events: Seq<BackupEventModel>,
    k: int,
    listing: Seq<Option<Seq<char>>>,
) -> bool {
    states[k].step is ListDirectory && events[k] == (BackupEventModel::Listed {
        listing: Ok(listing),
    })
}

/// What a listing that came up in a run said, and what the directory held then.
pub struct Seen {
    pub listing: Seq<Option<Seq<char>>>,
    pub directory: Map<Seq<char>, Seq<u8>>,
}

/// The backups of the file in a directory are those that have to go, those that
/// stay, and those that were left out.
spec fn rotating(
    file_stem: Seq<char>,
    directory: Map<Seq<char>, Seq<u8>>,
    remaining: Seq<Seq<char>>,
    kept: Seq<Seq<char>>,
    seen: Seen,
) -> bool {
    &&& (remaining + kept).no_duplicates()
    &&& forall|name: Seq<char>| #[trigger]
        (remaining + kept).contains(name) ==> seen.listing.contains(Some(name))
    &&& forall|name: Seq<char>|
        backup_names::is_backup_of(file_stem, name) ==> (#[trigger] directory.contains_key(name)
            <==> (remaining + kept).contains(name) || left_out(seen.directory, seen.listing, name))
}

/// The backups that a listing says to keep.
pub open spec fn kept_by(
    file_stem: Seq<char>,
    listing: Seq<Option<Seq<char>>>,
) -> Seq<Seq<char>> {
    retained(file_stem, backup_names::backups_in(file_stem, listing))
}

proof fn lemma_rotation_starts(file_stem: Seq<char>, seen: Seen)
    requires
        lists(seen.directory, seen.listing),
    ensures
        rotating(
            file_stem,
            seen.directory,
            doomed(file_stem, backup_names::backups_in(file_stem, seen.listing)),
            kept_by(file_stem, seen.listing),
            seen,
        ),
{
    let backups = backup_names::backups_in(file_stem, seen.listing);
    backup_names::law_backups_in(file_stem, seen.listing);
    backup_names::law_removal_order(file_stem, backups);
    law_most_recent_backups_are_retained(file_stem, backups);
    let order = backup_names::removal_order(file_stem, backups);
    let all = doomed(file_stem, backups) + kept_by(file_stem, seen.listing);
    assert(all == order);
    assert forall|name: Seq<char>| #[trigger] all.contains(name) implies seen.listing.contains(
        Some(name),
    ) by {
        assert(order.contains(name) <==> backups.contains(name));
    }
    assert forall|name: Seq<char>| backup_names::is_backup_of(
        file_stem,
        name,
    ) implies (#[trigger] seen.directory.contains_key(name) <==> all.contains(name) || left_out(
        seen.directory,
        seen.listing,
        name,
    )) by {
        assert(order.contains(name) <==> backups.contains(name));
        assert(backups.contains(name) <==> seen.listing.contains(Some(name)));
    }
}

proof fn lemma_rotation_goes_on(
    file_stem: Seq<char>,
    directory: Map<Seq<char>, Seq<u8>>,
    next: Seq<char>,
    later: Seq<Seq<char>>,
    kept: Seq<Seq<char>>,
    seen: Seen,
)
    requires
        rotating(file_stem, directory, seq![next] + later, kept, seen),
    ensures
        rotating(file_stem, directory.remove(next), later, kept, seen),
{
    let all = (seq![next] + later) + kept;
    let rest = later + kept;
    assert(all =~= seq![next] + rest);
    assert(all[0] == next);
    assert(all.contains(next));
    assert forall|i: int| 0 <= i < rest.len() implies #[trigger] rest[i] == all[i + 1] by {}
    assert forall|name: Seq<char>| all.contains(name) <==> name == next || #[trigger] rest.contains(
        name,
    ) by {
        if rest.contains(name) {
            let i = choose|i: int| 0 <= i < rest.len() && rest[i] == name;
            assert(all[i + 1] == name);
        }
        if all.contains(name) && name != next {
            let i = choose|i: int| 0 <= i < all.len() && all[i] == name;
            assert(rest[i - 1] == name);
        }
    }
    if rest.contains(next) {
        let i = choose|i: int| 0 <= i < rest.len() && rest[i] == next;
        assert(all[i + 1] == all[0]);
    }
    assert forall|i: int, j: int| 0 <= i < rest.len() && 0 <= j < rest.len() && i != j implies rest[i]
        != rest[j] by {
        assert(all[i + 1] != all[j + 1]);
    }
    assert forall|name: Seq<char>| backup_names::is_backup_of(
        file_stem,
        name,
    ) implies (#[trigger] directory.remove(next).contains_key(name) <==> rest.contains(name)
        || left_out(seen.directory, seen.listing, name)) by {
        assert(directory.contains_key(name) <==> all.contains(name) || left_out(
            seen.directory,
            seen.listing,
            name,
        ));
    }
}

/// What holds in every state of a run: the copy, once it is made, holds the
/// document, and rotation is on its way.
spec fn on_its_way(
    document: Seq<u8>,
    state: BackupModel,
    directory: Map<Seq<char>, Seq<u8>>,
    seen: Seen,
) -> bool {
    let backups = backup_names::backups_in(state.file_stem, seen.listing);
    let kept = kept_by(state.file_stem, seen.listing);
    match state.step {
        StepModel::FlushCopy { path } => directory.contains_key(path.last())
            && directory[path.last()] == document,
        StepModel::ListDirectory { path } => directory.contains_key(path.last())
            && directory[path.last()] == document,
        StepModel::RemoveBackup { path, next, later } => {
            &&& directory.contains_key(path.last()) ==> directory[path.last()] == document
            &&& backups.no_duplicates()
            &&& seen.directory.contains_key(path.last())
            &&& rotating(state.file_stem, directory, seq![next] + later, kept, seen)
        },
        StepModel::Finished { outcome: Ok(path) } => {
            &&& directory.contains_key(path.last()) ==> directory[path.last()] == document
            &&& backups.no_duplicates()
            &&& seen.directory.contains_key(path.last())
            &&& rotating(state.file_stem, directory, Seq::empty(), kept, seen)
        },
        _ => true,
    }
}

/// A file is the same in two directories.
pub open spec fn same_file(
    a: Map<Seq<char>, Seq<u8>>,
    b: Map<Seq<char>, Seq<u8>>,
    name: Seq<char>,
) -> bool {
    a.contains_key(name) == b.contains_key(name) && (a.contains_key(name) ==> a[name] == b[name])
}

proof fn lemma_backup_run(
    repository_root: Seq<char>,
    file_stem: Seq<char>,
    document: Seq<u8>,
    states: Seq<BackupModel>,
    directories: Seq<Map<Seq<char>, Seq<u8>>>,
    events: Seq<BackupEventModel>,
    i: int,
) -> (seen: Seen)
    requires
        backup_run(
            backup_start(repository_root, file_stem),
            document,
            states,
            directories,
            events,
        ),
        0 <= i < states.len(),
    ensures
        states[i].file_stem == file_stem,
        confined(states[i]),
        on_its_way(document, states[i], directories[i], seen),
        states[i].step is RemoveBackup || succeeded(states[i].step) ==> {
            &&& lists(seen.directory, seen.listing)
            &&& exists|k: int|
                0 <= k < i && #[trigger] listed_at(states, events, k, seen.listing)
                    && directories[k] == seen.directory
        },
        forall|name: Seq<char>|
            !backup_names::is_backup_of(file_stem, name) ==> #[trigger] same_file(
                directories[i],
                directories[0],
                name,
            ),
    decreases i,
{
    if i == 0 {
        Seen { listing: Seq::empty(), directory: directories[0] }
    } else {
        let earlier = lemma_backup_run(
            repository_root,
            file_stem,
            document,
            states,
            directories,
            events,
            i - 1,
        );
        let state = states[i - 1];
        let event = events[i - 1];
        let before = directories[i - 1];
        let after = directories[i];
        assert(states[i] == backup_next(state, event));
        assert(backup_performed(state, document, before, event, after));
        lemma_confined_next(state, event);
        assert forall|name: Seq<char>| !backup_names::is_backup_of(
            file_stem,
            name,
        ) implies #[trigger] same_file(after, directories[0], name) by {
            assert(same_file(before, directories[0], name));
            if let StepModel::CopyDocument { path } = state.step {
                assert(name != path.last());
                assert(after.remove(path.last()).contains_key(name) == after.contains_key(name));
                assert(before.remove(path.last()).contains_key(name) == before.contains_key(name));
                assert(after.remove(path.last())[name] == after[name]);
                assert(before.remove(path.last())[name] == before[name]);
            }
        }
        match (state.step, event) {
            (
                StepModel::ListDirectory { path },
                BackupEventModel::Listed { listing: Ok(listing) },
            ) => {
                let gone = doomed(file_stem, backup_names::backups_in(file_stem, listing));
                let seen = Seen { listing, directory: before };
                backup_names::law_backups_in(file_stem, listing);
                assert(listed_at(states, events, i - 1, seen.listing));
                lemma_rotation_starts(file_stem, seen);
                if gone.len() > 0 {
                    assert(seq![gone.first()] + gone.drop_first() =~= gone);
                } else {
                    assert(gone =~= Seq::empty());
                }
                seen
            },
            (
                StepModel::RemoveBackup { path, next, later },
                BackupEventModel::Removed { removed: Ok(unit) },
            ) => {
                lemma_rotation_goes_on(
                    file_stem,
                    before,
                    next,
                    later,
                    kept_by(file_stem, earlier.listing),
                    earlier,
                );
                if later.len() > 0 {
                    assert(seq![later.first()] + later.drop_first() =~= later);
                } else {
                    assert(later =~= Seq::empty());
                }
                earlier
            },
            _ => earlier,
        }
    }
}

/// A backup leaves every other file of its directory alone, those of the other
/// managed file among them.
pub proof fn law_backup_leaves_other_files_alone(
    repository_root: Seq<char>,
    file_stem: Seq<char>,
    document: Seq<u8>,
    states: Seq<BackupModel>,
    directories: Seq<Map<Seq<char>, Seq<u8>>>,
    events: Seq<BackupEventModel>,
    i: int,
    name: Seq<char>,
)
    requires
        backup_run(
            backup_start(repository_root, file_stem),
            document,
            states,
            directories,
            events,
        ),
        0 <= i < states.len(),
        !backup_names::is_backup_of(file_stem, name),
    ensures
        same_file(directories[i], directories[0], name),
{
    let _ = lemma_backup_run(
        repository_root,
        file_stem,
        document,
        states,
        directories,
        events,
        i,
    );
}

/// The path of the new backup, once it is known and while it matters.
pub open spec fn new_path(step: StepModel) -> Option<Seq<Seq<char>>> {
    match step {
        StepModel::CreateDirectory => None,
        StepModel::TakeStamp => None,
        StepModel::CopyDocument { path } => Some(path),
        StepModel::FlushCopy { path } => Some(path),
        StepModel::ListDirectory { path } => Some(path),
        StepModel::RemoveBackup { path, next, later } => Some(path),
        StepModel::Finished { outcome: Ok(path) } => Some(path),
        StepModel::Finished { outcome: Err(_) } => None,
    }
}

/// Before state `i` a copy was tried.
pub open spec fn copy_tried(states: Seq<BackupModel>, i: int) -> bool {
    exists|k: int| 0 <= k < i && (#[trigger] states[k]).step is CopyDocument
}

/// By state `i` a copy was made.
pub open spec fn copy_made(states: Seq<BackupModel>, i: int) -> bool {
    exists|k: int| 0 <= k <= i && (#[trigger] states[k]).step is FlushCopy
}

/// Before state `i` the directory was listed.
pub open spec fn listed(states: Seq<BackupModel>, events: Seq<BackupEventModel>, i: int) -> bool {
    exists|k: int, listing: Seq<Option<Seq<char>>>|
        0 <= k < i && #[trigger] listed_at(states, events, k, listing)
}

/// A listing before state `i` said that `name` has to go.
pub open spec fn given_up(
    file_stem: Seq<char>,
    states: Seq<BackupModel>,
    events: Seq<BackupEventModel>,
    i: int,
    name: Seq<char>,
) -> bool {
    exists|k: int, listing: Seq<Option<Seq<char>>>|
        0 <= k < i && #[trigger] listed_at(states, events, k, listing) && doomed(
            file_stem,
            backup_names::backups_in(file_stem, listing),
        ).contains(name)
}

/// What state `i` of a run leaves of the files, where `new` is the name of the new
/// backup. No other file is changed, none appears, and none is missing but those that
/// have to go; before the listing none is missing at all. Nothing happens before the
/// copy is tried, and once it is made the new backup holds the document.
pub open spec fn spares_other_files(
    file_stem: Seq<char>,
    document: Seq<u8>,
    states: Seq<BackupModel>,
    directories: Seq<Map<Seq<char>, Seq<u8>>>,
    events: Seq<BackupEventModel>,
    new: Seq<char>,
    i: int,
) -> bool {
    let first = directories[0];
    let now = directories[i];
    &&& new_path(states[i].step) matches Some(path) ==> path.last() == new
    &&& forall|name: Seq<char>|
        name != new && #[trigger] now.contains_key(name) ==> first.contains_key(name) && now[name]
            == first[name]
    &&& forall|name: Seq<char>|
        name != new && #[trigger] first.contains_key(name) ==> now.contains_key(name) || given_up(
            file_stem,
            states,
            events,
            i,
            name,
        )
    &&& !listed(states, events, i) ==> forall|name: Seq<char>|
        name != new ==> #[trigger] same_file(now, first, name)
    &&& !copy_tried(states, i) ==> now == first
    &&& copy_made(states, i) ==> {
        &&& now.contains_key(new) ==> now[new] == document
        &&& now.contains_key(new) || given_up(file_stem, states, events, i, new)
    }
}

/// Up to state `i` no copy was tried, and no path was made up for one.
spec fn is_untouched(states: Seq<BackupModel>, i: int) -> bool {
    &&& !copy_tried(states, i)
    &&& !copy_made(states, i)
    &&& forall|j: int| 0 <= j <= i ==> new_path((#[trigger] states[j]).step) is None
}

/// What is needed besides to go on from state `i`: nothing was done yet that the step
/// does not come after, and what a rotation is about to remove has to go.
spec fn in_step(
    file_stem: Seq<char>,
    states: Seq<BackupModel>,
    events: Seq<BackupEventModel>,
    i: int,
) -> bool {
    match states[i].step {
        StepModel::CreateDirectory => is_untouched(states, i) && !listed(states, events, i),
        StepModel::TakeStamp => is_untouched(states, i) && !listed(states, events, i),
        StepModel::CopyDocument { path } => !copy_made(states, i) && !copy_tried(states, i)
            && !listed(states, events, i),
        StepModel::FlushCopy { path } => copy_tried(states, i) && !listed(states, events, i),
        StepModel::ListDirectory { path } => copy_tried(states, i) && !listed(states, events, i),
        StepModel::RemoveBackup { path, next, later } => {
            &&& copy_tried(states, i)
            &&& given_up(file_stem, states, events, i, next)
            &&& forall|name: Seq<char>| #[trigger]
                later.contains(name) ==> given_up(file_stem, states, events, i, name)
        },
        StepModel::Finished { outcome } => true,
    }
}

/// What happened before state `i - 1` happened before state `i`, and at most one thing
/// more did.
proof fn lemma_history(
    file_stem: Seq<char>,
    states: Seq<BackupModel>,
    events: Seq<BackupEventModel>,
    i: int,
)
    requires
        0 < i < states.len(),
    ensures
        copy_tried(states, i) <==> copy_tried(states, i - 1) || states[i - 1].step is CopyDocument,
        copy_made(states, i) <==> copy_made(states, i - 1) || states[i].step is FlushCopy,
        listed(states, events, i) <==> listed(states, events, i - 1) || exists|
            listing: Seq<Option<Seq<char>>>,
        | #[trigger] listed_at(states, events, i - 1, listing),
        forall|name: Seq<char>|
            given_up(file_stem, states, events, i - 1, name) ==> #[trigger] given_up(
                file_stem,
                states,
                events,
                i,
                name,
            ),
{
    assert forall|name: Seq<char>| given_up(
        file_stem,
        states,
        events,
        i - 1,
        name,
    ) implies #[trigger] given_up(file_stem, states, events, i, name) by {
        let (k, listing) = choose|k: int, listing: Seq<Option<Seq<char>>>|
            0 <= k < i - 1 && #[trigger] listed_at(states, events, k, listing) && doomed(
                file_stem,
                backup_names::backups_in(file_stem, listing),
            ).contains(name);
        assert(listed_at(states, events, k, listing));
    }
}

/// What is said of the files in state `i` follows from what was said in the state
/// before.
proof fn lemma_spares_next(
    file_stem: Seq<char>,
    document: Seq<u8>,
    states: Seq<BackupModel>,
    directories: Seq<Map<Seq<char>, Seq<u8>>>,
    events: Seq<BackupEventModel>,
    new: Seq<char>,
    i: int,
)
    requires
        0 < i < states.len() == directories.len() == events.len() + 1,
        states[i - 1].file_stem == file_stem,
        states[i] == backup_next(states[i - 1], events[i - 1]),
        backup_performed(
            states[i - 1],
            document,
            directories[i - 1],
            events[i - 1],
            directories[i],
        ),
        in_step(file_stem, states, events, i - 1),
        spares_other_files(file_stem, document, states, directories, events, new, i - 1),
        new_path(states[i].step) matches Some(path) ==> path.last() == new,
    ensures
        in_step(file_stem, states, events, i),
        spares_other_files(file_stem, document, states, directories, events, new, i),
{
    let state = states[i - 1];
    let event = events[i - 1];
    let first = directories[0];
    let before = directories[i - 1];
    let now = directories[i];
    lemma_history(file_stem, states, events, i);
    match (state.step, event) {
        (StepModel::CopyDocument { path }, BackupEventModel::Copied { copied }) => {
            assert forall|name: Seq<char>| name != new implies #[trigger] same_file(
                now,
                first,
                name,
            ) by {
                assert(same_file(before, first, name));
                assert(now.remove(new).contains_key(name) == now.contains_key(name));
                assert(before.remove(new).contains_key(name) == before.contains_key(name));
                assert(now.remove(new)[name] == now[name]);
                assert(before.remove(new)[name] == before[name]);
            }
            assert forall|name: Seq<char>| name != new && #[trigger] now.contains_key(
                name,
            ) implies first.contains_key(name) && now[name] == first[name] by {
                assert(same_file(now, first, name));
            }
            assert forall|name: Seq<char>| name != new && #[trigger] first.contains_key(
                name,
            ) implies now.contains_key(name) by {
                assert(same_file(now, first, name));
            }
        },
        (StepModel::ListDirectory { path }, BackupEventModel::Listed { listing: Ok(listing) }) => {
            let gone = doomed(file_stem, backup_names::backups_in(file_stem, listing));
            assert(listed_at(states, events, i - 1, listing));
            assert forall|name: Seq<char>| gone.contains(name) implies #[trigger] given_up(
                file_stem,
                states,
                events,
                i,
                name,
            ) by {
                assert(listed_at(states, events, i - 1, listing));
            }
            if gone.len() > 0 {
                assert(gone.contains(gone[0]));
                assert forall|name: Seq<char>| #[trigger]
                    gone.drop_first().contains(name) implies gone.contains(name) by {
                    let k = choose|k: int|
                        0 <= k < gone.drop_first().len() && gone.drop_first()[k] == name;
                    assert(gone[k + 1] == name);
                }
            }
        },
        (
            StepModel::RemoveBackup { path, next, later },
            BackupEventModel::Removed { removed: Ok(_) },
        ) => {
            assert(listed(states, events, i)) by {
                let (k, listing) = choose|k: int, listing: Seq<Option<Seq<char>>>|
                    0 <= k < i - 1 && #[trigger] listed_at(states, events, k, listing) && doomed(
                        file_stem,
                        backup_names::backups_in(file_stem, listing),
                    ).contains(next);
                assert(listed_at(states, events, k, listing));
            }
            assert forall|name: Seq<char>| name != new && #[trigger] first.contains_key(
                name,
            ) implies now.contains_key(name) || given_up(file_stem, states, events, i, name) by {
                if name != next {
                    assert(before.contains_key(name) == now.contains_key(name));
                }
            }
            assert forall|name: Seq<char>| name != new && #[trigger] now.contains_key(
                name,
            ) implies first.contains_key(name) && now[name] == first[name] by {
                assert(before.contains_key(name));
            }
            if later.len() > 0 {
                assert(later.contains(later[0]));
                assert forall|name: Seq<char>| #[trigger]
                    later.drop_first().contains(name) implies later.contains(name) by {
                    let k = choose|k: int|
                        0 <= k < later.drop_first().len() && later.drop_first()[k] == name;
                    assert(later[k + 1] == name);
                }
            }
        },
        _ => {
            assert(now == before);
            assert forall|name: Seq<char>| name != new && #[trigger] first.contains_key(
                name,
            ) implies now.contains_key(name) || given_up(file_stem, states, events, i, name) by {
                assert(before.contains_key(name) || given_up(
                    file_stem,
                    states,
                    events,
                    i - 1,
                    name,
                ));
            }
        },
    }
}

proof fn lemma_spares_other_files(
    repository_root: Seq<char>,
    file_stem: Seq<char>,
    document: Seq<u8>,
    states: Seq<BackupModel>,
    directories: Seq<Map<Seq<char>, Seq<u8>>>,
    events: Seq<BackupEventModel>,
    i: int,
) -> (new: Seq<char>)
    requires
        backup_run(
            backup_start(repository_root, file_stem),
            document,
            states,
            directories,
            events,
        ),
        0 <= i < states.len(),
    ensures
        states[i].file_stem == file_stem,
        in_step(file_stem, states, events, i),
        forall|j: int|
            0 <= j <= i ==> #[trigger] spares_other_files(
                file_stem,
                document,
                states,
                directories,
                events,
                new,
                j,
            ),
    decreases i,
{
    if i == 0 {
        file_stem
    } else {
        let earlier = lemma_spares_other_files(
            repository_root,
            file_stem,
            document,
            states,
            directories,
            events,
            i - 1,
        );
        let event = events[i - 1];
        assert(states[i] == backup_next(states[i - 1], event));
        assert(spares_other_files(
            file_stem,
            document,
            states,
            directories,
            events,
            earlier,
            i - 1,
        ));
        let new = match (states[i - 1].step, new_path(states[i].step)) {
            (StepModel::TakeStamp, Some(path)) => path.last(),
            _ => earlier,
        };
        assert forall|j: int| 0 <= j <= i - 1 implies #[trigger] spares_other_files(
            file_stem,
            document,
            states,
            directories,
            events,
            new,
            j,
        ) by {
            assert(spares_other_files(
                file_stem,
                document,
                states,
                directories,
                events,
                earlier,
                j,
            ));
            if new != earlier {
                assert(is_untouched(states, i - 1));
                assert(!copy_tried(states, j));
                assert(!copy_made(states, j));
                assert(new_path(states[j].step) is None);
            }
        }
        lemma_spares_next(file_stem, document, states, directories, events, new, i);
        new
    }
}

/// Through a whole run, and however it ends, one file at most is written, the new
/// backup: every other file keeps what it holds. Files are only ever removed because a
/// listing says that they have to go.
pub proof fn law_backup_spares_other_files(
    repository_root: Seq<char>,
    file_stem: Seq<char>,
    document: Seq<u8>,
    states: Seq<BackupModel>,
    directories: Seq<Map<Seq<char>, Seq<u8>>>,
    events: Seq<BackupEventModel>,
) -> (new: Seq<char>)
    requires
        backup_run(
            backup_start(repository_root, file_stem),
            document,
            states,
            directories,
            events,
        ),
    ensures
        forall|i: int|
            0 <= i < states.len() ==> #[trigger] spares_other_files(
                file_stem,
                document,
                states,
                directories,
                events,
                new,
                i,
            ),
{
    lemma_spares_other_files(
        repository_root,
        file_stem,
        document,
        states,
        directories,
        events,
        states.len() - 1,
    )
}

/// Once a backup has succeeded, the directory holds those of the listed backups of the
/// file that are retained, which are no more than [`RETAINED_BACKUPS`], and besides
/// them only backups that the listing left out. What was listed is what was there at
/// the start, and the new backup. The new one is there if no other that was listed was
/// newer and there was room for it among those that told no age, and it holds what the
/// file held; every other one holds what it held at the start.
pub proof fn law_backup_retains_the_most_recent(
    repository_root: Seq<char>,
    file_stem: Seq<char>,
    document: Seq<u8>,
    states: Seq<BackupModel>,
    directories: Seq<Map<Seq<char>, Seq<u8>>>,
    events: Seq<BackupEventModel>,
    path: Seq<Seq<char>>,
) -> (seen: Seen)
    requires
        backup_run(
            backup_start(repository_root, file_stem),
            document,
            states,
            directories,
            events,
        ),
        states.last().step == (StepModel::Finished { outcome: Ok(path) }),
    ensures
        events.contains(BackupEventModel::Listed { listing: Ok(seen.listing) }),
        directories.contains(seen.directory),
        lists(seen.directory, seen.listing),
        seen.directory.contains_key(path.last()) && seen.directory[path.last()] == document,
        forall|name: Seq<char>|
            name != path.last() ==> #[trigger] same_file(seen.directory, directories[0], name),
        kept_by(file_stem, seen.listing).len() <= RETAINED_BACKUPS,
        kept_by(file_stem, seen.listing).no_duplicates(),
        forall|name: Seq<char>|
            backup_names::is_backup_of(file_stem, name) ==> (
            #[trigger] directories.last().contains_key(name) <==> kept_by(
                file_stem,
                seen.listing,
            ).contains(name) || left_out(seen.directory, seen.listing, name)),
        ({
            let backups = backup_names::backups_in(file_stem, seen.listing);
            &&& forall|name: Seq<char>| #[trigger]
                backups.contains(name) && backup_names::is_dated(file_stem, name)
                    ==> backup_names::not_newer(file_stem, name, path.last())
            &&& has_room(file_stem, backups)
        }) ==> directories.last().contains_key(path.last()),
        directories.last().contains_key(path.last()) ==> directories.last()[path.last()]
            == document,
        forall|name: Seq<char>|
            name != path.last() && #[trigger] directories.last().contains_key(name)
                ==> directories[0].contains_key(name) && directories.last()[name]
                == directories[0][name],
{
    let last = states.len() - 1;
    let seen = lemma_backup_run(
        repository_root,
        file_stem,
        document,
        states,
        directories,
        events,
        last,
    );
    let k = choose|k: int|
        0 <= k < last && #[trigger] listed_at(states, events, k, seen.listing) && directories[k]
            == seen.directory;
    assert(events.contains(events[k]));
    let _ = lemma_backup_run(
        repository_root,
        file_stem,
        document,
        states,
        directories,
        events,
        k,
    );
    let new = law_backup_spares_other_files(
        repository_root,
        file_stem,
        document,
        states,
        directories,
        events,
    );
    assert(spares_other_files(file_stem, document, states, directories, events, new, last));
    assert(spares_other_files(file_stem, document, states, directories, events, new, k));
    let _ = lemma_spares_other_files(
        repository_root,
        file_stem,
        document,
        states,
        directories,
        events,
        k,
    );
    let kept = kept_by(file_stem, seen.listing);
    let backups = backup_names::backups_in(file_stem, seen.listing);
    law_most_recent_backups_are_retained(file_stem, backups);
    assert(Seq::<Seq<char>>::empty() + kept =~= kept);
    backup_names::law_backups_in(file_stem, seen.listing);
    if (forall|name: Seq<char>| #[trigger]
        backups.contains(name) && backup_names::is_dated(file_stem, name)
            ==> backup_names::not_newer(file_stem, name, path.last())) && has_room(
        file_stem,
        backups,
    ) {
        if backups.contains(path.last()) {
            law_newest_backup_is_retained(file_stem, backups, path.last());
        } else {
            assert(left_out(seen.directory, seen.listing, path.last()));
        }
    }
    seen
}

} // verus!
