//! Backups: their names, their order by age, their retention, and a whole backup on
//! a directory that is held in memory.

use commandshelf::backup_names::{backup_file_name, read_stamp, sort_backups};
use commandshelf::backup_store::{
    backup_document, backup_inbox_document, next_backup_path, repository_fingerprint,
    rotate_backups, BackupEvent, BackupRun, BackupStep, RemoveFailure, RETAINED_BACKUPS,
};
use commandshelf::error::AppError;
use std::collections::BTreeMap;

/// A configuration directory: the contents of each file, by its path.
struct Disk {
    files: BTreeMap<Vec<String>, String>,
    clock: u128,
    sequence: u64,
    removal_fails: bool,
}

impl Disk {
    fn new() -> Disk {
        Disk {
            files: BTreeMap::new(),
            clock: 1_752_474_720_000,
            sequence: 0,
            removal_fails: false,
        }
    }

    /// Performs a backup of a file that holds `document`.
    fn perform(&mut self, start: BackupRun, document: &str) -> Result<Vec<String>, AppError> {
        let mut run = start;
        loop {
            let event = match &run.step {
                BackupStep::CreateDirectory => BackupEvent::DirectoryCreated { created: Ok(()) },
                BackupStep::TakeStamp => {
                    let stamp = (self.clock, self.sequence);
                    self.sequence += 1;
                    BackupEvent::Stamped { stamp: Ok(stamp) }
                }
                BackupStep::CopyDocument { path } => {
                    self.files.insert(path.clone(), document.to_string());
                    BackupEvent::Copied { copied: Ok(()) }
                }
                BackupStep::FlushCopy { .. } => BackupEvent::Flushed { flushed: Ok(()) },
                BackupStep::ListDirectory { .. } => {
                    let directory = run.directory.clone();
                    let inside = |path: &&Vec<String>| path[..path.len() - 1] == directory[..];
                    let names = self.files.keys().filter(inside);
                    BackupEvent::Listed {
                        listing: Ok(names.map(|path| path.last().cloned()).collect()),
                    }
                }
                BackupStep::RemoveBackup { next, .. } if self.removal_fails => {
                    BackupEvent::Removed {
                        removed: Err(RemoveFailure {
                            path: next.clone(),
                            detail: "in use".to_string(),
                        }),
                    }
                }
                BackupStep::RemoveBackup { next, .. } => {
                    let mut path = run.directory.clone();
                    path.push(next.clone());
                    assert!(self.files.remove(&path).is_some());
                    BackupEvent::Removed { removed: Ok(()) }
                }
                BackupStep::Finished { outcome } => return outcome.clone(),
            };
            run = run.advance(event);
        }
    }

    fn names(&self) -> Vec<String> {
        self.files
            .keys()
            .map(|path| path.last().cloned().unwrap())
            .collect()
    }
}

fn listing(names: &[&str]) -> Vec<Option<String>> {
    names.iter().map(|name| Some(name.to_string())).collect()
}

fn failure(run: BackupRun) -> AppError {
    match run.step {
        BackupStep::Finished {
            outcome: Err(error),
        } => error,
        _ => panic!("the backup has to fail"),
    }
}

fn started() -> BackupRun {
    backup_document("repository").advance(BackupEvent::DirectoryCreated { created: Ok(()) })
}

fn stamped() -> BackupRun {
    started().advance(BackupEvent::Stamped { stamp: Ok((7, 1)) })
}

fn copied() -> BackupRun {
    stamped().advance(BackupEvent::Copied { copied: Ok(()) })
}

fn flushed() -> BackupRun {
    copied().advance(BackupEvent::Flushed { flushed: Ok(()) })
}

#[test]
fn retains_only_ten_repository_scoped_backups() {
    let mut disk = Disk::new();
    let repository = "config/repository";

    for index in 0..11 {
        let document = format!("version-{index}");
        disk.perform(backup_document(repository), &document)
            .expect("备份应成功");
    }

    let mut fingerprint_directories: Vec<Vec<String>> = disk
        .files
        .keys()
        .map(|path| path[..path.len() - 1].to_vec())
        .collect();
    fingerprint_directories.dedup();
    assert_eq!(fingerprint_directories.len(), 1);
    assert_eq!(fingerprint_directories[0][0], "backups");
    let backups: Vec<String> = disk.files.values().cloned().collect();
    assert_eq!(backups.len(), 10);
    assert!(!backups.contains(&"version-0".to_string()));
    assert!(backups.contains(&"version-10".to_string()));
    assert!(
        disk.files.keys().all(|path| path[0] == "backups"),
        "备份不得进入用户 Git 仓库"
    );
}

#[test]
fn separates_command_and_inbox_backups() {
    let mut disk = Disk::new();
    let repository = "repository";

    let command_backup = disk
        .perform(backup_document(repository), "commands")
        .expect("命令备份应成功");
    let inbox_backup = disk
        .perform(backup_inbox_document(repository), "inbox")
        .expect("临时收集备份应成功");

    assert!(command_backup
        .last()
        .is_some_and(|name| name.starts_with("commands.")));
    assert!(inbox_backup
        .last()
        .is_some_and(|name| name.starts_with("inbox.")));
    assert_eq!(
        disk.files.get(&inbox_backup).expect("应能读取备份"),
        "inbox"
    );
    assert!(disk.files.keys().all(|path| path[0] == "backups"));
}

#[test]
fn the_most_recent_backups_stay_within_one_millisecond() {
    let mut disk = Disk::new();
    for index in 0..25 {
        disk.perform(backup_document("r"), &format!("version-{index}"))
            .unwrap();
        disk.perform(backup_inbox_document("r"), "inbox").unwrap();
    }
    let kept: Vec<&String> = disk.files.values().filter(|text| *text != "inbox").collect();
    assert_eq!(kept.len(), RETAINED_BACKUPS);
    for index in 15..25 {
        assert!(kept.contains(&&format!("version-{index}")));
    }
    let inbox = disk.names().into_iter().filter(|n| n.starts_with("inbox."));
    assert_eq!(inbox.count(), RETAINED_BACKUPS);
}

#[test]
fn names_a_backup_after_time_and_sequence() {
    let directory = vec!["backups".to_string(), "f".to_string()];
    assert_eq!(
        next_backup_path(&directory, "inbox", Ok((1752474720000, 12))),
        Ok(vec![
            "backups".to_string(),
            "f".to_string(),
            "inbox.1752474720000.12.json".to_string(),
        ])
    );
    assert_eq!(backup_file_name("commands", 0, 0), "commands.0.0.json");
    assert_eq!(
        backup_file_name("s", 340282366920938463463374607431768211455, 18446744073709551615),
        "s.340282366920938463463374607431768211455.18446744073709551615.json"
    );
    assert_eq!(
        next_backup_path(&directory, "inbox", Err("before the epoch".to_string())),
        Err(AppError::new(
            "BACKUP_FAILED",
            "系统时间无法用于创建备份：before the epoch".to_string(),
            "校准系统时间后重试保存。",
            true,
        ))
    );
}

#[test]
fn reads_the_age_back_from_a_name() {
    let read = |name: &str| read_stamp("commands", &name.to_string());
    assert_eq!(read("commands.1752474720000.12.json"), Some((1752474720000, 12)));
    assert_eq!(read("commands.0.0.json"), Some((0, 0)));
    assert_eq!(
        read("commands.340282366920938463463374607431768211455.18446744073709551615.json"),
        Some((u128::MAX, u64::MAX))
    );
    assert_eq!(read("commands.340282366920938463463374607431768211456.0.json"), None);
    assert_eq!(read("commands.0.18446744073709551616.json"), None);
    assert_eq!(read("commands.01.0.json"), None);
    assert_eq!(read("commands.1.json"), None);
    assert_eq!(read("commands..1.json"), None);
    assert_eq!(read("commands.1.2.3.json"), None);
    assert_eq!(read("commands.1.2.jsonx"), None);
    assert_eq!(read("commands.json"), None);
    assert_eq!(read("commands"), None);
    assert_eq!(read(""), None);
    assert_eq!(read("inboxxxx.1.2.json"), None);
}

#[test]
fn orders_backups_by_age() {
    let names = listing(&[
        "commands.20.1.json",
        "commands.note.json",
        "inbox.1.1.json",
        "commands.100.0.json",
        "commands.20.10.json",
        "commands.20.9.json",
        "commands.3.7.json",
        "commands.json",
        "commands.3.8.txt",
        "xcommands.1.1.json",
        "commands",
    ]);
    assert_eq!(
        sort_backups("commands", &names),
        vec![
            "commands.3.7.json",
            "commands.20.1.json",
            "commands.20.9.json",
            "commands.20.10.json",
            "commands.100.0.json",
            "commands.json",
            "commands.note.json",
        ]
    );
}

/// The listing of ten backups of one millisecond and some other files.
fn with_strays(strays: &[&str]) -> Vec<Option<String>> {
    let mut entries = listing(strays);
    entries.extend((0..10).map(|index| Some(format!("commands.1000.{index}.json"))));
    entries
}

#[test]
fn other_files_go_by_the_text_of_their_names() {
    let doomed = |strays: &[&str]| rotate_backups("commands", Ok(with_strays(strays))).unwrap();
    // Before every backup.
    assert_eq!(doomed(&["commands.!.json"]), vec!["commands.!.json"]);
    assert_eq!(doomed(&["commands..json"]), vec!["commands..json"]);
    assert_eq!(doomed(&["commands.05.json"]), vec!["commands.05.json"]);
    assert_eq!(
        doomed(&["commands.#.json", "commands.0999.0.json"]),
        vec!["commands.#.json", "commands.0999.0.json"]
    );
    // After every backup.
    assert_eq!(doomed(&["commands.note.json"]), vec!["commands.1000.0.json"]);
    assert_eq!(doomed(&["commands.2.json"]), vec!["commands.1000.0.json"]);
    assert_eq!(doomed(&["commands.json"]), vec!["commands.1000.0.json"]);
    // Between two backups.
    assert_eq!(
        doomed(&["commands.1000.0.json.json", "commands.z.json"]),
        vec!["commands.1000.0.json", "commands.1000.0.json.json"]
    );
}

#[test]
fn other_files_do_not_push_the_new_backup_out() {
    let mut disk = Disk::new();
    let directory = backup_document("r").directory;
    for index in 0..10 {
        let mut path = directory.clone();
        path.push(format!("commands.!{index}.json"));
        disk.files.insert(path, "stray".to_string());
    }
    let path = disk.perform(backup_document("r"), "new").unwrap();
    assert_eq!(disk.files.get(&path).unwrap(), "new");
    assert_eq!(disk.files.len(), RETAINED_BACKUPS);
    assert!(!disk.names().contains(&"commands.!0.json".to_string()));
}

#[test]
fn other_files_may_hold_every_place() {
    let mut names: Vec<String> = (0..10).map(|index| format!("commands.z{index}.json")).collect();
    names.push("commands.1000.0.json".to_string());
    let full = names.iter().cloned().map(Some).collect();
    assert_eq!(
        rotate_backups("commands", Ok(full)).unwrap(),
        vec!["commands.1000.0.json"]
    );
    names.remove(0);
    let room = names.into_iter().map(Some).collect();
    assert!(rotate_backups("commands", Ok(room)).unwrap().is_empty());
}

#[test]
fn every_other_backup_keeps_what_it_holds() {
    let mut disk = Disk::new();
    for index in 0..10 {
        disk.perform(backup_document("r"), &format!("version-{index}")).unwrap();
    }
    let full = disk.files.clone();

    disk.removal_fails = true;
    assert!(disk.perform(backup_document("r"), "refused").is_err());
    assert_eq!(disk.files.len(), full.len() + 1);
    for (path, contents) in &full {
        assert_eq!(disk.files.get(path), Some(contents));
    }

    disk.removal_fails = false;
    let new = disk.perform(backup_document("r"), "accepted").unwrap();
    assert_eq!(disk.files.len(), RETAINED_BACKUPS);
    assert_eq!(disk.files.get(&new).unwrap(), "accepted");
    // In the order of the text of their names, where 10 comes before 2.
    let kept: Vec<&String> = disk.files.values().collect();
    assert_eq!(
        kept,
        vec![
            "refused",
            "accepted",
            "version-2",
            "version-3",
            "version-4",
            "version-5",
            "version-6",
            "version-7",
            "version-8",
            "version-9",
        ]
    );
}

#[test]
fn ages_are_told_by_number_around_other_files() {
    let names = listing(&[
        "commands.9.0.json",
        "commands.10.0.json",
        "commands.5x.json",
        "commands.100.0.json",
    ]);
    assert_eq!(
        sort_backups("commands", &names),
        vec![
            "commands.9.0.json",
            "commands.10.0.json",
            "commands.5x.json",
            "commands.100.0.json",
        ]
    );
}

#[test]
fn a_backup_that_was_not_listed_stays() {
    let run = flushed().advance(BackupEvent::Listed {
        listing: Ok(vec![None; 20]),
    });
    match run.step {
        BackupStep::Finished { outcome: Ok(path) } => assert_eq!(path[2], "commands.7.1.json"),
        _ => panic!("nothing is to be removed"),
    }
}

#[test]
fn chooses_the_oldest_backups_to_go() {
    let mut entries: Vec<Option<String>> = vec![None];
    for index in (0..13).rev() {
        entries.push(Some(format!("commands.{index}.0.json")));
        entries.push(None);
        entries.push(Some(format!("inbox.{index}.0.json")));
    }
    assert_eq!(
        rotate_backups("commands", Ok(entries)),
        Ok(vec![
            "commands.0.0.json".to_string(),
            "commands.1.0.json".to_string(),
            "commands.2.0.json".to_string(),
        ])
    );
    let ten: Vec<Option<String>> = (0..10)
        .map(|index| Some(format!("commands.{index}.0.json")))
        .collect();
    assert_eq!(rotate_backups("commands", Ok(ten)), Ok(vec![]));
    assert_eq!(rotate_backups("commands", Ok(vec![])), Ok(vec![]));
}

#[test]
fn fingerprints_a_repository() {
    assert_eq!(repository_fingerprint("D:\\Data\\Repo"), "6041e51711992c6e");
    assert_eq!(repository_fingerprint("d:\\data\\REPO"), "6041e51711992c6e");
    assert_eq!(repository_fingerprint("/home/User/Ärger"), "1d778577a6781a89");
    assert_eq!(repository_fingerprint("").len(), 16);
}

#[test]
fn backups_go_to_the_directory_of_the_repository() {
    let run = backup_document("D:\\Data\\Repo");
    assert_eq!(run.directory, vec!["backups", "6041e51711992c6e"]);
    assert_eq!(run.file_stem, "commands");
    assert_eq!(backup_inbox_document("x").file_stem, "inbox");
    match stamped().step {
        BackupStep::CopyDocument { path } => {
            assert_eq!(path[..2], backup_document("repository").directory[..]);
            assert_eq!(path[2], "commands.7.1.json");
        }
        _ => panic!("the file has to be copied"),
    }
}

#[test]
fn every_failure_ends_the_backup() {
    let check = |error: AppError, message: &str, suggestion: &str| {
        assert_eq!(
            error,
            AppError::new("BACKUP_FAILED", message.to_string(), suggestion, true)
        );
    };
    let detail = || Err("x".to_string());
    check(
        failure(
            backup_document("r").advance(BackupEvent::DirectoryCreated { created: detail() }),
        ),
        "无法创建本地备份目录：x",
        "检查 APPDATA 目录权限后重试保存。",
    );
    check(
        failure(started().advance(BackupEvent::Stamped {
            stamp: Err("x".to_string()),
        })),
        "系统时间无法用于创建备份：x",
        "校准系统时间后重试保存。",
    );
    check(
        failure(stamped().advance(BackupEvent::Copied { copied: detail() })),
        "无法备份当前 commands.json：x",
        "确认数据文件可读且磁盘空间充足后重试。",
    );
    check(
        failure(copied().advance(BackupEvent::Flushed { flushed: detail() })),
        "无法把本地备份刷新到磁盘：x",
        "检查磁盘状态后重试。",
    );
    check(
        failure(flushed().advance(BackupEvent::Listed {
            listing: Err("x".to_string()),
        })),
        "无法检查本地备份目录：x",
        "检查 APPDATA 目录权限后重试。",
    );
    let names: Vec<Option<String>> = (0..12)
        .map(|index| Some(format!("commands.{index}.0.json")))
        .collect();
    let removing = flushed().advance(BackupEvent::Listed { listing: Ok(names) });
    match &removing.step {
        BackupStep::RemoveBackup { next, later, .. } => {
            assert_eq!(next, "commands.0.0.json");
            assert_eq!(*later, vec!["commands.1.0.json"]);
        }
        _ => panic!("a backup has to be removed"),
    }
    let removing = removing.advance(BackupEvent::Removed { removed: Ok(()) });
    check(
        failure(removing.advance(BackupEvent::Removed {
            removed: Err(RemoveFailure {
                path: "/c/commands.1.0.json".to_string(),
                detail: "busy".to_string(),
            }),
        })),
        "无法清理旧备份 /c/commands.1.0.json：busy",
        "检查备份目录是否被其他程序占用后重试。",
    );
}

#[test]
fn an_event_out_of_turn_changes_nothing() {
    let run = backup_document("r").advance(BackupEvent::Copied { copied: Ok(()) });
    assert!(matches!(run.step, BackupStep::CreateDirectory));
    let ended = backup_document("r").advance(BackupEvent::DirectoryCreated {
        created: Err("x".to_string()),
    });
    let still = ended.advance(BackupEvent::DirectoryCreated { created: Ok(()) });
    assert_eq!(failure(still).message, "无法创建本地备份目录：x");
}
