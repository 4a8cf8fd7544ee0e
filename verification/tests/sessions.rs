use relaydeck::backups::{backup_name, save_first};
use relaydeck::clock::Moment;
use relaydeck::codex::active_provider;
use relaydeck::files::{move_file, FileStep};
use relaydeck::home::{write_index, INDEX_FILE};
use relaydeck::models::{CodexSession, SessionOverview};
use relaydeck::rollout::{derive_title, first_meta, id_from_filename, is_rollout, is_user_text, shorten};
use relaydeck::sessions::{
    add_row, archive, archived, delete, drop_rows, entry_for, index_lines, is_orphan, overview, repair_result,
    number_rows, repair_visibility, restore, restored, session_path, write_order, IndexEntry, RolloutFile,
};
use relaydeck::threads::{align_sql, align_thread_providers, count_hidden_sql, count_tables_sql, Alignment, Observation, Work};
use rusqlite::Connection;
use std::collections::BTreeMap;

const ID: &str = "019f8d2f-b8fb-7021-8f30-4c5006c1150b";

fn rollout(id: &str, extra_meta: &str, first_user: &str) -> RolloutFile {
    let name = format!("rollout-2026-07-23T12-15-47-{id}.jsonl");
    let meta = format!(
        r#"{{"timestamp":"2026-07-23T02:48:10.175Z","type":"session_meta","payload":{{"id":"{id}","timestamp":"2026-07-23T02:48:04.915Z","cwd":"E:\\code\\RelayDeck","originator":"Codex Desktop","cli_version":"0.145.0"{extra_meta}}}}}"#
    );
    let user = format!(
        r#"{{"type":"response_item","payload":{{"type":"message","role":"user","content":[{{"type":"input_text","text":"<environment_context>ignored</environment_context>"}},{{"type":"input_text","text":"{first_user}"}}]}}}}"#
    );
    let head = format!("{meta}\n{user}\n");
    RolloutFile {
        path: format!("/home/sessions/2026/07/23/{name}"), name, archived: false, size_bytes: head.len() as u64,
        modified: Some(Moment { seconds: 1_784_780_000, nanos: 0 }), head,
    }
}

fn row(id: &str, title: &str, updated_at: &str, row: usize) -> IndexEntry {
    IndexEntry { id: id.into(), thread_name: Some(title.into()), updated_at: Some(updated_at.into()), row: Some(row) }
}

fn look(files: &Vec<RolloutFile>, index: &Vec<IndexEntry>) -> SessionOverview {
    overview(files, index, "/home/sessions", "/home/sessions-archive", None, 0, Moment { seconds: 0, nanos: 0 })
}

#[test]
fn reads_metadata_and_falls_back_to_the_first_user_turn_for_a_title() {
    let files = vec![rollout("019f8d2f-b8fb-7021-8f30-4c5006c1150b", r#","model_provider":"relaydeck","thread_source":"user""#, "帮我优化保活策略")];
    let snapshot = look(&files, &Vec::new());
    assert_eq!(snapshot.sessions.len(), 1);
    let session = &snapshot.sessions[0];
    assert_eq!(session.title, "帮我优化保活策略");
    assert_eq!(session.cwd.as_deref(), Some("E:\\code\\RelayDeck"));
    assert!(session.via_relaydeck);
    assert!(!session.indexed);
    assert_eq!(snapshot.orphan_count, 1);
}

#[test]
fn index_titles_win_and_subagents_are_not_orphans() {
    let files = vec![
        rollout("019f8d2f-b8fb-7021-8f30-4c5006c1150b", r#","thread_source":"user""#, "第一个会话"),
        rollout("019f8d2f-b8fb-7021-8f30-4c5006c1150c", r#","thread_source":"subagent""#, "子代理会话"),
    ];
    let index = vec![row("019f8d2f-b8fb-7021-8f30-4c5006c1150b", "来自索引的标题", "2026-07-23T13:59:02.830446Z", 0)];
    let snapshot = look(&files, &index);
    let indexed = snapshot.sessions.iter().find(|session| session.indexed).unwrap();
    assert_eq!(indexed.title, "来自索引的标题");
    assert_eq!(snapshot.indexed_count, 1);
    assert_eq!(snapshot.orphan_count, 0, "subagent threads are never indexed by Codex");
    assert_eq!(snapshot.ghost_count, 0);
}

#[test]
fn repair_indexes_orphans_and_drops_dead_rows() {
    let files = vec![rollout("019f8d2f-b8fb-7021-8f30-4c5006c1150b", r#","thread_source":"user""#, "需要修复可见性")];
    let index = vec![row("gone-forever", "已删除", "2026-01-01T00:00:00Z", 0)];
    assert_eq!(look(&files, &index).ghost_count, 1);

    let plan = repair_visibility(&look(&files, &index), &index);
    assert!(plan.changes_index());
    let index = write_order(plan.entries);
    let result = repair_result(plan.restored, plan.removed_ghosts, Some("backup".into()), 0, None);
    assert_eq!(result.restored, 1);
    assert_eq!(result.removed_ghosts, 1);
    assert!(result.backup_path.is_some(), "the original index is always backed up");

    let snapshot = look(&files, &index);
    assert_eq!(snapshot.orphan_count, 0);
    assert_eq!(snapshot.ghost_count, 0);
    assert_eq!(snapshot.sessions[0].title, "需要修复可见性");

    let again = repair_visibility(&snapshot, &index);
    assert!(!again.changes_index());
    assert_eq!(again.entries.len(), 1);
}

#[test]
fn archive_hides_a_session_and_restore_brings_it_back() {
    let id = "019f8d2f-b8fb-7021-8f30-4c5006c1150b";
    let mut files = vec![rollout(id, r#","thread_source":"user""#, "归档我")];
    let index = repair_visibility(&look(&files, &Vec::new()), &Vec::new()).entries;

    let session = archive(&look(&files, &index), id).unwrap();
    let session = archived(session, "/home/sessions-archive/x.jsonl".into());
    assert!(session.archived && !session.indexed);
    assert_eq!(session.path, "/home/sessions-archive/x.jsonl");
    files[0].archived = true;
    let before = index;
    let index = drop_rows(&before, id).unwrap();
    let snapshot = look(&files, &index);
    assert_eq!(snapshot.archived_count, 1);
    assert_eq!(snapshot.archived_bytes, snapshot.total_bytes);
    assert_eq!(snapshot.indexed_count, 0);
    assert_eq!(snapshot.orphan_count, 0, "archived sessions are not orphans");
    assert_eq!(snapshot.ghost_count, 0, "archiving also drops the index row");
    assert!(drop_rows(&index, id).is_none());
    assert_eq!(archive(&snapshot, id).unwrap_err().message(), "会话已经归档");

    let session = restored(restore(&snapshot, id).unwrap(), "/home/sessions/x.jsonl".into());
    assert!(!session.archived && session.indexed);
    files[0].archived = false;
    let index = add_row(&index, &session).unwrap();
    assert_eq!(look(&files, &index).indexed_count, 1);
    assert_eq!(look(&files, &index).sessions[0].title, "归档我");
    let shown = |index: &Vec<IndexEntry>| {
        index.iter().map(|entry| (entry.id.clone(), entry.thread_name.clone())).collect::<Vec<_>>()
    };
    assert_eq!(shown(&index), shown(&before));
    let back = look(&files, &index);
    assert_eq!((back.archived_count, back.archived_bytes, back.orphan_count, back.ghost_count), (0, 0, 0, 0));
    assert!(add_row(&index, &session).is_none());
    assert_eq!(restore(&look(&files, &index), id).unwrap_err().message(), "会话没有归档，无需恢复");
}

#[test]
fn delete_requires_archiving_first() {
    let id = "019f8d2f-b8fb-7021-8f30-4c5006c1150b";
    let mut files = vec![rollout(id, r#","thread_source":"user""#, "危险操作")];
    let refusal = delete(&look(&files, &Vec::new()), id);
    assert!(refusal.is_err(), "a live session cannot be deleted");
    assert_eq!(refusal.unwrap_err().message(), "只能删除已归档的会话，请先归档");
    files[0].archived = true;
    assert!(delete(&look(&files, &Vec::new()), id).unwrap().size_bytes > 0);
    files.clear();
    assert!(look(&files, &Vec::new()).sessions.is_empty());
}

#[test]
fn aligns_user_threads_to_the_configured_provider_with_a_backup() {
    let connection = Connection::open_in_memory().unwrap();
    connection
        .execute_batch(
            "CREATE TABLE threads (id TEXT PRIMARY KEY, thread_source TEXT, model_provider TEXT);
             INSERT INTO threads VALUES ('a', 'user', 'codex_local_access');
             INSERT INTO threads VALUES ('b', 'user', 'relaydeck');
             INSERT INTO threads VALUES ('c', 'user', NULL);
             INSERT INTO threads VALUES ('d', 'subagent', 'codex_local_access');",
        )
        .unwrap();
    let provider = active_provider(Some("model_provider = \"relaydeck\"\n")).unwrap();
    assert_eq!(provider, "relaydeck");
    let hidden = |connection: &Connection| -> i64 {
        connection.query_row(&count_hidden_sql(), [provider.as_str()], |row| row.get(0)).unwrap()
    };
    let snapshot = overview(&Vec::new(), &Vec::new(), "s", "a", Some(provider.clone()), hidden(&connection) as usize, Moment { seconds: 0, nanos: 0 });
    assert_eq!(snapshot.active_provider.as_deref(), Some("relaydeck"));
    assert_eq!(snapshot.provider_mismatch_count, 2, "the codex_local_access and NULL user threads are hidden");

    let mut alignment = Alignment::new();
    assert_eq!(align_thread_providers(&mut alignment, 0, Observation::Opened), Work::CountTables);
    let tables: i64 = connection.query_row(&count_tables_sql(), [], |row| row.get(0)).unwrap();
    assert_eq!(align_thread_providers(&mut alignment, 0, Observation::Tables(tables)), Work::CountHidden);
    assert_eq!(align_thread_providers(&mut alignment, 0, Observation::Hidden(hidden(&connection))), Work::BackUp);
    assert_eq!(align_thread_providers(&mut alignment, 0, Observation::BackedUp("copy".into())), Work::Align);
    let changed = connection.execute(&align_sql(), [provider.as_str()]).unwrap();
    assert_eq!(align_thread_providers(&mut alignment, 0, Observation::Changed(changed)), Work::Leave);
    let result = repair_result(0, 0, None, alignment.aligned, alignment.main_backup);
    assert_eq!(result.aligned_threads, 2);
    assert!(result.db_backup_path.is_some());

    assert_eq!(hidden(&connection), 0);
    let untouched: String =
        connection.query_row("SELECT model_provider FROM threads WHERE id = 'd'", [], |row| row.get(0)).unwrap();
    assert_eq!(untouched, "codex_local_access", "subagent threads are left alone");

    // A second round finds nothing to do and does not create another backup.
    assert_eq!(align_thread_providers(&mut Alignment::new(), 0, Observation::Hidden(hidden(&connection))), Work::Leave);
}

#[test]
fn databases_without_threads_are_left_alone() {
    let mut alignment = Alignment::new();
    assert_eq!(align_thread_providers(&mut alignment, 0, Observation::Missing), Work::Leave);
    assert_eq!(align_thread_providers(&mut alignment, 0, Observation::Tables(0)), Work::Leave);
    assert_eq!(align_thread_providers(&mut alignment, 1, Observation::BackedUp("legacy".into())), Work::Align);
    assert_eq!(align_thread_providers(&mut alignment, 1, Observation::Changed(3)), Work::Leave);
    assert_eq!(align_thread_providers(&mut alignment, 1, Observation::Changed(4)), Work::Leave);
    assert_eq!((alignment.aligned, alignment.main_backup), (7, None));
}

#[test]
fn a_run_over_both_databases_adds_up() {
    let mut alignment = Alignment::new();
    for (position, hidden) in [(0, 2i64), (1, 3)] {
        let steps = [
            (Observation::Opened, Work::CountTables),
            (Observation::Tables(1), Work::CountHidden),
            (Observation::Hidden(hidden), Work::BackUp),
            (Observation::BackedUp(format!("copy{position}")), Work::Align),
            (Observation::Changed(hidden as usize), Work::Leave),
        ];
        for (observation, work) in steps {
            assert_eq!(align_thread_providers(&mut alignment, position, observation), work);
        }
    }
    assert_eq!((alignment.aligned, alignment.main_backup.as_deref()), (5, Some("copy0")));
}

#[test]
fn recovers_the_id_from_the_filename() {
    assert_eq!(
        id_from_filename("rollout-2026-07-23T12-15-47-019f8d2f-b8fb-7021-8f30-4c5006c1150b.jsonl").as_deref(),
        Some("019f8d2f-b8fb-7021-8f30-4c5006c1150b")
    );
    assert_eq!(id_from_filename("not-a-rollout.txt"), None);
}

#[test]
fn short_names_hold_no_identifier() {
    assert_eq!(id_from_filename("rollout-a-b-c-d.jsonl"), None);
    assert_eq!(id_from_filename("rollout-a-b-c-d-e.jsonl").as_deref(), Some("a-b-c-d-e"));
    assert_eq!(id_from_filename("rollout-.jsonl"), None);
    assert!(is_rollout("rollout-x.jsonl"));
    assert!(!is_rollout("rollout-x.json"));
    assert!(!is_rollout("x-rollout-.jsonl"));
}

#[test]
fn files_without_a_description_are_found_by_their_names() {
    let mut file = rollout(ID, "", "x");
    file.head = "garbage\n".into();
    let snapshot = look(&vec![file], &Vec::new());
    let session = &snapshot.sessions[0];
    assert_eq!(session.id, ID);
    assert_eq!(session.title, "未命名会话");
    assert_eq!(session.created_at, None);
    assert!(is_orphan(session));
    let mut nameless = rollout(ID, "", "x");
    nameless.head = String::new();
    nameless.name = "rollout-x.jsonl".into();
    assert!(look(&vec![nameless], &Vec::new()).sessions.is_empty());
}

#[test]
fn titles_have_several_sources() {
    let title = |extra: &str| {
        let mut file = rollout(ID, extra, "<injected>");
        file.modified = None;
        look(&vec![file], &Vec::new()).sessions.remove(0).title
    };
    assert_eq!(title(r#","agent_nickname":"Scout""#), "子代理 · Scout");
    assert_eq!(title(""), "RelayDeck");
    let blank = row(ID, "  ", "not a time", 0);
    let snapshot = look(&vec![rollout(ID, "", "real words")], &vec![blank]);
    assert_eq!(snapshot.sessions[0].title, "real words");
    assert_eq!(snapshot.sessions[0].updated_at, Some(Moment { seconds: 1_784_780_000, nanos: 0 }));
    assert_eq!(snapshot.sessions[0].created_at, Some(Moment { seconds: 1_784_774_884, nanos: 915_000_000 }));
}

#[test]
fn later_rows_of_the_index_count() {
    let index = vec![row(ID, "old", "2026-01-01T00:00:00Z", 0), row(ID, "new", "2026-01-02T00:00:00Z", 1)];
    let snapshot = look(&vec![rollout(ID, "", "x")], &index);
    assert_eq!(snapshot.sessions[0].title, "new");
    assert_eq!(repair_visibility(&snapshot, &index).entries.len(), 2);
}

#[test]
fn sessions_are_listed_newest_first() {
    let ids = ["019f8d2f-b8fb-7021-8f30-4c5006c11501", "019f8d2f-b8fb-7021-8f30-4c5006c11502", "019f8d2f-b8fb-7021-8f30-4c5006c11503"];
    let mut files: Vec<RolloutFile> = ids.iter().map(|id| rollout(id, "", "x")).collect();
    files[0].modified = None;
    files[1].modified = Some(Moment { seconds: 5, nanos: 0 });
    files[2].modified = Some(Moment { seconds: 5, nanos: 1 });
    let snapshot = look(&files, &Vec::new());
    let order: Vec<&str> = snapshot.sessions.iter().map(|session| session.id.as_str()).collect();
    assert_eq!(order, vec![ids[2], ids[1], ids[0]]);
    assert_eq!(snapshot.total_bytes, files.iter().map(|file| file.size_bytes).sum::<u64>());
    assert_eq!(session_path(&snapshot, ids[1]).unwrap(), files[1].path);
    assert_eq!(session_path(&snapshot, "nobody").unwrap_err().message(), "找不到这个会话");
    assert_eq!(archive(&snapshot, "nobody").unwrap_err().message(), "找不到这个会话");
}

#[test]
fn entries_are_written_in_order() {
    let session: CodexSession = look(&vec![rollout(ID, "", "x")], &Vec::new()).sessions.remove(0);
    let entry = entry_for(&session);
    assert_eq!(entry.thread_name.as_deref(), Some("x"));
    assert_eq!(entry.updated_at.as_deref(), Some("2026-07-23T04:13:20.000000Z"));
    assert_eq!(entry.row, None);
    let bare = IndexEntry { id: "bare".into(), thread_name: None, updated_at: None, row: Some(1) };
    let sorted = write_order(vec![entry, row("z", "t", "2026-01-01T00:00:00Z", 0), bare]);
    let order: Vec<&str> = sorted.iter().map(|entry| entry.id.as_str()).collect();
    assert_eq!(order, vec!["bare", "z", ID]);
    assert_eq!(sorted.iter().map(|entry| entry.row).collect::<Vec<_>>(), vec![Some(1), Some(0), None]);
    let again = write_order(number_rows(sorted));
    assert_eq!(again.iter().map(|entry| entry.id.as_str()).collect::<Vec<_>>(), vec!["bare", "z", ID]);
    assert_eq!(again.iter().map(|entry| entry.row).collect::<Vec<_>>(), vec![Some(0), Some(1), Some(2)]);
    assert_eq!(index_lines("{}\n \n\r\nx"), vec!["{}", "x"]);
}

#[test]
fn injected_turns_make_no_title() {
    assert!(!is_user_text("  <environment_context>"));
    assert!(!is_user_text("# Files mentioned by the user"));
    assert!(!is_user_text("The following is the Codex agent history whose"));
    assert!(!is_user_text(" \n"));
    assert!(is_user_text("# Files"));
    let event = r#"{"type":"event_msg","payload":{"type":"user_message","message":"do\nit  now"}}"#;
    assert_eq!(derive_title(event).as_deref(), Some("do it now"));
    assert_eq!(derive_title(&format!("no json\n{event}")).as_deref(), Some("do it now"));
    assert_eq!(derive_title(&format!("{{\"type\":\"note\"}}\n{event}")).as_deref(), Some("do it now"));
    assert_eq!(derive_title(r#"{"type":"event_msg","payload":{"type":"agent_message","message":"hi"}}"#), None);
}

#[test]
fn long_turns_are_cut() {
    assert_eq!(shorten("a\u{3000}b\t c "), "a b c");
    assert_eq!(shorten(&"字".repeat(80)), "字".repeat(80));
    assert_eq!(shorten(&"字".repeat(81)), format!("{}…", "字".repeat(80)));
    let cut = shorten(&format!("{} b", "a".repeat(79)));
    assert_eq!(cut, format!("{} …", "a".repeat(79)));
    assert_eq!(shorten(&cut), cut);
}

#[test]
fn descriptions_stand_in_the_first_lines() {
    let meta = r#"{"type":"session_meta","payload":{"id":"x"}}"#;
    assert_eq!(first_meta(meta).unwrap().get_text("id").as_deref(), Some("x"));
    assert!(first_meta(&format!("{}{meta}", "{}\n".repeat(63))).is_some());
    assert!(first_meta(&format!("{}{meta}", "{}\n".repeat(64))).is_none());
    assert!(first_meta(&format!("{{\"type\":\"session_meta\"}}\n{meta}")).is_none());
}

#[test]
fn nothing_done_is_reported_as_nothing() {
    let nothing = repair_result(0, 0, Some("a".into()), 0, Some("b".into()));
    assert!(nothing.backup_path.is_none() && nothing.db_backup_path.is_none());
    let aligned = repair_result(0, 0, Some("a".into()), 1, Some("b".into()));
    assert!(aligned.backup_path.is_none() && aligned.db_backup_path.is_some());
    assert_eq!(move_file("/y", "/x", true).unwrap_err().message(), "目标位置已存在同名文件: /x");
    assert!(matches!(move_file("/y", "/x", false).unwrap(), FileStep::Move(from, to) if from == "/y" && to == "/x"));
}

fn carry_out(files: &mut BTreeMap<String, String>, steps: Vec<FileStep>) {
    for step in steps {
        match step {
            FileStep::Copy(from, to) => {
                let content = files[&from].clone();
                files.insert(to, content);
            }
            FileStep::Remove(name) => {
                files.remove(&name);
            }
            FileStep::Write(name, content) => {
                files.insert(name, content);
            }
            FileStep::Rename(from, to) | FileStep::Move(from, to) => {
                let content = files.remove(&from).unwrap();
                files.insert(to, content);
            }
        }
    }
}

#[test]
fn the_index_is_saved_and_replaced() {
    let mut files: BTreeMap<String, String> = BTreeMap::new();
    files.insert("config.toml".into(), "c".into());
    for day in 1..=8 {
        let names: Vec<String> = files.keys().cloned().collect();
        let rows = vec![format!(r#"{{"id":"{day}"}}"#), r#"{"id":"x"}"#.to_string()];
        let there = files.contains_key(INDEX_FILE);
        let before = files.get(INDEX_FILE).cloned();
        let write = write_index(there, &names, &format!("2026010{day}"), &rows);
        assert_eq!(write.backup.is_some(), day > 1);
        carry_out(&mut files, write.steps);
        assert_eq!(index_lines(&files[INDEX_FILE]), rows);
        if let Some(backup) = write.backup {
            assert_eq!(backup, format!("session_index.jsonl.relaydeck-backup-2026010{day}"));
            assert_eq!(files.get(&backup), before.as_ref());
        }
    }
    let expected: Vec<String> = vec!["config.toml".to_string(), INDEX_FILE.to_string()]
        .into_iter()
        .chain((4..=8).map(|day| backup_name(INDEX_FILE, &format!("2026010{day}"))))
        .collect();
    assert_eq!(files.keys().cloned().collect::<Vec<_>>(), expected);
    assert_eq!(files["config.toml"], "c");
}

#[test]
fn a_backup_of_the_same_second_is_written_over() {
    let mut files: BTreeMap<String, String> = BTreeMap::new();
    files.insert("f".into(), "new".into());
    files.insert(backup_name("f", "1"), "old".into());
    let names: Vec<String> = files.keys().cloned().collect();
    carry_out(&mut files, save_first("f", true, &names, "1", 1));
    assert_eq!(files.len(), 2);
    assert_eq!(files[&backup_name("f", "1")], "new");
    assert!(save_first("f", false, &names, "2", 1).is_empty());
}

#[test]
fn a_file_comes_back_as_it_was() {
    let mut files: BTreeMap<String, String> = BTreeMap::new();
    files.insert("sessions/a".into(), "bytes".into());
    let before = files.clone();
    carry_out(&mut files, vec![move_file("sessions/a", "sessions-archive/a", false).unwrap()]);
    assert_eq!(files["sessions-archive/a"], "bytes");
    assert!(!files.contains_key("sessions/a"));
    carry_out(&mut files, vec![move_file("sessions-archive/a", "sessions/a", false).unwrap()]);
    assert_eq!(files, before);
}
