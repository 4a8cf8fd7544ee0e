//! Codex session management.
//!
//! Codex keeps every conversation as a `rollout-<timestamp>-<uuid>.jsonl` file under
//! `~/.codex/sessions/YYYY/MM/DD/`, and lists the resumable ones in `~/.codex/session_index.jsonl`.
//! A rollout without an index entry still exists on disk but cannot be resumed, and an index entry
//! without a rollout is a dead row in the picker. This module reconciles the two.

use crate::clock::Moment;
use crate::error::RelayError;
use crate::json::{Json, JsonView};
use crate::models::{CodexSession, CodexSessionView, SessionOverview, SessionRepairResult};
use crate::order;
use crate::rollout;
use crate::text;
use vstd::prelude::*;

verus! {

// ------------------------------------------------------------------------------ the index
/// One line of `session_index.jsonl`. `row` is the number of the line it was read from, by which
/// keys that play no part here are found again when the index is written; a new line has none.
#[derive(Debug)]
pub struct IndexEntry {
    pub id: String,
    pub thread_name: Option<String>,
    pub updated_at: Option<String>,
    pub row: Option<usize>,
}

/// What an entry of the index holds.
pub struct IndexEntryView {
    pub id: Seq<char>,
    pub thread_name: Option<Seq<char>>,
    pub updated_at: Option<Seq<char>>,
    pub row: Option<usize>,
}

impl View for IndexEntry {
    type V = IndexEntryView;

    open spec fn view(&self) -> IndexEntryView {
        IndexEntryView {
            id: self.id@,
            thread_name: self.thread_name.deep_view(),
            updated_at: self.updated_at.deep_view(),
            row: self.row,
        }
    }
}

impl DeepView for IndexEntry {
    type V = IndexEntryView;

    open spec fn deep_view(&self) -> IndexEntryView {
        self@
    }
}

impl Clone for IndexEntry {
    fn clone(&self) -> (copy: Self)
        ensures
            copy == *self,
    {
        IndexEntry {
            id: self.id.clone(),
            thread_name: text::copied(&self.thread_name),
            updated_at: text::copied(&self.updated_at),
            row: self.row,
        }
    }
}

/// The lines of the index that are worth reading: those that are not blank.
pub open spec fn index_lines_of(content: Seq<char>) -> Seq<Seq<char>> {
    text::lines_of(content).filter(|line: Seq<char>| !text::is_blank(line))
}

/// The lines of the index that are worth reading.
pub fn index_lines(content: &str) -> (lines: Vec<String>)
    ensures
        lines.deep_view() == index_lines_of(content@),
{
    let all_lines = text::lines(content);
    let ghost all = all_lines.deep_view();
    let ghost keep = |line: Seq<char>| !text::is_blank(line);
    let mut lines: Vec<String> = Vec::new();
    let mut i: usize = 0;
    proof {
        reveal(Seq::filter);
        assert(all.take(0) =~= Seq::<Seq<char>>::empty());
        assert(lines.deep_view() =~= all.take(0).filter(keep));
    }
    while i < all_lines.len()
        invariant
            all == all_lines.deep_view(),
            keep == (|line: Seq<char>| !text::is_blank(line)),
            i <= all_lines@.len(),
            lines.deep_view() == all.take(i as int).filter(keep),
        decreases all_lines@.len() - i,
    {
        let ghost some = lines.deep_view();
        proof {
            assert(all[i as int] == all_lines@[i as int]@);
            assert(all.take(i + 1) =~= all.take(i as int).push(all[i as int]));
            order::lemma_filter_push(all.take(i as int), keep, all[i as int]);
        }
        if !text::blank(all_lines[i].as_str()) {
            lines.push(all_lines[i].clone());
            assert(lines.deep_view() =~= some.push(all[i as int]));
        }
        i = i + 1;
    }
    assert(all.take(i as int) =~= all);
    lines
}

/// The entries as they are read: each with the number of its row.
pub open spec fn numbered_rows(entries: Seq<IndexEntryView>) -> Seq<IndexEntryView> {
    Seq::new(entries.len(), |i: int| IndexEntryView { row: Some(i as usize), ..entries[i] })
}

/// Gives every entry the number of its row.
pub fn number_rows(entries: Vec<IndexEntry>) -> (numbered: Vec<IndexEntry>)
    ensures
        numbered.deep_view() == numbered_rows(entries.deep_view()),
{
    let ghost all = entries.deep_view();
    let mut numbered = entries;
    let mut i: usize = 0;
    while i < numbered.len()
        invariant
            numbered@.len() == all.len(),
            i <= numbered@.len(),
            forall|k: int| 0 <= k < i ==> #[trigger] numbered@[k]@ == numbered_rows(all)[k],
            forall|k: int| i <= k < numbered@.len() ==> #[trigger] numbered@[k]@ == all[k],
        decreases numbered@.len() - i,
    {
        let ghost before = numbered@;
        assert(before[i as int]@ == all[i as int]);
        numbered[i].row = Some(i);
        assert(forall|k: int| 0 <= k < numbered@.len() && k != i ==> numbered@[k] == before[k]);
        i = i + 1;
    }
    assert(numbered.deep_view() =~= numbered_rows(all));
    numbered
}

/// The place of the last entry with this identifier: later lines of the index count.
pub open spec fn last_with_id(index: Seq<IndexEntryView>, id: Seq<char>) -> Option<int>
    decreases index.len(),
{
    if index.len() == 0 {
        None
    } else if index.last().id == id {
        Some(index.len() - 1)
    } else {
        last_with_id(index.drop_last(), id)
    }
}

/// The entry for a session.
pub open spec fn entry_of(index: Seq<IndexEntryView>, id: Seq<char>) -> Option<IndexEntryView> {
    match last_with_id(index, id) {
        Some(at) => Some(index[at]),
        None => None,
    }
}

/// A session has an entry exactly when some entry has its identifier.
pub proof fn lemma_entry_of(index: Seq<IndexEntryView>, id: Seq<char>)
    ensures
        last_with_id(index, id) matches Some(at) ==> 0 <= at < index.len() && index[at].id == id,
        last_with_id(index, id) is None ==> forall|i: int| 0 <= i < index.len() ==> #[trigger] index[i].id != id,
    decreases index.len(),
{
    if index.len() > 0 && index.last().id != id {
        lemma_entry_of(index.drop_last(), id);
        if last_with_id(index, id) is None {
            assert forall|i: int| 0 <= i < index.len() implies #[trigger] index[i].id != id by {
                if i < index.len() - 1 {
                    assert(index.drop_last()[i] == index[i]);
                }
            }
        }
    }
}

/// The place of the last entry with this identifier.
pub fn find_entry(index: &Vec<IndexEntry>, id: &str) -> (r: Option<usize>)
    ensures
        r is Some <==> last_with_id(index.deep_view(), id@) is Some,
        r matches Some(at) ==> at < index@.len() && last_with_id(index.deep_view(), id@) == Some(at as int),
{
    let ghost all = index.deep_view();
    let mut i: usize = index.len();
    proof {
        assert(all.take(i as int) =~= all);
    }
    while i > 0
        invariant
            all == index.deep_view(),
            i <= index@.len(),
            last_with_id(all, id@) == last_with_id(all.take(i as int), id@),
        decreases i,
    {
        proof {
            assert(all.take(i as int).drop_last() =~= all.take(i - 1));
            assert(all.take(i as int).last() == index@[i - 1]@);
        }
        i = i - 1;
        if text::same(index[i].id.as_str(), id) {
            return Some(i);
        }
    }
    None
}

// --------------------------------------------------------------------------- one session
/// A rollout file as it lies on disk.
#[derive(Debug)]
pub struct RolloutFile {
    pub path: String,
    /// The last component of the path.
    pub name: String,
    /// It lies in the archive.
    pub archived: bool,
    pub size_bytes: u64,
    pub modified: Option<Moment>,
    /// The first part of its text.
    pub head: String,
}

impl RolloutFile {
    /// The calendar has the time of the last change.
    pub open spec fn is_valid(self) -> bool {
        self.modified matches Some(at) ==> at.is_valid()
    }
}

/// The identifier of a conversation: the one that its description gives, else the one in the name of
/// its file.
pub open spec fn id_of(meta: Option<JsonView>, name: Seq<char>) -> Option<Seq<char>> {
    match string_in(meta, "id"@) {
        Some(id) => Some(id),
        None => rollout::id_in_name(name),
    }
}

/// A string in a description.
pub open spec fn string_in(meta: Option<JsonView>, key: Seq<char>) -> Option<Seq<char>> {
    match meta {
        Some(payload) => crate::json::text_member(payload, key),
        None => None,
    }
}

/// A time in a description.
pub open spec fn time_in(value: Option<Seq<char>>) -> Option<Moment> {
    match value {
        Some(words) => crate::clock::rfc3339_parsed(words),
        None => None,
    }
}

/// The first of two that is there.
pub open spec fn either<T>(first: Option<T>, second: Option<T>) -> Option<T> {
    match first {
        Some(value) => Some(value),
        None => second,
    }
}

/// The title in the index, unless it is blank.
pub open spec fn indexed_title(entry: Option<IndexEntryView>) -> Option<Seq<char>> {
    match entry {
        Some(row) => crate::providers::non_blank(row.thread_name),
        None => None,
    }
}

/// The title for want of a better one: the nickname of the agent, else the folder it worked in.
pub open spec fn fallback_title(meta: Option<JsonView>) -> Seq<char> {
    match string_in(meta, "agent_nickname"@) {
        Some(nickname) => "子代理 · "@ + nickname,
        None => match string_in(meta, "cwd"@) {
            Some(cwd) => text::after_last(cwd, text::path_separator()),
            None => "未命名会话"@,
        },
    }
}

/// When a conversation was last changed: as the index says, else as the file says.
pub open spec fn updated_of(entry: Option<IndexEntryView>, modified: Option<Moment>) -> Option<Moment> {
    let listed = match entry {
        Some(row) => time_in(row.updated_at),
        None => None,
    };
    either(listed, modified)
}

/// The session that a file, its description, the title in its turns and the index make.
pub open spec fn assembled(
    file: RolloutFile,
    id: Seq<char>,
    meta: Option<JsonView>,
    turn_title: Option<Seq<char>>,
    index: Seq<IndexEntryView>,
) -> CodexSessionView {
    let entry = entry_of(index, id);
    let titled = either(indexed_title(entry), turn_title);
    CodexSessionView {
        id,
        title: match titled {
            Some(title) => title,
            None => fallback_title(meta),
        },
        path: file.path@,
        cwd: string_in(meta, "cwd"@),
        originator: string_in(meta, "originator"@),
        cli_version: string_in(meta, "cli_version"@),
        model_provider: string_in(meta, "model_provider"@),
        thread_source: string_in(meta, "thread_source"@),
        agent_nickname: string_in(meta, "agent_nickname"@),
        forked_from_id: string_in(meta, "forked_from_id"@),
        created_at: time_in(string_in(meta, "timestamp"@)),
        updated_at: updated_of(entry, file.modified),
        size_bytes: file.size_bytes,
        indexed: entry is Some,
        archived: file.archived,
        via_relaydeck: string_in(meta, "model_provider"@) == Some("relaydeck"@),
        subagent: string_in(meta, "thread_source"@) == Some("subagent"@),
    }
}

/// The description that the head of a file holds.
pub open spec fn meta_of(file: RolloutFile) -> Option<JsonView> {
    rollout::meta_in(rollout::first_lines(file.head@, rollout::META_LINES as nat))
}

/// The title that the turns in the head of a file give.
pub open spec fn turn_title_of(file: RolloutFile) -> Option<Seq<char>> {
    rollout::title_in(rollout::first_lines(file.head@, rollout::TITLE_LINES as nat))
}

/// The session that a file and the index make; none where nothing gives it an identifier.
pub open spec fn session_of(file: RolloutFile, index: Seq<IndexEntryView>) -> Option<CodexSessionView> {
    match id_of(meta_of(file), file.name@) {
        Some(id) => Some(assembled(file, id, meta_of(file), turn_title_of(file), index)),
        None => None,
    }
}

fn string_of(meta: &Option<Json>, key: &str) -> (r: Option<String>)
    ensures
        r.deep_view() == string_in(
            match *meta {
                Some(payload) => Some(payload@),
                None => None,
            },
            key@,
        ),
{
    match meta {
        Some(payload) => payload.get_text(key),
        None => None,
    }
}

fn time_of(value: &Option<String>) -> (r: Option<Moment>)
    ensures
        r == time_in(value.deep_view()),
        r matches Some(at) ==> at.is_valid(),
{
    match value {
        Some(words) => crate::clock::parse_time(words.as_str()),
        None => None,
    }
}

/// Puts a session together from a file, its description, the title in its turns and the index.
pub fn assemble_session(
    file: &RolloutFile,
    meta: &Option<Json>,
    turn_title: Option<String>,
    index: &Vec<IndexEntry>,
) -> (r: Option<CodexSession>)
    requires
        file.is_valid(),
    ensures
        ({
            let described = match *meta {
                Some(payload) => Some(payload@),
                None => None,
            };
            &&& r is Some <==> id_of(described, file.name@) is Some
            &&& r matches Some(session) ==> session@ == assembled(
                *file,
                id_of(described, file.name@)->0,
                described,
                turn_title.deep_view(),
                index.deep_view(),
            )
        }),
        r matches Some(session) ==> (session.updated_at matches Some(at) ==> at.is_valid()),
{
    let id = match string_of(meta, "id") {
        Some(id) => id,
        None => match rollout::id_from_filename(file.name.as_str()) {
            Some(id) => id,
            None => {
                return None;
            },
        },
    };
    let entry = find_entry(index, id.as_str());
    proof {
        lemma_entry_of(index.deep_view(), id@);
    }
    let mut title = turn_title;
    let mut updated_at = file.modified;
    match entry {
        Some(at) => {
            assert(index.deep_view()[at as int] == index@[at as int]@);
            match &index[at].thread_name {
                Some(name) => {
                    if !text::blank(name.as_str()) {
                        title = Some(name.clone());
                    }
                },
                None => {},
            }
            match time_of(&index[at].updated_at) {
                Some(time) => {
                    updated_at = Some(time);
                },
                None => {},
            }
        },
        None => {},
    }
    let agent_nickname = string_of(meta, "agent_nickname");
    let cwd = string_of(meta, "cwd");
    let title = match title {
        Some(title) => title,
        None => match &agent_nickname {
            Some(nickname) => text::cat("子代理 · ", nickname.as_str()),
            None => match &cwd {
                Some(folder) => text::last_component(folder.as_str()),
                None => "未命名会话".to_owned(),
            },
        },
    };
    let model_provider = string_of(meta, "model_provider");
    let thread_source = string_of(meta, "thread_source");
    let created = string_of(meta, "timestamp");
    let via_relaydeck = text::is_exactly(&model_provider, "relaydeck");
    let subagent = text::is_exactly(&thread_source, "subagent");
    Some(
        CodexSession {
            id,
            title,
            path: file.path.clone(),
            cwd,
            originator: string_of(meta, "originator"),
            cli_version: string_of(meta, "cli_version"),
            model_provider,
            thread_source,
            agent_nickname,
            forked_from_id: string_of(meta, "forked_from_id"),
            created_at: time_of(&created),
            updated_at,
            size_bytes: file.size_bytes,
            indexed: entry.is_some(),
            archived: file.archived,
            via_relaydeck,
            subagent,
        },
    )
}

/// The session that a file and the index make.
pub fn read_session(file: &RolloutFile, index: &Vec<IndexEntry>) -> (r: Option<CodexSession>)
    requires
        file.is_valid(),
    ensures
        r is Some <==> session_of(*file, index.deep_view()) is Some,
        r matches Some(session) ==> session_of(*file, index.deep_view()) == Some(session@),
        r matches Some(session) ==> (session.updated_at matches Some(at) ==> at.is_valid()),
{
    let meta = rollout::first_meta(file.head.as_str());
    let turn_title = rollout::derive_title(file.head.as_str());
    assemble_session(file, &meta, turn_title, index)
}

// --------------------------------------------------------------------------- the overview
/// The sessions that these files make, in their order.
pub open spec fn sessions_of(files: Seq<RolloutFile>, index: Seq<IndexEntryView>) -> Seq<CodexSessionView>
    decreases files.len(),
{
    if files.len() == 0 {
        Seq::empty()
    } else {
        let before = sessions_of(files.drop_last(), index);
        match session_of(files.last(), index) {
            Some(session) => before.push(session),
            None => before,
        }
    }
}

/// The size of all files together.
pub open spec fn size_of_files(files: Seq<RolloutFile>) -> nat
    decreases files.len(),
{
    if files.len() == 0 {
        0
    } else {
        size_of_files(files.drop_last()) + files.last().size_bytes as nat
    }
}

/// The size of all sessions together.
pub open spec fn size_of_sessions(sessions: Seq<CodexSessionView>) -> nat
    decreases sessions.len(),
{
    if sessions.len() == 0 {
        0
    } else {
        size_of_sessions(sessions.drop_last()) + sessions.last().size_bytes as nat
    }
}

/// The one that was changed later first; those whose time is unknown last.
pub open spec fn by_newest() -> spec_fn(CodexSessionView, CodexSessionView) -> bool {
    |a: CodexSessionView, b: CodexSessionView|
        match (a.updated_at, b.updated_at) {
            (_, None) => true,
            (None, Some(_)) => false,
            (Some(x), Some(y)) => !y.is_after(x),
        }
}

fn precedes_by_newest(a: &CodexSession, b: &CodexSession) -> (r: bool)
    ensures
        r == by_newest()(a@, b@),
{
    match (a.updated_at, b.updated_at) {
        (_, None) => true,
        (None, Some(_)) => false,
        (Some(x), Some(y)) => !y.after(x),
    }
}

/// A live session that Codex cannot resume. Subagent threads are never indexed by design, so they do
/// not count.
pub open spec fn is_orphaned(session: CodexSessionView) -> bool {
    !session.archived && !session.indexed && !session.subagent
}

/// A live rollout Codex cannot resume. Subagent threads are never indexed by design, so they do not count.
pub fn is_orphan(session: &CodexSession) -> (r: bool)
    ensures
        r == is_orphaned(session@),
{
    !session.archived && !session.indexed && !session.subagent
}

/// Some session has this identifier.
pub open spec fn is_present(sessions: Seq<CodexSessionView>, id: Seq<char>) -> bool {
    exists|i: int| 0 <= i < sessions.len() && (#[trigger] sessions[i]).id == id
}

/// Some session outside the archive has this identifier.
pub open spec fn is_live(sessions: Seq<CodexSessionView>, id: Seq<char>) -> bool {
    exists|i: int| 0 <= i < sessions.len() && !(#[trigger] sessions[i]).archived && sessions[i].id == id
}

/// The entries of the index whose session is gone.
pub open spec fn ghosts_of(sessions: Seq<CodexSessionView>, index: Seq<IndexEntryView>) -> Seq<IndexEntryView> {
    index.filter(|entry: IndexEntryView| !is_present(sessions, entry.id))
}

/// The sessions in the archive.
pub open spec fn archived_of(sessions: Seq<CodexSessionView>) -> Seq<CodexSessionView> {
    sessions.filter(|session: CodexSessionView| session.archived)
}

/// The sessions that Codex can resume.
pub open spec fn resumable_of(sessions: Seq<CodexSessionView>) -> Seq<CodexSessionView> {
    sessions.filter(|session: CodexSessionView| session.indexed && !session.archived)
}

/// The live sessions that Codex cannot resume.
pub open spec fn orphans_of(sessions: Seq<CodexSessionView>) -> Seq<CodexSessionView> {
    sessions.filter(|session: CodexSessionView| is_orphaned(session))
}

fn present(sessions: &Vec<CodexSession>, id: &str) -> (r: bool)
    ensures
        r == is_present(sessions.deep_view(), id@),
{
    let ghost all = sessions.deep_view();
    let mut i: usize = 0;
    while i < sessions.len()
        invariant
            all == sessions.deep_view(),
            i <= sessions@.len(),
            forall|k: int| 0 <= k < i ==> (#[trigger] all[k]).id != id@,
        decreases sessions@.len() - i,
    {
        if text::same(sessions[i].id.as_str(), id) {
            assert(all[i as int].id == id@);
            return true;
        }
        i = i + 1;
    }
    false
}

fn live(sessions: &Vec<CodexSession>, id: &str) -> (r: bool)
    ensures
        r == is_live(sessions.deep_view(), id@),
{
    let ghost all = sessions.deep_view();
    let mut i: usize = 0;
    while i < sessions.len()
        invariant
            all == sessions.deep_view(),
            i <= sessions@.len(),
            forall|k: int| 0 <= k < i ==> (#[trigger] all[k]).archived || all[k].id != id@,
        decreases sessions@.len() - i,
    {
        if !sessions[i].archived && text::same(sessions[i].id.as_str(), id) {
            assert(!all[i as int].archived && all[i as int].id == id@);
            return true;
        }
        i = i + 1;
    }
    false
}

fn count_ghosts(sessions: &Vec<CodexSession>, index: &Vec<IndexEntry>) -> (count: usize)
    ensures
        count == ghosts_of(sessions.deep_view(), index.deep_view()).len(),
{
    let ghost all = index.deep_view();
    let ghost is_ghost = |entry: IndexEntryView| !is_present(sessions.deep_view(), entry.id);
    let mut count: usize = 0;
    let mut i: usize = 0;
    proof {
        reveal(Seq::filter);
        assert(all.take(0).filter(is_ghost).len() == 0);
    }
    while i < index.len()
        invariant
            all == index.deep_view(),
            is_ghost == (|entry: IndexEntryView| !is_present(sessions.deep_view(), entry.id)),
            i <= index@.len(),
            count <= i,
            count == all.take(i as int).filter(is_ghost).len(),
        decreases index@.len() - i,
    {
        proof {
            assert(all[i as int] == index@[i as int]@);
            assert(all.take(i + 1) =~= all.take(i as int).push(all[i as int]));
            order::lemma_filter_push(all.take(i as int), is_ghost, all[i as int]);
        }
        if !present(sessions, index[i].id.as_str()) {
            count = count + 1;
        }
        i = i + 1;
    }
    assert(all.take(i as int) =~= all);
    count
}

/// What is counted over all sessions.
#[derive(Clone, Copy, Debug)]
struct Totals {
    total_bytes: u64,
    archived_bytes: u64,
    indexed: usize,
    orphans: usize,
    archived: usize,
}

proof fn lemma_archived_size(sessions: Seq<CodexSessionView>)
    ensures
        size_of_sessions(archived_of(sessions)) <= size_of_sessions(sessions),
    decreases sessions.len(),
{
    let keep = |session: CodexSessionView| session.archived;
    reveal(Seq::filter);
    if sessions.len() > 0 {
        lemma_archived_size(sessions.drop_last());
        let kept = sessions.drop_last().filter(keep);
        assert(kept.push(sessions.last()).drop_last() =~= kept);
    }
}

proof fn lemma_size_grows(sessions: Seq<CodexSessionView>, i: int)
    requires
        0 <= i <= sessions.len(),
    ensures
        size_of_sessions(sessions.take(i)) <= size_of_sessions(sessions),
    decreases sessions.len(),
{
    if i < sessions.len() {
        lemma_size_grows(sessions.drop_last(), i);
        assert(sessions.drop_last().take(i) =~= sessions.take(i));
    } else {
        assert(sessions.take(i) =~= sessions);
    }
}

fn count_all(sessions: &Vec<CodexSession>) -> (totals: Totals)
    requires
        size_of_sessions(sessions.deep_view()) <= u64::MAX,
    ensures
        totals.total_bytes == size_of_sessions(sessions.deep_view()),
        totals.archived_bytes == size_of_sessions(archived_of(sessions.deep_view())),
        totals.indexed == resumable_of(sessions.deep_view()).len(),
        totals.orphans == orphans_of(sessions.deep_view()).len(),
        totals.archived == archived_of(sessions.deep_view()).len(),
{
    let ghost all = sessions.deep_view();
    let ghost is_archived = |session: CodexSessionView| session.archived;
    let ghost is_resumable = |session: CodexSessionView| session.indexed && !session.archived;
    let ghost is_orphan_view = |session: CodexSessionView| is_orphaned(session);
    let mut totals = Totals { total_bytes: 0, archived_bytes: 0, indexed: 0, orphans: 0, archived: 0 };
    let mut i: usize = 0;
    proof {
        reveal(Seq::filter);
        assert(all.take(0) =~= Seq::<CodexSessionView>::empty());
        assert(all.take(0).filter(is_archived) =~= Seq::<CodexSessionView>::empty());
    }
    while i < sessions.len()
        invariant
            all == sessions.deep_view(),
            size_of_sessions(all) <= u64::MAX,
            is_archived == (|session: CodexSessionView| session.archived),
            is_resumable == (|session: CodexSessionView| session.indexed && !session.archived),
            is_orphan_view == (|session: CodexSessionView| is_orphaned(session)),
            i <= sessions@.len(),
            totals.indexed <= i,
            totals.orphans <= i,
            totals.archived <= i,
            totals.total_bytes == size_of_sessions(all.take(i as int)),
            totals.archived_bytes == size_of_sessions(all.take(i as int).filter(is_archived)),
            totals.indexed == all.take(i as int).filter(is_resumable).len(),
            totals.orphans == all.take(i as int).filter(is_orphan_view).len(),
            totals.archived == all.take(i as int).filter(is_archived).len(),
        decreases sessions@.len() - i,
    {
        let session = &sessions[i];
        proof {
            let taken = all.take(i as int);
            assert(all[i as int] == session@);
            assert(all.take(i + 1) =~= taken.push(session@));
            assert(all.take(i + 1).drop_last() =~= taken);
            order::lemma_filter_push(taken, is_archived, session@);
            order::lemma_filter_push(taken, is_resumable, session@);
            order::lemma_filter_push(taken, is_orphan_view, session@);
            let kept = taken.filter(is_archived);
            assert(kept.push(session@).drop_last() =~= kept);
            lemma_size_grows(all, i + 1);
            lemma_archived_size(all.take(i + 1));
        }
        totals.total_bytes = totals.total_bytes + session.size_bytes;
        if session.archived {
            totals.archived_bytes = totals.archived_bytes + session.size_bytes;
            totals.archived = totals.archived + 1;
        }
        if session.indexed && !session.archived {
            totals.indexed = totals.indexed + 1;
        }
        if is_orphan(session) {
            totals.orphans = totals.orphans + 1;
        }
        i = i + 1;
    }
    assert(all.take(i as int) =~= all);
    totals
}

/// The time of the last change of every session is within the calendar.
pub open spec fn have_valid_times(sessions: Seq<CodexSessionView>) -> bool {
    forall|i: int| 0 <= i < sessions.len() ==> ((#[trigger] sessions[i]).updated_at matches Some(at) ==> at.is_valid())
}

fn read_sessions(files: &Vec<RolloutFile>, index: &Vec<IndexEntry>) -> (sessions: Vec<CodexSession>)
    requires
        forall|i: int| 0 <= i < files@.len() ==> (#[trigger] files@[i]).is_valid(),
    ensures
        sessions.deep_view() == sessions_of(files@, index.deep_view()),
        size_of_sessions(sessions.deep_view()) <= size_of_files(files@),
        have_valid_times(sessions.deep_view()),
{
    let ghost rows = index.deep_view();
    let mut sessions: Vec<CodexSession> = Vec::new();
    let mut i: usize = 0;
    proof {
        assert(sessions.deep_view() =~= sessions_of(files@.take(0), rows));
    }
    while i < files.len()
        invariant
            forall|k: int| 0 <= k < files@.len() ==> (#[trigger] files@[k]).is_valid(),
            rows == index.deep_view(),
            i <= files@.len(),
            sessions.deep_view() == sessions_of(files@.take(i as int), rows),
            size_of_sessions(sessions.deep_view()) <= size_of_files(files@.take(i as int)),
            have_valid_times(sessions.deep_view()),
        decreases files@.len() - i,
    {
        let ghost before = sessions.deep_view();
        proof {
            assert(files@.take(i + 1).drop_last() =~= files@.take(i as int));
            assert(files@.take(i + 1).last() == files@[i as int]);
        }
        match read_session(&files[i], index) {
            Some(session) => {
                sessions.push(session);
                proof {
                    assert(sessions.deep_view() =~= before.push(session@));
                    assert(before.push(session@).drop_last() =~= before);
                }
            },
            None => {},
        }
        i = i + 1;
    }
    assert(files@.take(i as int) =~= files@);
    sessions
}

/// All sessions with what is counted over them, the one that was changed last first.
pub fn overview(
    files: &Vec<RolloutFile>,
    index: &Vec<IndexEntry>,
    sessions_dir: &str,
    archive_dir: &str,
    active_provider: Option<String>,
    mismatches: usize,
    scanned_at: Moment,
) -> (snapshot: SessionOverview)
    requires
        forall|i: int| 0 <= i < files@.len() ==> (#[trigger] files@[i]).is_valid(),
        size_of_files(files@) <= u64::MAX,
    ensures
        ({
            let sessions = sessions_of(files@, index.deep_view());
            &&& snapshot.sessions.deep_view() == order::stable_sort(sessions, by_newest())
            &&& snapshot.total_bytes == size_of_sessions(sessions)
            &&& snapshot.archived_bytes == size_of_sessions(archived_of(sessions))
            &&& snapshot.indexed_count == resumable_of(sessions).len()
            &&& snapshot.orphan_count == orphans_of(sessions).len()
            &&& snapshot.archived_count == archived_of(sessions).len()
            &&& snapshot.ghost_count == ghosts_of(sessions, index.deep_view()).len()
        }),
        snapshot.sessions_dir@ == sessions_dir@,
        snapshot.archive_dir@ == archive_dir@,
        snapshot.active_provider == active_provider,
        snapshot.provider_mismatch_count == if active_provider is Some {
            mismatches
        } else {
            0
        },
        snapshot.scanned_at == scanned_at,
        have_valid_times(snapshot.sessions.deep_view()),
{
    let sessions = read_sessions(files, index);
    let ghost all = sessions.deep_view();
    let ghost_count: usize = count_ghosts(&sessions, index);
    let totals = count_all(&sessions);
    let sorted = order::sort_by(sessions, precedes_by_newest, Ghost(by_newest()));
    proof {
        lemma_sorting_keeps_times(all);
    }
    let provider_mismatch_count: usize = if active_provider.is_some() {
        mismatches
    } else {
        0
    };
    SessionOverview {
        sessions: sorted,
        sessions_dir: sessions_dir.to_owned(),
        archive_dir: archive_dir.to_owned(),
        total_bytes: totals.total_bytes,
        archived_bytes: totals.archived_bytes,
        indexed_count: totals.indexed,
        orphan_count: totals.orphans,
        archived_count: totals.archived,
        ghost_count,
        active_provider,
        provider_mismatch_count,
        scanned_at,
    }
}

proof fn lemma_sorted_contains(sessions: Seq<CodexSessionView>, session: CodexSessionView)
    ensures
        order::stable_sort(sessions, by_newest()).contains(session) <==> sessions.contains(session),
{
    broadcast use vstd::seq_lib::group_to_multiset_ensures;

    let sorted = order::stable_sort(sessions, by_newest());
    order::lemma_sort_keeps_items(sessions, by_newest());
    assert(sorted.contains(session) <==> sorted.to_multiset().contains(session));
    assert(sessions.contains(session) <==> sessions.to_multiset().contains(session));
}

proof fn lemma_sorting_keeps_times(sessions: Seq<CodexSessionView>)
    requires
        have_valid_times(sessions),
    ensures
        have_valid_times(order::stable_sort(sessions, by_newest())),
{
    let sorted = order::stable_sort(sessions, by_newest());
    assert forall|i: int| 0 <= i < sorted.len() implies ((#[trigger] sorted[i]).updated_at matches Some(at) ==> at.is_valid()) by {
        lemma_sorted_contains(sessions, sorted[i]);
        assert(sorted.contains(sorted[i]));
        let k = choose|k: int| 0 <= k < sessions.len() && sessions[k] == sorted[i];
        assert(sessions[k].updated_at == sorted[i].updated_at);
    }
}

// ------------------------------------------------------------------- changes of the index
/// The entry that makes a session resumable.
pub open spec fn entry_of_session(session: CodexSessionView) -> IndexEntryView {
    IndexEntryView {
        id: session.id,
        thread_name: Some(session.title),
        updated_at: match session.updated_at {
            Some(at) => Some(crate::clock::rfc3339_written(at)),
            None => None,
        },
        row: None,
    }
}

/// The entry that makes a session resumable. Whoever reads it finds the time of the last change, cut to
/// microseconds, in any year of four digits.
pub fn entry_for(session: &CodexSession) -> (entry: IndexEntry)
    requires
        session.updated_at matches Some(at) ==> at.is_valid(),
    ensures
        entry@ == entry_of_session(session@),
        session.updated_at matches Some(at) ==> (crate::clock::FIRST_FOUR_DIGIT_SECOND <= at.seconds
            <= crate::clock::LAST_FOUR_DIGIT_SECOND ==> time_in(entry.updated_at.deep_view()) == Some(at.to_micros())),
{
    let updated_at = match session.updated_at {
        Some(at) => Some(crate::clock::time_text(at)),
        None => None,
    };
    IndexEntry { id: session.id.clone(), thread_name: Some(session.title.clone()), updated_at, row: None }
}

/// The index without the entries of sessions that are gone or in the archive.
pub open spec fn live_rows(sessions: Seq<CodexSessionView>, index: Seq<IndexEntryView>) -> Seq<IndexEntryView> {
    index.filter(|entry: IndexEntryView| is_live(sessions, entry.id))
}

/// The index as it should be: the entries of live sessions, and new ones for the orphans.
pub open spec fn repaired(sessions: Seq<CodexSessionView>, index: Seq<IndexEntryView>) -> Seq<IndexEntryView> {
    live_rows(sessions, index) + orphans_of(sessions).map_values(|session: CodexSessionView| entry_of_session(session))
}

/// A repair of the index.
#[derive(Debug)]
pub struct RepairPlan {
    /// The index as it should be.
    pub entries: Vec<IndexEntry>,
    /// How many sessions become resumable again.
    pub restored: usize,
    /// How many entries lead nowhere and are dropped.
    pub removed_ghosts: usize,
}

impl RepairPlan {
    /// Whether the index has to be written.
    pub fn changes_index(&self) -> (r: bool)
        ensures
            r == (self.restored > 0 || self.removed_ghosts > 0),
    {
        self.restored > 0 || self.removed_ghosts > 0
    }
}

/// Re-adds every orphan to the index and drops rows whose rollout file is gone.
pub fn repair_visibility(snapshot: &SessionOverview, index: &Vec<IndexEntry>) -> (plan: RepairPlan)
    requires
        have_valid_times(snapshot.sessions.deep_view()),
    ensures
        plan.entries.deep_view() == repaired(snapshot.sessions.deep_view(), index.deep_view()),
        plan.restored == orphans_of(snapshot.sessions.deep_view()).len(),
        plan.removed_ghosts == index@.len() - live_rows(snapshot.sessions.deep_view(), index.deep_view()).len(),
{
    let sessions = &snapshot.sessions;
    let ghost all = sessions.deep_view();
    let ghost rows = index.deep_view();
    let ghost is_kept = |entry: IndexEntryView| is_live(all, entry.id);
    let mut entries: Vec<IndexEntry> = Vec::new();
    let mut i: usize = 0;
    proof {
        reveal(Seq::filter);
        assert(rows.take(0) =~= Seq::<IndexEntryView>::empty());
        assert(entries.deep_view() =~= rows.take(0).filter(is_kept));
    }
    while i < index.len()
        invariant
            all == sessions.deep_view(),
            rows == index.deep_view(),
            is_kept == (|entry: IndexEntryView| is_live(all, entry.id)),
            i <= index@.len(),
            entries@.len() <= i,
            entries.deep_view() == rows.take(i as int).filter(is_kept),
        decreases index@.len() - i,
    {
        let ghost some = entries.deep_view();
        proof {
            assert(rows[i as int] == index@[i as int]@);
            assert(rows.take(i + 1) =~= rows.take(i as int).push(rows[i as int]));
            order::lemma_filter_push(rows.take(i as int), is_kept, rows[i as int]);
        }
        if live(sessions, index[i].id.as_str()) {
            entries.push(index[i].clone());
            assert(entries.deep_view() =~= some.push(rows[i as int]));
        }
        i = i + 1;
    }
    assert(rows.take(i as int) =~= rows);
    let removed_ghosts: usize = index.len() - entries.len();
    let ghost kept = entries.deep_view();
    assert(kept.len() == entries@.len());
    let ghost is_lost = |session: CodexSessionView| is_orphaned(session);
    let ghost make = |session: CodexSessionView| entry_of_session(session);
    let mut restored: usize = 0;
    let mut k: usize = 0;
    proof {
        assert(all.take(0).filter(is_lost) =~= Seq::<CodexSessionView>::empty());
        assert(entries.deep_view() =~= kept + all.take(0).filter(is_lost).map_values(make));
    }
    while k < sessions.len()
        invariant
            all == sessions.deep_view(),
            have_valid_times(all),
            is_lost == (|session: CodexSessionView| is_orphaned(session)),
            make == (|session: CodexSessionView| entry_of_session(session)),
            k <= sessions@.len(),
            restored <= k,
            restored == all.take(k as int).filter(is_lost).len(),
            entries.deep_view() == kept + all.take(k as int).filter(is_lost).map_values(make),
        decreases sessions@.len() - k,
    {
        let ghost some = entries.deep_view();
        let ghost lost = all.take(k as int).filter(is_lost);
        proof {
            assert(all[k as int] == sessions@[k as int]@);
            assert(all.take(k + 1) =~= all.take(k as int).push(all[k as int]));
            order::lemma_filter_push(all.take(k as int), is_lost, all[k as int]);
        }
        if is_orphan(&sessions[k]) {
            assert(all[k as int].updated_at == sessions@[k as int].updated_at);
            entries.push(entry_for(&sessions[k]));
            restored = restored + 1;
            proof {
                assert(entries.deep_view() =~= some.push(make(all[k as int])));
                assert(lost.push(all[k as int]).map_values(make) =~= lost.map_values(make).push(make(all[k as int])));
                assert(some.push(make(all[k as int])) =~= kept + lost.map_values(make).push(make(all[k as int])));
            }
        }
        k = k + 1;
    }
    assert(all.take(k as int) =~= all);
    RepairPlan { entries, restored, removed_ghosts }
}

/// What is reported of a repair: nothing at all where nothing was done.
pub fn repair_result(
    restored: usize,
    removed_ghosts: usize,
    backup_path: Option<String>,
    aligned_threads: usize,
    db_backup_path: Option<String>,
) -> (result: SessionRepairResult)
    ensures
        result.restored == restored,
        result.removed_ghosts == removed_ghosts,
        result.aligned_threads == aligned_threads,
        result.backup_path == if restored > 0 || removed_ghosts > 0 {
            backup_path
        } else {
            None
        },
        result.db_backup_path == if restored > 0 || removed_ghosts > 0 || aligned_threads > 0 {
            db_backup_path
        } else {
            None
        },
{
    if restored == 0 && removed_ghosts == 0 && aligned_threads == 0 {
        return SessionRepairResult::default();
    }
    let backup_path = if restored > 0 || removed_ghosts > 0 {
        backup_path
    } else {
        None
    };
    SessionRepairResult { restored, removed_ghosts, backup_path, aligned_threads, db_backup_path }
}

/// By the time of the last change, as the index writes it; entries without one first.
pub open spec fn by_update() -> spec_fn(IndexEntryView, IndexEntryView) -> bool {
    |a: IndexEntryView, b: IndexEntryView|
        match (a.updated_at, b.updated_at) {
            (None, _) => true,
            (Some(_), None) => false,
            (Some(x), Some(y)) => text::text_le(x, y),
        }
}

fn precedes_by_update(a: &IndexEntry, b: &IndexEntry) -> (r: bool)
    ensures
        r == by_update()(a@, b@),
{
    match (&a.updated_at, &b.updated_at) {
        (None, _) => true,
        (Some(_), None) => false,
        (Some(x), Some(y)) => text::not_after(x.as_str(), y.as_str()),
    }
}

/// The entries in the order in which the index is written.
pub fn write_order(entries: Vec<IndexEntry>) -> (sorted: Vec<IndexEntry>)
    ensures
        sorted.deep_view() == order::stable_sort(entries.deep_view(), by_update()),
{
    order::sort_by(entries, precedes_by_update, Ghost(by_update()))
}

/// The index without the entries of one session.
pub open spec fn without_id(index: Seq<IndexEntryView>, id: Seq<char>) -> Seq<IndexEntryView> {
    index.filter(|entry: IndexEntryView| entry.id != id)
}

/// The index without the entries of one session, where it has any.
pub fn drop_rows(index: &Vec<IndexEntry>, id: &str) -> (r: Option<Vec<IndexEntry>>)
    ensures
        r is Some <==> entry_of(index.deep_view(), id@) is Some,
        r matches Some(entries) ==> entries.deep_view() == without_id(index.deep_view(), id@),
{
    let ghost rows = index.deep_view();
    let ghost keep = |entry: IndexEntryView| entry.id != id@;
    if find_entry(index, id).is_none() {
        return None;
    }
    let mut entries: Vec<IndexEntry> = Vec::new();
    let mut i: usize = 0;
    proof {
        reveal(Seq::filter);
        assert(rows.take(0) =~= Seq::<IndexEntryView>::empty());
        assert(entries.deep_view() =~= rows.take(0).filter(keep));
    }
    while i < index.len()
        invariant
            rows == index.deep_view(),
            keep == (|entry: IndexEntryView| entry.id != id@),
            i <= index@.len(),
            entries.deep_view() == rows.take(i as int).filter(keep),
        decreases index@.len() - i,
    {
        let ghost some = entries.deep_view();
        proof {
            assert(rows[i as int] == index@[i as int]@);
            assert(rows.take(i + 1) =~= rows.take(i as int).push(rows[i as int]));
            order::lemma_filter_push(rows.take(i as int), keep, rows[i as int]);
        }
        if !text::same(index[i].id.as_str(), id) {
            entries.push(index[i].clone());
            assert(entries.deep_view() =~= some.push(rows[i as int]));
        }
        i = i + 1;
    }
    assert(rows.take(i as int) =~= rows);
    Some(entries)
}

/// The index with an entry for a session, where it has none.
pub fn add_row(index: &Vec<IndexEntry>, session: &CodexSession) -> (r: Option<Vec<IndexEntry>>)
    requires
        session.updated_at matches Some(at) ==> at.is_valid(),
    ensures
        r is Some <==> entry_of(index.deep_view(), session@.id) is None,
        r matches Some(entries) ==> entries.deep_view() == index.deep_view().push(entry_of_session(session@)),
{
    if find_entry(index, session.id.as_str()).is_some() {
        return None;
    }
    let ghost rows = index.deep_view();
    let mut entries: Vec<IndexEntry> = Vec::new();
    let mut i: usize = 0;
    while i < index.len()
        invariant
            rows == index.deep_view(),
            i <= index@.len(),
            entries.deep_view() == rows.take(i as int),
        decreases index@.len() - i,
    {
        let ghost some = entries.deep_view();
        entries.push(index[i].clone());
        i = i + 1;
        proof {
            assert(entries.deep_view() =~= some.push(rows[i - 1]));
            assert(rows.take(i as int) =~= rows.take(i - 1).push(rows[i - 1]));
        }
    }
    assert(rows.take(i as int) =~= rows);
    let entry = entry_for(session);
    entries.push(entry);
    assert(entries.deep_view() =~= rows.push(entry@));
    Some(entries)
}

// ------------------------------------------------------------------- archive and restore
/// The place of the first session with this identifier.
pub open spec fn first_with_id(sessions: Seq<CodexSessionView>, id: Seq<char>) -> Option<int>
    decreases sessions.len(),
{
    if sessions.len() == 0 {
        None
    } else {
        match first_with_id(sessions.drop_last(), id) {
            Some(at) => Some(at),
            None => if sessions.last().id == id {
                Some(sessions.len() - 1)
            } else {
                None
            },
        }
    }
}

/// The session with this identifier.
pub open spec fn session_with(sessions: Seq<CodexSessionView>, id: Seq<char>) -> Option<CodexSessionView> {
    match first_with_id(sessions, id) {
        Some(at) => Some(sessions[at]),
        None => None,
    }
}

proof fn lemma_first_with_id(sessions: Seq<CodexSessionView>, id: Seq<char>)
    ensures
        first_with_id(sessions, id) matches Some(at) ==> 0 <= at < sessions.len() && sessions[at].id == id && forall|i: int|
            0 <= i < at ==> (#[trigger] sessions[i]).id != id,
        first_with_id(sessions, id) is None ==> forall|i: int| 0 <= i < sessions.len() ==> (#[trigger] sessions[i]).id != id,
    decreases sessions.len(),
{
    if sessions.len() > 0 {
        lemma_first_with_id(sessions.drop_last(), id);
        assert forall|i: int| 0 <= i < sessions.len() - 1 implies sessions.drop_last()[i] == #[trigger] sessions[i] by {}
    }
}

/// The session with this identifier.
pub fn find(snapshot: &SessionOverview, id: &str) -> (r: Result<CodexSession, RelayError>)
    ensures
        r is Ok <==> session_with(snapshot.sessions.deep_view(), id@) is Some,
        r matches Ok(session) ==> session_with(snapshot.sessions.deep_view(), id@) == Some(session@),
        r matches Err(error) ==> error.says("找不到这个会话"@),
{
    let ghost all = snapshot.sessions.deep_view();
    proof {
        lemma_first_with_id(all, id@);
    }
    let mut i: usize = 0;
    while i < snapshot.sessions.len()
        invariant
            all == snapshot.sessions.deep_view(),
            i <= snapshot.sessions@.len(),
            first_with_id(all, id@) matches Some(at) ==> i <= at < all.len() && all[at].id == id@ && forall|k: int|
                0 <= k < at ==> (#[trigger] all[k]).id != id@,
            first_with_id(all, id@) is None ==> forall|k: int| 0 <= k < all.len() ==> (#[trigger] all[k]).id != id@,
        decreases snapshot.sessions@.len() - i,
    {
        assert(all[i as int] == snapshot.sessions@[i as int]@);
        if text::same(snapshot.sessions[i].id.as_str(), id) {
            return Ok(snapshot.sessions[i].clone());
        }
        i = i + 1;
    }
    Err(RelayError::invalid("找不到这个会话"))
}

/// Whether a session is there and on the right side of the archive.
pub open spec fn is_on_side(sessions: Seq<CodexSessionView>, id: Seq<char>, archived: bool) -> bool {
    session_with(sessions, id) matches Some(session) && session.archived == archived
}

/// The session that is to be moved into the archive: one that is not there yet.
pub fn archive(snapshot: &SessionOverview, id: &str) -> (r: Result<CodexSession, RelayError>)
    ensures
        r is Ok <==> is_on_side(snapshot.sessions.deep_view(), id@, false),
        r matches Ok(session) ==> session_with(snapshot.sessions.deep_view(), id@) == Some(session@),
        r matches Err(error) ==> if session_with(snapshot.sessions.deep_view(), id@) is None {
            error.says("找不到这个会话"@)
        } else {
            error.says("会话已经归档"@)
        },
{
    match find(snapshot, id) {
        Ok(session) => if session.archived {
            Err(RelayError::invalid("会话已经归档"))
        } else {
            Ok(session)
        },
        Err(error) => Err(error),
    }
}

/// A session after its file was moved into the archive.
pub fn archived(session: CodexSession, path: String) -> (r: CodexSession)
    ensures
        r@ == (CodexSessionView { archived: true, indexed: false, path: path@, ..session@ }),
{
    let mut moved = session;
    moved.archived = true;
    moved.indexed = false;
    moved.path = path;
    moved
}

/// The session that is to be moved out of the archive: one that is there.
pub fn restore(snapshot: &SessionOverview, id: &str) -> (r: Result<CodexSession, RelayError>)
    ensures
        r is Ok <==> is_on_side(snapshot.sessions.deep_view(), id@, true),
        r matches Ok(session) ==> session_with(snapshot.sessions.deep_view(), id@) == Some(session@),
        r matches Err(error) ==> if session_with(snapshot.sessions.deep_view(), id@) is None {
            error.says("找不到这个会话"@)
        } else {
            error.says("会话没有归档，无需恢复"@)
        },
{
    match find(snapshot, id) {
        Ok(session) => if session.archived {
            Ok(session)
        } else {
            Err(RelayError::invalid("会话没有归档，无需恢复"))
        },
        Err(error) => Err(error),
    }
}

/// A session as it stands after it was taken out of the archive.
pub open spec fn taken_out(session: CodexSessionView, path: Seq<char>) -> CodexSessionView {
    CodexSessionView { archived: false, indexed: true, path, ..session }
}

/// A session after its file was moved out of the archive.
pub fn restored(session: CodexSession, path: String) -> (r: CodexSession)
    ensures
        r@ == taken_out(session@, path@),
{
    let mut moved = session;
    moved.archived = false;
    moved.indexed = true;
    moved.path = path;
    moved
}

/// The session that is to be deleted for good: only one that has been archived.
pub fn delete(snapshot: &SessionOverview, id: &str) -> (r: Result<CodexSession, RelayError>)
    ensures
        r is Ok <==> is_on_side(snapshot.sessions.deep_view(), id@, true),
        r matches Ok(session) ==> session_with(snapshot.sessions.deep_view(), id@) == Some(session@),
        r matches Err(error) ==> if session_with(snapshot.sessions.deep_view(), id@) is None {
            error.says("找不到这个会话"@)
        } else {
            error.says("只能删除已归档的会话，请先归档"@)
        },
{
    match find(snapshot, id) {
        Ok(session) => if session.archived {
            Ok(session)
        } else {
            Err(RelayError::invalid("只能删除已归档的会话，请先归档"))
        },
        Err(error) => Err(error),
    }
}

/// Where the file of a session lies.
pub fn session_path(snapshot: &SessionOverview, id: &str) -> (r: Result<String, RelayError>)
    ensures
        r is Ok <==> session_with(snapshot.sessions.deep_view(), id@) is Some,
        r matches Ok(path) ==> (session_with(snapshot.sessions.deep_view(), id@) matches Some(session) && path@
            == session.path),
        r matches Err(error) ==> error.says("找不到这个会话"@),
{
    match find(snapshot, id) {
        Ok(session) => Ok(session.path),
        Err(error) => Err(error),
    }
}

// ------------------------------------------------------------------------------------ laws
proof fn lemma_live_is_present(sessions: Seq<CodexSessionView>, id: Seq<char>)
    ensures
        is_live(sessions, id) ==> is_present(sessions, id),
{
    if is_live(sessions, id) {
        let i = choose|i: int| 0 <= i < sessions.len() && !(#[trigger] sessions[i]).archived && sessions[i].id == id;
        assert(sessions[i].id == id);
    }
}

/// A session is told apart by its file alone: the index decides only how it is titled, how old it
/// looks and whether it can be resumed.
pub proof fn law_index_decides_little(file: RolloutFile, one: Seq<IndexEntryView>, other: Seq<IndexEntryView>)
    ensures
        session_of(file, one) is Some <==> session_of(file, other) is Some,
        session_of(file, one) matches Some(a) ==> (session_of(file, other) matches Some(b) && a == (CodexSessionView {
            title: a.title,
            updated_at: a.updated_at,
            indexed: a.indexed,
            ..b
        })),
{
}

proof fn lemma_sessions_match(files: Seq<RolloutFile>, one: Seq<IndexEntryView>, other: Seq<IndexEntryView>)
    ensures
        sessions_of(files, one).len() == sessions_of(files, other).len(),
        forall|i: int|
            #![trigger sessions_of(files, one)[i]]
            #![trigger sessions_of(files, other)[i]]
            0 <= i < sessions_of(files, one).len() ==> {
                let a = sessions_of(files, one)[i];
                let b = sessions_of(files, other)[i];
                &&& a.id == b.id
                &&& a.archived == b.archived
                &&& a.subagent == b.subagent
                &&& a.indexed == entry_of(one, a.id) is Some
                &&& b.indexed == entry_of(other, b.id) is Some
            },
    decreases files.len(),
{
    if files.len() > 0 {
        lemma_sessions_match(files.drop_last(), one, other);
    }
}

proof fn lemma_live_alike(files: Seq<RolloutFile>, one: Seq<IndexEntryView>, other: Seq<IndexEntryView>, id: Seq<char>)
    ensures
        is_live(sessions_of(files, one), id) ==> is_live(sessions_of(files, other), id),
        is_present(sessions_of(files, one), id) ==> is_present(sessions_of(files, other), id),
{
    let a = sessions_of(files, one);
    let b = sessions_of(files, other);
    lemma_sessions_match(files, one, other);
    if is_live(a, id) {
        let i = choose|i: int| 0 <= i < a.len() && !(#[trigger] a[i]).archived && a[i].id == id;
        assert(b[i].id == id && !b[i].archived);
    }
    if is_present(a, id) {
        let i = choose|i: int| 0 <= i < a.len() && (#[trigger] a[i]).id == id;
        assert(b[i].id == id);
    }
}

proof fn lemma_live_when_sorted(sessions: Seq<CodexSessionView>, id: Seq<char>)
    ensures
        is_live(order::stable_sort(sessions, by_newest()), id) <==> is_live(sessions, id),
{
    let sorted = order::stable_sort(sessions, by_newest());
    if is_live(sorted, id) {
        let i = choose|i: int| 0 <= i < sorted.len() && !(#[trigger] sorted[i]).archived && sorted[i].id == id;
        lemma_sorted_contains(sessions, sorted[i]);
        assert(sorted.contains(sorted[i]));
        let k = choose|k: int| 0 <= k < sessions.len() && sessions[k] == sorted[i];
        assert(!sessions[k].archived && sessions[k].id == id);
    }
    if is_live(sessions, id) {
        let i = choose|i: int| 0 <= i < sessions.len() && !(#[trigger] sessions[i]).archived && sessions[i].id == id;
        lemma_sorted_contains(sessions, sessions[i]);
        assert(sessions.contains(sessions[i]));
        let k = choose|k: int| 0 <= k < sorted.len() && sorted[k] == sessions[i];
        assert(!sorted[k].archived && sorted[k].id == id);
    }
}

/// The rows of a repaired index belong to live sessions, and every live session that is not a
/// subagent has one.
proof fn lemma_repaired(files: Seq<RolloutFile>, index: Seq<IndexEntryView>)
    ensures
        ({
            let sessions = sessions_of(files, index);
            let sorted = order::stable_sort(sessions, by_newest());
            let after = repaired(sorted, index);
            &&& forall|i: int| 0 <= i < after.len() ==> is_live(sessions, (#[trigger] after[i]).id)
            &&& forall|i: int|
                0 <= i < sessions.len() && !(#[trigger] sessions[i]).archived && !sessions[i].subagent ==> entry_of(
                    after,
                    sessions[i].id,
                ) is Some
        }),
{
    let sessions = sessions_of(files, index);
    let sorted = order::stable_sort(sessions, by_newest());
    let after = repaired(sorted, index);
    let is_kept = |entry: IndexEntryView| is_live(sorted, entry.id);
    let is_lost = |session: CodexSessionView| is_orphaned(session);
    let rows = index.filter(is_kept);
    let lost = sorted.filter(is_lost);
    order::lemma_filter_members(index, is_kept);
    order::lemma_filter_members(sorted, is_lost);
    lemma_sessions_match(files, index, index);
    assert forall|i: int| 0 <= i < after.len() implies is_live(sessions, (#[trigger] after[i]).id) by {
        if i < rows.len() {
            assert(is_kept(rows[i]));
            lemma_live_when_sorted(sessions, rows[i].id);
        } else {
            let orphan = lost[i - rows.len()];
            assert(is_lost(orphan) && sorted.contains(orphan));
            assert(after[i].id == orphan.id);
            let k = choose|k: int| 0 <= k < sorted.len() && sorted[k] == orphan;
            assert(!sorted[k].archived && sorted[k].id == orphan.id);
            lemma_live_when_sorted(sessions, orphan.id);
        }
    }
    assert forall|i: int| 0 <= i < sessions.len() && !(#[trigger] sessions[i]).archived && !sessions[i].subagent implies entry_of(
        after,
        sessions[i].id,
    ) is Some by {
        let session = sessions[i];
        lemma_entry_of(after, session.id);
        lemma_entry_of(index, session.id);
        lemma_sorted_contains(sessions, session);
        assert(sessions.contains(session));
        let k = choose|k: int| 0 <= k < sorted.len() && sorted[k] == session;
        assert(session.indexed == entry_of(index, session.id) is Some);
        if session.indexed {
            let at = last_with_id(index, session.id)->0;
            assert(!sorted[k].archived && sorted[k].id == session.id);
            assert(is_kept(index[at]));
            assert(rows.contains(index[at]));
            let m = choose|m: int| 0 <= m < rows.len() && rows[m] == index[at];
            assert(after[m].id == session.id);
        } else {
            assert(is_lost(sorted[k]));
            assert(lost.contains(session));
            let m = choose|m: int| 0 <= m < lost.len() && lost[m] == session;
            assert(after[rows.len() + m].id == session.id);
        }
    }
}

/// Two indexes list the same sessions.
pub open spec fn list_alike(one: Seq<IndexEntryView>, other: Seq<IndexEntryView>) -> bool {
    forall|id: Seq<char>| (#[trigger] entry_of(one, id)) is Some <==> entry_of(other, id) is Some
}

/// The order in which the index is written does not matter for what it lists.
pub proof fn law_write_order_lists_alike(index: Seq<IndexEntryView>)
    ensures
        list_alike(order::stable_sort(index, by_update()), index),
{
    broadcast use vstd::seq_lib::group_to_multiset_ensures;

    let sorted = order::stable_sort(index, by_update());
    order::lemma_sort_keeps_items(index, by_update());
    assert forall|id: Seq<char>| (#[trigger] entry_of(sorted, id)) is Some <==> entry_of(index, id) is Some by {
        lemma_entry_of(sorted, id);
        lemma_entry_of(index, id);
        if let Some(at) = last_with_id(sorted, id) {
            assert(sorted.contains(sorted[at]));
            assert(index.to_multiset().contains(sorted[at]));
            let k = choose|k: int| 0 <= k < index.len() && index[k] == sorted[at];
            assert(index[k].id == id);
        }
        if let Some(at) = last_with_id(index, id) {
            assert(index.contains(index[at]));
            assert(sorted.to_multiset().contains(index[at]));
            let k = choose|k: int| 0 <= k < sorted.len() && sorted[k] == index[at];
            assert(sorted[k].id == id);
        }
    }
}

proof fn lemma_updates_rank()
    ensures
        order::is_ranking(by_update()),
{
    let le = by_update();
    assert forall|a: IndexEntryView, b: IndexEntryView| #[trigger] le(a, b) || le(b, a) by {
        if let (Some(x), Some(y)) = (a.updated_at, b.updated_at) {
            text::lemma_text_order(x, y, y);
        }
    }
    assert forall|a: IndexEntryView, b: IndexEntryView, c: IndexEntryView| #[trigger]
        le(a, b) && #[trigger] le(b, c) implies le(a, c) by {
        if let (Some(x), Some(y)) = (a.updated_at, b.updated_at) {
            if let Some(z) = c.updated_at {
                text::lemma_text_order(x, y, z);
            }
        }
    }
}

/// What is written is read again: the entries come in the order in which they were written, each with
/// the number of its own row and otherwise as it was, and list the same sessions. Writing them once more
/// changes nothing.
pub proof fn law_written_rows_are_read_again(index: Seq<IndexEntryView>)
    requires
        index.len() <= usize::MAX,
    ensures
        ({
            let written = order::stable_sort(index, by_update());
            let read = numbered_rows(written);
            &&& written.to_multiset() == index.to_multiset()
            &&& order::stable_sort(written, by_update()) == written
            &&& read.len() == index.len()
            &&& forall|i: int|
                0 <= i < read.len() ==> (#[trigger] read[i]) == (IndexEntryView { row: read[i].row, ..written[i] })
                    && read[i].row is Some && read[i].row->0 == i
            &&& order::stable_sort(read, by_update()) == read
            &&& numbered_rows(read) == read
            &&& list_alike(read, index)
        }),
{
    let le = by_update();
    let written = order::stable_sort(index, le);
    let read = numbered_rows(written);
    lemma_updates_rank();
    order::lemma_sort_keeps_items(index, le);
    order::lemma_sort_ascending(index, le);
    order::lemma_in_order_already(written, le);
    assert forall|i: int, j: int| 0 <= i < j < read.len() implies #[trigger] le(read[i], read[j]) by {
        assert(le(written[i], written[j]));
    }
    order::lemma_in_order_already(read, le);
    assert(numbered_rows(read) =~= read);
    law_write_order_lists_alike(index);
    assert forall|id: Seq<char>| (#[trigger] entry_of(read, id)) is Some <==> entry_of(index, id) is Some by {
        assert(entry_of(written, id) is Some <==> entry_of(index, id) is Some);
        lemma_entry_of(read, id);
        lemma_entry_of(written, id);
        if let Some(at) = last_with_id(read, id) {
            assert(written[at].id == id);
        }
        if let Some(at) = last_with_id(written, id) {
            assert(read[at].id == id);
        }
    }
}

proof fn lemma_written_rows_are_live(
    files: Seq<RolloutFile>,
    index: Seq<IndexEntryView>,
    written: Seq<IndexEntryView>,
    i: int,
)
    requires
        list_alike(written, repaired(order::stable_sort(sessions_of(files, index), by_newest()), index)),
        0 <= i < written.len(),
    ensures
        is_live(sessions_of(files, written), written[i].id),
{
    let sorted = order::stable_sort(sessions_of(files, index), by_newest());
    let after = repaired(sorted, index);
    let id = written[i].id;
    lemma_repaired(files, index);
    lemma_entry_of(written, id);
    lemma_entry_of(after, id);
    assert(entry_of(written, id) is Some);
    let k = last_with_id(after, id)->0;
    assert(is_live(sessions_of(files, index), after[k].id));
    lemma_live_alike(files, index, written, id);
}

/// Rewriting the index is lossless: every entry that stays is the very entry that was read, with the
/// row by which its other keys are found again, and only entries made for sessions have no row. This
/// holds of a repair, of dropping a session, of adding one and of the order in which all is written.
pub proof fn law_rewrites_are_lossless(
    sessions: Seq<CodexSessionView>,
    index: Seq<IndexEntryView>,
    session: CodexSessionView,
)
    ensures
        forall|i: int| 0 <= i < repaired(sessions, index).len() ==> #[trigger] index.contains(
            repaired(sessions, index)[i],
        ) || repaired(sessions, index)[i].row is None,
        forall|i: int|
            0 <= i < index.len() && is_live(sessions, (#[trigger] index[i]).id) ==> repaired(sessions, index).contains(
                index[i],
            ),
        forall|i: int| 0 <= i < without_id(index, session.id).len() ==> #[trigger] index.contains(
            without_id(index, session.id)[i],
        ),
        forall|i: int|
            0 <= i < index.len() && (#[trigger] index[i]).id != session.id ==> without_id(index, session.id).contains(
                index[i],
            ),
        index.is_prefix_of(index.push(entry_of_session(session))),
        order::stable_sort(index, by_update()).to_multiset() == index.to_multiset(),
{
    let is_kept = |entry: IndexEntryView| is_live(sessions, entry.id);
    let is_other = |entry: IndexEntryView| entry.id != session.id;
    let rows = index.filter(is_kept);
    let after = repaired(sessions, index);
    order::lemma_filter_members(index, is_kept);
    order::lemma_filter_members(index, is_other);
    order::lemma_sort_keeps_items(index, by_update());
    assert forall|i: int| 0 <= i < after.len() implies #[trigger] index.contains(after[i]) || after[i].row is None by {
        if i < rows.len() {
            assert(after[i] == rows[i]);
        }
    }
    assert forall|i: int| 0 <= i < index.len() && is_live(sessions, (#[trigger] index[i]).id) implies after.contains(
        index[i],
    ) by {
        assert(is_kept(index[i]));
        assert(rows.contains(index[i]));
        let k = choose|k: int| 0 <= k < rows.len() && rows[k] == index[i];
        assert(after[k] == index[i]);
    }
    assert forall|i: int| 0 <= i < index.len() && (#[trigger] index[i]).id != session.id implies without_id(
        index,
        session.id,
    ).contains(index[i]) by {
        assert(is_other(index[i]));
    }
    assert(index =~= index.push(entry_of_session(session)).subrange(0, index.len() as int));
}

/// Once an index is written that lists what the repair asks for, no live session of the user is
/// missing from it, and no entry of it leads nowhere.
pub proof fn law_repair_leaves_no_orphans_and_no_ghosts(
    files: Seq<RolloutFile>,
    index: Seq<IndexEntryView>,
    written: Seq<IndexEntryView>,
)
    requires
        list_alike(written, repaired(order::stable_sort(sessions_of(files, index), by_newest()), index)),
    ensures
        orphans_of(sessions_of(files, written)).len() == 0,
        ghosts_of(sessions_of(files, written), written).len() == 0,
{
    let sessions = sessions_of(files, index);
    let now = sessions_of(files, written);
    let is_lost = |session: CodexSessionView| is_orphaned(session);
    let is_ghost = |entry: IndexEntryView| !is_present(now, entry.id);
    lemma_repaired(files, index);
    lemma_sessions_match(files, index, written);
    order::lemma_filter_members(now, is_lost);
    order::lemma_filter_members(written, is_ghost);
    if now.filter(is_lost).len() > 0 {
        let orphan = now.filter(is_lost)[0];
        assert(is_lost(orphan) && now.contains(orphan));
        let k = choose|k: int| 0 <= k < now.len() && now[k] == orphan;
        assert(!sessions[k].archived && !sessions[k].subagent && sessions[k].id == now[k].id);
        assert(entry_of(written, sessions[k].id) is Some);
    }
    if written.filter(is_ghost).len() > 0 {
        let entry = written.filter(is_ghost)[0];
        assert(is_ghost(entry) && written.contains(entry));
        let k = choose|k: int| 0 <= k < written.len() && written[k] == entry;
        lemma_written_rows_are_live(files, index, written, k);
        lemma_live_is_present(now, entry.id);
    }
}

/// A second repair finds nothing to do and leaves the index as it is.
pub proof fn law_repair_is_done_once(
    files: Seq<RolloutFile>,
    index: Seq<IndexEntryView>,
    written: Seq<IndexEntryView>,
)
    requires
        list_alike(written, repaired(order::stable_sort(sessions_of(files, index), by_newest()), index)),
    ensures
        ({
            let again = order::stable_sort(sessions_of(files, written), by_newest());
            &&& orphans_of(again).len() == 0
            &&& live_rows(again, written) == written
            &&& repaired(again, written) == written
        }),
{
    let now = sessions_of(files, written);
    let again = order::stable_sort(now, by_newest());
    let is_lost = |session: CodexSessionView| is_orphaned(session);
    let is_kept = |entry: IndexEntryView| is_live(again, entry.id);
    law_repair_leaves_no_orphans_and_no_ghosts(files, index, written);
    order::lemma_filter_members(now, is_lost);
    order::lemma_filter_members(again, is_lost);
    if again.filter(is_lost).len() > 0 {
        let orphan = again.filter(is_lost)[0];
        assert(is_lost(orphan) && again.contains(orphan));
        lemma_sorted_contains(now, orphan);
        let k = choose|k: int| 0 <= k < now.len() && now[k] == orphan;
        assert(is_lost(now[k]));
        assert(now.filter(is_lost).contains(now[k]));
    }
    assert forall|i: int| 0 <= i < written.len() implies is_kept(#[trigger] written[i]) by {
        lemma_written_rows_are_live(files, index, written, i);
        lemma_live_when_sorted(now, written[i].id);
    }
    order::lemma_all_kept(written, is_kept);
    assert(orphans_of(again) =~= Seq::<CodexSessionView>::empty());
    assert(repaired(again, written) =~= written);
}

/// A session that was archived, and whose entries were dropped, is neither an orphan nor a ghost: it
/// is hidden from Codex, and the index does not lead to it.
pub proof fn law_archived_sessions_are_hidden(file: RolloutFile, index: Seq<IndexEntryView>)
    requires
        file.archived,
        session_of(file, index) is Some,
    ensures
        ({
            let id = session_of(file, index)->0.id;
            let after = session_of(file, without_id(index, id))->0;
            &&& after.id == id
            &&& after.archived
            &&& !after.indexed
            &&& !is_orphaned(after)
            &&& entry_of(without_id(index, id), id) is None
        }),
{
    let id = session_of(file, index)->0.id;
    let keep = |entry: IndexEntryView| entry.id != id;
    let rows = index.filter(keep);
    order::lemma_filter_members(index, keep);
    lemma_entry_of(rows, id);
    if let Some(at) = last_with_id(rows, id) {
        assert(keep(rows[at]));
    }
}

/// A session that was restored, and for which an entry was added where it had none, can be resumed
/// again under the title it had.
pub proof fn law_restored_sessions_can_be_resumed(
    file: RolloutFile,
    index: Seq<IndexEntryView>,
    session: CodexSessionView,
)
    requires
        !file.archived,
        session_of(file, index) matches Some(seen) && seen.id == session.id,
        entry_of(index, session.id) is None,
        !text::is_blank(session.title),
    ensures
        ({
            let after = session_of(file, index.push(entry_of_session(session)))->0;
            &&& after.id == session.id
            &&& after.indexed
            &&& !after.archived
            &&& !is_orphaned(after)
            &&& after.title == session.title
        }),
{
    let rows = index.push(entry_of_session(session));
    assert(rows.last() == entry_of_session(session));
}

proof fn lemma_other_entries_stay(index: Seq<IndexEntryView>, id: Seq<char>, other: Seq<char>)
    requires
        other != id,
    ensures
        entry_of(without_id(index, id), other) == entry_of(index, other),
    decreases index.len(),
{
    let keep = |entry: IndexEntryView| entry.id != id;
    reveal(Seq::filter);
    if index.len() > 0 {
        let rest = index.drop_last();
        let kept = rest.filter(keep);
        lemma_other_entries_stay(rest, id, other);
        lemma_entry_of(rest, other);
        lemma_entry_of(kept, other);
        assert(index =~= rest.push(index.last()));
        assert(kept.push(index.last()).drop_last() =~= kept);
    }
}

proof fn lemma_no_entry_is_left(index: Seq<IndexEntryView>, id: Seq<char>)
    ensures
        entry_of(without_id(index, id), id) is None,
        without_id(index, id).filter(|entry: IndexEntryView| entry.id == id).len() == 0,
{
    let keep = |entry: IndexEntryView| entry.id != id;
    let mine = |entry: IndexEntryView| entry.id == id;
    let rows = index.filter(keep);
    order::lemma_filter_members(index, keep);
    order::lemma_filter_members(rows, mine);
    lemma_entry_of(rows, id);
    if let Some(at) = last_with_id(rows, id) {
        assert(keep(rows[at]));
    }
    if rows.filter(mine).len() > 0 {
        let entry = rows.filter(mine)[0];
        assert(mine(entry) && rows.contains(entry));
        let at = choose|at: int| 0 <= at < rows.len() && rows[at] == entry;
        assert(keep(rows[at]));
    }
}

proof fn lemma_filter_update<T>(s: Seq<T>, keep: spec_fn(T) -> bool, at: int, x: T)
    requires
        0 <= at < s.len(),
    ensures
        s.update(at, x).filter(keep).len() == s.filter(keep).len() - (if keep(s[at]) {
            1int
        } else {
            0
        }) + (if keep(x) {
            1int
        } else {
            0
        }),
    decreases s.len(),
{
    let rest = s.drop_last();
    assert(s =~= rest.push(s.last()));
    order::lemma_filter_push(rest, keep, s.last());
    if at < rest.len() {
        lemma_filter_update(rest, keep, at, x);
        assert(s.update(at, x) =~= rest.update(at, x).push(s.last()));
        order::lemma_filter_push(rest.update(at, x), keep, s.last());
    } else {
        assert(s.update(at, x) =~= rest.push(x));
        order::lemma_filter_push(rest, keep, x);
    }
}

/// The identifier of the session in the file at `k` belongs to no other file.
pub open spec fn is_only_file(files: Seq<RolloutFile>, index: Seq<IndexEntryView>, k: int) -> bool {
    &&& 0 <= k < files.len()
    &&& session_of(files[k], index) is Some
    &&& forall|j: int|
        0 <= j < files.len() && j != k ==> (session_of(#[trigger] files[j], index) matches Some(other) ==> other.id
            != session_of(files[k], index)->0.id)
}

/// Two indexes agree on every session but one.
spec fn agree_but_for(one: Seq<IndexEntryView>, other: Seq<IndexEntryView>, id: Seq<char>) -> bool {
    forall|x: Seq<char>| x != id ==> #[trigger] entry_of(one, x) == entry_of(other, x)
}

proof fn lemma_other_sessions_stay(
    files: Seq<RolloutFile>,
    index: Seq<IndexEntryView>,
    other: Seq<IndexEntryView>,
    id: Seq<char>,
)
    requires
        agree_but_for(index, other, id),
        forall|j: int|
            0 <= j < files.len() ==> (session_of(#[trigger] files[j], index) matches Some(session) ==> session.id != id),
    ensures
        sessions_of(files, other) == sessions_of(files, index),
        forall|q: int| 0 <= q < sessions_of(files, index).len() ==> (#[trigger] sessions_of(files, index)[q]).id != id,
    decreases files.len(),
{
    if files.len() > 0 {
        let rest = files.drop_last();
        let file = files.last();
        assert forall|j: int| 0 <= j < rest.len() implies (session_of(#[trigger] rest[j], index) matches Some(session)
            ==> session.id != id) by {
            assert(rest[j] == files[j]);
        }
        lemma_other_sessions_stay(rest, index, other, id);
        assert(files[files.len() - 1] == file);
        law_index_decides_little(file, index, other);
        if let Some(session) = session_of(file, index) {
            assert(entry_of(index, session.id) == entry_of(other, session.id));
        }
    }
}

spec fn place_of(files: Seq<RolloutFile>, index: Seq<IndexEntryView>, k: int) -> int {
    sessions_of(files.take(k), index).len() as int
}

proof fn lemma_one_session_changes(
    files: Seq<RolloutFile>,
    index: Seq<IndexEntryView>,
    k: int,
    file: RolloutFile,
    other: Seq<IndexEntryView>,
)
    requires
        is_only_file(files, index, k),
        agree_but_for(index, other, session_of(files[k], index)->0.id),
        session_of(file, other) is Some,
    ensures
        ({
            let before = sessions_of(files, index);
            let at = place_of(files, index, k);
            &&& 0 <= at < before.len()
            &&& before[at] == session_of(files[k], index)->0
            &&& sessions_of(files.update(k, file), other) == before.update(at, session_of(file, other)->0)
            &&& forall|q: int| 0 <= q < before.len() && q != at ==> (#[trigger] before[q]).id != before[at].id
        }),
    decreases files.len(),
{
    let id = session_of(files[k], index)->0.id;
    let rest = files.drop_last();
    let changed = files.update(k, file);
    if k == files.len() - 1 {
        assert forall|j: int| 0 <= j < rest.len() implies (session_of(#[trigger] rest[j], index) matches Some(session)
            ==> session.id != id) by {
            assert(rest[j] == files[j]);
        }
        lemma_other_sessions_stay(rest, index, other, id);
        assert(files.take(k) =~= rest);
        assert(changed.drop_last() =~= rest);
        let before = sessions_of(rest, index);
        assert(before.push(session_of(files[k], index)->0).update(
            before.len() as int,
            session_of(file, other)->0,
        ) =~= before.push(session_of(file, other)->0));
    } else {
        assert(is_only_file(rest, index, k)) by {
            assert(rest[k] == files[k]);
            assert forall|j: int| 0 <= j < rest.len() && j != k implies (session_of(#[trigger] rest[j], index) matches Some(
                session,
            ) ==> session.id != id) by {
                assert(rest[j] == files[j]);
            }
        }
        assert(rest[k] == files[k]);
        lemma_one_session_changes(rest, index, k, file, other);
        assert(rest.take(k) =~= files.take(k));
        assert(changed.drop_last() =~= rest.update(k, file));
        let last = files[files.len() - 1];
        assert(changed.last() == last);
        law_index_decides_little(last, index, other);
        let before = sessions_of(rest, index);
        let at = place_of(files, index, k);
        if let Some(session) = session_of(last, index) {
            assert(session.id != id);
            assert(entry_of(index, session.id) == entry_of(other, session.id));
            assert(before.update(at, session_of(file, other)->0).push(session) =~= before.push(session).update(
                at,
                session_of(file, other)->0,
            ));
        }
    }
}

proof fn lemma_only_session_is_found(sessions: Seq<CodexSessionView>, at: int)
    requires
        0 <= at < sessions.len(),
        forall|q: int| 0 <= q < sessions.len() && q != at ==> (#[trigger] sessions[q]).id != sessions[at].id,
    ensures
        session_with(order::stable_sort(sessions, by_newest()), sessions[at].id) == Some(sessions[at]),
{
    let sorted = order::stable_sort(sessions, by_newest());
    let session = sessions[at];
    lemma_first_with_id(sorted, session.id);
    lemma_sorted_contains(sessions, session);
    assert(sessions.contains(session));
    let k = choose|k: int| 0 <= k < sorted.len() && sorted[k] == session;
    assert(sorted[k].id == session.id);
    let found = sorted[first_with_id(sorted, session.id)->0];
    lemma_sorted_contains(sessions, found);
    assert(sorted.contains(found));
    let q = choose|q: int| 0 <= q < sessions.len() && sessions[q] == found;
    assert(sessions[q].id == session.id);
}

/// The files with the one at `k` moved into the archive.
pub open spec fn put_away(files: Seq<RolloutFile>, k: int, path: String) -> Seq<RolloutFile> {
    files.update(k, (RolloutFile { archived: true, path, ..files[k] }))
}

/// Archiving hides a session that Codex could resume: it can then be restored or deleted, the archive
/// holds one more and Codex can resume one less, and there is no new orphan and no new ghost.
pub proof fn law_archiving_moves_one_session(files: Seq<RolloutFile>, index: Seq<IndexEntryView>, k: int, path: String)
    requires
        is_only_file(files, index, k),
        !files[k].archived,
        session_of(files[k], index)->0.indexed,
    ensures
        ({
            let session = session_of(files[k], index)->0;
            let before = sessions_of(files, index);
            let rows = without_id(index, session.id);
            let after = sessions_of(put_away(files, k, path), rows);
            &&& is_on_side(order::stable_sort(before, by_newest()), session.id, false)
            &&& is_on_side(order::stable_sort(after, by_newest()), session.id, true)
            &&& session_with(order::stable_sort(after, by_newest()), session.id) == session_of(
                put_away(files, k, path)[k],
                rows,
            )
            &&& entry_of(rows, session.id) is None
            &&& archived_of(after).len() == archived_of(before).len() + 1
            &&& resumable_of(after).len() == resumable_of(before).len() - 1
            &&& orphans_of(after).len() == orphans_of(before).len()
            &&& ghosts_of(after, rows) == ghosts_of(before, index)
        }),
{
    let session = session_of(files[k], index)->0;
    let id = session.id;
    let before = sessions_of(files, index);
    let rows = without_id(index, id);
    let file = put_away(files, k, path)[k];
    let after = sessions_of(put_away(files, k, path), rows);
    let at = place_of(files, index, k);
    assert forall|x: Seq<char>| x != id implies #[trigger] entry_of(index, x) == entry_of(rows, x) by {
        lemma_other_entries_stay(index, id, x);
    }
    lemma_no_entry_is_left(index, id);
    law_index_decides_little(files[k], index, rows);
    lemma_one_session_changes(files, index, k, file, rows);
    let moved = session_of(file, rows)->0;
    assert(after == before.update(at, moved));
    assert(moved.id == id && moved.archived && !moved.indexed);
    lemma_only_session_is_found(before, at);
    assert forall|q: int| 0 <= q < after.len() && q != at implies (#[trigger] after[q]).id != after[at].id by {
        assert(before[q].id != before[at].id);
    }
    lemma_only_session_is_found(after, at);
    lemma_filter_update(before, |s: CodexSessionView| s.archived, at, moved);
    lemma_filter_update(before, |s: CodexSessionView| s.indexed && !s.archived, at, moved);
    lemma_filter_update(before, |s: CodexSessionView| is_orphaned(s), at, moved);
    let is_other = |entry: IndexEntryView| entry.id != id;
    let was_ghost = |entry: IndexEntryView| !is_present(before, entry.id);
    let is_ghost = |entry: IndexEntryView| !is_present(after, entry.id);
    assert forall|x: Seq<char>| is_present(before, x) == #[trigger] is_present(after, x) by {
        if is_present(before, x) {
            let q = choose|q: int| 0 <= q < before.len() && (#[trigger] before[q]).id == x;
            assert(after[q].id == x);
        }
        if is_present(after, x) {
            let q = choose|q: int| 0 <= q < after.len() && (#[trigger] after[q]).id == x;
            assert(before[q].id == x);
        }
    }
    assert(before[at].id == id);
    assert(is_present(before, id));
    assert forall|entry: IndexEntryView| #[trigger] was_ghost(entry) == (is_other(entry) && is_ghost(entry)) by {
        assert(is_present(before, entry.id) == is_present(after, entry.id));
    }
    order::lemma_filter_twice(index, is_other, is_ghost, was_ghost);
}

/// Restoring undoes archiving: the session is back at its path and can be resumed, the index has exactly
/// one entry for it, all the counts are as they were, and it cannot be restored once more. Only its
/// title and its time may differ, where those came from the entry that archiving dropped.
pub proof fn law_restoring_undoes_archiving(files: Seq<RolloutFile>, index: Seq<IndexEntryView>, k: int, path: String)
    requires
        is_only_file(files, index, k),
        !files[k].archived,
        session_of(files[k], index)->0.indexed,
    ensures
        ({
            let session = session_of(files[k], index)->0;
            let before = sessions_of(files, index);
            let rows = without_id(index, session.id);
            let stored = session_of(put_away(files, k, path)[k], rows)->0;
            let added = entry_of_session(taken_out(stored, session.path));
            let back = rows.push(added);
            let after = sessions_of(files, back);
            let restored = session_of(files[k], back)->0;
            &&& session_with(order::stable_sort(after, by_newest()), session.id) == Some(restored)
            &&& !is_on_side(order::stable_sort(after, by_newest()), session.id, true)
            &&& restored == (CodexSessionView { title: restored.title, updated_at: restored.updated_at, ..session })
            &&& restored.indexed && !restored.archived && restored.path == session.path
            &&& !text::is_blank(stored.title) ==> restored.title == stored.title
            &&& entry_of(back, session.id) == Some(added)
            &&& back.filter(|entry: IndexEntryView| entry.id == session.id).len() == 1
            &&& archived_of(after).len() == archived_of(before).len()
            &&& resumable_of(after).len() == resumable_of(before).len()
            &&& orphans_of(after).len() == orphans_of(before).len()
            &&& ghosts_of(after, back) == ghosts_of(before, index)
        }),
{
    let session = session_of(files[k], index)->0;
    let id = session.id;
    let before = sessions_of(files, index);
    let rows = without_id(index, id);
    let file = put_away(files, k, path)[k];
    let stored = session_of(file, rows)->0;
    let added = entry_of_session(taken_out(stored, session.path));
    let back = rows.push(added);
    let at = place_of(files, index, k);
    law_archiving_moves_one_session(files, index, k, path);
    assert(stored.id == id);
    assert(back.last() == added && back.drop_last() =~= rows);
    assert forall|x: Seq<char>| x != id implies #[trigger] entry_of(index, x) == entry_of(back, x) by {
        lemma_other_entries_stay(index, id, x);
        lemma_entry_of(rows, x);
    }
    law_index_decides_little(files[k], index, back);
    lemma_one_session_changes(files, index, k, files[k], back);
    assert(files.update(k, files[k]) =~= files);
    let after = sessions_of(files, back);
    let restored = session_of(files[k], back)->0;
    assert(after == before.update(at, restored));
    assert forall|q: int| 0 <= q < after.len() && q != at implies (#[trigger] after[q]).id != after[at].id by {
        assert(before[q].id != before[at].id);
    }
    lemma_only_session_is_found(after, at);
    lemma_filter_update(before, |s: CodexSessionView| s.archived, at, restored);
    lemma_filter_update(before, |s: CodexSessionView| s.indexed && !s.archived, at, restored);
    lemma_filter_update(before, |s: CodexSessionView| is_orphaned(s), at, restored);
    lemma_no_entry_is_left(index, id);
    order::lemma_filter_push(rows, |entry: IndexEntryView| entry.id == id, added);
    let away = sessions_of(put_away(files, k, path), rows);
    law_index_decides_little(files[k], index, rows);
    assert forall|x: Seq<char>| x != id implies #[trigger] entry_of(index, x) == entry_of(rows, x) by {
        lemma_other_entries_stay(index, id, x);
    }
    lemma_one_session_changes(files, index, k, file, rows);
    assert(away == before.update(at, stored));
    assert forall|x: Seq<char>| is_present(away, x) == #[trigger] is_present(after, x) by {
        if is_present(away, x) {
            let q = choose|q: int| 0 <= q < away.len() && (#[trigger] away[q]).id == x;
            assert(after[q].id == x);
        }
        if is_present(after, x) {
            let q = choose|q: int| 0 <= q < after.len() && (#[trigger] after[q]).id == x;
            assert(away[q].id == x);
        }
    }
    assert(after[at].id == added.id);
    let is_ghost = |entry: IndexEntryView| !is_present(after, entry.id);
    let was_ghost = |entry: IndexEntryView| !is_present(away, entry.id);
    assert(is_ghost =~= was_ghost);
    order::lemma_filter_push(rows, is_ghost, added);
}

/// Only a session in the archive can be deleted, and no session can be both archived and restored.
pub proof fn law_only_archived_sessions_are_deleted(sessions: Seq<CodexSessionView>, id: Seq<char>)
    ensures
        is_on_side(sessions, id, true) ==> session_with(sessions, id)->0.archived,
        !(is_on_side(sessions, id, true) && is_on_side(sessions, id, false)),
{
}

/// The sessions are listed newest first: none stands behind one that was changed before it, by the seconds
/// and then by the nanoseconds, and those without a time stand behind all that have one. All of them are
/// listed, and those of one time as they were found.
pub proof fn law_newest_sessions_come_first(sessions: Seq<CodexSessionView>, i: int, j: int)
    requires
        0 <= i < j < sessions.len(),
    ensures
        ({
            let listed = order::stable_sort(sessions, by_newest());
            &&& listed.len() == sessions.len()
            &&& listed.to_multiset() == sessions.to_multiset()
            &&& listed[j].updated_at matches Some(later) ==> (listed[i].updated_at matches Some(first) && (later.seconds
                < first.seconds || (later.seconds == first.seconds && later.nanos <= first.nanos)))
        }),
{
    let le = by_newest();
    let listed = order::stable_sort(sessions, le);
    assert(order::is_ranking(le));
    order::lemma_sort_keeps_items(sessions, le);
    order::lemma_sort_ascending(sessions, le);
    assert(le(listed[i], listed[j]));
}

/// The index is written in the order of the times of its entries, as texts; those without one come first.
pub proof fn law_oldest_entries_are_written_first(index: Seq<IndexEntryView>, i: int, j: int)
    requires
        0 <= i < j < index.len(),
    ensures
        ({
            let written = order::stable_sort(index, by_update());
            &&& written.len() == index.len()
            &&& written.to_multiset() == index.to_multiset()
            &&& written[i].updated_at matches Some(first) ==> (written[j].updated_at matches Some(later) && text::text_le(
                first,
                later,
            ))
        }),
{
    let written = order::stable_sort(index, by_update());
    lemma_updates_rank();
    order::lemma_sort_keeps_items(index, by_update());
    order::lemma_sort_ascending(index, by_update());
    assert(by_update()(written[i], written[j]));
}

/// A text in the description of a session.
pub open spec fn described(meta: Option<JsonView>, key: Seq<char>) -> Option<Seq<char>> {
    match meta {
        Some(payload) => match rollout::at_key(payload, key) {
            Some(JsonView::Str(words)) => Some(words),
            _ => None,
        },
        None => None,
    }
}

/// What is told of a session. It is named by its description, or by its file. The last entry for it in the
/// index gives its title and its time, where they are of use; else the title is what the user said first, or
/// is made of the nickname of an agent or of the folder, and the time is that of the file. All else is told
/// as it is described, and it can be resumed where the index has an entry for it.
pub proof fn law_what_is_told_of_a_session(file: RolloutFile, index: Seq<IndexEntryView>, at: int)
    requires
        session_of(file, index) is Some,
        -1 <= at < index.len(),
        at >= 0 ==> index[at].id == session_of(file, index)->0.id,
        forall|i: int| at < i < index.len() ==> (#[trigger] index[i]).id != session_of(file, index)->0.id,
    ensures
        ({
            let meta = meta_of(file);
            let session = session_of(file, index)->0;
            let named = at >= 0 && (index[at].thread_name matches Some(name) && crate::providers::has_words(name));
            let dated = at >= 0 && (index[at].updated_at matches Some(words) && crate::clock::rfc3339_parsed(words) is Some);
            &&& described(meta, "id"@) matches Some(id) ==> session.id == id
            &&& described(meta, "id"@) is None ==> rollout::id_in_name(file.name@) == Some(session.id)
            &&& session.indexed <==> at >= 0
            &&& named ==> Some(session.title) == index[at].thread_name
            &&& !named && turn_title_of(file) is Some ==> Some(session.title) == turn_title_of(file)
            &&& !named && turn_title_of(file) is None ==> session.title == match described(meta, "agent_nickname"@) {
                Some(nickname) => "子代理 · "@ + nickname,
                None => match described(meta, "cwd"@) {
                    Some(cwd) => text::after_last(cwd, text::path_separator()),
                    None => "未命名会话"@,
                },
            }
            &&& dated ==> session.updated_at == crate::clock::rfc3339_parsed(index[at].updated_at->0)
            &&& !dated ==> session.updated_at == file.modified
            &&& session.path == file.path@ && session.size_bytes == file.size_bytes && session.archived == file.archived
            &&& session.cwd == described(meta, "cwd"@) && session.originator == described(meta, "originator"@)
            &&& session.cli_version == described(meta, "cli_version"@)
            &&& session.model_provider == described(meta, "model_provider"@)
            &&& session.thread_source == described(meta, "thread_source"@)
            &&& session.agent_nickname == described(meta, "agent_nickname"@)
            &&& session.forked_from_id == described(meta, "forked_from_id"@)
            &&& session.created_at == match described(meta, "timestamp"@) {
                Some(words) => crate::clock::rfc3339_parsed(words),
                None => None,
            }
            &&& session.via_relaydeck <==> described(meta, "model_provider"@) == Some("relaydeck"@)
            &&& session.subagent <==> described(meta, "thread_source"@) == Some("subagent"@)
        }),
{
    let session = session_of(file, index)->0;
    lemma_last_entry(index, session.id, at);
    if at >= 0 {
        crate::providers::law_blank_choices_are_none(index[at].thread_name);
    }
}

proof fn lemma_last_entry(index: Seq<IndexEntryView>, id: Seq<char>, at: int)
    requires
        -1 <= at < index.len(),
        at >= 0 ==> index[at].id == id,
        forall|i: int| at < i < index.len() ==> (#[trigger] index[i]).id != id,
    ensures
        at >= 0 ==> last_with_id(index, id) == Some(at),
        at < 0 ==> last_with_id(index, id) is None,
    decreases index.len(),
{
    if index.len() > 0 && at < index.len() - 1 {
        let front = index.drop_last();
        assert(index[index.len() - 1].id != id);
        assert forall|i: int| at < i < front.len() implies (#[trigger] front[i]).id != id by {
            assert(index[i].id != id);
        }
        lemma_last_entry(front, id, at);
    }
}

/// What is counted: a session is an orphan where it is neither archived nor listed nor a subagent's, can be
/// resumed where it is listed and not archived; an entry is a ghost where no session has its identifier. The
/// sizes add up.
pub proof fn law_what_is_counted(
    sessions: Seq<CodexSessionView>,
    session: CodexSessionView,
    index: Seq<IndexEntryView>,
    entry: IndexEntryView,
)
    ensures
        orphans_of(sessions).contains(session) <==> sessions.contains(session) && !session.archived && !session.indexed
            && !session.subagent,
        resumable_of(sessions).contains(session) <==> sessions.contains(session) && session.indexed && !session.archived,
        archived_of(sessions).contains(session) <==> sessions.contains(session) && session.archived,
        ghosts_of(sessions, index).contains(entry) <==> index.contains(entry) && forall|i: int|
            0 <= i < sessions.len() ==> (#[trigger] sessions[i]).id != entry.id,
        live_rows(sessions, index).contains(entry) <==> index.contains(entry) && exists|i: int|
            0 <= i < sessions.len() && !(#[trigger] sessions[i]).archived && sessions[i].id == entry.id,
        size_of_sessions(sessions.push(session)) == size_of_sessions(sessions) + session.size_bytes,
        size_of_sessions(Seq::<CodexSessionView>::empty()) == 0,
{
    lemma_filter_contains(sessions, |s: CodexSessionView| is_orphaned(s), session);
    lemma_filter_contains(sessions, |s: CodexSessionView| s.indexed && !s.archived, session);
    lemma_filter_contains(sessions, |s: CodexSessionView| s.archived, session);
    lemma_filter_contains(index, |e: IndexEntryView| !is_present(sessions, e.id), entry);
    lemma_filter_contains(index, |e: IndexEntryView| is_live(sessions, e.id), entry);
    assert(sessions.push(session).drop_last() =~= sessions);
}

proof fn lemma_filter_contains<T>(s: Seq<T>, keep: spec_fn(T) -> bool, x: T)
    ensures
        s.filter(keep).contains(x) <==> s.contains(x) && keep(x),
{
    order::lemma_filter_members(s, keep);
    if s.filter(keep).contains(x) {
        let k = choose|k: int| 0 <= k < s.filter(keep).len() && s.filter(keep)[k] == x;
        assert(keep(s.filter(keep)[k]));
    }
    if s.contains(x) && keep(x) {
        let k = choose|k: int| 0 <= k < s.len() && s[k] == x;
        assert(keep(s[k]));
    }
}

/// A repair keeps exactly the entries that lead to a session out of the archive, in their order, and puts an
/// entry behind them for every orphan, with its identifier, its title and its time.
pub proof fn law_what_a_repair_writes(sessions: Seq<CodexSessionView>, index: Seq<IndexEntryView>)
    ensures
        ({
            let rows = live_rows(sessions, index);
            let lost = orphans_of(sessions);
            let after = repaired(sessions, index);
            &&& after.len() == rows.len() + lost.len()
            &&& forall|i: int| 0 <= i < rows.len() ==> #[trigger] after[i] == rows[i]
            &&& forall|i: int|
                0 <= i < lost.len() ==> (#[trigger] after[rows.len() + i]) == (IndexEntryView {
                    id: lost[i].id,
                    thread_name: Some(lost[i].title),
                    updated_at: match lost[i].updated_at {
                        Some(at) => Some(crate::clock::rfc3339_written(at)),
                        None => None,
                    },
                    row: None,
                })
        }),
{
}

/// A session is found by its identifier, the first one where several have it. It can be archived where that
/// one is not, and restored or deleted where it is.
pub proof fn law_sessions_are_found_by_identifier(sessions: Seq<CodexSessionView>, id: Seq<char>, at: int, side: bool)
    requires
        0 <= at <= sessions.len(),
        forall|i: int| 0 <= i < at ==> (#[trigger] sessions[i]).id != id,
        at < sessions.len() ==> sessions[at].id == id,
    ensures
        at < sessions.len() ==> session_with(sessions, id) == Some(sessions[at]),
        at < sessions.len() ==> (is_on_side(sessions, id, side) <==> sessions[at].archived == side),
        at == sessions.len() ==> session_with(sessions, id) is None && !is_on_side(sessions, id, side),
{
    lemma_first_place(sessions, id, at);
}

proof fn lemma_first_place(sessions: Seq<CodexSessionView>, id: Seq<char>, at: int)
    requires
        0 <= at <= sessions.len(),
        forall|i: int| 0 <= i < at ==> (#[trigger] sessions[i]).id != id,
        at < sessions.len() ==> sessions[at].id == id,
    ensures
        at < sessions.len() ==> first_with_id(sessions, id) == Some(at),
        at == sessions.len() ==> first_with_id(sessions, id) is None,
    decreases sessions.len(),
{
    if sessions.len() > 0 {
        let front = sessions.drop_last();
        let place = if at <= front.len() {
            at
        } else {
            front.len() as int
        };
        assert forall|i: int| 0 <= i < place implies (#[trigger] front[i]).id != id by {
            assert(sessions[i].id != id);
        }
        if at == sessions.len() {
            assert(sessions[sessions.len() - 1].id != id);
        }
        lemma_first_place(front, id, place);
    }
}

/// An entry is dropped from the index by its identifier, and no other goes. A session that comes out of the
/// archive is live, listed and in its new place, and else as it was.
pub proof fn law_entries_are_dropped_by_identifier(
    index: Seq<IndexEntryView>,
    id: Seq<char>,
    entry: IndexEntryView,
    session: CodexSessionView,
    path: Seq<char>,
)
    ensures
        without_id(index, id).contains(entry) <==> index.contains(entry) && entry.id != id,
        taken_out(session, path) == (CodexSessionView { archived: false, indexed: true, path, ..session }),
{
    lemma_filter_contains(index, |e: IndexEntryView| e.id != id, entry);
}

/// Of the index, every line is read that is more than white space, in the order in which they stand.
pub proof fn law_lines_of_the_index_are_read(content: Seq<char>, line: Seq<char>)
    ensures
        index_lines_of(content).contains(line) <==> text::lines_of(content).contains(line) && exists|i: int|
            0 <= i < line.len() && !text::is_white(#[trigger] line[i]),
{
    lemma_filter_contains(text::lines_of(content), |l: Seq<char>| !text::is_blank(l), line);
    text::law_trimming_drops_the_white_ends(line);
}

/// Whether two times are the same point, or neither is known.
pub open spec fn is_same_time(a: Option<Moment>, b: Option<Moment>) -> bool {
    match (a, b) {
        (Some(x), Some(y)) => x.seconds == y.seconds && x.nanos == y.nanos,
        (None, None) => true,
        _ => false,
    }
}

/// Sessions of the same time, and those without one, are listed in the order in which they were found, and
/// rows of the index of the same time are written in the order in which they stood.
pub proof fn law_equals_keep_their_places(
    sessions: Seq<CodexSessionView>,
    index: Seq<IndexEntryView>,
    session: CodexSessionView,
    entry: IndexEntryView,
)
    ensures
        order::stable_sort(sessions, by_newest()).filter(
            |s: CodexSessionView| is_same_time(s.updated_at, session.updated_at),
        ) == sessions.filter(|s: CodexSessionView| is_same_time(s.updated_at, session.updated_at)),
        order::stable_sort(index, by_update()).filter(|e: IndexEntryView| e.updated_at == entry.updated_at)
            == index.filter(|e: IndexEntryView| e.updated_at == entry.updated_at),
{
    lemma_updates_rank();
    let newest = by_newest();
    assert(order::is_ranking(newest));
    order::lemma_sort_stable(sessions, newest, session);
    assert(order::same_rank(session, newest) =~= (|s: CodexSessionView| is_same_time(s.updated_at, session.updated_at)));
    let update = by_update();
    order::lemma_sort_stable(index, update, entry);
    let near = order::same_rank(entry, update);
    assert forall|e: IndexEntryView| #[trigger] near(e) == (e.updated_at == entry.updated_at) by {
        if let (Some(a), Some(b)) = (e.updated_at, entry.updated_at) {
            text::lemma_text_order(a, b, a);
        }
    }
    assert(near =~= (|e: IndexEntryView| e.updated_at == entry.updated_at));
}

/// The size of the files is the sum of their sizes.
pub proof fn law_sizes_add_up(files: Seq<RolloutFile>, file: RolloutFile)
    ensures
        size_of_files(Seq::<RolloutFile>::empty()) == 0,
        size_of_files(files.push(file)) == size_of_files(files) + file.size_bytes,
{
    assert(files.push(file).drop_last() =~= files);
}

/// Sessions are found file by file, in the order of the files: one where a file tells of one, and otherwise
/// none.
pub proof fn law_sessions_are_found_file_by_file(files: Seq<RolloutFile>, file: RolloutFile, index: Seq<IndexEntryView>)
    ensures
        sessions_of(Seq::empty(), index) == Seq::<CodexSessionView>::empty(),
        sessions_of(files.push(file), index) == match session_of(file, index) {
            Some(session) => sessions_of(files, index).push(session),
            None => sessions_of(files, index),
        },
        session_of(file, index) is None <==> described(meta_of(file), "id"@) is None && rollout::id_in_name(file.name@) is None,
{
    assert(files.push(file).drop_last() =~= files);
}

} // verus!
