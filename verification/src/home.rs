//! The files in the home folder of Codex: how its index is written, and what stays untouched.

use crate::backups;
use crate::files::{self, FileStep, FileStepView};
use crate::order;
use crate::sessions::{self, IndexEntryView, RolloutFile};
use crate::text;
use vstd::prelude::*;

verus! {

/// The index of sessions.
pub const INDEX_FILE: &'static str = "session_index.jsonl";

/// Where the index is written before it takes its place.
pub const NEW_INDEX_FILE: &'static str = "session_index.jsonl.relaydeck-tmp";

/// The name of the copy that is made of the index at the time `stamp`.
pub open spec fn index_backup(stamp: Seq<char>) -> Seq<char> {
    backups::prefix_of(INDEX_FILE@) + stamp
}

/// How the index is written: what it held is copied, and the new rows take its place at once.
pub open spec fn writing_steps(
    there: bool,
    names: Seq<Seq<char>>,
    stamp: Seq<char>,
    rows: Seq<Seq<char>>,
) -> Seq<FileStepView> {
    backups::saving_steps(INDEX_FILE@, there, names, stamp, backups::BACKUPS_TO_KEEP as nat) + seq![
        FileStepView::Write(NEW_INDEX_FILE@, text::framed(rows)),
        FileStepView::Rename(NEW_INDEX_FILE@, INDEX_FILE@),
    ]
}

/// How the index is written.
#[derive(Debug)]
pub struct IndexWrite {
    pub steps: Vec<FileStep>,
    /// The name of the copy of what it held, where it existed.
    pub backup: Option<String>,
}

/// Backs the index up, then replaces it atomically. `rows` are the texts of its entries in order, `names`
/// those of the files in the folder, and `stamp` is the time.
pub fn write_index(there: bool, names: &Vec<String>, stamp: &str, rows: &Vec<String>) -> (write: IndexWrite)
    ensures
        write.steps.deep_view() == writing_steps(there, names.deep_view(), stamp@, rows.deep_view()),
        write.backup.deep_view() == if there {
            Some(index_backup(stamp@))
        } else {
            None
        },
{
    let mut steps = backups::save_first(INDEX_FILE, there, names, stamp, backups::BACKUPS_TO_KEEP);
    let ghost before = steps.deep_view();
    steps.push(FileStep::Write(NEW_INDEX_FILE.to_owned(), text::frame(rows)));
    steps.push(FileStep::Rename(NEW_INDEX_FILE.to_owned(), INDEX_FILE.to_owned()));
    assert(steps.deep_view() =~= before + seq![
        FileStepView::Write(NEW_INDEX_FILE@, text::framed(rows.deep_view())),
        FileStepView::Rename(NEW_INDEX_FILE@, INDEX_FILE@),
    ]);
    let backup = if there {
        Some(backups::backup_name(INDEX_FILE, stamp))
    } else {
        None
    };
    IndexWrite { steps, backup }
}

// ------------------------------------------------------------------------------------ laws
/// The index, its backups, and the place where it is written.
pub open spec fn is_index_file(name: Seq<char>) -> bool {
    name == INDEX_FILE@ || name == NEW_INDEX_FILE@ || backups::is_backup_of(INDEX_FILE@, name)
}

/// A step that changes nothing but the index, its backups, and the place where it is written.
pub open spec fn keeps_to_the_index(step: FileStepView) -> bool {
    match step {
        FileStepView::Copy(_, to) => is_index_file(to),
        FileStepView::Remove(name) => is_index_file(name),
        FileStepView::Write(name, _) => is_index_file(name),
        FileStepView::Rename(from, to) => is_index_file(from) && is_index_file(to),
        FileStepView::Move(from, to) => is_index_file(from) && is_index_file(to),
    }
}

/// Steps that change nothing but the index, its backups, and the place where it is written.
pub open spec fn keep_to_the_index(steps: Seq<FileStepView>) -> bool {
    forall|i: int| 0 <= i < steps.len() ==> keeps_to_the_index(#[trigger] steps[i])
}

proof fn lemma_others_stay(files: Map<Seq<char>, Seq<u8>>, steps: Seq<FileStepView>, name: Seq<char>)
    requires
        keep_to_the_index(steps),
        !is_index_file(name),
    ensures
        files::same_at(files, files::after_steps(files, steps), name),
    decreases steps.len(),
{
    if steps.len() > 0 {
        let front = steps.drop_last();
        assert forall|i: int| 0 <= i < front.len() implies keeps_to_the_index(#[trigger] front[i]) by {
            assert(keeps_to_the_index(steps[i]));
        }
        assert(keeps_to_the_index(steps[steps.len() - 1]));
        lemma_others_stay(files, front, name);
    }
}

proof fn lemma_names_differ()
    ensures
        INDEX_FILE@ != NEW_INDEX_FILE@,
        !backups::is_backup_of(INDEX_FILE@, INDEX_FILE@),
        !backups::is_backup_of(INDEX_FILE@, NEW_INDEX_FILE@),
{
    reveal_strlit("session_index.jsonl");
    reveal_strlit("session_index.jsonl.relaydeck-tmp");
    reveal_strlit(".relaydeck-backup-");
    let prefix = backups::prefix_of(INDEX_FILE@);
    assert(INDEX_FILE@.len() == 19);
    assert(NEW_INDEX_FILE@.len() == 33);
    assert(prefix.len() == 37);
}

/// Writing the index changes nothing but the index, its backups, and the place where it is written.
pub proof fn law_writing_keeps_to_the_index(
    there: bool,
    names: Seq<Seq<char>>,
    stamp: Seq<char>,
    rows: Seq<Seq<char>>,
)
    ensures
        keep_to_the_index(writing_steps(there, names, stamp, rows)),
{
    let keep = backups::BACKUPS_TO_KEEP as nat;
    let saving = backups::saving_steps(INDEX_FILE@, there, names, stamp, keep);
    let steps = writing_steps(there, names, stamp, rows);
    let all = backups::with_name(names, index_backup(stamp));
    let stale = backups::stale_among(all, INDEX_FILE@, keep);
    backups::lemma_stale_are_backups(all, INDEX_FILE@, keep);
    assert(backups::is_backup_of(INDEX_FILE@, index_backup(stamp))) by {
        let prefix = backups::prefix_of(INDEX_FILE@);
        assert(prefix =~= index_backup(stamp).subrange(0, prefix.len() as int));
    }
    assert forall|i: int| 0 <= i < steps.len() implies keeps_to_the_index(#[trigger] steps[i]) by {
        if i < saving.len() {
            assert(steps[i] == saving[i]);
            if i > 0 {
                assert(steps[i] == FileStepView::Remove(stale[i - 1]));
            }
        }
    }
}

/// What is written is read again: after the index was written it holds the rows, in their order and with
/// nothing else, and reading it gives each of them back. What it held before is kept in a backup, no more
/// backups stay than are to be kept, and the newest ones stay; where there was no index, there is no new
/// backup. No other file changes, and the place where the index was written is free again.
pub proof fn law_index_is_replaced(
    files: Map<Seq<char>, Seq<u8>>,
    names: Seq<Seq<char>>,
    stamp: Seq<char>,
    rows: Seq<Seq<char>>,
)
    requires
        names.no_duplicates(),
        forall|name: Seq<char>| #[trigger] files.contains_key(name) <==> names.contains(name),
        forall|k: int| 0 <= k < rows.len() ==> text::is_one_line(#[trigger] rows[k]) && !text::is_blank(rows[k]),
    ensures
        ({
            let there = files.contains_key(INDEX_FILE@);
            let backup = index_backup(stamp);
            let kept = backups::kept_among(
                backups::with_name(names, backup),
                INDEX_FILE@,
                backups::BACKUPS_TO_KEEP as nat,
            );
            let after = files::after_steps(files, writing_steps(there, names, stamp, rows));
            &&& after.contains_key(INDEX_FILE@)
            &&& after[INDEX_FILE@] == vstd::utf8::encode_utf8(text::framed(rows))
            &&& sessions::index_lines_of(text::framed(rows)) == rows
            &&& !after.contains_key(NEW_INDEX_FILE@)
            &&& forall|name: Seq<char>| !(#[trigger] is_index_file(name)) ==> files::same_at(files, after, name)
            &&& !there ==> forall|name: Seq<char>| #[trigger]
                backups::is_backup_of(INDEX_FILE@, name) ==> files::same_at(files, after, name)
            &&& there ==> {
                &&& kept.len() <= backups::BACKUPS_TO_KEEP
                &&& forall|name: Seq<char>| #[trigger]
                    backups::is_backup_of(INDEX_FILE@, name) ==> (after.contains_key(name) <==> kept.contains(name))
                &&& kept.contains(backup) ==> after[backup] == files[INDEX_FILE@]
                &&& (forall|name: Seq<char>|
                    names.contains(name) && #[trigger] backups::is_backup_of(INDEX_FILE@, name) ==> text::text_le(
                        name,
                        backup,
                    )) ==> kept.contains(backup)
            }
        }),
{
    let there = files.contains_key(INDEX_FILE@);
    let keep = backups::BACKUPS_TO_KEEP as nat;
    let saving = backups::saving_steps(INDEX_FILE@, there, names, stamp, keep);
    let placing = seq![
        FileStepView::Write(NEW_INDEX_FILE@, text::framed(rows)),
        FileStepView::Rename(NEW_INDEX_FILE@, INDEX_FILE@),
    ];
    let saved = files::after_steps(files, saving);
    let after = files::after_steps(files, saving + placing);
    backups::law_files_are_saved_first(files, names, INDEX_FILE@, stamp, keep);
    files::lemma_steps_in_turn(files, saving, placing);
    lemma_names_differ();
    assert(after == saved.insert(NEW_INDEX_FILE@, vstd::utf8::encode_utf8(text::framed(rows))).remove(
        NEW_INDEX_FILE@,
    ).insert(INDEX_FILE@, vstd::utf8::encode_utf8(text::framed(rows)))) by {
        reveal_with_fuel(files::after_steps, 3);
        assert(placing.drop_last() =~= seq![FileStepView::Write(NEW_INDEX_FILE@, text::framed(rows))]);
        assert(placing.drop_last().drop_last() =~= Seq::<FileStepView>::empty());
    }
    let is_worth_reading = |line: Seq<char>| !text::is_blank(line);
    text::lemma_framed_lines(rows);
    assert forall|k: int| 0 <= k < rows.len() implies is_worth_reading(#[trigger] rows[k]) by {
        assert(!text::is_blank(rows[k]));
    }
    order::lemma_all_kept(rows, is_worth_reading);
    law_writing_keeps_to_the_index(there, names, stamp, rows);
    assert forall|name: Seq<char>| !(#[trigger] is_index_file(name)) implies files::same_at(files, after, name) by {
        lemma_others_stay(files, saving + placing, name);
    }
}

/// A repair leaves no orphan and no entry that leads nowhere. It writes the index only where it has
/// something to change there, and no other file changes, no rollout among them. A second repair finds
/// nothing to change.
pub proof fn law_homes_are_repaired(
    rollouts: Seq<RolloutFile>,
    index: Seq<IndexEntryView>,
    files: Map<Seq<char>, Seq<u8>>,
    names: Seq<Seq<char>>,
    stamp: Seq<char>,
    rows: Seq<Seq<char>>,
)
    requires
        sessions::repaired(
            order::stable_sort(sessions::sessions_of(rollouts, index), sessions::by_newest()),
            index,
        ).len() <= usize::MAX,
    ensures
        ({
            let found = order::stable_sort(sessions::sessions_of(rollouts, index), sessions::by_newest());
            let changes = sessions::orphans_of(found).len() > 0 || sessions::live_rows(found, index).len() < index.len();
            let repaired = sessions::repaired(found, index);
            let now = if changes {
                sessions::numbered_rows(order::stable_sort(repaired, sessions::by_update()))
            } else {
                index
            };
            let after = if changes {
                files::after_steps(files, writing_steps(files.contains_key(INDEX_FILE@), names, stamp, rows))
            } else {
                files
            };
            let again = order::stable_sort(sessions::sessions_of(rollouts, now), sessions::by_newest());
            &&& sessions::orphans_of(sessions::sessions_of(rollouts, now)).len() == 0
            &&& sessions::ghosts_of(sessions::sessions_of(rollouts, now), now).len() == 0
            &&& forall|name: Seq<char>| !(#[trigger] is_index_file(name)) ==> files::same_at(files, after, name)
            &&& sessions::orphans_of(again).len() == 0
            &&& sessions::live_rows(again, now) == now
        }),
{
    let found = order::stable_sort(sessions::sessions_of(rollouts, index), sessions::by_newest());
    let changes = sessions::orphans_of(found).len() > 0 || sessions::live_rows(found, index).len() < index.len();
    let repaired = sessions::repaired(found, index);
    if changes {
        let steps = writing_steps(files.contains_key(INDEX_FILE@), names, stamp, rows);
        let after = files::after_steps(files, steps);
        let now = sessions::numbered_rows(order::stable_sort(repaired, sessions::by_update()));
        sessions::law_written_rows_are_read_again(repaired);
        sessions::law_repair_leaves_no_orphans_and_no_ghosts(rollouts, index, now);
        sessions::law_repair_is_done_once(rollouts, index, now);
        law_writing_keeps_to_the_index(files.contains_key(INDEX_FILE@), names, stamp, rows);
        assert forall|name: Seq<char>| !(#[trigger] is_index_file(name)) implies files::same_at(files, after, name) by {
            lemma_others_stay(files, steps, name);
        }
    } else {
        order::lemma_none_dropped(index, |entry: IndexEntryView| sessions::is_live(found, entry.id));
        assert(repaired =~= index);
        sessions::law_repair_leaves_no_orphans_and_no_ghosts(rollouts, index, index);
        sessions::law_repair_is_done_once(rollouts, index, index);
    }
}

/// A rollout that was archived and restored is back in its place with every byte as it was, and gone from
/// the archive; in between, it stood in the archive alone. Whatever was written to the index on the way,
/// no other file changes.
pub proof fn law_archived_files_come_back(
    files: Map<Seq<char>, Seq<u8>>,
    from: Seq<char>,
    to: Seq<char>,
    first: Seq<FileStepView>,
    second: Seq<FileStepView>,
)
    requires
        files.contains_key(from),
        !files.contains_key(to),
        !is_index_file(from),
        !is_index_file(to),
        keep_to_the_index(first),
        keep_to_the_index(second),
    ensures
        ({
            let away = files::after_steps(files::after_step(files, FileStepView::Move(from, to)), first);
            let back = files::after_steps(files::after_step(away, FileStepView::Move(to, from)), second);
            &&& !away.contains_key(from)
            &&& away.contains_key(to) && away[to] == files[from]
            &&& forall|name: Seq<char>| !(#[trigger] is_index_file(name)) ==> files::same_at(files, back, name)
        }),
{
    let moved = files::after_step(files, FileStepView::Move(from, to));
    let away = files::after_steps(moved, first);
    let returned = files::after_step(away, FileStepView::Move(to, from));
    let back = files::after_steps(returned, second);
    lemma_others_stay(moved, first, from);
    lemma_others_stay(moved, first, to);
    assert forall|name: Seq<char>| !(#[trigger] is_index_file(name)) implies files::same_at(files, back, name) by {
        lemma_others_stay(moved, first, name);
        lemma_others_stay(returned, second, name);
    }
}

} // verus!
