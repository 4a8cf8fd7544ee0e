//! Backups of files: their names, and which of them are dropped.

use crate::files::{self, FileStep, FileStepView};
use crate::order;
use crate::text;
use vstd::prelude::*;

verus! {

/// How many backups of a text file are kept.
pub const BACKUPS_TO_KEEP: usize = 5;

/// How many backups of a database are kept.
pub const DB_BACKUPS_TO_KEEP: usize = 3;

/// What the names of the backups of a file begin with.
pub open spec fn prefix_of(file_name: Seq<char>) -> Seq<char> {
    file_name + ".relaydeck-backup-"@
}

/// The name of the backup of a file that was made at the time `stamp`.
pub fn backup_name(file_name: &str, stamp: &str) -> (name: String)
    ensures
        name@ == prefix_of(file_name@) + stamp@,
{
    text::cat3(file_name, ".relaydeck-backup-", stamp)
}

/// The backups of a file among these names.
pub open spec fn backups_among(names: Seq<Seq<char>>, file_name: Seq<char>) -> Seq<Seq<char>> {
    names.filter(|name: Seq<char>| prefix_of(file_name).is_prefix_of(name))
}

/// The backups of a file that are dropped when `keep` of them are kept: the first ones by name, which
/// are the oldest.
pub open spec fn stale_among(names: Seq<Seq<char>>, file_name: Seq<char>, keep: nat) -> Seq<Seq<char>> {
    let mine = backups_among(names, file_name);
    if mine.len() <= keep {
        Seq::empty()
    } else {
        order::stable_sort(mine, crate::discovery::by_name()).take(mine.len() - keep)
    }
}

/// The backups of a file that are dropped when `keep` of them are kept.
pub fn stale_backups(names: &Vec<String>, file_name: &str, keep: usize) -> (stale: Vec<String>)
    ensures
        stale.deep_view() == stale_among(names.deep_view(), file_name@, keep as nat),
{
    let prefix = backup_name(file_name, "");
    let ghost is_mine = |name: Seq<char>| prefix_of(file_name@).is_prefix_of(name);
    proof {
        reveal_strlit("");
        assert(prefix@ =~= prefix_of(file_name@));
    }
    let ghost all = names.deep_view();
    let mut mine: Vec<String> = Vec::new();
    let mut i: usize = 0;
    proof {
        reveal(Seq::filter);
        assert(all.take(0) =~= Seq::<Seq<char>>::empty());
        assert(mine.deep_view() =~= all.take(0).filter(is_mine));
    }
    while i < names.len()
        invariant
            prefix@ == prefix_of(file_name@),
            is_mine == (|name: Seq<char>| prefix_of(file_name@).is_prefix_of(name)),
            all == names.deep_view(),
            i <= names@.len(),
            mine.deep_view() == all.take(i as int).filter(is_mine),
        decreases names@.len() - i,
    {
        let ghost some = mine.deep_view();
        proof {
            assert(all[i as int] == names@[i as int]@);
            assert(all.take(i + 1) =~= all.take(i as int).push(all[i as int]));
            order::lemma_filter_push(all.take(i as int), is_mine, all[i as int]);
        }
        if text::starts_with(names[i].as_str(), prefix.as_str()) {
            mine.push(names[i].clone());
            assert(mine.deep_view() =~= some.push(all[i as int]));
        }
        i = i + 1;
    }
    assert(all.take(i as int) =~= all);
    let ghost found = mine.deep_view();
    assert(found.len() == mine@.len());
    if mine.len() <= keep {
        let stale: Vec<String> = Vec::new();
        assert(stale.deep_view() =~= Seq::<Seq<char>>::empty());
        return stale;
    }
    let count: usize = mine.len() - keep;
    let mut sorted = order::sort_by(mine, crate::discovery::precedes_by_name, Ghost(crate::discovery::by_name()));
    let ghost ordered = sorted.deep_view();
    sorted.truncate(count);
    assert(sorted.deep_view() =~= ordered.take(count as int));
    sorted
}

/// The backups of a file that stay when `keep` of them are kept, the oldest first.
pub open spec fn kept_among(names: Seq<Seq<char>>, file_name: Seq<char>, keep: nat) -> Seq<Seq<char>> {
    let sorted = order::stable_sort(backups_among(names, file_name), crate::discovery::by_name());
    sorted.skip(stale_among(names, file_name, keep).len() as int)
}

/// The names in a folder in which this file was made.
pub open spec fn with_name(names: Seq<Seq<char>>, name: Seq<char>) -> Seq<Seq<char>> {
    if names.contains(name) {
        names
    } else {
        names.push(name)
    }
}

/// What is done before a file is written anew: where it exists it is copied, and the oldest copies are
/// dropped.
pub open spec fn saving_steps(
    file_name: Seq<char>,
    there: bool,
    names: Seq<Seq<char>>,
    stamp: Seq<char>,
    keep: nat,
) -> Seq<FileStepView> {
    if there {
        let backup = prefix_of(file_name) + stamp;
        seq![FileStepView::Copy(file_name, backup)] + stale_among(with_name(names, backup), file_name, keep).map_values(
            |name: Seq<char>| FileStepView::Remove(name),
        )
    } else {
        Seq::empty()
    }
}

fn listed(names: &Vec<String>, name: &str) -> (r: bool)
    ensures
        r == names.deep_view().contains(name@),
{
    let ghost all = names.deep_view();
    let mut i: usize = 0;
    while i < names.len()
        invariant
            all == names.deep_view(),
            i <= names@.len(),
            forall|k: int| 0 <= k < i ==> #[trigger] all[k] != name@,
        decreases names@.len() - i,
    {
        assert(all[i as int] == names@[i as int]@);
        if text::same(names[i].as_str(), name) {
            return true;
        }
        i = i + 1;
    }
    false
}

/// What is done before a file is written anew. `names` are those in its folder, and `stamp` is the time.
pub fn save_first(file_name: &str, there: bool, names: &Vec<String>, stamp: &str, keep: usize) -> (steps: Vec<FileStep>)
    ensures
        steps.deep_view() == saving_steps(file_name@, there, names.deep_view(), stamp@, keep as nat),
{
    let mut steps: Vec<FileStep> = Vec::new();
    if !there {
        assert(steps.deep_view() =~= Seq::<FileStepView>::empty());
        return steps;
    }
    let backup = backup_name(file_name, stamp);
    let mut present = text::copied_all(names);
    if !listed(names, backup.as_str()) {
        let ghost before = present.deep_view();
        present.push(backup.clone());
        assert(present.deep_view() =~= before.push(backup@));
    }
    let stale = stale_backups(&present, file_name, keep);
    let ghost remove = |name: Seq<char>| FileStepView::Remove(name);
    let ghost all = stale.deep_view();
    steps.push(FileStep::Copy(file_name.to_owned(), backup));
    let ghost copy = seq![FileStepView::Copy(file_name@, backup@)];
    let mut i: usize = 0;
    proof {
        assert(steps.deep_view() =~= copy + all.take(0).map_values(remove));
    }
    while i < stale.len()
        invariant
            all == stale.deep_view(),
            remove == (|name: Seq<char>| FileStepView::Remove(name)),
            i <= stale@.len(),
            steps.deep_view() == copy + all.take(i as int).map_values(remove),
        decreases stale@.len() - i,
    {
        let ghost before = steps.deep_view();
        steps.push(FileStep::Remove(stale[i].clone()));
        i = i + 1;
        proof {
            assert(all[i - 1] == stale@[i - 1]@);
            assert(steps.deep_view() =~= before.push(remove(all[i - 1])));
            assert(steps.deep_view() =~= copy + all.take(i as int).map_values(remove));
        }
    }
    assert(all.take(i as int) =~= all);
    steps
}

// ------------------------------------------------------------------------------------ laws
/// Pruning drops backups of the file and nothing else, leaves exactly as many as are to be kept where
/// there are more, and drops none that is newer than one that stays.
pub proof fn law_newest_backups_stay(names: Seq<Seq<char>>, file_name: Seq<char>, keep: nat)
    ensures
        ({
            let mine = backups_among(names, file_name);
            let sorted = order::stable_sort(mine, crate::discovery::by_name());
            let stale = stale_among(names, file_name, keep);
            &&& mine.len() <= keep ==> stale.len() == 0
            &&& mine.len() > keep ==> mine.len() - stale.len() == keep
            &&& stale.is_prefix_of(sorted)
            &&& sorted.to_multiset() == mine.to_multiset()
            &&& forall|i: int, j: int|
                0 <= i < stale.len() && stale.len() <= j < sorted.len() ==> text::text_le(
                    #[trigger] stale[i],
                    #[trigger] sorted[j],
                )
        }),
{
    let le = crate::discovery::by_name();
    let mine = backups_among(names, file_name);
    let sorted = order::stable_sort(mine, le);
    let stale = stale_among(names, file_name, keep);
    crate::discovery::lemma_names_rank();
    order::lemma_sort_ascending(mine, le);
    order::lemma_sort_keeps_items(mine, le);
    assert(stale =~= sorted.subrange(0, stale.len() as int));
    assert forall|i: int, j: int| 0 <= i < stale.len() && stale.len() <= j < sorted.len() implies text::text_le(
        #[trigger] stale[i],
        #[trigger] sorted[j],
    ) by {
        assert(le(sorted[i], sorted[j]));
    }
}

/// A name of a backup of this file.
pub open spec fn is_backup_of(file_name: Seq<char>, name: Seq<char>) -> bool {
    prefix_of(file_name).is_prefix_of(name)
}

proof fn lemma_filtered_once(s: Seq<Seq<char>>, keep: spec_fn(Seq<char>) -> bool)
    requires
        s.no_duplicates(),
    ensures
        s.filter(keep).no_duplicates(),
    decreases s.len(),
{
    reveal(Seq::filter);
    if s.len() > 0 {
        let t = s.drop_last();
        assert forall|i: int, j: int| 0 <= i < t.len() && 0 <= j < t.len() && i != j implies t[i] != t[j] by {
            assert(s[i] != s[j]);
        }
        lemma_filtered_once(t, keep);
        order::lemma_filter_members(t, keep);
        order::lemma_filter_push(t, keep, s.last());
        assert(s =~= t.push(s.last()));
        let kept = t.filter(keep);
        if keep(s.last()) {
            assert forall|i: int| 0 <= i < kept.len() implies kept[i] != s.last() by {
                assert(t.contains(kept[i]));
                let k = choose|k: int| 0 <= k < t.len() && t[k] == kept[i];
                assert(s[k] != s[s.len() - 1]);
            }
        }
    }
}

proof fn lemma_sorted_backups(names: Seq<Seq<char>>, file_name: Seq<char>, keep: nat)
    requires
        names.no_duplicates(),
    ensures
        ({
            let stale = stale_among(names, file_name, keep);
            let kept = kept_among(names, file_name, keep);
            &&& kept.len() <= keep
            &&& keep > 0 && backups_among(names, file_name).len() > 0 ==> kept.len() > 0
            &&& forall|name: Seq<char>|
                #![trigger stale.contains(name)]
                #![trigger kept.contains(name)]
                #![trigger is_backup_of(file_name, name)]
                names.contains(name) && is_backup_of(file_name, name) <==> stale.contains(name) || kept.contains(name)
            &&& forall|name: Seq<char>| #[trigger] stale.contains(name) ==> !kept.contains(name)
            &&& forall|a: Seq<char>, b: Seq<char>| #[trigger]
                stale.contains(a) && #[trigger] kept.contains(b) ==> text::text_le(a, b)
        }),
{
    broadcast use vstd::seq_lib::group_to_multiset_ensures;

    let le = crate::discovery::by_name();
    let is_mine = |name: Seq<char>| prefix_of(file_name).is_prefix_of(name);
    let mine = backups_among(names, file_name);
    let sorted = order::stable_sort(mine, le);
    let stale = stale_among(names, file_name, keep);
    let kept = kept_among(names, file_name, keep);
    crate::discovery::lemma_names_rank();
    order::lemma_sort_ascending(mine, le);
    order::lemma_sort_keeps_items(mine, le);
    order::lemma_filter_members(names, is_mine);
    lemma_filtered_once(names, is_mine);
    mine.lemma_multiset_has_no_duplicates();
    sorted.lemma_multiset_has_no_duplicates_conv();
    assert(sorted.len() == mine.len());
    assert(stale =~= sorted.take(stale.len() as int));
    assert forall|name: Seq<char>|
        #![trigger stale.contains(name)]
        #![trigger kept.contains(name)]
        #![trigger is_backup_of(file_name, name)]
        names.contains(name) && is_backup_of(file_name, name) <==> stale.contains(name) || kept.contains(name) by {
        if names.contains(name) && is_backup_of(file_name, name) {
            let k = choose|k: int| 0 <= k < names.len() && names[k] == name;
            assert(is_mine(names[k]));
            assert(mine.contains(name));
            assert(mine.to_multiset().contains(name));
            assert(sorted.contains(name));
            let m = choose|m: int| 0 <= m < sorted.len() && sorted[m] == name;
            if m < stale.len() {
                assert(stale[m] == name);
            } else {
                assert(kept[m - stale.len()] == name);
            }
        }
        if stale.contains(name) || kept.contains(name) {
            if stale.contains(name) {
                let m = choose|m: int| 0 <= m < stale.len() && stale[m] == name;
                assert(sorted[m] == name);
            } else {
                let m = choose|m: int| 0 <= m < kept.len() && kept[m] == name;
                assert(sorted[m + stale.len()] == name);
            }
            assert(sorted.contains(name));
            assert(mine.to_multiset().contains(name));
            assert(mine.contains(name));
            let k = choose|k: int| 0 <= k < mine.len() && mine[k] == name;
            assert(is_mine(mine[k]));
        }
    }
    assert forall|a: Seq<char>, b: Seq<char>| #[trigger] stale.contains(a) && #[trigger] kept.contains(b) implies text::text_le(
        a,
        b,
    ) && a != b by {
        let i = choose|i: int| 0 <= i < stale.len() && stale[i] == a;
        let j = choose|j: int| 0 <= j < kept.len() && kept[j] == b;
        assert(le(sorted[i], sorted[j + stale.len()]));
        assert(sorted[i] != sorted[j + stale.len()]);
    }
}

/// Only backups of the file are dropped.
pub proof fn lemma_stale_are_backups(names: Seq<Seq<char>>, file_name: Seq<char>, keep: nat)
    ensures
        forall|i: int|
            0 <= i < stale_among(names, file_name, keep).len() ==> is_backup_of(
                file_name,
                #[trigger] stale_among(names, file_name, keep)[i],
            ),
{
    broadcast use vstd::seq_lib::group_to_multiset_ensures;

    let le = crate::discovery::by_name();
    let is_mine = |name: Seq<char>| prefix_of(file_name).is_prefix_of(name);
    let mine = backups_among(names, file_name);
    let sorted = order::stable_sort(mine, le);
    let stale = stale_among(names, file_name, keep);
    order::lemma_sort_keeps_items(mine, le);
    order::lemma_filter_members(names, is_mine);
    assert forall|i: int| 0 <= i < stale.len() implies is_backup_of(file_name, #[trigger] stale[i]) by {
        assert(sorted.len() == mine.len());
        assert(sorted[i] == stale[i]);
        assert(sorted.contains(stale[i]));
        assert(mine.to_multiset().contains(stale[i]));
        assert(mine.contains(stale[i]));
        let k = choose|k: int| 0 <= k < mine.len() && mine[k] == stale[i];
        assert(is_mine(mine[k]));
    }
}

/// Before a file is written anew, its old content is kept under a new name, and nothing else changes but
/// that the oldest backups are dropped: no more than `keep` of them stay, none that is dropped is newer
/// than one that stays, and those that stay are as they were. Where the time of the new backup is not
/// earlier than that of any other, it is among those that stay. A file that does not exist yet is not
/// copied, and nothing is dropped.
pub proof fn law_files_are_saved_first(
    files: Map<Seq<char>, Seq<u8>>,
    names: Seq<Seq<char>>,
    file_name: Seq<char>,
    stamp: Seq<char>,
    keep: nat,
)
    requires
        names.no_duplicates(),
        forall|name: Seq<char>| #[trigger] files.contains_key(name) <==> names.contains(name),
        keep > 0,
    ensures
        ({
            let backup = prefix_of(file_name) + stamp;
            let there = files.contains_key(file_name);
            let kept = kept_among(with_name(names, backup), file_name, keep);
            let after = files::after_steps(files, saving_steps(file_name, there, names, stamp, keep));
            &&& !there ==> after == files
            &&& forall|name: Seq<char>| !(#[trigger] is_backup_of(file_name, name)) ==> files::same_at(files, after, name)
            &&& there ==> {
                &&& kept.len() <= keep
                &&& forall|name: Seq<char>| #[trigger]
                    is_backup_of(file_name, name) ==> (after.contains_key(name) <==> kept.contains(name))
                &&& forall|name: Seq<char>| #[trigger]
                    kept.contains(name) && name != backup ==> files::same_at(files, after, name)
                &&& kept.contains(backup) ==> after[backup] == files[file_name]
                &&& (forall|name: Seq<char>|
                    names.contains(name) && #[trigger] is_backup_of(file_name, name) ==> text::text_le(name, backup))
                    ==> kept.contains(backup)
                &&& forall|a: Seq<char>, b: Seq<char>|
                    names.contains(a) && #[trigger] is_backup_of(file_name, a) && !after.contains_key(a)
                        && #[trigger] kept.contains(b) ==> text::text_le(a, b)
            }
        }),
{
    let backup = prefix_of(file_name) + stamp;
    let there = files.contains_key(file_name);
    let all = with_name(names, backup);
    let stale = stale_among(all, file_name, keep);
    let kept = kept_among(all, file_name, keep);
    if there {
        let copy = seq![FileStepView::Copy(file_name, backup)];
        let removals = stale.map_values(|name: Seq<char>| FileStepView::Remove(name));
        let copied = files::after_steps(files, copy);
        let after = files::after_steps(files, copy + removals);
        assert(copy.drop_last() =~= Seq::<FileStepView>::empty());
        assert(copied == files.insert(backup, files[file_name])) by {
            reveal_with_fuel(files::after_steps, 2);
        }
        files::lemma_steps_in_turn(files, copy, removals);
        assert(all.no_duplicates()) by {
            if !names.contains(backup) {
                assert forall|i: int, j: int| 0 <= i < all.len() && 0 <= j < all.len() && i != j implies all[i] != all[j] by {
                    if i == names.len() {
                        assert(names[j] == all[j]);
                    } else if j == names.len() {
                        assert(names[i] == all[i]);
                    }
                }
            }
        }
        lemma_sorted_backups(all, file_name, keep);
        assert forall|name: Seq<char>| all.contains(name) == #[trigger] copied.contains_key(name) by {
            assert(files.contains_key(name) == names.contains(name));
            if !names.contains(backup) {
                if name == backup {
                    assert(all[names.len() as int] == backup);
                } else if all.contains(name) {
                    let k = choose|k: int| 0 <= k < all.len() && all[k] == name;
                    assert(names[k] == name);
                } else if names.contains(name) {
                    let k = choose|k: int| 0 <= k < names.len() && names[k] == name;
                    assert(all[k] == name);
                }
            }
        }
        assert(is_backup_of(file_name, backup)) by {
            assert(prefix_of(file_name) =~= backup.subrange(0, prefix_of(file_name).len() as int));
        }
        assert forall|name: Seq<char>| !(#[trigger] is_backup_of(file_name, name)) implies files::same_at(
            files,
            after,
            name,
        ) by {
            files::lemma_removals(copied, stale, name);
        }
        assert forall|name: Seq<char>| #[trigger] is_backup_of(file_name, name) implies (after.contains_key(name)
            <==> kept.contains(name)) by {
            files::lemma_removals(copied, stale, name);
            assert(all.contains(name) == copied.contains_key(name));
        }
        assert forall|name: Seq<char>| #[trigger] kept.contains(name) implies files::same_at(copied, after, name) by {
            files::lemma_removals(copied, stale, name);
        }
        assert(copied.contains_key(backup));
        assert(all.contains(backup));
        if forall|name: Seq<char>|
            names.contains(name) && #[trigger] is_backup_of(file_name, name) ==> text::text_le(name, backup) {
            if !kept.contains(backup) {
                assert(stale.contains(backup));
                assert(backups_among(all, file_name).len() > 0) by {
                    let k = choose|k: int| 0 <= k < all.len() && all[k] == backup;
                    let is_mine = |name: Seq<char>| prefix_of(file_name).is_prefix_of(name);
                    order::lemma_filter_members(all, is_mine);
                    assert(is_mine(all[k]));
                    assert(all.filter(is_mine).contains(all[k]));
                }
                let newest = kept[0];
                assert(kept.contains(newest));
                assert(!stale.contains(newest));
                assert(all.contains(newest) && is_backup_of(file_name, newest));
                assert(copied.contains_key(newest));
                text::lemma_text_order(newest, backup, backup);
                assert(text::text_le(newest, backup));
            }
        }
        assert forall|a: Seq<char>, b: Seq<char>|
            names.contains(a) && #[trigger] is_backup_of(file_name, a) && !after.contains_key(a) && #[trigger] kept.contains(
                b,
            ) implies text::text_le(a, b) by {
            assert(files.contains_key(a));
            assert(all.contains(a) == copied.contains_key(a));
        }
    } else {
        assert(saving_steps(file_name, there, names, stamp, keep) =~= Seq::<FileStepView>::empty());
    }
}

/// Five backups are kept of a text and three of a database, under the name of the file and the time.
pub proof fn law_backups_by_name(file_name: Seq<char>, stamp: Seq<char>)
    ensures
        BACKUPS_TO_KEEP == 5 && DB_BACKUPS_TO_KEEP == 3,
        prefix_of(file_name) == file_name + ".relaydeck-backup-"@,
        is_backup_of(file_name, file_name + ".relaydeck-backup-"@ + stamp),
        !is_backup_of(file_name, file_name),
{
    let name = file_name + ".relaydeck-backup-"@ + stamp;
    reveal_strlit(".relaydeck-backup-");
    assert(prefix_of(file_name) =~= name.subrange(0, prefix_of(file_name).len() as int));
}

} // verus!
