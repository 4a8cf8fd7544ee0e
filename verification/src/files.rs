//! What is done to files, step by step, and what becomes of them.

use crate::error::RelayError;
use crate::text;
use vstd::prelude::*;

verus! {

/// Something that is done to a file.
#[derive(Debug)]
pub enum FileStep {
    /// The first one is copied to the second place.
    Copy(String, String),
    /// It is removed. Where that fails it stays, and all goes on.
    Remove(String),
    /// It is written with this text.
    Write(String, String),
    /// The first one takes the second place, at once.
    Rename(String, String),
    /// The first one goes to the second place, which may lie on another disk.
    Move(String, String),
}

/// What a step does.
pub enum FileStepView {
    Copy(Seq<char>, Seq<char>),
    Remove(Seq<char>),
    Write(Seq<char>, Seq<char>),
    Rename(Seq<char>, Seq<char>),
    Move(Seq<char>, Seq<char>),
}

impl View for FileStep {
    type V = FileStepView;

    open spec fn view(&self) -> FileStepView {
        match self {
            FileStep::Copy(from, to) => FileStepView::Copy(from@, to@),
            FileStep::Remove(name) => FileStepView::Remove(name@),
            FileStep::Write(name, content) => FileStepView::Write(name@, content@),
            FileStep::Rename(from, to) => FileStepView::Rename(from@, to@),
            FileStep::Move(from, to) => FileStepView::Move(from@, to@),
        }
    }
}

impl DeepView for FileStep {
    type V = FileStepView;

    open spec fn deep_view(&self) -> FileStepView {
        self.view()
    }
}

/// The files after a step, each by its place.
pub open spec fn after_step(files: Map<Seq<char>, Seq<u8>>, step: FileStepView) -> Map<Seq<char>, Seq<u8>> {
    match step {
        FileStepView::Copy(from, to) => files.insert(to, files[from]),
        FileStepView::Remove(name) => files.remove(name),
        FileStepView::Write(name, content) => files.insert(name, vstd::utf8::encode_utf8(content)),
        FileStepView::Rename(from, to) => files.remove(from).insert(to, files[from]),
        FileStepView::Move(from, to) => files.remove(from).insert(to, files[from]),
    }
}

/// The files after these steps, one after the other.
pub open spec fn after_steps(files: Map<Seq<char>, Seq<u8>>, steps: Seq<FileStepView>) -> Map<Seq<char>, Seq<u8>>
    decreases steps.len(),
{
    if steps.len() == 0 {
        files
    } else {
        after_step(after_steps(files, steps.drop_last()), steps.last())
    }
}

/// The same file stands in both at this place, or none in either.
pub open spec fn same_at(one: Map<Seq<char>, Seq<u8>>, other: Map<Seq<char>, Seq<u8>>, name: Seq<char>) -> bool {
    &&& one.contains_key(name) <==> other.contains_key(name)
    &&& one.contains_key(name) ==> one[name] == other[name]
}

/// Some steps and then some more.
pub proof fn lemma_steps_in_turn(files: Map<Seq<char>, Seq<u8>>, first: Seq<FileStepView>, second: Seq<FileStepView>)
    ensures
        after_steps(files, first + second) == after_steps(after_steps(files, first), second),
    decreases second.len(),
{
    if second.len() > 0 {
        assert((first + second).drop_last() =~= first + second.drop_last());
        lemma_steps_in_turn(files, first, second.drop_last());
    } else {
        assert(first + second =~= first);
    }
}

/// Removing files leaves every other one as it is.
pub proof fn lemma_removals(files: Map<Seq<char>, Seq<u8>>, names: Seq<Seq<char>>, name: Seq<char>)
    ensures
        ({
            let after = after_steps(files, names.map_values(|n: Seq<char>| FileStepView::Remove(n)));
            if names.contains(name) {
                !after.contains_key(name)
            } else {
                same_at(files, after, name)
            }
        }),
    decreases names.len(),
{
    let remove = |n: Seq<char>| FileStepView::Remove(n);
    if names.len() > 0 {
        let front = names.drop_last();
        lemma_removals(files, front, name);
        assert(names.map_values(remove).drop_last() =~= front.map_values(remove));
        if names.contains(name) {
            let k = choose|k: int| 0 <= k < names.len() && names[k] == name;
            if k < front.len() {
                assert(front[k] == name);
            }
        } else {
            assert(names[names.len() - 1] != name);
            if front.contains(name) {
                let k = choose|k: int| 0 <= k < front.len() && front[k] == name;
                assert(names[k] == name);
            }
        }
    }
}

/// The step that moves a file, unless its new place is taken.
pub fn move_file(source: &str, target: &str, taken: bool) -> (r: Result<FileStep, RelayError>)
    ensures
        r is Ok <==> !taken,
        r matches Ok(step) ==> step@ == FileStepView::Move(source@, target@),
        r matches Err(error) ==> error.says("目标位置已存在同名文件: "@ + target@),
{
    if taken {
        let message = text::cat("目标位置已存在同名文件: ", target);
        return Err(RelayError::invalid(message.as_str()));
    }
    Ok(FileStep::Move(source.to_owned(), target.to_owned()))
}

// ------------------------------------------------------------------------------------ laws
/// A file that was moved to a free place and back again stands where it stood, with every byte as it was,
/// and so do all the others.
pub proof fn law_moving_back_undoes_moving(files: Map<Seq<char>, Seq<u8>>, from: Seq<char>, to: Seq<char>)
    requires
        files.contains_key(from),
        !files.contains_key(to),
    ensures
        after_step(after_step(files, FileStepView::Move(from, to)), FileStepView::Move(to, from)) == files,
{
    assert(after_step(after_step(files, FileStepView::Move(from, to)), FileStepView::Move(to, from)) =~= files);
}

} // verus!
