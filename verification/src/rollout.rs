//! Rollout files: what the first lines of a recorded Codex conversation say about it.

use crate::json::{Json, JsonView};
use crate::text;
use vstd::prelude::*;

verus! {

/// Rollout files reach hundreds of megabytes; every field we need lives in the first lines.
pub const HEAD_SCAN_BYTES: u64 = 524288;

/// How deep the folders with rollout files are searched.
pub const MAX_DEPTH: usize = 6;

/// How many characters of a user turn make a title.
pub const TITLE_LIMIT: usize = 80;

/// How many lines are searched for the description of the conversation.
pub const META_LINES: usize = 64;

/// How many lines are searched for a title.
pub const TITLE_LINES: usize = 600;

// ---------------------------------------------------------------------------- file names
/// The name of a rollout file.
pub open spec fn names_rollout(name: Seq<char>) -> bool {
    "rollout-"@.is_prefix_of(name) && ".jsonl"@.is_suffix_of(name)
}

/// Whether a file of this name is a rollout file.
pub fn is_rollout(name: &str) -> (r: bool)
    ensures
        r == names_rollout(name@),
{
    text::starts_with(name, "rollout-") && text::ends_with(name, ".jsonl")
}

/// The identifier at the end of the name of a rollout file: its last five groups.
pub open spec fn id_in_name(name: Seq<char>) -> Option<Seq<char>> {
    let rest = name.skip("rollout-"@.len() as int);
    if "rollout-"@.is_prefix_of(name) && ".jsonl"@.is_suffix_of(rest) {
        let groups = text::split_by(rest.take(rest.len() - ".jsonl"@.len()), text::only('-'));
        if groups.len() < 5 {
            None
        } else {
            Some(text::joined(groups.skip(groups.len() - 5), "-"@))
        }
    } else {
        None
    }
}

/// `rollout-2026-07-23T12-15-47-019f8d2f-b8fb-7021-8f30-4c5006c1150b.jsonl` -> the trailing UUID.
pub fn id_from_filename(name: &str) -> (id: Option<String>)
    ensures
        id.deep_view() == id_in_name(name@),
{
    match text::strip_prefix(name, "rollout-") {
        Some(rest) => match text::strip_suffix(rest, ".jsonl") {
            Some(stem) => {
                let mut groups = text::split(stem, '-');
                let count: usize = groups.len();
                if count < 5 {
                    return None;
                }
                let ghost all = groups.deep_view();
                let last = groups.split_off(count - 5);
                assert(last.deep_view() =~= all.skip(all.len() - 5));
                Some(text::join(&last, "-"))
            },
            None => None,
        },
        None => None,
    }
}

// --------------------------------------------------------------------- the description
/// A line that describes the conversation.
pub open spec fn is_meta(line: JsonView) -> bool {
    crate::json::text_member(line, "type"@) == Some("session_meta"@)
}

/// The description in the first of these lines that holds one; lines that are no JSON are skipped.
pub open spec fn meta_in(lines: Seq<Seq<char>>) -> Option<JsonView>
    decreases lines.len(),
{
    if lines.len() == 0 {
        None
    } else {
        match crate::json::text_parsed(lines[0]) {
            Some(line) => if is_meta(line) {
                crate::json::member_of(line, "payload"@)
            } else {
                meta_in(lines.drop_first())
            },
            None => meta_in(lines.drop_first()),
        }
    }
}

/// The first lines of a text.
pub open spec fn first_lines(head: Seq<char>, limit: nat) -> Seq<Seq<char>> {
    let lines = text::lines_of(head);
    if lines.len() > limit {
        lines.take(limit as int)
    } else {
        lines
    }
}

fn lines_up_to(head: &str, limit: usize) -> (lines: Vec<String>)
    ensures
        lines.deep_view() == first_lines(head@, limit as nat),
{
    let mut lines = text::lines(head);
    let ghost all = lines.deep_view();
    assert(all.len() == lines@.len());
    if lines.len() > limit {
        lines.truncate(limit);
        assert(lines.deep_view() =~= all.take(limit as int));
    }
    lines
}

/// The description of a conversation, from the head of its file.
pub fn first_meta(head: &str) -> (meta: Option<Json>)
    ensures
        meta is Some <==> meta_in(first_lines(head@, META_LINES as nat)) is Some,
        meta matches Some(payload) ==> meta_in(first_lines(head@, META_LINES as nat)) == Some(payload@),
{
    let lines = lines_up_to(head, META_LINES);
    let ghost all = lines.deep_view();
    let mut i: usize = 0;
    proof {
        assert(all.skip(0) =~= all);
    }
    while i < lines.len()
        invariant
            all == lines.deep_view(),
            all == first_lines(head@, META_LINES as nat),
            i <= lines@.len(),
            meta_in(all) == meta_in(all.skip(i as int)),
        decreases lines@.len() - i,
    {
        proof {
            assert(all.skip(i as int)[0] == lines@[i as int]@);
            assert(all.skip(i as int).drop_first() =~= all.skip(i + 1));
        }
        match Json::parse_text(lines[i].as_str()) {
            Ok(line) => {
                let kind = line.get_text("type");
                if text::is_exactly(&kind, "session_meta") {
                    return line.into_member("payload");
                }
            },
            Err(_) => {},
        }
        i = i + 1;
    }
    None
}

// ------------------------------------------------------------------------------ the title
/// Words of the user, as opposed to what Codex injects as a "user" turn: an environment block, the
/// file context header, and the harness prompt every spawned thread starts with.
pub open spec fn is_user_words(words: Seq<char>) -> bool {
    let start = text::trimmed(words);
    &&& start.len() > 0
    &&& start[0] != '<'
    &&& !"# Files mentioned"@.is_prefix_of(start)
    &&& !"The following is the Codex agent history"@.is_prefix_of(start)
}

/// Whether a text is the words of the user.
pub fn is_user_text(words: &str) -> (r: bool)
    ensures
        r == is_user_words(words@),
{
    let start = text::trim(words);
    if start.is_empty() {
        return false;
    }
    proof {
        reveal_strlit("<");
        let s = start@;
        if s[0] == '<' {
            assert("<"@ =~= s.subrange(0, 1));
        } else if "<"@.is_prefix_of(s) {
            assert(s.subrange(0, 1)[0] == '<');
        }
    }
    !text::starts_with(start, "<") && !text::starts_with(start, "# Files mentioned") && !text::starts_with(
        start,
        "The following is the Codex agent history",
    )
}

/// A text on one line, cut after the limit.
pub open spec fn title_of(words: Seq<char>) -> Seq<char> {
    let flat = text::joined(text::words_of(words), seq![' ']);
    if flat.len() <= TITLE_LIMIT {
        flat
    } else {
        flat.take(TITLE_LIMIT as int) + "…"@
    }
}

/// A text on one line, cut after the limit.
pub fn shorten(words: &str) -> (title: String)
    ensures
        title@ == title_of(words@),
{
    let flat = text::flatten(words);
    let chars = text::chars_of(flat.as_str());
    if chars.len() <= TITLE_LIMIT {
        return flat;
    }
    let start = text::first_chars(flat.as_str(), TITLE_LIMIT);
    text::cat(start.as_str(), "…")
}

/// The first item whose text is the words of the user.
pub open spec fn user_item(items: Seq<JsonView>) -> Option<Seq<char>>
    decreases items.len(),
{
    if items.len() == 0 {
        None
    } else {
        match crate::json::text_member(items[0], "text"@) {
            Some(words) => if is_user_words(words) {
                Some(words)
            } else {
                user_item(items.drop_first())
            },
            None => user_item(items.drop_first()),
        }
    }
}

/// What a line says as a turn of the user, if it is one.
pub open spec fn turn_in(line: JsonView, payload: JsonView) -> Option<Seq<char>> {
    let kind = crate::json::text_member(line, "type"@);
    let part = crate::json::text_member(payload, "type"@);
    if kind == Some("event_msg"@) && part == Some("user_message"@) {
        crate::json::text_member(payload, "message"@)
    } else if kind == Some("response_item"@) && part == Some("message"@) && crate::json::text_member(payload, "role"@)
        == Some("user"@) {
        match crate::json::member_of(payload, "content"@) {
            Some(content) => match crate::json::items_of(content) {
                Some(items) => user_item(items),
                None => None,
            },
            None => None,
        }
    } else {
        None
    }
}

fn find_user_item(items: &Vec<Json>) -> (words: Option<String>)
    ensures
        words.deep_view() == user_item(crate::json::items_view(items@)),
{
    let ghost all = crate::json::items_view(items@);
    let mut i: usize = 0;
    proof {
        crate::json::lemma_items_view(items@);
        assert(all.skip(0) =~= all);
    }
    while i < items.len()
        invariant
            all == crate::json::items_view(items@),
            all.len() == items@.len(),
            forall|k: int| 0 <= k < items@.len() ==> #[trigger] all[k] == items@[k]@,
            i <= items@.len(),
            user_item(all) == user_item(all.skip(i as int)),
        decreases items@.len() - i,
    {
        proof {
            assert(all.skip(i as int)[0] == items@[i as int]@);
            assert(all.skip(i as int).drop_first() =~= all.skip(i + 1));
        }
        match items[i].get_text("text") {
            Some(words) => {
                if is_user_text(words.as_str()) {
                    return Some(words);
                }
            },
            None => {},
        }
        i = i + 1;
    }
    None
}

/// What a line says as a turn of the user, if it is one.
pub fn read_turn(line: &Json, payload: &Json) -> (words: Option<String>)
    ensures
        words.deep_view() == turn_in(line@, payload@),
{
    let kind = line.get_text("type");
    let part = payload.get_text("type");
    if text::is_exactly(&kind, "event_msg") && text::is_exactly(&part, "user_message") {
        return payload.get_text("message");
    }
    let role = payload.get_text("role");
    if text::is_exactly(&kind, "response_item") && text::is_exactly(&part, "message") && text::is_exactly(&role, "user") {
        return match payload.get("content") {
            Some(content) => match content.as_array() {
                Some(items) => find_user_item(items),
                None => None,
            },
            None => None,
        };
    }
    None
}

/// The words of the user in a line of the file, if it holds any: a line that is no JSON or has no
/// payload holds none.
pub open spec fn spoken_in(line: Seq<char>) -> Option<Seq<char>> {
    match crate::json::text_parsed(line) {
        Some(json) => match crate::json::member_of(json, "payload"@) {
            Some(payload) => match turn_in(json, payload) {
                Some(words) => if is_user_words(words) {
                    Some(words)
                } else {
                    None
                },
                None => None,
            },
            None => None,
        },
        None => None,
    }
}

/// The title that the first words of the user give.
pub open spec fn title_in(lines: Seq<Seq<char>>) -> Option<Seq<char>>
    decreases lines.len(),
{
    if lines.len() == 0 {
        None
    } else {
        match spoken_in(lines[0]) {
            Some(words) => Some(title_of(words)),
            None => title_in(lines.drop_first()),
        }
    }
}

/// First real user turn, skipping the injected environment/context blocks Codex prepends.
pub fn derive_title(head: &str) -> (title: Option<String>)
    ensures
        title.deep_view() == title_in(first_lines(head@, TITLE_LINES as nat)),
{
    let lines = lines_up_to(head, TITLE_LINES);
    let ghost all = lines.deep_view();
    let mut i: usize = 0;
    proof {
        assert(all.skip(0) =~= all);
    }
    while i < lines.len()
        invariant
            all == lines.deep_view(),
            all == first_lines(head@, TITLE_LINES as nat),
            i <= lines@.len(),
            title_in(all) == title_in(all.skip(i as int)),
        decreases lines@.len() - i,
    {
        proof {
            assert(all.skip(i as int)[0] == lines@[i as int]@);
            assert(all.skip(i as int).drop_first() =~= all.skip(i + 1));
        }
        match Json::parse_text(lines[i].as_str()) {
            Ok(line) => match line.get("payload") {
                Some(payload) => match read_turn(&line, payload) {
                    Some(words) => {
                        if is_user_text(words.as_str()) {
                            return Some(shorten(words.as_str()));
                        }
                    },
                    None => {},
                },
                None => {},
            },
            Err(_) => {},
        }
        i = i + 1;
    }
    None
}

// ------------------------------------------------------------------------------------ laws
/// A title is never longer than the limit and the sign that something was left out.
pub proof fn law_titles_are_short(words: Seq<char>)
    ensures
        title_of(words).len() <= TITLE_LIMIT + 1,
{
    reveal_strlit("…");
}

/// Shortening a title once more changes nothing.
pub proof fn law_shortening_twice_changes_nothing(words: Seq<char>)
    ensures
        title_of(title_of(words)) == title_of(words),
{
    let blank = seq![' '];
    let flat = text::joined(text::words_of(words), blank);
    let title = title_of(words);
    reveal_strlit("…");
    text::lemma_flattened_is_tidy(words);
    if flat.len() > TITLE_LIMIT {
        let limit = TITLE_LIMIT as int;
        assert(title.last() == '…');
        assert forall|i: int| 0 <= i < title.len() && text::is_white(#[trigger] title[i]) implies title[i] == ' ' && i > 0
            && !text::is_white(title[i - 1]) by {
            assert(i < limit);
            assert(title[i] == flat[i]);
            assert(i > 0 ==> title[i - 1] == flat[i - 1]);
        }
        text::lemma_tidy_is_flat(title);
        assert(title.take(limit) =~= flat.take(limit));
    } else {
        text::lemma_tidy_is_flat(title);
    }
}

/// A conversation is titled by the first words of the user, however many lines without any stand
/// before them; what Codex injects is no words of the user. It has no such title only where no line
/// holds any.
pub proof fn law_titles_are_the_first_words_of_the_user(lines: Seq<Seq<char>>)
    ensures
        forall|k: int|
            #![trigger lines[k]]
            0 <= k < lines.len() && spoken_in(lines[k]) is Some && (forall|i: int|
                0 <= i < k ==> spoken_in(#[trigger] lines[i]) is None) ==> title_in(lines) == Some(
                title_of(spoken_in(lines[k])->0),
            ),
        title_in(lines) is None <==> (forall|i: int| 0 <= i < lines.len() ==> spoken_in(#[trigger] lines[i]) is None),
        forall|k: int|
            0 <= k < lines.len() ==> (spoken_in(#[trigger] lines[k]) matches Some(words) ==> is_user_words(words)),
{
    assert forall|k: int|
        #![trigger lines[k]]
        0 <= k < lines.len() && spoken_in(lines[k]) is Some && (forall|i: int|
            0 <= i < k ==> spoken_in(#[trigger] lines[i]) is None) implies title_in(lines) == Some(
        title_of(spoken_in(lines[k])->0),
    ) by {
        lemma_first_words(lines, k);
    }
    lemma_no_words(lines);
}

proof fn lemma_title_step(lines: Seq<Seq<char>>)
    requires
        lines.len() > 0,
    ensures
        title_in(lines) == match spoken_in(lines[0]) {
            Some(words) => Some(title_of(words)),
            None => title_in(lines.drop_first()),
        },
{
}

proof fn lemma_first_words(lines: Seq<Seq<char>>, k: int)
    requires
        0 <= k < lines.len(),
        spoken_in(lines[k]) is Some,
        forall|i: int| 0 <= i < k ==> spoken_in(#[trigger] lines[i]) is None,
    ensures
        title_in(lines) == Some(title_of(spoken_in(lines[k])->0)),
    decreases k,
{
    lemma_title_step(lines);
    if k > 0 {
        let rest = lines.drop_first();
        assert(rest[k - 1] == lines[k]);
        assert forall|i: int| 0 <= i < k - 1 implies spoken_in(#[trigger] rest[i]) is None by {
            assert(spoken_in(lines[i + 1]) is None);
        }
        assert(spoken_in(lines[0]) is None);
        lemma_first_words(rest, k - 1);
    }
}

proof fn lemma_no_words(lines: Seq<Seq<char>>)
    ensures
        title_in(lines) is None <==> (forall|i: int| 0 <= i < lines.len() ==> spoken_in(#[trigger] lines[i]) is None),
    decreases lines.len(),
{
    if lines.len() > 0 {
        let rest = lines.drop_first();
        lemma_title_step(lines);
        lemma_no_words(rest);
        if title_in(lines) is None {
            assert forall|i: int| 0 <= i < lines.len() implies spoken_in(#[trigger] lines[i]) is None by {
                if i > 0 {
                    assert(spoken_in(rest[i - 1]) is None);
                }
            }
        }
        if forall|i: int| 0 <= i < lines.len() ==> spoken_in(#[trigger] lines[i]) is None {
            assert(spoken_in(lines[0]) is None);
            assert forall|i: int| 0 <= i < rest.len() implies spoken_in(#[trigger] rest[i]) is None by {
                assert(spoken_in(lines[i + 1]) is None);
            }
        }
    }
}

/// Where to look: a rollout is described in its first 64 lines and titled in its first 600, all of that in
/// its first 512 kilobytes, and it lies no more than six folders down.
pub proof fn law_where_to_look(head: Seq<char>, limit: nat, i: int)
    ensures
        META_LINES == 64 && TITLE_LINES == 600 && HEAD_SCAN_BYTES == 512 * 1024 && MAX_DEPTH == 6 && TITLE_LIMIT == 80,
        first_lines(head, limit).len() == if text::lines_of(head).len() < limit {
            text::lines_of(head).len()
        } else {
            limit
        },
        0 <= i < first_lines(head, limit).len() ==> first_lines(head, limit)[i] == text::lines_of(head)[i],
{
}

/// A text of words with one blank between each two is its own title where it has no more than eighty
/// characters; of a longer one the title is the first eighty and a sign that there is more.
pub proof fn law_titles_are_the_words(words: Seq<char>)
    requires
        text::is_tidy(words),
        words.len() > 0 ==> !text::is_white(words.last()),
    ensures
        words.len() <= 80 ==> title_of(words) == words,
        words.len() > 80 ==> title_of(words) == words.take(80).push('…'),
{
    reveal_strlit("…");
    text::lemma_tidy_is_flat(words);
    if words.len() > 80 {
        assert(title_of(words) =~= words.take(80).push('…'));
    }
}

/// Words are of the user where they are more than white space, do not begin with an angle bracket, and with
/// none of the two sentences that Codex writes itself.
pub proof fn law_words_of_the_user(words: Seq<char>)
    ensures
        is_user_words(words) <==> {
            &&& exists|i: int| 0 <= i < words.len() && !text::is_white(#[trigger] words[i])
            &&& text::trimmed(words)[0] != '<'
            &&& !"# Files mentioned"@.is_prefix_of(text::trimmed(words))
            &&& !"The following is the Codex agent history"@.is_prefix_of(text::trimmed(words))
        },
{
    text::law_trimming_drops_the_white_ends(words);
}

/// A member of an object.
pub open spec fn at_key(json: JsonView, key: Seq<char>) -> Option<JsonView> {
    match json {
        JsonView::Object(members) => if members.contains_key(key) {
            Some(members[key])
        } else {
            None
        },
        _ => None,
    }
}

/// The words of the user in an item of a message, if it holds any under `text`.
pub open spec fn words_in_item(item: JsonView) -> Option<Seq<char>> {
    match at_key(item, "text"@) {
        Some(JsonView::Str(words)) => if is_user_words(words) {
            Some(words)
        } else {
            None
        },
        _ => None,
    }
}

proof fn lemma_user_item(items: Seq<JsonView>, k: int)
    ensures
        0 <= k < items.len() && words_in_item(items[k]) is Some && (forall|i: int|
            0 <= i < k ==> words_in_item(#[trigger] items[i]) is None) ==> user_item(items) == words_in_item(items[k]),
        (forall|i: int| 0 <= i < items.len() ==> words_in_item(#[trigger] items[i]) is None) ==> user_item(items) is None,
    decreases items.len(),
{
    if items.len() > 0 {
        let rest = items.drop_first();
        lemma_user_item(rest, k - 1);
        if 0 < k < items.len() && (forall|i: int| 0 <= i < k ==> words_in_item(#[trigger] items[i]) is None) {
            assert forall|i: int| 0 <= i < k - 1 implies words_in_item(#[trigger] rest[i]) is None by {
                assert(words_in_item(items[i + 1]) is None);
            }
            assert(words_in_item(items[0]) is None);
            assert(rest[k - 1] == items[k]);
        }
        if forall|i: int| 0 <= i < items.len() ==> words_in_item(#[trigger] items[i]) is None {
            assert forall|i: int| 0 <= i < rest.len() implies words_in_item(#[trigger] rest[i]) is None by {
                assert(words_in_item(items[i + 1]) is None);
            }
            assert(words_in_item(items[0]) is None);
        }
    }
}

/// The user speaks in a line in one of two ways: as an event with the message in it, or as a message of the
/// role `user`, of which the first item counts that holds words of the user. In no other line do they.
pub proof fn law_how_the_user_speaks(line: JsonView, payload: JsonView, k: int)
    ensures
        ({
            let kind = at_key(line, "type"@);
            let part = at_key(payload, "type"@);
            let is_event = kind == Some(JsonView::Str("event_msg"@)) && part == Some(JsonView::Str("user_message"@));
            let is_message = kind == Some(JsonView::Str("response_item"@)) && part == Some(JsonView::Str("message"@))
                && at_key(payload, "role"@) == Some(JsonView::Str("user"@));
            &&& is_event ==> turn_in(line, payload) == match at_key(payload, "message"@) {
                Some(JsonView::Str(words)) => Some(words),
                _ => None,
            }
            &&& is_message ==> match at_key(payload, "content"@) {
                Some(JsonView::Array(items)) => {
                    &&& 0 <= k < items.len() && words_in_item(items[k]) is Some && (forall|i: int|
                        0 <= i < k ==> words_in_item(#[trigger] items[i]) is None) ==> turn_in(line, payload)
                        == words_in_item(items[k])
                    &&& (forall|i: int| 0 <= i < items.len() ==> words_in_item(#[trigger] items[i]) is None) ==> turn_in(
                        line,
                        payload,
                    ) is None
                },
                _ => turn_in(line, payload) is None,
            }
            &&& !is_event && !is_message ==> turn_in(line, payload) is None
        }),
{
    reveal_strlit("event_msg");
    reveal_strlit("response_item");
    assert("event_msg"@.len() != "response_item"@.len());
    if let Some(JsonView::Array(items)) = at_key(payload, "content"@) {
        lemma_user_item(items, k);
    }
}

/// A session is described by the payload of the first line that is JSON of the type `session_meta`.
pub proof fn law_descriptions_stand_in_the_first_such_line(lines: Seq<Seq<char>>, k: int)
    requires
        0 <= k < lines.len(),
        crate::json::text_parsed(lines[k]) matches Some(line) && at_key(line, "type"@) == Some(
            JsonView::Str("session_meta"@),
        ),
        forall|i: int|
            0 <= i < k ==> !(crate::json::text_parsed(#[trigger] lines[i]) matches Some(line) && at_key(line, "type"@)
                == Some(JsonView::Str("session_meta"@))),
    ensures
        meta_in(lines) == at_key(crate::json::text_parsed(lines[k])->0, "payload"@),
    decreases k,
{
    if k > 0 {
        let rest = lines.drop_first();
        assert(!(crate::json::text_parsed(lines[0]) matches Some(line) && at_key(line, "type"@) == Some(
            JsonView::Str("session_meta"@),
        )));
        assert(rest[k - 1] == lines[k]);
        assert forall|i: int| 0 <= i < k - 1 implies !(crate::json::text_parsed(#[trigger] rest[i]) matches Some(line)
            && at_key(line, "type"@) == Some(JsonView::Str("session_meta"@))) by {
            assert(rest[i] == lines[i + 1]);
        }
        law_descriptions_stand_in_the_first_such_line(rest, k - 1);
    }
}

spec fn dashed(start: Seq<char>, groups: Seq<Seq<char>>) -> Seq<char>
    decreases groups.len(),
{
    if groups.len() == 0 {
        start
    } else {
        dashed(start, groups.drop_last()) + "-"@ + groups.last()
    }
}

proof fn lemma_dashed(start: Seq<char>, groups: Seq<Seq<char>>)
    requires
        forall|k: int, i: int| 0 <= k < groups.len() && 0 <= i < groups[k].len() ==> #[trigger] groups[k][i] != '-',
    ensures
        text::split_by(dashed(start, groups), text::only('-')) == text::split_by(start, text::only('-')) + groups,
        groups.len() > 0 ==> dashed(start, groups) == start + "-"@ + text::joined(groups, "-"@),
    decreases groups.len(),
{
    let f = text::only('-');
    let none = Seq::<char>::empty();
    reveal_strlit("-");
    if groups.len() > 0 {
        let front = groups.drop_last();
        let group = groups.last();
        let before = dashed(start, front);
        assert forall|k: int, i: int| 0 <= k < front.len() && 0 <= i < front[k].len() implies #[trigger] front[k][i]
            != '-' by {
            assert(groups[k][i] != '-');
        }
        assert forall|i: int| 0 <= i < group.len() implies !f(#[trigger] group[i]) by {
            assert(groups[groups.len() - 1][i] != '-');
        }
        lemma_dashed(start, front);
        assert((before + "-"@).drop_last() =~= before);
        let cut = text::split_by(before, f).push(none);
        assert(text::split_by(before + "-"@, f) == cut);
        text::lemma_split_append(before + "-"@, group, f);
        assert(cut.drop_last() =~= text::split_by(before, f));
        assert(none + group =~= group);
        assert(text::split_by(start, f) + front =~= text::split_by(before, f));
        assert((text::split_by(start, f) + front).push(group) =~= text::split_by(start, f) + groups);
        if front.len() > 0 {
            assert(dashed(start, groups) =~= start + "-"@ + text::joined(groups, "-"@));
        } else {
            assert(front =~= Seq::<Seq<char>>::empty());
            assert(text::joined(groups, "-"@) == group);
            assert(dashed(start, groups) =~= start + "-"@ + text::joined(groups, "-"@));
        }
    } else {
        assert(text::split_by(start, f) + groups =~= text::split_by(start, f));
    }
}

/// The name of a rollout ends in the identifier of its session: five groups with a dash before each, whatever
/// stands before them. A file is a rollout by the beginning and the end of its name alone.
pub proof fn law_names_end_in_the_identifier(stamp: Seq<char>, groups: Seq<Seq<char>>, name: Seq<char>)
    requires
        groups.len() == 5,
        forall|k: int, i: int| 0 <= k < groups.len() && 0 <= i < groups[k].len() ==> #[trigger] groups[k][i] != '-',
    ensures
        id_in_name("rollout-"@ + stamp + "-"@ + text::joined(groups, "-"@) + ".jsonl"@) == Some(
            text::joined(groups, "-"@),
        ),
        names_rollout("rollout-"@ + stamp + "-"@ + text::joined(groups, "-"@) + ".jsonl"@),
        names_rollout(name) <==> name.len() >= 8 && name.take(8) == "rollout-"@ && name.skip(name.len() - 6) == ".jsonl"@,
{
    reveal_strlit("rollout-");
    reveal_strlit(".jsonl");
    let id = text::joined(groups, "-"@);
    let middle = stamp + "-"@ + id;
    let full = "rollout-"@ + stamp + "-"@ + id + ".jsonl"@;
    let rest = full.skip(8);
    lemma_dashed(stamp, groups);
    assert(full =~= "rollout-"@ + (middle + ".jsonl"@));
    assert(rest =~= middle + ".jsonl"@);
    assert("rollout-"@ =~= full.subrange(0, 8));
    assert(".jsonl"@ =~= rest.subrange(rest.len() - 6, rest.len() as int));
    assert(".jsonl"@ =~= full.subrange(full.len() - 6, full.len() as int));
    assert(rest.take(rest.len() - 6) =~= middle);
    let pieces = text::split_by(middle, text::only('-'));
    text::lemma_split_nonempty(stamp, text::only('-'));
    assert(pieces.skip(pieces.len() - 5) =~= groups);
    if name.len() >= 8 {
        assert(name.subrange(0, 8) =~= name.take(8));
        assert(name.subrange(name.len() - 6, name.len() as int) =~= name.skip(name.len() - 6));
    }
}

/// A title is the words of the user with one space between any two, and of those no more than eighty
/// characters, with a mark behind them where there were more.
pub proof fn law_titles_join_the_words(words: Seq<char>)
    ensures
        ({
            let flat = text::joined(text::words_of(words), seq![' ']);
            &&& flat.len() <= 80 ==> title_of(words) == flat
            &&& flat.len() > 80 ==> title_of(words) == flat.take(80).push('…')
        }),
{
    reveal_strlit("…");
    let flat = text::joined(text::words_of(words), seq![' ']);
    assert(flat.take(80) + "…"@ =~= flat.take(80).push('…'));
}

} // verus!
