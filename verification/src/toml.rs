//! TOML documents, as `toml_edit` holds them.

use toml_edit::{DocumentMut, Item};
use vstd::prelude::*;

verus! {

/// A TOML document that can be edited without losing its comments and its layout.
#[verifier::external_type_specification]
#[verifier::external_body]
pub struct ExDocumentMut(toml_edit::DocumentMut);

/// A part of a TOML document: a value, a table or an array of tables.
#[verifier::external_type_specification]
#[verifier::external_body]
pub struct ExItem(toml_edit::Item);

/// What stands at one place of a TOML document.
pub enum TomlEntry {
    /// A table under a header or made of dotted keys.
    Table,
    /// A table in braces.
    Inline,
    Text(Seq<char>),
    Integer(int),
    Flag(bool),
    /// An array, a float, a time or an array of tables, and what it holds, spelled as one value.
    Other(Seq<char>),
}

/// The places below the key `key`.
pub open spec fn below(tree: Map<Seq<Seq<char>>, TomlEntry>, key: Seq<char>) -> Map<Seq<Seq<char>>, TomlEntry> {
    Map::new(|path: Seq<Seq<char>>| tree.contains_key(seq![key] + path), |path: Seq<Seq<char>>| tree[seq![key] + path])
}

/// The document with `part` in place of all that stood below the key `key`.
pub open spec fn planted(
    tree: Map<Seq<Seq<char>>, TomlEntry>,
    key: Seq<char>,
    part: Map<Seq<Seq<char>>, TomlEntry>,
) -> Map<Seq<Seq<char>>, TomlEntry> {
    Map::new(
        |path: Seq<Seq<char>>|
            if path.len() > 0 && path[0] == key {
                part.contains_key(path.skip(1))
            } else {
                tree.contains_key(path)
            },
        |path: Seq<Seq<char>>|
            if path.len() > 0 && path[0] == key {
                part[path.skip(1)]
            } else {
                tree[path]
            },
    )
}

/// A part that is one entry and nothing below it.
pub open spec fn leaf(entry: TomlEntry) -> Map<Seq<Seq<char>>, TomlEntry> {
    Map::empty().insert(Seq::empty(), entry)
}

/// What stands at a place, if anything does.
pub open spec fn entry_at(tree: Map<Seq<Seq<char>>, TomlEntry>, path: Seq<Seq<char>>) -> Option<TomlEntry> {
    if tree.contains_key(path) {
        Some(tree[path])
    } else {
        None
    }
}

/// A table of either kind stands at the place.
pub open spec fn is_table_at(tree: Map<Seq<Seq<char>>, TomlEntry>, path: Seq<Seq<char>>) -> bool {
    entry_at(tree, path) == Some(TomlEntry::Table) || entry_at(tree, path) == Some(TomlEntry::Inline)
}

/// What a document holds, by the path of keys that leads there; the empty path leads to the document
/// itself. Arrays are single entries. Comments and layout play no part.
pub uninterp spec fn document_tree(document: DocumentMut) -> Map<Seq<Seq<char>>, TomlEntry>;

/// What a part of a document holds, by the path of keys that leads there from it.
pub uninterp spec fn item_tree(item: Item) -> Map<Seq<Seq<char>>, TomlEntry>;

/// What a text in TOML holds: `None` where `toml_edit` refuses it.
pub uninterp spec fn toml_parsed(text: Seq<char>) -> Option<Map<Seq<Seq<char>>, TomlEntry>>;

/// What the error says with which `toml_edit` refuses a text.
pub uninterp spec fn toml_error(text: Seq<char>) -> Seq<char>;

/// The text that `toml_edit` writes for a document.
pub uninterp spec fn toml_written(document: DocumentMut) -> Seq<char>;

/// What a part of a document holds, and nothing where there is no part.
pub open spec fn tree_of(item: Option<&Item>) -> Map<Seq<Seq<char>>, TomlEntry> {
    match item {
        Some(part) => item_tree(*part),
        None => Map::empty(),
    }
}

// ------------------------------------------------------------------------------ documents
/// A document that was read from a text, or begun anew, and edited by key since.
#[derive(Debug)]
pub struct TomlDocument {
    document: DocumentMut,
}

impl TomlDocument {
    /// What the document holds, by the path of keys that leads there.
    pub closed spec fn tree(self) -> Map<Seq<Seq<char>>, TomlEntry> {
        document_tree(self.document)
    }

    /// The text of the document.
    pub closed spec fn text(self) -> Seq<char> {
        toml_written(self.document)
    }
}

/// No table under a header stands inside a table in braces. `toml_edit` leaves such a table out when
/// it writes the document.
pub open spec fn is_writable(tree: Map<Seq<Seq<char>>, TomlEntry>) -> bool {
    forall|path: Seq<Seq<char>>|
        #![trigger tree[path]]
        tree.contains_key(path) && path.len() > 0 && tree[path] == TomlEntry::Table ==> entry_at(tree, path.drop_last())
            != Some(TomlEntry::Inline)
}

/// Whatever stands below a key stands in a table.
pub open spec fn is_rooted(tree: Map<Seq<Seq<char>>, TomlEntry>) -> bool {
    forall|path: Seq<Seq<char>>|
        #![trigger tree[path]]
        #![trigger tree.contains_key(path)]
        tree.contains_key(path) && path.len() > 0 ==> is_table_at(tree, path.drop_last())
}

/// Every key on the way to a place leads somewhere.
pub proof fn lemma_way_is_there(tree: Map<Seq<Seq<char>>, TomlEntry>, path: Seq<Seq<char>>, k: int)
    requires
        is_rooted(tree),
        tree.contains_key(path),
        0 <= k <= path.len(),
    ensures
        tree.contains_key(path.take(k)),
    decreases path.len(),
{
    if k < path.len() {
        assert(is_table_at(tree, path.drop_last()));
        lemma_way_is_there(tree, path.drop_last(), k);
        assert(path.drop_last().take(k) =~= path.take(k));
    } else {
        assert(path.take(k) =~= path);
    }
}

/// As a document is when it has just been read or begun.
pub open spec fn is_sound(tree: Map<Seq<Seq<char>>, TomlEntry>) -> bool {
    &&& is_writable(tree)
    &&& is_rooted(tree)
    &&& entry_at(tree, Seq::empty()) == Some(TomlEntry::Table)
}

// --------------------------------------------------------------------------------- strings
/// How many equal quotes in a row the writer can count.
pub const MOST_QUOTES: usize = 255;

/// A run of more equal quotes than the writer can count.
pub open spec fn has_run_at(s: Seq<char>, quote: char, from: int) -> bool {
    0 <= from && from + MOST_QUOTES < s.len() && forall|k: int|
        from <= k <= from + MOST_QUOTES ==> #[trigger] s[k] == quote
}

/// More equal quotes in a row than the writer can count.
pub open spec fn has_long_quote_run(s: Seq<char>) -> bool {
    (exists|from: int| has_run_at(s, '\'', from)) || (exists|from: int| has_run_at(s, '"', from))
}

/// A string that is no longer than such a run holds none.
pub proof fn lemma_short_strings_are_fine(s: Seq<char>)
    requires
        s.len() <= MOST_QUOTES,
    ensures
        !has_long_quote_run(s),
{
}

fn has_run_of(chars: &Vec<char>, quote: char) -> (r: bool)
    ensures
        r == exists|from: int| has_run_at(chars@, quote, from),
{
    let mut i: usize = 0;
    let mut count: usize = 0;
    while i < chars.len()
        invariant
            i <= chars@.len(),
            count <= i,
            count <= MOST_QUOTES,
            forall|k: int| i - count <= k < i ==> #[trigger] chars@[k] == quote,
            count < i ==> chars@[i - count - 1] != quote,
            forall|from: int| 0 <= from && from + MOST_QUOTES < i ==> !has_run_at(chars@, quote, from),
        decreases chars@.len() - i,
    {
        if chars[i] == quote {
            count = count + 1;
            if count > MOST_QUOTES {
                assert(has_run_at(chars@, quote, i - MOST_QUOTES));
                return true;
            }
        } else {
            count = 0;
        }
        i = i + 1;
        assert forall|from: int| 0 <= from && from + MOST_QUOTES < i implies !has_run_at(chars@, quote, from) by {
            if from + MOST_QUOTES == i - 1 {
                assert(chars@[i - count - 1] != quote);
            }
        }
    }
    assert forall|from: int| !has_run_at(chars@, quote, from) by {}
    false
}

/// Whether a string holds more equal quotes in a row than the writer can count.
pub fn long_quote_run(s: &str) -> (r: bool)
    ensures
        r == has_long_quote_run(s@),
{
    let chars = crate::text::chars_of(s);
    has_run_of(&chars, '\'') || has_run_of(&chars, '"')
}

// ------------------------------------------------------------------------ outside functions
/// Reads a document with `toml_edit`'s `DocumentMut::from_str`. Claimed: whether the text is
/// accepted, what the document then holds and what the error says depends on the text alone. The
/// document itself is a table, whatever stands below a key stands in a table, and in a text no table
/// under a header stands inside a table in braces.
#[verifier::external_body]
fn read_document(text: &str) -> (r: Result<DocumentMut, String>)
    ensures
        r is Ok <==> toml_parsed(text@) is Some,
        r matches Ok(document) ==> toml_parsed(text@) == Some(document_tree(document)) && is_sound(document_tree(document)),
        r matches Err(error) ==> error@ == toml_error(text@),
{
    text.parse::<DocumentMut>().map_err(|error| error.to_string())
}

/// Begins a document with `toml_edit::DocumentMut::new`. Claimed: it is a table without entries.
#[verifier::external_body]
fn new_document() -> (document: DocumentMut)
    ensures
        document_tree(document) == leaf(TomlEntry::Table),
{
    DocumentMut::new()
}

/// Writes a document with the `Display` of `toml_edit::DocumentMut`. Claimed: the text depends on the
/// document alone, and reading it gives all of the document back, unless a table under a header has
/// come to stand inside a table in braces. A `TomlDocument` was read from a text or begun anew, and
/// edited only by the methods below. They put a table under a header only where nothing stood, since in
/// the place of a value it would be written with the comments that stood before that value. They put it
/// at most two keys deep, since further down its header could be written before dotted keys that it
/// belongs behind. And they put in no string that the writer could not write.
#[verifier::external_body]
fn write_document(document: &TomlDocument) -> (text: String)
    ensures
        text@ == toml_written(document.document),
        is_writable(document_tree(document.document)) ==> toml_parsed(text@) == Some(document_tree(document.document)),
{
    document.document.to_string()
}

/// Looks up a key of a document with `toml_edit::Table::get`. Claimed: it finds what stands there, and
/// where it finds nothing, nothing stands below either.
#[verifier::external_body]
fn root_item<'a>(document: &'a DocumentMut, key: &str) -> (r: Option<&'a Item>)
    ensures
        r is Some <==> document_tree(*document).contains_key(seq![key@]),
        below(document_tree(*document), key@) == tree_of(r),
{
    document.get(key)
}

/// Looks up a key of a part with `toml_edit::Item::get`. Claimed: it finds what stands there, and
/// where it finds nothing, nothing stands below either.
#[verifier::external_body]
fn child_item<'a>(parent: &'a Item, key: &str) -> (r: Option<&'a Item>)
    ensures
        r is Some <==> item_tree(*parent).contains_key(seq![key@]),
        below(item_tree(*parent), key@) == tree_of(r),
{
    parent.get(key)
}

/// Reads a string with `toml_edit::Item::as_str`. Claimed: there is one exactly where the part is a
/// string, and it is that string.
#[verifier::external_body]
fn item_text(item: &Item) -> (r: Option<&str>)
    ensures
        r is Some <==> (entry_at(item_tree(*item), Seq::empty()) matches Some(TomlEntry::Text(_))),
        r matches Some(text) ==> entry_at(item_tree(*item), Seq::empty()) == Some(TomlEntry::Text(text@)),
{
    item.as_str()
}

/// Asks `toml_edit::Item::is_table_like`. Claimed: it is true of tables of both kinds and of nothing
/// else.
#[verifier::external_body]
fn item_is_table(item: &Item) -> (r: bool)
    ensures
        r == is_table_at(item_tree(*item), Seq::empty()),
{
    item.is_table_like()
}

/// Asks `toml_edit::Item::is_inline_table`. Claimed: it is true of tables in braces and of nothing else.
#[verifier::external_body]
fn item_is_inline(item: &Item) -> (r: bool)
    ensures
        r == (entry_at(item_tree(*item), Seq::empty()) == Some(TomlEntry::Inline)),
{
    item.is_inline_table()
}

/// Gives access to a key of a document with `toml_edit`'s `IndexMut` for `DocumentMut`. Claimed: what
/// is reached is what stands there, or nothing yet, and what it becomes is all that changes.
#[verifier::external_body]
fn root_mut<'a>(document: &'a mut DocumentMut, key: &str) -> (item: &'a mut Item)
    ensures
        item_tree(*item) == below(document_tree(*old(document)), key@),
        document_tree(*final(document)) == planted(document_tree(*old(document)), key@, item_tree(*final(item))),
{
    &mut document[key]
}

/// Gives access to a key of a table with `toml_edit`'s `IndexMut` for `Item`. Claimed: what is reached
/// is what stands there, or nothing yet, and what it becomes is all that changes. The outside function
/// panics on anything but a table.
#[verifier::external_body]
fn child_mut<'a>(parent: &'a mut Item, key: &str) -> (item: &'a mut Item)
    requires
        is_table_at(item_tree(*old(parent)), Seq::empty()),
    ensures
        item_tree(*item) == below(item_tree(*old(parent)), key@),
        item_tree(*final(parent)) == planted(item_tree(*old(parent)), key@, item_tree(*final(item))),
{
    &mut parent[key]
}

/// Makes a string with `toml_edit::value`. Claimed: it is that string. When it is written, equal quotes
/// in a row are counted in eight bits, which may panic on more than fit.
#[verifier::external_body]
fn text_item(text: &str) -> (item: Item)
    requires
        !has_long_quote_run(text@),
    ensures
        item_tree(item) == leaf(TomlEntry::Text(text@)),
{
    toml_edit::value(text)
}

/// Makes an integer with `toml_edit::value`. Claimed: it is that integer.
#[verifier::external_body]
fn integer_item(number: i64) -> (item: Item)
    ensures
        item_tree(item) == leaf(TomlEntry::Integer(number as int)),
{
    toml_edit::value(number)
}

/// Makes a truth value with `toml_edit::value`. Claimed: it is that value.
#[verifier::external_body]
fn flag_item(flag: bool) -> (item: Item)
    ensures
        item_tree(item) == leaf(TomlEntry::Flag(flag)),
{
    toml_edit::value(flag)
}

/// Makes a table with `toml_edit::table`. Claimed: it is a table to stand under a header, without
/// entries.
#[verifier::external_body]
fn table_item() -> (item: Item)
    ensures
        item_tree(item) == leaf(TomlEntry::Table),
{
    toml_edit::table()
}

/// Makes a table in braces with `toml_edit::InlineTable::new` and `toml_edit::value`. Claimed: it is a
/// table in braces, without entries.
#[verifier::external_body]
fn inline_item() -> (item: Item)
    ensures
        item_tree(item) == leaf(TomlEntry::Inline),
{
    toml_edit::value(toml_edit::InlineTable::new())
}

/// What can be put into a document.
#[derive(Debug)]
pub enum TomlLeaf {
    /// A table under a header.
    Table,
    /// A table in braces.
    Inline,
    Text(String),
    Integer(i64),
    Flag(bool),
}

impl TomlLeaf {
    /// What it is.
    pub open spec fn entry(self) -> TomlEntry {
        match self {
            TomlLeaf::Table => TomlEntry::Table,
            TomlLeaf::Inline => TomlEntry::Inline,
            TomlLeaf::Text(text) => TomlEntry::Text(text@),
            TomlLeaf::Integer(number) => TomlEntry::Integer(number as int),
            TomlLeaf::Flag(flag) => TomlEntry::Flag(flag),
        }
    }

    /// The writer can write it.
    pub open spec fn is_valid(self) -> bool {
        self matches TomlLeaf::Text(text) ==> !has_long_quote_run(text@)
    }

    /// It can be put at this place of a document: a table under a header only where nothing stands.
    pub open spec fn fits_at(self, tree: Map<Seq<Seq<char>>, TomlEntry>, path: Seq<Seq<char>>) -> bool {
        self.is_valid() && (self is Table ==> !tree.contains_key(path))
    }
}

fn item_of(value: TomlLeaf) -> (item: Item)
    requires
        value.is_valid(),
    ensures
        item_tree(item) == leaf(value.entry()),
{
    match value {
        TomlLeaf::Table => table_item(),
        TomlLeaf::Inline => inline_item(),
        TomlLeaf::Text(text) => text_item(text.as_str()),
        TomlLeaf::Integer(number) => integer_item(number),
        TomlLeaf::Flag(flag) => flag_item(flag),
    }
}

/// The string that an entry is, if it is one.
pub open spec fn text_of_entry(entry: Option<TomlEntry>) -> Option<Seq<char>> {
    match entry {
        Some(TomlEntry::Text(text)) => Some(text),
        _ => None,
    }
}

/// A place two or three keys deep is reached one key at a time.
pub proof fn lemma_below(tree: Map<Seq<Seq<char>>, TomlEntry>, a: Seq<char>, b: Seq<char>, c: Seq<char>)
    ensures
        entry_at(below(tree, a), Seq::empty()) == entry_at(tree, seq![a]),
        entry_at(below(tree, a), seq![b]) == entry_at(tree, seq![a, b]),
        entry_at(below(below(tree, a), b), Seq::empty()) == entry_at(tree, seq![a, b]),
        entry_at(below(below(tree, a), b), seq![c]) == entry_at(tree, seq![a, b, c]),
        entry_at(below(below(below(tree, a), b), c), Seq::empty()) == entry_at(tree, seq![a, b, c]),
{
    let none = Seq::<Seq<char>>::empty();
    assert(seq![a] + none =~= seq![a]);
    assert(seq![b] + none =~= seq![b]);
    assert(seq![c] + none =~= seq![c]);
    assert(seq![a] + seq![b] =~= seq![a, b]);
    assert(seq![b] + seq![c] =~= seq![b, c]);
    assert(seq![a] + seq![b, c] =~= seq![a, b, c]);
}

/// The document with an entry put at a place one key deep.
pub open spec fn put_one(
    tree: Map<Seq<Seq<char>>, TomlEntry>,
    a: Seq<char>,
    entry: TomlEntry,
) -> Map<Seq<Seq<char>>, TomlEntry> {
    planted(tree, a, leaf(entry))
}

/// The document with an entry put at a place two keys deep.
pub open spec fn put_two(
    tree: Map<Seq<Seq<char>>, TomlEntry>,
    a: Seq<char>,
    b: Seq<char>,
    entry: TomlEntry,
) -> Map<Seq<Seq<char>>, TomlEntry> {
    planted(tree, a, planted(below(tree, a), b, leaf(entry)))
}

/// The document with an entry put at a place three keys deep.
pub open spec fn put_three(
    tree: Map<Seq<Seq<char>>, TomlEntry>,
    a: Seq<char>,
    b: Seq<char>,
    c: Seq<char>,
    entry: TomlEntry,
) -> Map<Seq<Seq<char>>, TomlEntry> {
    planted(tree, a, planted(below(tree, a), b, planted(below(below(tree, a), b), c, leaf(entry))))
}

impl TomlDocument {
    /// A document without entries.
    pub fn new() -> (document: TomlDocument)
        ensures
            document.tree() == leaf(TomlEntry::Table),
            is_sound(document.tree()),
    {
        TomlDocument { document: new_document() }
    }

    /// Reads a document; the error is what the reader says of the text.
    pub fn parse(text: &str) -> (r: Result<TomlDocument, String>)
        ensures
            r is Ok <==> toml_parsed(text@) is Some,
            r matches Ok(document) ==> toml_parsed(text@) == Some(document.tree()) && is_sound(document.tree()),
            r matches Err(error) ==> error@ == toml_error(text@),
    {
        match read_document(text) {
            Ok(document) => Ok(TomlDocument { document }),
            Err(error) => Err(error),
        }
    }

    /// The text of the document.
    pub fn to_text(&self) -> (text: String)
        ensures
            text@ == self.text(),
            is_writable(self.tree()) ==> toml_parsed(text@) == Some(self.tree()),
    {
        write_document(self)
    }

    /// The string under a key.
    pub fn text_one(&self, a: &str) -> (r: Option<String>)
        ensures
            r.deep_view() == text_of_entry(entry_at(self.tree(), seq![a@])),
    {
        proof {
            lemma_below(self.tree(), a@, a@, a@);
        }
        match root_item(&self.document, a) {
            Some(item) => match item_text(item) {
                Some(text) => Some(text.to_owned()),
                None => None,
            },
            None => None,
        }
    }

    /// Whether something stands under a key.
    pub fn has_one(&self, a: &str) -> (r: bool)
        ensures
            r == self.tree().contains_key(seq![a@]),
    {
        root_item(&self.document, a).is_some()
    }

    /// Whether a table stands under a key.
    pub fn is_table_one(&self, a: &str) -> (r: bool)
        ensures
            r == is_table_at(self.tree(), seq![a@]),
    {
        proof {
            lemma_below(self.tree(), a@, a@, a@);
        }
        match root_item(&self.document, a) {
            Some(item) => item_is_table(item),
            None => false,
        }
    }

    /// Whether a table in braces stands under a key.
    pub fn is_inline_one(&self, a: &str) -> (r: bool)
        ensures
            r == (entry_at(self.tree(), seq![a@]) == Some(TomlEntry::Inline)),
    {
        proof {
            lemma_below(self.tree(), a@, a@, a@);
        }
        match root_item(&self.document, a) {
            Some(item) => item_is_inline(item),
            None => false,
        }
    }

    /// Whether something stands at a place two keys deep.
    pub fn has_two(&self, a: &str, b: &str) -> (r: bool)
        ensures
            r == self.tree().contains_key(seq![a@, b@]),
    {
        proof {
            lemma_below(self.tree(), a@, b@, b@);
        }
        match root_item(&self.document, a) {
            Some(item) => child_item(item, b).is_some(),
            None => false,
        }
    }

    /// Whether a table stands at a place two keys deep.
    pub fn is_table_two(&self, a: &str, b: &str) -> (r: bool)
        ensures
            r == is_table_at(self.tree(), seq![a@, b@]),
    {
        proof {
            lemma_below(self.tree(), a@, b@, b@);
            lemma_below(below(self.tree(), a@), b@, b@, b@);
        }
        match root_item(&self.document, a) {
            Some(first) => match child_item(first, b) {
                Some(item) => item_is_table(item),
                None => false,
            },
            None => false,
        }
    }

    /// Puts a value under a key.
    pub fn set_one(&mut self, a: &str, value: TomlLeaf)
        requires
            value.fits_at(old(self).tree(), seq![a@]),
        ensures
            final(self).tree() == put_one(old(self).tree(), a@, value.entry()),
    {
        let item = root_mut(&mut self.document, a);
        *item = item_of(value);
    }

    /// Puts a value at a place two keys deep.
    pub fn set_two(&mut self, a: &str, b: &str, value: TomlLeaf)
        requires
            value.fits_at(old(self).tree(), seq![a@, b@]),
            is_table_at(old(self).tree(), seq![a@]),
        ensures
            final(self).tree() == put_two(old(self).tree(), a@, b@, value.entry()),
    {
        proof {
            lemma_below(self.tree(), a@, b@, b@);
        }
        let first = root_mut(&mut self.document, a);
        let item = child_mut(first, b);
        *item = item_of(value);
    }

    /// Puts a value at a place three keys deep, but no table with a header of its own: under a table that
    /// is spelled with dotted keys, such a header could come to stand before the dotted keys, and the text
    /// could not be read.
    pub fn set_three(&mut self, a: &str, b: &str, c: &str, value: TomlLeaf)
        requires
            value !is Table,
            value.fits_at(old(self).tree(), seq![a@, b@, c@]),
            is_table_at(old(self).tree(), seq![a@]),
            is_table_at(old(self).tree(), seq![a@, b@]),
        ensures
            final(self).tree() == put_three(old(self).tree(), a@, b@, c@, value.entry()),
    {
        proof {
            lemma_below(self.tree(), a@, b@, c@);
        }
        let first = root_mut(&mut self.document, a);
        let second = child_mut(first, b);
        let item = child_mut(second, c);
        *item = item_of(value);
    }

    /// The string at a place three keys deep.
    pub fn text_three(&self, a: &str, b: &str, c: &str) -> (r: Option<String>)
        ensures
            r.deep_view() == text_of_entry(entry_at(self.tree(), seq![a@, b@, c@])),
    {
        proof {
            lemma_below(self.tree(), a@, b@, c@);
            lemma_below(below(self.tree(), a@), b@, c@, c@);
        }
        match root_item(&self.document, a) {
            Some(first) => match child_item(first, b) {
                Some(second) => match child_item(second, c) {
                    Some(third) => match item_text(third) {
                        Some(text) => Some(text.to_owned()),
                        None => None,
                    },
                    None => None,
                },
                None => None,
            },
            None => None,
        }
    }
}

} // verus!
