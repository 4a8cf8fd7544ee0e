//! Text as sequences of characters: trimming, splitting, matching and decimal numbers.

use vstd::prelude::*;

verus! {

/// Appending one character to a `String`: `String::push` leaves the old characters in place and
/// puts the new one behind them.
pub assume_specification[ String::push ](s: &mut String, c: char)
    ensures
        final(s)@ == old(s)@.push(c),
;

/// The characters of a string, one by one.
pub fn chars_of(s: &str) -> (chars: Vec<char>)
    ensures
        chars@ == s@,
{
    let mut chars: Vec<char> = Vec::new();
    for c in it: s.chars()
        invariant
            chars@ == it.seq().take(it.index() as int),
            it.seq() == s@,
    {
        proof {
            assert(it.seq().take(it.index() as int + 1) =~= it.seq().take(it.index() as int).push(c));
        }
        chars.push(c);
    }
    proof {
        assert(s@.take(s@.len() as int) =~= s@);
    }
    chars
}

/// The string made of `chars[from..to]`.
pub fn string_of(chars: &Vec<char>, from: usize, to: usize) -> (s: String)
    requires
        from <= to <= chars@.len(),
    ensures
        s@ == chars@.subrange(from as int, to as int),
{
    let mut s = String::new();
    let mut i: usize = from;
    while i < to
        invariant
            from <= i <= to <= chars@.len(),
            s@ == chars@.subrange(from as int, i as int),
        decreases to - i,
    {
        s.push(chars[i]);
        i = i + 1;
        proof {
            assert(chars@.subrange(from as int, i as int) =~= chars@.subrange(from as int, i - 1).push(chars@[i - 1]));
        }
    }
    s
}

/// Two strings, one after the other.
pub fn cat(a: &str, b: &str) -> (r: String)
    ensures
        r@ == a@ + b@,
{
    let mut r = a.to_owned();
    r.append(b);
    r
}

/// Three strings, one after the other.
pub fn cat3(a: &str, b: &str, c: &str) -> (r: String)
    ensures
        r@ == a@ + b@ + c@,
{
    let mut r = a.to_owned();
    r.append(b);
    r.append(c);
    r
}

/// A copy of an optional string.
pub fn copied(s: &Option<String>) -> (copy: Option<String>)
    ensures
        copy == *s,
{
    match s {
        Some(text) => Some(text.clone()),
        None => None,
    }
}

/// A copy of every string in a list.
pub fn copied_all(list: &Vec<String>) -> (copy: Vec<String>)
    ensures
        copy@ == list@,
        copy.deep_view() == list.deep_view(),
{
    let mut copy: Vec<String> = Vec::new();
    let mut i: usize = 0;
    while i < list.len()
        invariant
            i <= list@.len(),
            copy@ == list@.take(i as int),
        decreases list@.len() - i,
    {
        copy.push(list[i].clone());
        i = i + 1;
        proof {
            assert(list@.take(i as int) =~= list@.take(i - 1).push(list@[i - 1]));
        }
    }
    assert(list@.take(i as int) =~= list@);
    copy
}

// ---------------------------------------------------------------- whitespace and trimming
/// Unicode `White_Space`, the property behind `char::is_whitespace`.
pub open spec fn is_white(c: char) -> bool {
    ||| '\u{9}' <= c <= '\u{d}'
    ||| c == ' '
    ||| c == '\u{85}'
    ||| c == '\u{a0}'
    ||| c == '\u{1680}'
    ||| '\u{2000}' <= c <= '\u{200a}'
    ||| c == '\u{2028}'
    ||| c == '\u{2029}'
    ||| c == '\u{202f}'
    ||| c == '\u{205f}'
    ||| c == '\u{3000}'
}

/// Tells whitespace from other characters.
pub fn white(c: char) -> (r: bool)
    ensures
        r == is_white(c),
{
    let u: u32 = c as u32;
    (0x9 <= u && u <= 0xd) || u == 0x20 || u == 0x85 || u == 0xa0 || u == 0x1680 || (0x2000 <= u && u <= 0x200a)
        || u == 0x2028 || u == 0x2029 || u == 0x202f || u == 0x205f || u == 0x3000
}

/// `s` without its leading run of characters in `f`.
pub open spec fn strip_start(s: Seq<char>, f: spec_fn(char) -> bool) -> Seq<char>
    decreases s.len(),
{
    if s.len() > 0 && f(s[0]) {
        strip_start(s.drop_first(), f)
    } else {
        s
    }
}

/// `s` without its trailing run of characters in `f`.
pub open spec fn strip_end(s: Seq<char>, f: spec_fn(char) -> bool) -> Seq<char>
    decreases s.len(),
{
    if s.len() > 0 && f(s.last()) {
        strip_end(s.drop_last(), f)
    } else {
        s
    }
}

/// The class of whitespace characters.
pub open spec fn any_white() -> spec_fn(char) -> bool {
    |c: char| is_white(c)
}

/// The class that holds `x` alone.
pub open spec fn only(x: char) -> spec_fn(char) -> bool {
    |c: char| c == x
}

/// `s` without leading and trailing whitespace.
pub open spec fn trimmed(s: Seq<char>) -> Seq<char> {
    strip_end(strip_start(s, any_white()), any_white())
}

/// Nothing but whitespace, or nothing at all.
pub open spec fn is_blank(s: Seq<char>) -> bool {
    trimmed(s).len() == 0
}

proof fn lemma_strip_start(s: Seq<char>, f: spec_fn(char) -> bool, k: int)
    requires
        0 <= k <= s.len(),
        forall|i: int| 0 <= i < k ==> f(#[trigger] s[i]),
        k < s.len() ==> !f(s[k]),
    ensures
        strip_start(s, f) == s.skip(k),
    decreases k,
{
    if k > 0 {
        assert(f(s[0]));
        let t = s.drop_first();
        assert forall|i: int| 0 <= i < k - 1 implies f(#[trigger] t[i]) by {
            assert(f(s[i + 1]));
        }
        lemma_strip_start(t, f, k - 1);
        assert(t.skip(k - 1) =~= s.skip(k));
    } else {
        assert(s.skip(0) =~= s);
    }
}

proof fn lemma_strip_end(s: Seq<char>, f: spec_fn(char) -> bool, k: int)
    requires
        0 <= k <= s.len(),
        forall|i: int| k <= i < s.len() ==> f(#[trigger] s[i]),
        k > 0 ==> !f(s[k - 1]),
    ensures
        strip_end(s, f) == s.take(k),
    decreases s.len() - k,
{
    if k < s.len() {
        assert(f(s[s.len() - 1]));
        let t = s.drop_last();
        assert forall|i: int| k <= i < t.len() implies f(#[trigger] t[i]) by {
            assert(f(s[i]));
        }
        lemma_strip_end(t, f, k);
        assert(t.take(k) =~= s.take(k));
    } else {
        assert(s.take(k) =~= s);
    }
}

proof fn lemma_strip_end_bounds(s: Seq<char>, f: spec_fn(char) -> bool)
    ensures
        strip_end(s, f).is_prefix_of(s),
        strip_end(s, f).len() > 0 ==> !f(strip_end(s, f).last()),
    decreases s.len(),
{
    if s.len() > 0 && f(s.last()) {
        lemma_strip_end_bounds(s.drop_last(), f);
        let r = strip_end(s, f);
        assert(s.subrange(0, r.len() as int) =~= s.drop_last().subrange(0, r.len() as int));
    } else {
        assert(s.subrange(0, s.len() as int) =~= s);
    }
}

proof fn lemma_strip_start_bounds(s: Seq<char>, f: spec_fn(char) -> bool)
    ensures
        strip_start(s, f).len() > 0 ==> !f(strip_start(s, f)[0]),
    decreases s.len(),
{
    if s.len() > 0 && f(s[0]) {
        lemma_strip_start_bounds(s.drop_first(), f);
    }
}

/// Trimming twice is trimming once.
pub proof fn lemma_trimmed_stays(s: Seq<char>)
    ensures
        trimmed(trimmed(s)) == trimmed(s),
{
    let f = any_white();
    let front = strip_start(s, f);
    let t = trimmed(s);
    lemma_strip_start_bounds(s, f);
    lemma_strip_end_bounds(front, f);
    if t.len() > 0 {
        assert(t =~= front.subrange(0, t.len() as int));
        assert(t[0] == front[0]);
        assert(strip_start(t, f) == t);
    }
}

/// Stripping the end goes no further than to a character that stays.
pub proof fn lemma_strip_end_keeps(s: Seq<char>, f: spec_fn(char) -> bool, k: int)
    requires
        0 <= k < s.len(),
        !f(s[k]),
    ensures
        strip_end(s, f).len() > k,
    decreases s.len(),
{
    if f(s.last()) {
        lemma_strip_end_keeps(s.drop_last(), f, k);
    }
}

/// `s` without leading and trailing whitespace.
pub fn trim(s: &str) -> (r: &str)
    ensures
        r@ == trimmed(s@),
{
    let chars = chars_of(s);
    let mut from: usize = 0;
    while from < chars.len() && white(chars[from])
        invariant
            from <= chars@.len(),
            forall|i: int| 0 <= i < from ==> is_white(#[trigger] chars@[i]),
        decreases chars@.len() - from,
    {
        from = from + 1;
    }
    let mut to: usize = chars.len();
    while to > from && white(chars[to - 1])
        invariant
            from <= to <= chars@.len(),
            forall|i: int| to <= i < chars@.len() ==> is_white(#[trigger] chars@[i]),
        decreases to,
    {
        to = to - 1;
    }
    proof {
        let f = any_white();
        let k = from as int;
        assert(chars@ == s@);
        lemma_strip_start(s@, f, k);
        let t = s@.skip(k);
        assert forall|i: int| to - k <= i < t.len() implies f(#[trigger] t[i]) by {
            assert(is_white(chars@[i + k]));
        }
        lemma_strip_end(t, f, to - k);
        assert(t.take(to - k) =~= s@.subrange(k, to as int));
    }
    s.substring_char(from, to)
}

/// `str::trim_end_matches` for one character.
pub fn trim_end_char(s: &str, x: char) -> (r: &str)
    ensures
        r@ == strip_end(s@, only(x)),
{
    let chars = chars_of(s);
    let mut to: usize = chars.len();
    while to > 0 && chars[to - 1] == x
        invariant
            to <= chars@.len(),
            forall|i: int| to <= i < chars@.len() ==> #[trigger] chars@[i] == x,
        decreases to,
    {
        to = to - 1;
    }
    proof {
        lemma_strip_end(s@, only(x), to as int);
        assert(s@.take(to as int) =~= s@.subrange(0, to as int));
    }
    s.substring_char(0, to)
}

/// `str::trim_start_matches` for one character.
pub fn trim_start_char(s: &str, x: char) -> (r: &str)
    ensures
        r@ == strip_start(s@, only(x)),
{
    let chars = chars_of(s);
    let mut from: usize = 0;
    while from < chars.len() && chars[from] == x
        invariant
            from <= chars@.len(),
            forall|i: int| 0 <= i < from ==> #[trigger] chars@[i] == x,
        decreases chars@.len() - from,
    {
        from = from + 1;
    }
    proof {
        lemma_strip_start(s@, only(x), from as int);
        assert(s@.skip(from as int) =~= s@.subrange(from as int, s@.len() as int));
    }
    let to: usize = chars.len();
    s.substring_char(from, to)
}

/// `s` without its leading whitespace.
pub fn trim_start(s: &str) -> (r: &str)
    ensures
        r@ == strip_start(s@, any_white()),
{
    let chars = chars_of(s);
    let mut from: usize = 0;
    while from < chars.len() && white(chars[from])
        invariant
            from <= chars@.len(),
            forall|i: int| 0 <= i < from ==> is_white(#[trigger] chars@[i]),
        decreases chars@.len() - from,
    {
        from = from + 1;
    }
    proof {
        lemma_strip_start(s@, any_white(), from as int);
        assert(s@.skip(from as int) =~= s@.subrange(from as int, s@.len() as int));
    }
    let to: usize = chars.len();
    s.substring_char(from, to)
}

/// Whether `s` is empty or all whitespace.
pub fn blank(s: &str) -> (r: bool)
    ensures
        r == is_blank(s@),
{
    trim(s).is_empty()
}

// ------------------------------------------------------------------------------ matching
/// Whether two strings hold the same characters.
pub fn same(a: &str, b: &str) -> (r: bool)
    ensures
        r == (a@ == b@),
{
    a.to_owned() == b.to_owned()
}

/// Whether an optional string is present and equal to `b`.
pub fn is_exactly(a: &Option<String>, b: &str) -> (r: bool)
    ensures
        r == (a.deep_view() == Some(b@)),
{
    match a {
        Some(text) => same(text.as_str(), b),
        None => false,
    }
}

/// Whether `s` begins with `p`.
pub fn starts_with(s: &str, p: &str) -> (r: bool)
    ensures
        r == p@.is_prefix_of(s@),
{
    let a = chars_of(s);
    let b = chars_of(p);
    if b.len() > a.len() {
        return false;
    }
    let mut i: usize = 0;
    while i < b.len()
        invariant
            a@ == s@,
            b@ == p@,
            i <= b@.len() <= a@.len(),
            forall|j: int| 0 <= j < i ==> a@[j] == b@[j],
        decreases b@.len() - i,
    {
        if a[i] != b[i] {
            assert(s@.subrange(0, p@.len() as int)[i as int] != p@[i as int]);
            return false;
        }
        i = i + 1;
    }
    assert(p@ =~= s@.subrange(0, p@.len() as int));
    true
}

/// Whether `s` ends with `p`.
pub fn ends_with(s: &str, p: &str) -> (r: bool)
    ensures
        r == p@.is_suffix_of(s@),
{
    let a = chars_of(s);
    let b = chars_of(p);
    if b.len() > a.len() {
        return false;
    }
    let off: usize = a.len() - b.len();
    let mut i: usize = 0;
    while i < b.len()
        invariant
            a@ == s@,
            b@ == p@,
            i <= b@.len() <= a@.len(),
            off == a.len() - b.len(),
            forall|j: int| 0 <= j < i ==> a@[off + j] == b@[j],
        decreases b@.len() - i,
    {
        if a[off + i] != b[i] {
            assert(s@.subrange(off as int, s@.len() as int)[i as int] != p@[i as int]);
            return false;
        }
        i = i + 1;
    }
    assert(p@ =~= s@.subrange(off as int, s@.len() as int));
    true
}

/// What follows `p` in `s`, where `s` begins with `p`.
pub fn strip_prefix<'a>(s: &'a str, p: &str) -> (r: Option<&'a str>)
    ensures
        r is Some <==> p@.is_prefix_of(s@),
        r matches Some(rest) ==> rest@ == s@.skip(p@.len() as int),
{
    if starts_with(s, p) {
        let from: usize = chars_of(p).len();
        let to: usize = chars_of(s).len();
        assert(s@.skip(p@.len() as int) =~= s@.subrange(from as int, to as int));
        Some(s.substring_char(from, to))
    } else {
        None
    }
}

/// What precedes `p` in `s`, where `s` ends with `p`.
pub fn strip_suffix<'a>(s: &'a str, p: &str) -> (r: Option<&'a str>)
    ensures
        r is Some <==> p@.is_suffix_of(s@),
        r matches Some(rest) ==> rest@ == s@.take(s@.len() - p@.len()),
{
    if ends_with(s, p) {
        let cut: usize = chars_of(p).len();
        let len: usize = chars_of(s).len();
        assert(s@.take(s@.len() - p@.len()) =~= s@.subrange(0, len - cut));
        Some(s.substring_char(0, len - cut))
    } else {
        None
    }
}

/// Whether `p` occurs in `s` at position `i`.
pub open spec fn occurs_at(s: Seq<char>, p: Seq<char>, i: int) -> bool {
    0 <= i && i + p.len() <= s.len() && s.subrange(i, i + p.len()) == p
}

/// Whether `p` occurs somewhere in `s`.
pub open spec fn occurs_in(p: Seq<char>, s: Seq<char>) -> bool {
    exists|i: int| occurs_at(s, p, i)
}

/// Whether `p` occurs somewhere in `s`.
pub fn contains(s: &str, p: &str) -> (r: bool)
    ensures
        r == occurs_in(p@, s@),
{
    let a = chars_of(s);
    let b = chars_of(p);
    if b.len() > a.len() {
        return false;
    }
    let last: usize = a.len() - b.len();
    let mut at: usize = 0;
    while at <= last
        invariant
            a@ == s@,
            b@ == p@,
            last == a.len() - b.len(),
            at <= last + 1,
            forall|k: int| 0 <= k < at ==> !occurs_at(s@, p@, k),
        decreases last + 1 - at,
    {
        let mut i: usize = 0;
        while i < b.len() && a[at + i] == b[i]
            invariant
                a@ == s@,
                b@ == p@,
                last == a.len() - b.len(),
                at <= last,
                i <= b@.len(),
                forall|k: int| at <= k < at + i ==> #[trigger] a@[k] == b@[k - at],
            decreases b@.len() - i,
        {
            i = i + 1;
        }
        if i == b.len() {
            assert(s@.subrange(at as int, at + p@.len()) =~= p@);
            assert(occurs_at(s@, p@, at as int));
            return true;
        }
        assert(s@.subrange(at as int, at + p@.len())[i as int] != p@[i as int]);
        if at == last {
            assert forall|k: int| !occurs_at(s@, p@, k) by {}
            return false;
        }
        at = at + 1;
    }
    false
}

/// The lower-case letter for an ASCII capital; every other character as it is.
pub open spec fn lower_char(c: char) -> char {
    if 'A' <= c <= 'Z' {
        (c as u32 + 32) as char
    } else {
        c
    }
}

/// `s` with its ASCII capitals in lower case.
pub open spec fn lowered(s: Seq<char>) -> Seq<char> {
    s.map_values(|c: char| lower_char(c))
}

/// Equality up to the case of ASCII letters.
pub open spec fn same_letters(a: Seq<char>, b: Seq<char>) -> bool {
    lowered(a) == lowered(b)
}

fn to_lower(c: char) -> (r: char)
    ensures
        r == lower_char(c),
{
    if 'A' <= c && c <= 'Z' {
        (c as u8 + 32) as char
    } else {
        c
    }
}

/// `str::to_ascii_lowercase`.
pub fn ascii_lowercase(s: &str) -> (r: String)
    ensures
        r@ == lowered(s@),
{
    let chars = chars_of(s);
    let mut r = String::new();
    let mut i: usize = 0;
    while i < chars.len()
        invariant
            chars@ == s@,
            i <= chars@.len(),
            r@ == lowered(s@.take(i as int)),
        decreases chars@.len() - i,
    {
        r.push(to_lower(chars[i]));
        i = i + 1;
        proof {
            assert(lowered(s@.take(i as int)) =~= lowered(s@.take(i - 1)).push(lower_char(s@[i - 1])));
        }
    }
    assert(s@.take(i as int) =~= s@);
    r
}

/// `str::eq_ignore_ascii_case`.
pub fn eq_ignore_ascii_case(a: &str, b: &str) -> (r: bool)
    ensures
        r == same_letters(a@, b@),
{
    ascii_lowercase(a) == ascii_lowercase(b)
}

// ------------------------------------------------------------------- splitting and joining
/// The pieces of `s` between the characters in `f`: one more piece than there are such characters.
pub open spec fn split_by(s: Seq<char>, f: spec_fn(char) -> bool) -> Seq<Seq<char>>
    decreases s.len(),
{
    if s.len() == 0 {
        seq![Seq::<char>::empty()]
    } else {
        let before = split_by(s.drop_last(), f);
        if f(s.last()) {
            before.push(Seq::<char>::empty())
        } else {
            before.drop_last().push(before.last().push(s.last()))
        }
    }
}

/// `s` without one carriage return at its end.
pub open spec fn without_cr(s: Seq<char>) -> Seq<char> {
    if s.len() > 0 && s.last() == '\r' {
        s.drop_last()
    } else {
        s
    }
}

/// The lines of `s`: each ends at a newline, with or without a carriage return before it; what
/// follows the last newline is a line of its own, as it stands, unless it is empty.
pub open spec fn lines_of(s: Seq<char>) -> Seq<Seq<char>> {
    let pieces = split_by(s, only('\n'));
    let ended = pieces.drop_last().map_values(|piece: Seq<char>| without_cr(piece));
    if pieces.last().len() == 0 {
        ended
    } else {
        ended.push(pieces.last())
    }
}

/// The runs of `s` between whitespace.
pub open spec fn words_of(s: Seq<char>) -> Seq<Seq<char>> {
    split_by(s, any_white()).filter(|piece: Seq<char>| piece.len() > 0)
}

/// The pieces in order, with `sep` between each and the next.
pub open spec fn joined(pieces: Seq<Seq<char>>, sep: Seq<char>) -> Seq<char>
    decreases pieces.len(),
{
    if pieces.len() == 0 {
        Seq::empty()
    } else if pieces.len() == 1 {
        pieces[0]
    } else {
        joined(pieces.drop_last(), sep) + sep + pieces.last()
    }
}

/// Splitting yields at least one piece.
pub proof fn lemma_split_nonempty(s: Seq<char>, f: spec_fn(char) -> bool)
    ensures
        split_by(s, f).len() >= 1,
    decreases s.len(),
{
    if s.len() > 0 {
        lemma_split_nonempty(s.drop_last(), f);
    }
}

proof fn lemma_split_step(s: Seq<char>, i: int, f: spec_fn(char) -> bool)
    requires
        0 <= i < s.len(),
    ensures
        ({
            let before = split_by(s.take(i), f);
            split_by(s.take(i + 1), f) == if f(s[i]) {
                before.push(Seq::<char>::empty())
            } else {
                before.drop_last().push(before.last().push(s[i]))
            }
        }),
        split_by(s.take(i), f).len() >= 1,
{
    assert(s.take(i + 1).drop_last() =~= s.take(i));
    lemma_split_nonempty(s.take(i), f);
}

/// The pieces of `s` between the occurrences of `x`.
pub fn split(s: &str, x: char) -> (pieces: Vec<String>)
    ensures
        pieces.deep_view() == split_by(s@, only(x)),
        pieces.deep_view().len() == pieces@.len() >= 1,
{
    let chars = chars_of(s);
    let mut pieces: Vec<String> = Vec::new();
    let mut piece = String::new();
    let mut i: usize = 0;
    proof {
        assert(s@.take(0) =~= Seq::<char>::empty());
        assert(pieces.deep_view().push(piece@) =~= split_by(s@.take(0), only(x)));
    }
    while i < chars.len()
        invariant
            chars@ == s@,
            i <= chars@.len(),
            pieces.deep_view().push(piece@) == split_by(s@.take(i as int), only(x)),
        decreases chars@.len() - i,
    {
        let ghost done = pieces.deep_view();
        let ghost cur = piece@;
        proof {
            lemma_split_step(s@, i as int, only(x));
            assert(done.push(cur).drop_last() =~= done);
        }
        if chars[i] == x {
            pieces.push(piece);
            piece = String::new();
            proof {
                assert(pieces.deep_view() =~= done.push(cur));
            }
        } else {
            piece.push(chars[i]);
        }
        i = i + 1;
    }
    let ghost done = pieces.deep_view();
    let ghost cur = piece@;
    pieces.push(piece);
    proof {
        assert(s@.take(i as int) =~= s@);
        assert(pieces.deep_view() =~= done.push(cur));
    }
    pieces
}

/// `str::lines`.
pub fn lines(s: &str) -> (r: Vec<String>)
    ensures
        r.deep_view() == lines_of(s@),
{
    let pieces = split(s, '\n');
    let count: usize = pieces.len() - 1;
    let ghost all = split_by(s@, only('\n'));
    let ghost ended = all.drop_last().map_values(|piece: Seq<char>| without_cr(piece));
    let mut r: Vec<String> = Vec::new();
    let mut i: usize = 0;
    while i < count
        invariant
            pieces.deep_view() == all,
            pieces.deep_view().len() == pieces@.len(),
            ended == all.drop_last().map_values(|piece: Seq<char>| without_cr(piece)),
            count == pieces@.len() - 1,
            i <= count,
            r.deep_view() == ended.take(i as int),
        decreases count - i,
    {
        let line = match strip_suffix(pieces[i].as_str(), "\r") {
            Some(rest) => rest.to_owned(),
            None => pieces[i].clone(),
        };
        proof {
            reveal_strlit("\r");
            let p = pieces@[i as int]@;
            assert(all[i as int] == p);
            if p.len() > 0 && p.last() == '\r' {
                assert("\r"@ =~= p.subrange(p.len() - 1, p.len() as int));
                assert("\r"@.is_suffix_of(p));
                assert(p.take(p.len() - 1) =~= p.drop_last());
            } else if p.len() > 0 {
                assert(p.subrange(p.len() - 1, p.len() as int)[0] != '\r');
                assert(!"\r"@.is_suffix_of(p));
            }
            assert(line@ == without_cr(p));
            assert(ended[i as int] == without_cr(p));
        }
        let ghost before = r.deep_view();
        r.push(line);
        i = i + 1;
        proof {
            assert(r.deep_view() =~= before.push(line@));
            assert(ended.take(i as int) =~= ended.take(i - 1).push(ended[i - 1]));
        }
    }
    proof {
        assert(ended.take(i as int) =~= ended);
        assert(pieces@[count as int]@ == all.last());
    }
    if !pieces[count].as_str().is_empty() {
        let ghost before = r.deep_view();
        r.push(pieces[count].clone());
        proof {
            assert(r.deep_view() =~= before.push(all.last()));
        }
    }
    r
}

/// The runs of `s` between whitespace, joined by single blanks.
pub fn flatten(s: &str) -> (r: String)
    ensures
        r@ == joined(words_of(s@), seq![' ']),
{
    let chars = chars_of(s);
    let ghost f = any_white();
    let ghost keep = |piece: Seq<char>| piece.len() > 0;
    let mut words: Vec<String> = Vec::new();
    let mut word = String::new();
    let mut i: usize = 0;
    proof {
        assert(s@.take(0) =~= Seq::<char>::empty());
        assert(split_by(s@.take(0), f).drop_last() =~= Seq::<Seq<char>>::empty());
        assert(words.deep_view() =~= split_by(s@.take(0), f).drop_last().filter(keep)) by {
            reveal(Seq::filter);
        }
    }
    while i < chars.len()
        invariant
            f == any_white(),
            keep == (|piece: Seq<char>| piece.len() > 0),
            chars@ == s@,
            i <= chars@.len(),
            split_by(s@.take(i as int), f).len() >= 1,
            word@ == split_by(s@.take(i as int), f).last(),
            words.deep_view() == split_by(s@.take(i as int), f).drop_last().filter(keep),
        decreases chars@.len() - i,
    {
        let ghost all = split_by(s@.take(i as int), f);
        let ghost done = words.deep_view();
        proof {
            lemma_split_step(s@, i as int, f);
        }
        if white(chars[i]) {
            proof {
                let next = all.push(Seq::<char>::empty());
                assert(next.drop_last() =~= all);
                assert(all =~= all.drop_last().push(all.last()));
                crate::order::lemma_filter_push(all.drop_last(), keep, all.last());
            }
            if !word.as_str().is_empty() {
                let finished = word;
                words.push(finished);
                proof {
                    assert(words.deep_view() =~= done.push(finished@));
                }
            }
            word = String::new();
        } else {
            word.push(chars[i]);
            proof {
                let next = all.drop_last().push(all.last().push(s@[i as int]));
                assert(next.drop_last() =~= all.drop_last());
            }
        }
        i = i + 1;
    }
    let ghost all = split_by(s@, f);
    let ghost done = words.deep_view();
    proof {
        assert(s@.take(i as int) =~= s@);
        assert(all =~= all.drop_last().push(all.last()));
        crate::order::lemma_filter_push(all.drop_last(), keep, all.last());
    }
    if !word.as_str().is_empty() {
        words.push(word);
        proof {
            assert(words.deep_view() =~= done.push(word@));
        }
    }
    proof {
        reveal_strlit(" ");
        assert(" "@ =~= seq![' ']);
        assert(words.deep_view() == words_of(s@));
    }
    join(&words, " ")
}

/// `[String]::join`.
pub fn join(pieces: &Vec<String>, sep: &str) -> (r: String)
    ensures
        r@ == joined(pieces.deep_view(), sep@),
{
    let ghost all = pieces.deep_view();
    let mut r = String::new();
    let mut i: usize = 0;
    while i < pieces.len()
        invariant
            all == pieces.deep_view(),
            i <= pieces@.len(),
            r@ == joined(all.take(i as int), sep@),
        decreases pieces@.len() - i,
    {
        if i > 0 {
            r.append(sep);
        }
        r.append(pieces[i].as_str());
        i = i + 1;
        proof {
            assert(all.take(i as int).drop_last() =~= all.take(i - 1));
            assert(all.take(i as int).last() == pieces@[i - 1]@);
            if i == 1 {
                assert(r@ =~= pieces@[0]@);
            }
        }
    }
    assert(all.take(i as int) =~= all);
    r
}

/// What follows the last character of `s` that is in `f`, or all of `s` where there is none.
pub open spec fn after_last(s: Seq<char>, f: spec_fn(char) -> bool) -> Seq<char>
    decreases s.len(),
{
    if s.len() == 0 || f(s.last()) {
        Seq::empty()
    } else {
        after_last(s.drop_last(), f).push(s.last())
    }
}

/// What follows the last separator, by its place.
pub proof fn lemma_after_last(s: Seq<char>, f: spec_fn(char) -> bool, k: int)
    requires
        0 <= k <= s.len(),
        forall|i: int| k <= i < s.len() ==> !f(#[trigger] s[i]),
        k > 0 ==> f(s[k - 1]),
    ensures
        after_last(s, f) == s.skip(k),
    decreases s.len() - k,
{
    if k < s.len() {
        assert(!f(s[s.len() - 1]));
        let t = s.drop_last();
        assert forall|i: int| k <= i < t.len() implies !f(#[trigger] t[i]) by {
            assert(!f(s[i]));
        }
        lemma_after_last(t, f, k);
        assert(t.skip(k).push(s.last()) =~= s.skip(k));
    } else {
        assert(s.skip(k) =~= Seq::<char>::empty());
    }
}

/// The first piece ends at the first separator.
pub proof fn lemma_first_piece(s: Seq<char>, f: spec_fn(char) -> bool, k: int)
    requires
        0 <= k <= s.len(),
        forall|i: int| 0 <= i < k ==> !f(#[trigger] s[i]),
        k < s.len() ==> f(s[k]),
    ensures
        split_by(s, f).len() >= 1,
        split_by(s, f)[0] == s.take(k),
        k == s.len() ==> split_by(s, f).len() == 1,
    decreases s.len(),
{
    if s.len() > 0 {
        let t = s.drop_last();
        let before = split_by(t, f);
        if k == s.len() {
            assert forall|i: int| 0 <= i < k - 1 implies !f(#[trigger] t[i]) by {
                assert(!f(s[i]));
            }
            assert(!f(s[k - 1]));
            lemma_first_piece(t, f, k - 1);
            assert(t.take(k - 1).push(s.last()) =~= s.take(k));
        } else {
            assert forall|i: int| 0 <= i < k implies !f(#[trigger] t[i]) by {
                assert(!f(s[i]));
            }
            lemma_first_piece(t, f, k);
            assert(t.take(k) =~= s.take(k));
            if k == t.len() {
                assert(before.len() == 1);
            } else {
                assert(f(t[k]));
                lemma_two_pieces(t, f, k);
            }
        }
    } else {
        assert(s.take(k) =~= Seq::<char>::empty());
    }
}

proof fn lemma_two_pieces(s: Seq<char>, f: spec_fn(char) -> bool, k: int)
    requires
        0 <= k < s.len(),
        f(s[k]),
    ensures
        split_by(s, f).len() >= 2,
    decreases s.len(),
{
    lemma_split_nonempty(s.drop_last(), f);
    if k < s.len() - 1 {
        lemma_two_pieces(s.drop_last(), f, k);
    }
}

/// What follows the last separator is the last piece.
pub proof fn lemma_after_last_is_last_piece(s: Seq<char>, f: spec_fn(char) -> bool)
    ensures
        split_by(s, f).len() >= 1,
        split_by(s, f).last() == after_last(s, f),
    decreases s.len(),
{
    if s.len() > 0 {
        lemma_after_last_is_last_piece(s.drop_last(), f);
    }
}

/// No piece holds a separator.
pub proof fn lemma_pieces_are_plain(s: Seq<char>, f: spec_fn(char) -> bool, k: int, i: int)
    requires
        0 <= k < split_by(s, f).len(),
        0 <= i < split_by(s, f)[k].len(),
    ensures
        !f(split_by(s, f)[k][i]),
    decreases s.len(),
{
    if s.len() > 0 {
        let before = split_by(s.drop_last(), f);
        lemma_split_nonempty(s.drop_last(), f);
        if k < before.len() && i < before[k].len() {
            lemma_pieces_are_plain(s.drop_last(), f, k, i);
        }
    }
}

/// It begins with a word, and there is one blank between a word and the next. It may end in a blank.
pub open spec fn is_tidy(s: Seq<char>) -> bool {
    forall|i: int| 0 <= i < s.len() && is_white(#[trigger] s[i]) ==> s[i] == ' ' && i > 0 && !is_white(s[i - 1])
}

proof fn lemma_joined_words_are_tidy(words: Seq<Seq<char>>)
    requires
        forall|k: int| 0 <= k < words.len() ==> (#[trigger] words[k]).len() > 0,
        forall|k: int, i: int| 0 <= k < words.len() && 0 <= i < words[k].len() ==> !is_white(#[trigger] words[k][i]),
    ensures
        is_tidy(joined(words, seq![' '])),
        words.len() > 0 ==> joined(words, seq![' ']).len() > 0 && !is_white(joined(words, seq![' ']).last()),
    decreases words.len(),
{
    if words.len() > 1 {
        let front = words.drop_last();
        let word = words.last();
        let start = joined(front, seq![' ']);
        let s = joined(words, seq![' ']);
        assert forall|k: int, i: int| 0 <= k < front.len() && 0 <= i < front[k].len() implies !is_white(
            #[trigger] front[k][i],
        ) by {
            assert(!is_white(words[k][i]));
        }
        lemma_joined_words_are_tidy(front);
        assert(s == start + seq![' '] + word);
        assert forall|i: int| 0 <= i < s.len() && is_white(#[trigger] s[i]) implies s[i] == ' ' && i > 0 && !is_white(
            s[i - 1],
        ) by {
            if i < start.len() {
                assert(s[i] == start[i]);
            } else if i > start.len() {
                assert(s[i] == words[words.len() - 1][i - start.len() - 1]);
            }
        }
        assert(s.last() == words[words.len() - 1][word.len() - 1]);
    } else if words.len() == 1 {
        let s = joined(words, seq![' ']);
        assert(s == words[0]);
        assert forall|i: int| 0 <= i < s.len() implies !is_white(#[trigger] s[i]) by {
            assert(!is_white(words[0][i]));
        }
    }
}

/// The words of a text, joined by single blanks, make a tidy text.
pub proof fn lemma_flattened_is_tidy(s: Seq<char>)
    ensures
        is_tidy(joined(words_of(s), seq![' '])),
        joined(words_of(s), seq![' ']).len() > 0 ==> !is_white(joined(words_of(s), seq![' ']).last()),
{
    let keep = |piece: Seq<char>| piece.len() > 0;
    let pieces = split_by(s, any_white());
    let words = words_of(s);
    crate::order::lemma_filter_members(pieces, keep);
    assert forall|k: int| 0 <= k < words.len() implies (#[trigger] words[k]).len() > 0 by {
        assert(keep(words[k]));
    }
    assert forall|k: int, i: int| 0 <= k < words.len() && 0 <= i < words[k].len() implies !is_white(
        #[trigger] words[k][i],
    ) by {
        assert(pieces.contains(words[k]));
        let m = choose|m: int| 0 <= m < pieces.len() && pieces[m] == words[k];
        lemma_pieces_are_plain(s, any_white(), m, i);
    }
    lemma_joined_words_are_tidy(words);
}

/// A tidy text is its words, joined by single blanks, but for a blank at its end.
pub proof fn lemma_tidy_is_flat(s: Seq<char>)
    requires
        is_tidy(s),
    ensures
        joined(words_of(s), seq![' ']) == if s.len() > 0 && is_white(s.last()) {
            s.drop_last()
        } else {
            s
        },
    decreases s.len(),
{
    let f = any_white();
    let keep = |piece: Seq<char>| piece.len() > 0;
    if s.len() == 0 {
        let none = Seq::<Seq<char>>::empty();
        assert(split_by(s, f) =~= none.push(Seq::<char>::empty()));
        crate::order::lemma_filter_push(none, keep, Seq::<char>::empty());
        reveal(Seq::filter);
        assert(words_of(s) =~= none);
    } else {
        let u = s.drop_last();
        let c = s.last();
        let before = split_by(u, f);
        let front = before.drop_last();
        let piece = before.last();
        assert forall|i: int| 0 <= i < u.len() && is_white(#[trigger] u[i]) implies u[i] == ' ' && i > 0 && !is_white(
            u[i - 1],
        ) by {
            assert(s[i] == u[i]);
            assert(s[i - 1] == u[i - 1]);
        }
        lemma_tidy_is_flat(u);
        lemma_split_nonempty(u, f);
        lemma_after_last_is_last_piece(u, f);
        assert(before =~= front.push(piece));
        crate::order::lemma_filter_push(front, keep, piece);
        if is_white(c) {
            assert(s[s.len() - 1] == c);
            assert(!is_white(u.last()));
            crate::order::lemma_filter_push(before, keep, Seq::<char>::empty());
            assert(words_of(s) =~= words_of(u));
        } else {
            let longer = piece.push(c);
            let words = front.filter(keep);
            crate::order::lemma_filter_push(front, keep, longer);
            assert(words_of(s) == words.push(longer));
            assert(words.push(longer).drop_last() =~= words);
            if u.len() > 0 && is_white(u.last()) {
                assert(u[u.len() - 1] == u.last());
                assert(!is_white(u[u.len() - 2]));
                assert(piece.len() == 0);
                assert(words_of(u) == words);
                assert(longer =~= seq![c]);
                assert(words.len() > 0);
                assert(joined(words_of(s), seq![' ']) == u.drop_last() + seq![' '] + longer);
                assert(joined(words_of(s), seq![' ']) =~= s);
            } else if u.len() > 0 {
                assert(piece.len() > 0);
                assert(words_of(u) == words.push(piece));
                assert(words.push(piece).drop_last() =~= words);
                assert(s =~= u.push(c));
                if words.len() > 0 {
                    let start = joined(words, seq![' ']) + seq![' '];
                    assert(u == start + piece);
                    assert(joined(words_of(s), seq![' ']) == start + longer);
                    assert(start + longer =~= (start + piece).push(c));
                } else {
                    assert(u == piece);
                    assert(joined(words_of(s), seq![' ']) == longer);
                }
            } else {
                assert(before =~= seq![Seq::<char>::empty()]);
                assert(front =~= Seq::<Seq<char>>::empty());
                reveal(Seq::filter);
                assert(words =~= Seq::<Seq<char>>::empty());
                assert(piece =~= Seq::<char>::empty());
                assert(longer =~= s);
                assert(words_of(s) =~= seq![s]);
            }
        }
    }
}

/// What holds no separator goes to the last piece.
pub proof fn lemma_split_append(s: Seq<char>, t: Seq<char>, f: spec_fn(char) -> bool)
    requires
        forall|i: int| 0 <= i < t.len() ==> !f(#[trigger] t[i]),
    ensures
        split_by(s, f).len() >= 1,
        split_by(s + t, f) == split_by(s, f).drop_last().push(split_by(s, f).last() + t),
    decreases t.len(),
{
    let before = split_by(s, f);
    lemma_split_nonempty(s, f);
    if t.len() == 0 {
        assert(s + t =~= s);
        assert(before.last() + t =~= before.last());
        assert(before =~= before.drop_last().push(before.last()));
    } else {
        let front = t.drop_last();
        assert forall|i: int| 0 <= i < front.len() implies !f(#[trigger] front[i]) by {
            assert(!f(t[i]));
        }
        lemma_split_append(s, front, f);
        assert((s + t).drop_last() =~= s + front);
        assert(!f(t[t.len() - 1]));
        let pieces = before.drop_last().push(before.last() + front);
        assert(pieces.drop_last() =~= before.drop_last());
        assert((before.last() + front).push(t.last()) =~= before.last() + t);
    }
}

/// The lines, each with a newline behind it.
pub open spec fn framed(lines: Seq<Seq<char>>) -> Seq<char>
    decreases lines.len(),
{
    if lines.len() == 0 {
        Seq::empty()
    } else {
        framed(lines.drop_last()) + lines.last() + seq!['\n']
    }
}

/// A text without newline, and without a carriage return at its end.
pub open spec fn is_one_line(s: Seq<char>) -> bool {
    &&& forall|i: int| 0 <= i < s.len() ==> #[trigger] s[i] != '\n'
    &&& s.len() > 0 ==> s.last() != '\r'
}

proof fn lemma_framed_pieces(lines: Seq<Seq<char>>)
    requires
        forall|k: int| 0 <= k < lines.len() ==> is_one_line(#[trigger] lines[k]),
    ensures
        split_by(framed(lines), only('\n')) == lines.push(Seq::<char>::empty()),
    decreases lines.len(),
{
    let f = only('\n');
    let none = Seq::<char>::empty();
    if lines.len() == 0 {
        assert(split_by(framed(lines), f) =~= lines.push(none));
    } else {
        let front = lines.drop_last();
        let line = lines.last();
        let start = framed(front);
        assert forall|k: int| 0 <= k < front.len() implies is_one_line(#[trigger] front[k]) by {
            assert(is_one_line(lines[k]));
        }
        assert(is_one_line(lines[lines.len() - 1]));
        lemma_framed_pieces(front);
        lemma_split_append(start, line, f);
        assert(front.push(none).drop_last() =~= front);
        assert(none + line =~= line);
        assert(framed(lines).drop_last() =~= start + line);
        assert(front.push(line) =~= lines);
    }
}

/// Lines that are framed come back as they were.
pub proof fn lemma_framed_lines(lines: Seq<Seq<char>>)
    requires
        forall|k: int| 0 <= k < lines.len() ==> is_one_line(#[trigger] lines[k]),
    ensures
        lines_of(framed(lines)) == lines,
{
    let pieces = lines.push(Seq::<char>::empty());
    lemma_framed_pieces(lines);
    assert(pieces.drop_last() =~= lines);
    assert forall|k: int| 0 <= k < lines.len() implies without_cr(#[trigger] lines[k]) == lines[k] by {
        assert(is_one_line(lines[k]));
    }
    assert(lines.map_values(|piece: Seq<char>| without_cr(piece)) =~= lines);
}

/// The lines, each with a newline behind it.
pub fn frame(lines: &Vec<String>) -> (r: String)
    ensures
        r@ == framed(lines.deep_view()),
{
    let ghost all = lines.deep_view();
    let mut r = String::new();
    let mut i: usize = 0;
    while i < lines.len()
        invariant
            all == lines.deep_view(),
            i <= lines@.len(),
            r@ == framed(all.take(i as int)),
        decreases lines@.len() - i,
    {
        let ghost before = r@;
        r.append(lines[i].as_str());
        r.push('\n');
        i = i + 1;
        proof {
            assert(all.take(i as int).drop_last() =~= all.take(i - 1));
            assert(all.take(i as int).last() == lines@[i - 1]@);
            assert(r@ =~= before + lines@[i - 1]@ + seq!['\n']);
        }
    }
    assert(all.take(i as int) =~= all);
    r
}

/// The separators of file paths, on any system.
pub open spec fn path_separator() -> spec_fn(char) -> bool {
    |c: char| c == '\\' || c == '/'
}

/// The last component of a file path.
pub fn last_component(s: &str) -> (r: String)
    ensures
        r@ == after_last(s@, path_separator()),
{
    let chars = chars_of(s);
    let mut from: usize = chars.len();
    while from > 0 && chars[from - 1] != '\\' && chars[from - 1] != '/'
        invariant
            from <= chars@.len(),
            forall|i: int| from <= i < chars@.len() ==> #[trigger] chars@[i] != '\\' && chars@[i] != '/',
        decreases from,
    {
        from = from - 1;
    }
    proof {
        lemma_after_last(s@, path_separator(), from as int);
        assert(s@.skip(from as int) =~= s@.subrange(from as int, s@.len() as int));
    }
    let to: usize = chars.len();
    string_of(&chars, from, to)
}

/// The first `limit` characters of `s`.
pub fn first_chars(s: &str, limit: usize) -> (r: String)
    ensures
        r@ == s@.take(if limit <= s@.len() { limit as int } else { s@.len() as int }),
{
    let chars = chars_of(s);
    let to: usize = if limit <= chars.len() { limit } else { chars.len() };
    assert(s@.take(to as int) =~= s@.subrange(0, to as int));
    string_of(&chars, 0, to)
}

// ------------------------------------------------------------------------- decimal numbers
/// The digit for a number below ten.
pub open spec fn digit_char(d: nat) -> char {
    (48 + d) as char
}

/// A number in decimal, without leading zeros.
pub open spec fn decimal(n: nat) -> Seq<char>
    decreases n,
{
    if n < 10 {
        seq![digit_char(n)]
    } else {
        decimal(n / 10).push(digit_char(n % 10))
    }
}

/// A number in decimal, without leading zeros.
pub fn decimal_text(n: u64) -> (r: String)
    ensures
        r@ == decimal(n as nat),
    decreases n,
{
    let d: u8 = (n % 10) as u8;
    let c: char = (48u8 + d) as char;
    let mut r = if n < 10 {
        String::new()
    } else {
        decimal_text(n / 10)
    };
    r.push(c);
    proof {
        assert(c == digit_char((n % 10) as nat));
        if n < 10 {
            assert(r@ =~= seq![digit_char(n as nat)]);
        }
    }
    r
}

/// Whether `c` is one of the ten ASCII digits.
pub open spec fn is_digit(c: char) -> bool {
    '0' <= c <= '9'
}

/// The number that a run of digits writes.
pub open spec fn decimal_value(s: Seq<char>) -> nat
    decreases s.len(),
{
    if s.len() == 0 {
        0
    } else {
        (decimal_value(s.drop_last()) * 10 + (s.last() as nat - 48)) as nat
    }
}

/// The number that `s` writes, if it is made of digits, has at least one, and fits in 16 bits.
pub open spec fn port_value(s: Seq<char>) -> Option<u16> {
    if s.len() > 0 && (forall|i: int| 0 <= i < s.len() ==> is_digit(#[trigger] s[i])) && decimal_value(s) <= u16::MAX {
        Some(decimal_value(s) as u16)
    } else {
        None
    }
}

proof fn lemma_value_grows(s: Seq<char>, i: int)
    requires
        0 <= i <= s.len(),
        forall|k: int| 0 <= k < s.len() ==> is_digit(#[trigger] s[k]),
    ensures
        decimal_value(s.take(i)) <= decimal_value(s),
    decreases s.len(),
{
    if i < s.len() {
        let t = s.drop_last();
        assert forall|k: int| 0 <= k < t.len() implies is_digit(#[trigger] t[k]) by {
            assert(is_digit(s[k]));
        }
        assert(is_digit(s[s.len() - 1]));
        lemma_value_grows(t, i);
        assert(t.take(i) =~= s.take(i));
    } else {
        assert(s.take(i) =~= s);
    }
}

/// Reads a port number in decimal.
pub fn parse_port(s: &str) -> (r: Option<u16>)
    ensures
        r == port_value(s@),
{
    let chars = chars_of(s);
    if chars.len() == 0 {
        return None;
    }
    let mut i: usize = 0;
    while i < chars.len()
        invariant
            chars@ == s@,
            i <= chars@.len(),
            forall|k: int| 0 <= k < i ==> is_digit(#[trigger] chars@[k]),
        decreases chars@.len() - i,
    {
        if !('0' <= chars[i] && chars[i] <= '9') {
            assert(!is_digit(s@[i as int]));
            return None;
        }
        i = i + 1;
    }
    let mut value: u32 = 0;
    let mut j: usize = 0;
    proof {
        assert(s@.take(0) =~= Seq::<char>::empty());
    }
    while j < chars.len()
        invariant
            chars@ == s@,
            j <= chars@.len(),
            forall|k: int| 0 <= k < s@.len() ==> is_digit(#[trigger] s@[k]),
            value == decimal_value(s@.take(j as int)),
            value <= u16::MAX,
        decreases chars@.len() - j,
    {
        assert(is_digit(s@[j as int]));
        let d: u32 = chars[j] as u32 - 48;
        value = value * 10 + d;
        j = j + 1;
        proof {
            assert(s@.take(j as int).drop_last() =~= s@.take(j - 1));
        }
        if value > 65535 {
            proof {
                lemma_value_grows(s@, j as int);
            }
            return None;
        }
    }
    assert(s@.take(j as int) =~= s@);
    Some(value as u16)
}

/// Writing a number in decimal and reading it back gives the number.
pub proof fn lemma_decimal_round_trip(n: nat)
    ensures
        decimal(n).len() > 0,
        forall|i: int| 0 <= i < decimal(n).len() ==> is_digit(#[trigger] decimal(n)[i]),
        decimal_value(decimal(n)) == n,
    decreases n,
{
    if n >= 10 {
        lemma_decimal_round_trip(n / 10);
        assert(decimal(n).drop_last() =~= decimal(n / 10));
        assert forall|i: int| 0 <= i < decimal(n).len() implies is_digit(#[trigger] decimal(n)[i]) by {
            if i < decimal(n / 10).len() {
                assert(decimal(n)[i] == decimal(n / 10)[i]);
            }
        }
    } else {
        assert(decimal(n).drop_last() =~= Seq::<char>::empty());
        assert(decimal_value(decimal(n).drop_last()) == 0);
    }
}

// -------------------------------------------------------------------------------- ordering
/// Order by characters, from the first on; the order of `str`.
pub open spec fn text_le(a: Seq<char>, b: Seq<char>) -> bool
    decreases a.len(),
{
    if a.len() == 0 {
        true
    } else if b.len() == 0 {
        false
    } else if a[0] == b[0] {
        text_le(a.drop_first(), b.drop_first())
    } else {
        a[0] < b[0]
    }
}

/// Whether `a` stands at or before `b` in the order of `str`.
pub fn not_after(a: &str, b: &str) -> (r: bool)
    ensures
        r == text_le(a@, b@),
{
    let x = chars_of(a);
    let y = chars_of(b);
    let mut i: usize = 0;
    proof {
        assert(a@.skip(0) =~= a@);
        assert(b@.skip(0) =~= b@);
    }
    while i < x.len() && i < y.len() && x[i] == y[i]
        invariant
            x@ == a@,
            y@ == b@,
            i <= x@.len(),
            i <= y@.len(),
            text_le(a@, b@) == text_le(a@.skip(i as int), b@.skip(i as int)),
        decreases x@.len() - i,
    {
        proof {
            assert(a@.skip(i as int).drop_first() =~= a@.skip(i + 1));
            assert(b@.skip(i as int).drop_first() =~= b@.skip(i + 1));
        }
        i = i + 1;
    }
    if i == x.len() {
        true
    } else if i == y.len() {
        false
    } else {
        x[i] < y[i]
    }
}

/// The order of text is total and transitive, and two texts each at or before the other are the same.
pub proof fn lemma_text_order(a: Seq<char>, b: Seq<char>, c: Seq<char>)
    ensures
        text_le(a, a),
        text_le(a, b) || text_le(b, a),
        text_le(a, b) && text_le(b, c) ==> text_le(a, c),
        text_le(a, b) && text_le(b, a) ==> a == b,
    decreases a.len() + b.len() + c.len(),
{
    let (a1, b1, c1) = (a.drop_first(), b.drop_first(), c.drop_first());
    if a.len() > 0 {
        lemma_text_order(a1, if b.len() > 0 { b1 } else { b }, if c.len() > 0 { c1 } else { c });
        if b.len() > 0 && a[0] == b[0] && a1 == b1 {
            assert(a =~= seq![a[0]] + a1);
            assert(b =~= seq![b[0]] + b1);
        }
    } else if b.len() == 0 {
        assert(a =~= b);
    }
}

// ------------------------------------------------------------------------------------ laws
/// White space is what Unicode says it is, by the numbers of the characters.
pub proof fn law_white_space_by_number(c: char)
    ensures
        is_white(c) <==> ({
            let n = c as int;
            9 <= n <= 13 || n == 32 || n == 133 || n == 160 || n == 5760 || 8192 <= n <= 8202 || n == 8232 || n == 8233
                || n == 8239 || n == 8287 || n == 12288
        }),
{
}

proof fn lemma_strip_start_at(s: Seq<char>, f: spec_fn(char) -> bool) -> (i: int)
    ensures
        0 <= i <= s.len(),
        strip_start(s, f) == s.skip(i),
        forall|k: int| 0 <= k < i ==> f(#[trigger] s[k]),
        i < s.len() ==> !f(s[i]),
    decreases s.len(),
{
    if s.len() > 0 && f(s[0]) {
        let rest = s.drop_first();
        let i = lemma_strip_start_at(rest, f);
        assert forall|k: int| 0 <= k < i + 1 implies f(#[trigger] s[k]) by {
            if k > 0 {
                assert(f(rest[k - 1]));
            }
        }
        assert(rest.skip(i) =~= s.skip(i + 1));
        i + 1
    } else {
        assert(s.skip(0) =~= s);
        0
    }
}

proof fn lemma_strip_end_at(s: Seq<char>, f: spec_fn(char) -> bool) -> (j: int)
    ensures
        0 <= j <= s.len(),
        strip_end(s, f) == s.take(j),
        forall|k: int| j <= k < s.len() ==> f(#[trigger] s[k]),
        j > 0 ==> !f(s[j - 1]),
    decreases s.len(),
{
    if s.len() > 0 && f(s.last()) {
        let rest = s.drop_last();
        let j = lemma_strip_end_at(rest, f);
        assert forall|k: int| j <= k < s.len() implies f(#[trigger] s[k]) by {
            if k < rest.len() {
                assert(f(rest[k]));
            }
        }
        assert(rest.take(j) =~= s.take(j));
        j
    } else {
        assert(s.take(s.len() as int) =~= s);
        s.len() as int
    }
}

/// Trimming drops the white space at both ends and nothing else, and a text is blank exactly where it
/// holds nothing but white space.
pub proof fn law_trimming_drops_the_white_ends(s: Seq<char>)
    ensures
        exists|i: int, j: int|
            #![trigger s.subrange(i, j)]
            {
                &&& 0 <= i <= j <= s.len()
                &&& trimmed(s) == s.subrange(i, j)
                &&& forall|k: int| 0 <= k < i ==> is_white(#[trigger] s[k])
                &&& forall|k: int| j <= k < s.len() ==> is_white(#[trigger] s[k])
                &&& i < j ==> !is_white(s[i]) && !is_white(s[j - 1])
            },
        is_blank(s) <==> (forall|k: int| 0 <= k < s.len() ==> is_white(#[trigger] s[k])),
{
    let f = any_white();
    let i = lemma_strip_start_at(s, f);
    let rest = s.skip(i);
    let j = lemma_strip_end_at(rest, f) + i;
    assert(rest.take(j - i) =~= s.subrange(i, j));
    assert forall|k: int| j <= k < s.len() implies is_white(#[trigger] s[k]) by {
        assert(f(rest[k - i]));
    }
    assert forall|k: int| 0 <= k < i implies is_white(#[trigger] s[k]) by {
        assert(f(s[k]));
    }
    if i < j {
        assert(!f(rest[j - i - 1]));
        assert(rest[j - i - 1] == s[j - 1]);
        assert(!f(s[i]));
    }
    assert(trimmed(s) == s.subrange(i, j));
}

/// Stripping a character off the end leaves a text that does not end in it, and what is gone is nothing
/// but that character; and so at the start.
pub proof fn law_stripping_drops_one_character(s: Seq<char>, x: char)
    ensures
        exists|j: int|
            #![trigger s.take(j)]
            0 <= j <= s.len() && strip_end(s, only(x)) == s.take(j) && (j > 0 ==> s[j - 1] != x) && forall|k: int|
                j <= k < s.len() ==> #[trigger] s[k] == x,
        exists|i: int|
            #![trigger s.skip(i)]
            0 <= i <= s.len() && strip_start(s, only(x)) == s.skip(i) && (i < s.len() ==> s[i] != x) && forall|k: int|
                0 <= k < i ==> #[trigger] s[k] == x,
{
    let f = only(x);
    let j = lemma_strip_end_at(s, f);
    let i = lemma_strip_start_at(s, f);
    assert forall|k: int| j <= k < s.len() implies #[trigger] s[k] == x by {
        assert(f(s[k]));
    }
    assert forall|k: int| 0 <= k < i implies #[trigger] s[k] == x by {
        assert(f(s[k]));
    }
    assert(j > 0 ==> !f(s[j - 1]));
    assert(i < s.len() ==> !f(s[i]));
    assert(strip_end(s, only(x)) == s.take(j));
    assert(strip_start(s, only(x)) == s.skip(i));
}

/// Two texts are the same in letters of any case where they are equally long and differ, if at all, in
/// that a letter from A to Z stands in one where its small letter stands in the other.
pub proof fn law_letters_of_any_case(a: Seq<char>, b: Seq<char>)
    ensures
        same_letters(a, b) <==> a.len() == b.len() && forall|i: int|
            #![trigger a[i]]
            #![trigger b[i]]
            0 <= i < a.len() ==> {
                ||| a[i] == b[i]
                ||| 65 <= a[i] as int <= 90 && b[i] as int == a[i] as int + 32
                ||| 65 <= b[i] as int <= 90 && a[i] as int == b[i] as int + 32
            },
        lowered(a).len() == a.len(),
        forall|i: int|
            0 <= i < a.len() ==> (#[trigger] lowered(a)[i]) as int == if 65 <= a[i] as int <= 90 {
                a[i] as int + 32
            } else {
                a[i] as int
            },
{
    let (x, y) = (lowered(a), lowered(b));
    if same_letters(a, b) {
        assert(x.len() == y.len());
        assert forall|i: int|
            #![trigger a[i]]
            #![trigger b[i]]
            0 <= i < a.len() implies {
            ||| a[i] == b[i]
            ||| 65 <= a[i] as int <= 90 && b[i] as int == a[i] as int + 32
            ||| 65 <= b[i] as int <= 90 && a[i] as int == b[i] as int + 32
        } by {
            assert(x[i] == y[i]);
        }
    } else if a.len() == b.len() && forall|i: int|
        #![trigger a[i]]
        #![trigger b[i]]
        0 <= i < a.len() ==> {
            ||| a[i] == b[i]
            ||| 65 <= a[i] as int <= 90 && b[i] as int == a[i] as int + 32
            ||| 65 <= b[i] as int <= 90 && a[i] as int == b[i] as int + 32
        } {
        assert forall|i: int| 0 <= i < x.len() implies x[i] == y[i] by {
            assert(a[i] == a[i]);
        }
        assert(x =~= y);
    }
}

/// Texts are ordered as in a dictionary by the numbers of their characters: at the first place where they
/// differ the smaller character decides, and where one ends there, the shorter one comes first.
pub proof fn law_texts_are_ordered_by_the_first_difference(a: Seq<char>, b: Seq<char>, k: int)
    requires
        0 <= k <= a.len(),
        k <= b.len(),
        forall|i: int| 0 <= i < k ==> a[i] == b[i],
        k < a.len() && k < b.len() ==> a[k] != b[k],
    ensures
        text_le(a, b) <==> k == a.len() || (k < b.len() && a[k] < b[k]),
    decreases k,
{
    if k > 0 {
        let (a1, b1) = (a.drop_first(), b.drop_first());
        assert(a[0] == b[0]);
        assert forall|i: int| 0 <= i < k - 1 implies a1[i] == b1[i] by {
            assert(a[i + 1] == b[i + 1]);
        }
        law_texts_are_ordered_by_the_first_difference(a1, b1, k - 1);
    }
}

/// A text is cut into lines at its newlines; a carriage return before a newline belongs to it, and what
/// follows the last newline is a line where it is not empty.
pub proof fn law_lines_end_at_newlines(lines: Seq<Seq<char>>, last: Seq<char>)
    requires
        forall|k: int| 0 <= k < lines.len() ==> is_one_line(#[trigger] lines[k]),
        forall|i: int| 0 <= i < last.len() ==> #[trigger] last[i] != '\n',
        last.len() > 0,
    ensures
        lines_of(framed(lines)) == lines,
        lines_of(framed(lines) + last) == lines.push(last),
        lines_of(framed(lines) + last + seq!['\n']) == lines.push(without_cr(last)),
        lines_of(framed(lines) + last + seq!['\r', '\n']) == lines.push(last),
{
    let f = only('\n');
    let none = Seq::<char>::empty();
    let text = framed(lines);
    let keep = |piece: Seq<char>| without_cr(piece);
    lemma_framed_lines(lines);
    lemma_framed_pieces(lines);
    lemma_split_append(text, last, f);
    assert(lines.push(none).drop_last() =~= lines);
    assert(none + last =~= last);
    assert(lines.push(last).drop_last() =~= lines);
    assert(lines.map_values(keep) =~= lines) by {
        assert forall|k: int| 0 <= k < lines.len() implies without_cr(#[trigger] lines[k]) == lines[k] by {
            assert(is_one_line(lines[k]));
        }
    }
    let ended = text + last + seq!['\n'];
    assert(ended.drop_last() =~= text + last);
    assert(split_by(ended, f) == lines.push(last).push(none));
    assert(lines.push(last).push(none).drop_last() =~= lines.push(last));
    assert(lines.push(last).map_values(keep) =~= lines.push(without_cr(last)));
    let returned = last.push('\r');
    let broken = text + last + seq!['\r', '\n'];
    lemma_split_append(text, returned, f);
    assert(none + returned =~= returned);
    assert(broken.drop_last() =~= text + returned);
    assert(split_by(broken, f) == lines.push(returned).push(none));
    assert(lines.push(returned).push(none).drop_last() =~= lines.push(returned));
    assert(without_cr(returned) =~= last);
    assert(lines.push(returned).map_values(keep) =~= lines.push(last));
}

/// The last component of a path follows its last separator, and is all of it where there is none.
pub proof fn law_last_component_follows_the_last_separator(s: Seq<char>)
    ensures
        ({
            let last = after_last(s, path_separator());
            &&& last.is_suffix_of(s)
            &&& forall|i: int| 0 <= i < last.len() ==> #[trigger] last[i] != '/' && last[i] != '\\'
            &&& last.len() < s.len() ==> s[s.len() - last.len() - 1] == '/' || s[s.len() - last.len() - 1] == '\\'
        }),
    decreases s.len(),
{
    let f = path_separator();
    let last = after_last(s, f);
    if s.len() > 0 && !f(s.last()) {
        let rest = s.drop_last();
        law_last_component_follows_the_last_separator(rest);
        let before = after_last(rest, f);
        assert(last == before.push(s.last()));
        assert(before =~= rest.subrange(rest.len() - before.len(), rest.len() as int));
        assert(last =~= s.subrange(s.len() - last.len(), s.len() as int));
    } else {
        assert(last =~= s.subrange(s.len() as int, s.len() as int));
    }
}

/// Whether every character of `p` stands in `s` in turn, from place `i` on.
pub open spec fn stands_at(p: Seq<char>, s: Seq<char>, i: int) -> bool {
    &&& 0 <= i
    &&& i + p.len() <= s.len()
    &&& forall|k: int| 0 <= k < p.len() ==> s[i + k] == #[trigger] p[k]
}

/// A text occurs in another where every character of it stands there in turn, from some place on.
pub proof fn law_texts_occur_character_by_character(p: Seq<char>, s: Seq<char>)
    ensures
        occurs_in(p, s) <==> exists|i: int| stands_at(p, s, i),
{
    if occurs_in(p, s) {
        let i = choose|i: int| occurs_at(s, p, i);
        assert forall|k: int| 0 <= k < p.len() implies s[i + k] == #[trigger] p[k] by {
            assert(s.subrange(i, i + p.len())[k] == p[k]);
        }
        assert(stands_at(p, s, i));
    }
    if exists|i: int| stands_at(p, s, i) {
        let i = choose|i: int| stands_at(p, s, i);
        assert(s.subrange(i, i + p.len()) =~= p);
        assert(occurs_at(s, p, i));
    }
}

/// A number is written in digits, without a zero before it, and is the value of those digits.
pub proof fn law_numbers_are_written_in_digits(n: nat)
    ensures
        decimal(n).len() > 0,
        forall|i: int| 0 <= i < decimal(n).len() ==> '0' <= #[trigger] decimal(n)[i] <= '9',
        decimal_value(decimal(n)) == n,
        n > 0 ==> decimal(n)[0] != '0',
    decreases n,
{
    lemma_decimal_round_trip(n);
    assert forall|i: int| 0 <= i < decimal(n).len() implies '0' <= #[trigger] decimal(n)[i] <= '9' by {
        assert(is_digit(decimal(n)[i]));
    }
    if n >= 10 {
        law_numbers_are_written_in_digits(n / 10);
    }
}

/// The value of digits: each one further to the right counts a tenth of the one before it.
pub proof fn law_digits_have_values(s: Seq<char>, d: char)
    requires
        '0' <= d <= '9',
    ensures
        decimal_value(s.push(d)) == 10 * decimal_value(s) + (d as int - 48),
        decimal_value(Seq::empty()) == 0,
        port_value(s) matches Some(port) ==> port == decimal_value(s) && s.len() > 0 && forall|i: int|
            0 <= i < s.len() ==> '0' <= #[trigger] s[i] <= '9',
        s.len() > 0 && decimal_value(s) <= 65535 && (forall|i: int| 0 <= i < s.len() ==> '0' <= #[trigger] s[i] <= '9')
            ==> port_value(s) is Some,
{
    assert(s.push(d).drop_last() =~= s);
    if port_value(s) is Some {
        assert forall|i: int| 0 <= i < s.len() implies '0' <= #[trigger] s[i] <= '9' by {
            assert(is_digit(s[i]));
        }
    }
    if forall|i: int| 0 <= i < s.len() ==> '0' <= #[trigger] s[i] <= '9' {
        assert forall|i: int| 0 <= i < s.len() implies is_digit(#[trigger] s[i]) by {
            assert('0' <= s[i] <= '9');
        }
    }
}

/// Words stand between white space: what stands before a white character and what stands behind it are
/// taken apart each on its own, and a text without white space is one word.
pub proof fn law_words_stand_between_white_space(a: Seq<char>, white: char, b: Seq<char>)
    requires
        is_white(white),
    ensures
        words_of(a.push(white) + b) == words_of(a) + words_of(b),
        a.len() > 0 && (forall|i: int| 0 <= i < a.len() ==> !is_white(#[trigger] a[i])) ==> words_of(a) == seq![a],
        words_of(Seq::empty()) == Seq::<Seq<char>>::empty(),
{
    let f = any_white();
    let long = |piece: Seq<char>| piece.len() > 0;
    lemma_split_at(a, white, b, f);
    Seq::filter_distributes_over_add(split_by(a, f), split_by(b, f), long);
    let none = Seq::<Seq<char>>::empty();
    assert(none.filter(long) =~= none) by {
        reveal(Seq::filter);
    }
    assert(none.push(Seq::<char>::empty()) =~= seq![Seq::<char>::empty()]);
    crate::order::lemma_filter_push(none, long, Seq::<char>::empty());
    if a.len() > 0 && forall|i: int| 0 <= i < a.len() ==> !is_white(#[trigger] a[i]) {
        lemma_split_append(Seq::empty(), a, f);
        assert(Seq::<char>::empty() + a =~= a);
        assert(split_by(a, f) =~= none.push(a));
        crate::order::lemma_filter_push(none, long, a);
        assert(words_of(a) =~= seq![a]);
    }
}

proof fn lemma_split_at(a: Seq<char>, c: char, b: Seq<char>, f: spec_fn(char) -> bool)
    requires
        f(c),
    ensures
        split_by(a.push(c) + b, f) == split_by(a, f) + split_by(b, f),
    decreases b.len(),
{
    let whole = a.push(c) + b;
    lemma_split_nonempty(b, f);
    if b.len() == 0 {
        assert(whole =~= a.push(c));
        assert(a.push(c).drop_last() =~= a);
        assert(split_by(whole, f) =~= split_by(a, f) + split_by(b, f));
    } else {
        let rest = b.drop_last();
        lemma_split_at(a, c, rest, f);
        lemma_split_nonempty(rest, f);
        assert(whole.drop_last() =~= a.push(c) + rest);
        assert(whole.last() == b.last());
        let before = split_by(rest, f);
        assert((split_by(a, f) + before).drop_last() =~= split_by(a, f) + before.drop_last());
        assert(split_by(whole, f) =~= split_by(a, f) + split_by(b, f));
    }
}

/// Pieces are joined with the separator between any two of them.
pub proof fn law_pieces_are_joined(pieces: Seq<Seq<char>>, piece: Seq<char>, separator: Seq<char>)
    ensures
        joined(Seq::empty(), separator) == Seq::<char>::empty(),
        joined(pieces.push(piece), separator) == if pieces.len() == 0 {
            piece
        } else {
            joined(pieces, separator) + separator + piece
        },
{
    assert(pieces.push(piece).drop_last() =~= pieces);
}

} // verus!
