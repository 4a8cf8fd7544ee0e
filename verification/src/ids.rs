//! Random identifiers.

use vstd::prelude::*;

verus! {

/// A lower-case hexadecimal digit.
pub open spec fn is_hex(c: char) -> bool {
    '0' <= c <= '9' || 'a' <= c <= 'f'
}

/// The 32 hexadecimal digits of a random UUID (version 4).
pub open spec fn is_compact_uuid(s: Seq<char>) -> bool {
    &&& s.len() == 32
    &&& forall|i: int| 0 <= i < 32 ==> is_hex(#[trigger] s[i])
    &&& s[12] == '4'
    &&& s[16] == '8' || s[16] == '9' || s[16] == 'a' || s[16] == 'b'
}

/// A random UUID (version 4) in groups of 8, 4, 4, 4 and 12 hexadecimal digits.
pub open spec fn is_uuid(s: Seq<char>) -> bool {
    &&& s.len() == 36
    &&& s[8] == '-' && s[13] == '-' && s[18] == '-' && s[23] == '-'
    &&& forall|i: int|
        0 <= i < 36 && i != 8 && i != 13 && i != 18 && i != 23 ==> is_hex(#[trigger] s[i])
    &&& s[14] == '4'
    &&& s[19] == '8' || s[19] == '9' || s[19] == 'a' || s[19] == 'b'
}

/// Draws a UUID with `uuid::Uuid::new_v4` and writes it without hyphens. Claimed: the shape of the
/// text, whatever the draw. That two draws differ is not claimed.
#[verifier::external_body]
fn new_compact_uuid() -> (text: String)
    ensures
        is_compact_uuid(text@),
{
    uuid::Uuid::new_v4().simple().to_string()
}

/// Draws a UUID with `uuid::Uuid::new_v4` and writes it with hyphens. Claimed: the shape of the
/// text, whatever the draw. That two draws differ is not claimed.
#[verifier::external_body]
fn new_uuid() -> (text: String)
    ensures
        is_uuid(text@),
{
    uuid::Uuid::new_v4().to_string()
}

/// A key for local access: the mark `rd_local_` and a random UUID.
pub open spec fn is_access_key(s: Seq<char>) -> bool {
    &&& "rd_local_"@.is_prefix_of(s)
    &&& is_compact_uuid(s.skip("rd_local_"@.len() as int))
}

/// A new key for local access.
pub fn fresh_access_key() -> (key: String)
    ensures
        is_access_key(key@),
{
    let tail = new_compact_uuid();
    let mut key = "rd_local_".to_owned();
    key.append(tail.as_str());
    proof {
        let mark = "rd_local_"@;
        assert(key@.subrange(0, mark.len() as int) =~= mark);
        assert(key@.skip(mark.len() as int) =~= tail@);
    }
    key
}

/// A new identifier for a provider or a log entry.
pub fn fresh_id() -> (id: String)
    ensures
        is_uuid(id@),
{
    new_uuid()
}

} // verus!
