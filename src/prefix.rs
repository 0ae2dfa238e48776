//! Vanity prefixes: which prefixes are accepted, and when an address text
//! begins with one of them.
//!
//! Text is compared as its UTF-8 bytes, the way `str::starts_with` compares.

use vstd::prelude::*;
use vstd::utf8::encode_utf8;

verus! {

/// `b` begins with the bytes of `"bc1q"`, the start of every native segwit
/// (P2WPKH) address on the main network.
pub open spec fn starts_bech32_p2wpkh(b: Seq<u8>) -> bool {
    b.len() >= 4 && b[0] == 0x62u8 && b[1] == 0x63u8 && b[2] == 0x31u8 && b[3] == 0x71u8
}

/// The bytes of `'1'`, `'b'`, `'i'` and `'o'`, which the bech32 alphabet leaves out.
pub open spec fn is_excluded_byte(c: u8) -> bool {
    c == 0x31u8 || c == 0x62u8 || c == 0x69u8 || c == 0x6fu8
}

/// Why the prefix with UTF-8 bytes `b` is refused, or `None` where it is accepted.
/// The tests are made in this order, the first that fails giving the message.
pub open spec fn prefix_refusal(b: Seq<u8>) -> Option<Seq<char>> {
    if !starts_bech32_p2wpkh(b) {
        Some("Prefix needs to start with \"bc1q\""@)
    } else if b.len() <= 4 {
        Some("Prefix is too short"@)
    } else if b.len() >= 25 {
        Some("Prefix is too long"@)
    } else if exists|k: int| 4 <= k < b.len() && is_excluded_byte(b[k]) {
        Some("Prefix can't have the characters '1', 'b', 'i' or 'o'"@)
    } else {
        None
    }
}

/// Checks that `prefix` can begin a bech32 P2WPKH address on the main network:
/// it starts with `"bc1q"`, is 5 to 24 bytes long, and holds none of `'1'`, `'b'`,
/// `'i'`, `'o'` after those four characters.
pub fn check_prefix(prefix: String) -> (r: Result<(), String>)
    ensures
        r is Ok <==> prefix_refusal(encode_utf8(prefix@)) is None,
        r matches Err(e) ==> prefix_refusal(encode_utf8(prefix@)) == Some(e@),
{
    let b = prefix.as_str().as_bytes();
    let ghost bytes = encode_utf8(prefix@);
    assert(b@ == bytes);
    if !(b.len() >= 4 && b[0] == 0x62u8 && b[1] == 0x63u8 && b[2] == 0x31u8 && b[3] == 0x71u8) {
        return Err("Prefix needs to start with \"bc1q\"".to_owned());
    }
    if b.len() <= 4 {
        return Err("Prefix is too short".to_owned());
    }
    if b.len() >= 25 {
        return Err("Prefix is too long".to_owned());
    }
    let mut k: usize = 4;
    while k < b.len()
        invariant
            4 <= k <= b@.len(),
            b@ == bytes,
            bytes == encode_utf8(prefix@),
            starts_bech32_p2wpkh(bytes),
            4 < bytes.len() < 25,
            forall|j: int| 4 <= j < k ==> !is_excluded_byte(bytes[j]),
        decreases b@.len() - k,
    {
        let c = b[k];
        if c == 0x31u8 || c == 0x62u8 || c == 0x69u8 || c == 0x6fu8 {
            assert(is_excluded_byte(bytes[k as int]));
            return Err("Prefix can't have the characters '1', 'b', 'i' or 'o'".to_owned());
        }
        k += 1;
    }
    Ok(())
}

/// `text` begins with `prefix`, compared as UTF-8 bytes.
pub open spec fn starts_with(text: Seq<char>, prefix: Seq<char>) -> bool {
    encode_utf8(prefix).is_prefix_of(encode_utf8(text))
}

/// `text` begins with at least one of `prefixes`.
pub open spec fn matches_any(text: Seq<char>, prefixes: Seq<&str>) -> bool {
    exists|j: int| 0 <= j < prefixes.len() && starts_with(text, prefixes[j]@)
}

/// The UTF-8 encoding of joined text is the joined encodings.
pub proof fn lemma_encode_utf8_concat(a: Seq<char>, b: Seq<char>)
    ensures
        encode_utf8(a + b) == encode_utf8(a) + encode_utf8(b),
    decreases a.len(),
{
    if a.len() == 0 {
        assert(a + b =~= b);
        assert(encode_utf8(a) + encode_utf8(b) =~= encode_utf8(b));
    } else {
        lemma_encode_utf8_concat(a.drop_first(), b);
        assert((a + b).drop_first() =~= a.drop_first() + b);
        assert((a + b)[0] == a[0]);
        let head = vstd::utf8::encode_scalar(a[0] as u32);
        assert(head + (encode_utf8(a.drop_first()) + encode_utf8(b)) =~= (head + encode_utf8(
            a.drop_first(),
        )) + encode_utf8(b));
    }
}

/// A prefix made of the first `k` characters of `text` matches `text`.
pub proof fn lemma_leading_part_matches(text: Seq<char>, prefixes: Seq<&str>, j: int, k: int)
    requires
        0 <= j < prefixes.len(),
        0 <= k <= text.len(),
        prefixes[j]@ == text.subrange(0, k),
    ensures
        matches_any(text, prefixes),
{
    let head = text.subrange(0, k);
    let rest = text.subrange(k, text.len() as int);
    assert(head + rest =~= text);
    lemma_encode_utf8_concat(head, rest);
    let e = encode_utf8(head);
    assert(encode_utf8(text).subrange(0, e.len() as int) =~= e);
    assert(starts_with(text, prefixes[j]@));
}

/// Whether the bytes `text` begin with the bytes `prefix`.
fn bytes_start_with(text: &[u8], prefix: &[u8]) -> (r: bool)
    ensures
        r == prefix@.is_prefix_of(text@),
{
    if prefix.len() > text.len() {
        return false;
    }
    let mut k: usize = 0;
    while k < prefix.len()
        invariant
            k <= prefix@.len() <= text@.len(),
            forall|j: int| 0 <= j < k ==> prefix@[j] == text@[j],
        decreases prefix@.len() - k,
    {
        if prefix[k] != text[k] {
            assert(prefix@[k as int] != text@.subrange(0, prefix@.len() as int)[k as int]);
            return false;
        }
        k += 1;
    }
    assert(prefix@ =~= text@.subrange(0, prefix@.len() as int));
    true
}

/// Whether `address` begins with one of `prefixes`; the first that fits ends the scan.
pub fn matches_any_prefix(address: &str, prefixes: &[&str]) -> (r: bool)
    ensures
        r == matches_any(address@, prefixes@),
{
    let text = address.as_bytes();
    let mut j: usize = 0;
    while j < prefixes.len()
        invariant
            j <= prefixes@.len(),
            text@ == encode_utf8(address@),
            forall|m: int| 0 <= m < j ==> !starts_with(address@, #[trigger] prefixes@[m]@),
        decreases prefixes@.len() - j,
    {
        let p: &str = prefixes[j];
        if bytes_start_with(text, p.as_bytes()) {
            return true;
        }
        j += 1;
    }
    false
}

} // verus!
