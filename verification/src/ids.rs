//! Trade identifiers: 128-bit values written as hyphenated UUID text.

use vstd::prelude::*;
use uuid::Uuid;

verus! {

/// The lower-case hexadecimal digit of `n` (meant for `n < 16`).
pub open spec fn hex_char(n: nat) -> char {
    if n < 10 {
        ((n + 48) as u8) as char
    } else {
        ((n + 87) as u8) as char
    }
}

/// The low `k` hexadecimal digits of `v`, most significant first.
pub open spec fn hex_digits(v: nat, k: nat) -> Seq<char>
    decreases k,
{
    if k == 0 {
        seq![]
    } else {
        hex_digits(v / 16, (k - 1) as nat).push(hex_char(v % 16))
    }
}

/// The hyphenated text of an identifier: its 32 hexadecimal digits, most
/// significant first, in groups of 8, 4, 4, 4 and 12 joined by `-`.
pub open spec fn uuid_text(id: u128) -> Seq<char> {
    let h = hex_digits(id as nat, 32);
    h.subrange(0, 8) + seq!['-'] + h.subrange(8, 12) + seq!['-'] + h.subrange(12, 16) + seq!['-']
        + h.subrange(16, 20) + seq!['-'] + h.subrange(20, 32)
}

/// The identifier that `uuid::Uuid::parse_str` reads from a text, if any.
pub uninterp spec fn uuid_parse(text: Seq<char>) -> Option<u128>;

/// A version-4 identifier of the RFC 4122 variant: its version digit (bits
/// 76 to 79) is 4 and its two variant bits (63 and 62) are `10`.
pub open spec fn is_random_uuid(id: u128) -> bool {
    &&& id & 0xf000_0000_0000_0000_0000u128 == 0x4000_0000_0000_0000_0000u128
    &&& id & 0xc000_0000_0000_0000u128 == 0x8000_0000_0000_0000u128
}

/// `uuid::Uuid::new_v4`: a random version-4 identifier, as its 128-bit value.
/// Claimed only that its version and variant bits are set as the crate's
/// source sets them (random bits masked, then `0x4000_8000_0000_0000_0000`
/// added); the other bits come from the system's random source and are left
/// unsaid.
#[verifier::external_body]
fn random_uuid() -> (id: u128)
    ensures
        is_random_uuid(id),
{
    Uuid::new_v4().as_u128()
}

/// `uuid::Uuid`'s `Display` (through `to_string`) of `Uuid::from_u128(id)`:
/// claimed to be the lower-case hyphenated text of `id`, as the crate's
/// documentation and formatter show.
#[verifier::external_body]
fn uuid_display(id: u128) -> (s: String)
    ensures
        s@ == uuid_text(id),
{
    Uuid::from_u128(id).to_string()
}

/// `uuid::Uuid::parse_str` (the `FromStr` of `Uuid`), as a 128-bit value:
/// claimed to be a function of the text (named `uuid_parse`), and to read the
/// hyphenated text of any identifier back as that identifier. The other
/// forms that the crate accepts (simple, braced, URN, upper case) are left
/// unsaid.
#[verifier::external_body]
fn uuid_from_str(s: &str) -> (r: Option<u128>)
    ensures
        r == uuid_parse(s@),
        forall|id: u128| #[trigger] uuid_text(id) == s@ ==> r == Some(id),
{
    match Uuid::parse_str(s) {
        Ok(u) => Some(u.as_u128()),
        Err(_) => None,
    }
}

/// A fresh random trade identifier: a version-4 UUID value, random but for
/// its version and variant bits.
pub fn new_trade_id() -> (id: u128)
    ensures
        is_random_uuid(id),
{
    random_uuid()
}

/// The text of a trade identifier (see `uuid_text`).
pub fn trade_id_text(id: u128) -> (s: String)
    ensures
        s@ == uuid_text(id),
{
    uuid_display(id)
}

/// Reads a trade identifier from a text, as `uuid::Uuid` parses it.
pub fn parse_trade_id(s: &str) -> (r: Option<u128>)
    ensures
        r == uuid_parse(s@),
        forall|id: u128| #[trigger] uuid_text(id) == s@ ==> r == Some(id),
{
    uuid_from_str(s)
}

proof fn lemma_hex_digits(v: nat, k: nat)
    ensures
        hex_digits(v, k).len() == k,
        forall|i: int|
            0 <= i < k ==> {
                let c = #[trigger] hex_digits(v, k)[i];
                &&& c != ':'
                &&& c != '\n'
                &&& c != '\r'
            },
    decreases k,
{
    if k > 0 {
        lemma_hex_digits(v / 16, (k - 1) as nat);
        let s = hex_digits(v, k);
        let t = hex_digits(v / 16, (k - 1) as nat);
        assert forall|i: int| 0 <= i < k implies {
            let c = #[trigger] s[i];
            &&& c != ':'
            &&& c != '\n'
            &&& c != '\r'
        } by {
            if i < k - 1 {
                assert(s[i] == t[i]);
            } else {
                assert(s[i] == hex_char(v % 16));
            }
        }
    }
}

/// The text of an identifier holds no `:` or line break and does not end
/// with a carriage return.
pub proof fn lemma_uuid_text_plain(id: u128)
    ensures
        !uuid_text(id).contains(':'),
        !uuid_text(id).contains('\n'),
        uuid_text(id).len() == 36,
        uuid_text(id).last() != '\r',
{
    let h = hex_digits(id as nat, 32);
    lemma_hex_digits(id as nat, 32);
    let t = uuid_text(id);
    assert(t.len() == 36);
    assert forall|i: int| 0 <= i < t.len() implies t[i] != ':' && t[i] != '\n' && t[i] != '\r' by {
        if i < 8 {
            assert(t[i] == h[i]);
        } else if i == 8 || i == 13 || i == 18 || i == 23 {
        } else if i < 13 {
            assert(t[i] == h[i - 1]);
        } else if i < 18 {
            assert(t[i] == h[i - 2]);
        } else if i < 23 {
            assert(t[i] == h[i - 3]);
        } else {
            assert(t[i] == h[i - 4]);
        }
    }
    assert(t.last() == t[35]);
}

} // verus!
