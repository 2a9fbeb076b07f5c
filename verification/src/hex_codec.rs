use vstd::prelude::*;

verus! {

/// Lowercase hexadecimal digit for a nibble value below 16.
pub open spec fn hex_digit(n: u8) -> char {
    if n == 0 {
        '0'
    } else if n == 1 {
        '1'
    } else if n == 2 {
        '2'
    } else if n == 3 {
        '3'
    } else if n == 4 {
        '4'
    } else if n == 5 {
        '5'
    } else if n == 6 {
        '6'
    } else if n == 7 {
        '7'
    } else if n == 8 {
        '8'
    } else if n == 9 {
        '9'
    } else if n == 10 {
        'a'
    } else if n == 11 {
        'b'
    } else if n == 12 {
        'c'
    } else if n == 13 {
        'd'
    } else if n == 14 {
        'e'
    } else {
        'f'
    }
}

/// Lowercase hexadecimal rendering of a byte string, two digits per byte,
/// most significant nibble first.
pub open spec fn hex_of(b: Seq<u8>) -> Seq<char>
    decreases b.len(),
{
    if b.len() == 0 {
        Seq::<char>::empty()
    } else {
        seq![hex_digit(b.first() / 16), hex_digit(b.first() % 16)] + hex_of(b.drop_first())
    }
}

/// True for the characters the decoder accepts: digits and letters of either case.
pub open spec fn is_hex_char(c: char) -> bool {
    ('0' <= c && c <= '9') || ('a' <= c && c <= 'f') || ('A' <= c && c <= 'F')
}

/// Value of a single hexadecimal digit character.
pub open spec fn hex_val(c: char) -> u8 {
    if '0' <= c && c <= '9' {
        (c as u8 - 48) as u8
    } else if 'a' <= c && c <= 'f' {
        (c as u8 - 87) as u8
    } else if 'A' <= c && c <= 'F' {
        (c as u8 - 55) as u8
    } else {
        0
    }
}

/// Bytes denoted by an even-length string of hexadecimal digits.
pub open spec fn hex_bytes(s: Seq<char>) -> Seq<u8>
    decreases s.len(),
{
    if s.len() < 2 {
        Seq::<u8>::empty()
    } else {
        seq![(16 * hex_val(s[0]) + hex_val(s[1])) as u8] + hex_bytes(s.skip(2))
    }
}

/// A string the decoder accepts: even length, hexadecimal digits throughout.
pub open spec fn valid_hex(s: Seq<char>) -> bool {
    s.len() % 2 == 0 && (forall|i: int| 0 <= i < s.len() ==> is_hex_char(s[i]))
}

/// Relies on hex::encode: lowercase hexadecimal, two digits per byte, most
/// significant nibble of each byte first.
#[verifier::external_body]
fn hex_encode(b: &Vec<u8>) -> (r: String)
    ensures
        r@ == hex_of(b@),
{
    hex::encode(b.as_slice())
}

/// Relies on hex::decode: succeeds exactly on an even-length string of
/// hexadecimal digits of either case, yielding the denoted bytes.
#[verifier::external_body]
fn hex_decode(s: &String) -> (r: Option<Vec<u8>>)
    ensures
        r is Some <==> valid_hex(s@),
        r matches Some(v) ==> v@ == hex_bytes(s@),
{
    hex::decode(s.as_str()).ok()
}

/// Renders bytes as lowercase hexadecimal.
pub fn encode_hex(b: &Vec<u8>) -> (r: String)
    ensures
        r@ == hex_of(b@),
{
    hex_encode(b)
}

/// Decodes a hexadecimal string; rejects odd lengths and stray characters.
pub fn decode_hex(s: &String) -> (r: Option<Vec<u8>>)
    ensures
        r is Some <==> valid_hex(s@),
        r matches Some(v) ==> v@ == hex_bytes(s@),
{
    hex_decode(s)
}

/// Hex rendering is faithful: the output is twice as long as the input, is a
/// valid hexadecimal string, and decodes back to the original bytes.
pub proof fn lemma_hex_roundtrip(b: Seq<u8>)
    ensures
        hex_of(b).len() == 2 * b.len(),
        valid_hex(hex_of(b)),
        hex_bytes(hex_of(b)) == b,
    decreases b.len(),
{
    if b.len() == 0 {
        assert(hex_bytes(hex_of(b)) =~= b);
    } else {
        lemma_hex_roundtrip(b.drop_first());
        let s = hex_of(b);
        assert(s.len() == 2 + hex_of(b.drop_first()).len());
        assert(forall|n: u8| n < 16 ==> is_hex_char(#[trigger] hex_digit(n)));
        assert(forall|n: u8| n < 16 ==> hex_val(#[trigger] hex_digit(n)) == n);
        assert(b.first() / 16 < 16 && b.first() % 16 < 16);
        assert(s[0] == hex_digit(b.first() / 16) && s[1] == hex_digit(b.first() % 16));
        assert(forall|i: int| 2 <= i < s.len() ==> s[i] == hex_of(b.drop_first())[i - 2]);
        assert(s.skip(2) =~= hex_of(b.drop_first()));
        assert(16 * (b.first() / 16) + b.first() % 16 == b.first());
        assert(hex_bytes(s) =~= b) by {
            assert(hex_bytes(s) == seq![b.first()] + hex_bytes(s.skip(2)));
            assert(seq![b.first()] + b.drop_first() =~= b);
        }
    }
}

} // verus!
