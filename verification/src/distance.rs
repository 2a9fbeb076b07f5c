use vstd::prelude::*;

verus! {

/// Width of a node identifier in bytes (256 bits).
pub const ID_BYTES: usize = 32;

/// A well-formed node identifier: exactly 32 bytes, most significant first.
pub open spec fn valid_id(id: Seq<u8>) -> bool {
    id.len() == ID_BYTES
}

/// Position of the highest set bit of a byte, counting from one; zero for zero.
pub open spec fn byte_bit_len(b: u8) -> u16 {
    if b >= 128 {
        8
    } else if b >= 64 {
        7
    } else if b >= 32 {
        6
    } else if b >= 16 {
        5
    } else if b >= 8 {
        4
    } else if b >= 4 {
        3
    } else if b >= 2 {
        2
    } else if b >= 1 {
        1
    } else {
        0
    }
}

/// Bit length of the XOR of two identifiers, examined from byte `i` down: the
/// first differing byte fixes the result, identical suffixes contribute nothing.
pub open spec fn dist_from(a: Seq<u8>, b: Seq<u8>, i: int) -> u16
    decreases 32 - i,
{
    if i < 0 || i >= 32 {
        0
    } else if a[i] == b[i] {
        dist_from(a, b, i + 1)
    } else {
        (8 * (31 - i) + byte_bit_len((a[i] ^ b[i]) as u8)) as u16
    }
}

/// XOR distance between two identifiers: the bit length of `a ^ b` read as a
/// 256-bit big-endian integer. Ranges over 0..=256; zero only for equal ids.
pub open spec fn xor_distance(a: Seq<u8>, b: Seq<u8>) -> u16 {
    dist_from(a, b, 0)
}

/// Executable form of `byte_bit_len`.
pub fn byte_bit_len_exec(b: u8) -> (r: u16)
    ensures
        r == byte_bit_len(b),
{
    if b >= 128 {
        8
    } else if b >= 64 {
        7
    } else if b >= 32 {
        6
    } else if b >= 16 {
        5
    } else if b >= 8 {
        4
    } else if b >= 4 {
        3
    } else if b >= 2 {
        2
    } else if b >= 1 {
        1
    } else {
        0
    }
}

/// XOR distance between two node identifiers.
pub fn distance(a: &Vec<u8>, b: &Vec<u8>) -> (r: u16)
    requires
        valid_id(a@),
        valid_id(b@),
    ensures
        r == xor_distance(a@, b@),
{
    let mut i: usize = 0;
    while i < 32
        invariant
            i <= 32,
            valid_id(a@),
            valid_id(b@),
            xor_distance(a@, b@) == dist_from(a@, b@, i as int),
        decreases 32 - i,
    {
        let x: u8 = a[i] ^ b[i];
        proof {
            assert(forall|p: u8, q: u8| (#[trigger] (p ^ q)) == 0 <==> p == q) by (bit_vector);
        }
        if x != 0 {
            return 8 * (31 - i as u16) + byte_bit_len_exec(x);
        }
        i += 1;
    }
    0
}

proof fn lemma_dist_from_symmetric(a: Seq<u8>, b: Seq<u8>, i: int)
    ensures
        dist_from(a, b, i) == dist_from(b, a, i),
    decreases 32 - i,
{
    if 0 <= i < 32 {
        assert(forall|x: u8, y: u8| #[trigger] (x ^ y) == (y ^ x)) by (bit_vector);
        if a[i] == b[i] {
            lemma_dist_from_symmetric(a, b, i + 1);
        }
    }
}

/// The XOR distance is symmetric: `distance(a, b) == distance(b, a)`.
pub proof fn lemma_distance_symmetric(a: Seq<u8>, b: Seq<u8>)
    ensures
        xor_distance(a, b) == xor_distance(b, a),
{
    lemma_dist_from_symmetric(a, b, 0);
}

proof fn lemma_dist_from_zero(a: Seq<u8>, b: Seq<u8>, i: int)
    requires
        valid_id(a),
        valid_id(b),
        0 <= i <= 32,
    ensures
        dist_from(a, b, i) == 0 <==> (forall|j: int| i <= j < 32 ==> a[j] == b[j]),
    decreases 32 - i,
{
    if i < 32 {
        if a[i] == b[i] {
            lemma_dist_from_zero(a, b, i + 1);
        } else {
            assert(forall|x: u8| x != 0 ==> byte_bit_len(x) >= 1);
            assert(a[i] ^ b[i] != 0) by {
                assert(forall|x: u8, y: u8| (#[trigger] (x ^ y)) == 0 ==> x == y)
                    by (bit_vector);
            }
            assert(dist_from(a, b, i) != 0);
        }
    }
}

/// The XOR distance of two well-formed identifiers is zero exactly when they
/// are the same identifier; a node is never at a positive distance from itself.
pub proof fn lemma_distance_zero_iff_equal(a: Seq<u8>, b: Seq<u8>)
    requires
        valid_id(a),
        valid_id(b),
    ensures
        xor_distance(a, b) == 0 <==> a == b,
{
    lemma_dist_from_zero(a, b, 0);
    if xor_distance(a, b) == 0 {
        assert(a =~= b);
    }
}

proof fn lemma_dist_from_bound(a: Seq<u8>, b: Seq<u8>, i: int)
    requires
        0 <= i,
    ensures
        dist_from(a, b, i) <= 8 * (32 - i) || dist_from(a, b, i) == 0,
        dist_from(a, b, i) <= 256,
    decreases 32 - i,
{
    if i < 32 {
        lemma_dist_from_bound(a, b, i + 1);
    }
}

/// The XOR distance never exceeds the identifier width in bits.
pub proof fn lemma_distance_bound(a: Seq<u8>, b: Seq<u8>)
    ensures
        xor_distance(a, b) <= 256,
{
    lemma_dist_from_bound(a, b, 0);
}

} // verus!
