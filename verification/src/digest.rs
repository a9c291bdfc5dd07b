//! Fixed-width hashing and a Merkle root over fixed-size leaves.
//!
//! The Merkle rule is binary, bottom-up, duplicate-last: at each level
//! adjacent leaves are paired; an odd level pairs its last leaf with itself;
//! each parent is the hash of the 64-byte concatenation left‖right. The
//! defined root of an empty leaf list is the hash of the empty byte string.

use sha2::Digest;
use vstd::prelude::*;

verus! {

/// The SHA-256 digest of a byte sequence, named abstractly: the same bytes
/// always give the same 32-byte digest.
pub uninterp spec fn sha256_of(data: Seq<u8>) -> Seq<u8>;

/// The lowercase hexadecimal digit for a nibble value.
pub open spec fn hex_digit(n: int) -> char {
    if n == 0 {
        '0'
    } else if n == 1 {
        '1'
    } else if n == 2 {
        '2'
    } else if n == 3 {
        '3'
    } else if n == 4 {
        '4'
    } else if n == 5 {
        '5'
    } else if n == 6 {
        '6'
    } else if n == 7 {
        '7'
    } else if n == 8 {
        '8'
    } else if n == 9 {
        '9'
    } else if n == 10 {
        'a'
    } else if n == 11 {
        'b'
    } else if n == 12 {
        'c'
    } else if n == 13 {
        'd'
    } else if n == 14 {
        'e'
    } else {
        'f'
    }
}

/// Lowercase hex rendering of a byte sequence: two digits per byte, in order.
pub open spec fn hex_of(data: Seq<u8>) -> Seq<char> {
    Seq::new(
        data.len() * 2,
        |i: int|
            if i % 2 == 0 {
                hex_digit(data[i / 2] as int / 16)
            } else {
                hex_digit(data[i / 2] as int % 16)
            },
    )
}

/// Computes the 32-byte SHA-256 digest of a byte sequence.
///
/// Relies on `sha2::Sha256`: SHA-256 is a pure function of the input bytes
/// and always yields 32 bytes of output.
#[verifier::external_body]
pub fn sha256_bytes(data: &[u8]) -> (r: Vec<u8>)
    ensures
        r@ == sha256_of(data@),
        r@.len() == 32,
{
    sha2::Sha256::digest(data).to_vec()
}

/// Relies on `hex::encode`: lowercase hexadecimal, two digits per byte,
/// bytes rendered in order.
#[verifier::external_body]
pub fn hex_encode(data: &[u8]) -> (r: String)
    ensures
        r@ == hex_of(data@),
{
    hex::encode(data)
}

/// The lowercase hex rendering of the SHA-256 digest of `data`.
pub fn sha256_hex(data: &[u8]) -> (r: String)
    ensures
        r@ == hex_of(sha256_of(data@)),
{
    let d = sha256_bytes(data);
    hex_encode(d.as_slice())
}

/// One Merkle level: adjacent pairs hashed, an odd last leaf paired with
/// itself.
pub open spec fn merkle_level(level: Seq<Seq<u8>>) -> Seq<Seq<u8>> {
    Seq::new(
        (level.len() + 1) / 2,
        |i: int|
            if 2 * i + 1 < level.len() {
                sha256_of(level[2 * i] + level[2 * i + 1])
            } else {
                sha256_of(level[2 * i] + level[2 * i])
            },
    )
}

/// The Merkle root of an ordered list of leaves that are already digests.
/// The root of an empty list is the hash of the empty byte string.
pub open spec fn merkle_root_of(leaves: Seq<Seq<u8>>) -> Seq<u8>
    decreases leaves.len(),
{
    if leaves.len() == 0 {
        sha256_of(Seq::<u8>::empty())
    } else if leaves.len() == 1 {
        leaves[0]
    } else {
        merkle_root_of(merkle_level(leaves))
    }
}

/// Concatenation of two byte vectors.
pub fn concat_bytes(a: &Vec<u8>, b: &Vec<u8>) -> (r: Vec<u8>)
    ensures
        r@ == a@ + b@,
{
    let mut r: Vec<u8> = Vec::new();
    let mut i: usize = 0;
    while i < a.len()
        invariant
            i <= a.len(),
            r@ == a@.take(i as int),
        decreases a.len() - i,
    {
        r.push(a[i]);
        i = i + 1;
        proof {
            assert(r@ =~= a@.take(i as int));
        }
    }
    proof {
        assert(a@.take(a.len() as int) =~= a@);
    }
    let mut j: usize = 0;
    while j < b.len()
        invariant
            j <= b.len(),
            r@ == a@ + b@.take(j as int),
        decreases b.len() - j,
    {
        r.push(b[j]);
        j = j + 1;
        proof {
            assert(r@ =~= a@ + b@.take(j as int));
        }
    }
    proof {
        assert(a@ + b@.take(b.len() as int) =~= a@ + b@);
    }
    r
}

pub(crate) proof fn lemma_vec_deep_view_is_map(v: &Vec<Vec<u8>>)
    ensures
        v.deep_view().len() == v@.len(),
        forall|i: int| 0 <= i < v@.len() ==> #[trigger] v.deep_view()[i] == v@[i]@,
{
    assert forall|i: int| 0 <= i < v@.len() implies #[trigger] v.deep_view()[i] == v@[i]@ by {
        assert(v@[i].deep_view() =~= v@[i]@);
    }
}

/// Merkle root over leaves that are already 32-byte hashes.
pub fn merkle_root(leaves: &Vec<Vec<u8>>) -> (r: Vec<u8>)
    requires
        forall|i: int| 0 <= i < leaves@.len() ==> (#[trigger] leaves.deep_view()[i]).len() == 32,
    ensures
        r@ == merkle_root_of(leaves.deep_view()),
        r@.len() == 32,
{
    if leaves.len() == 0 {
        let empty: Vec<u8> = Vec::new();
        proof {
            assert(empty@ =~= Seq::<u8>::empty());
        }
        return sha256_bytes(empty.as_slice());
    }
    let mut level: Vec<Vec<u8>> = Vec::new();
    let mut i: usize = 0;
    while i < leaves.len()
        invariant
            i <= leaves.len(),
            level@.len() == i,
            forall|k: int| 0 <= k < i ==> (#[trigger] level@[k])@ == leaves.deep_view()[k],
        decreases leaves.len() - i,
    {
        let leaf: Vec<u8> = vstd::slice::slice_to_vec(leaves[i].as_slice());
        proof {
            lemma_vec_deep_view_is_map(leaves);
        }
        level.push(leaf);
        i = i + 1;
    }
    proof {
        lemma_vec_deep_view_is_map(&level);
        assert(level.deep_view() =~= leaves.deep_view());
    }
    while level.len() > 1
        invariant
            level.len() >= 1,
            merkle_root_of(level.deep_view()) == merkle_root_of(leaves.deep_view()),
            forall|k: int| 0 <= k < level@.len() ==> (#[trigger] level.deep_view()[k]).len() == 32,
        decreases level.len(),
    {
        let ghost prev = level.deep_view();
        let n = level.len();
        let mut next: Vec<Vec<u8>> = Vec::new();
        let mut i: usize = 0;
        while i < n
            invariant
                level.deep_view() == prev,
                n == level@.len(),
                2 <= n,
                i <= n,
                i == 2 * next@.len() || (i == n && next@.len() == (n + 1) / 2),
                next@.len() <= (n + 1) / 2,
                forall|k: int|
                    0 <= k < next@.len() ==> (#[trigger] next@[k])@ == merkle_level(prev)[k],
                forall|k: int| 0 <= k < next@.len() ==> (#[trigger] next@[k])@.len() == 32,
            decreases n - i,
    {
            proof {
                lemma_vec_deep_view_is_map(&level);
            }
            let left = &level[i];
            let parent: Vec<u8>;
            let ghost j = next@.len() as int;
            if i + 1 < n {
                let buf = concat_bytes(left, &level[i + 1]);
                parent = sha256_bytes(buf.as_slice());
                proof {
                    assert(2 * j + 1 < prev.len());
                    assert(parent@ == merkle_level(prev)[j]);
                }
                i = i + 2;
            } else {
                let buf = concat_bytes(left, left);
                parent = sha256_bytes(buf.as_slice());
                proof {
                    assert(2 * j + 1 >= prev.len() && 2 * j < prev.len());
                    assert(parent@ == merkle_level(prev)[j]);
                }
                i = n;
            }
            next.push(parent);
        }
        proof {
            lemma_vec_deep_view_is_map(&next);
            assert(next.deep_view() =~= merkle_level(prev));
        }
        level = next;
    }
    let root: Vec<u8> = vstd::slice::slice_to_vec(level[0].as_slice());
    proof {
        lemma_vec_deep_view_is_map(&level);
        assert(root@ == level.deep_view()[0]);
    }
    root
}

} // verus!
