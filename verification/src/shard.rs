//! Where a key is stored: its digest, and the shard file the digest selects.
//!
//! A key's 64-bit digest is written as 16 lower-case hexadecimal digits. The
//! first two name a directory under the scope's directory, the other fourteen
//! the shard file in it. Keys with one digest share one shard file.

use rustc_hash::FxHasher;
use std::hash::Hasher;
use vstd::endian::endianness;
use vstd::prelude::*;
use vstd::string::*;

verus! {

/// What `rustc_hash::FxHasher` makes of the bytes `key`, fed to a hasher in
/// its default state by one `Hasher::write` and read by `Hasher::finish`, on
/// a target whose pointers have `word_bits` bits and whose numbers are stored
/// most significant byte first or not. The hasher takes the bytes in words
/// of the pointer's width, in the target's byte order, and mixes each word in
/// with a constant that goes by that width; it starts from a fixed state and
/// holds no seed.
pub uninterp spec fn fx_digest(key: Seq<u8>, word_bits: nat, big_endian: bool) -> u64;

/// The digest of the key `key` on the target that the library is built for.
pub open spec fn key_digest(key: Seq<u8>) -> u64 {
    fx_digest(key, usize::BITS as nat, endianness() is Big)
}

/// Hashes `key` with `rustc_hash::FxHasher`: a hasher in its default state is
/// fed all of `key` by one `Hasher::write` and read by `Hasher::finish`. The
/// result is the digest of `key` on this target.
#[verifier::external_body]
fn fx_hash(key: &[u8]) -> (digest: u64)
    ensures
        digest == fx_digest(key@, usize::BITS as nat, endianness() is Big),
{
    let mut hasher = FxHasher::default();
    hasher.write(key);
    hasher.finish()
}

/// The lower-case hexadecimal digit for `n`, where `n < 16`.
pub open spec fn hex_char(n: u8) -> char
    recommends
        n < 16,
{
    if n == 0 {
        '0'
    } else if n == 1 {
        '1'
    } else if n == 2 {
        '2'
    } else if n == 3 {
        '3'
    } else if n == 4 {
        '4'
    } else if n == 5 {
        '5'
    } else if n == 6 {
        '6'
    } else if n == 7 {
        '7'
    } else if n == 8 {
        '8'
    } else if n == 9 {
        '9'
    } else if n == 10 {
        'a'
    } else if n == 11 {
        'b'
    } else if n == 12 {
        'c'
    } else if n == 13 {
        'd'
    } else if n == 14 {
        'e'
    } else {
        'f'
    }
}

/// The `i`-th group of four bits of `digest`, counted from the most significant.
pub open spec fn nibble(digest: u64, i: int) -> u8
    recommends
        0 <= i < 16,
{
    ((digest >> ((4 * (15 - i)) as u64)) & 0xf) as u8
}

/// `digest` as 16 lower-case hexadecimal digits, most significant first.
pub open spec fn hex_digest(digest: u64) -> Seq<char> {
    Seq::new(16, |i: int| hex_char(nibble(digest, i)))
}

/// A shard file's place: the scope it belongs to and the digest its keys share.
pub struct ShardId {
    pub scope: Seq<char>,
    pub digest: u64,
}

/// The shard in which `scope` stores `key`.
pub open spec fn shard_of(scope: Seq<char>, key: Seq<u8>) -> ShardId {
    ShardId { scope, digest: key_digest(key) }
}

/// The name of the directory, under the scope's directory, that holds the shard.
pub open spec fn dir_name(digest: u64) -> Seq<char> {
    hex_digest(digest).subrange(0, 2)
}

/// The name of the shard file in its directory.
pub open spec fn file_name(digest: u64) -> Seq<char> {
    hex_digest(digest).subrange(2, 16)
}

/// The address of a shard file, from which its path follows: the scope's
/// directory, then `dir_name`, then `file_name`.
#[derive(Clone, Copy, Debug)]
pub struct ShardAddr {
    pub scope: &'static str,
    pub digest: u64,
}

impl View for ShardAddr {
    type V = ShardId;

    open spec fn view(&self) -> ShardId {
        ShardId { scope: self.scope@, digest: self.digest }
    }
}

/// The one-character text of the hexadecimal digit for `n`.
fn hex_str(n: u8) -> (s: &'static str)
    requires
        n < 16,
    ensures
        s@ == seq![hex_char(n)],
{
    proof {
        reveal_strlit("0");
        reveal_strlit("1");
        reveal_strlit("2");
        reveal_strlit("3");
        reveal_strlit("4");
        reveal_strlit("5");
        reveal_strlit("6");
        reveal_strlit("7");
        reveal_strlit("8");
        reveal_strlit("9");
        reveal_strlit("a");
        reveal_strlit("b");
        reveal_strlit("c");
        reveal_strlit("d");
        reveal_strlit("e");
        reveal_strlit("f");
    }
    let s = match n {
        0 => "0",
        1 => "1",
        2 => "2",
        3 => "3",
        4 => "4",
        5 => "5",
        6 => "6",
        7 => "7",
        8 => "8",
        9 => "9",
        10 => "a",
        11 => "b",
        12 => "c",
        13 => "d",
        14 => "e",
        _ => "f",
    };
    assert(s@ =~= seq![hex_char(n)]);
    s
}

/// The hexadecimal digits `from..to` of `digest`, as text.
pub fn hex_text(digest: u64, from: usize, to: usize) -> (text: String)
    requires
        from <= to <= 16,
    ensures
        text@ == hex_digest(digest).subrange(from as int, to as int),
{
    let mut text = String::new();
    let mut i: usize = from;
    while i < to
        invariant
            from <= i <= to <= 16,
            text@ == hex_digest(digest).subrange(from as int, i as int),
        decreases to - i,
    {
        let shift: u64 = 4 * (15 - i as u64);
        let group: u64 = (digest >> shift) & 0xf;
        assert(group < 16) by (bit_vector)
            requires
                group == (digest >> shift) & 0xf,
        ;
        let n: u8 = group as u8;
        assert(n == nibble(digest, i as int));
        text.append(hex_str(n));
        assert(text@ =~= hex_digest(digest).subrange(from as int, i + 1));
        i += 1;
    }
    text
}

/// The shard in which `scope` stores `key`.
pub fn shard_for_key(scope: &'static str, key: &[u8]) -> (addr: ShardAddr)
    ensures
        addr@ == shard_of(scope@, key@),
{
    ShardAddr { scope, digest: fx_hash(key) }
}

impl ShardAddr {
    /// The name of the directory, under the scope's directory, that holds the shard.
    pub fn dir_name(&self) -> (name: String)
        ensures
            name@ == dir_name(self.digest),
    {
        hex_text(self.digest, 0, 2)
    }

    /// The name of the shard file in its directory.
    pub fn file_name(&self) -> (name: String)
        ensures
            name@ == file_name(self.digest),
    {
        hex_text(self.digest, 2, 16)
    }
}

/// Two digests are written with the same hexadecimal digits only if they are equal.
pub proof fn lemma_hex_digest_injective(a: u64, b: u64)
    requires
        hex_digest(a) == hex_digest(b),
    ensures
        a == b,
{
    assert forall|i: int| 0 <= i < 16 implies nibble(a, i) == nibble(b, i) by {
        assert(hex_digest(a)[i] == hex_char(nibble(a, i)));
        assert(hex_digest(b)[i] == hex_char(nibble(b, i)));
        lemma_nibble_bound(a, i);
        lemma_nibble_bound(b, i);
        lemma_hex_char_injective(nibble(a, i), nibble(b, i));
    }
    assert(nibble(a, 0) == nibble(b, 0) && nibble(a, 1) == nibble(b, 1) && nibble(a, 2) == nibble(
        b,
        2,
    ) && nibble(a, 3) == nibble(b, 3) && nibble(a, 4) == nibble(b, 4) && nibble(a, 5) == nibble(
        b,
        5,
    ) && nibble(a, 6) == nibble(b, 6) && nibble(a, 7) == nibble(b, 7) && nibble(a, 8) == nibble(
        b,
        8,
    ) && nibble(a, 9) == nibble(b, 9) && nibble(a, 10) == nibble(b, 10) && nibble(a, 11)
        == nibble(b, 11) && nibble(a, 12) == nibble(b, 12) && nibble(a, 13) == nibble(b, 13)
        && nibble(a, 14) == nibble(b, 14) && nibble(a, 15) == nibble(b, 15));
    assert(a == b) by (bit_vector)
        requires
            ((a >> 60) & 0xf) as u8 == ((b >> 60) & 0xf) as u8,
            ((a >> 56) & 0xf) as u8 == ((b >> 56) & 0xf) as u8,
            ((a >> 52) & 0xf) as u8 == ((b >> 52) & 0xf) as u8,
            ((a >> 48) & 0xf) as u8 == ((b >> 48) & 0xf) as u8,
            ((a >> 44) & 0xf) as u8 == ((b >> 44) & 0xf) as u8,
            ((a >> 40) & 0xf) as u8 == ((b >> 40) & 0xf) as u8,
            ((a >> 36) & 0xf) as u8 == ((b >> 36) & 0xf) as u8,
            ((a >> 32) & 0xf) as u8 == ((b >> 32) & 0xf) as u8,
            ((a >> 28) & 0xf) as u8 == ((b >> 28) & 0xf) as u8,
            ((a >> 24) & 0xf) as u8 == ((b >> 24) & 0xf) as u8,
            ((a >> 20) & 0xf) as u8 == ((b >> 20) & 0xf) as u8,
            ((a >> 16) & 0xf) as u8 == ((b >> 16) & 0xf) as u8,
            ((a >> 12) & 0xf) as u8 == ((b >> 12) & 0xf) as u8,
            ((a >> 8) & 0xf) as u8 == ((b >> 8) & 0xf) as u8,
            ((a >> 4) & 0xf) as u8 == ((b >> 4) & 0xf) as u8,
            ((a >> 0) & 0xf) as u8 == ((b >> 0) & 0xf) as u8,
    ;
}

/// Unlike numbers below 16 have unlike hexadecimal digits.
pub proof fn lemma_hex_char_injective(x: u8, y: u8)
    requires
        x < 16,
        y < 16,
        hex_char(x) == hex_char(y),
    ensures
        x == y,
{
}

/// A group of four bits is a number below 16.
pub proof fn lemma_nibble_bound(digest: u64, i: int)
    requires
        0 <= i < 16,
    ensures
        nibble(digest, i) < 16,
{
    let shift = (4 * (15 - i)) as u64;
    assert((((digest >> shift) & 0xf) as u8) < 16) by (bit_vector);
}

/// Two digests select the same shard file only if they are equal: the
/// directory name and the file name together spell the digest.
pub proof fn lemma_shard_path_injective(a: u64, b: u64)
    requires
        dir_name(a) == dir_name(b),
        file_name(a) == file_name(b),
    ensures
        a == b,
{
    assert forall|i: int| 0 <= i < 16 implies hex_digest(a)[i] == hex_digest(b)[i] by {
        if i < 2 {
            assert(dir_name(a)[i] == hex_digest(a)[i]);
            assert(dir_name(b)[i] == hex_digest(b)[i]);
        } else {
            assert(file_name(a)[i - 2] == hex_digest(a)[i]);
            assert(file_name(b)[i - 2] == hex_digest(b)[i]);
        }
    }
    assert(hex_digest(a) =~= hex_digest(b));
    lemma_hex_digest_injective(a, b);
}

} // verus!
