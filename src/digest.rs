use vstd::prelude::*;

use vstd::string::StringExecFns;

verus! {

/// The MD5 digest of the UTF-8 encoding of a string.
pub uninterp spec fn md5_of(s: Seq<char>) -> Seq<u8>;

/// Relies on md5::compute: the 16-byte MD5 digest of the string's UTF-8
/// bytes, which depends on those bytes alone.
#[verifier::external_body]
pub(crate) fn hash_digest(key: &String) -> (r: [u8; 16])
    ensures
        r@ == md5_of(key@),
{
    md5::compute(key.as_bytes()).0
}

/// The little-endian 32-bit word made of the four bytes of `b` that start at
/// index `4 * k`.
pub open spec fn word_at(b: Seq<u8>, k: int) -> int {
    b[4 * k] + 0x100 * b[4 * k + 1] + 0x1_0000 * b[4 * k + 2] + 0x100_0000 * b[4 * k + 3]
}

/// The ring coordinate of a string: the first word of its digest.
pub open spec fn ring_coordinate(s: Seq<char>) -> int {
    word_at(md5_of(s), 0)
}

/// Folds four bytes of a digest into a ring coordinate: byte `4 * offset + 3`
/// is the most significant and byte `4 * offset` the least. Offset 0 is the
/// plain coordinate of a key; offsets 0, 1 and 2 give the three placements
/// that one digest yields when the ring is built.
pub fn hash_val(b_key: &[u8; 16], offset: usize) -> (r: u32)
    requires
        offset < 4,
    ensures
        r as int == word_at(b_key@, offset as int),
{
    let base: usize = offset * 4;
    let b0: u8 = b_key[base];
    let b1: u8 = b_key[base + 1];
    let b2: u8 = b_key[base + 2];
    let b3: u8 = b_key[base + 3];
    let r: u32 = (b3 as u32) << 24 | (b2 as u32) << 16 | (b1 as u32) << 8 | (b0 as u32);
    assert(r == b0 + 0x100 * b1 + 0x1_0000 * b2 + 0x100_0000 * b3) by (bit_vector)
        requires
            r == (b3 as u32) << 24 | (b2 as u32) << 16 | (b1 as u32) << 8 | (b0 as u32),
    ;
    r
}

/// The ring coordinate of a key.
pub fn gen_key(string_key: &String) -> (r: u32)
    ensures
        r as int == ring_coordinate(string_key@),
{
    let b_key = hash_digest(string_key);
    hash_val(&b_key, 0)
}

/// The character of a decimal digit.
pub open spec fn digit_char(d: nat) -> char {
    if d == 0 {
        '0'
    } else if d == 1 {
        '1'
    } else if d == 2 {
        '2'
    } else if d == 3 {
        '3'
    } else if d == 4 {
        '4'
    } else if d == 5 {
        '5'
    } else if d == 6 {
        '6'
    } else if d == 7 {
        '7'
    } else if d == 8 {
        '8'
    } else {
        '9'
    }
}

/// The decimal notation of `n`, without leading zeros.
pub open spec fn decimal(n: nat) -> Seq<char>
    decreases n,
{
    if n < 10 {
        seq![digit_char(n)]
    } else {
        decimal(n / 10) + seq![digit_char(n % 10)]
    }
}

/// The seed of the `j`-th placement of a node named `name`: `"<name>-<j>"`.
pub open spec fn seed(name: Seq<char>, j: nat) -> Seq<char> {
    name + seq!['-'] + decimal(j)
}

fn digit_str(d: usize) -> (r: &'static str)
    requires
        d < 10,
    ensures
        r@ == seq![digit_char(d as nat)],
{
    proof {
        reveal_strlit("0");
        reveal_strlit("1");
        reveal_strlit("2");
        reveal_strlit("3");
        reveal_strlit("4");
        reveal_strlit("5");
        reveal_strlit("6");
        reveal_strlit("7");
        reveal_strlit("8");
        reveal_strlit("9");
    }
    let r = match d {
        0 => "0",
        1 => "1",
        2 => "2",
        3 => "3",
        4 => "4",
        5 => "5",
        6 => "6",
        7 => "7",
        8 => "8",
        _ => "9",
    };
    assert(r@ =~= seq![digit_char(d as nat)]);
    r
}

fn push_decimal(s: &mut String, n: usize)
    ensures
        final(s)@ == old(s)@ + decimal(n as nat),
    decreases n,
{
    if n >= 10 {
        push_decimal(s, n / 10);
    }
    s.append(digit_str(n % 10));
    assert(final(s)@ =~= old(s)@ + decimal(n as nat));
}

/// Builds the seed string `"<name>-<j>"` of a placement.
pub fn seed_key(name: &String, j: usize) -> (r: String)
    ensures
        r@ == seed(name@, j as nat),
{
    let mut r: String = name.clone();
    proof {
        reveal_strlit("-");
    }
    r.append("-");
    push_decimal(&mut r, j);
    assert(r@ =~= seed(name@, j as nat));
    r
}

/// The coordinate of the `k`-th placement that the seed `"<name>-<j>"` yields.
pub open spec fn placement_coordinate(name: Seq<char>, j: nat, k: int) -> int {
    word_at(md5_of(seed(name, j)), k)
}

} // verus!
