//! Integers in little-endian byte order.

use vstd::prelude::*;

verus! {

pub open spec fn le16(s: Seq<u8>, at: int) -> u16 {
    (s[at] + 0x100 * s[at + 1]) as u16
}

pub open spec fn le32(s: Seq<u8>, at: int) -> u32 {
    (s[at] + 0x100 * s[at + 1] + 0x1_0000 * s[at + 2] + 0x100_0000 * s[at + 3]) as u32
}

pub open spec fn le64(s: Seq<u8>, at: int) -> u64 {
    (le32(s, at) + 0x1_0000_0000 * le32(s, at + 4)) as u64
}

/// `s` with the bytes from `at` on replaced by those of `data`.
pub open spec fn patched(s: Seq<u8>, at: int, data: Seq<u8>) -> Seq<u8> {
    Seq::new(
        s.len(),
        |i: int|
            if at <= i < at + data.len() {
                data[i - at]
            } else {
                s[i]
            },
    )
}

pub open spec fn bytes16(x: u16) -> Seq<u8> {
    seq![(x % 0x100) as u8, (x / 0x100) as u8]
}

pub open spec fn bytes32(x: u32) -> Seq<u8> {
    seq![
        (x % 0x100) as u8,
        (x / 0x100 % 0x100) as u8,
        (x / 0x1_0000 % 0x100) as u8,
        (x / 0x100_0000) as u8,
    ]
}

/// `data` and `s` agree outside `len` bytes from `at` on.
pub open spec fn same_outside(s: Seq<u8>, t: Seq<u8>, at: int, len: int) -> bool {
    &&& s.len() == t.len()
    &&& forall|i: int|
        0 <= i < s.len() && !(at <= i < at + len) ==> #[trigger] s[i] == t[i]
}

pub fn get16(s: &Vec<u8>, at: usize) -> (r: u16)
    requires
        at + 2 <= s@.len(),
    ensures
        r == le16(s@, at as int),
{
    let size = s.len();
    assert(at + 2 <= size);
    s[at] as u16 + 0x100 * (s[at + 1] as u16)
}

pub fn get32(s: &Vec<u8>, at: usize) -> (r: u32)
    requires
        at + 4 <= s@.len(),
    ensures
        r == le32(s@, at as int),
{
    let size = s.len();
    assert(at + 4 <= size);
    s[at] as u32 + 0x100 * (s[at + 1] as u32) + 0x1_0000 * (s[at + 2] as u32) + 0x100_0000 * (s[at
        + 3] as u32)
}

pub fn get64(s: &Vec<u8>, at: usize) -> (r: u64)
    requires
        at + 8 <= s@.len(),
    ensures
        r == le64(s@, at as int),
{
    let size = s.len();
    assert(at + 8 <= size);
    get32(s, at) as u64 + 0x1_0000_0000 * (get32(s, at + 4) as u64)
}

pub fn put16(s: &mut Vec<u8>, at: usize, x: u16)
    requires
        at + 2 <= old(s)@.len(),
    ensures
        final(s)@ == patched(old(s)@, at as int, bytes16(x)),
{
    let size = s.len();
    assert(at + 2 <= size);
    s[at] = (x % 0x100) as u8;
    s[at + 1] = (x / 0x100) as u8;
    assert(s@ =~= patched(old(s)@, at as int, bytes16(x)));
}

pub fn put32(s: &mut Vec<u8>, at: usize, x: u32)
    requires
        at + 4 <= old(s)@.len(),
    ensures
        final(s)@ == patched(old(s)@, at as int, bytes32(x)),
{
    let size = s.len();
    assert(at + 4 <= size);
    s[at] = (x % 0x100) as u8;
    s[at + 1] = (x / 0x100 % 0x100) as u8;
    s[at + 2] = (x / 0x1_0000 % 0x100) as u8;
    s[at + 3] = (x / 0x100_0000) as u8;
    assert(s@ =~= patched(old(s)@, at as int, bytes32(x)));
}

/// Copies `data` over the bytes from `at` on.
pub fn put_bytes(s: &mut Vec<u8>, at: usize, data: &Vec<u8>)
    requires
        at + data@.len() <= old(s)@.len(),
    ensures
        final(s)@ == patched(old(s)@, at as int, data@),
{
    let size = s.len();
    let mut i: usize = 0;
    assert(s@ =~= patched(old(s)@, at as int, data@.take(0)));
    while i < data.len()
        invariant
            size == s@.len(),
            i <= data@.len(),
            at + data@.len() <= s@.len(),
            s@ == patched(old(s)@, at as int, data@.take(i as int)),
        decreases data@.len() - i,
    {
        s[at + i] = data[i];
        assert(s@ =~= patched(old(s)@, at as int, data@.take(i + 1)));
        i += 1;
    }
    assert(data@.take(data@.len() as int) =~= data@);
}

/// A part of the bytes.
pub fn copy_bytes(s: &Vec<u8>, at: usize, len: usize) -> (r: Vec<u8>)
    requires
        at + len <= s@.len(),
    ensures
        r@ == s@.subrange(at as int, at + len),
{
    let size = s.len();
    let mut out: Vec<u8> = Vec::new();
    let mut i: usize = 0;
    while i < len
        invariant
            size == s@.len(),
            i <= len,
            at + len <= s@.len(),
            out@ =~= s@.subrange(at as int, at + i),
        decreases len - i,
    {
        out.push(s[at + i]);
        i += 1;
    }
    out
}

/// The bytes from `at` on are those of `data`.
pub fn matches_at(s: &Vec<u8>, at: usize, data: &Vec<u8>) -> (r: bool)
    requires
        at + data@.len() <= s@.len(),
    ensures
        r == (s@.subrange(at as int, at + data@.len()) == data@),
{
    let size = s.len();
    let mut i: usize = 0;
    while i < data.len()
        invariant
            size == s@.len(),
            i <= data@.len(),
            at + data@.len() <= s@.len(),
            forall|j: int| 0 <= j < i ==> s@[at + j] == #[trigger] data@[j],
        decreases data@.len() - i,
    {
        if s[at + i] != data[i] {
            assert(s@.subrange(at as int, at + data@.len())[i as int] != data@[i as int]);
            return false;
        }
        i += 1;
    }
    assert(s@.subrange(at as int, at + data@.len()) =~= data@);
    true
}

pub open spec fn zeroes(len: nat) -> Seq<u8> {
    Seq::new(len, |i: int| 0u8)
}

pub fn zero_bytes(len: usize) -> (r: Vec<u8>)
    ensures
        r@ == zeroes(len as nat),
{
    let mut out: Vec<u8> = Vec::new();
    let mut i: usize = 0;
    while i < len
        invariant
            i <= len,
            out@ =~= zeroes(i as nat),
        decreases len - i,
    {
        out.push(0);
        i += 1;
    }
    out
}

/// What is written reads back, and everything beside it stays.
pub proof fn law_put_get16(s: Seq<u8>, at: int, x: u16)
    requires
        0 <= at,
        at + 2 <= s.len(),
    ensures
        le16(patched(s, at, bytes16(x)), at) == x,
        same_outside(s, patched(s, at, bytes16(x)), at, 2),
{
}

pub proof fn law_put_get32(s: Seq<u8>, at: int, x: u32)
    requires
        0 <= at,
        at + 4 <= s.len(),
    ensures
        le32(patched(s, at, bytes32(x)), at) == x,
        same_outside(s, patched(s, at, bytes32(x)), at, 4),
{
    let t = patched(s, at, bytes32(x));
    let y = x / 0x100;
    let z = y / 0x100;
    assert(x / 0x1_0000 == z);
    assert(x / 0x100_0000 == z / 0x100);
    let (a, b, c, d) = (t[at], t[at + 1], t[at + 2], t[at + 3]);
    assert(a == x % 0x100 && b == y % 0x100 && c == z % 0x100 && d == z / 0x100);
    assert(x == a + 0x100 * y && y == b + 0x100 * z && z == c + 0x100 * d);
}

/// The bytes of an integer are those that it was read from.
pub proof fn law_get_put32(s: Seq<u8>, at: int)
    requires
        0 <= at,
        at + 4 <= s.len(),
    ensures
        bytes32(le32(s, at)) == s.subrange(at, at + 4),
{
    let x = le32(s, at);
    let (a, b, c, d) = (s[at], s[at + 1], s[at + 2], s[at + 3]);
    let y = x / 0x100;
    let z = y / 0x100;
    assert(y == b + 0x100 * c + 0x1_0000 * d);
    assert(z == c + 0x100 * d);
    assert(x / 0x1_0000 == z);
    assert(x / 0x100_0000 == d);
    assert(bytes32(x) =~= s.subrange(at, at + 4));
}

/// The eight bytes of an integer.
pub open spec fn bytes64(x: u64) -> Seq<u8> {
    bytes32((x % 0x1_0000_0000) as u32) + bytes32((x / 0x1_0000_0000) as u32)
}

pub proof fn law_get_put64(s: Seq<u8>, at: int)
    requires
        0 <= at,
        at + 8 <= s.len(),
    ensures
        bytes64(le64(s, at)) == s.subrange(at, at + 8),
{
    law_get_put32(s, at);
    law_get_put32(s, at + 4);
    let x = le64(s, at);
    assert(x % 0x1_0000_0000 == le32(s, at));
    assert(x / 0x1_0000_0000 == le32(s, at + 4));
    assert(bytes64(x) =~= s.subrange(at, at + 8));
}

pub fn to_bytes64(x: u64) -> (r: [u8; 8])
    ensures
        r@ == bytes64(x),
{
    let low = (x % 0x1_0000_0000) as u32;
    let high = (x / 0x1_0000_0000) as u32;
    let r = [
        (low % 0x100) as u8,
        (low / 0x100 % 0x100) as u8,
        (low / 0x1_0000 % 0x100) as u8,
        (low / 0x100_0000) as u8,
        (high % 0x100) as u8,
        (high / 0x100 % 0x100) as u8,
        (high / 0x1_0000 % 0x100) as u8,
        (high / 0x100_0000) as u8,
    ];
    assert(r@ =~= bytes64(x));
    r
}

} // verus!
