//! The ICMP Echo Request codec: building request packets and computing and
//! validating the RFC 792 checksum — the ones'-complement sum of the
//! packet's 16-bit words (an odd trailing byte zero-padded), carries folded
//! in, the result complemented and stored in the checksum field.

use vstd::prelude::*;

verus! {

/// The 16-bit word at word position `w` of the byte sequence, big-endian;
/// an odd trailing byte is padded with a zero low byte.
pub open spec fn word_at(b: Seq<u8>, w: int) -> int {
    if 2 * w + 1 < b.len() {
        256 * b[2 * w] + b[2 * w + 1]
    } else {
        256 * b[2 * w]
    }
}

/// Ones'-complement addition of two 16-bit quantities: the carry out of the
/// top bit is folded back into the lowest.
pub open spec fn oc_add(x: int, y: int) -> int {
    if x + y > 0xFFFF {
        x + y - 0xFFFF
    } else {
        x + y
    }
}

/// The ones'-complement sum of the first `n` words of the byte sequence.
pub open spec fn oc_sum(b: Seq<u8>, n: int) -> int
    decreases n,
{
    if n <= 0 {
        0
    } else {
        oc_add(oc_sum(b, n - 1), word_at(b, n - 1))
    }
}

/// The RFC 792 checksum of a byte sequence whose checksum field holds
/// zeroes: the complement of the ones'-complement sum of all its words.
pub open spec fn checksum_spec(b: Seq<u8>) -> int {
    0xFFFF - oc_sum(b, (b.len() as int + 1) / 2)
}

/// Compute the RFC 792 checksum of `data`, its checksum field already
/// zeroed: fold the 16-bit words left to right with end-around carry, then
/// complement.
pub fn checksum(data: &[u8]) -> (c: u16)
    requires
        data@.len() < usize::MAX,
    ensures
        c as int == checksum_spec(data@),
{
    let n = data.len();
    let mut acc: u32 = 0;
    let mut i: usize = 0;
    let ghost mut w: int = 0;
    while i < n
        invariant
            n == data@.len(),
            n < usize::MAX,
            i as int == 2 * w,
            i <= n + 1,
            acc as int == oc_sum(data@, w),
            acc <= 0xFFFF,
        decreases n + 1 - i,
    {
        let hi = data[i] as u32;
        let lo: u32 = if i + 1 < n {
            data[i + 1] as u32
        } else {
            0
        };
        let word = hi * 256 + lo;
        let sum = acc + word;
        acc = if sum > 0xFFFF {
            sum - 0xFFFF
        } else {
            sum
        };
        proof {
            assert(word as int == word_at(data@, w));
            assert(acc as int == oc_add(oc_sum(data@, w), word_at(data@, w)));
            w = w + 1;
            assert(acc as int == oc_sum(data@, w));
        }
        i = i + 2;
    }
    proof {
        assert(w == (n as int + 1) / 2);
    }
    (0xFFFFu32 - acc) as u16
}

/// Build an ICMP Echo Request: type 8, code 0, the given identifier and
/// sequence fields big-endian, an eight-byte zero payload, and the checksum
/// computed over the packet with its checksum field zeroed and stored
/// big-endian in that field.
pub fn build_echo_request(sequence: u16, identifier: u16) -> (r: Vec<u8>)
    ensures
        r@.len() == 16,
        r@[0] == 8u8,
        r@[1] == 0u8,
        r@[4] as int == identifier as int / 256,
        r@[5] as int == identifier as int % 256,
        r@[6] as int == sequence as int / 256,
        r@[7] as int == sequence as int % 256,
        forall|i: int| 8 <= i < 16 ==> r@[i] == 0u8,
        256 * (r@[2] as int) + (r@[3] as int) == checksum_spec(
            r@.update(2, 0u8).update(3, 0u8),
        ),
{
    let mut p: Vec<u8> = Vec::new();
    p.push(8);
    p.push(0);
    p.push(0);
    p.push(0);
    p.push((identifier / 256) as u8);
    p.push((identifier % 256) as u8);
    p.push((sequence / 256) as u8);
    p.push((sequence % 256) as u8);
    let mut i: usize = 8;
    while i < 16
        invariant
            8 <= i <= 16,
            p@.len() == i,
            p@[0] == 8u8,
            p@[1] == 0u8,
            p@[2] == 0u8,
            p@[3] == 0u8,
            p@[4] as int == identifier as int / 256,
            p@[5] as int == identifier as int % 256,
            p@[6] as int == sequence as int / 256,
            p@[7] as int == sequence as int % 256,
            forall|j: int| 8 <= j < i ==> p@[j] == 0u8,
        decreases 16 - i,
    {
        p.push(0);
        i = i + 1;
    }
    let ghost zeroed = p@;
    let c = checksum(p.as_slice());
    let hi = (c / 256) as u8;
    let lo = (c % 256) as u8;
    let b2 = &mut p[2];
    *b2 = hi;
    let b3 = &mut p[3];
    *b3 = lo;
    proof {
        assert(p@ =~= zeroed.update(2, hi).update(3, lo));
        assert(p@.update(2, 0u8).update(3, 0u8) =~= zeroed);
        assert(256 * (hi as int) + (lo as int) == c as int);
    }
    p
}

/// Whether the checksum field of `data` (bytes 2 and 3, big-endian) holds
/// exactly the RFC 792 checksum of the packet with that field zeroed.
pub fn verify_checksum(data: &[u8]) -> (ok: bool)
    requires
        4 <= data@.len() < usize::MAX,
    ensures
        ok == (256 * (data@[2] as int) + (data@[3] as int) == checksum_spec(
            data@.update(2, 0u8).update(3, 0u8),
        )),
{
    let n = data.len();
    let mut zeroed: Vec<u8> = Vec::new();
    let mut i: usize = 0;
    while i < n
        invariant
            n == data@.len(),
            i <= n,
            zeroed@.len() == i,
            forall|j: int|
                0 <= j < i ==> #[trigger] zeroed@[j] == (if j == 2 || j == 3 {
                    0u8
                } else {
                    data@[j]
                }),
        decreases n - i,
    {
        if i == 2 || i == 3 {
            zeroed.push(0);
        } else {
            zeroed.push(data[i]);
        }
        i = i + 1;
    }
    proof {
        assert(zeroed@ =~= data@.update(2, 0u8).update(3, 0u8));
    }
    let c = checksum(zeroed.as_slice());
    let stored: u32 = 256 * (data[2] as u32) + (data[3] as u32);
    stored == c as u32
}

/// Relies on rand::random: a value drawn from the thread-local generator.
/// The draw depends on the generator's state, so nothing is promised of it.
pub assume_specification<T>[ rand::random::<T> ]() -> (r: T)
    where
        rand::distributions::Standard: rand::distributions::Distribution<T>,
;

/// Build an Echo Request whose identifier and sequence are drawn from the
/// process-local random source, as each probe send does; correlation of
/// replies therefore never rests on them. Relies on rand::random for the
/// two draws; nothing is assumed of the drawn values, so everything stated
/// here holds of every outcome.
pub fn fresh_echo_request() -> (r: Vec<u8>)
    ensures
        r@.len() == 16,
        r@[0] == 8u8,
        r@[1] == 0u8,
        forall|i: int| 8 <= i < 16 ==> r@[i] == 0u8,
        256 * (r@[2] as int) + (r@[3] as int) == checksum_spec(
            r@.update(2, 0u8).update(3, 0u8),
        ),
{
    let identifier = rand::random::<u16>();
    let sequence = rand::random::<u16>();
    build_echo_request(sequence, identifier)
}

} // verus!
