//! A scan of LZO1X streams that tells, before decoding, whether every
//! back-reference stays inside the output decoded so far and the output stays
//! within one block.

use vstd::prelude::*;

verus! {

/// The largest output that a compressed chunk may decode to.
pub const LZO_BLOCK: u64 = 65536;

/// The number of zero bytes in a row from `p` on.
pub open spec fn zero_run(b: Seq<u8>, p: int) -> nat
    decreases b.len() - p,
{
    if 0 <= p < b.len() && b[p] == 0 {
        1 + zero_run(b, p + 1)
    } else {
        0
    }
}

/// The little-endian 16-bit value at `q`.
pub open spec fn le16(b: Seq<u8>, q: int) -> int {
    b[q] as int + b[q + 1] as int * 256
}

/// After a copy that leaves `out` bytes of output, the `n` literal bytes at
/// `q` and the rest of the stream.
pub open spec fn lzo_literals_then(b: Seq<u8>, q: int, n: nat, out: int) -> bool
    decreases b.len() - q, 1int,
{
    if q < 0 || q + n > b.len() {
        true
    } else if out + n > LZO_BLOCK {
        false
    } else {
        lzo_refs_from(b, q + n, n as int, out + n)
    }
}

/// A copy of `len` bytes from `dist` bytes back, with `out` bytes of output
/// so far; then the literal count and rest of the stream at `q`.
pub open spec fn lzo_copy_then(b: Seq<u8>, q: int, dist: int, len: int, lits: nat, out: int) -> bool
    decreases b.len() - q, 2int,
{
    if dist > out || out + len > LZO_BLOCK {
        false
    } else {
        lzo_literals_then(b, q, lits, out + len)
    }
}

/// The stream from the instruction at `p` on, in literal state `state`, with
/// `out` bytes of output so far: `true` where decoding ends, or meets the end
/// of the stream, without a back-reference before the start of the output and
/// without output past one block.
pub open spec fn lzo_refs_from(b: Seq<u8>, p: int, state: int, out: int) -> bool
    decreases b.len() - p, 0int,
{
    if p < 0 || p >= b.len() {
        true
    } else {
        let inst = b[p] as int;
        if inst >= 64 {
            if p + 1 >= b.len() {
                true
            } else {
                lzo_copy_then(
                    b,
                    p + 2,
                    b[p + 1] as int * 8 + (inst / 4) % 8 + 1,
                    inst / 32 + 1,
                    (inst % 4) as nat,
                    out,
                )
            }
        } else if inst >= 16 {
            let mask = if inst >= 32 { 32int } else { 8int };
            let extra = if inst >= 32 { 31int } else { 7int };
            let z = zero_run(b, p + 1);
            let long = inst % mask == 0;
            if long && p + 1 + z >= b.len() {
                true
            } else {
                let q = if long { p + 2 + z } else { p + 1 };
                let len = if long { 2 + z * 255 + extra + b[p + 1 + z] as int } else { inst % mask + 2 };
                if q + 2 > b.len() {
                    true
                } else {
                    let v = le16(b, q);
                    if inst >= 32 {
                        lzo_copy_then(b, q + 2, v / 4 + 1, len, (v % 4) as nat, out)
                    } else {
                        let x = ((inst / 8) % 2) * 16384 + v / 4;
                        if x == 0 {
                            true
                        } else {
                            lzo_copy_then(b, q + 2, x + 16384, len, (v % 4) as nat, out)
                        }
                    }
                }
            }
        } else if state == 0 {
            let z = zero_run(b, p + 1);
            if inst == 0 && p + 1 + z >= b.len() {
                true
            } else {
                let q = if inst == 0 { p + 2 + z } else { p + 1 };
                let len = if inst == 0 { 3 + z * 255 + 15 + b[p + 1 + z] as int } else { inst + 3 };
                if q + len > b.len() {
                    true
                } else if out + len > LZO_BLOCK {
                    false
                } else {
                    lzo_refs_from(b, q + len, 4, out + len)
                }
            }
        } else if p + 1 >= b.len() {
            true
        } else {
            let far = state == 4;
            lzo_copy_then(
                b,
                p + 2,
                inst / 4 + b[p + 1] as int * 4 + if far { 2049int } else { 1int },
                if far { 3int } else { 2int },
                (inst % 4) as nat,
                out,
            )
        }
    }
}

/// The whole stream, from its first byte, which may open with a literal run.
pub open spec fn lzo_refs_in_range(b: Seq<u8>) -> bool {
    if b.len() == 0 {
        true
    } else if b[0] >= 22 {
        let n = b[0] - 17;
        if 1 + n > b.len() {
            true
        } else {
            lzo_refs_from(b, 1 + n, 4, n)
        }
    } else if b[0] >= 18 {
        let n = b[0] - 17;
        if 1 + n > b.len() {
            true
        } else {
            lzo_refs_from(b, 1 + n, n, n)
        }
    } else {
        lzo_refs_from(b, 0, 0, 0)
    }
}

/// The number of zero bytes in a row from `p` on.
fn zero_run_at(b: &[u8], p: usize) -> (r: usize)
    requires
        p <= b@.len(),
    ensures
        r == zero_run(b@, p as int),
        p + r <= b@.len(),
{
    let mut k = p;
    while k < b.len() && b[k] == 0
        invariant
            p <= k <= b@.len(),
            zero_run(b@, p as int) == (k - p) + zero_run(b@, k as int),
        decreases b@.len() - k,
    {
        k = k + 1;
    }
    k - p
}

/// What is left of a scan after one step: decided, or the next instruction's
/// position, literal state and output length.
enum Scan {
    Decided(bool),
    Next(usize, u64, u64),
}

/// The literal bytes after a copy, as `lzo_literals_then` reads them.
fn literals_step(b: &[u8], q: usize, n: u64, out: u64) -> (r: Scan)
    requires
        q <= b@.len(),
        n < 4,
        out <= LZO_BLOCK,
    ensures
        match r {
            Scan::Decided(v) => v == lzo_literals_then(b@, q as int, n as nat, out as int),
            Scan::Next(p2, s2, o2) => {
                &&& lzo_literals_then(b@, q as int, n as nat, out as int) == lzo_refs_from(
                    b@,
                    p2 as int,
                    s2 as int,
                    o2 as int,
                )
                &&& q <= p2 <= b@.len()
                &&& o2 <= LZO_BLOCK
                &&& s2 <= 4
            },
        },
{
    if b.len() - q < n as usize {
        Scan::Decided(true)
    } else if out + n > LZO_BLOCK {
        Scan::Decided(false)
    } else {
        Scan::Next(q + n as usize, n, out + n)
    }
}

/// A copy from `dist` bytes back, as `lzo_copy_then` reads it.
fn copy_step(b: &[u8], q: usize, dist: u128, len: u128, lits: u64, out: u64) -> (r: Scan)
    requires
        q <= b@.len(),
        lits < 4,
        out <= LZO_BLOCK,
        len < 0x1_0000_0000_0000_0000_0000,
    ensures
        match r {
            Scan::Decided(v) => v == lzo_copy_then(b@, q as int, dist as int, len as int, lits as nat, out as int),
            Scan::Next(p2, s2, o2) => {
                &&& lzo_copy_then(b@, q as int, dist as int, len as int, lits as nat, out as int)
                    == lzo_refs_from(b@, p2 as int, s2 as int, o2 as int)
                &&& q <= p2 <= b@.len()
                &&& o2 <= LZO_BLOCK
                &&& s2 <= 4
            },
        },
{
    if dist > out as u128 || out as u128 + len > LZO_BLOCK as u128 {
        Scan::Decided(false)
    } else {
        literals_step(b, q, lits, out + len as u64)
    }
}

/// Whether the stream `b` decodes, or fails, without a back-reference before
/// the start of its output and without output past one block.
pub fn lzo_stream_in_range(b: &[u8]) -> (r: bool)
    ensures
        r == lzo_refs_in_range(b@),
{
    let len = b.len();
    if len == 0 {
        return true;
    }
    let mut p: usize = 0;
    let mut state: u64 = 0;
    let mut out: u64 = 0;
    let f = b[0];
    if f >= 18 {
        let n = (f - 17) as usize;
        if len - 1 < n {
            return true;
        }
        p = 1 + n;
        state = if f >= 22 { 4 } else { n as u64 };
        out = n as u64;
    }
    while p < len
        invariant
            len == b@.len(),
            p <= len,
            state <= 4,
            out <= LZO_BLOCK,
            lzo_refs_from(b@, p as int, state as int, out as int) == lzo_refs_in_range(b@),
        decreases len - p,
    {
        let inst = b[p] as u64;
        let step: Scan = if inst >= 64 {
            if len - p <= 1 {
                return true;
            }
            copy_step(
                b,
                p + 2,
                b[p + 1] as u128 * 8 + ((inst / 4) % 8) as u128 + 1,
                (inst / 32 + 1) as u128,
                inst % 4,
                out,
            )
        } else if inst >= 16 {
            let mask: u64 = if inst >= 32 { 32 } else { 8 };
            let extra: u128 = if inst >= 32 { 31 } else { 7 };
            let z = zero_run_at(b, p + 1);
            let long = inst % mask == 0;
            if long && len - (p + 1) <= z {
                return true;
            }
            let q = if long { p + 2 + z } else { p + 1 };
            let l: u128 = if long {
                2 + z as u128 * 255 + extra + b[p + 1 + z] as u128
            } else {
                (inst % mask + 2) as u128
            };
            if len - q < 2 {
                return true;
            }
            let v = b[q] as u64 + b[q + 1] as u64 * 256;
            if inst >= 32 {
                copy_step(b, q + 2, (v / 4 + 1) as u128, l, v % 4, out)
            } else {
                let x = ((inst / 8) % 2) * 16384 + v / 4;
                if x == 0 {
                    return true;
                }
                copy_step(b, q + 2, (x + 16384) as u128, l, v % 4, out)
            }
        } else if state == 0 {
            let z = zero_run_at(b, p + 1);
            if inst == 0 && len - (p + 1) <= z {
                return true;
            }
            let q = if inst == 0 { p + 2 + z } else { p + 1 };
            let l: u128 = if inst == 0 {
                3 + z as u128 * 255 + 15 + b[p + 1 + z] as u128
            } else {
                (inst + 3) as u128
            };
            if l > (len - q) as u128 {
                return true;
            }
            if out as u128 + l > LZO_BLOCK as u128 {
                return false;
            }
            Scan::Next(q + l as usize, 4, out + l as u64)
        } else {
            if len - p <= 1 {
                return true;
            }
            let far = state == 4;
            let dist: u128 = (inst / 4) as u128 + b[p + 1] as u128 * 4 + if far {
                2049
            } else {
                1
            };
            copy_step(b, p + 2, dist, if far { 3 } else { 2 }, inst % 4, out)
        };
        match step {
            Scan::Decided(v) => {
                return v;
            },
            Scan::Next(p2, s2, o2) => {
                p = p2;
                state = s2;
                out = o2;
            },
        }
    }
    true
}

} // verus!
