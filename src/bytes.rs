//! Integers as little-endian bytes, and writes into a buffer as splices.

use vstd::prelude::*;

verus! {

/// `256^w`: the number of distinct values that fit in `w` bytes.
pub open spec fn byte_base(w: nat) -> nat
    decreases w,
{
    if w == 0 {
        1
    } else {
        256 * byte_base((w - 1) as nat)
    }
}

/// The `w` low bytes of `x`, least significant first.
pub open spec fn le_bytes(x: nat, w: nat) -> Seq<u8>
    decreases w,
{
    if w == 0 {
        Seq::empty()
    } else {
        seq![(x % 256) as u8] + le_bytes(x / 256, (w - 1) as nat)
    }
}

/// The number whose little-endian representation is `s`.
pub open spec fn le_value(s: Seq<u8>) -> nat
    decreases s.len(),
{
    if s.len() == 0 {
        0
    } else {
        s[0] as nat + 256 * le_value(s.drop_first())
    }
}

/// `buf` with `s` copied over it from `pos` on; the length is unchanged.
pub open spec fn spliced(buf: Seq<u8>, pos: int, s: Seq<u8>) -> Seq<u8> {
    buf.subrange(0, pos) + s + buf.subrange(pos + s.len(), buf.len() as int)
}

/// `w` bytes are `w` bytes long.
pub proof fn lemma_le_bytes_len(x: nat, w: nat)
    ensures
        le_bytes(x, w).len() == w,
    decreases w,
{
    if w > 0 {
        lemma_le_bytes_len(x / 256, (w - 1) as nat);
    }
}

/// `256^w` grows with `w`.
pub proof fn lemma_byte_base_mono(a: nat, b: nat)
    requires
        a <= b,
    ensures
        1 <= byte_base(a) <= byte_base(b),
    decreases b,
{
    if b > a {
        lemma_byte_base_mono(a, (b - 1) as nat);
    } else if a > 0 {
        lemma_byte_base_mono((a - 1) as nat, (a - 1) as nat);
    }
}

/// Up to eight bytes, `256^w` is at most `2^64`.
pub proof fn lemma_byte_base_bounds(w: nat)
    ensures
        byte_base(w) >= 1,
        w <= 8 ==> byte_base(w) <= 0x1_0000_0000_0000_0000,
        w <= 7 ==> 256 * byte_base(w) <= 0x1_0000_0000_0000_0000,
{
    reveal_with_fuel(byte_base, 9);
    assert(byte_base(8) == 0x1_0000_0000_0000_0000);
    if w <= 8 {
        lemma_byte_base_mono(w, 8);
    } else {
        lemma_byte_base_mono(0, w);
    }
    if w <= 7 {
        lemma_byte_base_mono(w + 1, 8);
    }
}

/// Reading back the bytes of a number that fits gives the number.
pub proof fn lemma_le_round_trip(x: nat, w: nat)
    requires
        x < byte_base(w),
    ensures
        le_value(le_bytes(x, w)) == x,
    decreases w,
{
    if w > 0 {
        let b = byte_base((w - 1) as nat);
        assert(x / 256 < b) by (nonlinear_arith)
            requires
                x < 256 * b,
        ;
        lemma_le_round_trip(x / 256, (w - 1) as nat);
        assert(le_bytes(x, w).drop_first() =~= le_bytes(x / 256, (w - 1) as nat));
    }
}

/// What `s` spells is below `256^len`.
pub proof fn lemma_le_value_bound(s: Seq<u8>)
    ensures
        le_value(s) < byte_base(s.len()),
    decreases s.len(),
{
    if s.len() > 0 {
        lemma_le_value_bound(s.drop_first());
        let v = le_value(s.drop_first());
        let b = byte_base((s.len() - 1) as nat);
        let d = s[0] as nat;
        assert(d + 256 * v < 256 * b) by (nonlinear_arith)
            requires
                v < b,
                d < 256,
        ;
    }
}

/// Splicing two pieces one after the other is splicing their concatenation.
pub proof fn lemma_splice_concat(buf: Seq<u8>, pos: int, s1: Seq<u8>, s2: Seq<u8>)
    requires
        0 <= pos,
        pos + s1.len() + s2.len() <= buf.len(),
    ensures
        spliced(spliced(buf, pos, s1), pos + s1.len(), s2) == spliced(buf, pos, s1 + s2),
{
    assert(spliced(spliced(buf, pos, s1), pos + s1.len(), s2) =~= spliced(buf, pos, s1 + s2));
}

/// Splicing nothing leaves the buffer as it was.
pub proof fn lemma_splice_empty(buf: Seq<u8>, pos: int)
    requires
        0 <= pos <= buf.len(),
    ensures
        spliced(buf, pos, Seq::empty()) == buf,
{
    assert(spliced(buf, pos, Seq::empty()) =~= buf);
}

/// Writes the `w` low bytes of `x` at `pos`, least significant first, and
/// returns the position after them.
pub fn write_le(bytes: &mut Vec<u8>, pos: usize, x: u64, w: usize) -> (r: usize)
    requires
        pos + w <= old(bytes).len(),
    ensures
        r == pos + w,
        final(bytes)@ == spliced(old(bytes)@, pos as int, le_bytes(x as nat, w as nat)),
    decreases w,
{
    proof {
        lemma_le_bytes_len(x as nat, w as nat);
    }
    if w == 0 {
        proof {
            lemma_splice_empty(bytes@, pos as int);
        }
        return pos;
    }
    let ghost before = bytes@;
    bytes.set(pos, (x % 256) as u8);
    let r = write_le(bytes, pos + 1, x / 256, w - 1);
    proof {
        lemma_le_bytes_len((x / 256) as nat, (w - 1) as nat);
        assert(bytes@ =~= spliced(before, pos as int, le_bytes(x as nat, w as nat)));
    }
    r
}

/// Reads the number spelled little-endian by the `w` bytes at `pos`.
pub fn read_le(bytes: &[u8], pos: usize, w: usize) -> (r: u64)
    requires
        pos + w <= bytes@.len(),
        w <= 8,
    ensures
        r as nat == le_value(bytes@.subrange(pos as int, pos + w)),
    decreases w,
{
    if w == 0 {
        return 0;
    }
    let _n = bytes.len();
    let rest = read_le(bytes, pos + 1, w - 1);
    let ghost s = bytes@.subrange(pos as int, pos + w);
    proof {
        assert(s.drop_first() =~= bytes@.subrange(pos + 1, pos + w));
        lemma_le_value_bound(s.drop_first());
        lemma_byte_base_bounds((w - 1) as nat);
        assert(256 * (rest as nat) + 255 < 0x1_0000_0000_0000_0000) by (nonlinear_arith)
            requires
                (rest as nat) < byte_base((w - 1) as nat),
                256 * byte_base((w - 1) as nat) <= 0x1_0000_0000_0000_0000,
        ;
    }
    bytes[pos] as u64 + 256 * rest
}

} // verus!
