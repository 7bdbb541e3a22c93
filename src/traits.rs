//! The write and read capabilities, and the built-in codecs.

use vstd::prelude::*;
use vstd::layout::{layout_of_primitives, size_of};
use crate::bytes::{
    byte_base, le_bytes, le_value, lemma_le_bytes_len, lemma_le_round_trip, lemma_le_value_bound,
    lemma_splice_concat, lemma_splice_empty, read_le, spliced, write_le,
};

verus! {

/// Writing: a static bound on the encoded size, and the encoding itself.
pub trait Poke: Sized {
    /// The most bytes that any value of the type encodes to.
    spec fn spec_max_size() -> nat;

    /// The canonical encoding of the value.
    spec fn spec_bytes(&self) -> Seq<u8>;

    /// No value encodes to more than the bound.
    proof fn lemma_fits(&self)
        ensures
            self.spec_bytes().len() <= Self::spec_max_size(),
    ;

    /// The bound, in bytes; the same for every value of the type.
    fn max_size() -> (r: usize)
        requires
            Self::spec_max_size() <= usize::MAX,
        ensures
            r == Self::spec_max_size(),
    ;

    /// Copies the encoding of `self` into `bytes` at `pos` and returns the
    /// position after it. The caller makes room for `max_size` bytes.
    fn poke_into(&self, bytes: &mut Vec<u8>, pos: usize) -> (r: usize)
        requires
            pos + Self::spec_max_size() <= old(bytes)@.len(),
        ensures
            r == pos + self.spec_bytes().len(),
            final(bytes)@ == spliced(old(bytes)@, pos as int, self.spec_bytes()),
    ;
}

/// Reading: decodes what `Poke` wrote.
pub trait Peek: Poke {
    /// The value that `b` starts with and how many bytes it takes; `None`
    /// when `b` is too short or holds a tag out of range.
    spec fn spec_parse(b: Seq<u8>) -> Option<(Self, nat)>;

    /// Decoding an encoding, with anything after it, gives back the value.
    proof fn lemma_round_trip(&self, rest: Seq<u8>)
        ensures
            Self::spec_parse(self.spec_bytes() + rest) == Some((*self, self.spec_bytes().len())),
    ;

    /// Reads a value from `bytes` at `pos` into fresh storage; returns it
    /// with the position after it.
    fn peek_new(bytes: &[u8], pos: usize) -> (r: (Self, usize))
        requires
            pos <= bytes@.len(),
            Self::spec_parse(bytes@.subrange(pos as int, bytes@.len() as int)) is Some,
        ensures
            pos <= r.1 <= bytes@.len(),
            Self::spec_parse(bytes@.subrange(pos as int, bytes@.len() as int)) == Some(
                (r.0, (r.1 - pos) as nat),
            ),
    ;

    /// Reads a value from `bytes` at `pos` over `self`, whatever it held,
    /// and returns the position after it.
    fn peek_from(&mut self, bytes: &[u8], pos: usize) -> (r: usize)
        requires
            pos <= bytes@.len(),
            Self::spec_parse(bytes@.subrange(pos as int, bytes@.len() as int)) is Some,
        ensures
            pos <= r <= bytes@.len(),
            Self::spec_parse(bytes@.subrange(pos as int, bytes@.len() as int)) == Some(
                (*final(self), (r - pos) as nat),
            ),
    {
        let (v, r) = Self::peek_new(bytes, pos);
        *self = v;
        r
    }
}

/// Two's complement: the `w`-byte pattern of a signed value.
pub open spec fn twos(v: int, w: nat) -> nat {
    if v >= 0 {
        v as nat
    } else {
        (v + byte_base(w)) as nat
    }
}

/// The signed value of a `w`-byte pattern.
pub open spec fn untwos(x: nat, w: nat) -> int {
    if x < byte_base(w) / 2 {
        x as int
    } else {
        x - byte_base(w)
    }
}

impl Poke for u8 {
    open spec fn spec_max_size() -> nat {
        1
    }

    open spec fn spec_bytes(&self) -> Seq<u8> {
        le_bytes(*self as nat, 1)
    }

    proof fn lemma_fits(&self) {
        lemma_le_bytes_len(*self as nat, 1);
    }

    fn max_size() -> (r: usize) {
        1
    }

    fn poke_into(&self, bytes: &mut Vec<u8>, pos: usize) -> (r: usize) {
        proof {
            lemma_le_bytes_len(*self as nat, 1);
        }
        write_le(bytes, pos, *self as u64, 1)
    }
}

impl Peek for u8 {
    open spec fn spec_parse(b: Seq<u8>) -> Option<(u8, nat)> {
        if b.len() >= 1 {
            Some((le_value(b.take(1 as int)) as u8, 1))
        } else {
            None
        }
    }

    proof fn lemma_round_trip(&self, rest: Seq<u8>) {
        reveal_with_fuel(byte_base, 9);
        lemma_le_bytes_len(*self as nat, 1);
        lemma_le_round_trip(*self as nat, 1);
        assert((self.spec_bytes() + rest).take(1 as int) =~= self.spec_bytes());
    }

    fn peek_new(bytes: &[u8], pos: usize) -> (r: (u8, usize)) {
        let _len = bytes.len();
        let w: usize = 1;
        proof {
            reveal_with_fuel(byte_base, 9);
            let s = bytes@.subrange(pos as int, pos + w);
            assert(bytes@.subrange(pos as int, bytes@.len() as int).take(w as int) =~= s);
            lemma_le_value_bound(s);
        }
        let x = read_le(bytes, pos, w);
        (x as u8, pos + w)
    }
}

impl Poke for u16 {
    open spec fn spec_max_size() -> nat {
        2
    }

    open spec fn spec_bytes(&self) -> Seq<u8> {
        le_bytes(*self as nat, 2)
    }

    proof fn lemma_fits(&self) {
        lemma_le_bytes_len(*self as nat, 2);
    }

    fn max_size() -> (r: usize) {
        2
    }

    fn poke_into(&self, bytes: &mut Vec<u8>, pos: usize) -> (r: usize) {
        proof {
            lemma_le_bytes_len(*self as nat, 2);
        }
        write_le(bytes, pos, *self as u64, 2)
    }
}

impl Peek for u16 {
    open spec fn spec_parse(b: Seq<u8>) -> Option<(u16, nat)> {
        if b.len() >= 2 {
            Some((le_value(b.take(2 as int)) as u16, 2))
        } else {
            None
        }
    }

    proof fn lemma_round_trip(&self, rest: Seq<u8>) {
        reveal_with_fuel(byte_base, 9);
        lemma_le_bytes_len(*self as nat, 2);
        lemma_le_round_trip(*self as nat, 2);
        assert((self.spec_bytes() + rest).take(2 as int) =~= self.spec_bytes());
    }

    fn peek_new(bytes: &[u8], pos: usize) -> (r: (u16, usize)) {
        let _len = bytes.len();
        let w: usize = 2;
        proof {
            reveal_with_fuel(byte_base, 9);
            let s = bytes@.subrange(pos as int, pos + w);
            assert(bytes@.subrange(pos as int, bytes@.len() as int).take(w as int) =~= s);
            lemma_le_value_bound(s);
        }
        let x = read_le(bytes, pos, w);
        (x as u16, pos + w)
    }
}

impl Poke for u32 {
    open spec fn spec_max_size() -> nat {
        4
    }

    open spec fn spec_bytes(&self) -> Seq<u8> {
        le_bytes(*self as nat, 4)
    }

    proof fn lemma_fits(&self) {
        lemma_le_bytes_len(*self as nat, 4);
    }

    fn max_size() -> (r: usize) {
        4
    }

    fn poke_into(&self, bytes: &mut Vec<u8>, pos: usize) -> (r: usize) {
        proof {
            lemma_le_bytes_len(*self as nat, 4);
        }
        write_le(bytes, pos, *self as u64, 4)
    }
}

impl Peek for u32 {
    open spec fn spec_parse(b: Seq<u8>) -> Option<(u32, nat)> {
        if b.len() >= 4 {
            Some((le_value(b.take(4 as int)) as u32, 4))
        } else {
            None
        }
    }

    proof fn lemma_round_trip(&self, rest: Seq<u8>) {
        reveal_with_fuel(byte_base, 9);
        lemma_le_bytes_len(*self as nat, 4);
        lemma_le_round_trip(*self as nat, 4);
        assert((self.spec_bytes() + rest).take(4 as int) =~= self.spec_bytes());
    }

    fn peek_new(bytes: &[u8], pos: usize) -> (r: (u32, usize)) {
        let _len = bytes.len();
        let w: usize = 4;
        proof {
            reveal_with_fuel(byte_base, 9);
            let s = bytes@.subrange(pos as int, pos + w);
            assert(bytes@.subrange(pos as int, bytes@.len() as int).take(w as int) =~= s);
            lemma_le_value_bound(s);
        }
        let x = read_le(bytes, pos, w);
        (x as u32, pos + w)
    }
}

impl Poke for u64 {
    open spec fn spec_max_size() -> nat {
        8
    }

    open spec fn spec_bytes(&self) -> Seq<u8> {
        le_bytes(*self as nat, 8)
    }

    proof fn lemma_fits(&self) {
        lemma_le_bytes_len(*self as nat, 8);
    }

    fn max_size() -> (r: usize) {
        8
    }

    fn poke_into(&self, bytes: &mut Vec<u8>, pos: usize) -> (r: usize) {
        proof {
            lemma_le_bytes_len(*self as nat, 8);
        }
        write_le(bytes, pos, *self as u64, 8)
    }
}

impl Peek for u64 {
    open spec fn spec_parse(b: Seq<u8>) -> Option<(u64, nat)> {
        if b.len() >= 8 {
            Some((le_value(b.take(8 as int)) as u64, 8))
        } else {
            None
        }
    }

    proof fn lemma_round_trip(&self, rest: Seq<u8>) {
        reveal_with_fuel(byte_base, 9);
        lemma_le_bytes_len(*self as nat, 8);
        lemma_le_round_trip(*self as nat, 8);
        assert((self.spec_bytes() + rest).take(8 as int) =~= self.spec_bytes());
    }

    fn peek_new(bytes: &[u8], pos: usize) -> (r: (u64, usize)) {
        let _len = bytes.len();
        let w: usize = 8;
        proof {
            reveal_with_fuel(byte_base, 9);
            let s = bytes@.subrange(pos as int, pos + w);
            assert(bytes@.subrange(pos as int, bytes@.len() as int).take(w as int) =~= s);
            lemma_le_value_bound(s);
        }
        let x = read_le(bytes, pos, w);
        (x as u64, pos + w)
    }
}

impl Poke for usize {
    open spec fn spec_max_size() -> nat {
        size_of::<usize>()
    }

    open spec fn spec_bytes(&self) -> Seq<u8> {
        le_bytes(*self as nat, size_of::<usize>())
    }

    proof fn lemma_fits(&self) {
        lemma_le_bytes_len(*self as nat, size_of::<usize>());
    }

    fn max_size() -> (r: usize) {
        core::mem::size_of::<usize>()
    }

    fn poke_into(&self, bytes: &mut Vec<u8>, pos: usize) -> (r: usize) {
        proof {
            broadcast use layout_of_primitives;
            lemma_le_bytes_len(*self as nat, size_of::<usize>());
        }
        write_le(bytes, pos, *self as u64, core::mem::size_of::<usize>())
    }
}

impl Peek for usize {
    open spec fn spec_parse(b: Seq<u8>) -> Option<(usize, nat)> {
        if b.len() >= size_of::<usize>() {
            Some((le_value(b.take(size_of::<usize>() as int)) as usize, size_of::<usize>()))
        } else {
            None
        }
    }

    proof fn lemma_round_trip(&self, rest: Seq<u8>) {
        broadcast use layout_of_primitives;
        reveal_with_fuel(byte_base, 9);
        lemma_le_bytes_len(*self as nat, size_of::<usize>());
        lemma_le_round_trip(*self as nat, size_of::<usize>());
        assert((self.spec_bytes() + rest).take(size_of::<usize>() as int) =~= self.spec_bytes());
    }

    fn peek_new(bytes: &[u8], pos: usize) -> (r: (usize, usize)) {
        let _len = bytes.len();
        let w: usize = core::mem::size_of::<usize>();
        proof {
            broadcast use layout_of_primitives;
            reveal_with_fuel(byte_base, 9);
            let s = bytes@.subrange(pos as int, pos + w);
            assert(bytes@.subrange(pos as int, bytes@.len() as int).take(w as int) =~= s);
            lemma_le_value_bound(s);
        }
        let x = read_le(bytes, pos, w);
        (x as usize, pos + w)
    }
}

impl Poke for i8 {
    open spec fn spec_max_size() -> nat {
        1
    }

    open spec fn spec_bytes(&self) -> Seq<u8> {
        le_bytes(twos(*self as int, 1), 1)
    }

    proof fn lemma_fits(&self) {
        lemma_le_bytes_len(twos(*self as int, 1), 1);
    }

    fn max_size() -> (r: usize) {
        1
    }

    fn poke_into(&self, bytes: &mut Vec<u8>, pos: usize) -> (r: usize) {
        proof {
            reveal_with_fuel(byte_base, 9);
            lemma_le_bytes_len(twos(*self as int, 1), 1);
        }
        let x: u64 = if *self >= 0 {
            *self as u64
        } else {
            (*self as i64 + 0x100) as u64
        };
        write_le(bytes, pos, x, 1)
    }
}

impl Peek for i8 {
    open spec fn spec_parse(b: Seq<u8>) -> Option<(i8, nat)> {
        if b.len() >= 1 {
            Some((untwos(le_value(b.take(1 as int)), 1) as i8, 1))
        } else {
            None
        }
    }

    proof fn lemma_round_trip(&self, rest: Seq<u8>) {
        reveal_with_fuel(byte_base, 9);
        let x = twos(*self as int, 1);
        lemma_le_bytes_len(x, 1);
        lemma_le_round_trip(x, 1);
        assert((self.spec_bytes() + rest).take(1 as int) =~= self.spec_bytes());
    }

    fn peek_new(bytes: &[u8], pos: usize) -> (r: (i8, usize)) {
        let _len = bytes.len();
        let w: usize = 1;
        proof {
            reveal_with_fuel(byte_base, 9);
            let s = bytes@.subrange(pos as int, pos + w);
            assert(bytes@.subrange(pos as int, bytes@.len() as int).take(w as int) =~= s);
            lemma_le_value_bound(s);
        }
        let x = read_le(bytes, pos, w);
        let v: i8 = if x <= 0x7f {
            x as i8
        } else {
            (x as i64 - 0x100) as i8
        };
        (v, pos + w)
    }
}

impl Poke for i16 {
    open spec fn spec_max_size() -> nat {
        2
    }

    open spec fn spec_bytes(&self) -> Seq<u8> {
        le_bytes(twos(*self as int, 2), 2)
    }

    proof fn lemma_fits(&self) {
        lemma_le_bytes_len(twos(*self as int, 2), 2);
    }

    fn max_size() -> (r: usize) {
        2
    }

    fn poke_into(&self, bytes: &mut Vec<u8>, pos: usize) -> (r: usize) {
        proof {
            reveal_with_fuel(byte_base, 9);
            lemma_le_bytes_len(twos(*self as int, 2), 2);
        }
        let x: u64 = if *self >= 0 {
            *self as u64
        } else {
            (*self as i64 + 0x10000) as u64
        };
        write_le(bytes, pos, x, 2)
    }
}

impl Peek for i16 {
    open spec fn spec_parse(b: Seq<u8>) -> Option<(i16, nat)> {
        if b.len() >= 2 {
            Some((untwos(le_value(b.take(2 as int)), 2) as i16, 2))
        } else {
            None
        }
    }

    proof fn lemma_round_trip(&self, rest: Seq<u8>) {
        reveal_with_fuel(byte_base, 9);
        let x = twos(*self as int, 2);
        lemma_le_bytes_len(x, 2);
        lemma_le_round_trip(x, 2);
        assert((self.spec_bytes() + rest).take(2 as int) =~= self.spec_bytes());
    }

    fn peek_new(bytes: &[u8], pos: usize) -> (r: (i16, usize)) {
        let _len = bytes.len();
        let w: usize = 2;
        proof {
            reveal_with_fuel(byte_base, 9);
            let s = bytes@.subrange(pos as int, pos + w);
            assert(bytes@.subrange(pos as int, bytes@.len() as int).take(w as int) =~= s);
            lemma_le_value_bound(s);
        }
        let x = read_le(bytes, pos, w);
        let v: i16 = if x <= 0x7fff {
            x as i16
        } else {
            (x as i64 - 0x10000) as i16
        };
        (v, pos + w)
    }
}

impl Poke for i32 {
    open spec fn spec_max_size() -> nat {
        4
    }

    open spec fn spec_bytes(&self) -> Seq<u8> {
        le_bytes(twos(*self as int, 4), 4)
    }

    proof fn lemma_fits(&self) {
        lemma_le_bytes_len(twos(*self as int, 4), 4);
    }

    fn max_size() -> (r: usize) {
        4
    }

    fn poke_into(&self, bytes: &mut Vec<u8>, pos: usize) -> (r: usize) {
        proof {
            reveal_with_fuel(byte_base, 9);
            lemma_le_bytes_len(twos(*self as int, 4), 4);
        }
        let x: u64 = if *self >= 0 {
            *self as u64
        } else {
            (*self as i64 + 0x100000000) as u64
        };
        write_le(bytes, pos, x, 4)
    }
}

impl Peek for i32 {
    open spec fn spec_parse(b: Seq<u8>) -> Option<(i32, nat)> {
        if b.len() >= 4 {
            Some((untwos(le_value(b.take(4 as int)), 4) as i32, 4))
        } else {
            None
        }
    }

    proof fn lemma_round_trip(&self, rest: Seq<u8>) {
        reveal_with_fuel(byte_base, 9);
        let x = twos(*self as int, 4);
        lemma_le_bytes_len(x, 4);
        lemma_le_round_trip(x, 4);
        assert((self.spec_bytes() + rest).take(4 as int) =~= self.spec_bytes());
    }

    fn peek_new(bytes: &[u8], pos: usize) -> (r: (i32, usize)) {
        let _len = bytes.len();
        let w: usize = 4;
        proof {
            reveal_with_fuel(byte_base, 9);
            let s = bytes@.subrange(pos as int, pos + w);
            assert(bytes@.subrange(pos as int, bytes@.len() as int).take(w as int) =~= s);
            lemma_le_value_bound(s);
        }
        let x = read_le(bytes, pos, w);
        let v: i32 = if x <= 0x7fffffff {
            x as i32
        } else {
            (x as i64 - 0x100000000) as i32
        };
        (v, pos + w)
    }
}

impl Poke for i64 {
    open spec fn spec_max_size() -> nat {
        8
    }

    open spec fn spec_bytes(&self) -> Seq<u8> {
        le_bytes(twos(*self as int, 8), 8)
    }

    proof fn lemma_fits(&self) {
        lemma_le_bytes_len(twos(*self as int, 8), 8);
    }

    fn max_size() -> (r: usize) {
        8
    }

    fn poke_into(&self, bytes: &mut Vec<u8>, pos: usize) -> (r: usize) {
        proof {
            reveal_with_fuel(byte_base, 9);
            lemma_le_bytes_len(twos(*self as int, 8), 8);
        }
        let x: u64 = if *self >= 0 {
            *self as u64
        } else {
            u64::MAX - (-(*self + 1)) as u64
        };
        write_le(bytes, pos, x, 8)
    }
}

impl Peek for i64 {
    open spec fn spec_parse(b: Seq<u8>) -> Option<(i64, nat)> {
        if b.len() >= 8 {
            Some((untwos(le_value(b.take(8 as int)), 8) as i64, 8))
        } else {
            None
        }
    }

    proof fn lemma_round_trip(&self, rest: Seq<u8>) {
        reveal_with_fuel(byte_base, 9);
        let x = twos(*self as int, 8);
        lemma_le_bytes_len(x, 8);
        lemma_le_round_trip(x, 8);
        assert((self.spec_bytes() + rest).take(8 as int) =~= self.spec_bytes());
    }

    fn peek_new(bytes: &[u8], pos: usize) -> (r: (i64, usize)) {
        let _len = bytes.len();
        let w: usize = 8;
        proof {
            reveal_with_fuel(byte_base, 9);
            let s = bytes@.subrange(pos as int, pos + w);
            assert(bytes@.subrange(pos as int, bytes@.len() as int).take(w as int) =~= s);
            lemma_le_value_bound(s);
        }
        let x = read_le(bytes, pos, w);
        let v: i64 = if x <= 0x7fffffffffffffff {
            x as i64
        } else {
            -((u64::MAX - x) as i64) - 1
        };
        (v, pos + w)
    }
}

impl Poke for isize {
    open spec fn spec_max_size() -> nat {
        size_of::<usize>()
    }

    open spec fn spec_bytes(&self) -> Seq<u8> {
        le_bytes(twos(*self as int, size_of::<usize>()), size_of::<usize>())
    }

    proof fn lemma_fits(&self) {
        lemma_le_bytes_len(twos(*self as int, size_of::<usize>()), size_of::<usize>());
    }

    fn max_size() -> (r: usize) {
        core::mem::size_of::<usize>()
    }

    fn poke_into(&self, bytes: &mut Vec<u8>, pos: usize) -> (r: usize) {
        proof {
            broadcast use layout_of_primitives;
            reveal_with_fuel(byte_base, 9);
            lemma_le_bytes_len(twos(*self as int, size_of::<usize>()), size_of::<usize>());
        }
        let x: u64 = if *self >= 0 {
            *self as u64
        } else {
            usize::MAX as u64 - (-(*self + 1)) as u64
        };
        write_le(bytes, pos, x, core::mem::size_of::<usize>())
    }
}

impl Peek for isize {
    open spec fn spec_parse(b: Seq<u8>) -> Option<(isize, nat)> {
        if b.len() >= size_of::<usize>() {
            Some((untwos(le_value(b.take(size_of::<usize>() as int)), size_of::<usize>()) as isize, size_of::<usize>()))
        } else {
            None
        }
    }

    proof fn lemma_round_trip(&self, rest: Seq<u8>) {
        broadcast use layout_of_primitives;
        reveal_with_fuel(byte_base, 9);
        let x = twos(*self as int, size_of::<usize>());
        lemma_le_bytes_len(x, size_of::<usize>());
        lemma_le_round_trip(x, size_of::<usize>());
        assert((self.spec_bytes() + rest).take(size_of::<usize>() as int) =~= self.spec_bytes());
    }

    fn peek_new(bytes: &[u8], pos: usize) -> (r: (isize, usize)) {
        let _len = bytes.len();
        let w: usize = core::mem::size_of::<usize>();
        proof {
            broadcast use layout_of_primitives;
            reveal_with_fuel(byte_base, 9);
            let s = bytes@.subrange(pos as int, pos + w);
            assert(bytes@.subrange(pos as int, bytes@.len() as int).take(w as int) =~= s);
            lemma_le_value_bound(s);
        }
        let x = read_le(bytes, pos, w);
        let v: isize = if x <= isize::MAX as u64 {
            x as isize
        } else {
            -((usize::MAX as u64 - x) as isize) - 1
        };
        (v, pos + w)
    }
}

impl Poke for bool {
    open spec fn spec_max_size() -> nat {
        1
    }

    open spec fn spec_bytes(&self) -> Seq<u8> {
        seq![if *self { 1u8 } else { 0u8 }]
    }

    proof fn lemma_fits(&self) {
    }

    fn max_size() -> (r: usize) {
        1
    }

    fn poke_into(&self, bytes: &mut Vec<u8>, pos: usize) -> (r: usize) {
        let _len = bytes.len();
        let ghost before = bytes@;
        bytes.set(pos, if *self { 1 } else { 0 });
        proof {
            assert(bytes@ =~= spliced(before, pos as int, self.spec_bytes()));
        }
        pos + 1
    }
}

impl Peek for bool {
    /// Any byte but 0 reads as `true`.
    open spec fn spec_parse(b: Seq<u8>) -> Option<(bool, nat)> {
        if b.len() >= 1 {
            Some((b[0] != 0, 1))
        } else {
            None
        }
    }

    proof fn lemma_round_trip(&self, rest: Seq<u8>) {
    }

    fn peek_new(bytes: &[u8], pos: usize) -> (r: (bool, usize)) {
        (bytes[pos] != 0, pos + 1)
    }
}

impl Poke for () {
    open spec fn spec_max_size() -> nat {
        0
    }

    open spec fn spec_bytes(&self) -> Seq<u8> {
        Seq::empty()
    }

    proof fn lemma_fits(&self) {
    }

    fn max_size() -> (r: usize) {
        0
    }

    fn poke_into(&self, bytes: &mut Vec<u8>, pos: usize) -> (r: usize) {
        proof {
            lemma_splice_empty(bytes@, pos as int);
        }
        pos
    }
}

impl Peek for () {
    open spec fn spec_parse(b: Seq<u8>) -> Option<((), nat)> {
        Some(((), 0))
    }

    proof fn lemma_round_trip(&self, rest: Seq<u8>) {
    }

    fn peek_new(bytes: &[u8], pos: usize) -> (r: ((), usize)) {
        ((), pos)
    }
}

impl<T> Poke for core::marker::PhantomData<T> {
    open spec fn spec_max_size() -> nat {
        0
    }

    open spec fn spec_bytes(&self) -> Seq<u8> {
        Seq::empty()
    }

    proof fn lemma_fits(&self) {
    }

    fn max_size() -> (r: usize) {
        0
    }

    fn poke_into(&self, bytes: &mut Vec<u8>, pos: usize) -> (r: usize) {
        proof {
            lemma_splice_empty(bytes@, pos as int);
        }
        pos
    }
}

impl<T> Peek for core::marker::PhantomData<T> {
    open spec fn spec_parse(b: Seq<u8>) -> Option<(core::marker::PhantomData<T>, nat)> {
        Some((core::marker::PhantomData, 0))
    }

    proof fn lemma_round_trip(&self, rest: Seq<u8>) {
    }

    fn peek_new(bytes: &[u8], pos: usize) -> (r: (core::marker::PhantomData<T>, usize)) {
        (core::marker::PhantomData, pos)
    }
}

impl<T: Poke> Poke for Option<T> {
    open spec fn spec_max_size() -> nat {
        1 + T::spec_max_size()
    }

    open spec fn spec_bytes(&self) -> Seq<u8> {
        match self {
            None => seq![0u8],
            Some(x) => seq![1u8] + x.spec_bytes(),
        }
    }

    proof fn lemma_fits(&self) {
        if let Some(x) = self {
            x.lemma_fits();
        }
    }

    fn max_size() -> (r: usize) {
        1 + T::max_size()
    }

    fn poke_into(&self, bytes: &mut Vec<u8>, pos: usize) -> (r: usize) {
        let _len = bytes.len();
        let ghost before = bytes@;
        match self {
            None => {
                bytes.set(pos, 0);
                proof {
                    assert(bytes@ =~= spliced(before, pos as int, self.spec_bytes()));
                }
                pos + 1
            },
            Some(x) => {
                bytes.set(pos, 1);
                proof {
                    assert(bytes@ =~= spliced(before, pos as int, seq![1u8]));
                    x.lemma_fits();
                    lemma_splice_concat(before, pos as int, seq![1u8], x.spec_bytes());
                }
                x.poke_into(bytes, pos + 1)
            },
        }
    }
}

impl<T: Peek> Peek for Option<T> {
    /// A presence byte other than 0 or 1 does not decode.
    open spec fn spec_parse(b: Seq<u8>) -> Option<(Option<T>, nat)> {
        if b.len() == 0 {
            None
        } else if b[0] == 0 {
            Some((None, 1))
        } else if b[0] == 1 {
            match T::spec_parse(b.drop_first()) {
                Some((x, m)) => Some((Some(x), 1 + m)),
                None => None,
            }
        } else {
            None
        }
    }

    proof fn lemma_round_trip(&self, rest: Seq<u8>) {
        if let Some(x) = self {
            x.lemma_round_trip(rest);
            assert((self.spec_bytes() + rest).drop_first() =~= x.spec_bytes() + rest);
        }
    }

    /// The payload is read in full before the option that holds it is made.
    fn peek_new(bytes: &[u8], pos: usize) -> (r: (Option<T>, usize)) {
        if bytes[pos] == 0 {
            (None, pos + 1)
        } else {
            proof {
                assert(bytes@.subrange(pos as int, bytes@.len() as int).drop_first() =~= bytes@.subrange(
                    pos + 1,
                    bytes@.len() as int,
                ));
            }
            let (x, q) = T::peek_new(bytes, pos + 1);
            (Some(x), q)
        }
    }
}

impl<A: Poke, B: Poke> Poke for (A, B) {
    open spec fn spec_max_size() -> nat {
        A::spec_max_size() + B::spec_max_size()
    }

    open spec fn spec_bytes(&self) -> Seq<u8> {
        self.0.spec_bytes() + self.1.spec_bytes()
    }

    proof fn lemma_fits(&self) {
        self.0.lemma_fits();
        self.1.lemma_fits();
    }

    fn max_size() -> (r: usize) {
        A::max_size() + B::max_size()
    }

    fn poke_into(&self, bytes: &mut Vec<u8>, pos: usize) -> (r: usize) {
        let ghost before = bytes@;
        proof {
            self.0.lemma_fits();
            self.1.lemma_fits();
            lemma_splice_concat(before, pos as int, self.0.spec_bytes(), self.1.spec_bytes());
        }
        let p = self.0.poke_into(bytes, pos);
        self.1.poke_into(bytes, p)
    }
}

impl<A: Peek, B: Peek> Peek for (A, B) {
    open spec fn spec_parse(b: Seq<u8>) -> Option<((A, B), nat)> {
        match A::spec_parse(b) {
            Some((x, m)) => if m <= b.len() {
                match B::spec_parse(b.skip(m as int)) {
                    Some((y, k)) => Some(((x, y), m + k)),
                    None => None,
                }
            } else {
                None
            },
            None => None,
        }
    }

    proof fn lemma_round_trip(&self, rest: Seq<u8>) {
        let b0 = self.0.spec_bytes();
        let b1 = self.1.spec_bytes();
        self.0.lemma_round_trip(b1 + rest);
        self.1.lemma_round_trip(rest);
        assert(self.spec_bytes() + rest =~= b0 + (b1 + rest));
        assert((self.spec_bytes() + rest).skip(b0.len() as int) =~= b1 + rest);
    }

    /// Both elements are read before the pair is made.
    fn peek_new(bytes: &[u8], pos: usize) -> (r: ((A, B), usize)) {
        let ghost b = bytes@.subrange(pos as int, bytes@.len() as int);
        let (x, p) = A::peek_new(bytes, pos);
        proof {
            assert(b.skip(p - pos) =~= bytes@.subrange(p as int, bytes@.len() as int));
        }
        let (y, q) = B::peek_new(bytes, p);
        ((x, y), q)
    }
}

impl<A: Poke, B: Poke, C: Poke> Poke for (A, B, C) {
    open spec fn spec_max_size() -> nat {
        A::spec_max_size() + B::spec_max_size() + C::spec_max_size()
    }

    open spec fn spec_bytes(&self) -> Seq<u8> {
        self.0.spec_bytes() + self.1.spec_bytes() + self.2.spec_bytes()
    }

    proof fn lemma_fits(&self) {
        self.0.lemma_fits();
        self.1.lemma_fits();
        self.2.lemma_fits();
    }

    fn max_size() -> (r: usize) {
        A::max_size() + B::max_size() + C::max_size()
    }

    fn poke_into(&self, bytes: &mut Vec<u8>, pos: usize) -> (r: usize) {
        let ghost before = bytes@;
        let ghost b0 = self.0.spec_bytes();
        let ghost b1 = self.1.spec_bytes();
        let ghost b2 = self.2.spec_bytes();
        proof {
            self.0.lemma_fits();
            self.1.lemma_fits();
            self.2.lemma_fits();
            lemma_splice_concat(before, pos as int, b0, b1);
            lemma_splice_concat(before, pos as int, b0 + b1, b2);
        }
        let p = self.0.poke_into(bytes, pos);
        let q = self.1.poke_into(bytes, p);
        self.2.poke_into(bytes, q)
    }
}

impl<A: Peek, B: Peek, C: Peek> Peek for (A, B, C) {
    open spec fn spec_parse(b: Seq<u8>) -> Option<((A, B, C), nat)> {
        match <(A, B)>::spec_parse(b) {
            Some((xy, m)) => if m <= b.len() {
                match C::spec_parse(b.skip(m as int)) {
                    Some((z, k)) => Some(((xy.0, xy.1, z), m + k)),
                    None => None,
                }
            } else {
                None
            },
            None => None,
        }
    }

    proof fn lemma_round_trip(&self, rest: Seq<u8>) {
        let b01 = self.0.spec_bytes() + self.1.spec_bytes();
        let b2 = self.2.spec_bytes();
        (self.0, self.1).lemma_round_trip(b2 + rest);
        self.2.lemma_round_trip(rest);
        assert(self.spec_bytes() + rest =~= b01 + (b2 + rest));
        assert((self.spec_bytes() + rest).skip(b01.len() as int) =~= b2 + rest);
    }

    /// All three elements are read before the triple is made.
    fn peek_new(bytes: &[u8], pos: usize) -> (r: ((A, B, C), usize)) {
        let ghost b = bytes@.subrange(pos as int, bytes@.len() as int);
        let (xy, p) = <(A, B)>::peek_new(bytes, pos);
        proof {
            assert(b.skip(p - pos) =~= bytes@.subrange(p as int, bytes@.len() as int));
        }
        let (z, q) = C::peek_new(bytes, p);
        let (x, y) = xy;
        ((x, y, z), q)
    }
}

/// The larger of `a` and `b`.
pub fn max(a: usize, b: usize) -> (r: usize)
    ensures
        r == if a >= b {
            a
        } else {
            b
        },
{
    if a >= b {
        a
    } else {
        b
    }
}

/// Writes `v` into a buffer reserved at `max_size` bytes, then trims the
/// buffer to the bytes actually written.
pub fn poke_to_vec<T: Poke>(v: &T) -> (r: Vec<u8>)
    requires
        T::spec_max_size() <= usize::MAX,
    ensures
        r@ == v.spec_bytes(),
{
    let n = T::max_size();
    let mut buf: Vec<u8> = Vec::with_capacity(n);
    let mut i: usize = 0;
    while i < n
        invariant
            buf@.len() == i,
            i <= n,
        decreases n - i,
    {
        buf.push(0);
        i = i + 1;
    }
    let end = v.poke_into(&mut buf, 0);
    proof {
        v.lemma_fits();
    }
    buf.truncate(end);
    proof {
        assert(buf@ =~= v.spec_bytes());
    }
    buf
}

/// Reads a value from the start of `bytes`, once it has checked that `bytes`
/// holds at least `max_size` bytes; `None` when it does not. Also returns
/// how many bytes the value took.
pub fn peek_checked<T: Peek>(bytes: &[u8]) -> (r: Option<(T, usize)>)
    requires
        T::spec_max_size() <= usize::MAX,
        bytes@.len() >= T::spec_max_size() ==> T::spec_parse(bytes@) is Some,
    ensures
        r is None <==> bytes@.len() < T::spec_max_size(),
        r matches Some((v, n)) ==> T::spec_parse(bytes@) == Some((v, n as nat)),
{
    if bytes.len() < T::max_size() {
        return None;
    }
    proof {
        assert(bytes@.subrange(0, bytes@.len() as int) =~= bytes@);
    }
    let (v, n) = T::peek_new(bytes, 0);
    Some((v, n))
}

} // verus!
