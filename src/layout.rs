//! Declared shapes, the size oracle, and the wire format as spec functions.

use vstd::prelude::*;
use crate::bytes::{
    byte_base, le_bytes, le_value, lemma_byte_base_bounds, lemma_le_bytes_len, lemma_le_round_trip,
};

verus! {

/// The declared shape of an encodable type: what the generator reads off a
/// type declaration, and all that the wire layout depends on.
#[derive(Debug, PartialEq, Eq)]
pub enum Shape {
    /// An integer (or a float's bit pattern) of this many bytes.
    Int(usize),
    /// One byte, 0 or 1.
    Bool,
    /// A zero-sized marker.
    Marker,
    /// A presence byte, then the payload when present.
    Opt(Box<Shape>),
    /// A fixed number of elements of one shape.
    Array(usize, Box<Shape>),
    /// Fields in declaration order: a record or a tuple.
    Record(Vec<Shape>),
    /// A tagged union: the payload shape of each variant, in declaration order.
    Union(Vec<Shape>),
}

/// A value as the contracts see it.
pub enum Val {
    Int(nat),
    Bool(bool),
    Unit,
    Absent,
    Present(Box<Val>),
    List(Seq<Val>),
    Variant(nat, Box<Val>),
}

/// Width in bytes of the tag of a union with `n` variants: the narrowest of
/// 1, 2, 4 and 8 bytes that holds the ordinal `n - 1`.
pub open spec fn tag_width(n: nat) -> nat {
    if n <= 0x100 {
        1
    } else if n <= 0x1_0000 {
        2
    } else if n <= 0x1_0000_0000 {
        4
    } else {
        8
    }
}

/// Integer widths are 1, 2, 4 or 8 bytes, all the way down, and a union's
/// variants can be counted in a `usize`.
pub open spec fn wf(s: Shape) -> bool
    decreases s,
{
    match s {
        Shape::Int(w) => w == 1 || w == 2 || w == 4 || w == 8,
        Shape::Bool => true,
        Shape::Marker => true,
        Shape::Opt(e) => wf(*e),
        Shape::Array(_, e) => wf(*e),
        Shape::Record(fs) => forall|i: int| 0 <= i < fs@.len() ==> wf(#[trigger] fs@[i]),
        Shape::Union(vs) => vs@.len() <= usize::MAX && forall|i: int|
            0 <= i < vs@.len() ==> wf(#[trigger] vs@[i]),
    }
}

/// Whether every value of the shape encodes to the same length: no option
/// and no union anywhere inside.
pub open spec fn fixed(s: Shape) -> bool
    decreases s,
{
    match s {
        Shape::Opt(_) => false,
        Shape::Union(_) => false,
        Shape::Array(_, e) => fixed(*e),
        Shape::Record(fs) => forall|i: int| 0 <= i < fs@.len() ==> fixed(#[trigger] fs@[i]),
        _ => true,
    }
}

/// Whether `v` is a value of shape `s`.
pub open spec fn has_shape(v: Val, s: Shape) -> bool
    decreases s,
{
    match s {
        Shape::Int(w) => v matches Val::Int(x) && x < byte_base(w as nat),
        Shape::Bool => v is Bool,
        Shape::Marker => v is Unit,
        Shape::Opt(e) => match v {
            Val::Absent => true,
            Val::Present(p) => has_shape(*p, *e),
            _ => false,
        },
        Shape::Array(n, e) => match v {
            Val::List(xs) => xs.len() == n && forall|i: int|
                0 <= i < xs.len() ==> has_shape(#[trigger] xs[i], *e),
            _ => false,
        },
        Shape::Record(fs) => match v {
            Val::List(xs) => xs.len() == fs@.len() && forall|i: int|
                0 <= i < xs.len() ==> has_shape(#[trigger] xs[i], fs@[i]),
            _ => false,
        },
        Shape::Union(vs) => match v {
            Val::Variant(k, p) => k < vs@.len() && has_shape(*p, vs@[k as int]),
            _ => false,
        },
    }
}

/// The size oracle: an upper bound on the encoded length of every value of
/// the shape.
pub open spec fn size_bound(s: Shape) -> nat
    decreases s, 0nat,
{
    match s {
        Shape::Int(w) => w as nat,
        Shape::Bool => 1,
        Shape::Marker => 0,
        Shape::Opt(e) => 1 + size_bound(*e),
        Shape::Array(n, e) => (n as nat) * size_bound(*e),
        Shape::Record(fs) => sum_bounds(fs@),
        Shape::Union(vs) => tag_width(vs@.len()) + max_bound(vs@),
    }
}

/// The sum of the bounds of `fs`.
pub open spec fn sum_bounds(fs: Seq<Shape>) -> nat
    decreases fs, 0nat,
{
    if fs.len() == 0 {
        0
    } else {
        sum_bounds(fs.drop_last()) + size_bound(fs.last())
    }
}

/// The largest of the bounds of `fs`, 0 for none.
pub open spec fn max_bound(fs: Seq<Shape>) -> nat
    decreases fs, 0nat,
{
    if fs.len() == 0 {
        0
    } else {
        let m = max_bound(fs.drop_last());
        let b = size_bound(fs.last());
        if m >= b {
            m
        } else {
            b
        }
    }
}

/// The canonical encoding of `v` as a value of shape `s`.
pub open spec fn enc(s: Shape, v: Val) -> Seq<u8>
    decreases s, 0nat,
{
    match s {
        Shape::Int(w) => match v {
            Val::Int(x) => le_bytes(x, w as nat),
            _ => Seq::empty(),
        },
        Shape::Bool => match v {
            Val::Bool(b) => seq![if b { 1u8 } else { 0u8 }],
            _ => Seq::empty(),
        },
        Shape::Marker => Seq::empty(),
        Shape::Opt(e) => match v {
            Val::Present(p) => seq![1u8] + enc(*e, *p),
            _ => seq![0u8],
        },
        Shape::Array(_, e) => match v {
            Val::List(xs) => enc_rep(*e, xs),
            _ => Seq::empty(),
        },
        Shape::Record(fs) => match v {
            Val::List(xs) => enc_fields(fs@, xs),
            _ => Seq::empty(),
        },
        Shape::Union(vs) => match v {
            Val::Variant(k, p) => if k < vs@.len() {
                le_bytes(k, tag_width(vs@.len())) + enc(vs@[k as int], *p)
            } else {
                Seq::empty()
            },
            _ => Seq::empty(),
        },
    }
}

/// The encodings of `xs`, each as a value of shape `e`, one after the other.
pub open spec fn enc_rep(e: Shape, xs: Seq<Val>) -> Seq<u8>
    decreases e, xs.len(),
{
    if xs.len() == 0 {
        Seq::empty()
    } else {
        enc_rep(e, xs.drop_last()) + enc(e, xs.last())
    }
}

/// The encodings of `xs[i]` as values of shape `fs[i]`, one after the other.
pub open spec fn enc_fields(fs: Seq<Shape>, xs: Seq<Val>) -> Seq<u8>
    decreases fs, 0nat,
{
    if fs.len() == 0 || xs.len() == 0 {
        Seq::empty()
    } else {
        enc_fields(fs.drop_last(), xs.drop_last()) + enc(fs.last(), xs.last())
    }
}

/// Decoding: the value of shape `s` that `b` starts with, and how many bytes
/// it takes; `None` when `b` is too short or holds a tag or presence byte
/// out of range.
pub open spec fn parse(s: Shape, b: Seq<u8>) -> Option<(Val, nat)>
    decreases s, 0nat,
{
    match s {
        Shape::Int(w) => if w <= b.len() {
            Some((Val::Int(le_value(b.take(w as int))), w as nat))
        } else {
            None
        },
        Shape::Bool => if 1 <= b.len() {
            Some((Val::Bool(b[0] != 0), 1))
        } else {
            None
        },
        Shape::Marker => Some((Val::Unit, 0)),
        Shape::Opt(e) => if b.len() == 0 {
            None
        } else if b[0] == 0 {
            Some((Val::Absent, 1))
        } else if b[0] == 1 {
            match parse(*e, b.drop_first()) {
                Some((x, m)) => Some((Val::Present(Box::new(x)), 1 + m)),
                None => None,
            }
        } else {
            None
        },
        Shape::Array(n, e) => match parse_rep(*e, n as nat, b) {
            Some((xs, m)) => Some((Val::List(xs), m)),
            None => None,
        },
        Shape::Record(fs) => match parse_fields(fs@, b) {
            Some((xs, m)) => Some((Val::List(xs), m)),
            None => None,
        },
        Shape::Union(vs) => {
            let w = tag_width(vs@.len());
            if b.len() < w {
                None
            } else {
                let k = le_value(b.take(w as int));
                if k < vs@.len() {
                    match parse(vs@[k as int], b.skip(w as int)) {
                        Some((x, m)) => Some((Val::Variant(k, Box::new(x)), w + m)),
                        None => None,
                    }
                } else {
                    None
                }
            }
        },
    }
}

/// Decodes `n` values of shape `e` one after the other.
pub open spec fn parse_rep(e: Shape, n: nat, b: Seq<u8>) -> Option<(Seq<Val>, nat)>
    decreases e, n,
{
    if n == 0 {
        Some((Seq::empty(), 0))
    } else {
        match parse_rep(e, (n - 1) as nat, b) {
            Some((xs, m)) => if m <= b.len() {
                match parse(e, b.skip(m as int)) {
                    Some((x, k)) => Some((xs.push(x), m + k)),
                    None => None,
                }
            } else {
                None
            },
            None => None,
        }
    }
}

/// Decodes one value of each shape of `fs`, in order.
pub open spec fn parse_fields(fs: Seq<Shape>, b: Seq<u8>) -> Option<(Seq<Val>, nat)>
    decreases fs, 0nat,
{
    if fs.len() == 0 {
        Some((Seq::empty(), 0))
    } else {
        match parse_fields(fs.drop_last(), b) {
            Some((xs, m)) => if m <= b.len() {
                match parse(fs.last(), b.skip(m as int)) {
                    Some((x, k)) => Some((xs.push(x), m + k)),
                    None => None,
                }
            } else {
                None
            },
            None => None,
        }
    }
}

/// The tag width of a union is the narrowest of 1, 2, 4 and 8 bytes that
/// holds every ordinal below its variant count.
pub proof fn lemma_tag_fits(n: nat)
    requires
        n <= 0x1_0000_0000_0000_0000,
    ensures
        n <= byte_base(tag_width(n)),
        tag_width(n) <= 8,
        tag_width(n) >= 2 ==> n > byte_base(1),
        tag_width(n) >= 4 ==> n > byte_base(2),
        tag_width(n) >= 8 ==> n > byte_base(4),
{
    reveal_with_fuel(byte_base, 9);
}

/// The bound of a union is its tag width plus the largest of its variants'
/// bounds, not their sum: that largest bound is at least each variant's bound
/// and is reached by one of them (it is 0 for no variants).
pub proof fn lemma_union_bound(vs: Seq<Shape>)
    ensures
        forall|i: int| 0 <= i < vs.len() ==> size_bound(#[trigger] vs[i]) <= max_bound(vs),
        vs.len() > 0 ==> exists|i: int|
            0 <= i < vs.len() && size_bound(#[trigger] vs[i]) == max_bound(vs),
        vs.len() == 0 ==> max_bound(vs) == 0,
    decreases vs.len(),
{
    if vs.len() > 0 {
        let init = vs.drop_last();
        lemma_union_bound(init);
        assert forall|i: int| 0 <= i < vs.len() implies size_bound(#[trigger] vs[i]) <= max_bound(
            vs,
        ) by {
            if i < vs.len() - 1 {
                assert(vs[i] == init[i]);
            }
        }
        if max_bound(init) >= size_bound(vs.last()) && init.len() > 0 {
            let j = choose|j: int| 0 <= j < init.len() && size_bound(#[trigger] init[j]) == max_bound(init);
            assert(vs[j] == init[j]);
        } else {
            assert(size_bound(vs[vs.len() - 1]) == max_bound(vs));
        }
    }
}

/// The bounds of a prefix of `fs` add up to at most the whole.
pub proof fn lemma_sum_prefix(fs: Seq<Shape>, i: int)
    requires
        0 <= i <= fs.len(),
    ensures
        sum_bounds(fs.take(i)) <= sum_bounds(fs),
        i < fs.len() ==> sum_bounds(fs.take(i + 1)) == sum_bounds(fs.take(i)) + size_bound(fs[i]),
    decreases fs.len(),
{
    if i < fs.len() {
        assert(fs.take(i + 1).drop_last() =~= fs.take(i));
        lemma_sum_prefix(fs.drop_last(), i);
        assert(fs.drop_last().take(i) =~= fs.take(i));
    } else {
        assert(fs.take(i) =~= fs);
    }
}

/// No value encodes to more bytes than the bound of its shape, and a value of
/// a fixed shape encodes to exactly that many.
pub proof fn lemma_enc_len(s: Shape, v: Val)
    requires
        has_shape(v, s),
    ensures
        enc(s, v).len() <= size_bound(s),
        fixed(s) ==> enc(s, v).len() == size_bound(s),
    decreases s, 0nat,
{
    match s {
        Shape::Int(w) => {
            lemma_le_bytes_len(v->Int_0, w as nat);
        },
        Shape::Opt(e) => {
            if let Val::Present(p) = v {
                lemma_enc_len(*e, *p);
            }
        },
        Shape::Array(n, e) => {
            lemma_enc_rep_len(*e, v->List_0);
        },
        Shape::Record(fs) => {
            lemma_enc_fields_len(fs@, v->List_0);
        },
        Shape::Union(vs) => {
            let k = v->Variant_0;
            let p = v->Variant_1;
            lemma_le_bytes_len(k, tag_width(vs@.len()));
            lemma_enc_len(vs@[k as int], *p);
            lemma_union_bound(vs@);
        },
        _ => {},
    }
}

proof fn lemma_enc_rep_len(e: Shape, xs: Seq<Val>)
    requires
        forall|i: int| 0 <= i < xs.len() ==> has_shape(#[trigger] xs[i], e),
    ensures
        enc_rep(e, xs).len() <= xs.len() * size_bound(e),
        fixed(e) ==> enc_rep(e, xs).len() == xs.len() * size_bound(e),
    decreases e, xs.len(),
{
    if xs.len() > 0 {
        let init = xs.drop_last();
        assert forall|i: int| 0 <= i < init.len() implies has_shape(#[trigger] init[i], e) by {
            assert(init[i] == xs[i]);
        }
        lemma_enc_rep_len(e, init);
        lemma_enc_len(e, xs.last());
        let n = xs.len();
        let b = size_bound(e);
        assert(n * b == (n - 1) * b + b) by (nonlinear_arith);
    }
}

proof fn lemma_enc_fields_len(fs: Seq<Shape>, xs: Seq<Val>)
    requires
        xs.len() == fs.len(),
        forall|i: int| 0 <= i < xs.len() ==> has_shape(#[trigger] xs[i], fs[i]),
    ensures
        enc_fields(fs, xs).len() <= sum_bounds(fs),
        (forall|i: int| 0 <= i < fs.len() ==> fixed(#[trigger] fs[i])) ==> enc_fields(fs, xs).len()
            == sum_bounds(fs),
    decreases fs, 0nat,
{
    if fs.len() > 0 {
        let fi = fs.drop_last();
        let xi = xs.drop_last();
        assert forall|i: int| 0 <= i < xi.len() implies has_shape(#[trigger] xi[i], fi[i]) by {
            assert(xi[i] == xs[i]);
            assert(fi[i] == fs[i]);
        }
        lemma_enc_fields_len(fi, xi);
        lemma_enc_len(fs.last(), xs.last());
        if forall|i: int| 0 <= i < fs.len() ==> fixed(#[trigger] fs[i]) {
            assert forall|i: int| 0 <= i < fi.len() implies fixed(#[trigger] fi[i]) by {
                assert(fi[i] == fs[i]);
            }
            assert(fixed(fs[fs.len() - 1]));
        }
    }
}

/// Decoding what a value encodes to, with anything after it, gives back the
/// value and the length of its encoding.
pub proof fn lemma_round_trip(s: Shape, v: Val, rest: Seq<u8>)
    requires
        wf(s),
        has_shape(v, s),
    ensures
        parse(s, enc(s, v) + rest) == Some((v, enc(s, v).len())),
    decreases s, 0nat,
{
    let b = enc(s, v) + rest;
    match s {
        Shape::Int(w) => {
            let x = v->Int_0;
            lemma_le_bytes_len(x, w as nat);
            lemma_le_round_trip(x, w as nat);
            assert(b.take(w as int) =~= le_bytes(x, w as nat));
        },
        Shape::Bool => {},
        Shape::Marker => {},
        Shape::Opt(e) => {
            if let Val::Present(p) = v {
                lemma_round_trip(*e, *p, rest);
                assert(b.drop_first() =~= enc(*e, *p) + rest);
            }
        },
        Shape::Array(n, e) => {
            lemma_rep_round_trip(*e, v->List_0, rest);
        },
        Shape::Record(fs) => {
            lemma_fields_round_trip(fs@, v->List_0, rest);
        },
        Shape::Union(vs) => {
            let k = v->Variant_0;
            let p = v->Variant_1;
            let w = tag_width(vs@.len());
            lemma_tag_fits(vs@.len());
            lemma_le_bytes_len(k, w);
            lemma_le_round_trip(k, w);
            assert(b.take(w as int) =~= le_bytes(k, w));
            assert(b.skip(w as int) =~= enc(vs@[k as int], *p) + rest);
            lemma_round_trip(vs@[k as int], *p, rest);
        },
    }
}

proof fn lemma_rep_round_trip(e: Shape, xs: Seq<Val>, rest: Seq<u8>)
    requires
        wf(e),
        forall|i: int| 0 <= i < xs.len() ==> has_shape(#[trigger] xs[i], e),
    ensures
        parse_rep(e, xs.len(), enc_rep(e, xs) + rest) == Some((xs, enc_rep(e, xs).len())),
    decreases e, xs.len(),
{
    if xs.len() > 0 {
        let init = xs.drop_last();
        let x = xs.last();
        assert forall|i: int| 0 <= i < init.len() implies has_shape(#[trigger] init[i], e) by {
            assert(init[i] == xs[i]);
        }
        let tail = enc(e, x) + rest;
        lemma_rep_round_trip(e, init, tail);
        let b = enc_rep(e, xs) + rest;
        assert(b =~= enc_rep(e, init) + tail);
        assert(b.skip(enc_rep(e, init).len() as int) =~= tail);
        lemma_round_trip(e, x, rest);
        assert(init.push(x) =~= xs);
    }
}

proof fn lemma_fields_round_trip(fs: Seq<Shape>, xs: Seq<Val>, rest: Seq<u8>)
    requires
        forall|i: int| 0 <= i < fs.len() ==> wf(#[trigger] fs[i]),
        xs.len() == fs.len(),
        forall|i: int| 0 <= i < xs.len() ==> has_shape(#[trigger] xs[i], fs[i]),
    ensures
        parse_fields(fs, enc_fields(fs, xs) + rest) == Some((xs, enc_fields(fs, xs).len())),
    decreases fs, 0nat,
{
    if fs.len() > 0 {
        let fi = fs.drop_last();
        let xi = xs.drop_last();
        let x = xs.last();
        assert forall|i: int| 0 <= i < xi.len() implies has_shape(#[trigger] xi[i], fi[i]) by {
            assert(xi[i] == xs[i]);
            assert(fi[i] == fs[i]);
        }
        assert forall|i: int| 0 <= i < fi.len() implies wf(#[trigger] fi[i]) by {
            assert(fi[i] == fs[i]);
        }
        assert(wf(fs[fs.len() - 1]));
        let tail = enc(fs.last(), x) + rest;
        lemma_fields_round_trip(fi, xi, tail);
        let b = enc_fields(fs, xs) + rest;
        assert(b =~= enc_fields(fi, xi) + tail);
        assert(b.skip(enc_fields(fi, xi).len() as int) =~= tail);
        lemma_round_trip(fs.last(), x, rest);
        assert(xi.push(x) =~= xs);
    }
}

/// An absent option takes one byte, a present one a byte more than its
/// payload, and decoding a zero presence byte gives an absent option having
/// read that byte alone, whatever follows it.
pub proof fn lemma_option_encoding(e: Shape, x: Val, rest: Seq<u8>)
    ensures
        enc(Shape::Opt(Box::new(e)), Val::Absent) == seq![0u8],
        enc(Shape::Opt(Box::new(e)), Val::Present(Box::new(x))) == seq![1u8] + enc(e, x),
        enc(Shape::Opt(Box::new(e)), Val::Present(Box::new(x))).len() == 1 + enc(e, x).len(),
        parse(Shape::Opt(Box::new(e)), seq![0u8] + rest) == Some((Val::Absent, 1nat)),
{
    assert((seq![0u8] + rest)[0] == 0u8);
}

} // verus!
