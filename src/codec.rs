//! What the generator produces for a declared shape: size, write, read.

use vstd::prelude::*;
use crate::bytes::{
    byte_base, le_bytes, lemma_byte_base_mono, lemma_le_bytes_len, lemma_splice_concat, lemma_splice_empty, read_le, spliced,
    write_le,
};
use crate::layout::{
    Shape, Val, enc, enc_fields, enc_rep, has_shape, lemma_enc_len, lemma_round_trip,
    lemma_sum_prefix, lemma_tag_fits, lemma_union_bound, max_bound, parse, parse_fields, parse_rep,
    size_bound, sum_bounds, tag_width, wf,
};

verus! {

/// A value of some shape, to be written or just read.
#[derive(Debug, PartialEq, Eq)]
pub enum Value {
    Int(u64),
    Bool(bool),
    Unit,
    Absent,
    Present(Box<Value>),
    List(Vec<Value>),
    Variant(usize, Box<Value>),
}

/// What a `Value` stands for.
pub open spec fn model(v: Value) -> Val
    decreases v, 0nat,
{
    match v {
        Value::Int(x) => Val::Int(x as nat),
        Value::Bool(b) => Val::Bool(b),
        Value::Unit => Val::Unit,
        Value::Absent => Val::Absent,
        Value::Present(p) => Val::Present(Box::new(model(*p))),
        Value::List(xs) => Val::List(models(xs@)),
        Value::Variant(k, p) => Val::Variant(k as nat, Box::new(model(*p))),
    }
}

/// What each of `xs` stands for.
pub open spec fn models(xs: Seq<Value>) -> Seq<Val>
    decreases xs, 0nat,
{
    if xs.len() == 0 {
        Seq::empty()
    } else {
        models(xs.drop_last()).push(model(xs.last()))
    }
}

impl View for Value {
    type V = Val;

    open spec fn view(&self) -> Val {
        model(*self)
    }
}

proof fn lemma_models(xs: Seq<Value>)
    ensures
        models(xs).len() == xs.len(),
        forall|i: int| 0 <= i < xs.len() ==> #[trigger] models(xs)[i] == model(xs[i]),
    decreases xs.len(),
{
    if xs.len() > 0 {
        lemma_models(xs.drop_last());
        assert forall|i: int| 0 <= i < xs.len() implies #[trigger] models(xs)[i] == model(
            xs[i],
        ) by {
            if i < xs.len() - 1 {
                assert(xs.drop_last()[i] == xs[i]);
            }
        }
    }
}

proof fn lemma_parse_rep_prefix(e: Shape, n: nat, b: Seq<u8>, i: nat)
    requires
        i <= n,
        parse_rep(e, n, b) is Some,
    ensures
        parse_rep(e, i, b) is Some,
    decreases n,
{
    if i < n {
        lemma_parse_rep_prefix(e, (n - 1) as nat, b, i);
    }
}

proof fn lemma_parse_fields_prefix(fs: Seq<Shape>, b: Seq<u8>, i: int)
    requires
        0 <= i <= fs.len(),
        parse_fields(fs, b) is Some,
    ensures
        parse_fields(fs.take(i), b) is Some,
    decreases fs.len(),
{
    if i == fs.len() {
        assert(fs.take(i) =~= fs);
    } else {
        assert(fs.drop_last().take(i) =~= fs.take(i));
        lemma_parse_fields_prefix(fs.drop_last(), b, i);
    }
}

/// Reading back what `write` left in a buffer gives the value written, and
/// stops where the write stopped.
pub proof fn lemma_write_read(s: Shape, v: Val, buf: Seq<u8>, pos: int)
    requires
        wf(s),
        has_shape(v, s),
        0 <= pos,
        pos + enc(s, v).len() <= buf.len(),
    ensures
        parse(s, spliced(buf, pos, enc(s, v)).subrange(pos, buf.len() as int)) == Some(
            (v, enc(s, v).len()),
        ),
{
    let e = enc(s, v);
    let rest = buf.subrange(pos + e.len(), buf.len() as int);
    assert(spliced(buf, pos, e).subrange(pos, buf.len() as int) =~= e + rest);
    lemma_round_trip(s, v, rest);
}

/// Width in bytes of the tag of a union with `n` variants.
pub fn tag_width_of(n: usize) -> (r: usize)
    ensures
        r == tag_width(n as nat),
{
    if n <= 0x100 {
        1
    } else if n <= 0x1_0000 {
        2
    } else if n as u64 <= 0x1_0000_0000 {
        4
    } else {
        8
    }
}

impl Shape {
    /// The size oracle: the most bytes that a value of this shape encodes to.
    pub fn size_bound(&self) -> (r: usize)
        requires
            size_bound(*self) <= usize::MAX,
        ensures
            r == size_bound(*self),
        decreases self,
    {
        match self {
            Shape::Int(w) => *w,
            Shape::Bool => 1,
            Shape::Marker => 0,
            Shape::Opt(e) => 1 + e.size_bound(),
            Shape::Array(n, e) => {
                if *n == 0 {
                    proof {
                        assert(0 * size_bound(**e) == 0);
                    }
                    return 0;
                }
                proof {
                    let b = size_bound(**e);
                    assert(b <= (*n as nat) * b) by (nonlinear_arith)
                        requires
                            *n >= 1,
                    ;
                }
                let b = e.size_bound();
                *n * b
            },
            Shape::Record(fs) => {
                let mut sum: usize = 0;
                let mut i: usize = 0;
                while i < fs.len()
                    invariant
                        i <= fs@.len(),
                        sum == sum_bounds(fs@.take(i as int)),
                        sum_bounds(fs@) <= usize::MAX,
                        *self == Shape::Record(*fs),
                    decreases fs@.len() - i,
                {
                    proof {
                        lemma_sum_prefix(fs@, i as int);
                        lemma_sum_prefix(fs@, i + 1);
                    }
                    proof {
                        vstd::std_specs::vec::axiom_vec_index_decreases(self->Record_0, i as int);
                        assert(decreases_to!(*self => self->Record_0));
                    }
                    let b = fs[i].size_bound();
                    sum = sum + b;
                    i = i + 1;
                }
                proof {
                    assert(fs@.take(i as int) =~= fs@);
                }
                sum
            },
            Shape::Union(vs) => {
                let mut m: usize = 0;
                let mut i: usize = 0;
                proof {
                    lemma_union_bound(vs@);
                }
                while i < vs.len()
                    invariant
                        i <= vs@.len(),
                        m == max_bound(vs@.take(i as int)),
                        m <= max_bound(vs@),
                        forall|j: int| 0 <= j < vs@.len() ==> size_bound(#[trigger] vs@[j]) <= max_bound(vs@),
                        tag_width(vs@.len()) + max_bound(vs@) <= usize::MAX,
                        *self == Shape::Union(*vs),
                    decreases vs@.len() - i,
                {
                    proof {
                        vstd::std_specs::vec::axiom_vec_index_decreases(self->Union_0, i as int);
                        assert(decreases_to!(*self => self->Union_0));
                    }
                    let b = vs[i].size_bound();
                    proof {
                        assert(vs@.take(i + 1).drop_last() =~= vs@.take(i as int));
                    }
                    if b > m {
                        m = b;
                    }
                    i = i + 1;
                }
                proof {
                    assert(vs@.take(i as int) =~= vs@);
                }
                tag_width_of(vs.len()) + m
            },
        }
    }

    /// Whether every integer width inside is 1, 2, 4 or 8 bytes.
    pub fn well_formed(&self) -> (r: bool)
        ensures
            r == wf(*self),
        decreases self,
    {
        match self {
            Shape::Int(w) => *w == 1 || *w == 2 || *w == 4 || *w == 8,
            Shape::Bool => true,
            Shape::Marker => true,
            Shape::Opt(e) => e.well_formed(),
            Shape::Array(_, e) => e.well_formed(),
            Shape::Record(fs) => {
                let mut i: usize = 0;
                while i < fs.len()
                    invariant
                        *self == Shape::Record(*fs),
                        i <= fs@.len(),
                        forall|j: int| 0 <= j < i ==> wf(#[trigger] fs@[j]),
                    decreases fs@.len() - i,
                {
                    proof {
                        vstd::std_specs::vec::axiom_vec_index_decreases(self->Record_0, i as int);
                        assert(decreases_to!(*self => self->Record_0));
                    }
                    if !fs[i].well_formed() {
                        return false;
                    }
                    i = i + 1;
                }
                true
            },
            Shape::Union(vs) => {
                let _n = vs.len();
                let mut i: usize = 0;
                while i < vs.len()
                    invariant
                        *self == Shape::Union(*vs),
                        i <= vs@.len(),
                        forall|j: int| 0 <= j < i ==> wf(#[trigger] vs@[j]),
                    decreases vs@.len() - i,
                {
                    proof {
                        vstd::std_specs::vec::axiom_vec_index_decreases(self->Union_0, i as int);
                        assert(decreases_to!(*self => self->Union_0));
                    }
                    if !vs[i].well_formed() {
                        return false;
                    }
                    i = i + 1;
                }
                true
            },
        }
    }

    /// Whether `v` is a value of this shape.
    pub fn admits(&self, v: &Value) -> (r: bool)
        ensures
            r == has_shape(v@, *self),
        decreases self,
    {
        match self {
            Shape::Int(w) => match v {
                Value::Int(x) => {
                    proof {
                        reveal_with_fuel(byte_base, 9);
                        if *w >= 8 {
                            lemma_byte_base_mono(8, *w as nat);
                        }
                    }
                    match *w {
                        0 => *x < 1,
                        1 => *x < 0x100,
                        2 => *x < 0x1_0000,
                        3 => *x < 0x100_0000,
                        4 => *x < 0x1_0000_0000,
                        5 => *x < 0x100_0000_0000,
                        6 => *x < 0x1_0000_0000_0000,
                        7 => *x < 0x100_0000_0000_0000,
                        _ => true,
                    }
                },
                _ => false,
            },
            Shape::Bool => match v {
                Value::Bool(_) => true,
                _ => false,
            },
            Shape::Marker => match v {
                Value::Unit => true,
                _ => false,
            },
            Shape::Opt(e) => match v {
                Value::Absent => true,
                Value::Present(p) => e.admits(p),
                _ => false,
            },
            Shape::Array(n, e) => match v {
                Value::List(xs) => {
                    proof {
                        lemma_models(xs@);
                    }
                    if xs.len() != *n {
                        return false;
                    }
                    let mut i: usize = 0;
                    while i < xs.len()
                        invariant
                            *self == Shape::Array(*n, *e),
                            *v == Value::List(*xs),
                            i <= xs@.len(),
                            models(xs@).len() == xs@.len(),
                            forall|j: int| 0 <= j < xs@.len() ==> #[trigger] models(xs@)[j] == model(xs@[j]),
                            forall|j: int| 0 <= j < i ==> has_shape(#[trigger] models(xs@)[j], **e),
                        decreases xs@.len() - i,
                    {
                        proof {
                            assert(decreases_to!(*self => self->Array_1));
                        }
                        if !e.admits(&xs[i]) {
                            proof {
                                assert(models(xs@)[i as int] == model(xs@[i as int]));
                            }
                            return false;
                        }
                        i = i + 1;
                    }
                    true
                },
                _ => false,
            },
            Shape::Record(fs) => match v {
                Value::List(xs) => {
                    proof {
                        lemma_models(xs@);
                    }
                    if xs.len() != fs.len() {
                        return false;
                    }
                    let mut i: usize = 0;
                    while i < xs.len()
                        invariant
                            *self == Shape::Record(*fs),
                            *v == Value::List(*xs),
                            xs@.len() == fs@.len(),
                            i <= xs@.len(),
                            models(xs@).len() == xs@.len(),
                            forall|j: int| 0 <= j < xs@.len() ==> #[trigger] models(xs@)[j] == model(xs@[j]),
                            forall|j: int| 0 <= j < i ==> has_shape(#[trigger] models(xs@)[j], fs@[j]),
                        decreases xs@.len() - i,
                    {
                        proof {
                            vstd::std_specs::vec::axiom_vec_index_decreases(self->Record_0, i as int);
                            assert(decreases_to!(*self => self->Record_0));
                        }
                        if !fs[i].admits(&xs[i]) {
                            proof {
                                assert(models(xs@)[i as int] == model(xs@[i as int]));
                            }
                            return false;
                        }
                        i = i + 1;
                    }
                    true
                },
                _ => false,
            },
            Shape::Union(vs) => match v {
                Value::Variant(k, p) => {
                    if *k >= vs.len() {
                        return false;
                    }
                    proof {
                        vstd::std_specs::vec::axiom_vec_index_decreases(self->Union_0, *k as int);
                        assert(decreases_to!(*self => self->Union_0));
                    }
                    vs[*k].admits(p)
                },
                _ => false,
            },
        }
    }

    /// Writes the encoding of `v` at `pos` and returns the position after it.
    /// The caller makes room for `size_bound` bytes; fewer may be written.
    pub fn write(&self, v: &Value, bytes: &mut Vec<u8>, pos: usize) -> (r: usize)
        requires
            wf(*self),
            has_shape(v@, *self),
            pos + size_bound(*self) <= old(bytes)@.len(),
        ensures
            r == pos + enc(*self, v@).len(),
            final(bytes)@ == spliced(old(bytes)@, pos as int, enc(*self, v@)),
        decreases self,
    {
        proof {
            lemma_enc_len(*self, v@);
        }
        let _len = bytes.len();
        let ghost before = bytes@;
        match self {
            Shape::Int(w) => match v {
                Value::Int(x) => write_le(bytes, pos, *x, *w),
                _ => pos,
            },
            Shape::Bool => match v {
                Value::Bool(b) => {
                    bytes.set(pos, if *b { 1 } else { 0 });
                    proof {
                        assert(bytes@ =~= spliced(before, pos as int, enc(*self, v@)));
                    }
                    pos + 1
                },
                _ => pos,
            },
            Shape::Marker => {
                proof {
                    lemma_splice_empty(bytes@, pos as int);
                }
                pos
            },
            Shape::Opt(e) => match v {
                Value::Present(p) => {
                    bytes.set(pos, 1);
                    proof {
                        assert(bytes@ =~= spliced(before, pos as int, seq![1u8]));
                        lemma_enc_len(**e, (**p)@);
                        lemma_splice_concat(before, pos as int, seq![1u8], enc(**e, (**p)@));
                    }
                    e.write(p, bytes, pos + 1)
                },
                _ => {
                    bytes.set(pos, 0);
                    proof {
                        assert(bytes@ =~= spliced(before, pos as int, enc(*self, v@)));
                    }
                    pos + 1
                },
            },
            Shape::Array(n, e) => match v {
                Value::List(xs) => {
                    let ghost ms = models(xs@);
                    let ghost b = size_bound(**e);
                    proof {
                        lemma_models(xs@);
                        lemma_splice_empty(bytes@, pos as int);
                        assert(ms.take(0) =~= Seq::<Val>::empty());
                    }
                    let mut p = pos;
                    let mut i: usize = 0;
                    while i < xs.len()
                        invariant
                            *self == Shape::Array(*n, *e),
                            *v == Value::List(*xs),
                            wf(**e),
                            b == size_bound(**e),
                            ms == models(xs@),
                            ms.len() == xs@.len(),
                            xs@.len() == *n,
                            forall|j: int| 0 <= j < ms.len() ==> has_shape(#[trigger] ms[j], **e),
                            forall|j: int| 0 <= j < xs@.len() ==> #[trigger] ms[j] == model(xs@[j]),
                            i <= xs@.len(),
                            bytes@ == spliced(before, pos as int, enc_rep(**e, ms.take(i as int))),
                            p == pos + enc_rep(**e, ms.take(i as int)).len(),
                            enc_rep(**e, ms.take(i as int)).len() <= i * b,
                            pos + (*n as nat) * b <= before.len(),
                        decreases xs@.len() - i,
                    {
                        proof {
                            assert((i as nat) * b + b <= (*n as nat) * b) by (nonlinear_arith)
                                requires
                                    i < *n,
                            ;
                            assert(ms[i as int] == model(xs@[i as int]));
                            lemma_enc_len(**e, ms[i as int]);
                            assert(decreases_to!(*self => self->Array_1));
                        }
                        let q = e.write(&xs[i], bytes, p);
                        proof {
                            let t = ms.take(i as int);
                            let t1 = ms.take(i + 1);
                            assert(t1.drop_last() =~= t);
                            lemma_splice_concat(before, pos as int, enc_rep(**e, t), enc(**e, ms[i as int]));
                            assert((i as nat) * b + b == (i + 1) * b) by (nonlinear_arith);
                        }
                        p = q;
                        i = i + 1;
                    }
                    proof {
                        assert(ms.take(i as int) =~= ms);
                    }
                    p
                },
                _ => pos,
            },
            Shape::Record(fs) => match v {
                Value::List(xs) => {
                    let ghost ms = models(xs@);
                    proof {
                        lemma_models(xs@);
                        lemma_splice_empty(bytes@, pos as int);
                        assert(ms.take(0) =~= Seq::<Val>::empty());
                    }
                    let mut p = pos;
                    let mut i: usize = 0;
                    while i < fs.len()
                        invariant
                            *self == Shape::Record(*fs),
                            *v == Value::List(*xs),
                            wf(*self),
                            has_shape(v@, *self),
                            ms == models(xs@),
                            ms.len() == xs@.len(),
                            xs@.len() == fs@.len(),
                            forall|j: int| 0 <= j < xs@.len() ==> #[trigger] ms[j] == model(xs@[j]),
                            i <= fs@.len(),
                            bytes@ == spliced(before, pos as int, enc_fields(fs@.take(i as int), ms.take(i as int))),
                            p == pos + enc_fields(fs@.take(i as int), ms.take(i as int)).len(),
                            enc_fields(fs@.take(i as int), ms.take(i as int)).len() <= sum_bounds(fs@.take(i as int)),
                            pos + sum_bounds(fs@) <= before.len(),
                        decreases fs@.len() - i,
                    {
                        proof {
                            lemma_sum_prefix(fs@, i as int);
                            lemma_sum_prefix(fs@, i + 1);
                            assert(ms[i as int] == model(xs@[i as int]));
                            assert(has_shape(ms[i as int], fs@[i as int]));
                            assert(wf(fs@[i as int]));
                            lemma_enc_len(fs@[i as int], ms[i as int]);
                            vstd::std_specs::vec::axiom_vec_index_decreases(self->Record_0, i as int);
                            assert(decreases_to!(*self => self->Record_0));
                        }
                        let q = fs[i].write(&xs[i], bytes, p);
                        proof {
                            let ft = fs@.take(i as int);
                            let t = ms.take(i as int);
                            assert(fs@.take(i + 1).drop_last() =~= ft);
                            assert(ms.take(i + 1).drop_last() =~= t);
                            lemma_splice_concat(before, pos as int, enc_fields(ft, t), enc(fs@[i as int], ms[i as int]));
                        }
                        p = q;
                        i = i + 1;
                    }
                    proof {
                        assert(ms.take(i as int) =~= ms);
                        assert(fs@.take(i as int) =~= fs@);
                    }
                    p
                },
                _ => pos,
            },
            Shape::Union(vs) => match v {
                Value::Variant(k, p) => {
                    let w = tag_width_of(vs.len());
                    let ghost payload = enc(vs@[*k as int], (**p)@);
                    proof {
                        lemma_tag_fits(vs@.len());
                        lemma_le_bytes_len(*k as nat, w as nat);
                        lemma_union_bound(vs@);
                        lemma_enc_len(vs@[*k as int], (**p)@);
                        lemma_splice_concat(before, pos as int, le_bytes(*k as nat, w as nat), payload);
                        vstd::std_specs::vec::axiom_vec_index_decreases(self->Union_0, *k as int);
                        assert(decreases_to!(*self => self->Union_0));
                    }
                    let q = write_le(bytes, pos, *k as u64, w);
                    vs[*k].write(p, bytes, q)
                },
                _ => pos,
            },
        }
    }

    /// Reads the value of this shape that starts at `pos`, and returns it
    /// with the position after it.
    pub fn read(&self, bytes: &[u8], pos: usize) -> (r: (Value, usize))
        requires
            wf(*self),
            pos <= bytes@.len(),
            parse(*self, bytes@.subrange(pos as int, bytes@.len() as int)) is Some,
        ensures
            pos <= r.1 <= bytes@.len(),
            parse(*self, bytes@.subrange(pos as int, bytes@.len() as int)) == Some(
                (r.0@, (r.1 - pos) as nat),
            ),
        decreases self,
    {
        let ghost b = bytes@.subrange(pos as int, bytes@.len() as int);
        let _len = bytes.len();
        match self {
            Shape::Int(w) => {
                proof {
                    assert(b.take(*w as int) =~= bytes@.subrange(pos as int, pos + *w));
                }
                let x = read_le(bytes, pos, *w);
                (Value::Int(x), pos + *w)
            },
            Shape::Bool => (Value::Bool(bytes[pos] != 0), pos + 1),
            Shape::Marker => (Value::Unit, pos),
            Shape::Opt(e) => {
                if bytes[pos] == 0 {
                    (Value::Absent, pos + 1)
                } else {
                    proof {
                        assert(b.drop_first() =~= bytes@.subrange(pos + 1, bytes@.len() as int));
                    }
                    let (x, q) = e.read(bytes, pos + 1);
                    (Value::Present(Box::new(x)), q)
                }
            },
            Shape::Array(n, e) => {
                let mut out: Vec<Value> = Vec::new();
                let mut p = pos;
                let mut i: usize = 0;
                proof {
                    assert(out@ =~= Seq::<Value>::empty());
                }
                while i < *n
                    invariant
                        *self == Shape::Array(*n, *e),
                        wf(**e),
                        b == bytes@.subrange(pos as int, bytes@.len() as int),
                        pos <= p <= bytes@.len(),
                        parse_rep(**e, *n as nat, b) is Some,
                        i <= *n,
                        out@.len() == i,
                        parse_rep(**e, i as nat, b) == Some((models(out@), (p - pos) as nat)),
                    decreases *n - i,
                {
                    proof {
                        lemma_parse_rep_prefix(**e, *n as nat, b, (i + 1) as nat);
                        assert(b.skip(p - pos) =~= bytes@.subrange(p as int, bytes@.len() as int));
                        assert(decreases_to!(*self => self->Array_1));
                    }
                    let (x, q) = e.read(bytes, p);
                    proof {
                        assert(out@.push(x).drop_last() =~= out@);
                    }
                    out.push(x);
                    p = q;
                    i = i + 1;
                }
                (Value::List(out), p)
            },
            Shape::Record(fs) => {
                let mut out: Vec<Value> = Vec::new();
                let mut p = pos;
                let mut i: usize = 0;
                proof {
                    assert(out@ =~= Seq::<Value>::empty());
                    assert(fs@.take(0) =~= Seq::<Shape>::empty());
                }
                while i < fs.len()
                    invariant
                        *self == Shape::Record(*fs),
                        forall|j: int| 0 <= j < fs@.len() ==> wf(#[trigger] fs@[j]),
                        b == bytes@.subrange(pos as int, bytes@.len() as int),
                        pos <= p <= bytes@.len(),
                        parse_fields(fs@, b) is Some,
                        i <= fs@.len(),
                        out@.len() == i,
                        parse_fields(fs@.take(i as int), b) == Some((models(out@), (p - pos) as nat)),
                    decreases fs@.len() - i,
                {
                    proof {
                        lemma_parse_fields_prefix(fs@, b, i + 1);
                        assert(fs@.take(i + 1).drop_last() =~= fs@.take(i as int));
                        assert(b.skip(p - pos) =~= bytes@.subrange(p as int, bytes@.len() as int));
                        assert(wf(fs@[i as int]));
                        vstd::std_specs::vec::axiom_vec_index_decreases(self->Record_0, i as int);
                        assert(decreases_to!(*self => self->Record_0));
                    }
                    let (x, q) = fs[i].read(bytes, p);
                    proof {
                        assert(out@.push(x).drop_last() =~= out@);
                    }
                    out.push(x);
                    p = q;
                    i = i + 1;
                }
                proof {
                    assert(fs@.take(i as int) =~= fs@);
                }
                (Value::List(out), p)
            },
            Shape::Union(vs) => {
                let w = tag_width_of(vs.len());
                proof {
                    lemma_tag_fits(vs@.len());
                    assert(b.take(w as int) =~= bytes@.subrange(pos as int, pos + w));
                    assert(b.skip(w as int) =~= bytes@.subrange(pos + w, bytes@.len() as int));
                }
                let k = read_le(bytes, pos, w);
                let k = k as usize;
                proof {
                    assert(wf(vs@[k as int]));
                    vstd::std_specs::vec::axiom_vec_index_decreases(self->Union_0, k as int);
                    assert(decreases_to!(*self => self->Union_0));
                }
                let (x, q) = vs[k].read(bytes, pos + w);
                (Value::Variant(k, Box::new(x)), q)
            },
        }
    }

    /// Reads the value of this shape that starts at `pos`, if the bytes
    /// there hold one: `None` when they run out first or a tag or presence
    /// byte is out of range.
    pub fn try_read(&self, bytes: &[u8], pos: usize) -> (r: Option<(Value, usize)>)
        requires
            wf(*self),
            pos <= bytes@.len(),
        ensures
            match parse(*self, bytes@.subrange(pos as int, bytes@.len() as int)) {
                None => r is None,
                Some((v, m)) => r matches Some((x, q)) && x@ == v && q == pos + m && q <= bytes@.len(),
            },
        decreases self,
    {
        let ghost b = bytes@.subrange(pos as int, bytes@.len() as int);
        let len = bytes.len();
        match self {
            Shape::Int(w) => {
                if *w > len - pos {
                    return None;
                }
                proof {
                    assert(b.take(*w as int) =~= bytes@.subrange(pos as int, pos + *w));
                }
                let x = read_le(bytes, pos, *w);
                Some((Value::Int(x), pos + *w))
            },
            Shape::Bool => {
                if pos >= len {
                    return None;
                }
                Some((Value::Bool(bytes[pos] != 0), pos + 1))
            },
            Shape::Marker => Some((Value::Unit, pos)),
            Shape::Opt(e) => {
                if pos >= len {
                    return None;
                }
                let t = bytes[pos];
                if t == 0 {
                    Some((Value::Absent, pos + 1))
                } else if t == 1 {
                    proof {
                        assert(b.drop_first() =~= bytes@.subrange(pos + 1, bytes@.len() as int));
                    }
                    match e.try_read(bytes, pos + 1) {
                        Some((x, q)) => Some((Value::Present(Box::new(x)), q)),
                        None => None,
                    }
                } else {
                    None
                }
            },
            Shape::Array(n, e) => {
                let mut out: Vec<Value> = Vec::new();
                let mut p = pos;
                let mut i: usize = 0;
                proof {
                    assert(out@ =~= Seq::<Value>::empty());
                }
                while i < *n
                    invariant
                        *self == Shape::Array(*n, *e),
                        wf(**e),
                        b == bytes@.subrange(pos as int, bytes@.len() as int),
                        pos <= p <= bytes@.len(),
                        i <= *n,
                        out@.len() == i,
                        parse_rep(**e, i as nat, b) == Some((models(out@), (p - pos) as nat)),
                    decreases *n - i,
                {
                    proof {
                        assert(b.skip(p - pos) =~= bytes@.subrange(p as int, bytes@.len() as int));
                        assert(decreases_to!(*self => self->Array_1));
                    }
                    match e.try_read(bytes, p) {
                        Some((x, q)) => {
                            proof {
                                assert(out@.push(x).drop_last() =~= out@);
                            }
                            out.push(x);
                            p = q;
                            i = i + 1;
                        },
                        None => {
                            proof {
                                if parse_rep(**e, *n as nat, b) is Some {
                                    lemma_parse_rep_prefix(**e, *n as nat, b, (i + 1) as nat);
                                }
                            }
                            return None;
                        },
                    }
                }
                Some((Value::List(out), p))
            },
            Shape::Record(fs) => {
                let mut out: Vec<Value> = Vec::new();
                let mut p = pos;
                let mut i: usize = 0;
                proof {
                    assert(out@ =~= Seq::<Value>::empty());
                    assert(fs@.take(0) =~= Seq::<Shape>::empty());
                }
                while i < fs.len()
                    invariant
                        *self == Shape::Record(*fs),
                        forall|j: int| 0 <= j < fs@.len() ==> wf(#[trigger] fs@[j]),
                        b == bytes@.subrange(pos as int, bytes@.len() as int),
                        pos <= p <= bytes@.len(),
                        i <= fs@.len(),
                        out@.len() == i,
                        parse_fields(fs@.take(i as int), b) == Some((models(out@), (p - pos) as nat)),
                    decreases fs@.len() - i,
                {
                    proof {
                        assert(fs@.take(i + 1).drop_last() =~= fs@.take(i as int));
                        assert(b.skip(p - pos) =~= bytes@.subrange(p as int, bytes@.len() as int));
                        assert(wf(fs@[i as int]));
                        vstd::std_specs::vec::axiom_vec_index_decreases(self->Record_0, i as int);
                        assert(decreases_to!(*self => self->Record_0));
                    }
                    match fs[i].try_read(bytes, p) {
                        Some((x, q)) => {
                            proof {
                                assert(out@.push(x).drop_last() =~= out@);
                            }
                            out.push(x);
                            p = q;
                            i = i + 1;
                        },
                        None => {
                            proof {
                                if parse_fields(fs@, b) is Some {
                                    lemma_parse_fields_prefix(fs@, b, i + 1);
                                }
                            }
                            return None;
                        },
                    }
                }
                proof {
                    assert(fs@.take(i as int) =~= fs@);
                }
                Some((Value::List(out), p))
            },
            Shape::Union(vs) => {
                let w = tag_width_of(vs.len());
                if w > len - pos {
                    return None;
                }
                proof {
                    lemma_tag_fits(vs@.len());
                    assert(b.take(w as int) =~= bytes@.subrange(pos as int, pos + w));
                    assert(b.skip(w as int) =~= bytes@.subrange(pos + w, bytes@.len() as int));
                }
                let k = read_le(bytes, pos, w);
                if k >= vs.len() as u64 {
                    return None;
                }
                let k = k as usize;
                proof {
                    assert(wf(vs@[k as int]));
                    vstd::std_specs::vec::axiom_vec_index_decreases(self->Union_0, k as int);
                    assert(decreases_to!(*self => self->Union_0));
                }
                match vs[k].try_read(bytes, pos + w) {
                    Some((x, q)) => Some((Value::Variant(k, Box::new(x)), q)),
                    None => None,
                }
            },
        }
    }

    /// Writes `v` into a buffer sized by the oracle, then trims it to the
    /// bytes actually written.
    pub fn encode(&self, v: &Value) -> (r: Vec<u8>)
        requires
            wf(*self),
            has_shape(v@, *self),
            size_bound(*self) <= usize::MAX,
        ensures
            r@ == enc(*self, v@),
    {
        let n = self.size_bound();
        let mut buf: Vec<u8> = Vec::new();
        let mut i: usize = 0;
        while i < n
            invariant
                buf@.len() == i,
                i <= n,
            decreases n - i,
        {
            buf.push(0);
            i = i + 1;
        }
        let end = self.write(v, &mut buf, 0);
        buf.truncate(end);
        proof {
            assert(buf@ =~= enc(*self, v@));
        }
        buf
    }

    /// Reads a value of this shape from the start of `bytes`, once it has
    /// checked that `bytes` holds at least `size_bound` bytes. `None` when it
    /// does not, or when the bytes hold a tag or presence byte out of range.
    /// Also returns how many bytes the value took.
    pub fn decode(&self, bytes: &[u8]) -> (r: Option<(Value, usize)>)
        requires
            wf(*self),
            size_bound(*self) <= usize::MAX,
        ensures
            bytes@.len() < size_bound(*self) ==> r is None,
            bytes@.len() >= size_bound(*self) ==> match parse(*self, bytes@) {
                None => r is None,
                Some((v, m)) => r matches Some((x, n)) && x@ == v && n == m,
            },
    {
        if bytes.len() < self.size_bound() {
            return None;
        }
        proof {
            assert(bytes@.subrange(0, bytes@.len() as int) =~= bytes@);
        }
        self.try_read(bytes, 0)
    }
}

/// A type declaration, as the generator is handed it.
#[derive(Debug, PartialEq, Eq)]
pub enum Decl {
    /// A record: the shapes of its fields, in declaration order.
    Struct(Vec<Shape>),
    /// A tagged union: the payload shape of each variant, in declaration order.
    Enum(Vec<Shape>),
    /// Overlapping storage with no tag.
    Untagged(Vec<Shape>),
}

/// Why no layout could be generated for a declaration.
#[derive(Debug, Clone, PartialEq, Eq)]
pub enum GenError {
    /// Untagged overlapping storage has no defined layout.
    UntaggedUnion,
}

/// The generator: the layout of a declared type. A record lays its fields
/// out in order; a tagged union writes a tag, then the active variant's
/// payload; untagged storage is refused.
pub fn get_impl(decl: Decl) -> (r: Result<Shape, GenError>)
    ensures
        match decl {
            Decl::Struct(fs) => r == Ok::<Shape, GenError>(Shape::Record(fs)),
            Decl::Enum(vs) => r == Ok::<Shape, GenError>(Shape::Union(vs)),
            Decl::Untagged(_) => r == Err::<Shape, GenError>(GenError::UntaggedUnion),
        },
{
    match decl {
        Decl::Struct(fs) => Ok(Shape::Record(fs)),
        Decl::Enum(vs) => Ok(Shape::Union(vs)),
        Decl::Untagged(_) => Err(GenError::UntaggedUnion),
    }
}

} // verus!
