use vstd::prelude::*;

use crate::parser::{many_at, Parse};
use crate::serializer::{all_writable, many_wire, Serialize};

verus! {

/// A value whose wire form reads back as the value itself, wherever in a buffer it stands.
pub trait RoundTrip: Parse + Serialize {
    /// Whether the value `v` survives being written and read back.
    spec fn spec_valid(v: Self::V) -> bool;

    /// A valid value can be written, and reading its wire form gives it back, ending right after it.
    proof fn lemma_round_trip(buf: Seq<u8>, pos: int, v: Self::V)
        requires
            Self::spec_valid(v),
            0 <= pos,
            pos + Self::spec_wire(v).len() <= buf.len(),
            buf.subrange(pos, pos + Self::spec_wire(v).len()) == Self::spec_wire(v),
        ensures
            Self::spec_writable(v),
            Self::spec_parse(buf, pos) == Ok::<(Self::V, int), crate::parser::ParseError>(
                (v, pos + Self::spec_wire(v).len()),
            ),
    ;

    /// Whether the value at `pos` is written the way this codec writes it (no compression
    /// pointers, lengths that match what follows them), so that it is written back unchanged.
    spec fn spec_canonical_at(buf: Seq<u8>, pos: int) -> bool;

    /// A value read where it is written canonically is written back as the very bytes it was read
    /// from.
    proof fn lemma_wire_of_parse(buf: Seq<u8>, pos: int)
        requires
            0 <= pos,
            Self::spec_canonical_at(buf, pos),
            Self::spec_parse(buf, pos) is Ok,
        ensures
            Self::spec_writable(Self::spec_parse(buf, pos)->Ok_0.0),
            stands_at(buf, pos, Self::spec_wire(Self::spec_parse(buf, pos)->Ok_0.0)),
            Self::spec_parse(buf, pos)->Ok_0.1 == pos + Self::spec_wire(
                Self::spec_parse(buf, pos)->Ok_0.0,
            ).len(),
    ;
}

/// Whether each of `n` values read one after the other from `pos` is written canonically.
pub open spec fn many_canonical_at<T: RoundTrip>(buf: Seq<u8>, pos: int, n: nat) -> bool
    decreases n,
{
    if n == 0 {
        true
    } else {
        &&& T::spec_canonical_at(buf, pos)
        &&& match T::spec_parse(buf, pos) {
            Ok((_, p)) => many_canonical_at::<T>(buf, p, (n - 1) as nat),
            Err(_) => true,
        }
    }
}

/// Values read one after the other where they are written canonically are written back as the
/// very bytes they were read from.
pub proof fn lemma_many_wire_of_parse<T: RoundTrip>(buf: Seq<u8>, pos: int, n: nat)
    requires
        0 <= pos <= buf.len(),
        many_canonical_at::<T>(buf, pos, n),
        many_at::<T>(buf, pos, n) is Ok,
    ensures
        all_writable::<T>(many_at::<T>(buf, pos, n)->Ok_0.0),
        stands_at(buf, pos, many_wire::<T>(many_at::<T>(buf, pos, n)->Ok_0.0)),
        many_at::<T>(buf, pos, n)->Ok_0.1 == pos + many_wire::<T>(many_at::<T>(buf, pos, n)->Ok_0.0).len(),
    decreases n,
{
    if n == 0 {
        assert(buf.subrange(pos, pos) =~= Seq::<u8>::empty());
    } else {
        T::lemma_wire_of_parse(buf, pos);
        let (v, p) = T::spec_parse(buf, pos)->Ok_0;
        lemma_many_wire_of_parse::<T>(buf, p, (n - 1) as nat);
        let (rest, end) = many_at::<T>(buf, p, (n - 1) as nat)->Ok_0;
        let vs = seq![v] + rest;
        assert(vs.drop_first() =~= rest);
        assert(vs[0] == v);
        let w = many_wire::<T>(vs);
        assert(w == T::spec_wire(v) + many_wire::<T>(rest));
        assert(buf.subrange(pos, pos + w.len()) =~= w) by {
            assert forall|k: int| 0 <= k < w.len() implies buf[pos + k] == w[k] by {
                if k < T::spec_wire(v).len() {
                    assert(buf[pos + k] == buf.subrange(pos, p)[k]);
                } else {
                    assert(buf[pos + k] == buf.subrange(p, end)[k - T::spec_wire(v).len()]);
                }
            }
        }
        assert forall|i: int| 0 <= i < vs.len() implies T::spec_writable(#[trigger] vs[i]) by {
            if i > 0 {
                assert(vs[i] == rest[i - 1]);
            }
        }
    }
}

/// Where `a` stands at `pos` and `b` right after it, `a + b` stands at `pos`.
pub proof fn lemma_stands_at_join(buf: Seq<u8>, pos: int, a: Seq<u8>, b: Seq<u8>)
    requires
        stands_at(buf, pos, a),
        stands_at(buf, pos + a.len(), b),
    ensures
        stands_at(buf, pos, a + b),
{
    assert forall|k: int| 0 <= k < a.len() + b.len() implies buf[pos + k] == (a + b)[k] by {
        if k < a.len() {
            assert(buf[pos + k] == buf.subrange(pos, pos + a.len())[k]);
        } else {
            assert(buf[pos + k] == buf.subrange(pos + a.len(), pos + a.len() + b.len())[k - a.len()]);
        }
    }
    assert(buf.subrange(pos, pos + (a + b).len()) =~= a + b);
}

/// The two bytes at `pos` are the big-endian bytes of the value read there.
pub proof fn lemma_write_u16(buf: Seq<u8>, pos: int)
    requires
        0 <= pos,
        crate::parser::fits(buf, pos, 2),
    ensures
        stands_at(buf, pos, crate::serializer::u16_bytes(crate::parser::be_u16(buf, pos))),
{
    let b0 = buf[pos];
    let b1 = buf[pos + 1];
    let v = crate::parser::be_u16(buf, pos);
    assert(v / 0x100 == b0 && v % 0x100 == b1) by (nonlinear_arith)
        requires
            v == b0 as int * 0x100 + b1 as int,
            b0 < 256,
            b1 < 256,
    ;
    assert(buf.subrange(pos, pos + 2) =~= crate::serializer::u16_bytes(v));
}

/// The four bytes at `pos` are the big-endian bytes of the value read there.
pub proof fn lemma_write_u32(buf: Seq<u8>, pos: int)
    requires
        0 <= pos,
        crate::parser::fits(buf, pos, 4),
    ensures
        stands_at(buf, pos, crate::serializer::u32_bytes(crate::parser::be_u32(buf, pos))),
{
    let b0 = buf[pos];
    let b1 = buf[pos + 1];
    let b2 = buf[pos + 2];
    let b3 = buf[pos + 3];
    let v = crate::parser::be_u32(buf, pos);
    assert(v / 0x1000000 == b0 && v / 0x10000 % 0x100 == b1 && v / 0x100 % 0x100 == b2 && v % 0x100
        == b3) by (nonlinear_arith)
        requires
            v == b0 as int * 0x1000000 + b1 as int * 0x10000 + b2 as int * 0x100 + b3 as int,
            b0 < 256,
            b1 < 256,
            b2 < 256,
            b3 < 256,
    ;
    assert(buf.subrange(pos, pos + 4) =~= crate::serializer::u32_bytes(v));
}

/// Whether every one of the values is valid.
pub open spec fn all_valid<T: RoundTrip>(vs: Seq<T::V>) -> bool {
    forall|i: int| 0 <= i < vs.len() ==> T::spec_valid(#[trigger] vs[i])
}

/// Where `part` stands at `pos` of `buf`.
pub open spec fn stands_at(buf: Seq<u8>, pos: int, part: Seq<u8>) -> bool {
    &&& 0 <= pos
    &&& pos + part.len() <= buf.len()
    &&& buf.subrange(pos, pos + part.len()) == part
}

/// Where `a + b` stands at `pos`, `a` stands at `pos` and `b` right after it.
pub proof fn lemma_stands_at_split(buf: Seq<u8>, pos: int, a: Seq<u8>, b: Seq<u8>)
    requires
        stands_at(buf, pos, a + b),
    ensures
        stands_at(buf, pos, a),
        stands_at(buf, pos + a.len(), b),
{
    assert forall|k: int| 0 <= k < a.len() implies buf[pos + k] == a[k] by {
        assert(buf[pos + k] == buf.subrange(pos, pos + (a + b).len())[k]);
    }
    assert(buf.subrange(pos, pos + a.len()) =~= a);
    assert forall|k: int| 0 <= k < b.len() implies buf[pos + a.len() + k] == b[k] by {
        assert(buf[pos + a.len() + k] == buf.subrange(pos, pos + (a + b).len())[a.len() + k]);
    }
    assert(buf.subrange(pos + a.len(), pos + a.len() + b.len()) =~= b);
}

/// Valid values written one after the other read back as the same values.
pub proof fn lemma_many_round_trip<T: RoundTrip>(buf: Seq<u8>, pos: int, vs: Seq<T::V>)
    requires
        all_valid::<T>(vs),
        stands_at(buf, pos, many_wire::<T>(vs)),
    ensures
        all_writable::<T>(vs),
        many_at::<T>(buf, pos, vs.len()) == Ok::<(Seq<T::V>, int), crate::parser::ParseError>(
            (vs, pos + many_wire::<T>(vs).len()),
        ),
    decreases vs.len(),
{
    if vs.len() == 0 {
        assert(vs =~= Seq::<T::V>::empty());
    } else {
        let rest = vs.drop_first();
        lemma_stands_at_split(buf, pos, T::spec_wire(vs[0]), many_wire::<T>(rest));
        T::lemma_round_trip(buf, pos, vs[0]);
        assert forall|i: int| 0 <= i < rest.len() implies T::spec_valid(#[trigger] rest[i]) by {
            assert(rest[i] == vs[i + 1]);
        }
        lemma_many_round_trip::<T>(buf, pos + T::spec_wire(vs[0]).len(), rest);
        assert(seq![vs[0]] + rest =~= vs);
        assert forall|i: int| 0 <= i < vs.len() implies T::spec_writable(#[trigger] vs[i]) by {
            if i > 0 {
                assert(vs[i] == rest[i - 1]);
            }
        }
        assert(((vs.len() - 1) as nat) == rest.len());
    }
}

/// Two big-endian bytes read back as the value they were written from.
pub proof fn lemma_read_u16(buf: Seq<u8>, pos: int, x: u16)
    requires
        stands_at(buf, pos, crate::serializer::u16_bytes(x)),
    ensures
        crate::parser::be_u16(buf, pos) == x,
{
    let w = crate::serializer::u16_bytes(x);
    assert(buf[pos] == w[0]);
    assert(buf[pos + 1] == w[1]);
}

/// Four big-endian bytes read back as the value they were written from.
pub proof fn lemma_read_u32(buf: Seq<u8>, pos: int, x: u32)
    requires
        stands_at(buf, pos, crate::serializer::u32_bytes(x)),
    ensures
        crate::parser::be_u32(buf, pos) == x,
{
    let w = crate::serializer::u32_bytes(x);
    assert(buf[pos] == w[0]);
    assert(buf[pos + 1] == w[1]);
    assert(buf[pos + 2] == w[2]);
    assert(buf[pos + 3] == w[3]);
    let a = x / 0x1000000;
    let b = x / 0x10000 % 0x100;
    let c = x / 0x100 % 0x100;
    let d = x % 0x100;
    assert(a * 0x1000000 + b * 0x10000 + c * 0x100 + d == x) by (nonlinear_arith)
        requires
            a == x / 0x1000000,
            b == x / 0x10000 % 0x100,
            c == x / 0x100 % 0x100,
            d == x % 0x100,
    ;
}

} // verus!
