use vstd::prelude::*;

use crate::parser::saturated;

verus! {

/// The capacity of a `Serializer`: room for an EDNS0-sized message.
pub const MAX_SIZE: usize = 4096;

/// Why a message could not be written.
#[derive(Debug, Clone, Copy, PartialEq, Eq, Structural)]
pub enum SerializeError {
    /// A write would end at the first position; the buffer holds the second number of bytes.
    BufferOverflow(usize, usize),
    /// A label of this length cannot be written: labels hold 1 to 63 bytes.
    InvalidLabelLength(usize),
}

/// The two big-endian bytes of `v`.
pub open spec fn u16_bytes(v: u16) -> Seq<u8> {
    seq![(v / 0x100) as u8, (v % 0x100) as u8]
}

/// The four big-endian bytes of `v`.
pub open spec fn u32_bytes(v: u32) -> Seq<u8> {
    seq![(v / 0x1000000) as u8, (v / 0x10000 % 0x100) as u8, (v / 0x100 % 0x100) as u8, (v % 0x100) as u8]
}

/// A bounds-checked writer into a buffer of `MAX_SIZE` bytes.
pub struct Serializer {
    buf: Vec<u8>,
}

/// What writing `wire` through `before` has done, ending in `after` with the result `r`. It succeeds
/// exactly when the value can be written (`writable`) and its bytes fit; then they are appended.
/// What was written before is never changed.
pub open spec fn wrote<T>(
    before: Serializer,
    after: Serializer,
    wire: Seq<u8>,
    writable: bool,
    r: Result<T, SerializeError>,
) -> bool {
    &&& r is Ok <==> writable && before.bytes().len() + wire.len() <= MAX_SIZE
    &&& r is Ok ==> after.bytes() == before.bytes() + wire
    &&& after.bytes().len() >= before.bytes().len()
    &&& after.bytes().subrange(0, before.bytes().len() as int) == before.bytes()
    &&& r matches Err(SerializeError::BufferOverflow(_, _)) ==> before.bytes().len() + wire.len()
        > MAX_SIZE
    &&& r matches Err(SerializeError::InvalidLabelLength(_)) ==> !writable
}

/// The values one after the other on the wire.
pub open spec fn many_wire<T: Serialize>(vs: Seq<T::V>) -> Seq<u8>
    decreases vs.len(),
{
    if vs.len() == 0 {
        Seq::empty()
    } else {
        T::spec_wire(vs[0]) + many_wire::<T>(vs.drop_first())
    }
}

/// Whether every one of the values can be written.
pub open spec fn all_writable<T: Serialize>(vs: Seq<T::V>) -> bool {
    forall|i: int| 0 <= i < vs.len() ==> T::spec_writable(#[trigger] vs[i])
}

/// `many_wire` of two sequences one after the other.
pub proof fn lemma_many_wire_split<T: Serialize>(a: Seq<T::V>, b: Seq<T::V>)
    ensures
        many_wire::<T>(a + b) == many_wire::<T>(a) + many_wire::<T>(b),
    decreases a.len(),
{
    if a.len() == 0 {
        assert(a + b =~= b);
        assert(many_wire::<T>(a) + many_wire::<T>(b) =~= many_wire::<T>(b));
    } else {
        assert((a + b).drop_first() =~= a.drop_first() + b);
        lemma_many_wire_split::<T>(a.drop_first(), b);
        assert(many_wire::<T>(a + b) =~= many_wire::<T>(a) + many_wire::<T>(b));
    }
}

/// The wire of the values up to `i`, then of value `i`, then of the rest.
proof fn lemma_many_wire_at<T: Serialize>(vs: Seq<T::V>, i: int)
    requires
        0 <= i < vs.len(),
    ensures
        many_wire::<T>(vs.subrange(0, i + 1)) == many_wire::<T>(vs.subrange(0, i)) + T::spec_wire(vs[i]),
        many_wire::<T>(vs) == many_wire::<T>(vs.subrange(0, i)) + T::spec_wire(vs[i]) + many_wire::<T>(
            vs.subrange(i + 1, vs.len() as int),
        ),
{
    let one = seq![vs[i]];
    assert(vs.subrange(0, i + 1) =~= vs.subrange(0, i) + one);
    lemma_many_wire_split::<T>(vs.subrange(0, i), one);
    assert(one.drop_first() =~= Seq::<T::V>::empty());
    assert(many_wire::<T>(one.drop_first()) =~= Seq::<u8>::empty());
    assert(one[0] == vs[i]);
    assert(many_wire::<T>(one) =~= T::spec_wire(vs[i]));
    assert(vs =~= vs.subrange(0, i + 1) + vs.subrange(i + 1, vs.len() as int));
    lemma_many_wire_split::<T>(vs.subrange(0, i + 1), vs.subrange(i + 1, vs.len() as int));
}

/// Writes the values one after the other; returns the writer's new position.
pub fn serialize_many<T: Serialize>(items: &Vec<T>, serializer: &mut Serializer) -> (r: Result<usize, SerializeError>)
    ensures
        wrote(
            *old(serializer),
            *final(serializer),
            many_wire::<T>(items@.map_values(|x: T| x@)),
            all_writable::<T>(items@.map_values(|x: T| x@)),
            r,
        ),
        r is Ok ==> r->Ok_0 == final(serializer).bytes().len(),
{
    let ghost s0 = *serializer;
    let ghost vs = items@.map_values(|x: T| x@);
    proof {
        use_type_invariant(&*serializer);
        assert(s0.bytes().subrange(0, s0.bytes().len() as int) =~= s0.bytes());
        assert(s0.bytes() + Seq::<u8>::empty() =~= s0.bytes());
        assert(vs.subrange(0, 0) =~= Seq::<T::V>::empty());
    }
    let mut i: usize = 0;
    while i < items.len()
        invariant
            0 <= i <= items.len(),
            vs == items@.map_values(|x: T| x@),
            s0 == *old(serializer),
            wrote(s0, *serializer, many_wire::<T>(vs.subrange(0, i as int)), all_writable::<T>(vs.subrange(0, i as int)), Ok::<(), SerializeError>(())),
        decreases items.len() - i,
    {
        let ghost cur = *serializer;
        let r = items[i].serialize(serializer);
        proof {
            lemma_many_wire_at::<T>(vs, i as int);
            assert(vs[i as int] == items[i as int]@);
            lemma_wrote_then(
                s0,
                cur,
                *serializer,
                many_wire::<T>(vs.subrange(0, i as int)),
                T::spec_wire(vs[i as int]),
                all_writable::<T>(vs.subrange(0, i as int)),
                T::spec_writable(vs[i as int]),
                Ok::<(), SerializeError>(()),
                r,
            );
            assert(all_writable::<T>(vs.subrange(0, i as int)) && T::spec_writable(vs[i as int])
                <==> all_writable::<T>(vs.subrange(0, i as int + 1))) by {
                assert forall|j: int| 0 <= j < i + 1 implies vs.subrange(0, i as int + 1)[j] == vs[j] by {}
                assert forall|j: int| 0 <= j < i implies vs.subrange(0, i as int)[j] == vs[j] by {}
            }
        }
        match r {
            Ok(_) => {},
            Err(e) => {
                proof {
                    let rest = vs.subrange(i as int + 1, vs.len() as int);
                    lemma_wrote_stop(
                        s0,
                        *serializer,
                        many_wire::<T>(vs.subrange(0, i as int + 1)),
                        many_wire::<T>(rest),
                        all_writable::<T>(vs.subrange(0, i as int + 1)),
                        all_writable::<T>(rest),
                        r,
                    );
                    assert(vs =~= vs.subrange(0, i as int + 1) + rest);
                    lemma_many_wire_split::<T>(vs.subrange(0, i as int + 1), rest);
                    assert(all_writable::<T>(vs.subrange(0, i as int + 1)) && all_writable::<T>(rest)
                        <==> all_writable::<T>(vs)) by {
                        assert forall|j: int| 0 <= j < vs.len() implies (j <= i ==> vs.subrange(0, i as int + 1)[j] == vs[j]) && (j > i ==> rest[j - i - 1] == vs[j]) by {}
                        if all_writable::<T>(vs) {
                            assert forall|j: int| 0 <= j < rest.len() implies T::spec_writable(#[trigger] rest[j]) by {
                                assert(rest[j] == vs[j + i + 1]);
                            }
                        }
                    }
                }
                return Err(e);
            },
        }
        proof {
            lemma_wrote_then(s0, cur, *serializer, many_wire::<T>(vs.subrange(0, i as int)), T::spec_wire(vs[i as int]), all_writable::<T>(vs.subrange(0, i as int)), T::spec_writable(vs[i as int]), Ok::<(), SerializeError>(()), Ok::<(), SerializeError>(()));
        }
        i = i + 1;
    }
    proof {
        assert(vs.subrange(0, i as int) =~= vs);
    }
    Ok(serializer.position())
}

/// Two writes one after the other are one write of both values.
pub proof fn lemma_wrote_then<A, B>(
    s0: Serializer,
    s1: Serializer,
    s2: Serializer,
    w1: Seq<u8>,
    w2: Seq<u8>,
    ok1: bool,
    ok2: bool,
    r1: Result<A, SerializeError>,
    r2: Result<B, SerializeError>,
)
    requires
        wrote(s0, s1, w1, ok1, r1),
        r1 is Ok,
        wrote(s1, s2, w2, ok2, r2),
    ensures
        wrote(s0, s2, w1 + w2, ok1 && ok2, r2),
{
    let b0 = s0.bytes();
    let b1 = s1.bytes();
    let b2 = s2.bytes();
    assert(b1 =~= b0 + w1);
    assert forall|i: int| 0 <= i < b0.len() implies b2[i] == b0[i] by {
        assert(b2[i] == b2.subrange(0, b1.len() as int)[i]);
        assert(b1[i] == b1.subrange(0, b0.len() as int)[i]);
    }
    assert(b2.subrange(0, b0.len() as int) =~= b0);
    assert((w1 + w2).len() == w1.len() + w2.len());
    if r2 is Ok {
        assert(b2 =~= b0 + (w1 + w2));
    }
}

/// A write that failed is a failed write of anything that starts with its value.
pub proof fn lemma_wrote_stop<A>(
    s0: Serializer,
    s1: Serializer,
    w1: Seq<u8>,
    w2: Seq<u8>,
    ok1: bool,
    ok2: bool,
    r1: Result<A, SerializeError>,
)
    requires
        wrote(s0, s1, w1, ok1, r1),
        r1 is Err,
    ensures
        wrote(s0, s1, w1 + w2, ok1 && ok2, r1),
{
}

impl Serializer {
    #[verifier::type_invariant]
    spec fn inv(&self) -> bool {
        self.buf@.len() <= MAX_SIZE
    }

    /// The bytes written so far.
    pub closed spec fn bytes(&self) -> Seq<u8> {
        self.buf@
    }

    pub fn new() -> (s: Self)
        ensures
            s.bytes() == Seq::<u8>::empty(),
    {
        Serializer { buf: Vec::new() }
    }

    /// How many more bytes fit.
    pub fn remaining(&self) -> (r: usize)
        ensures
            r == MAX_SIZE - self.bytes().len(),
    {
        proof {
            use_type_invariant(self);
        }
        MAX_SIZE - self.buf.len()
    }

    /// How many bytes have been written: the length of the message so far.
    pub fn position(&self) -> (r: usize)
        ensures
            r == self.bytes().len(),
    {
        self.buf.len()
    }

    /// The bytes written so far.
    pub fn as_bytes(&self) -> (r: &[u8])
        ensures
            r@ == self.bytes(),
    {
        self.buf.as_slice()
    }

    /// Gives up the writer for the bytes it holds.
    pub fn into_bytes(self) -> (r: Vec<u8>)
        ensures
            r@ == self.bytes(),
    {
        self.buf
    }

    pub fn write_u32(&mut self, value: u32) -> (r: Result<(), SerializeError>)
        ensures
            wrote(*old(self), *final(self), u32_bytes(value), true, r),
            r is Ok <==> old(self).bytes().len() + 4 <= MAX_SIZE,
            r is Ok ==> final(self).bytes() == old(self).bytes() + u32_bytes(value),
            r is Err ==> final(self).bytes() == old(self).bytes() && r == Err::<(), SerializeError>(
                SerializeError::BufferOverflow(saturated(old(self).bytes().len() as int, 4), MAX_SIZE),
            ),
    {
        let bytes: [u8; 4] = [
            (value / 0x1000000) as u8,
            (value / 0x10000 % 0x100) as u8,
            (value / 0x100 % 0x100) as u8,
            (value % 0x100) as u8,
        ];
        let r = self.write_bytes(&bytes);
        proof {
            assert(bytes@ =~= u32_bytes(value));
        }
        r
    }

    pub fn write_u16(&mut self, value: u16) -> (r: Result<(), SerializeError>)
        ensures
            wrote(*old(self), *final(self), u16_bytes(value), true, r),
            r is Ok <==> old(self).bytes().len() + 2 <= MAX_SIZE,
            r is Ok ==> final(self).bytes() == old(self).bytes() + u16_bytes(value),
            r is Err ==> final(self).bytes() == old(self).bytes() && r == Err::<(), SerializeError>(
                SerializeError::BufferOverflow(saturated(old(self).bytes().len() as int, 2), MAX_SIZE),
            ),
    {
        let bytes: [u8; 2] = [(value / 0x100) as u8, (value % 0x100) as u8];
        let r = self.write_bytes(&bytes);
        proof {
            assert(bytes@ =~= u16_bytes(value));
        }
        r
    }

    pub fn write_u8(&mut self, value: u8) -> (r: Result<(), SerializeError>)
        ensures
            wrote(*old(self), *final(self), seq![value], true, r),
            r is Ok <==> old(self).bytes().len() + 1 <= MAX_SIZE,
            r is Ok ==> final(self).bytes() == old(self).bytes().push(value),
            r is Err ==> final(self).bytes() == old(self).bytes() && r == Err::<(), SerializeError>(
                SerializeError::BufferOverflow(saturated(old(self).bytes().len() as int, 1), MAX_SIZE),
            ),
    {
        proof {
            use_type_invariant(&*self);
        }
        if self.buf.len() >= MAX_SIZE {
            proof {
                assert(self.buf@.subrange(0, self.buf@.len() as int) =~= self.buf@);
            }
            return Err(SerializeError::BufferOverflow(self.buf.len() + 1, MAX_SIZE));
        }
        let mut taken = Serializer { buf: Vec::new() };
        core::mem::swap(self, &mut taken);
        let mut buf = taken.buf;
        buf.push(value);
        *self = Serializer { buf };
        proof {
            assert(self.buf@ =~= old(self).buf@ + seq![value]);
            assert(self.buf@.subrange(0, old(self).buf@.len() as int) =~= old(self).buf@);
        }
        Ok(())
    }

    /// Appends `bytes`, or fails without writing anything where they do not fit.
    pub fn write_bytes(&mut self, bytes: &[u8]) -> (r: Result<(), SerializeError>)
        ensures
            wrote(*old(self), *final(self), bytes@, true, r),
            r is Ok <==> old(self).bytes().len() + bytes@.len() <= MAX_SIZE,
            r is Ok ==> final(self).bytes() == old(self).bytes() + bytes@,
            r is Err ==> final(self).bytes() == old(self).bytes() && r == Err::<(), SerializeError>(
                SerializeError::BufferOverflow(
                    saturated(old(self).bytes().len() as int, bytes@.len() as int),
                    MAX_SIZE,
                ),
            ),
    {
        proof {
            use_type_invariant(&*self);
        }
        if bytes.len() > MAX_SIZE - self.buf.len() {
            proof {
                assert(self.buf@.subrange(0, self.buf@.len() as int) =~= self.buf@);
            }
            return Err(SerializeError::BufferOverflow(self.buf.len().saturating_add(bytes.len()), MAX_SIZE));
        }
        let mut taken = Serializer { buf: Vec::new() };
        core::mem::swap(self, &mut taken);
        let mut buf = taken.buf;
        buf.extend_from_slice(bytes);
        *self = Serializer { buf };
        proof {
            assert(self.buf@ =~= old(self).buf@ + bytes@);
            assert(self.buf@.subrange(0, old(self).buf@.len() as int) =~= old(self).buf@);
        }
        Ok(())
    }
}

/// A value that can be written through a `Serializer`.
pub trait Serialize: View {
    /// The bytes that stand for the value `v` on the wire.
    spec fn spec_wire(v: Self::V) -> Seq<u8>;

    /// Whether the value `v` can be written at all (its labels have valid lengths).
    spec fn spec_writable(v: Self::V) -> bool;

    /// Appends the value's bytes; returns the writer's new position.
    fn serialize(&self, serializer: &mut Serializer) -> (r: Result<usize, SerializeError>)
        ensures
            wrote(*old(serializer), *final(serializer), Self::spec_wire(self@), Self::spec_writable(self@), r),
            r is Ok ==> r->Ok_0 == final(serializer).bytes().len(),
    ;
}

} // verus!
