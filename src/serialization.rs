//! Byte-order aware encoding and decoding of wire values.
//!
//! Every wire value has a mathematical encoding (a `Seq<u8>`). Writers append
//! exactly that encoding to a buffer; readers accept a position in a byte
//! slice and succeed exactly when the encoding of some value starts there.
//! Each encoding is prefix-unique: two values whose encodings both start at
//! the same position are equal, which makes every reader the exact inverse of
//! its writer.

use vstd::prelude::*;

verus! {

/// Why a value could not be written or read. The text names the failing field.
pub enum ErrorSerialization {
    ErrorInSerialization(String),
    ErrorInDeserialization(String),
}

/// `data` holds the bytes `e` starting at index `pos`.
pub open spec fn holds_at(data: Seq<u8>, pos: int, e: Seq<u8>) -> bool {
    0 <= pos && pos + e.len() <= data.len() && data.subrange(pos, pos + e.len()) == e
}

/// Two encodings that both start at `pos` of `data` agree on their common length.
pub proof fn lemma_holds_at_both(data: Seq<u8>, pos: int, a: Seq<u8>, b: Seq<u8>)
    requires
        holds_at(data, pos, a),
        holds_at(data, pos, b),
    ensures
        a.len() == b.len() ==> a == b,
        forall|i: int| 0 <= i < a.len() && i < b.len() ==> #[trigger] a[i] == b[i],
{
    assert forall|i: int| 0 <= i < a.len() && i < b.len() implies #[trigger] a[i] == b[i] by {
        assert(a[i] == data.subrange(pos, pos + a.len())[i]);
        assert(b[i] == data.subrange(pos, pos + b.len())[i]);
    }
    if a.len() == b.len() {
        assert(a =~= b);
    }
}

/// `a + b` starts at `pos` exactly when `a` starts there and `b` follows it.
pub proof fn lemma_holds_at_concat(data: Seq<u8>, pos: int, a: Seq<u8>, b: Seq<u8>)
    ensures
        holds_at(data, pos, a + b) <==> (holds_at(data, pos, a) && holds_at(data, pos + a.len(), b)),
{
    if holds_at(data, pos, a + b) {
        assert(data.subrange(pos, pos + a.len()) =~= (a + b).subrange(0, a.len() as int));
        assert((a + b).subrange(0, a.len() as int) =~= a);
        assert((a + b).subrange(a.len() as int, (a + b).len() as int) =~= b);
        assert(data.subrange(pos + a.len(), pos + a.len() + b.len()) =~= (a + b).subrange(
            a.len() as int,
            (a + b).len() as int,
        ));
    }
    if holds_at(data, pos, a) && holds_at(data, pos + a.len(), b) {
        assert(data.subrange(pos, pos + (a + b).len()) =~= data.subrange(pos, pos + a.len())
            + data.subrange(pos + a.len(), pos + a.len() + b.len()));
        assert(data.subrange(pos, pos + (a + b).len()) =~= a + b);
    }
}

/// Three encodings one after the other start at `pos`.
pub proof fn lemma_holds_at3(data: Seq<u8>, pos: int, a: Seq<u8>, b: Seq<u8>, c: Seq<u8>)
    ensures
        holds_at(data, pos, a + b + c) <==> (holds_at(data, pos, a) && holds_at(data, pos + a.len(), b)
            && holds_at(data, pos + a.len() + b.len(), c)),
{
    lemma_holds_at_concat(data, pos, a + b, c);
    lemma_holds_at_concat(data, pos, a, b);
}

/// Four encodings one after the other start at `pos`.
pub proof fn lemma_holds_at4(
    data: Seq<u8>,
    pos: int,
    a: Seq<u8>,
    b: Seq<u8>,
    c: Seq<u8>,
    d: Seq<u8>,
)
    ensures
        holds_at(data, pos, a + b + c + d) <==> (holds_at(data, pos, a) && holds_at(
            data,
            pos + a.len(),
            b,
        ) && holds_at(data, pos + a.len() + b.len(), c) && holds_at(
            data,
            pos + a.len() + b.len() + c.len(),
            d,
        )),
{
    lemma_holds_at_concat(data, pos, a + b + c, d);
    lemma_holds_at3(data, pos, a, b, c);
}

/// A value with a little-endian wire encoding.
pub trait SerializableLittleEndian: Sized {
    spec fn le_bytes(&self) -> Seq<u8>;

    fn le_serialize(&self, stream: &mut Vec<u8>)
        ensures
            final(stream)@ == old(stream)@ + self.le_bytes(),
    ;

    fn le_deserialize(data: &[u8], pos: usize) -> (r: Result<(Self, usize), ErrorSerialization>)
        ensures
            r is Ok <==> exists|v: Self| holds_at(data@, pos as int, #[trigger] v.le_bytes()),
            r matches Ok((v, end)) ==> holds_at(data@, pos as int, v.le_bytes()) && end == pos
                + v.le_bytes().len(),
            r matches Err(e) ==> e is ErrorInDeserialization,
    ;

    /// The little-endian encoding is prefix-unique.
    proof fn lemma_le_unique(data: Seq<u8>, pos: int, a: Self, b: Self)
        requires
            holds_at(data, pos, a.le_bytes()),
            holds_at(data, pos, b.le_bytes()),
        ensures
            a == b,
    ;
}

/// A value with a big-endian wire encoding.
pub trait SerializableBigEndian: Sized {
    spec fn be_bytes(&self) -> Seq<u8>;

    fn be_serialize(&self, stream: &mut Vec<u8>)
        ensures
            final(stream)@ == old(stream)@ + self.be_bytes(),
    ;

    fn be_deserialize(data: &[u8], pos: usize) -> (r: Result<(Self, usize), ErrorSerialization>)
        ensures
            r is Ok <==> exists|v: Self| holds_at(data@, pos as int, #[trigger] v.be_bytes()),
            r matches Ok((v, end)) ==> holds_at(data@, pos as int, v.be_bytes()) && end == pos
                + v.be_bytes().len(),
            r matches Err(e) ==> e is ErrorInDeserialization,
    ;

    /// The big-endian encoding is prefix-unique.
    proof fn lemma_be_unique(data: Seq<u8>, pos: int, a: Self, b: Self)
        requires
            holds_at(data, pos, a.be_bytes()),
            holds_at(data, pos, b.be_bytes()),
        ensures
            a == b,
    ;
}

/// A structure encoded field by field in the order that the wire format fixes.
pub trait SerializableInternalOrder: Sized {
    spec fn io_bytes(&self) -> Seq<u8>;

    fn io_serialize(&self, stream: &mut Vec<u8>)
        ensures
            final(stream)@ == old(stream)@ + self.io_bytes(),
    ;

    fn io_deserialize(data: &[u8], pos: usize) -> (r: Result<(Self, usize), ErrorSerialization>)
        ensures
            r is Ok <==> exists|v: Self| holds_at(data@, pos as int, #[trigger] v.io_bytes()),
            r matches Ok((v, end)) ==> holds_at(data@, pos as int, v.io_bytes()) && end == pos
                + v.io_bytes().len(),
            r matches Err(e) ==> e is ErrorInDeserialization,
    ;

    /// The encoding is prefix-unique: two encodings that start at the same
    /// place are the same bytes.
    proof fn lemma_io_unique(data: Seq<u8>, pos: int, a: Self, b: Self)
        requires
            holds_at(data, pos, a.io_bytes()),
            holds_at(data, pos, b.io_bytes()),
        ensures
            a.io_bytes() == b.io_bytes(),
    ;
}

/// The little-endian encoding of a `u32`: lowest byte first.
pub open spec fn u32_le_bytes(v: u32) -> Seq<u8> {
    seq![
        (v & 0xff) as u8,
        ((v >> 8u32) & 0xff) as u8,
        ((v >> 16u32) & 0xff) as u8,
        ((v >> 24u32) & 0xff) as u8,
    ]
}

proof fn lemma_u32_bytes(b0: u8, b1: u8, b2: u8, b3: u8, v: u32)
    requires
        v == (b0 as u32) | ((b1 as u32) << 8u32) | ((b2 as u32) << 16u32) | ((b3 as u32) << 24u32),
    ensures
        u32_le_bytes(v) =~= seq![b0, b1, b2, b3],
{
    assert((v & 0xff) as u8 == b0 && ((v >> 8u32) & 0xff) as u8 == b1 && ((v >> 16u32) & 0xff) as u8
        == b2 && ((v >> 24u32) & 0xff) as u8 == b3) by (bit_vector)
        requires
            v == (b0 as u32) | ((b1 as u32) << 8u32) | ((b2 as u32) << 16u32) | ((b3 as u32)
                << 24u32),
    ;
}

proof fn lemma_u32_injective(a: u32, b: u32)
    requires
        u32_le_bytes(a) == u32_le_bytes(b),
    ensures
        a == b,
{
    assert(u32_le_bytes(a)[0] == u32_le_bytes(b)[0]);
    assert(u32_le_bytes(a)[1] == u32_le_bytes(b)[1]);
    assert(u32_le_bytes(a)[2] == u32_le_bytes(b)[2]);
    assert(u32_le_bytes(a)[3] == u32_le_bytes(b)[3]);
    assert(a == b) by (bit_vector)
        requires
            (a & 0xff) as u8 == (b & 0xff) as u8,
            ((a >> 8u32) & 0xff) as u8 == ((b >> 8u32) & 0xff) as u8,
            ((a >> 16u32) & 0xff) as u8 == ((b >> 16u32) & 0xff) as u8,
            ((a >> 24u32) & 0xff) as u8 == ((b >> 24u32) & 0xff) as u8,
    ;
}

/// Whether `len` bytes are available at `pos` of `data`.
fn available(data: &[u8], pos: usize, len: usize) -> (r: bool)
    ensures
        r <==> pos + len <= data@.len(),
        data@.len() <= usize::MAX,
{
    pos <= data.len() && len <= data.len() - pos
}

/// Reads the four bytes at `pos` as a little-endian `u32`.
pub(crate) fn read_u32_at(data: &[u8], pos: usize) -> (v: u32)
    requires
        pos + 4 <= data@.len(),
    ensures
        u32_le_bytes(v) == data@.subrange(pos as int, pos + 4),
{
    let b0 = data[pos];
    let b1 = data[pos + 1];
    let b2 = data[pos + 2];
    let b3 = data[pos + 3];
    let v = (b0 as u32) | ((b1 as u32) << 8u32) | ((b2 as u32) << 16u32) | ((b3 as u32) << 24u32);
    proof {
        lemma_u32_bytes(b0, b1, b2, b3, v);
        assert(data@.subrange(pos as int, pos + 4) =~= seq![b0, b1, b2, b3]);
    }
    v
}

impl SerializableLittleEndian for u32 {
    open spec fn le_bytes(&self) -> Seq<u8> {
        u32_le_bytes(*self)
    }

    fn le_serialize(&self, stream: &mut Vec<u8>) {
        let v = *self;
        stream.push((v & 0xff) as u8);
        stream.push(((v >> 8u32) & 0xff) as u8);
        stream.push(((v >> 16u32) & 0xff) as u8);
        stream.push(((v >> 24u32) & 0xff) as u8);
        assert(final(stream)@ =~= old(stream)@ + self.le_bytes());
    }

    fn le_deserialize(data: &[u8], pos: usize) -> (r: Result<(Self, usize), ErrorSerialization>) {
        if !available(data, pos, 4) {
            proof {
                assert forall|v: u32| !holds_at(data@, pos as int, #[trigger] v.le_bytes()) by {}
            }
            return Err(ErrorSerialization::ErrorInDeserialization("u32".to_string()));
        }
        let v = read_u32_at(data, pos);
        proof {
            assert(holds_at(data@, pos as int, v.le_bytes()));
        }
        Ok((v, pos + 4))
    }

    proof fn lemma_le_unique(data: Seq<u8>, pos: int, a: Self, b: Self) {
        lemma_holds_at_both(data, pos, a.le_bytes(), b.le_bytes());
        lemma_u32_injective(a, b);
    }
}


/// The little-endian encoding of a `u16`: lowest byte first.
pub open spec fn u16_le_bytes(v: u16) -> Seq<u8> {
    seq![(v & 0xff) as u8, ((v >> 8u16) & 0xff) as u8]
}

/// Reads the two bytes at `pos` as a little-endian `u16`.
pub(crate) fn read_u16_at(data: &[u8], pos: usize) -> (v: u16)
    requires
        pos + 2 <= data@.len(),
    ensures
        u16_le_bytes(v) == data@.subrange(pos as int, pos + 2),
{
    let b0 = data[pos];
    let b1 = data[pos + 1];
    let v = (b0 as u16) | ((b1 as u16) << 8u16);
    assert((v & 0xff) as u8 == b0 && ((v >> 8u16) & 0xff) as u8 == b1) by (bit_vector)
        requires
            v == (b0 as u16) | ((b1 as u16) << 8u16),
    ;
    assert(data@.subrange(pos as int, pos + 2) =~= u16_le_bytes(v));
    v
}

impl SerializableLittleEndian for u16 {
    open spec fn le_bytes(&self) -> Seq<u8> {
        u16_le_bytes(*self)
    }

    fn le_serialize(&self, stream: &mut Vec<u8>) {
        let v = *self;
        stream.push((v & 0xff) as u8);
        stream.push(((v >> 8u16) & 0xff) as u8);
        assert(final(stream)@ =~= old(stream)@ + self.le_bytes());
    }

    fn le_deserialize(data: &[u8], pos: usize) -> (r: Result<(Self, usize), ErrorSerialization>) {
        if !available(data, pos, 2) {
            proof {
                assert forall|v: u16| !holds_at(data@, pos as int, #[trigger] v.le_bytes()) by {}
            }
            return Err(ErrorSerialization::ErrorInDeserialization("u16".to_string()));
        }
        let v = read_u16_at(data, pos);
        assert(holds_at(data@, pos as int, v.le_bytes()));
        Ok((v, pos + 2))
    }

    proof fn lemma_le_unique(data: Seq<u8>, pos: int, a: Self, b: Self) {
        lemma_holds_at_both(data, pos, a.le_bytes(), b.le_bytes());
        assert(a.le_bytes()[0] == b.le_bytes()[0]);
        assert(a.le_bytes()[1] == b.le_bytes()[1]);
        assert(a == b) by (bit_vector)
            requires
                (a & 0xff) as u8 == (b & 0xff) as u8,
                ((a >> 8u16) & 0xff) as u8 == ((b >> 8u16) & 0xff) as u8,
        ;
    }
}

/// The little-endian encoding of a `u64`: the encoding of its low half, then
/// that of its high half.
pub open spec fn u64_le_bytes(v: u64) -> Seq<u8> {
    u32_le_bytes((v & 0xffff_ffff) as u32) + u32_le_bytes((v >> 32u64) as u32)
}

/// Reads the eight bytes at `pos` as a little-endian `u64`.
pub(crate) fn read_u64_at(data: &[u8], pos: usize) -> (v: u64)
    requires
        pos + 8 <= data@.len(),
    ensures
        u64_le_bytes(v) == data@.subrange(pos as int, pos + 8),
{
    let n = data.len();
    assert(pos + 4 < n);
    let lo = read_u32_at(data, pos);
    let hi = read_u32_at(data, pos + 4);
    let v = (lo as u64) | ((hi as u64) << 32u64);
    assert((v & 0xffff_ffff) as u32 == lo && (v >> 32u64) as u32 == hi) by (bit_vector)
        requires
            v == (lo as u64) | ((hi as u64) << 32u64),
    ;
    assert(data@.subrange(pos as int, pos + 8) =~= data@.subrange(pos as int, pos + 4)
        + data@.subrange(pos + 4, pos + 8));
    v
}

impl SerializableLittleEndian for u64 {
    open spec fn le_bytes(&self) -> Seq<u8> {
        u64_le_bytes(*self)
    }

    fn le_serialize(&self, stream: &mut Vec<u8>) {
        let v = *self;
        let lo = (v & 0xffff_ffff) as u32;
        let hi = (v >> 32u64) as u32;
        lo.le_serialize(stream);
        hi.le_serialize(stream);
        assert(final(stream)@ =~= old(stream)@ + self.le_bytes());
    }

    fn le_deserialize(data: &[u8], pos: usize) -> (r: Result<(Self, usize), ErrorSerialization>) {
        if !available(data, pos, 8) {
            proof {
                assert forall|v: u64| !holds_at(data@, pos as int, #[trigger] v.le_bytes()) by {}
            }
            return Err(ErrorSerialization::ErrorInDeserialization("u64".to_string()));
        }
        let v = read_u64_at(data, pos);
        assert(holds_at(data@, pos as int, v.le_bytes()));
        Ok((v, pos + 8))
    }

    proof fn lemma_le_unique(data: Seq<u8>, pos: int, a: Self, b: Self) {
        lemma_holds_at_both(data, pos, a.le_bytes(), b.le_bytes());
        let (al, ah) = ((a & 0xffff_ffff) as u32, (a >> 32u64) as u32);
        let (bl, bh) = ((b & 0xffff_ffff) as u32, (b >> 32u64) as u32);
        assert(u32_le_bytes(al) =~= a.le_bytes().subrange(0, 4));
        assert(u32_le_bytes(bl) =~= b.le_bytes().subrange(0, 4));
        assert(u32_le_bytes(ah) =~= a.le_bytes().subrange(4, 8));
        assert(u32_le_bytes(bh) =~= b.le_bytes().subrange(4, 8));
        lemma_u32_injective(al, bl);
        lemma_u32_injective(ah, bh);
        assert(a == b) by (bit_vector)
            requires
                (a & 0xffff_ffff) as u32 == (b & 0xffff_ffff) as u32,
                (a >> 32u64) as u32 == (b >> 32u64) as u32,
        ;
    }
}

impl SerializableLittleEndian for u8 {
    open spec fn le_bytes(&self) -> Seq<u8> {
        seq![*self]
    }

    fn le_serialize(&self, stream: &mut Vec<u8>) {
        stream.push(*self);
        assert(final(stream)@ =~= old(stream)@ + self.le_bytes());
    }

    fn le_deserialize(data: &[u8], pos: usize) -> (r: Result<(Self, usize), ErrorSerialization>) {
        if !available(data, pos, 1) {
            proof {
                assert forall|v: u8| !holds_at(data@, pos as int, #[trigger] v.le_bytes()) by {}
            }
            return Err(ErrorSerialization::ErrorInDeserialization("u8".to_string()));
        }
        let v = data[pos];
        proof {
            assert(data@.subrange(pos as int, pos + 1) =~= v.le_bytes());
            assert(holds_at(data@, pos as int, v.le_bytes()));
        }
        Ok((v, pos + 1))
    }

    proof fn lemma_le_unique(data: Seq<u8>, pos: int, a: Self, b: Self) {
        lemma_holds_at_both(data, pos, a.le_bytes(), b.le_bytes());
        assert(a.le_bytes()[0] == b.le_bytes()[0]);
    }
}

/// A flag is one byte: 1 for true, 0 for false. Any other byte is refused.
impl SerializableLittleEndian for bool {
    open spec fn le_bytes(&self) -> Seq<u8> {
        seq![if *self { 1u8 } else { 0u8 }]
    }

    fn le_serialize(&self, stream: &mut Vec<u8>) {
        stream.push(if *self { 1u8 } else { 0u8 });
        assert(final(stream)@ =~= old(stream)@ + self.le_bytes());
    }

    fn le_deserialize(data: &[u8], pos: usize) -> (r: Result<(Self, usize), ErrorSerialization>) {
        if !available(data, pos, 1) || data[pos] > 1 {
            proof {
                assert forall|v: bool| !holds_at(data@, pos as int, #[trigger] v.le_bytes()) by {
                    if holds_at(data@, pos as int, v.le_bytes()) {
                        assert(data@[pos as int] == data@.subrange(pos as int, pos + 1)[0]);
                    }
                }
            }
            return Err(ErrorSerialization::ErrorInDeserialization("bool".to_string()));
        }
        let v = data[pos] == 1;
        proof {
            assert(data@.subrange(pos as int, pos + 1) =~= v.le_bytes());
            assert(holds_at(data@, pos as int, v.le_bytes()));
        }
        Ok((v, pos + 1))
    }

    proof fn lemma_le_unique(data: Seq<u8>, pos: int, a: Self, b: Self) {
        lemma_holds_at_both(data, pos, a.le_bytes(), b.le_bytes());
        assert(a.le_bytes()[0] == b.le_bytes()[0]);
    }
}

/// A signed 32-bit value is encoded as its two's-complement `u32`.
impl SerializableLittleEndian for i32 {
    open spec fn le_bytes(&self) -> Seq<u8> {
        u32_le_bytes(*self as u32)
    }

    fn le_serialize(&self, stream: &mut Vec<u8>) {
        (*self as u32).le_serialize(stream);
    }

    fn le_deserialize(data: &[u8], pos: usize) -> (r: Result<(Self, usize), ErrorSerialization>) {
        match u32::le_deserialize(data, pos) {
            Ok((u, end)) => {
                let v = u as i32;
                proof {
                    assert(v as u32 == u) by (bit_vector)
                        requires
                            v == u as i32,
                    ;
                    assert(holds_at(data@, pos as int, v.le_bytes()));
                }
                Ok((v, end))
            },
            Err(e) => {
                proof {
                    assert forall|v: i32| !holds_at(data@, pos as int, #[trigger] v.le_bytes()) by {
                        if holds_at(data@, pos as int, v.le_bytes()) {
                            assert(holds_at(data@, pos as int, (v as u32).le_bytes()));
                        }
                    }
                }
                Err(e)
            },
        }
    }

    proof fn lemma_le_unique(data: Seq<u8>, pos: int, a: Self, b: Self) {
        lemma_holds_at_both(data, pos, a.le_bytes(), b.le_bytes());
        lemma_u32_injective(a as u32, b as u32);
        assert(a == b) by (bit_vector)
            requires
                a as u32 == b as u32,
        ;
    }
}

/// A signed 64-bit value is encoded as its two's-complement `u64`.
impl SerializableLittleEndian for i64 {
    open spec fn le_bytes(&self) -> Seq<u8> {
        u64_le_bytes(*self as u64)
    }

    fn le_serialize(&self, stream: &mut Vec<u8>) {
        (*self as u64).le_serialize(stream);
    }

    fn le_deserialize(data: &[u8], pos: usize) -> (r: Result<(Self, usize), ErrorSerialization>) {
        match u64::le_deserialize(data, pos) {
            Ok((u, end)) => {
                let v = u as i64;
                proof {
                    assert(v as u64 == u) by (bit_vector)
                        requires
                            v == u as i64,
                    ;
                    assert(holds_at(data@, pos as int, v.le_bytes()));
                }
                Ok((v, end))
            },
            Err(e) => {
                proof {
                    assert forall|v: i64| !holds_at(data@, pos as int, #[trigger] v.le_bytes()) by {
                        if holds_at(data@, pos as int, v.le_bytes()) {
                            assert(holds_at(data@, pos as int, (v as u64).le_bytes()));
                        }
                    }
                }
                Err(e)
            },
        }
    }

    proof fn lemma_le_unique(data: Seq<u8>, pos: int, a: Self, b: Self) {
        <u64 as SerializableLittleEndian>::lemma_le_unique(data, pos, a as u64, b as u64);
        assert(a == b) by (bit_vector)
            requires
                a as u64 == b as u64,
        ;
    }
}

} // verus!

verus! {

/// Reading a little-endian value where the encoding of `x` starts gives back
/// `x`: some value's encoding is there, so the reader succeeds, and every
/// value whose encoding is there is `x`.
pub proof fn lemma_le_round_trip<T: SerializableLittleEndian>(x: T, data: Seq<u8>, pos: int)
    requires
        holds_at(data, pos, x.le_bytes()),
    ensures
        exists|v: T| holds_at(data, pos, #[trigger] v.le_bytes()),
        forall|v: T| holds_at(data, pos, #[trigger] v.le_bytes()) ==> v == x,
{
    assert forall|v: T| holds_at(data, pos, #[trigger] v.le_bytes()) implies v == x by {
        T::lemma_le_unique(data, pos, v, x);
    }
}

/// Reading a big-endian value where the encoding of `x` starts gives back `x`.
pub proof fn lemma_be_round_trip<T: SerializableBigEndian>(x: T, data: Seq<u8>, pos: int)
    requires
        holds_at(data, pos, x.be_bytes()),
    ensures
        exists|v: T| holds_at(data, pos, #[trigger] v.be_bytes()),
        forall|v: T| holds_at(data, pos, #[trigger] v.be_bytes()) ==> v == x,
{
    assert forall|v: T| holds_at(data, pos, #[trigger] v.be_bytes()) implies v == x by {
        T::lemma_be_unique(data, pos, v, x);
    }
}

/// Reading a structure where the encoding of `x` starts succeeds, and what
/// is read has exactly the encoding of `x`, so it ends where `x` ends.
pub proof fn lemma_io_round_trip<T: SerializableInternalOrder>(x: T, data: Seq<u8>, pos: int)
    requires
        holds_at(data, pos, x.io_bytes()),
    ensures
        exists|v: T| holds_at(data, pos, #[trigger] v.io_bytes()),
        forall|v: T| holds_at(data, pos, #[trigger] v.io_bytes()) ==> v.io_bytes() == x.io_bytes(),
{
    assert forall|v: T| holds_at(data, pos, #[trigger] v.io_bytes()) implies v.io_bytes()
        == x.io_bytes() by {
        T::lemma_io_unique(data, pos, v, x);
    }
}

/// The encoding of a value followed by anything starts at index 0.
pub proof fn lemma_holds_at_start(e: Seq<u8>, rest: Seq<u8>)
    ensures
        holds_at(e + rest, 0, e),
{
    assert((e + rest).subrange(0, e.len() as int) =~= e);
}

} // verus!
