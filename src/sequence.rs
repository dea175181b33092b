//! Length-prefixed lists: a compact size count, then each item in turn.

use vstd::prelude::*;

use crate::compact_size::{compact_size_bytes, CompactSize};
use crate::serialization::{
    holds_at, lemma_holds_at_concat, ErrorSerialization,
    SerializableInternalOrder, SerializableLittleEndian,
};

verus! {

/// The encodings of the items of `s`, one after the other.
pub open spec fn items_bytes<T: SerializableInternalOrder>(s: Seq<T>) -> Seq<u8>
    decreases s.len(),
{
    if s.len() == 0 {
        Seq::empty()
    } else {
        s[0].io_bytes() + items_bytes(s.subrange(1, s.len() as int))
    }
}

/// A list on the wire: its length as a compact size, then its items.
pub open spec fn list_bytes<T: SerializableInternalOrder>(s: Seq<T>) -> Seq<u8> {
    compact_size_bytes(s.len() as u64) + items_bytes(s)
}

pub proof fn lemma_items_push<T: SerializableInternalOrder>(s: Seq<T>, x: T)
    ensures
        items_bytes(s.push(x)) == items_bytes(s) + x.io_bytes(),
    decreases s.len(),
{
    if s.len() == 0 {
        assert(s.push(x).subrange(1, 1) =~= Seq::<T>::empty());
        assert(s =~= Seq::<T>::empty());
        assert(items_bytes(Seq::<T>::empty()) == Seq::<u8>::empty());
        assert(s.push(x)[0] == x);
        assert(items_bytes(s.push(x)) =~= items_bytes(s) + x.io_bytes());
    } else {
        let t = s.subrange(1, s.len() as int);
        lemma_items_push(t, x);
        assert(s.push(x).subrange(1, s.len() as int + 1) =~= t.push(x));
        assert(items_bytes(s.push(x)) =~= items_bytes(s) + x.io_bytes());
    }
}

pub proof fn lemma_items_split<T: SerializableInternalOrder>(s: Seq<T>, k: int)
    requires
        0 <= k <= s.len(),
    ensures
        items_bytes(s) == items_bytes(s.subrange(0, k)) + items_bytes(s.subrange(k, s.len() as int)),
    decreases k,
{
    if k == 0 {
        assert(s.subrange(0, 0) =~= Seq::<T>::empty());
        assert(s.subrange(0, s.len() as int) =~= s);
        assert(items_bytes(s) =~= items_bytes(s.subrange(0, k)) + items_bytes(
            s.subrange(k, s.len() as int),
        ));
    } else {
        let t = s.subrange(1, s.len() as int);
        lemma_items_split(t, k - 1);
        assert(s.subrange(0, k).subrange(1, k) =~= t.subrange(0, k - 1));
        assert(t.subrange(k - 1, t.len() as int) =~= s.subrange(k, s.len() as int));
        assert(s.subrange(0, k)[0] == s[0]);
        assert(items_bytes(s) =~= items_bytes(s.subrange(0, k)) + items_bytes(
            s.subrange(k, s.len() as int),
        ));
    }
}

/// Two lists of one length whose items start at the same place encode alike.
pub proof fn lemma_items_unique<T: SerializableInternalOrder>(
    data: Seq<u8>,
    pos: int,
    a: Seq<T>,
    b: Seq<T>,
)
    requires
        a.len() == b.len(),
        holds_at(data, pos, items_bytes(a)),
        holds_at(data, pos, items_bytes(b)),
    ensures
        items_bytes(a) == items_bytes(b),
    decreases a.len(),
{
    if a.len() > 0 {
        let (ta, tb) = (a.subrange(1, a.len() as int), b.subrange(1, b.len() as int));
        lemma_holds_at_concat(data, pos, a[0].io_bytes(), items_bytes(ta));
        lemma_holds_at_concat(data, pos, b[0].io_bytes(), items_bytes(tb));
        T::lemma_io_unique(data, pos, a[0], b[0]);
        lemma_items_unique(data, pos + a[0].io_bytes().len(), ta, tb);
    }
}

/// Two lists whose encodings start at the same place encode alike.
pub proof fn lemma_list_unique<T: SerializableInternalOrder>(
    data: Seq<u8>,
    pos: int,
    a: Seq<T>,
    b: Seq<T>,
)
    requires
        a.len() <= u64::MAX,
        b.len() <= u64::MAX,
        holds_at(data, pos, list_bytes(a)),
        holds_at(data, pos, list_bytes(b)),
    ensures
        list_bytes(a) == list_bytes(b),
{
    let (ca, cb) = (CompactSize { value: a.len() as u64 }, CompactSize { value: b.len() as u64 });
    lemma_holds_at_concat(data, pos, ca.le_bytes(), items_bytes(a));
    lemma_holds_at_concat(data, pos, cb.le_bytes(), items_bytes(b));
    CompactSize::lemma_le_unique(data, pos, ca, cb);
    lemma_items_unique(data, pos + ca.le_bytes().len(), a, b);
}

/// Appends the encoding of the list `items`.
pub fn write_list<T: SerializableInternalOrder>(items: &Vec<T>, stream: &mut Vec<u8>)
    ensures
        final(stream)@ == old(stream)@ + list_bytes(items@),
{
    CompactSize::new(items.len() as u64).le_serialize(stream);
    let mut i: usize = 0;
    while i < items.len()
        invariant
            0 <= i <= items@.len(),
            stream@ == old(stream)@ + compact_size_bytes(items@.len() as u64) + items_bytes(
                items@.subrange(0, i as int),
            ),
        decreases items@.len() - i,
    {
        let ghost before = stream@;
        items[i].io_serialize(stream);
        proof {
            lemma_items_push(items@.subrange(0, i as int), items@[i as int]);
            assert(items@.subrange(0, i as int).push(items@[i as int]) =~= items@.subrange(0, i + 1));
            assert(stream@ =~= old(stream)@ + compact_size_bytes(items@.len() as u64) + items_bytes(
                items@.subrange(0, i + 1),
            ));
        }
        i += 1;
    }
    assert(items@.subrange(0, items@.len() as int) =~= items@);
    assert(final(stream)@ =~= old(stream)@ + list_bytes(items@));
}

/// Reads a list at `pos`: succeeds exactly when the encoding of some list starts there.
pub fn read_list<T: SerializableInternalOrder>(data: &[u8], pos: usize) -> (r: Result<
    (Vec<T>, usize),
    ErrorSerialization,
>)
    ensures
        r is Ok <==> exists|w: Seq<T>|
            w.len() <= u64::MAX && holds_at(data@, pos as int, #[trigger] list_bytes(w)),
        r matches Ok((v, end)) ==> v@.len() <= u64::MAX && holds_at(data@, pos as int, list_bytes(v@))
            && end == pos + list_bytes(v@).len(),
        r matches Err(e) ==> e is ErrorInDeserialization,
{
    let ghost d = data@;
    let (count, start) = match CompactSize::le_deserialize(data, pos) {
        Ok(x) => x,
        Err(e) => {
            proof {
                assert forall|w: Seq<T>| w.len() <= u64::MAX implies !holds_at(
                    d,
                    pos as int,
                    #[trigger] list_bytes(w),
                ) by {
                    let c = CompactSize { value: w.len() as u64 };
                    lemma_holds_at_concat(d, pos as int, c.le_bytes(), items_bytes(w));
                }
            }
            return Err(e);
        },
    };
    let mut items: Vec<T> = Vec::new();
    let mut p = start;
    let mut i: u64 = 0;
    proof {
        assert(items@ =~= Seq::<T>::empty());
        assert(items_bytes(items@) == Seq::<u8>::empty());
        assert(d.subrange(start as int, start as int) =~= Seq::<u8>::empty());
    }
    while i < count.value
        invariant
            d == data@,
            holds_at(d, pos as int, count.le_bytes()),
            start == pos + count.le_bytes().len(),
            i <= count.value,
            items@.len() == i,
            holds_at(d, start as int, items_bytes(items@)),
            p == start + items_bytes(items@).len(),
        decreases count.value - i,
    {
        match T::io_deserialize(data, p) {
            Ok((x, end)) => {
                proof {
                    lemma_items_push(items@, x);
                    lemma_holds_at_concat(d, start as int, items_bytes(items@), x.io_bytes());
                }
                items.push(x);
                p = end;
                i += 1;
            },
            Err(e) => {
                proof {
                    assert forall|w: Seq<T>| w.len() <= u64::MAX implies !holds_at(
                        d,
                        pos as int,
                        #[trigger] list_bytes(w),
                    ) by {
                        let c = CompactSize { value: w.len() as u64 };
                        if holds_at(d, pos as int, list_bytes(w)) {
                            lemma_holds_at_concat(d, pos as int, c.le_bytes(), items_bytes(w));
                            CompactSize::lemma_le_unique(d, pos as int, c, count);
                            let k = items@.len() as int;
                            assert(w.len() == count.value);
                            lemma_items_split(w, k);
                            lemma_holds_at_concat(
                                d,
                                start as int,
                                items_bytes(w.subrange(0, k)),
                                items_bytes(w.subrange(k, w.len() as int)),
                            );
                            lemma_items_unique(d, start as int, w.subrange(0, k), items@);
                            let rest = w.subrange(k, w.len() as int);
                            lemma_holds_at_concat(
                                d,
                                p as int,
                                rest[0].io_bytes(),
                                items_bytes(rest.subrange(1, rest.len() as int)),
                            );
                        }
                    }
                }
                return Err(e);
            },
        }
    }
    proof {
        lemma_holds_at_concat(d, pos as int, count.le_bytes(), items_bytes(items@));
        assert(holds_at(d, pos as int, list_bytes(items@)));
    }
    Ok((items, p))
}

/// A byte inside a list is written as it is.
impl SerializableInternalOrder for u8 {
    open spec fn io_bytes(&self) -> Seq<u8> {
        seq![*self]
    }

    fn io_serialize(&self, stream: &mut Vec<u8>) {
        self.le_serialize(stream);
    }

    fn io_deserialize(data: &[u8], pos: usize) -> (r: Result<(Self, usize), ErrorSerialization>) {
        match u8::le_deserialize(data, pos) {
            Ok((v, end)) => {
                assert(holds_at(data@, pos as int, v.io_bytes()));
                Ok((v, end))
            },
            Err(e) => {
                proof {
                    assert forall|v: u8| !holds_at(data@, pos as int, #[trigger] v.io_bytes()) by {
                        assert(v.io_bytes() == v.le_bytes());
                    }
                }
                Err(e)
            },
        }
    }

    proof fn lemma_io_unique(data: Seq<u8>, pos: int, a: Self, b: Self) {
        u8::lemma_le_unique(data, pos, a, b);
    }
}

} // verus!

verus! {

/// Two lists of one length whose items start at the same place have, item
/// by item, the same encodings.
pub proof fn lemma_items_each<T: SerializableInternalOrder>(
    data: Seq<u8>,
    pos: int,
    a: Seq<T>,
    b: Seq<T>,
)
    requires
        a.len() == b.len(),
        holds_at(data, pos, items_bytes(a)),
        holds_at(data, pos, items_bytes(b)),
    ensures
        forall|i: int| 0 <= i < a.len() ==> (#[trigger] a[i]).io_bytes() == b[i].io_bytes(),
    decreases a.len(),
{
    if a.len() > 0 {
        let (ta, tb) = (a.subrange(1, a.len() as int), b.subrange(1, b.len() as int));
        lemma_holds_at_concat(data, pos, a[0].io_bytes(), items_bytes(ta));
        lemma_holds_at_concat(data, pos, b[0].io_bytes(), items_bytes(tb));
        T::lemma_io_unique(data, pos, a[0], b[0]);
        lemma_items_each(data, pos + a[0].io_bytes().len(), ta, tb);
        assert forall|i: int| 0 <= i < a.len() implies (#[trigger] a[i]).io_bytes() == b[i].io_bytes() by {
            if i > 0 {
                assert(a[i] == ta[i - 1] && b[i] == tb[i - 1]);
            }
        }
    }
}

/// Two lists with one encoding have the same length and, item by item, the
/// same encodings.
pub proof fn lemma_list_each<T: SerializableInternalOrder>(a: Seq<T>, b: Seq<T>)
    requires
        a.len() <= u64::MAX,
        b.len() <= u64::MAX,
        list_bytes(a) == list_bytes(b),
    ensures
        a.len() == b.len(),
        forall|i: int| 0 <= i < a.len() ==> (#[trigger] a[i]).io_bytes() == b[i].io_bytes(),
{
    let d = list_bytes(a);
    assert(d.subrange(0, d.len() as int) =~= d);
    let (ca, cb) = (CompactSize { value: a.len() as u64 }, CompactSize { value: b.len() as u64 });
    lemma_holds_at_concat(d, 0, ca.le_bytes(), items_bytes(a));
    lemma_holds_at_concat(d, 0, cb.le_bytes(), items_bytes(b));
    CompactSize::lemma_le_unique(d, 0, ca, cb);
    lemma_items_each(d, ca.le_bytes().len() as int, a, b);
}

} // verus!
