//! The variable-length unsigned integer used as a length prefix.

use vstd::prelude::*;

use crate::serialization::{
    holds_at, lemma_holds_at_both, u16_le_bytes, u32_le_bytes, u64_le_bytes, ErrorSerialization,
    SerializableLittleEndian,
};

verus! {

/// A count written in one, three, five or nine bytes depending on its magnitude.
#[derive(Debug, Clone, Copy, PartialEq, Eq, Structural)]
pub struct CompactSize {
    pub value: u64,
}

/// The canonical encoding of `v`: a single byte below 0xFD; otherwise a marker
/// (0xFD, 0xFE or 0xFF) followed by the value in two, four or eight
/// little-endian bytes, the shortest width that holds it.
pub open spec fn compact_size_bytes(v: u64) -> Seq<u8> {
    if v < 0xfd {
        seq![v as u8]
    } else if v <= 0xffff {
        seq![0xfdu8] + u16_le_bytes(v as u16)
    } else if v <= 0xffff_ffff {
        seq![0xfeu8] + u32_le_bytes(v as u32)
    } else {
        seq![0xffu8] + u64_le_bytes(v)
    }
}

impl CompactSize {
    pub fn new(value: u64) -> (r: CompactSize)
        ensures
            r.value == value,
    {
        CompactSize { value }
    }
}

/// Widths of the encoding: 1 byte up to 252, marker 0xFD and 2 bytes up to
/// 65535, marker 0xFE and 4 bytes up to 4294967295, marker 0xFF and 8 bytes above.
pub proof fn lemma_compact_size_widths(v: u64)
    ensures
        v <= 252 ==> compact_size_bytes(v).len() == 1 && compact_size_bytes(v)[0] == v,
        253 <= v <= 65535 ==> compact_size_bytes(v).len() == 3 && compact_size_bytes(v)[0] == 0xfd,
        65536 <= v <= 4294967295 ==> compact_size_bytes(v).len() == 5 && compact_size_bytes(v)[0]
            == 0xfe,
        4294967295 < v ==> compact_size_bytes(v).len() == 9 && compact_size_bytes(v)[0] == 0xff,
{
}

/// A marker byte whose value does not follow it in full starts no compact
/// size: decoding a truncated marker-prefixed value fails.
pub proof fn lemma_compact_size_truncated(data: Seq<u8>, pos: int)
    requires
        0 <= pos < data.len(),
        data[pos] >= 0xfd,
        data.len() - pos < (if data[pos] == 0xfd {
            3int
        } else if data[pos] == 0xfe {
            5int
        } else {
            9int
        }),
    ensures
        forall|v: CompactSize| !holds_at(data, pos, #[trigger] v.le_bytes()),
{
    assert forall|v: CompactSize| !holds_at(data, pos, #[trigger] v.le_bytes()) by {
        if holds_at(data, pos, v.le_bytes()) {
            assert(v.le_bytes()[0] == data.subrange(pos, pos + v.le_bytes().len())[0]);
        }
    }
}

impl SerializableLittleEndian for CompactSize {
    open spec fn le_bytes(&self) -> Seq<u8> {
        compact_size_bytes(self.value)
    }

    fn le_serialize(&self, stream: &mut Vec<u8>) {
        let v = self.value;
        if v < 0xfd {
            stream.push(v as u8);
        } else if v <= 0xffff {
            stream.push(0xfdu8);
            (v as u16).le_serialize(stream);
        } else if v <= 0xffff_ffff {
            stream.push(0xfeu8);
            (v as u32).le_serialize(stream);
        } else {
            stream.push(0xffu8);
            v.le_serialize(stream);
        }
        assert(final(stream)@ =~= old(stream)@ + self.le_bytes());
    }

    fn le_deserialize(data: &[u8], pos: usize) -> (r: Result<(Self, usize), ErrorSerialization>) {
        let ghost d = data@;
        if pos >= data.len() {
            proof {
                assert forall|v: CompactSize| !holds_at(d, pos as int, #[trigger] v.le_bytes()) by {}
            }
            return Err(ErrorSerialization::ErrorInDeserialization("compact size marker".to_string()));
        }
        let marker = data[pos];
        proof {
            assert forall|v: CompactSize| #[trigger] holds_at(d, pos as int, v.le_bytes()) implies
                v.le_bytes()[0] == marker by {
                assert(d.subrange(pos as int, pos + v.le_bytes().len())[0] == d[pos as int]);
            }
        }
        if marker < 0xfd {
            let v = CompactSize { value: marker as u64 };
            assert(d.subrange(pos as int, pos + 1) =~= v.le_bytes());
            assert(holds_at(d, pos as int, v.le_bytes()));
            return Ok((v, pos + 1));
        }
        if marker == 0xfd {
            match u16::le_deserialize(data, pos + 1) {
                Ok((w, end)) => {
                    if w >= 0xfd {
                        let v = CompactSize { value: w as u64 };
                        assert(d.subrange(pos as int, end as int) =~= seq![marker] + d.subrange(
                            pos + 1,
                            end as int,
                        ));
                        assert(holds_at(d, pos as int, v.le_bytes()));
                        return Ok((v, end));
                    }
                    proof {
                        assert forall|v: CompactSize| !holds_at(d, pos as int, #[trigger] v.le_bytes()) by {
                            if holds_at(d, pos as int, v.le_bytes()) {
                                let x = v.value as u16;
                                assert(v.le_bytes()[0] == marker);
                                assert(0xfd <= v.value <= 0xffff);
                                assert(d.subrange(pos + 1, pos + 3) =~= v.le_bytes().subrange(1, 3));
                                assert(v.le_bytes().subrange(1, 3) =~= x.le_bytes());
                                assert(holds_at(d, pos + 1, x.le_bytes()));
                                u16::lemma_le_unique(d, pos + 1, x, w);
                            }
                        }
                    }
                },
                Err(_) => {
                    proof {
                        assert forall|v: CompactSize| !holds_at(d, pos as int, #[trigger] v.le_bytes()) by {
                            if holds_at(d, pos as int, v.le_bytes()) {
                                let x = v.value as u16;
                                assert(v.le_bytes()[0] == marker);
                                assert(0xfd <= v.value <= 0xffff);
                                assert(d.subrange(pos + 1, pos + 3) =~= v.le_bytes().subrange(1, 3));
                                assert(v.le_bytes().subrange(1, 3) =~= x.le_bytes());
                                assert(holds_at(d, pos + 1, x.le_bytes()));
                            }
                        }
                    }
                },
            }
            return Err(ErrorSerialization::ErrorInDeserialization("compact size u16".to_string()));
        }
        if marker == 0xfe {
            match u32::le_deserialize(data, pos + 1) {
                Ok((w, end)) => {
                    if w > 0xffff {
                        let v = CompactSize { value: w as u64 };
                        assert(d.subrange(pos as int, end as int) =~= seq![marker] + d.subrange(
                            pos + 1,
                            end as int,
                        ));
                        assert(holds_at(d, pos as int, v.le_bytes()));
                        return Ok((v, end));
                    }
                    proof {
                        assert forall|v: CompactSize| !holds_at(d, pos as int, #[trigger] v.le_bytes()) by {
                            if holds_at(d, pos as int, v.le_bytes()) {
                                let x = v.value as u32;
                                assert(v.le_bytes()[0] == marker);
                                assert(0x10000 <= v.value <= 0xffff_ffff);
                                assert(d.subrange(pos + 1, pos + 5) =~= v.le_bytes().subrange(1, 5));
                                assert(v.le_bytes().subrange(1, 5) =~= x.le_bytes());
                                assert(holds_at(d, pos + 1, x.le_bytes()));
                                u32::lemma_le_unique(d, pos + 1, x, w);
                            }
                        }
                    }
                },
                Err(_) => {
                    proof {
                        assert forall|v: CompactSize| !holds_at(d, pos as int, #[trigger] v.le_bytes()) by {
                            if holds_at(d, pos as int, v.le_bytes()) {
                                let x = v.value as u32;
                                assert(v.le_bytes()[0] == marker);
                                assert(0x10000 <= v.value <= 0xffff_ffff);
                                assert(d.subrange(pos + 1, pos + 5) =~= v.le_bytes().subrange(1, 5));
                                assert(v.le_bytes().subrange(1, 5) =~= x.le_bytes());
                                assert(holds_at(d, pos + 1, x.le_bytes()));
                            }
                        }
                    }
                },
            }
            return Err(ErrorSerialization::ErrorInDeserialization("compact size u32".to_string()));
        }
        match u64::le_deserialize(data, pos + 1) {
            Ok((w, end)) => {
                if w > 0xffff_ffff {
                    let v = CompactSize { value: w };
                    assert(d.subrange(pos as int, end as int) =~= seq![marker] + d.subrange(
                        pos + 1,
                        end as int,
                    ));
                    assert(holds_at(d, pos as int, v.le_bytes()));
                    return Ok((v, end));
                }
                proof {
                    assert forall|v: CompactSize| !holds_at(d, pos as int, #[trigger] v.le_bytes()) by {
                        if holds_at(d, pos as int, v.le_bytes()) {
                            let x = v.value;
                            assert(v.le_bytes()[0] == marker);
                            assert(0xffff_ffff < v.value);
                            assert(d.subrange(pos + 1, pos + 9) =~= v.le_bytes().subrange(1, 9));
                                assert(v.le_bytes().subrange(1, 9) =~= x.le_bytes());
                            assert(holds_at(d, pos + 1, x.le_bytes()));
                            u64::lemma_le_unique(d, pos + 1, x, w);
                        }
                    }
                }
            },
            Err(_) => {
                proof {
                    assert forall|v: CompactSize| !holds_at(d, pos as int, #[trigger] v.le_bytes()) by {
                        if holds_at(d, pos as int, v.le_bytes()) {
                            let x = v.value;
                            assert(v.le_bytes()[0] == marker);
                            assert(0xffff_ffff < v.value);
                            assert(d.subrange(pos + 1, pos + 9) =~= v.le_bytes().subrange(1, 9));
                                assert(v.le_bytes().subrange(1, 9) =~= x.le_bytes());
                            assert(holds_at(d, pos + 1, x.le_bytes()));
                        }
                    }
                }
            },
        }
        Err(ErrorSerialization::ErrorInDeserialization("compact size u64".to_string()))
    }

    proof fn lemma_le_unique(data: Seq<u8>, pos: int, a: Self, b: Self) {
        lemma_holds_at_both(data, pos, a.le_bytes(), b.le_bytes());
        let (ea, eb) = (a.le_bytes(), b.le_bytes());
        assert(ea[0] == eb[0]);
        if a.value >= 0xfd {
            assert(ea.len() == eb.len());
            assert(ea == eb);
            if a.value <= 0xffff {
                assert(u16_le_bytes(a.value as u16) =~= ea.subrange(1, 3));
                assert(u16_le_bytes(b.value as u16) =~= eb.subrange(1, 3));
                assert(holds_at(ea, 1, (a.value as u16).le_bytes()));
                u16::lemma_le_unique(ea, 1, a.value as u16, b.value as u16);
            } else if a.value <= 0xffff_ffff {
                assert(u32_le_bytes(a.value as u32) =~= ea.subrange(1, 5));
                assert(u32_le_bytes(b.value as u32) =~= eb.subrange(1, 5));
                assert(holds_at(ea, 1, (a.value as u32).le_bytes()));
                u32::lemma_le_unique(ea, 1, a.value as u32, b.value as u32);
            } else {
                assert(u64_le_bytes(a.value) =~= ea.subrange(1, 9));
                assert(u64_le_bytes(b.value) =~= eb.subrange(1, 9));
                assert(holds_at(ea, 1, a.value.le_bytes()));
                u64::lemma_le_unique(ea, 1, a.value, b.value);
            }
        }
    }
}

} // verus!
