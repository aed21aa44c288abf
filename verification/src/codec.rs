//! The values that the ledger stores and sends, and their encoding.
//!
//! [`Record`] is implemented by every type that is stored under a key or
//! travels in a call or a response. [`encode`] and [`decode`] turn a value
//! into a buffer and back. The encoding of a value is one item; the items of
//! the basic types are defined in the module `cbor`.
use crate::cbor::{
    concat_items, head, lemma_concat_prefix, lemma_concat_push, lemma_concat_unique,
    lemma_head_unique, lemma_starts_at_concat, lemma_starts_at_prefix, lemma_starts_at_whole,
    lemma_text_unique, read_head, read_text, read_uint, starts_at, text_fits, text_item,
    uint_item, write_head, write_text, write_uint, MAJOR_ARRAY, MAJOR_UINT, NULL,
};
use vstd::prelude::*;

verus! {

/// A type whose values have an encoding.
///
/// The encoding is stated over the deep view of a value: `item` is the byte
/// string that stands for it, and `fits` says whether it has one at all. A
/// value that exists in memory always fits.
pub trait Record: Sized + DeepView {
    /// Whether a value can be written. This fails only for values larger
    /// than any memory.
    spec fn fits(v: Self::V) -> bool;

    /// The bytes that stand for a value.
    spec fn item(v: Self::V) -> Seq<u8>;

    /// At most one value has its item standing at a position: no item is
    /// the start of another one.
    proof fn lemma_unique(bytes: Seq<u8>, pos: int, v: Self::V, w: Self::V)
        requires
            Self::fits(v),
            Self::fits(w),
            starts_at(bytes, pos, Self::item(v)),
            starts_at(bytes, pos, Self::item(w)),
        ensures
            v == w,
    ;

    /// Appends the item of `self` to `out`.
    fn write(&self, out: &mut Vec<u8>)
        ensures
            Self::fits(self.deep_view()),
            final(out)@ == old(out)@ + Self::item(self.deep_view()),
    ;

    /// Reads a value at `pos` and gives it with the position behind its
    /// item. The value returned is the one whose item stands at `pos`, and
    /// where the item of some value stands there, that value is returned.
    fn read(bytes: &[u8], pos: usize) -> (r: Option<(Self, usize)>)
        ensures
            r matches Some((v, next)) ==> Self::fits(v.deep_view()) && starts_at(
                bytes@,
                pos as int,
                Self::item(v.deep_view()),
            ) && next == pos + Self::item(v.deep_view()).len(),
            forall|w: Self::V|
                Self::fits(w) && #[trigger] starts_at(bytes@, pos as int, Self::item(w)) ==> (
                r matches Some((v, next)) && v.deep_view() == w && next == pos + Self::item(
                    w,
                ).len()),
    ;
}

/// Whether `bytes` is the encoding of the value `v`.
pub open spec fn encodes<T: Record>(bytes: Seq<u8>, v: T::V) -> bool {
    T::fits(v) && T::item(v) == bytes
}

/// A buffer is the encoding of at most one value.
pub proof fn lemma_encodes_one_value<T: Record>(bytes: Seq<u8>, v: T::V, w: T::V)
    requires
        encodes::<T>(bytes, v),
        encodes::<T>(bytes, w),
    ensures
        v == w,
{
    lemma_starts_at_whole(bytes, bytes);
    T::lemma_unique(bytes, 0, v, w);
}

/// A buffer that was cut short is the encoding of nothing: where `bytes` is
/// the encoding of a value, none of its strict prefixes is the encoding of
/// any value, and the empty buffer least of all.
pub proof fn lemma_truncated_encodes_nothing<T: Record>(
    bytes: Seq<u8>,
    v: T::V,
    k: int,
    w: T::V,
)
    requires
        encodes::<T>(bytes, v),
        0 <= k < bytes.len(),
    ensures
        !encodes::<T>(bytes.take(k), w),
{
    if encodes::<T>(bytes.take(k), w) {
        lemma_starts_at_whole(bytes, bytes);
        lemma_starts_at_whole(bytes.take(k), T::item(w));
        lemma_starts_at_prefix(bytes, k, T::item(w));
        T::lemma_unique(bytes, 0, v, w);
    }
}

/// The encoding of `value`, in a buffer of its own.
pub fn encode<T: Record>(value: &T) -> (bytes: Vec<u8>)
    ensures
        encodes::<T>(bytes@, value.deep_view()),
{
    let mut bytes: Vec<u8> = Vec::new();
    value.write(&mut bytes);
    proof {
        assert(bytes@ =~= T::item(value.deep_view()));
    }
    bytes
}

/// The value that `bytes` is the encoding of, or `None` if it is the
/// encoding of no value of the type.
pub fn decode<T: Record>(bytes: &[u8]) -> (r: Option<T>)
    ensures
        r matches Some(v) ==> encodes::<T>(bytes@, v.deep_view()),
        forall|w: T::V| #[trigger] encodes::<T>(bytes@, w) ==> (r matches Some(v) && v.deep_view() == w),
{
    proof {
        assert forall|w: T::V| #[trigger] encodes::<T>(bytes@, w) implies starts_at(
            bytes@,
            0,
            T::item(w),
        ) by {
            lemma_starts_at_whole(bytes@, T::item(w));
        }
    }
    match T::read(bytes, 0) {
        Some((v, next)) => {
            if next == bytes.len() {
                proof {
                    lemma_starts_at_whole(bytes@, T::item(v.deep_view()));
                }
                Some(v)
            } else {
                None
            }
        },
        None => None,
    }
}

impl Record for u32 {
    open spec fn fits(v: u32) -> bool {
        true
    }

    open spec fn item(v: u32) -> Seq<u8> {
        uint_item(v)
    }

    proof fn lemma_unique(bytes: Seq<u8>, pos: int, v: u32, w: u32) {
        lemma_head_unique(bytes, pos, MAJOR_UINT, v as u64, MAJOR_UINT, w as u64);
    }

    fn write(&self, out: &mut Vec<u8>) {
        write_uint(out, *self);
    }

    fn read(bytes: &[u8], pos: usize) -> (r: Option<(u32, usize)>) {
        read_uint(bytes, pos)
    }
}

impl Record for String {
    open spec fn fits(v: Seq<char>) -> bool {
        text_fits(v)
    }

    open spec fn item(v: Seq<char>) -> Seq<u8> {
        text_item(v)
    }

    proof fn lemma_unique(bytes: Seq<u8>, pos: int, v: Seq<char>, w: Seq<char>) {
        lemma_text_unique(bytes, pos, v, w);
    }

    fn write(&self, out: &mut Vec<u8>) {
        write_text(out, self.as_str());
    }

    fn read(bytes: &[u8], pos: usize) -> (r: Option<(String, usize)>) {
        read_text(bytes, pos)
    }
}

impl Record for () {
    open spec fn fits(v: ()) -> bool {
        true
    }

    open spec fn item(v: ()) -> Seq<u8> {
        seq![NULL]
    }

    proof fn lemma_unique(bytes: Seq<u8>, pos: int, v: (), w: ()) {
    }

    fn write(&self, out: &mut Vec<u8>) {
        out.push(NULL);
        proof {
            assert(out@ =~= old(out)@ + seq![NULL]);
        }
    }

    fn read(bytes: &[u8], pos: usize) -> (r: Option<((), usize)>) {
        if pos < bytes.len() && bytes[pos] == NULL {
            proof {
                assert(bytes@.subrange(pos as int, pos + 1) =~= seq![NULL]);
            }
            Some(((), pos + 1))
        } else {
            proof {
                if starts_at(bytes@, pos as int, seq![NULL]) {
                    assert(bytes@.subrange(pos as int, pos + 1)[0] == NULL);
                }
            }
            None
        }
    }
}

/// The item of one byte of an array of bytes: the byte as an unsigned integer.
pub open spec fn byte_item() -> spec_fn(u8) -> Seq<u8> {
    |b: u8| uint_item(b as u32)
}

/// An identifier of 20 bytes, as it is written: an array of 20 integers.
pub open spec fn id_item(id: Seq<u8>) -> Seq<u8> {
    head(MAJOR_ARRAY, 20) + concat_items(id, byte_item())
}

impl Record for [u8; 20] {
    open spec fn fits(v: Seq<u8>) -> bool {
        v.len() == 20
    }

    open spec fn item(v: Seq<u8>) -> Seq<u8> {
        id_item(v)
    }

    proof fn lemma_unique(bytes: Seq<u8>, pos: int, v: Seq<u8>, w: Seq<u8>) {
        let h = head(MAJOR_ARRAY, 20);
        let f = byte_item();
        let any = |b: u8| true;
        lemma_starts_at_concat(bytes, pos, h, concat_items(v, f));
        lemma_starts_at_concat(bytes, pos, h, concat_items(w, f));
        assert forall|p: int, x: u8, y: u8|
            any(x) && any(y) && #[trigger] starts_at(bytes, p, f(x)) && #[trigger] starts_at(
                bytes,
                p,
                f(y),
            ) implies x == y by {
            lemma_head_unique(bytes, p, MAJOR_UINT, x as u64, MAJOR_UINT, y as u64);
        }
        lemma_concat_unique(bytes, pos + h.len(), v, w, f, any, 20);
        assert(v.take(20) =~= v);
        assert(w.take(20) =~= w);
    }

    fn write(&self, out: &mut Vec<u8>) {
        let ghost before = out@;
        let ghost id = self.deep_view();
        write_head(out, MAJOR_ARRAY, 20);
        let mut i: usize = 0;
        proof {
            assert(id =~= self@);
            assert(id.take(0) =~= Seq::<u8>::empty());
        }
        while i < 20
            invariant
                i <= 20,
                id == self@,
                id.len() == 20,
                out@ == before + head(MAJOR_ARRAY, 20) + concat_items(id.take(i as int), byte_item()),
            decreases 20 - i,
        {
            let ghost so_far = out@;
            write_uint(out, self[i] as u32);
            proof {
                lemma_concat_push(id.take(i as int), id[i as int], byte_item());
                assert(id.take(i as int + 1) =~= id.take(i as int).push(id[i as int]));
                assert(out@ =~= before + head(MAJOR_ARRAY, 20) + concat_items(
                    id.take(i as int + 1),
                    byte_item(),
                ));
            }
            i = i + 1;
        }
        proof {
            assert(id.take(20) =~= id);
            assert(out@ =~= before + id_item(id));
        }
    }

    fn read(bytes: &[u8], pos: usize) -> (r: Option<([u8; 20], usize)>) {
        let ghost f = byte_item();
        let start = match read_head(bytes, pos) {
            Some((major, n, start)) => {
                if major == MAJOR_ARRAY && n == 20 {
                    start
                } else {
                    proof {
                        assert forall|w: Seq<u8>|
                            w.len() == 20 && #[trigger] starts_at(
                                bytes@,
                                pos as int,
                                id_item(w),
                            ) implies false by {
                            lemma_starts_at_concat(
                                bytes@,
                                pos as int,
                                head(MAJOR_ARRAY, 20),
                                concat_items(w, f),
                            );
                        }
                    }
                    return None;
                }
            },
            None => {
                proof {
                    assert forall|w: Seq<u8>|
                        w.len() == 20 && #[trigger] starts_at(
                            bytes@,
                            pos as int,
                            id_item(w),
                        ) implies false by {
                        lemma_starts_at_concat(
                            bytes@,
                            pos as int,
                            head(MAJOR_ARRAY, 20),
                            concat_items(w, f),
                        );
                    }
                }
                return None;
            },
        };
        proof {
            assert forall|w: Seq<u8>|
                w.len() == 20 && #[trigger] starts_at(
                    bytes@,
                    pos as int,
                    id_item(w),
                ) implies starts_at(bytes@, start as int, concat_items(w, f)) by {
                lemma_starts_at_concat(
                    bytes@,
                    pos as int,
                    head(MAJOR_ARRAY, 20),
                    concat_items(w, f),
                );
            }
        }
        let mut id: [u8; 20] = [0u8; 20];
        let mut cur = start;
        let mut i: usize = 0;
        proof {
            assert(id@.take(0) =~= Seq::<u8>::empty());
            assert(bytes@.subrange(start as int, start as int) =~= Seq::<u8>::empty());
        }
        while i < 20
            invariant
                i <= 20,
                f == byte_item(),
                start <= cur <= bytes@.len(),
                id@.len() == 20,
                starts_at(bytes@, start as int, concat_items(id@.take(i as int), f)),
                cur == start + concat_items(id@.take(i as int), f).len(),
                forall|w: Seq<u8>|
                    w.len() == 20 && #[trigger] starts_at(
                        bytes@,
                        pos as int,
                        id_item(w),
                    ) ==> starts_at(bytes@, start as int, concat_items(w, f)) && w.take(
                        i as int,
                    ) == id@.take(i as int),
            decreases 20 - i,
        {
            let ghost done = id@.take(i as int);
            proof {
                assert forall|w: Seq<u8>|
                    w.len() == 20 && #[trigger] starts_at(
                        bytes@,
                        pos as int,
                        id_item(w),
                    ) implies starts_at(bytes@, cur as int, uint_item(w[i as int] as u32)) by {
                    lemma_concat_prefix(bytes@, start as int, w, f, i as int);
                }
            }
            match read_uint(bytes, cur) {
                Some((b, next)) => {
                    if b > 255 {
                        return None;
                    }
                    id[i] = b as u8;
                    proof {
                        assert(id@.take(i as int) =~= done);
                        assert(id@.take(i as int + 1) =~= done.push(b as u8));
                        lemma_concat_push(done, b as u8, f);
                        lemma_starts_at_concat(
                            bytes@,
                            start as int,
                            concat_items(done, f),
                            uint_item(b),
                        );
                        assert forall|w: Seq<u8>|
                            w.len() == 20 && #[trigger] starts_at(
                                bytes@,
                                pos as int,
                                id_item(w),
                            ) implies w.take(i as int + 1) == id@.take(i as int + 1) by {
                            assert(w.take(i as int + 1) =~= w.take(i as int).push(w[i as int]));
                        }
                    }
                    cur = next;
                },
                None => {
                    return None;
                },
            }
            i = i + 1;
        }
        proof {
            assert(id@.take(20) =~= id@);
            assert(id.deep_view() =~= id@);
            lemma_starts_at_concat(
                bytes@,
                pos as int,
                head(MAJOR_ARRAY, 20),
                concat_items(id@, f),
            );
            assert forall|w: Seq<u8>|
                w.len() == 20 && #[trigger] starts_at(bytes@, pos as int, id_item(w)) implies w
                == id@ by {
                assert(w.take(20) =~= w);
            }
        }
        Some((id, cur))
    }
}

/// The function that gives the item of one element of type `T`.
pub open spec fn item_of<T: Record>() -> spec_fn(T::V) -> Seq<u8> {
    |v: T::V| T::item(v)
}

/// Whether every element of `v` can be written.
pub open spec fn all_fit<T: Record>(v: Seq<T::V>) -> bool {
    forall|i: int| 0 <= i < v.len() ==> T::fits(#[trigger] v[i])
}

/// A list, as it is written: an array of the items of its elements.
pub open spec fn list_item<T: Record>(v: Seq<T::V>) -> Seq<u8> {
    head(MAJOR_ARRAY, v.len() as u64) + concat_items(v, item_of::<T>())
}

impl<T: Record> Record for Vec<T> {
    open spec fn fits(v: Seq<T::V>) -> bool {
        v.len() <= usize::MAX && all_fit::<T>(v)
    }

    open spec fn item(v: Seq<T::V>) -> Seq<u8> {
        list_item::<T>(v)
    }

    proof fn lemma_unique(bytes: Seq<u8>, pos: int, v: Seq<T::V>, w: Seq<T::V>) {
        let hv = head(MAJOR_ARRAY, v.len() as u64);
        let hw = head(MAJOR_ARRAY, w.len() as u64);
        let f = item_of::<T>();
        let fits = |x: T::V| T::fits(x);
        lemma_starts_at_concat(bytes, pos, hv, concat_items(v, f));
        lemma_starts_at_concat(bytes, pos, hw, concat_items(w, f));
        lemma_head_unique(bytes, pos, MAJOR_ARRAY, v.len() as u64, MAJOR_ARRAY, w.len() as u64);
        assert forall|p: int, x: T::V, y: T::V|
            fits(x) && fits(y) && #[trigger] starts_at(bytes, p, f(x)) && #[trigger] starts_at(
                bytes,
                p,
                f(y),
            ) implies x == y by {
            T::lemma_unique(bytes, p, x, y);
        }
        lemma_concat_unique(bytes, pos + hv.len(), v, w, f, fits, v.len() as int);
        assert(v.take(v.len() as int) =~= v);
        assert(w.take(w.len() as int) =~= w);
    }

    fn write(&self, out: &mut Vec<u8>) {
        let ghost before = out@;
        let ghost all = self.deep_view();
        let ghost f = item_of::<T>();
        let n = self.len();
        write_head(out, MAJOR_ARRAY, n as u64);
        let mut i: usize = 0;
        proof {
            assert(all.take(0) =~= Seq::<T::V>::empty());
        }
        while i < n
            invariant
                i <= n,
                n == self@.len(),
                all == self.deep_view(),
                f == item_of::<T>(),
                all_fit::<T>(all.take(i as int)),
                out@ == before + head(MAJOR_ARRAY, n as u64) + concat_items(
                    all.take(i as int),
                    f,
                ),
            decreases n - i,
        {
            self[i].write(out);
            proof {
                let done = all.take(i as int);
                lemma_concat_push(done, all[i as int], f);
                assert(all.take(i as int + 1) =~= done.push(all[i as int]));
                assert(out@ =~= before + head(MAJOR_ARRAY, n as u64) + concat_items(
                    all.take(i as int + 1),
                    f,
                ));
                assert forall|k: int| 0 <= k < i + 1 implies T::fits(
                    #[trigger] all.take(i as int + 1)[k],
                ) by {
                    if k < i {
                        assert(all.take(i as int)[k] == all[k]);
                    }
                }
            }
            i = i + 1;
        }
        proof {
            assert(all.take(n as int) =~= all);
            assert(out@ =~= before + list_item::<T>(all));
        }
    }

    fn read(bytes: &[u8], pos: usize) -> (r: Option<(Vec<T>, usize)>) {
        let ghost f = item_of::<T>();
        proof {
            assert forall|w: Seq<T::V>| #[trigger]
                starts_at(bytes@, pos as int, list_item::<T>(w)) implies starts_at(
                bytes@,
                pos as int,
                head(MAJOR_ARRAY, w.len() as u64),
            ) && starts_at(
                bytes@,
                pos + head(MAJOR_ARRAY, w.len() as u64).len(),
                concat_items(w, f),
            ) by {
                lemma_starts_at_concat(
                    bytes@,
                    pos as int,
                    head(MAJOR_ARRAY, w.len() as u64),
                    concat_items(w, f),
                );
            }
        }
        let (n, start) = match read_head(bytes, pos) {
            Some((major, n, start)) => {
                if major == MAJOR_ARRAY && n <= usize::MAX as u64 {
                    (n as usize, start)
                } else {
                    return None;
                }
            },
            None => {
                return None;
            },
        };
        let mut items: Vec<T> = Vec::new();
        let mut cur = start;
        proof {
            assert(items.deep_view() =~= Seq::<T::V>::empty());
            assert(bytes@.subrange(start as int, start as int) =~= Seq::<u8>::empty());
            assert forall|w: Seq<T::V>|
                Self::fits(w) && #[trigger] starts_at(
                    bytes@,
                    pos as int,
                    list_item::<T>(w),
                ) implies w.take(0) == items.deep_view() by {
                assert(w.take(0) =~= Seq::<T::V>::empty());
            }
        }
        while items.len() < n
            invariant
                items@.len() <= n,
                f == item_of::<T>(),
                start <= cur <= bytes@.len(),
                all_fit::<T>(items.deep_view()),
                starts_at(bytes@, start as int, concat_items(items.deep_view(), f)),
                cur == start + concat_items(items.deep_view(), f).len(),
                forall|w: Seq<T::V>|
                    Self::fits(w) && #[trigger] starts_at(
                        bytes@,
                        pos as int,
                        list_item::<T>(w),
                    ) ==> w.len() == n && starts_at(
                        bytes@,
                        start as int,
                        concat_items(w, f),
                    ) && w.take(items@.len() as int) == items.deep_view(),
            decreases n - items@.len(),
        {
            let ghost done = items.deep_view();
            let ghost i = items@.len() as int;
            proof {
                assert forall|w: Seq<T::V>|
                    Self::fits(w) && #[trigger] starts_at(
                        bytes@,
                        pos as int,
                        list_item::<T>(w),
                    ) implies T::fits(w[i]) && starts_at(bytes@, cur as int, T::item(w[i])) by {
                    lemma_concat_prefix(bytes@, start as int, w, f, i);
                }
            }
            match T::read(bytes, cur) {
                Some((x, next)) => {
                    items.push(x);
                    proof {
                        assert(items.deep_view() =~= done.push(x.deep_view()));
                        lemma_concat_push(done, x.deep_view(), f);
                        lemma_starts_at_concat(
                            bytes@,
                            start as int,
                            concat_items(done, f),
                            T::item(x.deep_view()),
                        );
                        assert forall|w: Seq<T::V>|
                            Self::fits(w) && #[trigger] starts_at(
                                bytes@,
                                pos as int,
                                list_item::<T>(w),
                            ) implies w.take(i + 1) == items.deep_view() by {
                            assert(w.take(i + 1) =~= w.take(i).push(w[i]));
                        }
                    }
                    cur = next;
                },
                None => {
                    return None;
                },
            }
        }
        proof {
            let all = items.deep_view();
            lemma_starts_at_concat(
                bytes@,
                pos as int,
                head(MAJOR_ARRAY, n as u64),
                concat_items(all, f),
            );
            assert forall|w: Seq<T::V>|
                Self::fits(w) && #[trigger] starts_at(
                    bytes@,
                    pos as int,
                    list_item::<T>(w),
                ) implies w == all by {
                assert(w.take(n as int) =~= w);
            }
        }
        Some((items, cur))
    }
}

} // verus!
