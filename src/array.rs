//! Arrays of fixed-width big-endian entries, read and written in place.

use vstd::prelude::*;

use std::marker::PhantomData;

use crate::codec::{be32, be64, read_u32, read_u64, u32_be, u64_be, write_u32, write_u64};
use crate::codec::{lemma_be32_of_u32_be, lemma_be64_of_u64_be, push_u32, push_u64};
use crate::error::ParseError;

verus! {

/// A fixed-width integer stored big-endian.
pub trait Mp4Prim: Sized + Copy {
    /// The width of the encoding, in bytes.
    spec fn spec_width() -> nat;

    /// The value held by the encoding at `at` in `s`.
    spec fn spec_read(s: Seq<u8>, at: int) -> Self;

    /// The encoding of `v`.
    spec fn spec_bytes(v: Self) -> Seq<u8>;

    /// The value as an integer.
    spec fn spec_value(v: Self) -> int;

    /// The width of the encoding, in bytes.
    fn encoded_len() -> (r: usize)
        ensures
            r == Self::spec_width(),
            r == 4 || r == 8,
    ;

    /// Reads the value encoded at `at`.
    fn read_at(s: &[u8], at: usize) -> (r: Self)
        requires
            at + Self::spec_width() <= s@.len(),
        ensures
            r == Self::spec_read(s@, at as int),
    ;

    /// Overwrites the bytes at `at` with the encoding of `v`.
    fn write_at(v: Self, out: &mut Vec<u8>, at: usize)
        requires
            at + Self::spec_width() <= old(out)@.len(),
        ensures
            final(out)@ == old(out)@.subrange(0, at as int) + Self::spec_bytes(v) + old(
                out,
            )@.subrange(at + Self::spec_width(), old(out)@.len() as int),
    ;

    /// Appends the encoding of `v`.
    fn push(v: Self, out: &mut Vec<u8>)
        ensures
            final(out)@ == old(out)@ + Self::spec_bytes(v),
            Self::spec_bytes(v).len() == Self::spec_width(),
    ;

    /// The value as a `u64`.
    fn to_u64(v: Self) -> (r: u64)
        ensures
            r == Self::spec_value(v),
    ;

    /// The value `n`.
    fn from_count(n: u32) -> (r: Self)
        ensures
            Self::spec_value(r) == n,
    ;

    /// An encoding reads back as the value encoded.
    proof fn lemma_read_bytes(v: Self, s: Seq<u8>, at: int)
        requires
            0 <= at,
            at + Self::spec_width() <= s.len(),
            s.subrange(at, at + Self::spec_width()) == Self::spec_bytes(v),
        ensures
            Self::spec_read(s, at) == v,
            Self::spec_bytes(v).len() == Self::spec_width(),
    ;

    /// Encodings are four or eight bytes long.
    proof fn lemma_width(v: Self)
        ensures
            Self::spec_width() == 4 || Self::spec_width() == 8,
            Self::spec_bytes(v).len() == Self::spec_width(),
    ;

    /// A value is read from the bytes of its encoding alone.
    proof fn lemma_read_local(s: Seq<u8>, s2: Seq<u8>, at: int)
        requires
            0 <= at,
            at + Self::spec_width() <= s.len(),
            at + Self::spec_width() <= s2.len(),
            s.subrange(at, at + Self::spec_width()) == s2.subrange(at, at + Self::spec_width()),
        ensures
            Self::spec_read(s, at) == Self::spec_read(s2, at),
    ;
}

impl Mp4Prim for u32 {
    open spec fn spec_width() -> nat {
        4
    }

    open spec fn spec_read(s: Seq<u8>, at: int) -> u32 {
        be32(s, at)
    }

    open spec fn spec_bytes(v: u32) -> Seq<u8> {
        u32_be(v)
    }

    open spec fn spec_value(v: u32) -> int {
        v as int
    }

    fn encoded_len() -> (r: usize) {
        4
    }

    fn read_at(s: &[u8], at: usize) -> (r: u32) {
        read_u32(s, at)
    }

    fn write_at(v: u32, out: &mut Vec<u8>, at: usize) {
        write_u32(out, at, v)
    }

    fn push(v: u32, out: &mut Vec<u8>) {
        push_u32(out, v)
    }

    fn to_u64(v: u32) -> (r: u64) {
        v as u64
    }

    fn from_count(n: u32) -> (r: u32) {
        n
    }

    proof fn lemma_read_bytes(v: u32, s: Seq<u8>, at: int) {
        lemma_be32_of_u32_be(v, s, at);
    }

    proof fn lemma_width(v: u32) {
    }

    proof fn lemma_read_local(s: Seq<u8>, s2: Seq<u8>, at: int) {
        assert(s.subrange(at, at + 4)[0] == s2.subrange(at, at + 4)[0]);
        assert(s.subrange(at, at + 4)[1] == s2.subrange(at, at + 4)[1]);
        assert(s.subrange(at, at + 4)[2] == s2.subrange(at, at + 4)[2]);
        assert(s.subrange(at, at + 4)[3] == s2.subrange(at, at + 4)[3]);
    }
}

impl Mp4Prim for u64 {
    open spec fn spec_width() -> nat {
        8
    }

    open spec fn spec_read(s: Seq<u8>, at: int) -> u64 {
        be64(s, at)
    }

    open spec fn spec_bytes(v: u64) -> Seq<u8> {
        u64_be(v)
    }

    open spec fn spec_value(v: u64) -> int {
        v as int
    }

    fn encoded_len() -> (r: usize) {
        8
    }

    fn read_at(s: &[u8], at: usize) -> (r: u64) {
        read_u64(s, at)
    }

    fn write_at(v: u64, out: &mut Vec<u8>, at: usize) {
        write_u64(out, at, v)
    }

    fn push(v: u64, out: &mut Vec<u8>) {
        push_u64(out, v)
    }

    fn to_u64(v: u64) -> (r: u64) {
        v
    }

    fn from_count(n: u32) -> (r: u64) {
        n as u64
    }

    proof fn lemma_read_bytes(v: u64, s: Seq<u8>, at: int) {
        lemma_be64_of_u64_be(v, s, at);
    }

    proof fn lemma_width(v: u64) {
        assert(u64_be(v).len() == 8);
    }

    proof fn lemma_read_local(s: Seq<u8>, s2: Seq<u8>, at: int) {
        assert(s.subrange(at, at + 8)[0] == s2.subrange(at, at + 8)[0]);
        assert(s.subrange(at, at + 8)[1] == s2.subrange(at, at + 8)[1]);
        assert(s.subrange(at, at + 8)[2] == s2.subrange(at, at + 8)[2]);
        assert(s.subrange(at, at + 8)[3] == s2.subrange(at, at + 8)[3]);
        assert(s.subrange(at, at + 8)[4] == s2.subrange(at, at + 8)[4]);
        assert(s.subrange(at, at + 8)[5] == s2.subrange(at, at + 8)[5]);
        assert(s.subrange(at, at + 8)[6] == s2.subrange(at, at + 8)[6]);
        assert(s.subrange(at, at + 8)[7] == s2.subrange(at, at + 8)[7]);
    }
}

/// One entry of an array, read-only.
pub struct ArrayEntry<'a, T> {
    data: &'a [u8],
    at: usize,
    _t: PhantomData<T>,
}

/// One entry of an array, that can be overwritten in place.
pub struct ArrayEntryMut<'a, T> {
    /// The bytes that hold the entry.
    pub data: &'a mut Vec<u8>,
    /// Where the entry starts in `data`.
    pub at: usize,
    /// The type of the entry.
    pub marker: PhantomData<T>,
}

impl<'a, T: Mp4Prim> ArrayEntry<'a, T> {
    /// An entry's position is not negative.
    pub proof fn lemma_pos(&self)
        ensures
            self.pos() >= 0,
    {
    }

    /// The bytes that hold the entry.
    pub closed spec fn bytes(&self) -> Seq<u8> {
        self.data@
    }

    /// Where the entry starts in `bytes()`.
    pub closed spec fn pos(&self) -> int {
        self.at as int
    }

    /// The entry at `at` in `data`.
    pub fn new(data: &'a [u8], at: usize) -> (r: Self)
        ensures
            r.bytes() == data@,
            r.pos() == at,
    {
        ArrayEntry { data, at, _t: PhantomData }
    }

    /// The entry's value; an error where the bytes end within it.
    pub fn get(&self) -> (r: Result<T, ParseError>)
        ensures
            r == if self.pos() + T::spec_width() <= self.bytes().len() {
                Ok::<T, ParseError>(T::spec_read(self.bytes(), self.pos()))
            } else {
                Err::<T, ParseError>(ParseError::TruncatedBox)
            },
    {
        let w = T::encoded_len();
        if self.at > self.data.len() || self.data.len() - self.at < w {
            Err(ParseError::TruncatedBox)
        } else {
            Ok(T::read_at(self.data, self.at))
        }
    }
}

impl<'a, T: Mp4Prim> ArrayEntryMut<'a, T> {
    /// The bytes that hold the entry.
    pub open spec fn bytes(&self) -> Seq<u8> {
        (*self.data)@
    }

    /// Where the entry starts in `bytes()`.
    pub open spec fn pos(&self) -> int {
        self.at as int
    }

    /// The entry at `at` in `data`; what is written through it is written to `data`.
    pub fn new(data: &'a mut Vec<u8>, at: usize) -> (r: Self)
        ensures
            r.bytes() == old(data)@,
            r.pos() == at,
            *final(data) == *final(r.data),
    {
        ArrayEntryMut { data, at, marker: PhantomData }
    }

    /// The entry's value; an error where the bytes end within it.
    pub fn get(&self) -> (r: Result<T, ParseError>)
        ensures
            r == if self.pos() + T::spec_width() <= self.bytes().len() {
                Ok::<T, ParseError>(T::spec_read(self.bytes(), self.pos()))
            } else {
                Err::<T, ParseError>(ParseError::TruncatedBox)
            },
    {
        let w = T::encoded_len();
        if self.at > self.data.len() || self.data.len() - self.at < w {
            Err(ParseError::TruncatedBox)
        } else {
            Ok(T::read_at(self.data.as_slice(), self.at))
        }
    }

    /// Overwrites the entry with `value`.
    pub fn set(&mut self, value: T)
        requires
            old(self).pos() + T::spec_width() <= old(self).bytes().len(),
        ensures
            final(self).pos() == old(self).pos(),
            *final(final(self).data) == *final(old(self).data),
            final(self).bytes() == old(self).bytes().subrange(0, old(self).pos()) + T::spec_bytes(
                value,
            ) + old(self).bytes().subrange(
                old(self).pos() + T::spec_width(),
                old(self).bytes().len() as int,
            ),
    {
        T::write_at(value, self.data, self.at)
    }
}

/// Entries of type `T` filling a run of bytes.
pub struct UnboundedArray<T> {
    entries: Vec<u8>,
    _t: PhantomData<T>,
}

impl<T: Mp4Prim> UnboundedArray<T> {
    /// The bytes of the entries.
    pub closed spec fn bytes(&self) -> Seq<u8> {
        self.entries@
    }

    /// The bytes are whole entries.
    pub open spec fn wf(&self) -> bool {
        self.bytes().len() % T::spec_width() == 0
    }

    /// Takes `bytes` as whole entries; an error where they end within an entry.
    pub fn parse(bytes: Vec<u8>) -> (r: Result<Self, ParseError>)
        ensures
            match r {
                Ok(a) => a.bytes() == bytes@ && a.wf(),
                Err(e) => e == ParseError::InvalidInput && bytes@.len() % T::spec_width() != 0,
            },
    {
        if bytes.len() % T::encoded_len() != 0 {
            return Err(ParseError::InvalidInput);
        }
        Ok(UnboundedArray { entries: bytes, _t: PhantomData })
    }

    /// The array holding `values`, in order.
    pub fn from_entries(values: &Vec<T>) -> (r: Self)
        ensures
            r.wf(),
            r.bytes().len() == values@.len() * T::spec_width(),
            forall|i: int|
                0 <= i < values@.len() ==> T::spec_read(r.bytes(), i * T::spec_width())
                    == #[trigger] values@[i],
            forall|i: int|
                0 <= i < values@.len() ==> r.bytes().subrange(
                    i * T::spec_width(),
                    i * T::spec_width() + T::spec_width(),
                ) == T::spec_bytes(#[trigger] values@[i]),
    {
        let w = T::encoded_len();
        let mut out: Vec<u8> = Vec::new();
        let mut i: usize = 0;
        while i < values.len()
            invariant
                0 <= i <= values@.len(),
                w == T::spec_width(),
                w == 4 || w == 8,
                out@.len() == i * w,
                forall|j: int|
                    0 <= j < i ==> out@.subrange(j * w, j * w + w) == T::spec_bytes(
                        #[trigger] values@[j],
                    ),
            decreases values@.len() - i,
        {
            let ghost before = out@;
            T::push(values[i], &mut out);
            proof {
                assert((i + 1) * w == i * w + w) by (nonlinear_arith);
                assert(out@.subrange(i * w, i * w + w) =~= T::spec_bytes(values@[i as int]));
                assert forall|j: int| 0 <= j < i + 1 implies out@.subrange(j * w, j * w + w)
                    == T::spec_bytes(#[trigger] values@[j]) by {
                    if j < i {
                        assert(j * w + w <= i * w) by (nonlinear_arith)
                            requires
                                j < i,
                                w > 0,
                        ;
                        assert(0 <= j * w) by (nonlinear_arith)
                            requires
                                0 <= j,
                                w > 0,
                        ;
                        assert(before.subrange(j * w, j * w + w) =~= out@.subrange(j * w, j * w + w));
                    }
                }
            }
            i = i + 1;
        }
        proof {
            assert forall|j: int| 0 <= j < values@.len() implies T::spec_read(out@, j * w)
                == #[trigger] values@[j] by {
                assert(j * w + w <= i * w) by (nonlinear_arith)
                    requires
                        j < i,
                        w > 0,
                ;
                assert(0 <= j * w) by (nonlinear_arith)
                    requires
                        0 <= j,
                        w > 0,
                ;
                T::lemma_read_bytes(values@[j], out@, j * w);
            }
        }
        assert(out@.len() % (w as nat) == 0) by (nonlinear_arith)
            requires
                out@.len() == i * w,
                w > 0,
        ;
        UnboundedArray { entries: out, _t: PhantomData }
    }

    /// The number of entries.
    pub fn entry_count(&self) -> (r: usize)
        ensures
            r == self.bytes().len() / T::spec_width(),
    {
        self.entries.len() / T::encoded_len()
    }

    /// The length of the encoding.
    pub fn encoded_len(&self) -> (r: u64)
        ensures
            r == self.bytes().len(),
    {
        self.entries.len() as u64
    }

    /// Appends the encoding to `out`.
    pub fn put_buf(&self, out: &mut Vec<u8>)
        ensures
            final(out)@ == old(out)@ + self.bytes(),
    {
        let mut copy = self.entries.clone();
        assert(copy@ =~= self.entries@);
        out.append(&mut copy);
    }

    /// Entry `i`, read-only.
    pub fn entry(&self, i: usize) -> (r: ArrayEntry<'_, T>)
        requires
            i < self.bytes().len() / T::spec_width(),
        ensures
            r.bytes() == self.bytes(),
            r.pos() == i * T::spec_width(),
            r.pos() + T::spec_width() <= r.bytes().len(),
    {
        let w = T::encoded_len();
        let n = self.entries.len();
        assert(i * w + w <= n) by (nonlinear_arith)
            requires
                i < n / w,
                w > 0,
        ;
        ArrayEntry::new(self.entries.as_slice(), i * w)
    }

    /// Entry `i`, to be overwritten in place.
    pub fn entry_mut(&mut self, i: usize) -> (r: ArrayEntryMut<'_, T>)
        requires
            i < old(self).bytes().len() / T::spec_width(),
        ensures
            r.bytes() == old(self).bytes(),
            r.pos() == i * T::spec_width(),
            r.pos() + T::spec_width() <= r.bytes().len(),
            final(self).bytes() == (*final(r.data))@,
    {
        let w = T::encoded_len();
        let n = self.entries.len();
        assert(i * w + w <= n) by (nonlinear_arith)
            requires
                i < n / w,
                w > 0,
        ;
        ArrayEntryMut::new(&mut self.entries, i * w)
    }

    /// Overwrites entry `i` with `value`.
    pub fn set_entry(&mut self, i: usize, value: T)
        requires
            i < old(self).bytes().len() / T::spec_width(),
        ensures
            final(self).bytes().len() == old(self).bytes().len(),
            T::spec_read(final(self).bytes(), i * T::spec_width()) == value,
            forall|j: int|
                0 <= j < old(self).bytes().len() / T::spec_width() && j != i ==> #[trigger] T::spec_read(
                    final(self).bytes(),
                    j * T::spec_width(),
                ) == T::spec_read(old(self).bytes(), j * T::spec_width()),
    {
        let w = T::encoded_len();
        let n = self.entries.len();
        assert(i * w + w <= n) by (nonlinear_arith)
            requires
                i < n / w,
                w > 0,
        ;
        let ghost s0 = self.entries@;
        T::write_at(value, &mut self.entries, i * w);
        proof {
            let s1 = self.entries@;
            T::lemma_width(value);
            assert(s1.subrange(i * w, i * w + w) =~= T::spec_bytes(value));
            T::lemma_read_bytes(value, s1, i * w);
            assert forall|j: int|
                0 <= j < n / w && j != i implies #[trigger] T::spec_read(s1, j * w) == T::spec_read(
                    s0,
                    j * w,
                ) by {
                assert(j * w + w <= n && 0 <= j * w) by (nonlinear_arith)
                    requires
                        0 <= j < n / w,
                        w > 0,
                ;
                assert(j * w + w <= i * w || i * w + w <= j * w) by (nonlinear_arith)
                    requires
                        j != i,
                        w > 0,
                ;
                assert(s1.subrange(j * w, j * w + w) =~= s0.subrange(j * w, j * w + w));
                T::lemma_read_local(s1, s0, j * w);
            }
        }
    }

    /// All entries, read-only, in order.
    pub fn entries(&self) -> (r: Vec<ArrayEntry<'_, T>>)
        ensures
            r@.len() == self.bytes().len() / T::spec_width(),
            forall|i: int|
                0 <= i < r@.len() ==> (#[trigger] r@[i]).bytes() == self.bytes() && r@[i].pos() == i
                    * T::spec_width(),
    {
        let count = self.entry_count();
        let mut out: Vec<ArrayEntry<'_, T>> = Vec::new();
        let mut i: usize = 0;
        while i < count
            invariant
                0 <= i <= count,
                count == self.bytes().len() / T::spec_width(),
                out@.len() == i,
                forall|j: int|
                    0 <= j < i ==> (#[trigger] out@[j]).bytes() == self.bytes() && out@[j].pos()
                        == j * T::spec_width(),
            decreases count - i,
        {
            out.push(self.entry(i));
            i = i + 1;
        }
        out
    }
}

/// What a count-prefixed array at the start of `s` holds: the count, and the number of bytes that
/// the count and the entries take. The entries may take at most `u32::MAX` bytes.
pub open spec fn spec_parse_bounded<C: Mp4Prim, T: Mp4Prim>(s: Seq<u8>) -> Result<(C, int), ParseError> {
    if s.len() < C::spec_width() {
        Err(ParseError::TruncatedBox)
    } else {
        let c = C::spec_read(s, 0);
        let n = C::spec_value(c) * T::spec_width();
        if n > u32::MAX {
            Err(ParseError::InvalidInput)
        } else if n > s.len() - C::spec_width() {
            Err(ParseError::TruncatedBox)
        } else {
            Ok((c, C::spec_width() + n))
        }
    }
}

/// An entry count of type `C`, then that many entries of type `T`.
pub struct BoundedArray<C, T> {
    entry_count: C,
    array: UnboundedArray<T>,
}

impl<C: Mp4Prim, T: Mp4Prim> BoundedArray<C, T> {
    /// The entry count.
    pub closed spec fn count(&self) -> C {
        self.entry_count
    }

    /// The bytes of the entries.
    pub closed spec fn entry_bytes(&self) -> Seq<u8> {
        self.array.bytes()
    }

    /// The entries fill their bytes, as many as the count says.
    pub open spec fn wf(&self) -> bool {
        self.entry_bytes().len() == C::spec_value(self.count()) * T::spec_width()
    }

    /// Reads an entry count and the entries it announces from the start of `buf`; returns the
    /// array and the number of bytes it took.
    pub fn parse(buf: &[u8]) -> (r: Result<(Self, usize), ParseError>)
        ensures
            match r {
                Ok((a, used)) => {
                    &&& spec_parse_bounded::<C, T>(buf@) == Ok::<(C, int), ParseError>(
                        (a.count(), used as int),
                    )
                    &&& a.entry_bytes() == buf@.subrange(C::spec_width() as int, used as int)
                    &&& a.wf()
                },
                Err(e) => spec_parse_bounded::<C, T>(buf@) == Err::<(C, int), ParseError>(e),
            },
    {
        let cw = C::encoded_len();
        let len = buf.len();
        if len < cw {
            return Err(ParseError::TruncatedBox);
        }
        let c = C::read_at(buf, 0);
        let cv = C::to_u64(c);
        let tw = T::encoded_len() as u64;
        if cv > u32::MAX as u64 / tw {
            assert(cv * tw > u32::MAX) by (nonlinear_arith)
                requires
                    cv > u32::MAX as u64 / tw,
                    tw > 0,
            ;
            return Err(ParseError::InvalidInput);
        }
        assert(cv * tw <= u32::MAX) by (nonlinear_arith)
            requires
                cv <= u32::MAX as u64 / tw,
                tw > 0,
        ;
        let n = cv * tw;
        if n > (len - cw) as u64 {
            return Err(ParseError::TruncatedBox);
        }
        let end = cw + n as usize;
        let mut entries: Vec<u8> = Vec::new();
        let mut i: usize = cw;
        while i < end
            invariant
                cw <= i <= end <= len == buf@.len(),
                entries@ == buf@.subrange(cw as int, i as int),
            decreases end - i,
        {
            entries.push(buf[i]);
            i = i + 1;
            assert(entries@ =~= buf@.subrange(cw as int, i as int));
        }
        assert(entries@.len() % T::spec_width() == 0) by (nonlinear_arith)
            requires
                entries@.len() == cv * tw,
                tw == T::spec_width(),
                tw > 0,
        ;
        let array = UnboundedArray { entries, _t: PhantomData };
        Ok((BoundedArray { entry_count: c, array }, end))
    }

    /// The array holding `values`, in order, with their number as the count.
    pub fn from_entries(values: &Vec<T>) -> (r: Self)
        requires
            values@.len() <= u32::MAX,
        ensures
            r.wf(),
            C::spec_value(r.count()) == values@.len(),
            forall|i: int|
                0 <= i < values@.len() ==> T::spec_read(r.entry_bytes(), i * T::spec_width())
                    == #[trigger] values@[i],
    {
        let array = UnboundedArray::from_entries(values);
        BoundedArray { entry_count: C::from_count(values.len() as u32), array }
    }

    /// The entry count.
    pub fn entry_count(&self) -> (r: C)
        ensures
            r == self.count(),
    {
        self.entry_count
    }

    /// The length of the encoding.
    pub fn encoded_len(&self) -> (r: u64)
        requires
            C::spec_width() + self.entry_bytes().len() <= u64::MAX,
        ensures
            r == C::spec_width() + self.entry_bytes().len(),
    {
        C::encoded_len() as u64 + self.array.encoded_len()
    }

    /// Appends the encoding to `out`: the count, then the entries.
    pub fn put_buf(&self, out: &mut Vec<u8>)
        ensures
            final(out)@ == old(out)@ + C::spec_bytes(self.count()) + self.entry_bytes(),
    {
        C::push(self.entry_count, out);
        self.array.put_buf(out);
    }

    /// All entries, read-only, in order.
    pub fn entries(&self) -> (r: Vec<ArrayEntry<'_, T>>)
        ensures
            r@.len() == self.entry_bytes().len() / T::spec_width(),
            forall|i: int|
                0 <= i < r@.len() ==> (#[trigger] r@[i]).bytes() == self.entry_bytes() && r@[i].pos()
                    == i * T::spec_width(),
    {
        self.array.entries()
    }

    /// Entry `i`, to be overwritten in place.
    pub fn entry_mut(&mut self, i: usize) -> (r: ArrayEntryMut<'_, T>)
        requires
            i < old(self).entry_bytes().len() / T::spec_width(),
        ensures
            r.bytes() == old(self).entry_bytes(),
            r.pos() == i * T::spec_width(),
            r.pos() + T::spec_width() <= r.bytes().len(),
            final(self).entry_bytes() == (*final(r.data))@,
            final(self).count() == old(self).count(),
    {
        self.array.entry_mut(i)
    }

    /// Overwrites entry `i` with `value`; the count stays.
    pub fn set_entry(&mut self, i: usize, value: T)
        requires
            i < old(self).entry_bytes().len() / T::spec_width(),
        ensures
            final(self).count() == old(self).count(),
            final(self).entry_bytes().len() == old(self).entry_bytes().len(),
            T::spec_read(final(self).entry_bytes(), i * T::spec_width()) == value,
            forall|j: int|
                0 <= j < old(self).entry_bytes().len() / T::spec_width() && j != i
                    ==> #[trigger] T::spec_read(final(self).entry_bytes(), j * T::spec_width())
                    == T::spec_read(old(self).entry_bytes(), j * T::spec_width()),
    {
        self.array.set_entry(i, value)
    }
}

} // verus!
