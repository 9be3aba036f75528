//! Binary representation of types: the fixed/variable-width wire codec the
//! node uses between its processes.  Fixed-width values are their
//! little-endian bytes; variable-width values carry a stack of lengths
//! beside the payload, written as a header when a value is serialised
//! whole.

use std::collections::{BTreeMap, VecDeque};

use vstd::prelude::*;
use vstd::bytes::{spec_u16_to_le_bytes, spec_u32_to_le_bytes, spec_u64_to_le_bytes,
    spec_u64_from_le_bytes,
    u16_from_le_bytes, u16_to_le_bytes, u32_from_le_bytes, u32_to_le_bytes, u64_from_le_bytes,
    u64_to_le_bytes, lemma_auto_spec_u16_to_from_le_bytes, lemma_auto_spec_u32_to_from_le_bytes,
    lemma_auto_spec_u64_to_from_le_bytes};
use crate::rlp::{copy_range, push_all};

verus! {

broadcast use vstd::std_specs::vec::group_vec_axioms;

/// The one error of this codec: the bytes or the length stack do not fit
/// the type being read, or the value cannot be written alone.
#[derive(Debug, Clone, Copy, PartialEq, Eq, Structural)]
pub struct BinaryConvertError;

/// A type with a binary representation.
///
/// `encoded` is the payload bytes of a value; `lengths` the entries it
/// contributes to the length stack that containers keep beside the
/// payload; `encodable` whether the value can be written on its own —
/// an absent value has no bytes of its own and lives only in the length
/// stack of its container.
pub trait BinaryConvertable: Sized {
    /// Whether every value of the type has the same width.
    spec fn fixed() -> bool;

    /// That width, when `fixed()`; zero otherwise.
    spec fn fixed_len() -> nat;

    /// The payload bytes of this value.
    spec fn encoded(&self) -> Seq<u8>;

    /// The length-stack entries of this value.
    spec fn lengths(&self) -> Seq<usize>;

    /// Whether `to_bytes` accepts this value.
    spec fn encodable(&self) -> bool;

    /// Whether `from_bytes` accepts exactly these bytes with this length
    /// stack in front of it.
    spec fn decodable(buffer: Seq<u8>, stack: Seq<usize>) -> bool;

    /// The length-stack prefix a successful read of these bytes consumes.
    spec fn stack_used(buffer: Seq<u8>, stack: Seq<usize>) -> Seq<usize>;

    /// Whether the type has a value for a zero-length entry.
    spec fn empty_decodable() -> bool;

    /// The width of every value, for fixed-width types.
    fn fixed_width() -> (r: usize)
        ensures
            r as nat == Self::fixed_len(),
            Self::fixed() ==> r > 0 && (forall|v: Self| (#[trigger] v.encoded()).len()
                == Self::fixed_len()),
    ;

    /// How many bytes this value's payload takes.
    fn size(&self) -> (r: usize)
        requires
            self.encoded().len() <= usize::MAX,
        ensures
            r as nat == self.encoded().len(),
    ;

    /// Zero when the type is fixed-width, nonzero otherwise.
    fn len_params() -> (r: usize)
        ensures
            (r == 0) == Self::fixed(),
    ;

    /// Appends this value's payload to `buffer` and its length-stack
    /// entries to `length_stack`.
    fn to_bytes(&self, buffer: &mut Vec<u8>, length_stack: &mut VecDeque<usize>) -> (r: Result<
        (),
        BinaryConvertError,
    >)
        requires
            self.encoded().len() <= usize::MAX,
        ensures
            r is Ok <==> self.encodable(),
            r is Ok ==> final(buffer)@ == old(buffer)@ + self.encoded() && final(length_stack)@
                == old(length_stack)@ + self.lengths(),
    ;

    /// Reads a value back out of exactly the bytes of `buffer`, popping
    /// the lengths of its parts from the front of `length_stack`.
    fn from_bytes(buffer: &Vec<u8>, length_stack: &mut VecDeque<usize>) -> (r: Result<
        Self,
        BinaryConvertError,
    >)
        ensures
            r is Ok <==> Self::decodable(buffer@, old(length_stack)@),
            r matches Ok(v) ==> v.encoded() == buffer@ && old(length_stack)@ == v.lengths()
                + final(length_stack)@,
            r matches Ok(v) ==> v.lengths() == Self::stack_used(buffer@, old(length_stack)@),
            r matches Ok(v) ==> (buffer@.len() == 0 ==> v.lengths() == Seq::<usize>::empty()),
    ;

    /// The value a container reads for a zero-length entry, where the
    /// type has one.
    fn from_empty_bytes() -> (r: Result<Self, BinaryConvertError>)
        ensures
            r is Ok <==> Self::empty_decodable(),
            r matches Ok(v) ==> v.encoded() == Seq::<u8>::empty() && v.lengths() == Seq::<
                usize,
            >::empty(),
    ;
}

impl BinaryConvertable for u64 {
    open spec fn fixed() -> bool {
        true
    }

    open spec fn fixed_len() -> nat {
        8
    }

    open spec fn encoded(&self) -> Seq<u8> {
        spec_u64_to_le_bytes(*self)
    }

    open spec fn lengths(&self) -> Seq<usize> {
        Seq::empty()
    }

    open spec fn encodable(&self) -> bool {
        true
    }

    open spec fn decodable(buffer: Seq<u8>, stack: Seq<usize>) -> bool {
        buffer.len() == 8
    }

    open spec fn stack_used(buffer: Seq<u8>, stack: Seq<usize>) -> Seq<usize> {
        Seq::empty()
    }

    open spec fn empty_decodable() -> bool {
        false
    }

    fn fixed_width() -> (r: usize) {
        proof {
            lemma_auto_spec_u64_to_from_le_bytes();
        }
        8
    }

    fn size(&self) -> (r: usize) {
        proof {
            lemma_auto_spec_u64_to_from_le_bytes();
        }
        8
    }

    fn len_params() -> (r: usize) {
        0
    }

    fn to_bytes(&self, buffer: &mut Vec<u8>, length_stack: &mut VecDeque<usize>) -> (r: Result<
        (),
        BinaryConvertError,
    >) {
        let bytes = u64_to_le_bytes(*self);
        push_all(buffer, &bytes);
        proof {
            assert(final(length_stack)@ == old(length_stack)@ + Seq::<usize>::empty());
        }
        Ok(())
    }

    fn from_bytes(buffer: &Vec<u8>, length_stack: &mut VecDeque<usize>) -> (r: Result<
        Self,
        BinaryConvertError,
    >) {
        proof {
            lemma_auto_spec_u64_to_from_le_bytes();
        }
        if buffer.len() != 8 {
            return Err(BinaryConvertError);
        }
        let v = u64_from_le_bytes(buffer.as_slice());
        proof {
            assert(old(length_stack)@ == v.lengths() + final(length_stack)@);
        }
        Ok(v)
    }

    fn from_empty_bytes() -> (r: Result<Self, BinaryConvertError>) {
        Err(BinaryConvertError)
    }
}

impl BinaryConvertable for u32 {
    open spec fn fixed() -> bool {
        true
    }

    open spec fn fixed_len() -> nat {
        4
    }

    open spec fn encoded(&self) -> Seq<u8> {
        spec_u32_to_le_bytes(*self)
    }

    open spec fn lengths(&self) -> Seq<usize> {
        Seq::empty()
    }

    open spec fn encodable(&self) -> bool {
        true
    }

    open spec fn decodable(buffer: Seq<u8>, stack: Seq<usize>) -> bool {
        buffer.len() == 4
    }

    open spec fn stack_used(buffer: Seq<u8>, stack: Seq<usize>) -> Seq<usize> {
        Seq::empty()
    }

    open spec fn empty_decodable() -> bool {
        false
    }

    fn fixed_width() -> (r: usize) {
        proof {
            lemma_auto_spec_u32_to_from_le_bytes();
        }
        4
    }

    fn size(&self) -> (r: usize) {
        proof {
            lemma_auto_spec_u32_to_from_le_bytes();
        }
        4
    }

    fn len_params() -> (r: usize) {
        0
    }

    fn to_bytes(&self, buffer: &mut Vec<u8>, length_stack: &mut VecDeque<usize>) -> (r: Result<
        (),
        BinaryConvertError,
    >) {
        let bytes = u32_to_le_bytes(*self);
        push_all(buffer, &bytes);
        proof {
            assert(final(length_stack)@ == old(length_stack)@ + Seq::<usize>::empty());
        }
        Ok(())
    }

    fn from_bytes(buffer: &Vec<u8>, length_stack: &mut VecDeque<usize>) -> (r: Result<
        Self,
        BinaryConvertError,
    >) {
        proof {
            lemma_auto_spec_u32_to_from_le_bytes();
        }
        if buffer.len() != 4 {
            return Err(BinaryConvertError);
        }
        let v = u32_from_le_bytes(buffer.as_slice());
        proof {
            assert(old(length_stack)@ == v.lengths() + final(length_stack)@);
        }
        Ok(v)
    }

    fn from_empty_bytes() -> (r: Result<Self, BinaryConvertError>) {
        Err(BinaryConvertError)
    }
}

impl BinaryConvertable for u16 {
    open spec fn fixed() -> bool {
        true
    }

    open spec fn fixed_len() -> nat {
        2
    }

    open spec fn encoded(&self) -> Seq<u8> {
        spec_u16_to_le_bytes(*self)
    }

    open spec fn lengths(&self) -> Seq<usize> {
        Seq::empty()
    }

    open spec fn encodable(&self) -> bool {
        true
    }

    open spec fn decodable(buffer: Seq<u8>, stack: Seq<usize>) -> bool {
        buffer.len() == 2
    }

    open spec fn stack_used(buffer: Seq<u8>, stack: Seq<usize>) -> Seq<usize> {
        Seq::empty()
    }

    open spec fn empty_decodable() -> bool {
        false
    }

    fn fixed_width() -> (r: usize) {
        proof {
            lemma_auto_spec_u16_to_from_le_bytes();
        }
        2
    }

    fn size(&self) -> (r: usize) {
        proof {
            lemma_auto_spec_u16_to_from_le_bytes();
        }
        2
    }

    fn len_params() -> (r: usize) {
        0
    }

    fn to_bytes(&self, buffer: &mut Vec<u8>, length_stack: &mut VecDeque<usize>) -> (r: Result<
        (),
        BinaryConvertError,
    >) {
        let bytes = u16_to_le_bytes(*self);
        push_all(buffer, &bytes);
        proof {
            assert(final(length_stack)@ == old(length_stack)@ + Seq::<usize>::empty());
        }
        Ok(())
    }

    fn from_bytes(buffer: &Vec<u8>, length_stack: &mut VecDeque<usize>) -> (r: Result<
        Self,
        BinaryConvertError,
    >) {
        proof {
            lemma_auto_spec_u16_to_from_le_bytes();
        }
        if buffer.len() != 2 {
            return Err(BinaryConvertError);
        }
        let v = u16_from_le_bytes(buffer.as_slice());
        proof {
            assert(old(length_stack)@ == v.lengths() + final(length_stack)@);
        }
        Ok(v)
    }

    fn from_empty_bytes() -> (r: Result<Self, BinaryConvertError>) {
        Err(BinaryConvertError)
    }
}

impl BinaryConvertable for bool {
    open spec fn fixed() -> bool {
        true
    }

    open spec fn fixed_len() -> nat {
        1
    }

    open spec fn encoded(&self) -> Seq<u8> {
        seq![if *self { 1u8 } else { 0u8 }]
    }

    open spec fn lengths(&self) -> Seq<usize> {
        Seq::empty()
    }

    open spec fn encodable(&self) -> bool {
        true
    }

    open spec fn decodable(buffer: Seq<u8>, stack: Seq<usize>) -> bool {
        buffer.len() == 1 && (buffer[0] == 0 || buffer[0] == 1)
    }

    open spec fn stack_used(buffer: Seq<u8>, stack: Seq<usize>) -> Seq<usize> {
        Seq::empty()
    }

    open spec fn empty_decodable() -> bool {
        false
    }

    fn fixed_width() -> (r: usize) {
        1
    }

    fn size(&self) -> (r: usize) {
        1
    }

    fn len_params() -> (r: usize) {
        0
    }

    fn to_bytes(&self, buffer: &mut Vec<u8>, length_stack: &mut VecDeque<usize>) -> (r: Result<
        (),
        BinaryConvertError,
    >) {
        buffer.push(if *self { 1u8 } else { 0u8 });
        proof {
            assert(final(buffer)@ =~= old(buffer)@ + self.encoded());
            assert(final(length_stack)@ == old(length_stack)@ + Seq::<usize>::empty());
        }
        Ok(())
    }

    fn from_bytes(buffer: &Vec<u8>, length_stack: &mut VecDeque<usize>) -> (r: Result<
        Self,
        BinaryConvertError,
    >) {
        if buffer.len() != 1 {
            return Err(BinaryConvertError);
        }
        let v = if buffer[0] == 1 {
            true
        } else if buffer[0] == 0 {
            false
        } else {
            return Err(BinaryConvertError);
        };
        proof {
            assert(v.encoded() =~= buffer@);
            assert(old(length_stack)@ == v.lengths() + final(length_stack)@);
        }
        Ok(v)
    }

    fn from_empty_bytes() -> (r: Result<Self, BinaryConvertError>) {
        Err(BinaryConvertError)
    }
}

impl BinaryConvertable for Vec<u8> {
    open spec fn fixed() -> bool {
        false
    }

    open spec fn fixed_len() -> nat {
        0
    }

    open spec fn encoded(&self) -> Seq<u8> {
        self@
    }

    open spec fn lengths(&self) -> Seq<usize> {
        Seq::empty()
    }

    open spec fn encodable(&self) -> bool {
        true
    }

    open spec fn decodable(buffer: Seq<u8>, stack: Seq<usize>) -> bool {
        true
    }

    open spec fn stack_used(buffer: Seq<u8>, stack: Seq<usize>) -> Seq<usize> {
        Seq::empty()
    }

    open spec fn empty_decodable() -> bool {
        true
    }

    fn fixed_width() -> (r: usize) {
        0
    }

    fn size(&self) -> (r: usize) {
        self.len()
    }

    fn len_params() -> (r: usize) {
        1
    }

    fn to_bytes(&self, buffer: &mut Vec<u8>, length_stack: &mut VecDeque<usize>) -> (r: Result<
        (),
        BinaryConvertError,
    >) {
        push_all(buffer, self);
        proof {
            assert(final(length_stack)@ == old(length_stack)@ + Seq::<usize>::empty());
        }
        Ok(())
    }

    fn from_bytes(buffer: &Vec<u8>, length_stack: &mut VecDeque<usize>) -> (r: Result<
        Self,
        BinaryConvertError,
    >) {
        let v = copy_range(buffer, 0, buffer.len());
        proof {
            assert(buffer@.subrange(0, buffer@.len() as int) =~= buffer@);
            assert(old(length_stack)@ == v.lengths() + final(length_stack)@);
        }
        Ok(v)
    }

    fn from_empty_bytes() -> (r: Result<Self, BinaryConvertError>) {
        let v: Vec<u8> = Vec::new();
        Ok(v)
    }
}

impl BinaryConvertable for usize {
    open spec fn fixed() -> bool {
        true
    }

    open spec fn fixed_len() -> nat {
        8
    }

    open spec fn encoded(&self) -> Seq<u8> {
        spec_u64_to_le_bytes(*self as u64)
    }

    open spec fn lengths(&self) -> Seq<usize> {
        Seq::empty()
    }

    open spec fn encodable(&self) -> bool {
        true
    }

    open spec fn decodable(buffer: Seq<u8>, stack: Seq<usize>) -> bool {
        buffer.len() == 8 && spec_u64_from_le_bytes(buffer) <= usize::MAX as u64
    }

    open spec fn stack_used(buffer: Seq<u8>, stack: Seq<usize>) -> Seq<usize> {
        Seq::empty()
    }

    open spec fn empty_decodable() -> bool {
        false
    }

    fn fixed_width() -> (r: usize) {
        proof {
            lemma_auto_spec_u64_to_from_le_bytes();
        }
        8
    }

    fn size(&self) -> (r: usize) {
        proof {
            lemma_auto_spec_u64_to_from_le_bytes();
        }
        8
    }

    fn len_params() -> (r: usize) {
        0
    }

    fn to_bytes(&self, buffer: &mut Vec<u8>, length_stack: &mut VecDeque<usize>) -> (r: Result<
        (),
        BinaryConvertError,
    >) {
        let bytes = u64_to_le_bytes(*self as u64);
        push_all(buffer, &bytes);
        proof {
            assert(final(length_stack)@ == old(length_stack)@ + Seq::<usize>::empty());
        }
        Ok(())
    }

    fn from_bytes(buffer: &Vec<u8>, length_stack: &mut VecDeque<usize>) -> (r: Result<
        Self,
        BinaryConvertError,
    >) {
        proof {
            lemma_auto_spec_u64_to_from_le_bytes();
        }
        if buffer.len() != 8 {
            return Err(BinaryConvertError);
        }
        let wide = u64_from_le_bytes(buffer.as_slice());
        if wide > (usize::MAX as u64) {
            return Err(BinaryConvertError);
        }
        let v = wide as usize;
        proof {
            assert(v as u64 == wide);
            assert(old(length_stack)@ == v.lengths() + final(length_stack)@);
        }
        Ok(v)
    }

    fn from_empty_bytes() -> (r: Result<Self, BinaryConvertError>) {
        Err(BinaryConvertError)
    }
}

impl BinaryConvertable for i32 {
    open spec fn fixed() -> bool {
        true
    }

    open spec fn fixed_len() -> nat {
        4
    }

    open spec fn encoded(&self) -> Seq<u8> {
        spec_u32_to_le_bytes(*self as u32)
    }

    open spec fn lengths(&self) -> Seq<usize> {
        Seq::empty()
    }

    open spec fn encodable(&self) -> bool {
        true
    }

    open spec fn decodable(buffer: Seq<u8>, stack: Seq<usize>) -> bool {
        buffer.len() == 4
    }

    open spec fn stack_used(buffer: Seq<u8>, stack: Seq<usize>) -> Seq<usize> {
        Seq::empty()
    }

    open spec fn empty_decodable() -> bool {
        false
    }

    fn fixed_width() -> (r: usize) {
        proof {
            lemma_auto_spec_u32_to_from_le_bytes();
        }
        4
    }

    fn size(&self) -> (r: usize) {
        proof {
            lemma_auto_spec_u32_to_from_le_bytes();
        }
        4
    }

    fn len_params() -> (r: usize) {
        0
    }

    fn to_bytes(&self, buffer: &mut Vec<u8>, length_stack: &mut VecDeque<usize>) -> (r: Result<
        (),
        BinaryConvertError,
    >) {
        let bytes = u32_to_le_bytes(*self as u32);
        push_all(buffer, &bytes);
        proof {
            assert(final(length_stack)@ == old(length_stack)@ + Seq::<usize>::empty());
        }
        Ok(())
    }

    fn from_bytes(buffer: &Vec<u8>, length_stack: &mut VecDeque<usize>) -> (r: Result<
        Self,
        BinaryConvertError,
    >) {
        proof {
            lemma_auto_spec_u32_to_from_le_bytes();
        }
        if buffer.len() != 4 {
            return Err(BinaryConvertError);
        }
        let wide = u32_from_le_bytes(buffer.as_slice());
        let v = #[verifier::truncate] (wide as i32);
        proof {
            assert((wide as i32) as u32 == wide) by (bit_vector);
            assert(old(length_stack)@ == v.lengths() + final(length_stack)@);
        }
        Ok(v)
    }

    fn from_empty_bytes() -> (r: Result<Self, BinaryConvertError>) {
        Err(BinaryConvertError)
    }
}

impl<T: BinaryConvertable> BinaryConvertable for Option<T> {
    open spec fn fixed() -> bool {
        false
    }

    open spec fn fixed_len() -> nat {
        0
    }

    open spec fn encoded(&self) -> Seq<u8> {
        match self {
            None => Seq::empty(),
            Some(v) => v.encoded(),
        }
    }

    open spec fn lengths(&self) -> Seq<usize> {
        match self {
            None => Seq::empty(),
            Some(v) => v.lengths(),
        }
    }

    open spec fn encodable(&self) -> bool {
        match self {
            None => false,
            Some(v) => v.encodable(),
        }
    }

    open spec fn decodable(buffer: Seq<u8>, stack: Seq<usize>) -> bool {
        if buffer.len() == 0 {
            true
        } else {
            T::decodable(buffer, stack)
        }
    }

    open spec fn stack_used(buffer: Seq<u8>, stack: Seq<usize>) -> Seq<usize> {
        if buffer.len() == 0 {
            Seq::empty()
        } else {
            T::stack_used(buffer, stack)
        }
    }

    open spec fn empty_decodable() -> bool {
        true
    }

    fn fixed_width() -> (r: usize) {
        0
    }

    fn size(&self) -> (r: usize) {
        match self {
            None => 0,
            Some(v) => v.size(),
        }
    }

    fn len_params() -> (r: usize) {
        1
    }

    fn to_bytes(&self, buffer: &mut Vec<u8>, length_stack: &mut VecDeque<usize>) -> (r: Result<
        (),
        BinaryConvertError,
    >) {
        match self {
            None => Err(BinaryConvertError),
            Some(v) => v.to_bytes(buffer, length_stack),
        }
    }

    fn from_bytes(buffer: &Vec<u8>, length_stack: &mut VecDeque<usize>) -> (r: Result<
        Self,
        BinaryConvertError,
    >) {
        if buffer.len() == 0 {
            return Self::from_empty_bytes();
        }
        match T::from_bytes(buffer, length_stack) {
            Ok(v) => Ok(Some(v)),
            Err(e) => Err(e),
        }
    }

    fn from_empty_bytes() -> (r: Result<Self, BinaryConvertError>) {
        Ok(None)
    }
}

impl<E: BinaryConvertable> BinaryConvertable for Result<(), E> {
    open spec fn fixed() -> bool {
        false
    }

    open spec fn fixed_len() -> nat {
        0
    }

    open spec fn encoded(&self) -> Seq<u8> {
        match self {
            Ok(_) => Seq::empty(),
            Err(e) => e.encoded(),
        }
    }

    open spec fn lengths(&self) -> Seq<usize> {
        match self {
            Ok(_) => Seq::empty(),
            Err(e) => e.lengths(),
        }
    }

    open spec fn encodable(&self) -> bool {
        match self {
            Ok(_) => false,
            Err(e) => e.encodable(),
        }
    }

    open spec fn decodable(buffer: Seq<u8>, stack: Seq<usize>) -> bool {
        E::decodable(buffer, stack)
    }

    open spec fn stack_used(buffer: Seq<u8>, stack: Seq<usize>) -> Seq<usize> {
        E::stack_used(buffer, stack)
    }

    open spec fn empty_decodable() -> bool {
        true
    }

    fn fixed_width() -> (r: usize) {
        0
    }

    fn size(&self) -> (r: usize) {
        match self {
            Ok(_) => 0,
            Err(e) => e.size(),
        }
    }

    fn len_params() -> (r: usize) {
        1
    }

    fn to_bytes(&self, buffer: &mut Vec<u8>, length_stack: &mut VecDeque<usize>) -> (r: Result<
        (),
        BinaryConvertError,
    >) {
        match self {
            Ok(_) => Err(BinaryConvertError),
            Err(e) => e.to_bytes(buffer, length_stack),
        }
    }

    fn from_bytes(buffer: &Vec<u8>, length_stack: &mut VecDeque<usize>) -> (r: Result<
        Self,
        BinaryConvertError,
    >) {
        match E::from_bytes(buffer, length_stack) {
            Ok(e) => Ok(Err(e)),
            Err(e2) => Err(e2),
        }
    }

    fn from_empty_bytes() -> (r: Result<Self, BinaryConvertError>) {
        Ok(Ok(()))
    }
}

/// The concatenated payloads of a run of values.
pub open spec fn seq_encoded<T: BinaryConvertable>(s: Seq<T>) -> Seq<u8>
    decreases s,
{
    if s.len() == 0 {
        Seq::empty()
    } else {
        seq_encoded(s.drop_last()) + s.last().encoded()
    }
}

/// The length-stack entries one element of a container contributes: for
/// variable-width types its payload length, then its own entries —
/// unless the payload is empty, in which case the element is never
/// descended into.
pub open spec fn item_lengths<T: BinaryConvertable>(v: T) -> Seq<usize> {
    if T::fixed() {
        v.lengths()
    } else if v.encoded().len() == 0 {
        seq![0usize]
    } else {
        seq![v.encoded().len() as usize] + v.lengths()
    }
}

/// The length-stack entries of a run of values.
pub open spec fn seq_lengths<T: BinaryConvertable>(s: Seq<T>) -> Seq<usize>
    decreases s,
{
    if s.len() == 0 {
        Seq::empty()
    } else {
        seq_lengths(s.drop_last()) + item_lengths(s.last())
    }
}

/// Whether every element a container would descend into accepts being
/// written.
pub open spec fn seq_encodable<T: BinaryConvertable>(s: Seq<T>) -> bool {
    forall|i: int| 0 <= i < s.len() ==> ((T::fixed() || (#[trigger] s[i]).encoded().len() > 0)
        ==> s[i].encodable())
}

/// A prefix of a run takes no more payload room than the whole.
proof fn lemma_seq_encoded_take<T: BinaryConvertable>(s: Seq<T>, i: int)
    requires
        0 <= i < s.len(),
    ensures
        seq_encoded(s.take(i + 1)) == seq_encoded(s.take(i)) + s[i].encoded(),
        seq_lengths(s.take(i + 1)) == seq_lengths(s.take(i)) + item_lengths(s[i]),
{
    assert(s.take(i + 1).drop_last() =~= s.take(i));
    assert(s.take(i + 1).last() == s[i]);
}

/// The payload of any prefix stays within the payload of the whole.
proof fn lemma_seq_encoded_prefix_le<T: BinaryConvertable>(s: Seq<T>, i: int)
    requires
        0 <= i <= s.len(),
    ensures
        seq_encoded(s.take(i)).len() <= seq_encoded(s).len(),
    decreases s.len() - i,
{
    if i == s.len() {
        assert(s.take(i) =~= s);
    } else {
        lemma_seq_encoded_take(s, i);
        lemma_seq_encoded_prefix_le(s, i + 1);
    }
}

/// Whether the run of entries that fills `buffer`, under the front of
/// `stack`, reads back entry by entry: fixed-width entries split the
/// bytes evenly; others take the length the stack announces, a zero
/// length standing for the type's empty value.
pub open spec fn seq_decodable<T: BinaryConvertable>(buffer: Seq<u8>, stack: Seq<usize>) -> bool
    decreases buffer.len(), stack.len(),
{
    if buffer.len() == 0 {
        true
    } else if T::fixed() {
        if 0 < T::fixed_len() <= buffer.len() {
            T::decodable(buffer.take(T::fixed_len() as int), stack) && seq_decodable::<T>(
                buffer.skip(T::fixed_len() as int),
                stack.skip(T::stack_used(buffer.take(T::fixed_len() as int), stack).len() as int),
            )
        } else {
            false
        }
    } else if stack.len() == 0 {
        false
    } else if stack[0] == 0 {
        T::empty_decodable() && seq_decodable::<T>(buffer, stack.drop_first())
    } else if stack[0] <= buffer.len() {
        T::decodable(buffer.take(stack[0] as int), stack.drop_first()) && seq_decodable::<T>(
            buffer.skip(stack[0] as int),
            stack.drop_first().skip(
                T::stack_used(buffer.take(stack[0] as int), stack.drop_first()).len() as int,
            ),
        )
    } else {
        false
    }
}

/// The length-stack prefix the run consumes when it reads back.
pub open spec fn seq_stack_used<T: BinaryConvertable>(buffer: Seq<u8>, stack: Seq<usize>) -> Seq<
    usize,
>
    decreases buffer.len(), stack.len(),
{
    if buffer.len() == 0 {
        Seq::empty()
    } else if T::fixed() {
        if 0 < T::fixed_len() <= buffer.len() {
            let used = T::stack_used(buffer.take(T::fixed_len() as int), stack);
            used + seq_stack_used::<T>(
                buffer.skip(T::fixed_len() as int),
                stack.skip(used.len() as int),
            )
        } else {
            Seq::empty()
        }
    } else if stack.len() == 0 {
        Seq::empty()
    } else if stack[0] == 0 {
        seq![0usize] + seq_stack_used::<T>(buffer, stack.drop_first())
    } else if stack[0] <= buffer.len() {
        let used = T::stack_used(buffer.take(stack[0] as int), stack.drop_first());
        seq![stack[0]] + used + seq_stack_used::<T>(
            buffer.skip(stack[0] as int),
            stack.drop_first().skip(used.len() as int),
        )
    } else {
        Seq::empty()
    }
}

impl<T: BinaryConvertable> BinaryConvertable for Vec<T> {
    open spec fn fixed() -> bool {
        false
    }

    open spec fn fixed_len() -> nat {
        0
    }

    open spec fn encoded(&self) -> Seq<u8> {
        seq_encoded(self@)
    }

    open spec fn lengths(&self) -> Seq<usize> {
        seq_lengths(self@)
    }

    open spec fn encodable(&self) -> bool {
        seq_encodable(self@)
    }

    open spec fn decodable(buffer: Seq<u8>, stack: Seq<usize>) -> bool {
        seq_decodable::<T>(buffer, stack)
    }

    open spec fn stack_used(buffer: Seq<u8>, stack: Seq<usize>) -> Seq<usize> {
        seq_stack_used::<T>(buffer, stack)
    }

    open spec fn empty_decodable() -> bool {
        true
    }

    fn fixed_width() -> (r: usize) {
        0
    }

    #[verifier::loop_isolation(false)]
    fn size(&self) -> (r: usize) {
        let mut acc: usize = 0;
        let mut i: usize = 0;
        proof {
            assert(self@.take(0) =~= Seq::<T>::empty());
        }
        while i < self.len()
            invariant
                i <= self@.len(),
                acc as nat == seq_encoded(self@.take(i as int)).len(),
            decreases self@.len() - i,
        {
            proof {
                lemma_seq_encoded_take(self@, i as int);
                lemma_seq_encoded_prefix_le(self@, i + 1 as int);
            }
            let item_size = self[i].size();
            acc = acc + item_size;
            i = i + 1;
        }
        proof {
            assert(self@.take(self@.len() as int) =~= self@);
        }
        acc
    }

    fn len_params() -> (r: usize) {
        1
    }

    #[verifier::loop_isolation(false)]
    fn to_bytes(&self, buffer: &mut Vec<u8>, length_stack: &mut VecDeque<usize>) -> (r: Result<
        (),
        BinaryConvertError,
    >) {
        let mut i: usize = 0;
        proof {
            assert(self@.take(0) =~= Seq::<T>::empty());
            assert(buffer@ =~= old(buffer)@ + seq_encoded(self@.take(0)));
            assert(length_stack@ =~= old(length_stack)@ + seq_lengths(self@.take(0)));
        }
        while i < self.len()
            invariant
                i <= self@.len(),
                buffer@ == old(buffer)@ + seq_encoded(self@.take(i as int)),
                length_stack@ == old(length_stack)@ + seq_lengths(self@.take(i as int)),
                seq_encodable(self@.take(i as int)),
            decreases self@.len() - i,
        {
            proof {
                lemma_seq_encoded_take(self@, i as int);
                lemma_seq_encoded_prefix_le(self@, i + 1 as int);
            }
            let next_size: usize;
            if T::len_params() == 0 {
                next_size = T::fixed_width();
                proof {
                    assert(self@[i as int].encoded().len() == T::fixed_len());
                }
            } else {
                let item_size = self[i].size();
                length_stack.push_back(item_size);
                next_size = item_size;
            }
            if next_size > 0 {
                match self[i].to_bytes(buffer, length_stack) {
                    Ok(()) => {},
                    Err(e) => {
                        proof {
                            assert(!self@[i as int].encodable());
                            assert(!seq_encodable(self@));
                        }
                        return Err(e);
                    },
                }
            }
            proof {
                assert(buffer@ =~= old(buffer)@ + seq_encoded(self@.take(i + 1)));
                assert(length_stack@ =~= old(length_stack)@ + seq_lengths(self@.take(i + 1)));
                assert(seq_encodable(self@.take(i + 1))) by {
                    assert(forall|j: int| 0 <= j < i + 1 ==> self@.take(i + 1)[j]
                        == self@.take(i as int).push(self@[i as int])[j]);
                }
            }
            i = i + 1;
        }
        proof {
            assert(self@.take(self@.len() as int) =~= self@);
            assert(seq_encodable(self@));
        }
        Ok(())
    }

    #[verifier::loop_isolation(false)]
    #[verifier::rlimit(100)]
    fn from_bytes(buffer: &Vec<u8>, length_stack: &mut VecDeque<usize>) -> (r: Result<
        Self,
        BinaryConvertError,
    >) {
        let mut result: Vec<T> = Vec::new();
        if buffer.len() == 0 {
            proof {
                assert(seq_encoded(result@) =~= buffer@);
                assert(seq_lengths(result@) =~= Seq::<usize>::empty());
                assert(old(length_stack)@ == seq_lengths(result@) + final(length_stack)@);
            }
            return Ok(result);
        }
        let mut index: usize = 0;
        proof {
            assert(buffer@.skip(0) =~= buffer@);
            assert(seq_lengths(result@) =~= Seq::<usize>::empty());
            assert(seq_lengths(result@) + old(length_stack)@ =~= old(length_stack)@);
        }
        while index < buffer.len()
            invariant
                index <= buffer@.len(),
                seq_encoded(result@) == buffer@.subrange(0, index as int),
                old(length_stack)@ == seq_lengths(result@) + length_stack@,
                seq_decodable::<T>(buffer@, old(length_stack)@) == seq_decodable::<T>(
                    buffer@.skip(index as int),
                    length_stack@,
                ),
                seq_decodable::<T>(buffer@.skip(index as int), length_stack@)
                    ==> seq_stack_used::<T>(buffer@, old(length_stack)@) == seq_lengths(result@)
                    + seq_stack_used::<T>(buffer@.skip(index as int), length_stack@),
            decreases buffer@.len() - index, length_stack@.len(),
        {
            let ghost result_pre = result@;
            let ghost ls_entry = length_stack@;
            let ghost rem = buffer@.skip(index as int);
            let next_size: usize;
            if T::len_params() == 0 {
                next_size = T::fixed_width();
            } else {
                match length_stack.pop_front() {
                    Some(l) => {
                        next_size = l;
                    },
                    None => {
                        proof {
                            assert(!seq_decodable::<T>(rem, ls_entry));
                        }
                        return Err(BinaryConvertError);
                    },
                }
            }
            if next_size == 0 {
                if T::len_params() == 0 {
                    return Err(BinaryConvertError);
                }
                proof {
                    assert(ls_entry[0] == 0);
                    assert(ls_entry =~= seq![0usize] + length_stack@);
                    assert(ls_entry.drop_first() =~= length_stack@);
                }
                match T::from_empty_bytes() {
                    Ok(item) => {
                        proof {
                            assert(item_lengths(item) =~= seq![0usize]);
                        }
                        result.push(item);
                        proof {
                            assert(result@.drop_last() =~= result_pre);
                            assert(result@.last() == item);
                            assert(seq_lengths(result@)
                                == seq_lengths(result_pre) + item_lengths(item));
                            assert(seq_encoded(result@) =~= buffer@.subrange(0, index as int));
                            assert(seq_lengths(result_pre) + ls_entry
                                =~= seq_lengths(result@) + length_stack@);
                            assert(seq_decodable::<T>(rem, ls_entry) == seq_decodable::<T>(
                                rem,
                                length_stack@,
                            ));
                            if seq_decodable::<T>(rem, length_stack@) {
                                assert(seq_stack_used::<T>(rem, ls_entry) =~= seq![0usize]
                                    + seq_stack_used::<T>(rem, length_stack@));
                                assert(seq_lengths(result_pre) + seq_stack_used::<T>(
                                    rem,
                                    ls_entry,
                                ) =~= seq_lengths(result@) + seq_stack_used::<T>(
                                    rem,
                                    length_stack@,
                                ));
                            }
                        }
                    },
                    Err(e) => {
                        proof {
                            assert(!seq_decodable::<T>(rem, ls_entry));
                        }
                        return Err(e);
                    },
                }
            } else {
                proof {
                    if T::fixed() {
                        assert(next_size as nat == T::fixed_len());
                    } else {
                        assert(ls_entry[0] == next_size);
                        assert(ls_entry.drop_first() =~= length_stack@);
                    }
                }
                if next_size > buffer.len() - index {
                    proof {
                        assert(rem.len() < next_size);
                        assert(!seq_decodable::<T>(rem, ls_entry));
                    }
                    return Err(BinaryConvertError);
                }
                let sub = copy_range(buffer, index, index + next_size);
                proof {
                    assert(sub@ =~= rem.take(next_size as int));
                }
                let ghost ls_mid = length_stack@;
                match T::from_bytes(&sub, length_stack) {
                    Ok(item) => {
                        proof {
                            assert(item.lengths() == T::stack_used(sub@, ls_mid));
                            assert(length_stack@ =~= ls_mid.skip(item.lengths().len() as int));
                        }
                        result.push(item);
                        proof {
                            assert(result@.drop_last() =~= result_pre);
                            assert(result@.last() == item);
                            assert(item.encoded().len() == next_size);
                            assert(seq_lengths(result@)
                                == seq_lengths(result_pre) + item_lengths(item));
                            assert(seq_encoded(result@)
                                =~= buffer@.subrange(0, (index + next_size) as int));
                            assert(rem.skip(next_size as int) =~= buffer@.subrange(
                                (index + next_size) as int,
                                buffer@.len() as int,
                            ));
                            if T::fixed() {
                                assert(item_lengths(item) =~= item.lengths());
                                assert(seq_lengths(result_pre) + ls_entry
                                    =~= seq_lengths(result@) + length_stack@);
                                assert(seq_decodable::<T>(rem, ls_entry) == seq_decodable::<
                                    T,
                                >(rem.skip(next_size as int), length_stack@));
                                if seq_decodable::<T>(rem.skip(next_size as int), length_stack@) {
                                    assert(seq_stack_used::<T>(rem, ls_entry) =~= item.lengths()
                                        + seq_stack_used::<T>(
                                        rem.skip(next_size as int),
                                        length_stack@,
                                    ));
                                    assert(seq_lengths(result_pre) + seq_stack_used::<T>(
                                        rem,
                                        ls_entry,
                                    ) =~= seq_lengths(result@) + seq_stack_used::<T>(
                                        rem.skip(next_size as int),
                                        length_stack@,
                                    ));
                                }
                            } else {
                                assert(item_lengths(item)
                                    =~= seq![next_size] + item.lengths());
                                assert(ls_entry =~= seq![next_size] + ls_mid);
                                assert(ls_mid =~= item.lengths() + length_stack@);
                                assert(seq_lengths(result_pre) + ls_entry
                                    =~= seq_lengths(result@) + length_stack@);
                                assert(seq_decodable::<T>(rem, ls_entry) == seq_decodable::<
                                    T,
                                >(rem.skip(next_size as int), length_stack@));
                                if seq_decodable::<T>(rem.skip(next_size as int), length_stack@) {
                                    assert(seq_stack_used::<T>(rem, ls_entry) =~= seq![next_size]
                                        + item.lengths() + seq_stack_used::<T>(
                                        rem.skip(next_size as int),
                                        length_stack@,
                                    ));
                                    assert(seq_lengths(result_pre) + seq_stack_used::<T>(
                                        rem,
                                        ls_entry,
                                    ) =~= seq_lengths(result@) + seq_stack_used::<T>(
                                        rem.skip(next_size as int),
                                        length_stack@,
                                    ));
                                }
                            }
                        }
                    },
                    Err(e) => {
                        proof {
                            assert(!seq_decodable::<T>(rem, ls_entry));
                        }
                        return Err(e);
                    },
                }
                index = index + next_size;
            }
        }
        proof {
            assert(buffer@.subrange(0, buffer@.len() as int) =~= buffer@);
            assert(buffer@.skip(index as int).len() == 0);
            assert(seq_decodable::<T>(buffer@.skip(index as int), length_stack@));
            assert(seq_stack_used::<T>(buffer@.skip(index as int), length_stack@)
                =~= Seq::<usize>::empty());
            assert(seq_lengths(result@) + Seq::<usize>::empty() =~= seq_lengths(result@));
        }
        Ok(result)
    }

    fn from_empty_bytes() -> (r: Result<Self, BinaryConvertError>) {
        let v: Vec<T> = Vec::new();
        proof {
            assert(seq_encoded(v@) =~= Seq::<u8>::empty());
            assert(seq_lengths(v@) =~= Seq::<usize>::empty());
        }
        Ok(v)
    }
}

impl<R: BinaryConvertable, E: BinaryConvertable> BinaryConvertable for Result<R, E> {
    open spec fn fixed() -> bool {
        false
    }

    open spec fn fixed_len() -> nat {
        0
    }

    open spec fn encoded(&self) -> Seq<u8> {
        match self {
            Ok(v) => seq![0u8] + v.encoded(),
            Err(e) => seq![1u8] + e.encoded(),
        }
    }

    open spec fn lengths(&self) -> Seq<usize> {
        match self {
            Ok(v) => if v.encoded().len() == 0 {
                Seq::empty()
            } else {
                v.lengths()
            },
            Err(e) => if e.encoded().len() == 0 {
                Seq::empty()
            } else {
                e.lengths()
            },
        }
    }

    open spec fn encodable(&self) -> bool {
        match self {
            Ok(v) => v.encoded().len() == 0 || v.encodable(),
            Err(e) => e.encoded().len() == 0 || e.encodable(),
        }
    }

    open spec fn decodable(buffer: Seq<u8>, stack: Seq<usize>) -> bool {
        if buffer.len() >= 1 && buffer[0] == 0 {
            if buffer.len() == 1 {
                R::empty_decodable()
            } else {
                R::decodable(buffer.skip(1), stack)
            }
        } else if buffer.len() >= 1 && buffer[0] == 1 {
            E::decodable(buffer.skip(1), stack)
        } else {
            false
        }
    }

    open spec fn stack_used(buffer: Seq<u8>, stack: Seq<usize>) -> Seq<usize> {
        if buffer.len() > 1 && buffer[0] == 0 {
            R::stack_used(buffer.skip(1), stack)
        } else if buffer.len() >= 1 && buffer[0] == 1 {
            E::stack_used(buffer.skip(1), stack)
        } else {
            Seq::empty()
        }
    }

    open spec fn empty_decodable() -> bool {
        false
    }

    fn fixed_width() -> (r: usize) {
        0
    }

    fn size(&self) -> (r: usize) {
        let payload = match self {
            Ok(v) => v.size(),
            Err(e) => e.size(),
        };
        1 + payload
    }

    fn len_params() -> (r: usize) {
        1
    }

    fn to_bytes(&self, buffer: &mut Vec<u8>, length_stack: &mut VecDeque<usize>) -> (r: Result<
        (),
        BinaryConvertError,
    >) {
        match self {
            Ok(v) => {
                buffer.push(0u8);
                if v.size() > 0 {
                    match v.to_bytes(buffer, length_stack) {
                        Ok(()) => {},
                        Err(e2) => {
                            return Err(e2);
                        },
                    }
                    proof {
                        assert(final(buffer)@ =~= old(buffer)@ + self.encoded());
                    }
                    Ok(())
                } else {
                    proof {
                        assert(final(buffer)@ =~= old(buffer)@ + self.encoded());
                        assert(final(length_stack)@ == old(length_stack)@ + self.lengths());
                    }
                    Ok(())
                }
            },
            Err(e) => {
                buffer.push(1u8);
                if e.size() > 0 {
                    match e.to_bytes(buffer, length_stack) {
                        Ok(()) => {},
                        Err(e2) => {
                            return Err(e2);
                        },
                    }
                    proof {
                        assert(final(buffer)@ =~= old(buffer)@ + self.encoded());
                    }
                    Ok(())
                } else {
                    proof {
                        assert(final(buffer)@ =~= old(buffer)@ + self.encoded());
                        assert(final(length_stack)@ == old(length_stack)@ + self.lengths());
                    }
                    Ok(())
                }
            },
        }
    }

    fn from_bytes(buffer: &Vec<u8>, length_stack: &mut VecDeque<usize>) -> (r: Result<
        Self,
        BinaryConvertError,
    >) {
        if buffer.len() == 0 {
            return Err(BinaryConvertError);
        }
        if buffer[0] == 0 {
            if buffer.len() == 1 {
                match R::from_empty_bytes() {
                    Ok(v) => {
                        proof {
                            let me: Result<R, E> = Ok(v);
                            assert(me.encoded() =~= buffer@);
                        }
                        Ok(Ok(v))
                    },
                    Err(e2) => Err(e2),
                }
            } else {
                let sub = copy_range(buffer, 1, buffer.len());
                match R::from_bytes(&sub, length_stack) {
                    Ok(v) => {
                        proof {
                            let me: Result<R, E> = Ok(v);
                            assert(me.encoded() =~= buffer@);
                        }
                        Ok(Ok(v))
                    },
                    Err(e2) => Err(e2),
                }
            }
        } else if buffer[0] == 1 {
            let sub = copy_range(buffer, 1, buffer.len());
            match E::from_bytes(&sub, length_stack) {
                Ok(e) => {
                    proof {
                        let me: Result<R, E> = Err(e);
                        assert(me.encoded() =~= buffer@);
                    }
                    Ok(Err(e))
                },
                Err(e2) => Err(e2),
            }
        } else {
            Err(BinaryConvertError)
        }
    }

    fn from_empty_bytes() -> (r: Result<Self, BinaryConvertError>) {
        Err(BinaryConvertError)
    }
}

/// Relies on String::from_utf8: accepts exactly valid UTF-8 and returns
/// the string those bytes spell.
#[verifier::external_body]
fn string_from_utf8(bytes: Vec<u8>) -> (r: Result<String, BinaryConvertError>)
    ensures
        r matches Ok(s) ==> vstd::utf8::encode_utf8(s@) == bytes@,
        vstd::utf8::valid_utf8(bytes@) ==> r is Ok,
{
    match String::from_utf8(bytes) {
        Ok(s) => Ok(s),
        Err(_) => Err(BinaryConvertError),
    }
}

impl BinaryConvertable for String {
    open spec fn fixed() -> bool {
        false
    }

    open spec fn fixed_len() -> nat {
        0
    }

    open spec fn encoded(&self) -> Seq<u8> {
        vstd::utf8::encode_utf8(self@)
    }

    open spec fn lengths(&self) -> Seq<usize> {
        Seq::empty()
    }

    open spec fn encodable(&self) -> bool {
        true
    }

    open spec fn decodable(buffer: Seq<u8>, stack: Seq<usize>) -> bool {
        vstd::utf8::valid_utf8(buffer)
    }

    open spec fn stack_used(buffer: Seq<u8>, stack: Seq<usize>) -> Seq<usize> {
        Seq::empty()
    }

    open spec fn empty_decodable() -> bool {
        true
    }

    fn fixed_width() -> (r: usize) {
        0
    }

    fn size(&self) -> (r: usize) {
        self.as_str().len()
    }

    fn len_params() -> (r: usize) {
        1
    }

    fn to_bytes(&self, buffer: &mut Vec<u8>, length_stack: &mut VecDeque<usize>) -> (r: Result<
        (),
        BinaryConvertError,
    >) {
        let bytes = vstd::slice::slice_to_vec(self.as_str().as_bytes());
        push_all(buffer, &bytes);
        proof {
            assert(final(length_stack)@ == old(length_stack)@ + Seq::<usize>::empty());
        }
        Ok(())
    }

    fn from_bytes(buffer: &Vec<u8>, length_stack: &mut VecDeque<usize>) -> (r: Result<
        Self,
        BinaryConvertError,
    >) {
        let bytes = copy_range(buffer, 0, buffer.len());
        proof {
            assert(bytes@ =~= buffer@);
        }
        match string_from_utf8(bytes) {
            Ok(s) => {
                proof {
                    vstd::utf8::encode_utf8_valid_utf8(s@);
                    assert(old(length_stack)@ == s.lengths() + final(length_stack)@);
                }
                Ok(s)
            },
            Err(e) => Err(e),
        }
    }

    fn from_empty_bytes() -> (r: Result<Self, BinaryConvertError>) {
        let s = String::new();
        proof {
            assert(vstd::utf8::encode_utf8(Seq::<char>::empty()) =~= Seq::<u8>::empty());
        }
        Ok(s)
    }
}

/// The little-endian bytes of a run of stack entries, front first.
pub open spec fn lens_bytes(ls: Seq<usize>) -> Seq<u8>
    decreases ls,
{
    if ls.len() == 0 {
        Seq::empty()
    } else {
        lens_bytes(ls.drop_last()) + spec_u64_to_le_bytes(ls.last() as u64)
    }
}

/// The whole wire form of one value: fixed-width values are bare; others
/// carry the length-stack count, the entries, the payload size, and the
/// payload; an empty payload is two zero words.
pub open spec fn wire_of<T: BinaryConvertable>(t: T) -> Seq<u8> {
    if T::fixed() {
        t.encoded()
    } else if t.encoded().len() == 0 {
        Seq::new(16, |i: int| 0u8)
    } else {
        spec_u64_to_le_bytes(t.lengths().len() as u64) + lens_bytes(t.lengths())
            + spec_u64_to_le_bytes(t.encoded().len() as u64) + t.encoded()
    }
}

/// Appending a stack entry appends its word.
proof fn lemma_lens_bytes_push(ls: Seq<usize>, l: usize)
    ensures
        lens_bytes(ls.push(l)) == lens_bytes(ls) + spec_u64_to_le_bytes(l as u64),
{
    assert(ls.push(l).drop_last() =~= ls);
    assert(ls.push(l).last() == l);
}

/// Writes the whole wire form of `t` after whatever `w` already holds.
#[verifier::loop_isolation(false)]
pub fn serialize_into<T: BinaryConvertable>(t: &T, w: &mut Vec<u8>) -> (r: Result<
    (),
    BinaryConvertError,
>)
    requires
        t.encoded().len() <= usize::MAX,
    ensures
        r is Ok <==> (if T::fixed() {
            t.encodable()
        } else {
            t.encoded().len() == 0 || t.encodable()
        }),
        r is Ok ==> final(w)@ == old(w)@ + wire_of(*t),
        r is Err ==> final(w)@ == old(w)@,
{
    let mut length_stack: VecDeque<usize> = VecDeque::new();
    if T::len_params() == 0 {
        let mut buf: Vec<u8> = Vec::new();
        match t.to_bytes(&mut buf, &mut length_stack) {
            Ok(()) => {},
            Err(e) => {
                return Err(e);
            },
        }
        push_all(w, &buf);
        return Ok(());
    }
    let size = t.size();
    if size == 0 {
        let mut i: usize = 0;
        while i < 16
            invariant
                i <= 16,
                w@ == old(w)@ + Seq::new(i as nat, |j: int| 0u8),
            decreases 16 - i,
        {
            w.push(0u8);
            proof {
                assert(w@ =~= old(w)@ + Seq::new((i + 1) as nat, |j: int| 0u8));
            }
            i = i + 1;
        }
        return Ok(());
    }
    let mut buf: Vec<u8> = Vec::new();
    match t.to_bytes(&mut buf, &mut length_stack) {
        Ok(()) => {},
        Err(e) => {
            return Err(e);
        },
    }
    let ghost all_lens = t.lengths();
    let stack_len = length_stack.len();
    let head = u64_to_le_bytes(stack_len as u64);
    push_all(w, &head);
    let ghost mut written: int = 0;
    proof {
        assert(all_lens.take(0) =~= Seq::<usize>::empty());
    }
    let mut k: usize = 0;
    while k < stack_len
        invariant
            k <= stack_len,
            stack_len == all_lens.len(),
            length_stack@ == all_lens.skip(k as int),
            w@ == old(w)@ + spec_u64_to_le_bytes(all_lens.len() as u64) + lens_bytes(
                all_lens.take(k as int),
            ),
        decreases stack_len - k,
    {
        let l = match length_stack.pop_front() {
            Some(l) => l,
            None => {
                proof {
                    assert(false);
                }
                return Err(BinaryConvertError);
            },
        };
        proof {
            assert(l == all_lens[k as int]);
            assert(all_lens.skip(k as int).subrange(1, all_lens.skip(k as int).len() as int)
                =~= all_lens.skip(k as int + 1));
        }
        let word = u64_to_le_bytes(l as u64);
        push_all(w, &word);
        proof {
            assert(all_lens.take(k as int + 1) =~= all_lens.take(k as int).push(
                all_lens[k as int],
            ));
            lemma_lens_bytes_push(all_lens.take(k as int), all_lens[k as int]);
            assert(w@ =~= old(w)@ + spec_u64_to_le_bytes(all_lens.len() as u64) + lens_bytes(
                all_lens.take(k as int + 1),
            ));
        }
        k = k + 1;
    }
    proof {
        assert(all_lens.take(all_lens.len() as int) =~= all_lens);
    }
    let size_word = u64_to_le_bytes(size as u64);
    push_all(w, &size_word);
    push_all(w, &buf);
    proof {
        assert(final(w)@ =~= old(w)@ + wire_of(*t));
    }
    Ok(())
}

/// The wire form of one value as fresh bytes.
pub fn serialize<T: BinaryConvertable>(t: &T) -> (r: Result<Vec<u8>, BinaryConvertError>)
    requires
        t.encoded().len() <= usize::MAX,
    ensures
        r is Ok <==> (if T::fixed() {
            t.encodable()
        } else {
            t.encoded().len() == 0 || t.encodable()
        }),
        r matches Ok(v) ==> v@ == wire_of(*t),
{
    let mut w: Vec<u8> = Vec::new();
    match serialize_into(t, &mut w) {
        Ok(()) => {
            proof {
                assert(Seq::<u8>::empty() + wire_of(*t) =~= wire_of(*t));
            }
            Ok(w)
        },
        Err(e) => Err(e),
    }
}

/// The header of a variable-width wire form: the stack entries, the
/// announced payload size, and the payload bytes after the header.
pub open spec fn wire_parts(buffer: Seq<u8>) -> Option<(Seq<usize>, nat, Seq<u8>)> {
    if buffer.len() < 16 {
        None
    } else {
        let sl = spec_u64_from_le_bytes(buffer.subrange(0, 8)) as nat;
        if buffer.len() < 16 + 8 * sl {
            None
        } else {
            Some(
                (
                    Seq::new(
                        sl,
                        |i: int| spec_u64_from_le_bytes(
                            buffer.subrange(8 + 8 * i, 16 + 8 * i),
                        ) as usize,
                    ),
                    spec_u64_from_le_bytes(
                        buffer.subrange((8 + 8 * sl) as int, (16 + 8 * sl) as int),
                    ) as nat,
                    buffer.skip((16 + 8 * sl) as int),
                ),
            )
        }
    }
}

/// Whether a whole wire form reads back as a value of `T`: the header
/// fits, every announced length fits the machine, and the payload reads
/// back under the announced lengths.
pub open spec fn deserializable<T: BinaryConvertable>(buffer: Seq<u8>) -> bool {
    if T::fixed() {
        T::decodable(buffer, Seq::empty())
    } else {
        match wire_parts(buffer) {
            None => false,
            Some(parts) => {
                &&& forall|i: int| 0 <= i < parts.0.len() ==> spec_u64_from_le_bytes(
                    #[trigger] buffer.subrange(8 + 8 * i, 16 + 8 * i),
                ) <= usize::MAX as u64
                &&& if parts.1 == 0 {
                    T::empty_decodable()
                } else {
                    T::decodable(parts.2, parts.0)
                }
            },
        }
    }
}

/// Reads one value out of its whole wire form: succeeds exactly on the
/// forms that read back.
#[verifier::loop_isolation(false)]
#[verifier::rlimit(50)]
pub fn deserialize<T: BinaryConvertable>(buffer: &Vec<u8>) -> (r: Result<T, BinaryConvertError>)
    ensures
        r is Ok <==> deserializable::<T>(buffer@),
        T::fixed() ==> (r matches Ok(v) ==> v.encoded() == buffer@),
        !T::fixed() ==> (r matches Ok(v) ==> (wire_parts(buffer@) matches Some(parts) && {
            &&& parts.1 == 0 ==> v.encoded() == Seq::<u8>::empty() && v.lengths() == Seq::<
                usize,
            >::empty()
            &&& parts.1 != 0 ==> v.encoded() == parts.2 && v.lengths() == parts.0.take(
                v.lengths().len() as int,
            )
        })),
{
    proof {
        vstd::std_specs::vec::axiom_spec_len(buffer);
        lemma_auto_spec_u64_to_from_le_bytes();
    }
    let mut length_stack: VecDeque<usize> = VecDeque::new();
    if T::len_params() == 0 {
        return T::from_bytes(buffer, &mut length_stack);
    }
    if buffer.len() < 16 {
        return Err(BinaryConvertError);
    }
    let head = copy_range(buffer, 0, 8);
    let sl64 = u64_from_le_bytes(head.as_slice());
    if sl64 > ((buffer.len() - 16) / 8) as u64 {
        proof {
            assert(8 * (sl64 as nat) > buffer@.len() - 16) by (nonlinear_arith)
                requires
                    sl64 as nat > (buffer@.len() - 16) as nat / 8,
                    buffer@.len() >= 16,
            ;
            assert(wire_parts(buffer@) is None);
        }
        return Err(BinaryConvertError);
    }
    let sl = sl64 as usize;
    proof {
        assert(16 + 8 * (sl as nat) <= buffer@.len()) by (nonlinear_arith)
            requires
                sl as nat <= (buffer@.len() - 16) as nat / 8,
                buffer@.len() >= 16,
        ;
    }
    let ghost parts = wire_parts(buffer@)->0;
    let mut k: usize = 0;
    while k < sl
        invariant
            k <= sl,
            16 + 8 * sl <= buffer@.len(),
            sl as nat == parts.0.len(),
            wire_parts(buffer@) is Some,
            parts == wire_parts(buffer@)->0,
            length_stack@ == parts.0.take(k as int),
            forall|j: int| 0 <= j < k ==> spec_u64_from_le_bytes(
                #[trigger] buffer@.subrange(8 + 8 * j, 16 + 8 * j),
            ) <= usize::MAX as u64,
        decreases sl - k,
    {
        let word = copy_range(buffer, 8 + 8 * k, 16 + 8 * k);
        let l64 = u64_from_le_bytes(word.as_slice());
        if l64 > (usize::MAX as u64) {
            return Err(BinaryConvertError);
        }
        length_stack.push_back(l64 as usize);
        proof {
            assert(parts.0.take(k as int + 1) =~= parts.0.take(k as int).push(
                parts.0[k as int],
            ));
            assert(length_stack@ =~= parts.0.take(k as int + 1));
        }
        k = k + 1;
    }
    proof {
        assert(parts.0.take(sl as int) =~= parts.0);
    }
    let size_word = copy_range(buffer, 8 + 8 * sl, 16 + 8 * sl);
    let size64 = u64_from_le_bytes(size_word.as_slice());
    if size64 == 0 {
        return T::from_empty_bytes();
    }
    let payload = copy_range(buffer, 16 + 8 * sl, buffer.len());
    proof {
        assert(payload@ =~= parts.2);
    }
    match T::from_bytes(&payload, &mut length_stack) {
        Ok(v) => {
            proof {
                assert(parts.0 == v.lengths() + length_stack@);
                assert(v.lengths() =~= parts.0.take(v.lengths().len() as int));
            }
            Ok(v)
        },
        Err(e) => Err(e),
    }
}

/// The least key of a key set, where one exists.
pub open spec fn min_key(dom: Set<u64>) -> u64 {
    choose|k: u64| dom.contains(k) && (forall|j: u64| dom.contains(j) ==> k <= j)
}

/// The pairs of a map in ascending key order: repeatedly the least key.
pub open spec fn sorted_pairs_of(m: Map<u64, u64>) -> Seq<(u64, u64)>
    decreases m.dom().len() when m.dom().finite()
{
    if m.dom().finite() && m.dom().len() > 0 {
        let k = min_key(m.dom());
        if m.dom().contains(k) {
            seq![(k, m[k])] + sorted_pairs_of(m.remove(k))
        } else {
            Seq::empty()
        }
    } else {
        Seq::empty()
    }
}

/// The payload of a map: each pair's key and value as little-endian
/// words, ascending by key.
pub open spec fn pairs_bytes(ps: Seq<(u64, u64)>) -> Seq<u8>
    decreases ps,
{
    if ps.len() == 0 {
        Seq::empty()
    } else {
        pairs_bytes(ps.drop_last()) + spec_u64_to_le_bytes(ps.last().0) + spec_u64_to_le_bytes(
            ps.last().1,
        )
    }
}

/// Relies on BTreeMap::iter: yields the map's pairs in ascending key
/// order, which is exactly the least-key-first enumeration.
#[verifier::external_body]
fn btree_pairs(m: &BTreeMap<u64, u64>) -> (r: Vec<(u64, u64)>)
    ensures
        r@ == sorted_pairs_of(m@),
{
    m.iter().map(|(k, v)| (*k, *v)).collect()
}

/// Writes the wire form of a map of words after whatever `w` holds: the
/// two-word header of a value with no length stack, then the pairs in
/// ascending key order.
#[verifier::loop_isolation(false)]
#[verifier::rlimit(60)]
pub fn serialize_btree(m: &BTreeMap<u64, u64>, w: &mut Vec<u8>)
    ensures
        final(w)@ == old(w)@ + (if sorted_pairs_of(m@).len() == 0 {
            Seq::new(16, |i: int| 0u8)
        } else {
            spec_u64_to_le_bytes(0u64) + spec_u64_to_le_bytes(
                pairs_bytes(sorted_pairs_of(m@)).len() as u64,
            ) + pairs_bytes(sorted_pairs_of(m@))
        }),
{
    let pairs = btree_pairs(m);
    let ghost all = sorted_pairs_of(m@);
    let mut payload: Vec<u8> = Vec::new();
    let mut i: usize = 0;
    proof {
        assert(pairs_bytes(all.take(0)) =~= Seq::<u8>::empty());
    }
    while i < pairs.len()
        invariant
            i <= pairs@.len(),
            pairs@ == all,
            payload@ == pairs_bytes(all.take(i as int)),
        decreases pairs@.len() - i,
    {
        let kw = u64_to_le_bytes(pairs[i].0);
        push_all(&mut payload, &kw);
        let vw = u64_to_le_bytes(pairs[i].1);
        push_all(&mut payload, &vw);
        proof {
            assert(all.take(i as int + 1).drop_last() =~= all.take(i as int));
            assert(all.take(i as int + 1).last() == all[i as int]);
        }
        i = i + 1;
    }
    proof {
        assert(all.take(all.len() as int) =~= all);
    }
    if payload.len() == 0 {
        let mut j: usize = 0;
        while j < 16
            invariant
                j <= 16,
                w@ == old(w)@ + Seq::new(j as nat, |x: int| 0u8),
            decreases 16 - j,
        {
            w.push(0u8);
            proof {
                assert(w@ =~= old(w)@ + Seq::new((j + 1) as nat, |x: int| 0u8));
            }
            j = j + 1;
        }
        proof {
            if all.len() > 0 {
                crate::rlp::lemma_pow256_8();
                assert(pairs_bytes(all).len() > 0) by {
                    assert(pairs_bytes(all.drop_last()).len() >= 0);
                    vstd::bytes::lemma_auto_spec_u64_to_from_le_bytes();
                }
                assert(false);
            }
        }
        return;
    }
    let zero = u64_to_le_bytes(0u64);
    push_all(w, &zero);
    let size_word = u64_to_le_bytes(payload.len() as u64);
    push_all(w, &size_word);
    push_all(w, &payload);
    proof {
        if all.len() == 0 {
            assert(payload@.len() == 0);
            assert(false);
        }
    }
}

/// The key word of the pair at position `i` of a map payload.
pub open spec fn pair_key_at(payload: Seq<u8>, i: int) -> u64 {
    spec_u64_from_le_bytes(payload.subrange(16 * i, 16 * i + 8))
}

/// The value word beside the key at position `i` of a map payload.
pub open spec fn pair_val_at(payload: Seq<u8>, i: int) -> u64 {
    spec_u64_from_le_bytes(payload.subrange(16 * i + 8, 16 * i + 16))
}

/// A well-formed map wire form: the header fits, announces no length
/// stack, and the payload is whole pairs (or announced empty).
pub open spec fn btree_wire_ok(buffer: Seq<u8>) -> bool {
    &&& buffer.len() >= 16
    &&& spec_u64_from_le_bytes(buffer.subrange(0, 8)) == 0
    &&& (spec_u64_from_le_bytes(buffer.subrange(8, 16)) == 0 || buffer.skip(16).len() % 16 == 0)
}

/// Reads a map of words back out of its whole wire form: the two-word
/// header, then key and value words until the payload ends.  Succeeds
/// exactly on well-formed forms; every read key is in the map and maps
/// to the value word beside its last occurrence; every key of the map
/// was read.
#[verifier::loop_isolation(false)]
#[verifier::rlimit(50)]
pub fn deserialize_btree(buffer: &Vec<u8>) -> (r: Result<BTreeMap<u64, u64>, BinaryConvertError>)
    ensures
        r is Ok <==> btree_wire_ok(buffer@),
        r matches Ok(m) ==> (wire_parts(buffer@) matches Some(parts) && {
            let n = parts.2.len() as int / 16;
            &&& parts.1 == 0 ==> m@.dom() =~= Set::<u64>::empty()
            &&& parts.1 != 0 ==> {
                &&& forall|i: int| 0 <= i < n ==> m@.dom().contains(
                    #[trigger] pair_key_at(parts.2, i),
                )
                &&& forall|i: int| 0 <= i < n ==> ((forall|j: int| i < j < n ==> pair_key_at(
                    parts.2,
                    j,
                ) != pair_key_at(parts.2, i)) ==> m@.contains_pair(
                    #[trigger] pair_key_at(parts.2, i),
                    pair_val_at(parts.2, i),
                ))
                &&& forall|k: u64| m@.dom().contains(k) ==> exists|i: int| 0 <= i < n
                    && #[trigger] pair_key_at(parts.2, i) == k
            }
        }),
{
    proof {
        vstd::std_specs::vec::axiom_spec_len(buffer);
        lemma_auto_spec_u64_to_from_le_bytes();
    }
    if buffer.len() < 16 {
        return Err(BinaryConvertError);
    }
    let head = copy_range(buffer, 0, 8);
    let sl64 = u64_from_le_bytes(head.as_slice());
    if sl64 != 0 {
        return Err(BinaryConvertError);
    }
    let ghost parts = wire_parts(buffer@)->0;
    proof {
        assert(parts.0 =~= Seq::<usize>::empty());
    }
    let size_word = copy_range(buffer, 8, 16);
    let size64 = u64_from_le_bytes(size_word.as_slice());
    let mut result: BTreeMap<u64, u64> = BTreeMap::new();
    if size64 == 0 {
        return Ok(result);
    }
    let payload = copy_range(buffer, 16, buffer.len());
    proof {
        assert(payload@ =~= parts.2);
        assert(payload@ =~= buffer@.skip(16));
    }
    if payload.len() % 16 != 0 {
        return Err(BinaryConvertError);
    }
    let n = payload.len() / 16;
    let mut i: usize = 0;
    while i < n
        invariant
            i <= n,
            n == payload@.len() / 16,
            payload@.len() % 16 == 0,
            payload@ == parts.2,
            16 * n <= payload@.len(),
            forall|j: int| 0 <= j < i ==> result@.dom().contains(
                #[trigger] pair_key_at(parts.2, j),
            ),
            forall|j: int| 0 <= j < i ==> ((forall|j2: int| j < j2 < i ==> pair_key_at(
                parts.2,
                j2,
            ) != pair_key_at(parts.2, j)) ==> result@.contains_pair(
                #[trigger] pair_key_at(parts.2, j),
                pair_val_at(parts.2, j),
            )),
            forall|k: u64| result@.dom().contains(k) ==> exists|j: int| 0 <= j < i
                && #[trigger] pair_key_at(parts.2, j) == k,
        decreases n - i,
    {
        let kw = copy_range(&payload, 16 * i, 16 * i + 8);
        let k = u64_from_le_bytes(kw.as_slice());
        let vw = copy_range(&payload, 16 * i + 8, 16 * i + 16);
        let v = u64_from_le_bytes(vw.as_slice());
        proof {
            assert(k == pair_key_at(parts.2, i as int));
            assert(v == pair_val_at(parts.2, i as int));
        }
        result.insert(k, v);
        i = i + 1;
    }
    Ok(result)
}

} // verus!
