//! Memory and debugging utility functions.
//!
//! This module contains miscellaneous operations used by this library.
use crate::bitseqops::byte_bit;
use vstd::prelude::*;

verus! {

/// Given a byte slice, create a new owned copy of that slice
pub fn copy_slice_into_box(src: &[u8]) -> (dst: Vec<u8>)
    ensures
        dst@ == src@,
{
    let mut dst: Vec<u8> = Vec::with_capacity(src.len());
    let mut i: usize = 0;
    while i < src.len()
        invariant
            i <= src@.len(),
            dst@ == src@.take(i as int),
        decreases src@.len() - i,
    {
        dst.push(src[i]);
        i += 1;
        assert(dst@ =~= src@.take(i as int));
    }
    assert(src@.take(i as int) =~= src@);
    dst
}

/// Return whether two byte strings are the same
pub fn same_bytes(a: &[u8], b: &[u8]) -> (same: bool)
    ensures
        same == (a@ == b@),
{
    if a.len() != b.len() {
        return false;
    }
    let mut i: usize = 0;
    while i < a.len()
        invariant
            i <= a@.len(),
            a@.len() == b@.len(),
            forall|j: int| 0 <= j < i ==> a@[j] == b@[j],
        decreases a@.len() - i,
    {
        if a[i] != b[i] {
            return false;
        }
        i += 1;
    }
    assert(a@ =~= b@);
    true
}

/// A vector that is given by value or by reference
pub trait VecArg<X> {
    /// The elements of the vector.
    spec fn items(&self) -> Seq<X>;

    /// Return a reference to the vector
    fn as_vec(&self) -> (vec: &Vec<X>)
        ensures
            vec@ == self.items(),
    ;
}

impl<X> VecArg<X> for Vec<X> {
    open spec fn items(&self) -> Seq<X> {
        self@
    }

    fn as_vec(&self) -> (vec: &Vec<X>) {
        self
    }
}

impl<'v, X> VecArg<X> for &'v Vec<X> {
    open spec fn items(&self) -> Seq<X> {
        self@
    }

    fn as_vec(&self) -> (vec: &Vec<X>) {
        *self
    }
}

/// A shared reference to an [`Option`] that must be non-`None`
pub struct NonNone<'a, T>(&'a Option<T>);

impl<'a, T> NonNone<'a, T> {
    /// There is a value.
    #[verifier::type_invariant]
    spec fn occupied(self) -> bool {
        self.0 is Some
    }

    /// The option that is referred to.
    pub closed spec fn option(self) -> Option<T> {
        *self.0
    }

    /// Refer to an option, if it is non-`None`
    pub fn new(opt: &'a Option<T>) -> (out: Option<Self>)
        ensures
            match out {
                Some(found) => *opt is Some && found.option() == *opt,
                None => *opt is None,
            },
    {
        if opt.is_none() {
            return None;
        }
        Some(NonNone(opt))
    }

    /// Return a shared reference to the inner value
    pub fn get(&self) -> (value: &'a T)
        ensures
            self.option() == Some(*value),
    {
        proof {
            use_type_invariant(self);
        }
        match self.0 {
            Some(value) => value,
            None => vstd::pervasive::unreached(),
        }
    }

    /// Consume the [`NonNone`] and obtain its contents
    pub fn into_inner(self) -> (opt: &'a Option<T>)
        ensures
            *opt == self.option(),
            *opt is Some,
    {
        proof {
            use_type_invariant(&self);
        }
        self.0
    }
}

/// Return a mutable reference to the value of an option that is non-`None`
fn value_mut<'a, T>(opt: &'a mut Option<T>) -> (value: &'a mut T)
    requires
        *old(opt) is Some,
    ensures
        *old(opt) == Some(*value),
        *final(opt) == Some(*final(value)),
    no_unwind
{
    match opt {
        Some(value) => value,
        None => vstd::pervasive::unreached(),
    }
}

/// A mutable reference to an [`Option`] that must be non-`None`
pub struct NonNoneMut<'a, T>(&'a mut Option<T>);

impl<'a, T> NonNoneMut<'a, T> {
    /// There is a value.
    #[verifier::type_invariant]
    spec fn occupied(self) -> bool {
        *self.0 is Some
    }

    /// The reference that is held.
    pub closed spec fn option(self) -> &'a mut Option<T> {
        self.0
    }

    /// Refer to an option, if it is non-`None`
    pub fn new(opt: &'a mut Option<T>) -> (out: Option<Self>)
        ensures
            match out {
                Some(found) => {
                    &&& *old(opt) is Some
                    &&& *found.option() == *old(opt)
                    &&& *final(found.option()) == *final(opt)
                },
                None => *old(opt) is None && *final(opt) == *old(opt),
            },
    {
        if opt.is_none() {
            return None;
        }
        Some(NonNoneMut(opt))
    }

    /// Return a shared reference to the inner value as a reborrow
    pub fn reborrow_ref(&self) -> (value: &T)
        ensures
            *self.option() == Some(*value),
    {
        proof {
            use_type_invariant(self);
        }
        match &*self.0 {
            Some(value) => value,
            None => vstd::pervasive::unreached(),
        }
    }

    /// Return a mutable reference to the inner value as a reborrow
    pub fn reborrow_mut(&mut self) -> (value: &mut T)
        ensures
            *old(self).option() == Some(*value),
            *final(self).option() == Some(*final(value)),
            *final(final(self).option()) == *final(old(self).option()),
    {
        proof {
            use_type_invariant(&*self);
        }
        value_mut(&mut *self.0)
    }

    /// Once nothing is written through the reference any more, the option keeps what it holds then.
    pub broadcast proof fn law_kept_when_done(self)
        ensures
            #[trigger] has_resolved(self) ==> *self.option() == *final(self.option()),
    {
    }

    /// Consume the [`NonNoneMut`] and obtain its contents
    pub fn into_inner(self) -> (opt: &'a mut Option<T>)
        ensures
            *opt == *self.option(),
            *opt is Some,
            *final(opt) == *final(self.option()),
    {
        proof {
            use_type_invariant(&self);
        }
        let NonNoneMut(opt) = self;
        opt
    }

    /// Consume the [`NonNoneMut`] and obtain a mutable reference its inner value
    pub fn into_mut(self) -> (value: &'a mut T)
        ensures
            *self.option() == Some(*value),
            *final(self.option()) == Some(*final(value)),
    {
        proof {
            use_type_invariant(&self);
        }
        value_mut(self.0)
    }
}

/// Given a mutable input slice and a list of `indices`, return a vector of mutable references for each indexed element
pub fn pick_mut_unchecked<'a, T>(arr: &'a mut [T], indices: &[usize]) -> (picked: Vec<&'a mut T>)
    requires
        forall|i: int| 0 <= i < indices@.len() ==> (#[trigger] indices@[i]) < arr@.len(),
        forall|i: int, j: int| 0 <= i < j < indices@.len() ==> indices@[i] != indices@[j],
    ensures
        picked@.len() == indices@.len(),
        final(arr)@.len() == old(arr)@.len(),
        forall|i: int| 0 <= i < picked@.len() ==> *(#[trigger] picked@[i]) == old(arr)@[indices@[i] as int],
        forall|i: int|
            0 <= i < picked@.len() ==> *final(#[trigger] picked@[i]) == final(arr)@[indices@[i] as int],
        forall|j: int|
            0 <= j < old(arr)@.len() && !(exists|i: int| 0 <= i < indices@.len() && #[trigger] indices@[i] == j)
                ==> final(arr)@[j] == old(arr)@[j],
{
    let ghost n = arr@.len();
    let ghost before = arr@;
    let ghost after = final(arr)@;
    // take the slice apart
    let mut slots: Vec<Option<&'a mut T>> = Vec::new();
    let mut rest: &'a mut [T] = arr;
    while rest.len() > 0
        invariant
            slots@.len() + rest@.len() == n,
            before.len() == n,
            after.len() == slots@.len() + final(rest)@.len(),
            rest@ == before.skip(slots@.len() as int),
            final(rest)@ == after.skip(slots@.len() as int),
            forall|j: int|
                0 <= j < slots@.len() ==> (#[trigger] slots@[j]) is Some && *(slots@[j]->0) == before[j]
                    && *final(slots@[j]->0) == after[j],
        decreases rest@.len(),
    {
        let ghost done = slots@.len() as int;
        let ghost whole = final(rest)@;
        let (first, tail): (&'a mut [T], &'a mut [T]) = rest.split_at_mut(1);
        slots.push(Some(&mut first[0]));
        rest = tail;
        proof {
            assert(whole[0] == after[done]);
            assert(final(rest)@ =~= whole.skip(1));
            assert(whole.skip(1) =~= after.skip(done + 1));
            assert(rest@ =~= before.skip(done + 1));
        }
    }
    assert(after.len() == n);
    // hand out the pieces that were asked for
    let mut picked: Vec<&'a mut T> = Vec::new();
    let mut i: usize = 0;
    while i < indices.len()
        invariant
            i <= indices@.len(),
            picked@.len() == i,
            slots@.len() == n,
            before.len() == n,
            after.len() == n,
            forall|p: int| 0 <= p < indices@.len() ==> (#[trigger] indices@[p]) < n,
            forall|p: int, q: int| 0 <= p < q < indices@.len() ==> indices@[p] != indices@[q],
            forall|p: int|
                0 <= p < i ==> *(#[trigger] picked@[p]) == before[indices@[p] as int] && *final(picked@[p])
                    == after[indices@[p] as int],
            forall|j: int|
                0 <= j < n ==> ((#[trigger] slots@[j]) is None <==> exists|p: int|
                    0 <= p < i && #[trigger] indices@[p] == j),
            forall|j: int|
                0 <= j < n && (#[trigger] slots@[j]) is Some ==> *(slots@[j]->0) == before[j] && *final(slots@[j]->0)
                    == after[j],
        decreases indices@.len() - i,
    {
        let index: usize = indices[i];
        let ghost held = slots@;
        assert(held[index as int] is Some);
        match slots[index].take() {
            Some(piece) => picked.push(piece),
            None => {},
        }
        i += 1;
    }
    proof {
        assert(has_resolved(slots));
        assert forall|j: int|
            0 <= j < n && !(exists|p: int| 0 <= p < indices@.len() && #[trigger] indices@[p] == j) implies after[j]
            == before[j] by {
            assert(slots@[j] is Some);
            assert(has_resolved(slots@[j]));
            assert(has_resolved(slots@[j]->0));
        }
    }
    picked
}

// ---------------------------------------------------------------------------
// Text
// ---------------------------------------------------------------------------

/// Gives `String::push` of the standard library its contract: the character is appended to the string.
pub assume_specification[ String::push ](s: &mut String, c: char)
    ensures
        final(s)@ == old(s)@.push(c),
;

/// The hexadecimal digit of a number below 16.
pub open spec fn hex_digit(n: int) -> char {
    if n < 10 {
        (48 + n) as char
    } else {
        (87 + n) as char
    }
}

/// The two hexadecimal digits of a byte, the higher one first if `msb`.
pub open spec fn hex_pair(b: u8, msb: bool) -> Seq<char> {
    if msb {
        seq![hex_digit(b as int / 16), hex_digit(b as int % 16)]
    } else {
        seq![hex_digit(b as int % 16), hex_digit(b as int / 16)]
    }
}

/// The eight bits of a byte, the highest one first if `msb`.
pub open spec fn octet(b: u8, msb: bool) -> Seq<char> {
    Seq::new(
        8,
        |i: int|
            if byte_bit(b, if msb { (7 - i) as u8 } else { i as u8 }) {
                '1'
            } else {
                '0'
            },
    )
}

/// The texts of several bytes, separated by spaces.
pub open spec fn spaced(bytes: Seq<u8>, text: spec_fn(u8) -> Seq<char>) -> Seq<char>
    decreases bytes.len(),
{
    if bytes.len() == 0 {
        Seq::empty()
    } else if bytes.len() == 1 {
        text(bytes[0])
    } else {
        spaced(bytes.drop_last(), text).push(' ') + text(bytes.last())
    }
}

/// A byte as an ASCII character: a quote or a backslash stands behind a backslash, and a character that cannot be
/// printed is a hexadecimal escape.
pub open spec fn ascii_text(b: u8) -> Seq<char> {
    if b == 34 || b == 39 || b == 92 {
        seq!['\\', b as char]
    } else if 32 <= b <= 126 {
        seq![b as char]
    } else {
        seq!['\\', 'x'] + hex_pair(b, true)
    }
}

/// The bytes as ASCII characters.
pub open spec fn ascii_texts(bytes: Seq<u8>) -> Seq<char>
    decreases bytes.len(),
{
    if bytes.len() == 0 {
        Seq::empty()
    } else {
        ascii_texts(bytes.drop_last()) + ascii_text(bytes.last())
    }
}

/// Append the hexadecimal digit of a number below 16.
fn push_hex_digit(out: &mut String, n: u8)
    requires
        n < 16,
    ensures
        final(out)@ == old(out)@.push(hex_digit(n as int)),
{
    if n < 10 {
        out.push((48 + n) as char);
    } else {
        out.push((87 + n) as char);
    }
}

/// Append the two hexadecimal digits of a byte.
fn push_hex_pair(out: &mut String, b: u8, msb: bool)
    ensures
        final(out)@ == old(out)@ + hex_pair(b, msb),
{
    if msb {
        push_hex_digit(out, b / 16);
        push_hex_digit(out, b % 16);
    } else {
        push_hex_digit(out, b % 16);
        push_hex_digit(out, b / 16);
    }
    assert(out@ =~= old(out)@ + hex_pair(b, msb));
}

/// Append the eight bits of a byte.
fn push_octet(out: &mut String, b: u8, msb: bool)
    ensures
        final(out)@ == old(out)@ + octet(b, msb),
{
    let mut i: u8 = 0;
    while i < 8
        invariant
            i <= 8,
            out@ == old(out)@ + octet(b, msb).take(i as int),
        decreases 8 - i,
    {
        let j: u8 = if msb {
            7 - i
        } else {
            i
        };
        if (b >> j) & 1u8 == 1u8 {
            out.push('1');
        } else {
            out.push('0');
        }
        i += 1;
        assert(out@ =~= old(out)@ + octet(b, msb).take(i as int));
    }
    assert(octet(b, msb).take(8) =~= octet(b, msb));
}

/// Print a byte string as ASCII characters
///
/// Non-printable characters are represented via hexadecimal escapes.
pub fn to_ascii(bytes: &[u8]) -> (text: String)
    ensures
        text@ == ascii_texts(bytes@),
{
    let mut text: String = String::new();
    let mut i: usize = 0;
    while i < bytes.len()
        invariant
            i <= bytes@.len(),
            text@ == ascii_texts(bytes@.take(i as int)),
        decreases bytes@.len() - i,
    {
        let b: u8 = bytes[i];
        let ghost was = text@;
        if b == 34 || b == 39 || b == 92 {
            text.push('\\');
            text.push(b as char);
        } else if 32 <= b && b <= 126 {
            text.push(b as char);
        } else {
            text.push('\\');
            text.push('x');
            push_hex_pair(&mut text, b, true);
        }
        proof {
            assert(text@ =~= was + ascii_text(b));
            let longer = bytes@.take(i + 1);
            assert(longer.drop_last() =~= bytes@.take(i as int));
            assert(longer.last() == b);
        }
        i += 1;
    }
    assert(bytes@.take(i as int) =~= bytes@);
    text
}

/// Print a byte string as hexadecimal pairs
pub fn to_hex<const MSB: bool>(slice: &[u8]) -> (text: String)
    ensures
        text@ == spaced(slice@, |b: u8| hex_pair(b, MSB)),
{
    let mut text: String = String::new();
    let mut i: usize = 0;
    let ghost show = |b: u8| hex_pair(b, MSB);
    while i < slice.len()
        invariant
            i <= slice@.len(),
            show == (|b: u8| hex_pair(b, MSB)),
            text@ == spaced(slice@.take(i as int), show),
        decreases slice@.len() - i,
    {
        if i > 0 {
            text.push(' ');
        }
        push_hex_pair(&mut text, slice[i], MSB);
        proof {
            let longer = slice@.take(i + 1);
            assert(longer.drop_last() =~= slice@.take(i as int));
            assert(longer.last() == slice@[i as int]);
            if i == 0 {
                assert(text@ =~= show(longer[0]));
            }
        }
        i += 1;
    }
    assert(slice@.take(i as int) =~= slice@);
    text
}

/// Print a byte string as binary octects
pub fn to_bin<const MSB: bool>(slice: &[u8]) -> (text: String)
    ensures
        text@ == spaced(slice@, |b: u8| octet(b, MSB)),
{
    let mut text: String = String::new();
    let mut i: usize = 0;
    let ghost show = |b: u8| octet(b, MSB);
    while i < slice.len()
        invariant
            i <= slice@.len(),
            show == (|b: u8| octet(b, MSB)),
            text@ == spaced(slice@.take(i as int), show),
        decreases slice@.len() - i,
    {
        if i > 0 {
            text.push(' ');
        }
        push_octet(&mut text, slice[i], MSB);
        proof {
            let longer = slice@.take(i + 1);
            assert(longer.drop_last() =~= slice@.take(i as int));
            assert(longer.last() == slice@[i as int]);
            if i == 0 {
                assert(text@ =~= show(longer[0]));
            }
        }
        i += 1;
    }
    assert(slice@.take(i as int) =~= slice@);
    text
}

}
