//! The stack of a machine, kept in one anonymous memory map so that compiled code can work on it.
use memmap2::MmapMut;
use vstd::prelude::*;

use crate::types::Value;

verus! {

/// `memmap2::MmapMut`, an owned run of bytes that the operating system has mapped.
#[verifier::external_type_specification]
#[verifier::external_body]
pub struct ExMmapMut(MmapMut);

/// `std::io::Error`.
#[verifier::external_type_specification]
#[verifier::external_body]
pub struct ExIoError(std::io::Error);

/// The bytes that a memory map holds.
pub uninterp spec fn mapped(m: MmapMut) -> Seq<u8>;

/// `MmapMut::map_anon`: where it succeeds, the new map has the length that was asked for. It fails
/// if that length is more than `isize::MAX`. Whether it succeeds otherwise is for the operating
/// system to say.
#[verifier::external_body]
fn map_anon(length: usize) -> (r: Result<MmapMut, std::io::Error>)
    ensures
        r matches Ok(m) ==> mapped(m).len() == length,
        length > isize::MAX ==> r is Err,
{
    MmapMut::map_anon(length)
}

/// Reading through `<MmapMut as Deref>::deref`, which yields the mapped bytes as a slice.
#[verifier::external_body]
fn byte_at(m: &MmapMut, i: usize) -> (r: u8)
    requires
        i < mapped(*m).len(),
    ensures
        r == mapped(*m)[i as int],
{
    m[i]
}

/// Writing through `<MmapMut as DerefMut>::deref_mut`, which yields the mapped bytes as a slice:
/// one byte changes, and the length does not.
#[verifier::external_body]
fn set_byte(m: &mut MmapMut, i: usize, byte: u8)
    requires
        i < mapped(*old(m)).len(),
    ensures
        mapped(*final(m)) == mapped(*old(m)).update(i as int, byte),
{
    m[i] = byte;
}

/// `<MmapMut as DerefMut>::deref_mut`: the whole map as one slice. The map and the slice share
/// their bytes, and neither can change its length.
#[verifier::external_body]
fn bytes_mut(m: &mut MmapMut) -> (r: &mut [u8])
    ensures
        r@ == mapped(*old(m)),
        final(r)@ == mapped(*final(m)),
        mapped(*final(m)).len() == mapped(*old(m)).len(),
{
    &mut m[..]
}

/// The number of bytes in a cell.
pub const CELL_BYTES: usize = 8;

/// The cell that eight bytes spell, the least significant byte first.
pub open spec fn spelled(b0: u8, b1: u8, b2: u8, b3: u8, b4: u8, b5: u8, b6: u8, b7: u8) -> Value {
    ((b0 as u64) | (b1 as u64) << 8 | (b2 as u64) << 16 | (b3 as u64) << 24 | (b4 as u64) << 32 | (
    b5 as u64) << 40 | (b6 as u64) << 48 | (b7 as u64) << 56) as i64
}

/// The cell number `i` of a run of bytes.
pub open spec fn cell(bytes: Seq<u8>, i: int) -> Value {
    spelled(
        bytes[8 * i],
        bytes[8 * i + 1],
        bytes[8 * i + 2],
        bytes[8 * i + 3],
        bytes[8 * i + 4],
        bytes[8 * i + 5],
        bytes[8 * i + 6],
        bytes[8 * i + 7],
    )
}

/// The lowest `n` cells of a run of bytes.
pub open spec fn cells(bytes: Seq<u8>, n: nat) -> Seq<Value> {
    Seq::new(n, |i: int| cell(bytes, i))
}

proof fn lemma_spelled(v: Value)
    ensures
        ({
            let w = v as u64;
            spelled(
                w as u8,
                (w >> 8) as u8,
                (w >> 16) as u8,
                (w >> 24) as u8,
                (w >> 32) as u8,
                (w >> 40) as u8,
                (w >> 48) as u8,
                (w >> 56) as u8,
            ) == v
        }),
{
    let w = v as u64;
    assert(w == ((w as u8) as u64) | (((w >> 8) as u8) as u64) << 8 | (((w >> 16) as u8) as u64)
        << 16 | (((w >> 24) as u8) as u64) << 24 | (((w >> 32) as u8) as u64) << 32 | (((w
        >> 40) as u8) as u64) << 40 | (((w >> 48) as u8) as u64) << 48 | (((w
        >> 56) as u8) as u64) << 56) by (bit_vector);
    assert((v as u64) as i64 == v) by (bit_vector);
}

/// The bytes of a cell are its digits to the base 256, the lowest first; a cell with more than half
/// of the largest number is negative.
pub proof fn law_bytes_are_digits(
    b0: u8,
    b1: u8,
    b2: u8,
    b3: u8,
    b4: u8,
    b5: u8,
    b6: u8,
    b7: u8,
)
    ensures
        ({
            let n = b0 + 0x100 * (b1 + 0x100 * (b2 + 0x100 * (b3 + 0x100 * (b4 + 0x100 * (b5 + 0x100
                * (b6 + 0x100 * b7))))));
            spelled(b0, b1, b2, b3, b4, b5, b6, b7) == if n <= i64::MAX {
                n
            } else {
                n - 0x1_0000_0000_0000_0000
            }
        }),
{
    let w = (b0 as u64) | (b1 as u64) << 8 | (b2 as u64) << 16 | (b3 as u64) << 24 | (b4 as u64)
        << 32 | (b5 as u64) << 40 | (b6 as u64) << 48 | (b7 as u64) << 56;
    assert(w == b0 + 0x100 * (b1 as u64) + 0x1_0000 * (b2 as u64) + 0x100_0000 * (b3 as u64)
        + 0x1_0000_0000 * (b4 as u64) + 0x100_0000_0000 * (b5 as u64) + 0x1_0000_0000_0000 * (
    b6 as u64) + 0x100_0000_0000_0000 * (b7 as u64)) by (bit_vector)
        requires
            w == (b0 as u64) | (b1 as u64) << 8 | (b2 as u64) << 16 | (b3 as u64) << 24 | (
            b4 as u64) << 32 | (b5 as u64) << 40 | (b6 as u64) << 48 | (b7 as u64) << 56,
    ;
    assert(w <= 0x7fff_ffff_ffff_ffff ==> (w as i64) as int == w) by (bit_vector);
    assert(w > 0x7fff_ffff_ffff_ffff ==> (w as i64) as int == w - 0x1_0000_0000_0000_0000) by (bit_vector);
}

/// Cells lie next to each other, eight bytes each, and so many are taken as there are values.
pub proof fn law_cells_lie_in_bytes(bytes: Seq<u8>, n: nat, i: int)
    requires
        0 <= i < n,
    ensures
        cells(bytes, n).len() == n,
        cells(bytes, n)[i] == spelled(
            bytes[8 * i],
            bytes[8 * i + 1],
            bytes[8 * i + 2],
            bytes[8 * i + 3],
            bytes[8 * i + 4],
            bytes[8 * i + 5],
            bytes[8 * i + 6],
            bytes[8 * i + 7],
        ),
{
}

/// A stack of values with a fixed number of cells.
pub struct Stack {
    data: MmapMut,
    len: usize,
}

impl View for Stack {
    type V = Seq<Value>;

    closed spec fn view(&self) -> Seq<Value> {
        cells(mapped(self.data), self.len as nat)
    }
}

impl Stack {
    /// How many values the stack has cells for.
    pub closed spec fn room(self) -> nat {
        mapped(self.data).len() / 8
    }

    /// The bytes behind all cells, in use or not.
    pub closed spec fn bytes(self) -> Seq<u8> {
        mapped(self.data)
    }

    /// No more cells are in use than there are.
    pub closed spec fn wf(self) -> bool {
        &&& self.len <= self.room()
        &&& mapped(self.data).len() <= usize::MAX
    }

    /// A stack never holds more values than it has cells for, and holds them in its lowest cells.
    pub proof fn lemma_wf(self)
        requires
            self.wf(),
        ensures
            self@.len() <= self.room() <= usize::MAX,
            self.room() == self.bytes().len() / 8,
            self@ == cells(self.bytes(), self@.len()),
    {
    }

    /// An empty stack over `capacity` bytes of memory. More than `isize::MAX` bytes cannot be had;
    /// whether fewer can is for the operating system to say.
    pub fn new(capacity: usize) -> (r: Result<Stack, std::io::Error>)
        ensures
            r matches Ok(s) ==> s.wf() && s@ == Seq::<Value>::empty() && s.bytes().len() == capacity
                && s.room() == capacity as nat / 8,
            capacity > isize::MAX ==> r is Err,
    {
        Stack::over(map_anon(capacity))
    }

    /// An empty stack over the memory that was mapped, or why none was.
    pub fn over(map: Result<MmapMut, std::io::Error>) -> (r: Result<Stack, std::io::Error>)
        ensures
            match map {
                Ok(data) => r matches Ok(s) && s.wf() && s@ == Seq::<Value>::empty() && s.bytes()
                    == mapped(data) && s.room() == mapped(data).len() / 8,
                Err(e) => r == Err::<Stack, std::io::Error>(e),
            },
    {
        match map {
            Ok(data) => {
                let size = map_len(&data);
                assert(mapped(data).len() == size);
                let s = Stack { data, len: 0 };
                assert(s@ =~= Seq::<Value>::empty());
                Ok(s)
            },
            Err(e) => Err(e),
        }
    }

    /// The number of values on the stack.
    pub fn len(&self) -> (r: usize)
        requires
            self.wf(),
        ensures
            r == self@.len(),
    {
        self.len
    }

    /// Whether another value can be pushed.
    pub fn has_room(&self) -> (r: bool)
        requires
            self.wf(),
        ensures
            r == (self@.len() < self.room()),
    {
        self.len < self.capacity()
    }

    /// How many values the stack has cells for.
    pub fn capacity(&self) -> (r: usize)
        requires
            self.wf(),
        ensures
            r == self.room(),
    {
        map_len(&self.data) / CELL_BYTES
    }

    /// The value number `i`, counted from the bottom.
    pub fn get(&self, i: usize) -> (r: Value)
        requires
            self.wf(),
            i < self@.len(),
        ensures
            r == self@[i as int],
    {
        let at: usize = i * 8;
        let w: u64 = (byte_at(&self.data, at) as u64) | (byte_at(&self.data, at + 1) as u64) << 8 | (
        byte_at(&self.data, at + 2) as u64) << 16 | (byte_at(&self.data, at + 3) as u64) << 24 | (
        byte_at(&self.data, at + 4) as u64) << 32 | (byte_at(&self.data, at + 5) as u64) << 40 | (
        byte_at(&self.data, at + 6) as u64) << 48 | (byte_at(&self.data, at + 7) as u64) << 56;
        w as i64
    }

    fn put(&mut self, i: usize, v: Value)
        requires
            old(self).wf(),
            i < old(self).room(),
        ensures
            final(self).wf(),
            final(self).room() == old(self).room(),
            final(self).len == old(self).len,
            cell(mapped(final(self).data), i as int) == v,
            forall|j: int|
                0 <= j < old(self).room() && j != i ==> #[trigger] cell(
                    mapped(final(self).data),
                    j,
                ) == cell(mapped(old(self).data), j),
    {
        let at: usize = i * 8;
        let w = v as u64;
        set_byte(&mut self.data, at, w as u8);
        set_byte(&mut self.data, at + 1, (w >> 8) as u8);
        set_byte(&mut self.data, at + 2, (w >> 16) as u8);
        set_byte(&mut self.data, at + 3, (w >> 24) as u8);
        set_byte(&mut self.data, at + 4, (w >> 32) as u8);
        set_byte(&mut self.data, at + 5, (w >> 40) as u8);
        set_byte(&mut self.data, at + 6, (w >> 48) as u8);
        set_byte(&mut self.data, at + 7, (w >> 56) as u8);
        proof {
            lemma_spelled(v);
        }
    }

    /// Puts a value on top.
    pub fn push(&mut self, val: Value)
        requires
            old(self).wf(),
            old(self)@.len() < old(self).room(),
        ensures
            final(self).wf(),
            final(self).room() == old(self).room(),
            final(self)@ == old(self)@.push(val),
    {
        let top = self.len;
        self.put(top, val);
        self.len = top + 1;
        assert(self@ =~= old(self)@.push(val));
    }

    /// Takes the top value off; `None` if the stack is empty.
    pub fn pop(&mut self) -> (r: Option<Value>)
        requires
            old(self).wf(),
        ensures
            final(self).wf(),
            final(self).room() == old(self).room(),
            old(self)@.len() == 0 ==> r is None && final(self)@ == old(self)@,
            old(self)@.len() > 0 ==> r == Some(old(self)@.last()) && final(self)@
                == old(self)@.drop_last(),
    {
        if self.len == 0 {
            None
        } else {
            let v = self.get(self.len - 1);
            self.len = self.len - 1;
            assert(self@ =~= old(self)@.drop_last());
            Some(v)
        }
    }

    /// Changes the value number `i`, counted from the bottom.
    pub fn set(&mut self, i: usize, val: Value)
        requires
            old(self).wf(),
            i < old(self)@.len(),
        ensures
            final(self).wf(),
            final(self).room() == old(self).room(),
            final(self)@ == old(self)@.update(i as int, val),
    {
        self.put(i, val);
        assert(self@ =~= old(self)@.update(i as int, val));
    }

    /// Drops every value above the lowest `len`.
    pub fn truncate(&mut self, len: usize)
        requires
            old(self).wf(),
            len <= old(self)@.len(),
        ensures
            final(self).wf(),
            final(self).room() == old(self).room(),
            final(self)@ == old(self)@.take(len as int),
    {
        self.len = len;
        assert(self@ =~= old(self)@.take(len as int));
    }

    /// The values on the stack, the lowest first.
    pub fn values(&self) -> (r: Vec<Value>)
        requires
            self.wf(),
        ensures
            r@ == self@,
    {
        let mut r: Vec<Value> = Vec::new();
        let mut i: usize = 0;
        while i < self.len()
            invariant
                self.wf(),
                i <= self@.len(),
                r@ == self@.take(i as int),
            decreases self@.len() - i,
        {
            r.push(self.get(i));
            i = i + 1;
            assert(r@ =~= self@.take(i as int));
        }
        assert(r@ =~= self@);
        r
    }

    /// The bytes behind all cells, in use or not, for code that works on them directly.
    pub fn memory(&mut self) -> (r: &mut [u8])
        requires
            old(self).wf(),
        ensures
            final(self).wf(),
            final(self).room() == old(self).room(),
            r@ == old(self).bytes(),
            final(r)@ == final(self).bytes(),
            final(self)@ == cells(final(self).bytes(), old(self)@.len()),
    {
        bytes_mut(&mut self.data)
    }

    /// Says how many cells are in use, after code has worked on them directly.
    pub fn set_len(&mut self, len: usize)
        requires
            old(self).wf(),
            len <= old(self).room(),
        ensures
            final(self).wf(),
            final(self).room() == old(self).room(),
            final(self).bytes() == old(self).bytes(),
            final(self)@ == cells(old(self).bytes(), len as nat),
    {
        self.len = len;
    }
}

/// `<[u8]>::len` through `<MmapMut as Deref>::deref`: the number of mapped bytes.
#[verifier::external_body]
fn map_len(m: &MmapMut) -> (r: usize)
    ensures
        r == mapped(*m).len(),
{
    m.len()
}

} // verus!
