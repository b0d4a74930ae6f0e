//! Cells of words, each counted by the references to it.
use vstd::prelude::*;

use crate::vm::bits::{bit_of, byte_of, put_byte, shift_of, with_byte};
use crate::vm::id::{Buffer, Device, Handle, Id};
use crate::vm::value::{cell_word, from_word, word_cell, Cell};

verus! {

/// The most words a cell can have, its header among them.
pub const MAX_CELL_WORDS: usize = 268435456;

/// The most cells a heap can have.
pub const MAX_CELLS: u32 = u32::MAX;

/// There is no room for a cell.
#[derive(Clone, Copy, Debug, PartialEq, Eq, Structural)]
pub struct Full;

/// What a cell holds.
#[derive(Clone, Copy, Debug, PartialEq, Eq, Structural)]
pub enum Kind {
    Binary,
    BinarySlice,
    String,
    BigInt,
    Ctor,
    Closure,
    Tuple,
    ArrayRoot,
    ArrayLeaf,
    ArrayBranch,
    Range,
    MapRoot,
    MapNode,
    MapCollision,
    Handle,
}

/// A cell: what it holds, its words, and the references to it.
#[verifier::ext_equal]
pub struct CellView {
    pub kind: Kind,
    pub data: Seq<u64>,
    pub refs: nat,
}

/// The cells of a heap, by number.
pub type Cells = Map<u32, CellView>;

/// Byte `i` of the binary whose owner has these words, 0 past their end.
pub open spec fn owner_byte_at(d: Seq<u64>, i: int) -> u8 {
    if 0 <= i && 1 + i / 8 < d.len() {
        byte_of(d[1 + i / 8], shift_of(i))
    } else {
        0
    }
}

/// Bit `p` of the binary whose owner has these words.
pub open spec fn owner_bit(d: Seq<u64>, p: int) -> bool {
    bit_of(owner_byte_at(d, p / 8), (p % 8) as u8)
}

/// The words of an owner: its length in bits, then its bytes, eight to a word. The bits
/// past its end are clear.
pub open spec fn is_owner(d: Seq<u64>) -> bool {
    &&& d.len() >= 1
    &&& d.len() + 1 <= MAX_CELL_WORDS
    &&& d.len() == 1 + (d[0] + 63) / 64
    &&& forall|p: int| d[0] <= p ==> !(#[trigger] owner_bit(d, p))
}

/// The words of a slice: an owner, a bit to start at, and a length in bits, all inside
/// the owner.
pub open spec fn is_slice(m: Cells, d: Seq<u64>) -> bool {
    &&& d.len() == 3
    &&& match word_cell(d[0]) {
        Some(o) => m.contains_key(o.0) && m[o.0].kind is Binary && d[1] + d[2] <= m[o.0].data[0],
        None => false,
    }
}

/// The slices of an owner.
pub open spec fn slices_of(m: Cells, o: u32) -> Set<u32> {
    m.dom().filter(|c: u32| m[c].kind is BinarySlice && m[c].data[0] == cell_word(Cell(o)))
}

/// The words of a handle: its kind and its number.
pub open spec fn is_handle(d: Seq<u64>) -> bool {
    d.len() == 2 && d[0] <= 1 && d[1] != 0
}

/// The handle that a cell's words name.
pub open spec fn names(d: Seq<u64>, h: Handle) -> bool {
    &&& d.len() == 2
    &&& match h {
        Handle::Device(id) => d[0] == 0 && d[1] == id@,
        Handle::Buffer(id) => d[0] == 1 && d[1] == id@,
    }
}

/// A cell's words are as its kind asks, and it has a reference for each slice of it.
pub open spec fn cell_ok(m: Cells, c: u32) -> bool {
    &&& m[c].refs >= 1
    &&& m[c].kind is Binary ==> is_owner(m[c].data)
    &&& m[c].kind is BinarySlice ==> is_slice(m, m[c].data)
    &&& m[c].kind is Handle ==> is_handle(m[c].data)
    &&& slices_of(m, c).len() <= m[c].refs
}

/// Every cell is as it should be.
pub open spec fn all_ok(m: Cells) -> bool {
    &&& m.dom().finite()
    &&& forall|c: u32| #[trigger] m.contains_key(c) ==> cell_ok(m, c)
}

/// The cells after one reference to a cell is gone.
pub open spec fn one_less(m: Cells, c: u32) -> Cells {
    if m[c].refs > 1 {
        m.insert(c, (CellView { refs: (m[c].refs - 1) as nat, ..m[c] }))
    } else {
        m.remove(c)
    }
}

/// The cells after a cell is released: with its last reference it goes, and a slice
/// that goes gives up its reference to its owner.
pub open spec fn released(m: Cells, c: u32) -> Cells {
    let m1 = one_less(m, c);
    if m[c].refs <= 1 && m[c].kind is BinarySlice {
        match word_cell(m[c].data[0]) {
            Some(o) => one_less(m1, o.0),
            None => m1,
        }
    } else {
        m1
    }
}

/// The cells after a cell gains a reference.
pub open spec fn shared(m: Cells, c: u32) -> Cells {
    m.insert(c, (CellView { refs: m[c].refs + 1, ..m[c] }))
}

struct Slot {
    kind: Kind,
    refs: u64,
    data: Vec<u64>,
}

/// A heap.
pub struct Heap {
    slots: Vec<Slot>,
    free: Vec<u32>,
    live: usize,
    freed: Vec<Handle>,
    copied: u64,
}

impl Default for Heap {
    fn default() -> (heap: Heap)
        ensures
            heap.sound(),
            heap@ == Map::<u32, CellView>::empty(),
            all_ok(heap@),
            heap.freed() == Seq::<Handle>::empty(),
            heap.copied_bytes() == 0,
    {
        Heap::new()
    }
}

impl Heap {
    /// The cells that are live.
    pub closed spec fn view(&self) -> Cells {
        Map::new(
            |c: u32| c < self.slots@.len() && self.slots@[c as int].refs > 0,
            |c: u32|
                CellView {
                    kind: self.slots@[c as int].kind,
                    data: self.slots@[c as int].data@,
                    refs: self.slots@[c as int].refs as nat,
                },
        )
    }

    /// The handles of cells freed since they were last asked for.
    pub closed spec fn freed(&self) -> Seq<Handle> {
        self.freed@
    }

    /// Bytes copied from cell to cell.
    pub closed spec fn copied_bytes(&self) -> u64 {
        self.copied
    }

    /// Every cell is live or free, and the live ones are counted.
    pub closed spec fn sound(&self) -> bool {
        &&& self.slots@.len() <= MAX_CELLS
        &&& forall|i: int| 0 <= i < self.slots@.len() ==> (#[trigger] self.slots@[i]).data@.len() < MAX_CELL_WORDS
        &&& forall|i: int|
            0 <= i < self.free@.len() ==> (#[trigger] self.free@[i]) < self.slots@.len() && self.slots@[self.free@[i] as int].refs
                == 0
        &&& self.free@.no_duplicates()
        &&& self@.dom().finite()
        &&& self@.dom().len() == self.live
        &&& self.live + self.free@.len() == self.slots@.len()
    }

    /// A heap with no cells.
    pub fn new() -> (heap: Heap)
        ensures
            heap.sound(),
            heap@ == Map::<u32, CellView>::empty(),
            all_ok(heap@),
            heap.freed() == Seq::<Handle>::empty(),
            heap.copied_bytes() == 0,
    {
        let heap = Heap { slots: Vec::new(), free: Vec::new(), live: 0, freed: Vec::new(), copied: 0 };
        assert(heap@ =~= Map::<u32, CellView>::empty());
        heap
    }

    /// How many cells are live.
    pub fn live(&self) -> (n: usize)
        requires
            self.sound(),
        ensures
            n == self@.dom().len(),
    {
        self.live
    }

    /// Bytes copied from cell to cell.
    pub fn copied(&self) -> (n: u64)
        ensures
            n == self.copied_bytes(),
    {
        self.copied
    }

    fn is_live(&self, c: Cell) -> (yes: bool)
        ensures
            yes == self@.contains_key(c.0),
            yes ==> c.0 < self.slots@.len(),
    {
        (c.0 as usize) < self.slots.len() && self.slots[c.0 as usize].refs > 0
    }

    /// What a cell holds, if it is live.
    pub fn kind(&self, c: Cell) -> (k: Option<Kind>)
        ensures
            k == (if self@.contains_key(c.0) {
                Some(self@[c.0].kind)
            } else {
                None
            }),
    {
        if self.is_live(c) {
            Some(self.slots[c.0 as usize].kind)
        } else {
            None
        }
    }

    /// The words of a live cell.
    pub fn data(&self, c: Cell) -> (d: &Vec<u64>)
        requires
            self.sound(),
            self@.contains_key(c.0),
        ensures
            d@ == self@[c.0].data,
            d@.len() < MAX_CELL_WORDS,
    {
        assert(self.slots@[c.0 as int].data@.len() < MAX_CELL_WORDS);
        &self.slots[c.0 as usize].data
    }

    /// Changes a word of a live cell.
    pub fn set_word(&mut self, c: Cell, i: usize, w: u64)
        requires
            old(self).sound(),
            old(self)@.contains_key(c.0),
            i < old(self)@[c.0].data.len(),
        ensures
            final(self).sound(),
            final(self)@ == old(self)@.insert(
                c.0,
                (CellView { data: old(self)@[c.0].data.update(i as int, w), ..old(self)@[c.0] }),
            ),
            final(self).freed() == old(self).freed(),
            final(self).copied_bytes() == old(self).copied_bytes(),
    {
        let ghost before = self@;
        let at = c.0 as usize;
        let mut slot = Slot { kind: Kind::Tuple, refs: 0, data: Vec::new() };
        std::mem::swap(&mut self.slots[at], &mut slot);
        slot.data.set(i, w);
        self.slots.set(at, slot);
        proof {
            let want = before.insert(c.0, (CellView { data: before[c.0].data.update(i as int, w), ..before[c.0] }));
            assert(self@ =~= want);
            assert(self@.dom() =~= before.dom());
        }
    }

    /// A cell of so many words, which may hold anything.
    pub fn make_uninit(&mut self, kind: Kind, words: usize) -> (r: Result<Cell, Full>)
        requires
            old(self).sound(),
        ensures
            final(self).sound(),
            final(self).freed() == old(self).freed(),
            final(self).copied_bytes() == old(self).copied_bytes(),
            r is Ok <==> words < MAX_CELL_WORDS && old(self)@.dom().len() < MAX_CELLS,
            match r {
                Ok(c) => {
                    &&& !old(self)@.contains_key(c.0)
                    &&& final(self)@.contains_key(c.0)
                    &&& final(self)@[c.0].kind == kind
                    &&& final(self)@[c.0].refs == 1
                    &&& final(self)@[c.0].data.len() == words
                    &&& final(self)@ == old(self)@.insert(c.0, final(self)@[c.0])
                },
                Err(_) => final(self)@ == old(self)@,
            },
    {
        if words >= MAX_CELL_WORDS {
            return Err(Full);
        }
        let ghost before = self@;
        if self.free.len() > 0 {
            let ghost free0 = self.free@;
            let c = self.free.pop().unwrap();
            assert(free0[free0.len() - 1] == c);
            let at = c as usize;
            let mut slot = Slot { kind, refs: 0, data: Vec::new() };
            std::mem::swap(&mut self.slots[at], &mut slot);
            let mut data = slot.data;
            data.truncate(words);
            while data.len() < words
                invariant
                    data@.len() <= words,
                decreases words - data@.len(),
            {
                data.push(0);
            }
            self.slots.set(at, Slot { kind, refs: 1, data });
            self.live = self.live + 1;
            proof {
                assert(!before.contains_key(c));
                assert(self@ =~= before.insert(c, self@[c]));
                assert(self@.dom() =~= before.dom().insert(c));
                assert forall|i: int| 0 <= i < self.free@.len() implies (#[trigger] self.free@[i]) < self.slots@.len()
                    && self.slots@[self.free@[i] as int].refs == 0 by {
                    assert(self.free@[i] == free0[i]);
                    assert(free0[i] != c);
                }
            }
            return Ok(Cell(c));
        }
        if self.slots.len() >= MAX_CELLS as usize {
            return Err(Full);
        }
        let c = self.slots.len() as u32;
        let mut data: Vec<u64> = Vec::new();
        while data.len() < words
            invariant
                data@.len() <= words,
            decreases words - data@.len(),
        {
            data.push(0);
        }
        self.slots.push(Slot { kind, refs: 1, data });
        self.live = self.live + 1;
        proof {
            assert(!before.contains_key(c));
            assert(self@ =~= before.insert(c, self@[c]));
            assert(self@.dom() =~= before.dom().insert(c));
        }
        Ok(Cell(c))
    }

    /// A cell of given words.
    pub fn make(&mut self, kind: Kind, data: Vec<u64>) -> (r: Result<Cell, Full>)
        requires
            old(self).sound(),
        ensures
            final(self).sound(),
            final(self).freed() == old(self).freed(),
            final(self).copied_bytes() == old(self).copied_bytes(),
            r is Ok <==> data@.len() < MAX_CELL_WORDS && old(self)@.dom().len() < MAX_CELLS,
            match r {
                Ok(c) => !old(self)@.contains_key(c.0) && final(self)@ == old(self)@.insert(
                    c.0,
                    (CellView { kind, data: data@, refs: 1 }),
                ),
                Err(_) => final(self)@ == old(self)@,
            },
    {
        let ghost before = self@;
        let ghost words = data@;
        if data.len() >= MAX_CELL_WORDS {
            return Err(Full);
        }
        let c = match self.make_uninit(kind, 0) {
            Ok(c) => c,
            Err(e) => {
                return Err(e);
            },
        };
        let ghost made = self@;
        assert(self@.contains_key(c.0));
        self.slots.set(c.0 as usize, Slot { kind, refs: 1, data });
        proof {
            let want = before.insert(c.0, (CellView { kind, data: words, refs: 1 }));
            assert forall|k: u32| self@.contains_key(k) == want.contains_key(k) by {
                assert(made.contains_key(k) == want.contains_key(k));
            }
            assert forall|k: u32| self@.contains_key(k) implies self@[k] == want[k] by {
                if k != c.0 {
                    assert(made[k] == before[k]);
                }
            }
            assert(self@ =~= want);
            assert(self@.dom() =~= made.dom());
        }
        Ok(c)
    }

    /// Frees a cell whatever refers to it, and whatever it refers to.
    pub(crate) fn discard(&mut self, c: Cell)
        requires
            old(self).sound(),
            old(self)@.contains_key(c.0),
        ensures
            final(self).sound(),
            final(self)@ == old(self)@.remove(c.0),
            final(self).freed() == old(self).freed(),
            final(self).copied_bytes() == old(self).copied_bytes(),
    {
        let ghost before = self@;
        let ghost free0 = self.free@;
        let ghost slots0 = self.slots@;
        let at = c.0 as usize;
        let mut slot = Slot { kind: Kind::Tuple, refs: 0, data: Vec::new() };
        std::mem::swap(&mut self.slots[at], &mut slot);
        slot.refs = 0;
        self.slots.set(at, slot);
        self.free.push(c.0);
        self.live = self.live - 1;
        proof {
            assert(self@ =~= before.remove(c.0));
            assert(self@.dom() =~= before.dom().remove(c.0));
            assert forall|i: int| 0 <= i < self.free@.len() implies (#[trigger] self.free@[i]) < self.slots@.len()
                && self.slots@[self.free@[i] as int].refs == 0 by {
                if i < free0.len() {
                    assert(self.free@[i] == free0[i]);
                }
            }
            assert(self.free@.no_duplicates()) by {
                assert forall|i: int, j: int| 0 <= i < j < self.free@.len() implies self.free@[i] != self.free@[j] by {
                    assert(self.free@[i] == free0[i]);
                    if j < free0.len() {
                        assert(self.free@[j] == free0[j]);
                    } else {
                        assert(slots0[free0[i] as int].refs == 0);
                    }
                }
            }
        }
    }

    /// Another reference to a cell.
    pub fn share(&mut self, c: Cell)
        requires
            old(self).sound(),
            old(self)@.contains_key(c.0),
            old(self)@[c.0].refs < u64::MAX,
        ensures
            final(self).sound(),
            final(self)@ == shared(old(self)@, c.0),
            final(self).freed() == old(self).freed(),
            final(self).copied_bytes() == old(self).copied_bytes(),
    {
        let ghost before = self@;
        let at = c.0 as usize;
        let mut slot = Slot { kind: Kind::Tuple, refs: 0, data: Vec::new() };
        std::mem::swap(&mut self.slots[at], &mut slot);
        slot.refs = slot.refs + 1;
        self.slots.set(at, slot);
        proof {
            assert(self@ =~= shared(before, c.0));
            assert(self@.dom() =~= before.dom());
        }
    }

    /// One reference to a cell less; the last one frees it.
    fn drop_ref(&mut self, c: Cell) -> (gone: bool)
        requires
            old(self).sound(),
            old(self)@.contains_key(c.0),
        ensures
            final(self).sound(),
            final(self)@ == one_less(old(self)@, c.0),
            gone == (old(self)@[c.0].refs <= 1),
            final(self).freed() == old(self).freed(),
            final(self).copied_bytes() == old(self).copied_bytes(),
    {
        let ghost before = self@;
        let at = c.0 as usize;
        if self.slots[at].refs <= 1 {
            self.discard(c);
            return true;
        }
        let mut slot = Slot { kind: Kind::Tuple, refs: 0, data: Vec::new() };
        std::mem::swap(&mut self.slots[at], &mut slot);
        slot.refs = slot.refs - 1;
        self.slots.set(at, slot);
        proof {
            assert(self@ =~= one_less(before, c.0));
            assert(self@.dom() =~= before.dom());
        }
        false
    }

    /// Gives up a reference to a cell, of which the caller has one. The last frees the
    /// cell, and with a slice its reference to its owner goes.
    pub fn release(&mut self, c: Cell)
        requires
            old(self).sound(),
            all_ok(old(self)@),
            old(self)@.contains_key(c.0),
            slices_of(old(self)@, c.0).len() < old(self)@[c.0].refs,
        ensures
            final(self).sound(),
            all_ok(final(self)@),
            final(self)@ == released(old(self)@, c.0),
            final(self).copied_bytes() == old(self).copied_bytes(),
            old(self)@[c.0].refs <= 1 && old(self)@[c.0].kind is Handle ==> {
                &&& final(self).freed().len() == old(self).freed().len() + 1
                &&& final(self).freed().drop_last() == old(self).freed()
                &&& names(old(self)@[c.0].data, final(self).freed().last())
            },
            !(old(self)@[c.0].refs <= 1 && old(self)@[c.0].kind is Handle) ==> final(self).freed() == old(self).freed(),
    {
        let ghost before = self@;
        proof {
            assert(cell_ok(before, c.0));
            released_is_ok(before, c.0);
        }
        let kind = self.slots[c.0 as usize].kind;
        let owner = match kind {
            Kind::BinarySlice => from_word(self.data(c)[0]),
            _ => None,
        };
        let handle = match kind {
            Kind::Handle => self.handle_of(c),
            _ => None,
        };
        if self.drop_ref(c) {
            match owner {
                Some(o) => {
                    assert(self@.contains_key(o.0)) by {
                        assert(is_slice(before, before[c.0].data));
                        assert(cell_ok(before, o.0));
                    }
                    let gone = self.drop_ref(o);
                },
                None => {},
            }
            match handle {
                Some(h) => {
                    self.freed.push(h);
                    assert(self.freed().drop_last() =~= old(self).freed());
                },
                None => {},
            }
        }
    }

    /// The handle that a live cell is, if it is one.
    pub fn handle_of(&self, c: Cell) -> (h: Option<Handle>)
        requires
            self.sound(),
            all_ok(self@),
        ensures
            h is Some <==> self@.contains_key(c.0) && self@[c.0].kind is Handle,
            match h {
                Some(h) => names(self@[c.0].data, h),
                None => true,
            },
    {
        if !self.is_live(c) {
            return None;
        }
        assert(cell_ok(self@, c.0));
        match self.slots[c.0 as usize].kind {
            Kind::Handle => {
                let d = self.data(c);
                if d[0] == 0 {
                    Some(Handle::Device(Id::new(d[1])))
                } else {
                    Some(Handle::Buffer(Id::new(d[1])))
                }
            },
            _ => None,
        }
    }

    /// A cell for a handle.
    pub fn handle(&mut self, h: Handle) -> (r: Result<Cell, Full>)
        requires
            old(self).sound(),
            all_ok(old(self)@),
        ensures
            final(self).sound(),
            all_ok(final(self)@),
            final(self).freed() == old(self).freed(),
            final(self).copied_bytes() == old(self).copied_bytes(),
            r is Ok <==> old(self)@.dom().len() < MAX_CELLS,
            match r {
                Ok(c) => {
                    &&& !old(self)@.contains_key(c.0)
                    &&& final(self)@.contains_key(c.0)
                    &&& final(self)@[c.0].kind is Handle
                    &&& final(self)@[c.0].refs == 1
                    &&& names(final(self)@[c.0].data, h)
                    &&& final(self)@ == old(self)@.insert(c.0, final(self)@[c.0])
                },
                Err(_) => final(self)@ == old(self)@,
            },
    {
        let ghost before = self@;
        let data: Vec<u64> = match h {
            Handle::Device(id) => vec![0, id.raw()],
            Handle::Buffer(id) => vec![1, id.raw()],
        };
        let r = self.make(Kind::Handle, data);
        proof {
            if r is Ok {
                fresh_cell_is_ok(before, r->Ok_0.0, self@[r->Ok_0.0]);
            }
        }
        r
    }

    /// The handles of the cells freed since this was last asked, the first freed first.
    pub fn freed_handles(&mut self) -> (out: Vec<Handle>)
        requires
            old(self).sound(),
        ensures
            final(self).sound(),
            final(self)@ == old(self)@,
            final(self).copied_bytes() == old(self).copied_bytes(),
            final(self).freed() == Seq::<Handle>::empty(),
            out@ == old(self).freed(),
    {
        let mut out: Vec<Handle> = Vec::new();
        std::mem::swap(&mut self.freed, &mut out);
        assert(self@ =~= old(self)@);
        out
    }

    /// Changes bytes of a live cell, counted from its first word.
    pub fn put_bytes(&mut self, c: Cell, at: usize, bytes: &Vec<u8>)
        requires
            old(self).sound(),
            old(self)@.contains_key(c.0),
            at + bytes@.len() <= 8 * old(self)@[c.0].data.len(),
        ensures
            final(self).sound(),
            final(self).freed() == old(self).freed(),
            final(self).copied_bytes() == old(self).copied_bytes(),
            final(self)@.contains_key(c.0),
            final(self)@ == old(self)@.insert(
                c.0,
                (CellView { data: final(self)@[c.0].data, ..old(self)@[c.0] }),
            ),
            bytes_put(old(self)@[c.0].data, at as int, bytes@, final(self)@[c.0].data),
    {
        let ghost before = self@;
        let ghost d0 = before[c.0].data;
        let slot_at = c.0 as usize;
        assert(self.slots@[slot_at as int].data@.len() < MAX_CELL_WORDS);
        let mut slot = Slot { kind: Kind::Tuple, refs: 0, data: Vec::new() };
        std::mem::swap(&mut self.slots[slot_at], &mut slot);
        let ghost others = self.slots@;
        let mut k: usize = 0;
        while k < bytes.len()
            invariant
                k <= bytes@.len(),
                slot.kind == before[c.0].kind,
                slot.refs == before[c.0].refs,
                at + bytes@.len() <= 8 * d0.len(),
                slot.data@.len() == d0.len(),
                d0.len() < MAX_CELL_WORDS,
                bytes_put(d0, at as int, bytes@.take(k as int), slot.data@),
            decreases bytes@.len() - k,
        {
            let i = at + k;
            let w = slot.data[i / 8];
            let s = ((i % 8) * 8) as u64;
            let ghost d1 = slot.data@;
            slot.data.set(i / 8, w & !(0xFFu64 << s) | ((bytes[k] as u64) << s));
            proof {
                one_more_byte(d0, at as int, bytes@.take(k as int), d1, bytes@[k as int], slot.data@);
                assert(bytes@.take(k + 1) =~= bytes@.take(k as int).push(bytes@[k as int]));
            }
            k += 1;
        }
        assert(bytes@.take(k as int) =~= bytes@);
        let ghost d2 = slot.data@;
        self.slots.set(slot_at, slot);
        proof {
            assert(self@ =~= before.insert(c.0, (CellView { data: d2, ..before[c.0] })));
            assert(self@.dom() =~= before.dom());
        }
    }

    /// Copies bytes from one live cell to another, both counted from the first word.
    /// `false`, and nothing is copied, where they run past the end of either.
    pub fn copy_bytes(&mut self, from: Cell, from_byte: usize, to: Cell, to_byte: usize, n: usize) -> (done: bool)
        requires
            old(self).sound(),
            old(self)@.contains_key(from.0),
            old(self)@.contains_key(to.0),
            from != to,
        ensures
            final(self).sound(),
            final(self).freed() == old(self).freed(),
            done == (from_byte + n <= 8 * old(self)@[from.0].data.len() && to_byte + n <= 8 * old(self)@[to.0].data.len()),
            final(self)@.contains_key(to.0),
            final(self)@ == old(self)@.insert(
                to.0,
                (CellView { data: final(self)@[to.0].data, ..old(self)@[to.0] }),
            ),
            done ==> bytes_put(
                old(self)@[to.0].data,
                to_byte as int,
                data_bytes(old(self)@[from.0].data, from_byte as int, n as int),
                final(self)@[to.0].data,
            ),
            !done ==> final(self)@ == old(self)@,
            final(self).copied_bytes() == (if !done {
                old(self).copied_bytes()
            } else if old(self).copied_bytes() + n <= u64::MAX {
                (old(self).copied_bytes() + n) as u64
            } else {
                u64::MAX
            }),
    {
        let ghost before = self@;
        let from_words = self.slots[from.0 as usize].data.len() as u128;
        let to_words = self.slots[to.0 as usize].data.len() as u128;
        if from_byte as u128 + n as u128 > 8 * from_words || to_byte as u128 + n as u128 > 8 * to_words {
            assert(before.insert(to.0, (CellView { data: before[to.0].data, ..before[to.0] })) =~= before);
            return false;
        }
        let mut bytes: Vec<u8> = Vec::new();
        let ghost src = before[from.0].data;
        assert(self.slots@[from.0 as int].data@.len() < MAX_CELL_WORDS);
        let mut k: usize = 0;
        while k < n
            invariant
                k <= n,
                self@ == before,
                self.sound(),
                before.contains_key(from.0),
                src == before[from.0].data,
                src.len() < MAX_CELL_WORDS,
                from_byte + n <= 8 * src.len(),
                bytes@ == data_bytes(src, from_byte as int, k as int),
            decreases n - k,
        {
            let d = self.data(from);
            assert(from_byte + k < 8 * d.len());
            let i = from_byte + k;
            let s = ((i % 8) * 8) as u64;
            bytes.push((d[i / 8] >> s) as u8);
            assert(bytes@ =~= data_bytes(src, from_byte as int, k + 1));
            k += 1;
        }
        self.put_bytes(to, to_byte, &bytes);
        let count = n as u64;
        self.copied = if self.copied <= u64::MAX - count {
            self.copied + count
        } else {
            u64::MAX
        };
        assert(self@ =~= before.insert(to.0, (CellView { data: self@[to.0].data, ..before[to.0] })));
        true
    }
}

/// Byte `i` of some words, counted from the first.
pub open spec fn data_byte(d: Seq<u64>, i: int) -> u8 {
    byte_of(d[i / 8], shift_of(i))
}

/// `n` bytes of some words.
pub open spec fn data_bytes(d: Seq<u64>, at: int, n: int) -> Seq<u8> {
    Seq::new(n as nat, |k: int| data_byte(d, at + k))
}

/// `e` is `d` with some of its bytes changed.
pub open spec fn bytes_put(d: Seq<u64>, at: int, bytes: Seq<u8>, e: Seq<u64>) -> bool {
    &&& e.len() == d.len()
    &&& forall|i: int|
        0 <= i < 8 * d.len() ==> #[trigger] data_byte(e, i) == (if at <= i < at + bytes.len() {
            bytes[i - at]
        } else {
            data_byte(d, i)
        })
}

/// Changing the next byte too.
proof fn one_more_byte(d0: Seq<u64>, at: int, bytes: Seq<u8>, d1: Seq<u64>, b: u8, d2: Seq<u64>)
    requires
        bytes_put(d0, at, bytes, d1),
        0 <= at,
        at + bytes.len() < 8 * d0.len(),
        ({
            let i = at + bytes.len();
            d2 == d1.update(i / 8, with_byte(d1[i / 8], shift_of(i), b))
        }),
    ensures
        bytes_put(d0, at, bytes.push(b), d2),
{
    let p = at + bytes.len();
    assert forall|i: int| 0 <= i < 8 * d0.len() implies #[trigger] data_byte(d2, i) == (if at <= i < at + bytes.push(b).len() {
        bytes.push(b)[i - at]
    } else {
        data_byte(d0, i)
    }) by {
        assert(data_byte(d1, i) == (if at <= i < at + bytes.len() {
            bytes[i - at]
        } else {
            data_byte(d0, i)
        }));
        if i / 8 == p / 8 {
            put_byte(d1[p / 8], shift_of(p), b, shift_of(i));
            if i != p {
                assert(shift_of(i) != shift_of(p));
            }
        }
    }
}

/// A fresh cell that no slice is of, and that is as its kind asks, leaves all cells well.
pub proof fn fresh_cell_is_ok(m: Cells, c: u32, v: CellView)
    requires
        all_ok(m),
        !m.contains_key(c),
        v.refs >= 1,
        v.kind is Binary ==> is_owner(v.data),
        !(v.kind is BinarySlice),
        v.kind is Handle ==> is_handle(v.data),
    ensures
        all_ok(m.insert(c, v)),
        slices_of(m.insert(c, v), c).len() == 0,
{
    let n = m.insert(c, v);
    assert(slices_of(n, c) =~= Set::empty()) by {
        assert forall|k: u32| !slices_of(n, c).contains(k) by {
            if n.contains_key(k) && k != c && n[k].kind is BinarySlice {
                assert(cell_ok(m, k));
                assert(is_slice(m, m[k].data));
            }
        }
    }
    assert forall|k: u32| #[trigger] n.contains_key(k) implies cell_ok(n, k) by {
        if k != c {
            assert(m.contains_key(k));
            assert(cell_ok(m, k));
            assert(slices_of(n, k) =~= slices_of(m, k));
        }
    }
}

/// Releasing a cell that the caller has a reference to leaves all cells well.
pub proof fn released_is_ok(m: Cells, c: u32)
    requires
        all_ok(m),
        m.contains_key(c),
        slices_of(m, c).len() < m[c].refs,
    ensures
        all_ok(released(m, c)),
{
    let n = released(m, c);
    assert(cell_ok(m, c));
    if m[c].refs > 1 {
        assert forall|k: u32| #[trigger] n.contains_key(k) implies cell_ok(n, k) by {
            assert(cell_ok(m, k));
            assert(slices_of(n, k) =~= slices_of(m, k));
        }
        assert(n.dom() =~= m.dom());
    } else {
        let m1 = m.remove(c);
        assert(slices_of(m, c).finite());
        assert forall|k: u32| m.contains_key(k) && m[k].kind is BinarySlice implies word_cell(m[k].data[0]) != Some(Cell(c)) by {
            assert(cell_ok(m, k));
            if word_cell(m[k].data[0]) == Some(Cell(c)) {
                assert(m[k].data[0] == cell_word(Cell(c)));
                assert(slices_of(m, c).contains(k));
                assert(slices_of(m, c).len() > 0);
            }
        }
        if m[c].kind is BinarySlice {
            let o = word_cell(m[c].data[0])->0;
            assert(is_slice(m, m[c].data));
            assert(m[c].data[0] == cell_word(o));
            assert(cell_ok(m, o.0));
            assert(o.0 != c);
            assert(slices_of(m, o.0).contains(c));
            assert(slices_of(m1, o.0) =~= slices_of(m, o.0).remove(c));
            assert(slices_of(m, o.0).finite());
            if m[o.0].refs > 1 {
                assert forall|k: u32| #[trigger] n.contains_key(k) implies cell_ok(n, k) by {
                    assert(m.contains_key(k));
                    assert(cell_ok(m, k));
                    if k == o.0 {
                        assert(slices_of(n, k) =~= slices_of(m, k).remove(c));
                    } else {
                        assert(slices_of(n, k) =~= slices_of(m, k)) by {
                            assert(!slices_of(m, k).contains(c));
                        }
                    }
                }
                assert(n.dom() =~= m.dom().remove(c));
            } else {
                assert(slices_of(m, o.0).len() == 1);
                assert(slices_of(m1, o.0).len() == 0);
                assert forall|k: u32| #[trigger] n.contains_key(k) implies cell_ok(n, k) by {
                    assert(m.contains_key(k));
                    assert(cell_ok(m, k));
                    if m[k].kind is BinarySlice && word_cell(m[k].data[0]) == Some(o) {
                        assert(m[k].data[0] == cell_word(o));
                        assert(slices_of(m1, o.0).contains(k));
                    }
                    assert(slices_of(n, k) =~= slices_of(m, k)) by {
                        assert(!slices_of(m, k).contains(c));
                        assert(!(m[o.0].kind is BinarySlice));
                    }
                }
                assert(n.dom() =~= m.dom().remove(c).remove(o.0));
            }
        } else {
            assert forall|k: u32| #[trigger] n.contains_key(k) implies cell_ok(n, k) by {
                assert(m.contains_key(k));
                assert(cell_ok(m, k));
                assert(slices_of(n, k) =~= slices_of(m, k));
            }
            assert(n.dom() =~= m.dom().remove(c));
        }
    }
}

} // verus!
