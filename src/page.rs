//! Pages of the open-addressing table: one partition held alone, or two
//! adjacent partitions probed as one address space.
use vstd::prelude::*;
use crate::codec::{decode_cells, Slot};
use crate::layout::{left, left_of, right, taxid_of, HashLayout};

verus! {

/// The compacted key that a query slot carries in its low word.
pub open spec fn query_key(slot: Slot, bits: u32) -> u32 {
    left_of(slot.value as u32, bits)
}

/// Linear probe over `cells` from index `i`, at most `steps` cells, wrapping
/// past the last cell to the first: the taxon id of the first cell holding
/// `key`, or 0 once an empty cell is met or the steps run out.
pub open spec fn probe(cells: Seq<u32>, bits: u32, mask: u32, key: u32, i: int, steps: nat) -> u32
    decreases steps,
{
    if steps == 0 || !(0 <= i < cells.len()) {
        0
    } else {
        let c = cells[i];
        if taxid_of(c, mask) == 0 {
            0
        } else if left_of(c, bits) == key {
            taxid_of(c, mask)
        } else {
            let next = if i + 1 == cells.len() {
                0
            } else {
                i + 1
            };
            probe(cells, bits, mask, key, next, (steps - 1) as nat)
        }
    }
}

/// One partition, or a whole table, held as a flat array of packed cells.
pub struct CompactPage {
    pub layout: HashLayout,
    pub cells: Vec<u32>,
}

impl CompactPage {
    pub open spec fn wf(&self) -> bool {
        self.layout.wf()
    }

    /// Taxon id found for `slot`: a probe from its home address (taken modulo
    /// the number of cells) over at most every cell once.
    pub open spec fn spec_lookup(&self, slot: Slot) -> u32 {
        let n = self.cells@.len();
        if n == 0 {
            0
        } else {
            probe(
                self.cells@,
                self.layout.value_bits,
                self.layout.value_mask,
                query_key(slot, self.layout.value_bits),
                (slot.idx % (n as u64)) as int,
                n,
            )
        }
    }

    pub fn new(layout: HashLayout, cells: Vec<u32>) -> (r: CompactPage)
        requires
            layout.wf(),
        ensures
            r.wf(),
            r.layout == layout,
            r.cells@ == cells@,
    {
        CompactPage { layout, cells }
    }

    /// A page whose cells are the little-endian 32-bit words of `bytes`.
    pub fn from_bytes(layout: HashLayout, bytes: &[u8]) -> (r: CompactPage)
        requires
            layout.wf(),
        ensures
            r.wf(),
            r.layout == layout,
            r.cells@.len() == bytes@.len() / 4,
            forall|i: int|
                0 <= i < r.cells@.len() ==> r.cells@[i] == crate::codec::le_u32_at(bytes@, 4 * i),
    {
        CompactPage { layout, cells: decode_cells(bytes) }
    }

    pub fn get_from_page(&self, slot: &Slot) -> (r: u32)
        requires
            self.wf(),
        ensures
            r == self.spec_lookup(*slot),
    {
        let n: usize = self.cells.len();
        if n == 0 {
            return 0;
        }
        let bits = self.layout.value_bits;
        let mask = self.layout.value_mask;
        let key = left(slot.value as u32, bits);
        let mut pos: usize = (slot.idx % (n as u64)) as usize;
        let mut steps: usize = n;
        while steps > 0
            invariant
                self.wf(),
                n == self.cells@.len(),
                bits == self.layout.value_bits,
                mask == self.layout.value_mask,
                key == query_key(*slot, bits),
                pos < n,
                steps <= n,
                probe(self.cells@, bits, mask, key, pos as int, steps as nat)
                    == self.spec_lookup(*slot),
            decreases steps,
        {
            let c = self.cells[pos];
            let t = right(c, mask);
            if t == 0 {
                return 0;
            }
            if left(c, bits) == key {
                return t;
            }
            pos = if pos + 1 == n {
                0
            } else {
                pos + 1
            };
            steps = steps - 1;
        }
        0
    }
}

/// Two adjacent partitions, the current one and its cyclic successor, probed
/// as one address space: addresses past the first partition fall into the
/// second.
pub struct BoundarySpanningPage {
    pub layout: HashLayout,
    pub first: Vec<u32>,
    pub second: Vec<u32>,
}

impl BoundarySpanningPage {
    pub open spec fn wf(&self) -> bool {
        &&& self.layout.wf()
        &&& self.first@.len() + self.second@.len() <= usize::MAX
    }

    /// The cells of both partitions, in address order.
    pub open spec fn all_cells(&self) -> Seq<u32> {
        self.first@ + self.second@
    }

    /// Taxon id found for `slot`: a probe from its home address towards the
    /// end of the second partition, never past it.
    pub open spec fn spec_lookup(&self, slot: Slot) -> u32 {
        let n = self.all_cells().len();
        if slot.idx >= n {
            0
        } else {
            probe(
                self.all_cells(),
                self.layout.value_bits,
                self.layout.value_mask,
                query_key(slot, self.layout.value_bits),
                slot.idx as int,
                (n - slot.idx) as nat,
            )
        }
    }

    pub fn new(layout: HashLayout, first: Vec<u32>, second: Vec<u32>) -> (r: BoundarySpanningPage)
        requires
            layout.wf(),
            first@.len() + second@.len() <= usize::MAX,
        ensures
            r.wf(),
            r.layout == layout,
            r.first@ == first@,
            r.second@ == second@,
    {
        BoundarySpanningPage { layout, first, second }
    }

    /// A page over the little-endian 32-bit words of two partition files.
    pub fn from_bytes(layout: HashLayout, first: &[u8], second: &[u8]) -> (r: BoundarySpanningPage)
        requires
            layout.wf(),
        ensures
            r.wf(),
            r.layout == layout,
            r.first@.len() == first@.len() / 4,
            r.second@.len() == second@.len() / 4,
            forall|i: int|
                0 <= i < r.first@.len() ==> r.first@[i] == crate::codec::le_u32_at(first@, 4 * i),
            forall|i: int|
                0 <= i < r.second@.len() ==> r.second@[i] == crate::codec::le_u32_at(
                    second@,
                    4 * i,
                ),
    {
        let la: usize = first.len();
        let lb: usize = second.len();
        let a = decode_cells(first);
        let b = decode_cells(second);
        BoundarySpanningPage { layout, first: a, second: b }
    }

    fn cell(&self, a: usize) -> (r: u32)
        requires
            a < self.all_cells().len(),
        ensures
            r == self.all_cells()[a as int],
    {
        if a < self.first.len() {
            self.first[a]
        } else {
            self.second[a - self.first.len()]
        }
    }

    pub fn get_from_page(&self, slot: &Slot) -> (r: u32)
        requires
            self.wf(),
        ensures
            r == self.spec_lookup(*slot),
    {
        let n: usize = self.first.len() + self.second.len();
        if slot.idx >= n as u64 {
            return 0;
        }
        let bits = self.layout.value_bits;
        let mask = self.layout.value_mask;
        let key = left(slot.value as u32, bits);
        let mut pos: usize = slot.idx as usize;
        while pos < n
            invariant
                self.wf(),
                n == self.all_cells().len(),
                bits == self.layout.value_bits,
                mask == self.layout.value_mask,
                key == query_key(*slot, bits),
                slot.idx <= pos <= n,
                probe(self.all_cells(), bits, mask, key, pos as int, (n - pos) as nat)
                    == self.spec_lookup(*slot),
            decreases n - pos,
        {
            let c = self.cell(pos);
            let t = right(c, mask);
            if t == 0 {
                return 0;
            }
            if left(c, bits) == key {
                return t;
            }
            proof {
                let cells = self.all_cells();
                if pos + 1 == n {
                    assert(probe(cells, bits, mask, key, 0, 0) == 0);
                    assert(probe(cells, bits, mask, key, n as int, 0) == 0);
                }
            }
            pos = pos + 1;
        }
        0
    }
}

/// The page a chunk is classified against: the whole table from one file, or
/// a pair of adjacent partitions.
pub enum Page {
    Single(CompactPage),
    Spanning(BoundarySpanningPage),
}

impl Page {
    pub open spec fn wf(&self) -> bool {
        match self {
            Page::Single(p) => p.wf(),
            Page::Spanning(p) => p.wf(),
        }
    }

    pub open spec fn layout(&self) -> HashLayout {
        match self {
            Page::Single(p) => p.layout,
            Page::Spanning(p) => p.layout,
        }
    }

    /// Taxon id found for `slot`, 0 when the key is not present.
    pub open spec fn spec_lookup(&self, slot: Slot) -> u32 {
        match self {
            Page::Single(p) => p.spec_lookup(slot),
            Page::Spanning(p) => p.spec_lookup(slot),
        }
    }

    pub fn get_from_page(&self, slot: &Slot) -> (r: u32)
        requires
            self.wf(),
        ensures
            r == self.spec_lookup(*slot),
    {
        match self {
            Page::Single(p) => p.get_from_page(slot),
            Page::Spanning(p) => p.get_from_page(slot),
        }
    }

    pub fn get_value_mask(&self) -> (r: u32)
        ensures
            r == self.layout().value_mask,
    {
        match self {
            Page::Single(p) => p.layout.value_mask,
            Page::Spanning(p) => p.layout.value_mask,
        }
    }

    pub fn get_value_bits(&self) -> (r: u32)
        ensures
            r == self.layout().value_bits,
    {
        match self {
            Page::Single(p) => p.layout.value_bits,
            Page::Spanning(p) => p.layout.value_bits,
        }
    }
}

} // verus!
