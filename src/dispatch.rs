//! Per-chunk classification: the chunk header, page selection, the lookup
//! and repacking of each record, grouping by destination shard, and the
//! decisions that drive shard output.
use vstd::prelude::*;
use rayon::iter::{IndexedParallelIterator, IntoParallelRefIterator, ParallelIterator};
use crate::codec::{decode_slots, le_bytes, le_u64_at, push_u64_le, read_u64_le, slot_at, Slot};
use crate::layout::{combine, combined, left, left_of};
use crate::page::Page;

verus! {

/// Width in bytes of a chunk header.
pub const HEADER_BYTES: usize = 16;

/// Why a chunk cannot be classified.
#[derive(Clone, Copy, Debug, PartialEq, Eq)]
pub enum ChunkError {
    /// Fewer than sixteen bytes where a header is expected.
    MalformedHeader,
    /// No table file answers the partition index of the header.
    PartitionMissing,
}

/// The header of a chunk: its partition index and declared record count.
#[derive(Clone, Copy, Debug, PartialEq, Eq)]
pub struct ChunkHeader {
    pub partition: u64,
    pub count: u64,
}

/// Reads the header from the first sixteen bytes of `b`.
pub fn read_chunk_header(b: &[u8]) -> (r: Result<ChunkHeader, ChunkError>)
    ensures
        r is Err <==> b@.len() < 16,
        r matches Err(e) ==> e == ChunkError::MalformedHeader,
        r matches Ok(h) ==> h.partition == le_u64_at(b@, 0) && h.count == le_u64_at(b@, 8),
{
    if b.len() < HEADER_BYTES {
        return Err(ChunkError::MalformedHeader);
    }
    let partition = read_u64_le(b, 0);
    let count = read_u64_le(b, 8);
    Ok(ChunkHeader { partition, count })
}

/// Which table files a chunk is classified against.
#[derive(Clone, Copy, Debug, PartialEq, Eq)]
pub enum PagePlan {
    /// The only table file, holding the whole table.
    Single,
    /// Partition `first` and its cyclic successor `second`.
    Pair { first: usize, second: usize },
}

/// Chooses the page for a chunk of partition `partition` when `n_files`
/// table files exist.
pub fn resolve_page(n_files: usize, partition: u64) -> (r: Result<PagePlan, ChunkError>)
    ensures
        n_files == 1 ==> r == Ok::<PagePlan, ChunkError>(PagePlan::Single),
        n_files == 0 || (n_files >= 2 && partition >= n_files) ==> r == Err::<PagePlan, ChunkError>(
            ChunkError::PartitionMissing,
        ),
        n_files >= 2 && partition < n_files ==> r == Ok::<PagePlan, ChunkError>(
            PagePlan::Pair {
                first: partition as usize,
                second: ((partition + 1) % (n_files as int)) as usize,
            },
        ),
{
    if n_files == 0 {
        Err(ChunkError::PartitionMissing)
    } else if n_files == 1 {
        Ok(PagePlan::Single)
    } else if partition >= n_files as u64 {
        Err(ChunkError::PartitionMissing)
    } else {
        let first = partition as usize;
        let second = if first + 1 == n_files {
            0
        } else {
            first + 1
        };
        proof {
            if first + 1 == n_files {
                vstd::arithmetic::div_mod::lemma_mod_self_0(n_files as int);
            } else {
                vstd::arithmetic::div_mod::lemma_small_mod((first + 1) as nat, n_files as nat);
            }
        }
        Ok(PagePlan::Pair { first, second })
    }
}

/// Number of bytes read per batch of `batch_size` records; `None` when that
/// does not fit in memory addresses.
pub fn batch_bytes(batch_size: usize) -> (r: Option<usize>)
    ensures
        r matches Some(n) ==> n == 16 * batch_size,
        r is None <==> 16 * batch_size > usize::MAX,
{
    batch_size.checked_mul(16)
}

/// Destination shard of a query slot: bits 32 to 63 of its value.
pub open spec fn dest_of(slot: Slot) -> u64 {
    slot.value >> 32u64
}

/// The value written for a query slot resolved to `taxid`: its payload,
/// taken above the taxon-id subfield of its low word, packed with `taxid`.
pub open spec fn repacked(slot: Slot, taxid: u32, bits: u32) -> u64 {
    combine(left_of(slot.value as u32, bits), taxid, bits) as u64
}

/// What a slot becomes: nothing when its key is not present, else its
/// destination shard and the repacked value.
pub open spec fn classify(page: Page, slot: Slot) -> Option<(u64, u64)> {
    let t = page.spec_lookup(slot);
    if t == 0 {
        None
    } else {
        Some((dest_of(slot), repacked(slot, t, page.layout().value_bits)))
    }
}

/// Looks `slot` up in `page` and, when found, routes and repacks it.
pub fn classify_slot(page: &Page, slot: &Slot) -> (r: Option<(u64, u64)>)
    requires
        page.wf(),
    ensures
        r == classify(*page, *slot),
{
    let taxid = page.get_from_page(slot);
    if taxid == 0 {
        None
    } else {
        let bits = page.get_value_bits();
        let file_index = slot.value >> 32u64;
        let l = left(slot.value as u32, bits);
        let high = combined(l, taxid, bits);
        Some((file_index, high as u64))
    }
}

/// Relies on rayon's indexed `par_iter().map(..).collect_into_vec(..)`: one
/// output per input, in input order, each the mapped input.
#[verifier::external_body]
fn classify_all(page: &Page, slots: &Vec<Slot>) -> (r: Vec<Option<(u64, u64)>>)
    requires
        page.wf(),
    ensures
        r@.len() == slots@.len(),
        forall|i: int| 0 <= i < r@.len() ==> r@[i] == classify(*page, slots@[i]),
{
    let mut out: Vec<Option<(u64, u64)>> = Vec::new();
    slots.par_iter().map(|s| classify_slot(page, s)).collect_into_vec(&mut out);
    out
}

/// Whether some classified record goes to shard `d`.
pub open spec fn has_dest(rs: Seq<Option<(u64, u64)>>, d: u64) -> bool {
    exists|i: int| 0 <= i < rs.len() && #[trigger] rs[i] is Some && rs[i]->Some_0.0 == d
}

/// Bytes bound for shard `d`: the little-endian values of the records routed
/// there, in record order.
pub open spec fn group_bytes(rs: Seq<Option<(u64, u64)>>, d: u64) -> Seq<u8>
    decreases rs.len(),
{
    if rs.len() == 0 {
        seq![]
    } else {
        group_bytes(rs.drop_last(), d) + match rs.last() {
            Some(x) => if x.0 == d {
                le_bytes(x.1)
            } else {
                seq![]
            },
            None => seq![],
        }
    }
}

/// Whether `d` lies above the shard written last (any shard, before the first).
pub open spec fn above(prev: Option<u64>, d: u64) -> bool {
    match prev {
        Some(p) => d > p,
        None => true,
    }
}

/// The bytes of one destination shard in a batch.
pub struct ShardGroup {
    pub dest: u64,
    pub bytes: Vec<u8>,
}

/// Groups are in strictly ascending shard order, one per shard that a record
/// goes to, each holding exactly that shard's bytes.
pub open spec fn groups_match(rs: Seq<Option<(u64, u64)>>, gs: Seq<ShardGroup>) -> bool {
    &&& forall|j: int, k: int| 0 <= j < k < gs.len() ==> gs[j].dest < gs[k].dest
    &&& forall|j: int|
        0 <= j < gs.len() ==> has_dest(rs, #[trigger] gs[j].dest) && gs[j].bytes@ == group_bytes(
            rs,
            gs[j].dest,
        )
    &&& forall|d: u64| has_dest(rs, d) ==> exists|j: int| 0 <= j < gs.len() && #[trigger] gs[j].dest == d
}

/// The least shard above `prev` that a record goes to.
fn next_dest(rs: &Vec<Option<(u64, u64)>>, prev: Option<u64>) -> (r: Option<u64>)
    ensures
        r matches Some(d) ==> has_dest(rs@, d) && above(prev, d) && forall|e: u64|
            has_dest(rs@, e) && above(prev, e) ==> d <= e,
        r is None ==> forall|e: u64| has_dest(rs@, e) ==> !above(prev, e),
{
    let mut best: Option<u64> = None;
    let mut i: usize = 0;
    while i < rs.len()
        invariant
            i <= rs@.len(),
            best matches Some(b) ==> above(prev, b) && exists|j: int|
                0 <= j < i && #[trigger] rs@[j] is Some && rs@[j]->Some_0.0 == b,
            forall|j: int|
                0 <= j < i && #[trigger] rs@[j] is Some && above(prev, rs@[j]->Some_0.0) ==> (
                best matches Some(b) && b <= rs@[j]->Some_0.0),
        decreases rs@.len() - i,
    {
        if let Some(x) = rs[i] {
            let is_above = match prev {
                Some(p) => x.0 > p,
                None => true,
            };
            if is_above {
                let better = match best {
                    Some(b) => x.0 < b,
                    None => true,
                };
                if better {
                    best = Some(x.0);
                }
            }
        }
        i = i + 1;
    }
    best
}

/// Concatenates the little-endian values of the records bound for `d`.
fn collect_group(rs: &Vec<Option<(u64, u64)>>, d: u64) -> (r: Vec<u8>)
    ensures
        r@ == group_bytes(rs@, d),
{
    let mut out: Vec<u8> = Vec::new();
    let mut i: usize = 0;
    while i < rs.len()
        invariant
            i <= rs@.len(),
            out@ == group_bytes(rs@.take(i as int), d),
        decreases rs@.len() - i,
    {
        assert(rs@.take(i + 1).drop_last() =~= rs@.take(i as int));
        match rs[i] {
            Some(x) => {
                if x.0 == d {
                    push_u64_le(&mut out, x.1);
                }
            },
            None => {},
        }
        i = i + 1;
    }
    assert(rs@.take(rs@.len() as int) =~= rs@);
    out
}

/// Merges classified records into one group per destination shard, in
/// ascending shard order.
pub fn group_by_dest(rs: &Vec<Option<(u64, u64)>>) -> (r: Vec<ShardGroup>)
    ensures
        groups_match(rs@, r@),
{
    let mut out: Vec<ShardGroup> = Vec::new();
    let mut prev: Option<u64> = None;
    loop
        invariant
            forall|j: int, k: int| 0 <= j < k < out@.len() ==> out@[j].dest < out@[k].dest,
            forall|j: int|
                0 <= j < out@.len() ==> has_dest(rs@, #[trigger] out@[j].dest) && out@[j].bytes@
                    == group_bytes(rs@, out@[j].dest) && !above(prev, out@[j].dest),
            prev is None <==> out@.len() == 0,
            prev matches Some(p) ==> out@.last().dest == p,
            forall|d: u64|
                has_dest(rs@, d) && !above(prev, d) ==> exists|j: int|
                    0 <= j < out@.len() && #[trigger] out@[j].dest == d,
        decreases (match prev {
            Some(p) => u64::MAX - p,
            None => u64::MAX + 1,
        }),
    {
        match next_dest(rs, prev) {
            None => {
                assert forall|d: u64| has_dest(rs@, d) implies exists|j: int|
                    0 <= j < out@.len() && #[trigger] out@[j].dest == d by {
                    assert(!above(prev, d));
                }
                return out;
            },
            Some(d) => {
                let bytes = collect_group(rs, d);
                let ghost old_out = out@;
                out.push(ShardGroup { dest: d, bytes });
                assert forall|e: u64| has_dest(rs@, e) && !above(Some(d), e) implies exists|j: int|
                    0 <= j < out@.len() && #[trigger] out@[j].dest == e by {
                    if e == d {
                        assert(out@[old_out.len() as int].dest == e);
                    } else {
                        assert(!above(prev, e));
                        let j = choose|j: int| 0 <= j < old_out.len() && #[trigger] old_out[j].dest == e;
                        assert(out@[j].dest == e);
                    }
                }
                prev = Some(d);
            },
        }
    }
}

proof fn lemma_groups_agree_at(
    rs: Seq<Option<(u64, u64)>>,
    g1: Seq<ShardGroup>,
    g2: Seq<ShardGroup>,
    j: int,
)
    requires
        groups_match(rs, g1),
        groups_match(rs, g2),
        0 <= j < g1.len(),
        0 <= j < g2.len(),
        forall|m: int| 0 <= m < j ==> #[trigger] g1[m].dest == g2[m].dest,
    ensures
        g1[j].dest == g2[j].dest,
{
    let d1 = g1[j].dest;
    let d2 = g2[j].dest;
    assert(has_dest(rs, d1));
    assert(has_dest(rs, d2));
    if d1 < d2 {
        let m = choose|m: int| 0 <= m < g2.len() && #[trigger] g2[m].dest == d1;
        if m < j {
            assert(g1[m].dest == g2[m].dest);
        } else if m > j {
            assert(g2[j].dest < g2[m].dest);
        }
    } else if d2 < d1 {
        let m = choose|m: int| 0 <= m < g1.len() && #[trigger] g1[m].dest == d2;
        if m < j {
            assert(g1[m].dest == g2[m].dest);
        } else if m > j {
            assert(g1[j].dest < g1[m].dest);
        }
    }
}

proof fn lemma_groups_agree_upto(
    rs: Seq<Option<(u64, u64)>>,
    g1: Seq<ShardGroup>,
    g2: Seq<ShardGroup>,
    j: int,
)
    requires
        groups_match(rs, g1),
        groups_match(rs, g2),
        0 <= j <= g1.len(),
        j <= g2.len(),
    ensures
        forall|m: int| 0 <= m < j ==> #[trigger] g1[m].dest == g2[m].dest,
    decreases j,
{
    if j > 0 {
        lemma_groups_agree_upto(rs, g1, g2, j - 1);
        lemma_groups_agree_at(rs, g1, g2, j - 1);
    }
}

/// The grouping of a batch is unique: any two groupings that meet
/// `groups_match` for the same records name the same shards in the same
/// order with the same bytes, whatever order the records were classified in,
/// so a chunk processed again appends the very same bytes again.
pub proof fn lemma_groups_unique(
    rs: Seq<Option<(u64, u64)>>,
    g1: Seq<ShardGroup>,
    g2: Seq<ShardGroup>,
)
    requires
        groups_match(rs, g1),
        groups_match(rs, g2),
    ensures
        g1.len() == g2.len(),
        forall|j: int|
            0 <= j < g1.len() ==> #[trigger] g1[j].dest == g2[j].dest && g1[j].bytes@
                == g2[j].bytes@,
{
    let n = if g1.len() <= g2.len() {
        g1.len() as int
    } else {
        g2.len() as int
    };
    lemma_groups_agree_upto(rs, g1, g2, n);
    if g1.len() < g2.len() {
        let d = g2[n].dest;
        assert(has_dest(rs, d));
        let m = choose|m: int| 0 <= m < g1.len() && #[trigger] g1[m].dest == d;
        assert(g1[m].dest == g2[m].dest);
        assert(g2[m].dest < g2[n].dest);
    } else if g2.len() < g1.len() {
        let d = g1[n].dest;
        assert(has_dest(rs, d));
        let m = choose|m: int| 0 <= m < g2.len() && #[trigger] g2[m].dest == d;
        assert(g1[m].dest == g2[m].dest);
        assert(g1[m].dest < g1[n].dest);
    }
    assert forall|j: int| 0 <= j < g1.len() implies #[trigger] g1[j].dest == g2[j].dest
        && g1[j].bytes@ == g2[j].bytes@ by {
        assert(g1[j].dest == g2[j].dest);
    }
}

/// The records of one batch: the whole 16-byte records of `bytes`, decoded.
pub open spec fn batch_slots(bytes: Seq<u8>) -> Seq<Slot> {
    Seq::new(bytes.len() / 16, |i: int| slot_at(bytes, 16 * i))
}

/// What each record of a batch becomes.
pub open spec fn batch_results(page: Page, bytes: Seq<u8>) -> Seq<Option<(u64, u64)>> {
    batch_slots(bytes).map_values(|s: Slot| classify(page, s))
}

/// Classifies one batch read from a chunk: every whole record is looked up,
/// records not found are dropped, the rest are repacked and grouped by
/// destination shard in ascending order. A trailing fragment shorter than a
/// record is ignored.
pub fn process_batch(page: &Page, bytes: &[u8]) -> (r: Vec<ShardGroup>)
    requires
        page.wf(),
    ensures
        groups_match(batch_results(*page, bytes@), r@),
{
    let slots = decode_slots(bytes);
    let rs = classify_all(page, &slots);
    assert(rs@ =~= batch_results(*page, bytes@));
    group_by_dest(&rs)
}

/// What the shard writer does for the next group.
#[derive(Clone, Copy, Debug, PartialEq, Eq)]
pub struct ShardAction {
    /// Flush and close the handle that is open now.
    pub close_current: bool,
    /// Open the group's shard in create-or-append mode.
    pub open: bool,
}

/// The shard whose output handle is open, if any.
#[derive(Clone, Copy, Debug, PartialEq, Eq)]
pub struct ShardCursor {
    pub current: Option<u64>,
}

impl ShardCursor {
    pub fn new() -> (r: ShardCursor)
        ensures
            r.current is None,
    {
        ShardCursor { current: None }
    }

    /// Decides how to reach shard `dest`: keep the open handle when it is
    /// that shard's, else close the open one, if any, and open `dest`.
    pub fn route(&mut self, dest: u64) -> (r: ShardAction)
        ensures
            final(self).current == Some(dest),
            r.open == (old(self).current != Some(dest)),
            r.close_current == (old(self).current is Some && old(self).current != Some(dest)),
    {
        let same = match self.current {
            Some(c) => c == dest,
            None => false,
        };
        if same {
            ShardAction { close_current: false, open: false }
        } else {
            let had = self.current.is_some();
            self.current = Some(dest);
            ShardAction { close_current: had, open: true }
        }
    }

    /// Ends the run: whether a handle is left to flush and close.
    pub fn finish(&mut self) -> (r: bool)
        ensures
            final(self).current is None,
            r == old(self).current is Some,
    {
        let had = self.current.is_some();
        self.current = None;
        had
    }
}

/// Phase of the processing of one chunk file.
#[derive(Clone, Copy, Debug, PartialEq, Eq)]
pub enum ChunkPhase {
    Idle,
    HeaderRead,
    PageLoaded,
    Streaming,
    Draining,
    Done,
    Failed,
}

/// What happened while processing a chunk file.
#[derive(Clone, Copy, Debug, PartialEq, Eq)]
pub enum ChunkEvent {
    /// The header was read and parsed.
    HeaderParsed,
    /// The page for the header's partition was loaded.
    PageReady,
    /// A read of the chunk body returned this many bytes.
    BytesRead(usize),
    /// The last shard handle was flushed and closed.
    ShardsClosed,
    /// A read or a write failed.
    IoFailed,
}

/// The phase after `event` in phase `phase`: reads continue streaming until
/// one returns no byte; a failure, or an event out of turn, ends in `Failed`.
pub open spec fn phase_after(phase: ChunkPhase, event: ChunkEvent) -> ChunkPhase {
    match (phase, event) {
        (_, ChunkEvent::IoFailed) => ChunkPhase::Failed,
        (ChunkPhase::Idle, ChunkEvent::HeaderParsed) => ChunkPhase::HeaderRead,
        (ChunkPhase::HeaderRead, ChunkEvent::PageReady) => ChunkPhase::PageLoaded,
        (ChunkPhase::PageLoaded, ChunkEvent::BytesRead(n)) | (
            ChunkPhase::Streaming,
            ChunkEvent::BytesRead(n),
        ) => if n == 0 {
            ChunkPhase::Draining
        } else {
            ChunkPhase::Streaming
        },
        (ChunkPhase::Draining, ChunkEvent::ShardsClosed) => ChunkPhase::Done,
        _ => ChunkPhase::Failed,
    }
}

/// Advances the phase of a chunk on `event`.
pub fn next_phase(phase: ChunkPhase, event: ChunkEvent) -> (r: ChunkPhase)
    ensures
        r == phase_after(phase, event),
{
    match (phase, event) {
        (_, ChunkEvent::IoFailed) => ChunkPhase::Failed,
        (ChunkPhase::Idle, ChunkEvent::HeaderParsed) => ChunkPhase::HeaderRead,
        (ChunkPhase::HeaderRead, ChunkEvent::PageReady) => ChunkPhase::PageLoaded,
        (ChunkPhase::PageLoaded, ChunkEvent::BytesRead(n)) | (
            ChunkPhase::Streaming,
            ChunkEvent::BytesRead(n),
        ) => if n == 0 {
            ChunkPhase::Draining
        } else {
            ChunkPhase::Streaming
        },
        (ChunkPhase::Draining, ChunkEvent::ShardsClosed) => ChunkPhase::Done,
        _ => ChunkPhase::Failed,
    }
}

} // verus!
