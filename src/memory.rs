use std::collections::HashMap;
use std::sync::Arc;

use bit_set::BitSet;
use byteorder::{ByteOrder, LittleEndian};
use vstd::prelude::*;

verus! {

broadcast use vstd::std_specs::hash::group_hash_axioms;

/// Bytes per dirty-tracking chunk.
pub const CHUNK_SIZE: usize = 64;

#[verifier::external_type_specification]
#[verifier::external_body]
#[verifier::reject_recursive_types(B)]
pub struct ExBitSet<B>(BitSet<B>);

/// The numbers that a bit set holds.
pub uninterp spec fn bits_of(s: BitSet) -> Set<nat>;

/// Relies on `BitSet::with_capacity`: a set with no members.
#[verifier::external_body]
fn bitset_with_capacity(nbits: usize) -> (r: BitSet)
    ensures
        bits_of(r) == Set::<nat>::empty(),
{
    BitSet::with_capacity(nbits)
}

/// Relies on `BitSet::clear`: every member leaves.
#[verifier::external_body]
fn bitset_clear(s: &mut BitSet)
    ensures
        bits_of(*final(s)) == Set::<nat>::empty(),
{
    s.clear()
}

/// Relies on `BitSet::insert`: `v` joins the members; the result tells whether it was new.
#[verifier::external_body]
fn bitset_insert(s: &mut BitSet, v: usize) -> (r: bool)
    ensures
        bits_of(*final(s)) == bits_of(*old(s)).insert(v as nat),
        r == !bits_of(*old(s)).contains(v as nat),
{
    s.insert(v)
}

/// Relies on `BitSet::iter`: each member once, in increasing order (blocks in order, the
/// lowest set bit of each block first).
#[verifier::external_body]
fn bitset_members(s: &BitSet) -> (r: Vec<usize>)
    ensures
        forall|i: int, j: int| 0 <= i < j < r@.len() ==> r@[i] < r@[j],
        forall|x: nat| bits_of(*s).contains(x) <==> exists|i: int| 0 <= i < r@.len() && r@[i] == x,
{
    s.iter().collect()
}

/// Relies on `BitSet`'s `Clone`: a copy of the bit vector, so the same members.
#[verifier::external_body]
fn bitset_clone(s: &BitSet) -> (r: BitSet)
    ensures
        bits_of(r) == bits_of(*s),
{
    s.clone()
}

/// The little-endian 16-bit value at `a`.
pub open spec fn le_u16(s: Seq<u8>, a: int) -> u16 {
    (s[a] + 256 * s[a + 1]) as u16
}

/// The little-endian 32-bit value at `a`.
pub open spec fn le_u32(s: Seq<u8>, a: int) -> u32 {
    (s[a] + 256 * s[a + 1] + 65536 * s[a + 2] + 16777216 * s[a + 3]) as u32
}

/// `s` with the little-endian bytes of `v` at `a`.
pub open spec fn put_le_u16(s: Seq<u8>, a: int, v: u16) -> Seq<u8> {
    s.update(a, (v % 256) as u8).update(a + 1, (v / 256) as u8)
}

/// `s` with the little-endian bytes of `v` at `a`.
pub open spec fn put_le_u32(s: Seq<u8>, a: int, v: u32) -> Seq<u8> {
    s.update(a, (v % 256) as u8).update(a + 1, ((v / 256) % 256) as u8).update(
        a + 2,
        ((v / 65536) % 256) as u8,
    ).update(a + 3, (v / 16777216) as u8)
}

/// Relies on byteorder's `LittleEndian::read_u16`: the two bytes at `at`, least significant
/// first.
#[verifier::external_body]
fn le_read_u16(buf: &[u8], at: usize) -> (r: u16)
    requires
        at + 2 <= buf@.len(),
    ensures
        r == le_u16(buf@, at as int),
{
    LittleEndian::read_u16(&buf[at..])
}

/// Relies on byteorder's `LittleEndian::read_u32`: the four bytes at `at`, least significant
/// first.
#[verifier::external_body]
pub(crate) fn le_read_u32(buf: &[u8], at: usize) -> (r: u32)
    requires
        at + 4 <= buf@.len(),
    ensures
        r == le_u32(buf@, at as int),
{
    LittleEndian::read_u32(&buf[at..])
}

/// Relies on byteorder's `LittleEndian::write_u16`: the two bytes at `at` become `v`, least
/// significant first.
#[verifier::external_body]
fn le_write_u16(buf: &mut Vec<u8>, at: usize, v: u16)
    requires
        at + 2 <= old(buf)@.len(),
    ensures
        final(buf)@ == put_le_u16(old(buf)@, at as int, v),
{
    LittleEndian::write_u16(&mut buf[at..], v)
}

/// Relies on byteorder's `LittleEndian::write_u32`: the four bytes at `at` become `v`, least
/// significant first.
#[verifier::external_body]
fn le_write_u32(buf: &mut Vec<u8>, at: usize, v: u32)
    requires
        at + 4 <= old(buf)@.len(),
    ensures
        final(buf)@ == put_le_u32(old(buf)@, at as int, v),
{
    LittleEndian::write_u32(&mut buf[at..], v)
}

/// The chunks that a write of `n` bytes at `a` marks.
pub open spec fn chunks_touched(a: int, n: int) -> Set<nat> {
    Set::new(|c: nat| a / CHUNK_SIZE as int <= c < (a + n + CHUNK_SIZE - 1) / CHUNK_SIZE as int)
}

/// `n` rounded up to a whole number of chunks.
pub open spec fn round_up(n: int) -> int {
    if n % CHUNK_SIZE as int == 0 {
        n
    } else {
        n + CHUNK_SIZE - n % CHUNK_SIZE as int
    }
}

/// `s` with `bytes` laid over it from `a` on.
pub open spec fn spliced(s: Seq<u8>, a: int, bytes: Seq<u8>) -> Seq<u8> {
    Seq::new(s.len(), |i: int| if a <= i < a + bytes.len() { bytes[i - a] } else { s[i] })
}

/// Whether a C string starts at `a` and ends at `end`: `end` holds the first zero byte at or
/// after `a`.
pub open spec fn c_string_at(s: Seq<u8>, a: int, end: int) -> bool {
    &&& a <= end < s.len()
    &&& s[end] == 0
    &&& forall|i: int| a <= i < end ==> s[i] != 0
}

/// What C's `strncpy` leaves, copying byte by byte: bytes of the source until a zero or `n`
/// of them, then zeros up to `n`.
pub open spec fn strncpy_result(s: Seq<u8>, dst: int, src: int, n: int) -> Seq<u8>
    decreases n,
{
    if n <= 0 {
        s
    } else if s[src] != 0 {
        strncpy_result(s.update(dst, s[src]), dst + 1, src + 1, n - 1)
    } else {
        spliced(s, dst, Seq::new(n as nat, |i: int| 0u8))
    }
}

/// A saved memory image: a full copy, or the chunks that differ from a full copy, by address.
pub enum MemorySnapshot {
    Baseline(Vec<u8>),
    Delta { baseline: Arc<MemorySnapshot>, chunks: HashMap<usize, Vec<u8>> },
}

/// The 64 bytes of chunk `c`.
pub open spec fn chunk(s: Seq<u8>, c: int) -> Seq<u8> {
    s.subrange(c * CHUNK_SIZE, (c + 1) * CHUNK_SIZE)
}

/// The address of the chunk that holds byte `i`.
pub open spec fn chunk_start(i: int) -> int {
    (i / CHUNK_SIZE as int) * CHUNK_SIZE
}

/// `m` with every chunk in `dirty` taken from `base`.
pub open spec fn restored_from_base(m: Seq<u8>, dirty: Set<nat>, base: Seq<u8>) -> Seq<u8> {
    Seq::new(
        m.len(),
        |i: int| if dirty.contains((i / CHUNK_SIZE as int) as nat) { base[i] } else { m[i] },
    )
}

/// `m` with each saved chunk laid over it.
pub open spec fn apply_chunks(m: Seq<u8>, chunks: Map<usize, Vec<u8>>) -> Seq<u8> {
    Seq::new(
        m.len(),
        |i: int|
            {
                let a = chunk_start(i);
                if chunks.contains_key(a as usize) {
                    chunks[a as usize]@[i - a]
                } else {
                    m[i]
                }
            },
    )
}

/// Saved chunks for memory of `len` bytes: addresses chunk-aligned and in range, each with a
/// chunk of bytes.
pub open spec fn chunk_map_ok(chunks: Map<usize, Vec<u8>>, len: int) -> bool {
    forall|a: usize|
        #[trigger] chunks.contains_key(a) ==> a as int % CHUNK_SIZE as int == 0 && a + CHUNK_SIZE
            <= len && chunks[a]@.len() == CHUNK_SIZE
}

/// The memory image that restoring `s` onto bytes `m` with dirty chunks `dirty` gives.
pub open spec fn restored(m: Seq<u8>, dirty: Set<nat>, s: MemorySnapshot) -> Seq<u8>
    decreases s,
{
    match s {
        MemorySnapshot::Baseline(b) => restored_from_base(m, dirty, b@),
        MemorySnapshot::Delta { baseline, chunks } => apply_chunks(
            restored(m, dirty, *baseline),
            chunks@,
        ),
    }
}

/// The chunks that a snapshot's deltas write.
pub open spec fn delta_chunks(s: MemorySnapshot) -> Set<nat>
    decreases s,
{
    match s {
        MemorySnapshot::Baseline(_) => Set::empty(),
        MemorySnapshot::Delta { baseline, chunks } => delta_chunks(*baseline).union(
            Set::new(|c: nat| exists|a: usize| chunks@.contains_key(a) && a == c * CHUNK_SIZE),
        ),
    }
}

/// Whether `s` can be restored onto memory of `len` bytes.
pub open spec fn fits(s: MemorySnapshot, len: int) -> bool
    decreases s,
{
    match s {
        MemorySnapshot::Baseline(b) => b@.len() == len,
        MemorySnapshot::Delta { baseline, chunks } => fits(*baseline, len) && chunk_map_ok(
            chunks@,
            len,
        ),
    }
}

/// `chunks` holds exactly the dirty chunks of `m` that differ from `base`, with the bytes of
/// `m`.
pub open spec fn exact_delta(
    m: Seq<u8>,
    dirty: Set<nat>,
    base: Seq<u8>,
    chunks: Map<usize, Vec<u8>>,
) -> bool {
    &&& chunk_map_ok(chunks, m.len() as int)
    &&& forall|a: usize|
        #[trigger] chunks.contains_key(a) ==> {
            let c = a as int / CHUNK_SIZE as int;
            &&& dirty.contains(c as nat)
            &&& chunks[a]@ == chunk(m, c)
            &&& chunk(m, c) != chunk(base, c)
        }
    &&& forall|c: nat|
        dirty.contains(c) && (c + 1) * CHUNK_SIZE <= m.len() && #[trigger] chunk(m, c as int)
            != chunk(base, c as int) ==> chunks.contains_key((c * CHUNK_SIZE) as usize)
}

/// What `take_snapshot` gives for bytes `m` with dirty chunks `dirty`: against a `Baseline`,
/// a `Delta` sharing it with exactly the differing dirty chunks; otherwise a full copy.
pub open spec fn snapshot_taken(
    m: Seq<u8>,
    dirty: Set<nat>,
    baseline: Option<&Arc<MemorySnapshot>>,
    r: MemorySnapshot,
) -> bool {
    match baseline {
        Some(a) => match **a {
            MemorySnapshot::Baseline(b) => match r {
                MemorySnapshot::Delta { baseline: bb, chunks } => bb == *a && exact_delta(
                    m,
                    dirty,
                    b@,
                    chunks@,
                ),
                MemorySnapshot::Baseline(_) => false,
            },
            MemorySnapshot::Delta { .. } => r matches MemorySnapshot::Baseline(v) && v@ == m,
        },
        None => r matches MemorySnapshot::Baseline(v) && v@ == m,
    }
}

/// Whether the 64 bytes at `addr` differ between `a` and `b`.
fn chunk_differs(a: &Vec<u8>, b: &Vec<u8>, addr: usize) -> (r: bool)
    requires
        addr + CHUNK_SIZE <= a@.len(),
        addr + CHUNK_SIZE <= b@.len(),
    ensures
        r == (a@.subrange(addr as int, addr + CHUNK_SIZE) != b@.subrange(
            addr as int,
            addr + CHUNK_SIZE,
        )),
{
    let n = a.len();
    let mut j: usize = 0;
    while j < CHUNK_SIZE
        invariant
            n == a@.len(),
            addr + CHUNK_SIZE <= a@.len(),
            addr + CHUNK_SIZE <= b@.len(),
            0 <= j <= CHUNK_SIZE,
            a@.subrange(addr as int, addr + j) == b@.subrange(addr as int, addr + j),
        decreases CHUNK_SIZE - j,
    {
        if a[addr + j] != b[addr + j] {
            proof {
                assert(a@.subrange(addr as int, addr + CHUNK_SIZE)[j as int] != b@.subrange(
                    addr as int,
                    addr + CHUNK_SIZE,
                )[j as int]);
            }
            return true;
        }
        j = j + 1;
        proof {
            assert(a@.subrange(addr as int, addr + j) =~= b@.subrange(addr as int, addr + j));
        }
    }
    false
}

/// Relies on `Arc::clone`: a second handle to the same value.
#[verifier::external_body]
fn share(a: &Arc<MemorySnapshot>) -> (r: Arc<MemorySnapshot>)
    ensures
        r == *a,
{
    Arc::clone(a)
}

/// Copies `n` bytes of `src` from `from` into `dst` at `at`.
fn copy_range(dst: &mut Vec<u8>, at: usize, src: &Vec<u8>, from: usize, n: usize)
    requires
        at + n <= old(dst)@.len(),
        from + n <= src@.len(),
    ensures
        final(dst)@ == spliced(old(dst)@, at as int, src@.subrange(from as int, from + n)),
{
    let ghost d0 = dst@;
    let total = dst.len();
    let sl = src.len();
    let mut j: usize = 0;
    while j < n
        invariant
            sl == src@.len(),
            total == dst@.len() == d0.len(),
            at + n <= total,
            from + n <= src@.len(),
            0 <= j <= n,
            dst@ == spliced(d0, at as int, src@.subrange(from as int, from + j)),
        decreases n - j,
    {
        dst.set(at + j, src[from + j]);
        j = j + 1;
        proof {
            assert(dst@ =~= spliced(d0, at as int, src@.subrange(from as int, from + j)));
        }
    }
}

/// Appends the chunk at `addr` of `src` to `dst`, which is empty.
fn copy_range_into(dst: &mut Vec<u8>, src: &Vec<u8>, addr: usize)
    requires
        old(dst)@.len() == 0,
        addr + CHUNK_SIZE <= src@.len(),
    ensures
        final(dst)@ == src@.subrange(addr as int, addr + CHUNK_SIZE),
{
    let sl = src.len();
    let mut j: usize = 0;
    while j < CHUNK_SIZE
        invariant
            sl == src@.len(),
            addr + CHUNK_SIZE <= src@.len(),
            0 <= j <= CHUNK_SIZE,
            dst@ == src@.subrange(addr as int, addr + j),
        decreases CHUNK_SIZE - j,
    {
        dst.push(src[addr + j]);
        j = j + 1;
        proof {
            assert(dst@ =~= src@.subrange(addr as int, addr + j));
        }
    }
}

proof fn lemma_chunk_index(i: int, c: int)
    requires
        i >= 0,
        c >= 0,
    ensures
        (c * CHUNK_SIZE <= i < c * CHUNK_SIZE + CHUNK_SIZE) == (i / CHUNK_SIZE as int == c),
{
    assert((c * 64 <= i < c * 64 + 64) == (i / 64 == c)) by (nonlinear_arith)
        requires
            i >= 0,
            c >= 0,
    ;
}

/// Whether `addrs` holds the address of chunk `c`.
pub open spec fn holds_chunk(addrs: Set<usize>, c: nat) -> bool {
    exists|a: usize| addrs.contains(a) && a == c * CHUNK_SIZE
}

/// The clean chunks of `m` (those outside `dirty`) equal those of `base`.
pub open spec fn clean_matches(m: Seq<u8>, dirty: Set<nat>, base: Seq<u8>) -> bool {
    forall|c: nat|
        (c + 1) * CHUNK_SIZE <= m.len() && !dirty.contains(c) ==> #[trigger] chunk(m, c as int)
            == chunk(base, c as int)
}

/// Writes through the memory API keep the clean chunks matching a reference image: if `m2`
/// differs from `m` only in `[a, a + n)` and its dirty set adds the chunks that range touches,
/// every chunk still clean matches `reference` as it did. With `lemma_snapshot_round_trip` this
/// carries a snapshot's round trip over any run of such writes.
pub proof fn lemma_tracked_write(
    m: Seq<u8>,
    dirty: Set<nat>,
    m2: Seq<u8>,
    a: int,
    n: int,
    reference: Seq<u8>,
)
    requires
        m2.len() == m.len(),
        0 <= a,
        0 <= n,
        a + n <= m.len(),
        forall|i: int| 0 <= i < m.len() && !(a <= i < a + n) ==> m2[i] == m[i],
        clean_matches(m, dirty, reference),
    ensures
        clean_matches(m2, dirty.union(chunks_touched(a, n)), reference),
{
    assert forall|c: nat|
        (c + 1) * CHUNK_SIZE <= m2.len() && !dirty.union(chunks_touched(a, n)).contains(
            c,
        ) implies #[trigger] chunk(m2, c as int) == chunk(reference, c as int) by {
        assert(!chunks_touched(a, n).contains(c));
        assert((c + 1) * 64 <= a || a + n <= c * 64) by (nonlinear_arith)
            requires
                !(a / 64 <= c && c < (a + n + 63) / 64),
                0 <= a,
                0 <= n,
        ;
        assert(chunk(m2, c as int) =~= chunk(m, c as int));
    }
}

/// Whether `s` is what `take_snapshot` gives for bytes `m` with dirty chunks `dirty`: a full
/// copy, or an exact delta against a baseline whose clean chunks `m` still shares.
pub open spec fn snapshot_of(m: Seq<u8>, dirty: Set<nat>, s: MemorySnapshot) -> bool {
    match s {
        MemorySnapshot::Baseline(v) => v@ == m,
        MemorySnapshot::Delta { baseline, chunks } => match *baseline {
            MemorySnapshot::Baseline(b) => b@.len() == m.len() && clean_matches(m, dirty, b@)
                && exact_delta(m, dirty, b@, chunks@),
            MemorySnapshot::Delta { .. } => false,
        },
    }
}

/// Snapshot round trip: take a snapshot `s` of memory `m`, write to the memory with every
/// write tracked (so it becomes `m2`, dirty set `dirty2` growing from `dirty`), and restoring
/// `s` gives back exactly `m`.
pub proof fn lemma_snapshot_round_trip(
    m: Seq<u8>,
    dirty: Set<nat>,
    s: MemorySnapshot,
    m2: Seq<u8>,
    dirty2: Set<nat>,
)
    requires
        m.len() as int % CHUNK_SIZE as int == 0,
        m.len() <= usize::MAX,
        m2.len() == m.len(),
        snapshot_of(m, dirty, s),
        dirty.subset_of(dirty2),
        clean_matches(m2, dirty2, m),
    ensures
        restored(m2, dirty2, s) == m,
{
    let len = m.len() as int;
    assert forall|i: int| 0 <= i < len implies #[trigger] restored(m2, dirty2, s)[i] == m[i] by {
        let c = i / CHUNK_SIZE as int;
        lemma_chunk_index(i, c);
        assert((c + 1) * CHUNK_SIZE <= len) by (nonlinear_arith)
            requires
                c == i / 64,
                0 <= i < len,
                len % 64 == 0,
        ;
        assert(chunk(m, c)[i - c * CHUNK_SIZE] == m[i]);
        assert(chunk(m2, c)[i - c * CHUNK_SIZE] == m2[i]);
        match s {
            MemorySnapshot::Baseline(v) => {
                assert(restored(m2, dirty2, s) == restored_from_base(m2, dirty2, v@));
                if !dirty2.contains(c as nat) {
                    assert(chunk(m2, c) == chunk(m, c));
                }
            },
            MemorySnapshot::Delta { baseline, chunks } => {
                if let MemorySnapshot::Baseline(b) = *baseline {
                    let x = restored_from_base(m2, dirty2, b@);
                    assert(restored(m2, dirty2, *baseline) == x);
                    assert(restored(m2, dirty2, s) == apply_chunks(x, chunks@));
                    assert(chunk(b@, c)[i - c * CHUNK_SIZE] == b@[i]);
                    let a = c * CHUNK_SIZE;
                    assert(chunk_start(i) == a);
                    if chunks@.contains_key(a as usize) {
                        assert((a as usize) as int / CHUNK_SIZE as int == c) by (nonlinear_arith)
                            requires
                                a == c * 64,
                                c >= 0,
                                a <= usize::MAX,
                        ;
                    } else {
                        if dirty2.contains(c as nat) {
                            if dirty.contains(c as nat) && chunk(m, c) != chunk(b@, c) {
                                assert(chunks@.contains_key((c * CHUNK_SIZE) as usize));
                            }
                        } else {
                            assert(chunk(m2, c) == chunk(m, c));
                        }
                    }
                }
            },
        }
    }
    match s {
        MemorySnapshot::Baseline(v) => {
            assert(restored(m2, dirty2, s) == restored_from_base(m2, dirty2, v@));
        },
        MemorySnapshot::Delta { baseline, chunks } => {
            if let MemorySnapshot::Baseline(b) = *baseline {
                let x = restored_from_base(m2, dirty2, b@);
                assert(restored(m2, dirty2, *baseline) == x);
                assert(restored(m2, dirty2, s) == apply_chunks(x, chunks@));
            }
        },
    }
    assert(restored(m2, dirty2, s) =~= m);
}

/// A zero at `z` ends the source of a `strncpy` of `n` bytes from `src` to `dst` before
/// memory ends, and the copy does not write over the source up to it.
pub open spec fn strncpy_stop(m: Seq<u8>, dst: int, src: int, n: int, z: int) -> bool {
    &&& src <= z < m.len()
    &&& z < src + n
    &&& m[z] == 0
    &&& (dst + n <= src || z < dst)
}

/// The bytes that a `strncpy` of `n` bytes from `src` to `dst` reads lie in memory: all `n`, or
/// those up to a zero that the copy does not overwrite first.
pub open spec fn strncpy_source_ok(m: Seq<u8>, dst: int, src: int, n: int) -> bool {
    src + n <= m.len() || exists|z: int| strncpy_stop(m, dst, src, n, z)
}

/// The VM's flat byte array, with the set of chunks written since the last `clear_dirty`.
pub struct Memory {
    data: Vec<u8>,
    dirty: BitSet,
}

impl Clone for Memory {
    fn clone(&self) -> (r: Self)
        ensures
            r@ == self@,
            r.dirty_chunks() == self.dirty_chunks(),
    {
        let data = self.data.clone();
        proof {
            assert(data@ =~= self.data@);
        }
        Memory { data, dirty: bitset_clone(&self.dirty) }
    }
}

impl View for Memory {
    type V = Seq<u8>;

    closed spec fn view(&self) -> Seq<u8> {
        self.data@
    }
}

impl Memory {
    /// The chunks written since the last `clear_dirty`.
    pub closed spec fn dirty_chunks(&self) -> Set<nat> {
        bits_of(self.dirty)
    }

    pub open spec fn wf(&self) -> bool {
        &&& self@.len() as int % CHUNK_SIZE as int == 0
        &&& forall|c: nat| #[trigger] self.dirty_chunks().contains(c) ==> (c + 1) * CHUNK_SIZE <= self@.len()
    }

    /// Memory holding `data`, zero-padded to a whole number of chunks, with nothing dirty.
    pub fn new(data: Vec<u8>) -> (r: Self)
        requires
            data@.len() + CHUNK_SIZE <= usize::MAX,
        ensures
            r.wf(),
            r@.len() == round_up(data@.len() as int),
            r@.subrange(0, data@.len() as int) == data@,
            forall|i: int| data@.len() <= i < r@.len() ==> r@[i] == 0,
            r.dirty_chunks() == Set::<nat>::empty(),
    {
        let mut data = data;
        let n = data.len();
        let rem = n % CHUNK_SIZE;
        let size = if rem == 0 { n } else { n + (CHUNK_SIZE - rem) };
        let ghost old_data = data@;
        data.resize(size, 0);
        proof {
            assert(data@.subrange(0, n as int) =~= old_data);
        }
        let dirty = bitset_with_capacity(size / CHUNK_SIZE);
        Memory { data, dirty }
    }

    pub fn size(&self) -> (r: usize)
        ensures
            r == self@.len(),
    {
        self.data.len()
    }

    pub fn clear_dirty(&mut self)
        requires
            old(self).wf(),
        ensures
            final(self).wf(),
            final(self)@ == old(self)@,
            final(self).dirty_chunks() == Set::<nat>::empty(),
    {
        bitset_clear(&mut self.dirty);
    }

    /// Marks every chunk that `size` bytes at `address` touch.
    pub fn set_dirty(&mut self, address: usize, size: usize)
        requires
            old(self).wf(),
            address + size <= old(self)@.len(),
        ensures
            final(self).wf(),
            final(self)@ == old(self)@,
            final(self).dirty_chunks() == old(self).dirty_chunks().union(
                chunks_touched(address as int, size as int),
            ),
    {
        let start = address / CHUNK_SIZE;
        let n = self.data.len();
        let e = address + size;
        let end = if e % CHUNK_SIZE == 0 { e / CHUNK_SIZE } else { e / CHUNK_SIZE + 1 };
        let mut c = start;
        let ghost d0 = self.dirty_chunks();
        while c < end
            invariant
                self.wf(),
                self@ == old(self)@,
                address + size <= self@.len(),
                start <= c <= end,
                start == address as int / CHUNK_SIZE as int,
                end == (address + size + CHUNK_SIZE - 1) / CHUNK_SIZE as int,
                self.dirty_chunks() == d0.union(Set::new(|x: nat| start <= x < c)),
            decreases end - c,
        {
            proof {
                assert((c + 1) * CHUNK_SIZE <= self@.len()) by (nonlinear_arith)
                    requires
                        c < end,
                        end == (address + size + 63) / 64,
                        address + size <= self@.len(),
                        self@.len() % 64 == 0,
                ;
            }
            bitset_insert(&mut self.dirty, c);
            c = c + 1;
            proof {
                assert(self.dirty_chunks() =~= d0.union(Set::new(|x: nat| start <= x < c)));
            }
        }
        proof {
            assert(self.dirty_chunks() =~= d0.union(chunks_touched(address as int, size as int)));
        }
    }

    /// A snapshot of the current bytes: against a `Baseline`, a `Delta` of exactly the dirty
    /// chunks that differ from it; otherwise a full copy.
    pub fn take_snapshot(&self, baseline: Option<&Arc<MemorySnapshot>>) -> (r: Arc<MemorySnapshot>)
        requires
            self.wf(),
            baseline matches Some(a) ==> (**a matches MemorySnapshot::Baseline(b) ==> b@.len()
                == self@.len()),
        ensures
            fits(*r, self@.len() as int),
            snapshot_taken(self@, self.dirty_chunks(), baseline, *r),
    {
        if let Some(base) = baseline {
            if let MemorySnapshot::Baseline(base_mem) = &**base {
                let members = bitset_members(&self.dirty);
                let len = self.data.len();
                let mut chunks: HashMap<usize, Vec<u8>> = HashMap::new();
                let mut i: usize = 0;
                while i < members.len()
                    invariant
                        self.wf(),
                        len == self@.len() == base_mem@.len(),
                        0 <= i <= members@.len(),
                        forall|x: nat| self.dirty_chunks().contains(x) <==> exists|k: int|
                            0 <= k < members@.len() && members@[k] == x,
                        chunk_map_ok(chunks@, len as int),
                        forall|a: usize|
                            #[trigger] chunks@.contains_key(a) ==> {
                                let c = a as int / CHUNK_SIZE as int;
                                &&& self.dirty_chunks().contains(c as nat)
                                &&& chunks@[a]@ == chunk(self@, c)
                                &&& chunk(self@, c) != chunk(base_mem@, c)
                            },
                        forall|l: int|
                            0 <= l < i && #[trigger] chunk(self@, members@[l] as int) != chunk(
                                base_mem@,
                                members@[l] as int,
                            ) ==> chunks@.contains_key((members@[l] * CHUNK_SIZE) as usize),
                    decreases members@.len() - i,
                {
                    let c = members[i];
                    proof {
                        assert(self.dirty_chunks().contains(c as nat));
                    }
                    let addr = c * CHUNK_SIZE;
                    if chunk_differs(&self.data, base_mem, addr) {
                        let mut bytes: Vec<u8> = Vec::new();
                        copy_range_into(&mut bytes, &self.data, addr);
                        proof {
                            assert(addr as int / CHUNK_SIZE as int == c) by (nonlinear_arith)
                                requires
                                    addr == c * 64,
                            ;
                            assert((addr as int) % (CHUNK_SIZE as int) == 0) by (nonlinear_arith)
                                requires
                                    addr == c * 64,
                            ;
                            assert(chunk(self@, c as int) =~= self@.subrange(addr as int, addr + CHUNK_SIZE));
                            assert(chunk(base_mem@, c as int) =~= base_mem@.subrange(addr as int, addr + CHUNK_SIZE));
                        }
                        chunks.insert(addr, bytes);
                    } else {
                        proof {
                            assert(chunk(self@, c as int) =~= self@.subrange(addr as int, addr + CHUNK_SIZE));
                            assert(chunk(base_mem@, c as int) =~= base_mem@.subrange(addr as int, addr + CHUNK_SIZE));
                        }
                    }
                    i = i + 1;
                }
                proof {
                    assert(fits(**base, len as int));
                    assert forall|c: nat|
                        self.dirty_chunks().contains(c) && (c + 1) * CHUNK_SIZE <= self@.len()
                            && #[trigger] chunk(self@, c as int) != chunk(base_mem@, c as int) implies chunks@.contains_key(
                        (c * CHUNK_SIZE) as usize,
                    ) by {
                        let l = choose|l: int| 0 <= l < members@.len() && members@[l] == c;
                        assert(chunk(self@, members@[l] as int) != chunk(base_mem@, members@[l] as int));
                    }
                }
                return Arc::new(MemorySnapshot::Delta { baseline: share(base), chunks });
            }
        }
        let copy = self.data.clone();
        proof {
            assert(copy@ =~= self.data@);
        }
        Arc::new(MemorySnapshot::Baseline(copy))
    }

    /// Brings memory back to the image that `snapshot` saved: a `Baseline` overwrites the dirty
    /// chunks (the clean ones already hold it), a `Delta` restores its baseline and then lays
    /// its chunks over it, marking them dirty.
    pub fn restore_from_snapshot(&mut self, snapshot: &Arc<MemorySnapshot>)
        requires
            old(self).wf(),
            fits(**snapshot, old(self)@.len() as int),
        ensures
            final(self).wf(),
            final(self)@ == restored(old(self)@, old(self).dirty_chunks(), **snapshot),
            final(self).dirty_chunks() == old(self).dirty_chunks().union(delta_chunks(**snapshot)),
            final(self)@.len() == old(self)@.len(),
    {
        self.restore_snapshot(&**snapshot);
    }

    fn restore_snapshot(&mut self, snapshot: &MemorySnapshot)
        requires
            old(self).wf(),
            fits(*snapshot, old(self)@.len() as int),
        ensures
            final(self).wf(),
            final(self)@ == restored(old(self)@, old(self).dirty_chunks(), *snapshot),
            final(self).dirty_chunks() == old(self).dirty_chunks().union(delta_chunks(*snapshot)),
            final(self)@.len() == old(self)@.len(),
        decreases *snapshot,
    {
        match snapshot {
            MemorySnapshot::Baseline(base) => {
                let members = bitset_members(&self.dirty);
                let len = self.data.len();
                let ghost m = self@;
                let mut i: usize = 0;
                while i < members.len()
                    invariant
                        self.wf(),
                        len == self@.len() == base@.len() == m.len(),
                        self.dirty_chunks() == old(self).dirty_chunks(),
                        0 <= i <= members@.len(),
                        forall|x: nat| self.dirty_chunks().contains(x) <==> exists|k: int|
                            0 <= k < members@.len() && members@[k] == x,
                        self@ == restored_from_base(
                            m,
                            Set::new(|x: nat| exists|k: int| 0 <= k < i && members@[k] == x),
                            base@,
                        ),
                    decreases members@.len() - i,
                {
                    let c = members[i];
                    proof {
                        assert(self.dirty_chunks().contains(c as nat));
                    }
                    let addr = c * CHUNK_SIZE;
                    let ghost prev = self@;
                    copy_range(&mut self.data, addr, base, addr, CHUNK_SIZE);
                    i = i + 1;
                    proof {
                        let s = Set::new(|x: nat| exists|k: int| 0 <= k < i && members@[k] == x);
                        assert forall|j: int| 0 <= j < len implies self@[j] == restored_from_base(m, s, base@)[j] by {
                            lemma_chunk_index(j, c as int);
                            let cj = (j / CHUNK_SIZE as int) as nat;
                            if cj == c {
                                assert(s.contains(cj));
                            } else {
                                if s.contains(cj) {
                                    let k = choose|k: int| 0 <= k < i && members@[k] == cj;
                                    assert(k < i - 1);
                                }
                            }
                        }
                        assert(self@ =~= restored_from_base(m, s, base@));
                    }
                }
                proof {
                    assert(Set::new(|x: nat| exists|k: int| 0 <= k < i && members@[k] == x) =~= old(self).dirty_chunks());
                    assert(self.dirty_chunks() =~= old(self).dirty_chunks().union(delta_chunks(*snapshot)));
                }
            },
            MemorySnapshot::Delta { baseline, chunks } => {
                self.restore_snapshot(&**baseline);
                let ghost m1 = self@;
                let ghost d1 = self.dirty_chunks();
                let ghost map = chunks@;
                let ghost len = m1.len();
                let ghost mut seen: Set<usize> = Set::empty();
                let total = self.data.len();
                for entry in it: chunks.iter()
                    invariant
                        total == len,
                        self.wf(),
                        self@.len() == len == old(self)@.len(),
                        map == chunks@,
                        chunk_map_ok(map, len as int),
                        forall|j: int|
                            0 <= j < it.seq().len() ==> map.contains_key(*(#[trigger] it.seq()[j]).0),
                        forall|j: int|
                            0 <= j < it.seq().len() ==> map[*(#[trigger] it.seq()[j]).0] == *it.seq()[j].1,
                        forall|a: usize|
                            #[trigger] map.contains_key(a) ==> exists|j: int|
                                0 <= j < it.seq().len() && *it.seq()[j].0 == a,
                        forall|a: usize|
                            #[trigger] seen.contains(a) <==> exists|j: int|
                                0 <= j < it.index() && *it.seq()[j].0 == a,
                        it.index() == it.seq().len() ==> seen =~= map.dom(),
                        forall|i: int|
                            0 <= i < len ==> #[trigger] self@[i] == if seen.contains(chunk_start(i) as usize) {
                                map[chunk_start(i) as usize]@[i - chunk_start(i)]
                            } else {
                                m1[i]
                            },
                        self.dirty_chunks() == d1.union(Set::new(|c: nat| holds_chunk(seen, c))),
                {
                    let (addr, bytes) = entry;
                    let ghost j0 = it.index() as int;
                    proof {
                        assert(*it.seq()[j0].0 == *addr);
                        assert(map.contains_key(*addr));
                        assert(map[*addr] == *bytes);
                    }
                    let ghost seen0 = seen;
                    let ghost pre = self@;
                    self.set_dirty(*addr, CHUNK_SIZE);
                    copy_range(&mut self.data, *addr, bytes, 0, CHUNK_SIZE);
                    proof {
                        seen = seen.insert(*addr);
                    }
                    proof {
                        let a = *addr as int;
                        let c = a / CHUNK_SIZE as int;
                        assert(a == c * 64) by (nonlinear_arith)
                            requires
                                a % 64 == 0,
                                c == a / 64,
                        ;
                        assert(chunks_touched(a, CHUNK_SIZE as int) =~= set![c as nat]);
                        assert forall|i: int| 0 <= i < len implies #[trigger] self@[i] == if seen.contains(
                            chunk_start(i) as usize,
                        ) {
                            map[chunk_start(i) as usize]@[i - chunk_start(i)]
                        } else {
                            m1[i]
                        } by {
                            lemma_chunk_index(i, c);
                            let ci = i / CHUNK_SIZE as int;
                            lemma_chunk_index(i, ci);
                            assert(chunk_start(i) == ci * 64);
                            assert(pre[i] == if seen0.contains(chunk_start(i) as usize) {
                                map[chunk_start(i) as usize]@[i - chunk_start(i)]
                            } else {
                                m1[i]
                            });
                            if a <= i < a + 64 {
                                assert(ci == c);
                                assert(chunk_start(i) as usize == *addr);
                                assert(bytes@.subrange(0, CHUNK_SIZE as int)[i - a] == bytes@[i - a]);
                            } else {
                                assert(ci != c);
                                assert(ci * 64 != c * 64) by (nonlinear_arith)
                                    requires
                                        ci != c,
                                ;
                                assert(chunk_start(i) as usize != *addr);
                                assert(seen.contains(chunk_start(i) as usize) == seen0.contains(
                                    chunk_start(i) as usize,
                                ));
                            }
                        }
                        assert forall|x: nat| #[trigger] holds_chunk(seen, x) == (holds_chunk(seen0, x) || x == c) by {
                            if x != c {
                                assert(x * 64 != c * 64) by (nonlinear_arith)
                                    requires
                                        x != c,
                                ;
                                if holds_chunk(seen, x) {
                                    let b = choose|b: usize| seen.contains(b) && b == x * CHUNK_SIZE;
                                    assert(b != *addr);
                                    assert(seen0.contains(b));
                                }
                                if holds_chunk(seen0, x) {
                                    let b = choose|b: usize| seen0.contains(b) && b == x * CHUNK_SIZE;
                                    assert(seen.contains(b));
                                }
                            } else {
                                assert(seen.contains(*addr) && *addr == x * CHUNK_SIZE);
                            }
                        }
                        assert(self.dirty_chunks() =~= d1.union(Set::new(|x: nat| holds_chunk(seen, x))));
                        assert forall|b: usize| #[trigger] seen.contains(b) <==> exists|j: int|
                            0 <= j < j0 + 1 && *it.seq()[j].0 == b by {
                            if b == *addr {
                                assert(*it.seq()[j0].0 == b);
                            }
                        }
                        assert forall|b: usize|
                            #[trigger] map.contains_key(b) && j0 + 1 == it.seq().len() implies seen.contains(
                            b,
                        ) by {
                            let j = choose|j: int| 0 <= j < it.seq().len() && *it.seq()[j].0 == b;
                            assert(0 <= j < j0 + 1 && *it.seq()[j].0 == b);
                        }
                        assert forall|b: usize| #[trigger] seen.contains(b) implies map.contains_key(b) by {
                            let j = choose|j: int| 0 <= j < j0 + 1 && *it.seq()[j].0 == b;
                            assert(map.contains_key(*it.seq()[j].0));
                        }
                        assert(j0 + 1 == it.seq().len() ==> seen =~= map.dom());
                    }
                }
                proof {
                    assert(seen =~= map.dom());
                    assert forall|i: int| 0 <= i < len implies self@[i] == apply_chunks(
                        restored(old(self)@, old(self).dirty_chunks(), **baseline),
                        map,
                    )[i] by {
                        let ci = i / CHUNK_SIZE as int;
                        lemma_chunk_index(i, ci);
                        assert(chunk_start(i) == ci * 64);
                    }
                    assert(self@ =~= restored(old(self)@, old(self).dirty_chunks(), *snapshot));
                    assert(self.dirty_chunks() =~= old(self).dirty_chunks().union(delta_chunks(*snapshot)));
                }
            },
        }
    }

    /// The `size` bytes at `address`.
    pub fn slice(&self, address: usize, size: usize) -> (r: &[u8])
        requires
            address + size <= self@.len(),
        ensures
            r@ == self@.subrange(address as int, address + size),
    {
        let _n = self.data.len();
        vstd::slice::slice_subrange(self.data.as_slice(), address, address + size)
    }

    /// Lays `bytes` over memory from `address` on.
    pub fn write_bytes(&mut self, address: usize, bytes: &[u8])
        requires
            old(self).wf(),
            address + bytes@.len() <= old(self)@.len(),
        ensures
            final(self).wf(),
            final(self)@ == spliced(old(self)@, address as int, bytes@),
            final(self).dirty_chunks() == old(self).dirty_chunks().union(
                chunks_touched(address as int, bytes@.len() as int),
            ),
    {
        self.set_dirty(address, bytes.len());
        let ghost s0 = self@;
        let total = self.data.len();
        let mut i: usize = 0;
        while i < bytes.len()
            invariant
                total == self@.len(),
                self.wf(),
                address + bytes@.len() <= self@.len(),
                0 <= i <= bytes@.len(),
                self@ == spliced(s0, address as int, bytes@.subrange(0, i as int)),
                self.dirty_chunks() == old(self).dirty_chunks().union(
                    chunks_touched(address as int, bytes@.len() as int),
                ),
            decreases bytes@.len() - i,
        {
            self.data.set(address + i, bytes[i]);
            i = i + 1;
            proof {
                assert(self@ =~= spliced(s0, address as int, bytes@.subrange(0, i as int)));
            }
        }
        proof {
            assert(bytes@.subrange(0, i as int) =~= bytes@);
        }
    }

    pub fn read_u8(&self, address: u32) -> (r: u8)
        requires
            address < self@.len(),
        ensures
            r == self@[address as int],
    {
        self.data[address as usize]
    }

    /// The little-endian 16-bit value at `address`, which need not be aligned.
    pub fn read_u16(&self, address: u32) -> (r: u16)
        requires
            address + 2 <= self@.len(),
        ensures
            r == le_u16(self@, address as int),
    {
        le_read_u16(self.data.as_slice(), address as usize)
    }

    /// The little-endian 32-bit value at `address`, which need not be aligned.
    pub fn read(&self, address: u32) -> (r: u32)
        requires
            address + 4 <= self@.len(),
        ensures
            r == le_u32(self@, address as int),
    {
        le_read_u32(self.data.as_slice(), address as usize)
    }

    pub fn write_u8(&mut self, address: u32, value: u8)
        requires
            old(self).wf(),
            address < old(self)@.len(),
        ensures
            final(self).wf(),
            final(self)@ == old(self)@.update(address as int, value),
            final(self).dirty_chunks() == old(self).dirty_chunks().union(
                chunks_touched(address as int, 1),
            ),
    {
        self.set_dirty(address as usize, 1);
        self.data.set(address as usize, value);
    }

    pub fn write_u16(&mut self, address: u32, value: u16)
        requires
            old(self).wf(),
            address + 2 <= old(self)@.len(),
        ensures
            final(self).wf(),
            final(self)@ == put_le_u16(old(self)@, address as int, value),
            final(self).dirty_chunks() == old(self).dirty_chunks().union(
                chunks_touched(address as int, 2),
            ),
    {
        self.set_dirty(address as usize, 2);
        le_write_u16(&mut self.data, address as usize, value);
    }

    /// Stores `value` little-endian at `address`, which need not be aligned.
    pub fn write(&mut self, address: u32, value: u32)
        requires
            old(self).wf(),
            address + 4 <= old(self)@.len(),
        ensures
            final(self).wf(),
            final(self)@ == put_le_u32(old(self)@, address as int, value),
            final(self).dirty_chunks() == old(self).dirty_chunks().union(
                chunks_touched(address as int, 4),
            ),
    {
        self.set_dirty(address as usize, 4);
        le_write_u32(&mut self.data, address as usize, value);
    }

    /// The bytes from `address` up to, not including, the first zero; `None` where no zero
    /// follows.
    pub fn cstr(&self, address: u32) -> (r: Option<Vec<u8>>)
        requires
            address <= self@.len(),
        ensures
            match r {
                Some(v) => c_string_at(self@, address as int, address + v@.len()) && v@
                    == self@.subrange(address as int, address + v@.len()),
                None => forall|i: int| address <= i < self@.len() ==> self@[i] != 0,
            },
    {
        let n = self.data.len();
        let mut i = address as usize;
        let mut out: Vec<u8> = Vec::new();
        while i < n
            invariant
                n == self@.len(),
                address <= i <= n,
                forall|j: int| address <= j < i ==> self@[j] != 0,
                out@ == self@.subrange(address as int, i as int),
            decreases n - i,
        {
            if self.data[i] == 0 {
                return Some(out);
            }
            out.push(self.data[i]);
            i = i + 1;
            proof {
                assert(out@ =~= self@.subrange(address as int, i as int));
            }
        }
        None
    }

    /// Sets `size` bytes at `dst` to `value`.
    pub fn memset(&mut self, dst: u32, value: u8, size: u32)
        requires
            old(self).wf(),
            dst + size <= old(self)@.len(),
        ensures
            final(self).wf(),
            final(self)@ == spliced(old(self)@, dst as int, Seq::new(size as nat, |i: int| value)),
            final(self).dirty_chunks() == old(self).dirty_chunks().union(
                chunks_touched(dst as int, size as int),
            ),
    {
        let bytes: Vec<u8> = vec![value; size as usize];
        proof {
            assert(bytes@ =~= Seq::new(size as nat, |i: int| value));
        }
        self.write_bytes(dst as usize, bytes.as_slice());
    }

    /// Copies `size` bytes from `src` to `dst`; the two ranges may overlap.
    pub fn memcpy(&mut self, dst: u32, src: u32, size: u32)
        requires
            old(self).wf(),
            dst + size <= old(self)@.len(),
            src + size <= old(self)@.len(),
        ensures
            final(self).wf(),
            final(self)@ == spliced(old(self)@, dst as int, old(self)@.subrange(src as int, src + size)),
            final(self).dirty_chunks() == old(self).dirty_chunks().union(
                chunks_touched(dst as int, size as int),
            ),
    {
        let n = self.data.len();
        let mut bytes: Vec<u8> = Vec::new();
        let mut i: usize = src as usize;
        let end: usize = src as usize + size as usize;
        while i < end
            invariant
                n == self@.len(),
                src <= i <= end <= n,
                end == src + size,
                bytes@ == self@.subrange(src as int, i as int),
            decreases end - i,
        {
            bytes.push(self.data[i]);
            i = i + 1;
            proof {
                assert(bytes@ =~= self@.subrange(src as int, i as int));
            }
        }
        self.write_bytes(dst as usize, bytes.as_slice());
    }

    /// Whether `strncpy(dst, src, size)` reads only bytes in memory.
    pub fn strncpy_source_fits(&self, dst: u32, src: u32, size: u32) -> (r: bool)
        ensures
            r == strncpy_source_ok(self@, dst as int, src as int, size as int),
    {
        let len = self.data.len() as u64;
        if src as u64 + size as u64 <= len {
            return true;
        }
        if src as u64 >= len {
            proof {
                assert forall|z: int| !strncpy_stop(self@, dst as int, src as int, size as int, z) by {}
            }
            return false;
        }
        match self.cstr(src) {
            Some(v) => {
                let z = src as u64 + v.len() as u64;
                let r = z < src as u64 + size as u64 && (dst as u64 + size as u64 <= src as u64
                    || z < dst as u64);
                proof {
                    if !r {
                        assert forall|y: int| !strncpy_stop(self@, dst as int, src as int, size as int, y) by {
                            if strncpy_stop(self@, dst as int, src as int, size as int, y) {
                                assert(y >= z);
                            }
                        }
                    } else {
                        assert(strncpy_stop(self@, dst as int, src as int, size as int, z as int));
                    }
                }
                r
            },
            None => {
                proof {
                    assert forall|y: int| !strncpy_stop(self@, dst as int, src as int, size as int, y) by {}
                }
                false
            },
        }
    }

    /// C's `strncpy`: copies bytes from `src` until a zero or `size` of them, then fills with
    /// zeros up to `size` bytes at `dst`.
    pub fn strncpy(&mut self, dst: u32, src: u32, size: u32)
        requires
            old(self).wf(),
            dst + size <= old(self)@.len(),
            strncpy_source_ok(old(self)@, dst as int, src as int, size as int),
        ensures
            final(self).wf(),
            final(self)@ == strncpy_result(old(self)@, dst as int, src as int, size as int),
            final(self)@.len() == old(self)@.len(),
            final(self).dirty_chunks() == old(self).dirty_chunks().union(
                chunks_touched(dst as int, size as int),
            ),
    {
        self.set_dirty(dst as usize, size as usize);
        let total = self.data.len();
        let mut d: usize = dst as usize;
        let mut s: usize = src as usize;
        let mut n: usize = size as usize;
        let ghost whole = src + size <= total;
        let ghost z: int = if whole {
            0
        } else {
            choose|z: int| strncpy_stop(old(self)@, dst as int, src as int, size as int, z)
        };
        while n != 0 && self.data[s] != 0
            invariant
                total == self@.len(),
                self.wf(),
                d + n <= self@.len(),
                whole == (src + size <= total),
                whole ==> s + n <= self@.len(),
                !whole ==> s <= z < total && self@[z] == 0 && (dst + size <= src || z < dst),
                !whole ==> forall|i: int| s <= i <= z ==> self@[i] == old(self)@[i],
                d == dst + (size - n),
                s == src + (size - n),
                strncpy_result(self@, d as int, s as int, n as int) == strncpy_result(
                    old(self)@,
                    dst as int,
                    src as int,
                    size as int,
                ),
                self.dirty_chunks() == old(self).dirty_chunks().union(
                    chunks_touched(dst as int, size as int),
                ),
            decreases n,
        {
            let b = self.data[s];
            self.data.set(d, b);
            d = d + 1;
            s = s + 1;
            n = n - 1;
        }
        let ghost s1 = self@;
        let d1 = d;
        let n1 = n;
        while n != 0
            invariant
                total == self@.len(),
                self.wf(),
                d1 + n1 <= self@.len(),
                d1 <= d,
                d + n == d1 + n1,
                self@ == spliced(s1, d1 as int, Seq::new((d - d1) as nat, |i: int| 0u8)),
                self.dirty_chunks() == old(self).dirty_chunks().union(
                    chunks_touched(dst as int, size as int),
                ),
            decreases n,
        {
            self.data.set(d, 0);
            d = d + 1;
            n = n - 1;
            proof {
                assert(self@ =~= spliced(s1, d1 as int, Seq::new((d - d1) as nat, |i: int| 0u8)));
            }
        }
        proof {
            if n1 == 0 {
                assert(self@ =~= s1);
            }
        }
    }
}

} // verus!
