//! Encoding the recovery slices of one volume.
//!
//! The encoder holds one buffer for each recovery block and is handed the input
//! slices one after the other; each slice is multiplied into every buffer.

use crate::bytes::put_bytes;
use crate::format::Md5Hash;
use crate::galois::gf_power;
use crate::galois_simd::{
    gf_mul_xor_with_tables, multiplies, CoeffSimdTables, Dispatch,
};
use crate::packet::recovery::{build_recovery_packet, recovery_packet};
use crate::reedsolomon::{input_bases, recovery_slice, zeros, RsEncoder};
use crate::symbols::{lemma_map_xor_is_mul_xor, map_xor};
use rayon::iter::{IndexedParallelIterator, IntoParallelIterator, ParallelIterator};
use rayon::slice::ParallelSliceMut;
use vstd::prelude::*;

verus! {

/// `rayon::current_num_threads`: how many threads share the work. It depends on
/// the machine, so nothing is claimed of it.
pub assume_specification[ rayon::current_num_threads ]() -> usize
;

/// rayon's `into_par_iter`, `map` and `collect` on a range: one result for each
/// index, in order.
#[verifier::external_body]
fn par_map<T: Send, F: Fn(usize) -> T + Sync + Send>(count: usize, f: F) -> (r: Vec<T>)
    requires
        forall|i: usize| i < count ==> #[trigger] call_requires(f, (i,)),
    ensures
        r@.len() == count,
        forall|i: usize| i < count ==> call_ensures(f, (i,), #[trigger] r@[i as int]),
{
    (0..count).into_par_iter().map(f).collect()
}

/// Multiply `slice` into the buffers of chunk number `chunk_idx`.
fn accumulate_chunk(
    chunk_idx: usize,
    chunk_len: usize,
    chunk: &mut [Vec<u8>],
    tables: &Vec<CoeffSimdTables>,
    slice: &[u8],
)
    requires
        chunk_idx * chunk_len + old(chunk)@.len() <= tables.len(),
        slice@.len() % 2 == 0,
        forall|j: int|
            0 <= j < old(chunk)@.len() ==> (#[trigger] old(chunk)@[j])@.len() == slice@.len(),
        forall|r: int| 0 <= r < tables@.len() ==> (#[trigger] tables@[r]).wf(),
    ensures
        final(chunk)@.len() == old(chunk)@.len(),
        forall|j: int|
            0 <= j < old(chunk)@.len() ==> (#[trigger] final(chunk)@[j])@ == map_xor(
                tables@[chunk_idx * chunk_len + j].map(),
                slice@,
                old(chunk)@[j]@,
            ),
{
    let base: usize = chunk_idx * chunk_len;
    let n: usize = chunk.len();
    let mut j: usize = 0;
    while j < n
        invariant
            j <= n,
            n == chunk@.len(),
            n == old(chunk)@.len(),
            base == chunk_idx * chunk_len,
            base + n <= tables.len(),
            slice@.len() % 2 == 0,
            forall|i: int|
                0 <= i < n ==> (#[trigger] old(chunk)@[i])@.len() == slice@.len(),
            forall|r: int| 0 <= r < tables@.len() ==> (#[trigger] tables@[r]).wf(),
            forall|i: int| j <= i < n ==> #[trigger] chunk@[i] == old(chunk)@[i],
            forall|i: int|
                0 <= i < j ==> (#[trigger] chunk@[i])@ == map_xor(
                    tables@[base + i].map(),
                    slice@,
                    old(chunk)@[i]@,
                ),
        decreases n - j,
    {
        gf_mul_xor_with_tables(&tables[base + j], slice, chunk[j].as_mut_slice());
        j = j + 1;
    }
}

/// rayon's `par_chunks_mut`, `enumerate` and `for_each`: the buffers are cut into
/// chunks of `chunk_len`, and `accumulate_chunk` is called once on each chunk
/// with its number. Together the calls XOR the image of `slice` under each
/// buffer's own tables into that buffer.
#[verifier::external_body]
fn par_accumulate(
    buffers: &mut Vec<Vec<u8>>,
    chunk_len: usize,
    tables: &Vec<CoeffSimdTables>,
    slice: &[u8],
)
    requires
        chunk_len > 0,
        old(buffers)@.len() == tables@.len(),
        slice@.len() % 2 == 0,
        forall|r: int|
            0 <= r < old(buffers)@.len() ==> (#[trigger] old(buffers)@[r])@.len() == slice@.len(),
        forall|r: int| 0 <= r < tables@.len() ==> (#[trigger] tables@[r]).wf(),
    ensures
        final(buffers)@.len() == old(buffers)@.len(),
        forall|r: int|
            0 <= r < old(buffers)@.len() ==> (#[trigger] final(buffers)@[r])@ == map_xor(
                tables@[r].map(),
                slice@,
                old(buffers)@[r]@,
            ),
{
    buffers.par_chunks_mut(chunk_len).enumerate().for_each(
        |(i, chunk)| accumulate_chunk(i, chunk_len, chunk, tables, slice),
    );
}

/// The recovery packets of the first `n` blocks of a volume.
pub open spec fn recovery_packets(
    set_id: Seq<u8>,
    bases: Seq<u16>,
    first_exponent: nat,
    slices: Seq<Seq<u8>>,
    slice_size: nat,
    n: nat,
) -> Seq<u8>
    decreases n,
{
    if n == 0 {
        Seq::empty()
    } else {
        recovery_packets(set_id, bases, first_exponent, slices, slice_size, (n - 1) as nat)
            + recovery_packet(
            set_id,
            (first_exponent + n - 1) as u16,
            recovery_slice(
                bases,
                (first_exponent + n - 1) as nat,
                slices,
                slices.len(),
                slice_size,
            ),
        )
    }
}

/// A volume file: the critical packets, the recovery packets in the order of
/// their exponents, and the critical packets again.
pub open spec fn volume_file(
    set_id: Seq<u8>,
    critical: Seq<u8>,
    bases: Seq<u16>,
    first_exponent: nat,
    count: nat,
    slices: Seq<Seq<u8>>,
    slice_size: nat,
) -> Seq<u8> {
    critical + recovery_packets(set_id, bases, first_exponent, slices, slice_size, count) + critical
}

/// A recovery slice depends on the slices added so far only.
pub proof fn lemma_recovery_slice_prefix(
    bases: Seq<u16>,
    e: nat,
    a: Seq<Seq<u8>>,
    b: Seq<Seq<u8>>,
    n: nat,
    len: nat,
)
    requires
        n <= a.len(),
        n <= b.len(),
        forall|i: int| 0 <= i < n ==> #[trigger] a[i] == b[i],
    ensures
        recovery_slice(bases, e, a, n, len) == recovery_slice(bases, e, b, n, len),
    decreases n,
{
    if n > 0 {
        lemma_recovery_slice_prefix(bases, e, a, b, (n - 1) as nat, len);
        assert(a[n - 1] == b[n - 1]);
    }
}

/// A recovery slice is as long as the slices.
pub proof fn lemma_recovery_slice_len(
    bases: Seq<u16>,
    e: nat,
    slices: Seq<Seq<u8>>,
    n: nat,
    len: nat,
)
    ensures
        recovery_slice(bases, e, slices, n, len).len() == len,
    decreases n,
{
    if n > 0 {
        lemma_recovery_slice_len(bases, e, slices, (n - 1) as nat, len);
    }
}

/// The encoder of one volume. Its view is the slices it was handed.
pub struct VolumeEncoder {
    rs: RsEncoder,
    first_exponent: u16,
    dispatch: Dispatch,
    buffers: Vec<Vec<u8>>,
    done: usize,
    slices: Ghost<Seq<Seq<u8>>>,
    size: Ghost<nat>,
}

impl View for VolumeEncoder {
    type V = Seq<Seq<u8>>;

    closed spec fn view(&self) -> Seq<Seq<u8>> {
        self.slices@
    }
}

impl VolumeEncoder {
    /// The bases of the input blocks.
    pub closed spec fn bases(&self) -> Seq<u16> {
        self.rs.input_bases@
    }

    /// The exponent of the first recovery block; the others follow it.
    pub closed spec fn first(&self) -> nat {
        self.first_exponent as nat
    }

    /// Number of recovery blocks.
    pub closed spec fn count(&self) -> nat {
        self.rs.recovery_exponents@.len()
    }

    /// Size of a slice.
    pub closed spec fn slice_size(&self) -> nat {
        self.size@
    }

    /// Each buffer is the recovery slice of the slices handed over so far.
    pub closed spec fn wf(&self) -> bool {
        &&& self.size@ % 4 == 0
        &&& self.first() + self.count() <= 65536
        &&& self.rs.recovery_exponents@ == Seq::new(
            self.count(),
            |r: int| (self.first_exponent + r) as u16,
        )
        &&& self.done == self.slices@.len()
        &&& self.slices@.len() <= self.rs.input_bases@.len()
        &&& self.buffers@.len() == self.rs.recovery_exponents@.len()
        &&& forall|r: int|
            0 <= r < self.buffers@.len() ==> (#[trigger] self.buffers@[r])@ == recovery_slice(
                self.rs.input_bases@,
                self.rs.recovery_exponents@[r] as nat,
                self.slices@,
                self.slices@.len(),
                self.size@,
            )
    }

    /// An encoder for `count` recovery blocks with exponents from
    /// `first_exponent` on, over `input_count` input blocks.
    pub fn new(
        input_count: u32,
        first_exponent: u16,
        count: u32,
        slice_size: usize,
        dispatch: Dispatch,
    ) -> (enc: Self)
        requires
            input_count <= 32768,
            first_exponent + count <= 65536,
            slice_size % 4 == 0,
        ensures
            enc.wf(),
            enc@ == Seq::<Seq<u8>>::empty(),
            enc.bases() == input_bases(input_count as nat),
            enc.first() == first_exponent,
            enc.count() == count,
            enc.slice_size() == slice_size,
    {
        let rs: RsEncoder = RsEncoder::new(input_count, first_exponent, count);
        let mut buffers: Vec<Vec<u8>> = Vec::new();
        let mut r: u32 = 0;
        while r < count
            invariant
                r <= count,
                buffers@.len() == r,
                forall|i: int| 0 <= i < r ==> (#[trigger] buffers@[i])@ == zeros(slice_size as nat),
            decreases count - r,
        {
            let buffer: Vec<u8> = vec![0u8; slice_size];
            assert(buffer@ =~= zeros(slice_size as nat));
            buffers.push(buffer);
            r = r + 1;
        }
        VolumeEncoder {
            rs,
            first_exponent,
            dispatch,
            buffers,
            done: 0,
            slices: Ghost(Seq::empty()),
            size: Ghost(slice_size as nat),
        }
    }

    /// Multiply the next input slice into every recovery buffer.
    pub fn absorb(&mut self, slice: &[u8])
        requires
            old(self).wf(),
            slice@.len() == old(self).slice_size(),
            old(self)@.len() < old(self).bases().len(),
        ensures
            final(self).wf(),
            final(self)@ == old(self)@.push(slice@),
            final(self).bases() == old(self).bases(),
            final(self).first() == old(self).first(),
            final(self).count() == old(self).count(),
            final(self).slice_size() == old(self).slice_size(),
    {
        let ghost before = *self;
        let count: usize = self.buffers.len();
        let threads: usize = rayon::current_num_threads();
        let workers: usize = if threads == 0 { 1 } else { threads };
        let chunk_len: usize = if count == 0 { 1 } else { (count - 1) / workers + 1 };
        let rs: &RsEncoder = &self.rs;
        let dispatch: Dispatch = self.dispatch;
        let input_idx: usize = self.done;
        let build = |r: usize| -> (t: CoeffSimdTables)
            requires
                r < rs.recovery_exponents@.len(),
                input_idx < rs.input_bases@.len(),
            ensures
                t.wf(),
                multiplies(
                    t.map(),
                    gf_power(
                        rs.input_bases@[input_idx as int],
                        rs.recovery_exponents@[r as int] as nat,
                    ),
                ),
            { CoeffSimdTables::new(dispatch, rs.coefficient(r, input_idx)) };
        let tables: Vec<CoeffSimdTables> = par_map(count, build);
        proof {
            assert forall|r: int| 0 <= r < count implies (#[trigger] self.buffers@[r])@.len()
                == slice@.len() by {
                lemma_recovery_slice_len(
                    self.rs.input_bases@,
                    self.rs.recovery_exponents@[r] as nat,
                    self.slices@,
                    self.slices@.len(),
                    self.size@,
                );
            }
            assert forall|r: int| 0 <= r < count implies (#[trigger] tables@[r]).wf() by {
                assert(tables@[r as usize as int].wf());
            }
        }
        par_accumulate(&mut self.buffers, chunk_len, &tables, slice);
        assert(self.done < self.rs.input_bases.len());
        self.done = self.done + 1;
        self.slices = Ghost(self.slices@.push(slice@));
        proof {
            assert forall|r: int| 0 <= r < count implies (#[trigger] self.buffers@[r])@
                == recovery_slice(
                self.rs.input_bases@,
                self.rs.recovery_exponents@[r] as nat,
                self.slices@,
                self.slices@.len(),
                self.size@,
            ) by {
                let e = self.rs.recovery_exponents@[r] as nat;
                let coeff = gf_power(self.rs.input_bases@[input_idx as int], e);
                assert(multiplies(tables@[r as usize as int].map(), coeff));
                lemma_map_xor_is_mul_xor(tables@[r].map(), coeff, slice@, before.buffers@[r]@);
                lemma_recovery_slice_prefix(
                    self.rs.input_bases@,
                    e,
                    before.slices@,
                    self.slices@,
                    before.slices@.len(),
                    self.size@,
                );
                assert(before.buffers@[r]@ == recovery_slice(
                    self.rs.input_bases@,
                    e,
                    before.slices@,
                    before.slices@.len(),
                    self.size@,
                ));
            }
        }
    }

    /// The volume file of what was handed over.
    pub fn build_volume_file(&self, set_id_hash: &Md5Hash, critical_packets: &[u8]) -> (out: Vec<u8>)
        requires
            self.wf(),
        ensures
            out@ == volume_file(
                set_id_hash@,
                critical_packets@,
                self.bases(),
                self.first(),
                self.count(),
                self@,
                self.slice_size(),
            ),
    {
        let mut out: Vec<u8> = Vec::new();
        put_bytes(&mut out, critical_packets);
        let mut r: usize = 0;
        let ghost size = self.slice_size();
        let ghost first = self.first();
        assert(out@ =~= critical_packets@ + recovery_packets(
            set_id_hash@,
            self.bases(),
            first,
            self@,
            size,
            0,
        ));
        while r < self.buffers.len()
            invariant
                self.wf(),
                size == self.slice_size(),
                first == self.first(),
                r <= self.buffers@.len(),
                out@ == critical_packets@ + recovery_packets(
                    set_id_hash@,
                    self.bases(),
                    first,
                    self@,
                    size,
                    r as nat,
                ),
            decreases self.buffers@.len() - r,
        {
            let exponent: u16 = self.rs.recovery_exponents[r];
            proof {
                assert(exponent == first + r);
                lemma_recovery_slice_len(
                    self.rs.input_bases@,
                    exponent as nat,
                    self.slices@,
                    self.slices@.len(),
                    self.size@,
                );
            }
            let pkt: Vec<u8> = build_recovery_packet(set_id_hash, exponent, &self.buffers[r]);
            put_bytes(&mut out, &pkt);
            r = r + 1;
            assert(out@ =~= critical_packets@ + recovery_packets(
                set_id_hash@,
                self.bases(),
                first,
                self@,
                size,
                r as nat,
            ));
        }
        put_bytes(&mut out, critical_packets);
        out
    }
}

} // verus!
