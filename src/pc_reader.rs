use crate::bs_read::{drop_bits, take_bits, ByteStreamReadBuffer};
use crate::bytes::{le_nat, read_u16_le};
use crate::cv_section::{cv_header_error, packet_header_error, CompressedVectorSectionHeader, DataPacketHeader};
use crate::error::{Error, Invalid};
use crate::header::field;
use crate::loader::{raw_in_range, type_error, value_fits, value_of, width_of, FieldLoader};
use crate::paged::{logic_of, logical_len, logical_span, payload_len, read_logical, PagedReader};
use crate::record::{PointCloud, Record, RecordValue};
use vstd::arithmetic::power2::{lemma2_to64, pow2};
use vstd::prelude::*;

verus! {

/// Length of the packet at logical offset `p`.
pub open spec fn packet_len(d: Seq<u8>, p: nat) -> nat {
    le_nat(logical_span(d, p + 2, 2)) + 1
}

/// Length of the slice of field `i` in the packet at `p`.
pub open spec fn slice_len(d: Seq<u8>, p: nat, i: nat) -> nat {
    le_nat(logical_span(d, p + 6 + 2 * i, 2))
}

/// Total length of the slices of the first `i` fields in the packet at `p`.
pub open spec fn slices_before(d: Seq<u8>, p: nat, i: nat) -> nat
    decreases i,
{
    if i == 0 {
        0
    } else {
        slices_before(d, p, (i - 1) as nat) + slice_len(d, p, (i - 1) as nat)
    }
}

/// The bytes of the slice of field `i` in the packet at `p` of a prototype of `n` fields.
pub open spec fn slice_bytes(d: Seq<u8>, p: nat, n: nat, i: nat) -> Seq<u8> {
    logical_span(d, p + 6 + 2 * n + slices_before(d, p, i), slice_len(d, p, i))
}

/// The error that reading the packet at logical offset `p`, for a prototype of `n` fields,
/// gives, if any, in the order in which they are detected: the fixed header past the end, a
/// header that is not a data packet for `n` fields, the slice lengths past the end, slices
/// longer than the packet, slices past the end.
pub open spec fn packet_error(d: Seq<u8>, p: nat, n: nat) -> Option<Error> {
    let total = p + 6 + 2 * n + slices_before(d, p, n);
    if p + 6 > logical_len(d.len()) {
        Some(Error::Read)
    } else if packet_header_error(logical_span(d, p, 6), n) is Some {
        packet_header_error(logical_span(d, p, 6), n)
    } else if p + 6 + 2 * n > logical_len(d.len()) {
        Some(Error::Read)
    } else if 6 + 2 * n + slices_before(d, p, n) > packet_len(d, p) {
        Some(Error::Invalid(Invalid::PacketLength))
    } else if total > logical_len(d.len()) {
        Some(Error::Read)
    } else {
        None
    }
}

/// The next multiple of four.
pub open spec fn align4(x: nat) -> nat {
    ((x + 3) / 4) * 4
}

/// Whether the restart flag is set in the packet at `p`.
pub open spec fn packet_restarts(d: Seq<u8>, p: nat) -> bool {
    logical_span(d, p, 6)[1] % 2 == 1
}

/// The first type error among the records from index `i` on.
pub open spec fn first_type_error(proto: Seq<Record>, i: nat) -> Option<Error>
    decreases proto.len() - i,
{
    if i >= proto.len() {
        None
    } else if type_error(proto[i as int].data_type) is Some {
        type_error(proto[i as int].data_type)
    } else {
        first_type_error(proto, i + 1)
    }
}

/// A physical offset that lies in the payload of a page of `n` physical bytes.
pub open spec fn payload_offset(off: nat, n: nat) -> bool {
    off < n && off % 1024 < 1020
}

/// The error that setting up the decoding of a point cloud whose section starts at the
/// physical offset `offset` gives, if any, in the order in which they are detected.
pub open spec fn setup_error(offset: u64, proto: Seq<Record>, d: Seq<u8>) -> Option<Error> {
    let l = logic_of(offset as nat);
    let s = logical_span(d, l, 32);
    if d.len() > u64::MAX / 2 || d.len() == 0 || d.len() % 1024 != 0 {
        Some(Error::Invalid(Invalid::FileSize))
    } else if !payload_offset(offset as nat, d.len()) {
        Some(Error::Invalid(Invalid::Offset))
    } else if l + 32 > logical_len(d.len()) {
        Some(Error::Read)
    } else if cv_header_error(s) is Some {
        cv_header_error(s)
    } else if !payload_offset(field(s, 16, 8), d.len()) {
        Some(Error::Invalid(Invalid::Offset))
    } else if proto.len() >= 0x10000 {
        Some(Error::Invalid(Invalid::BytestreamCount))
    } else {
        first_type_error(proto, 0)
    }
}

/// A reader just set up for the point cloud `pc` of the physical bytes `d`: nothing decoded,
/// all streams empty, the next packet at the data offset of the section header.
pub open spec fn fresh_reader<'a>(rd: PointCloudReader<'a>, d: Seq<u8>, pc: PointCloud) -> bool {
    &&& rd.data() == d
    &&& rd.prototype() == pc.prototype@
    &&& rd.records() == pc.records
    &&& rd.read_count() == 0
    &&& !rd.failed()
    &&& rd.next_packet() == logic_of(
        field(logical_span(d, logic_of(pc.file_offset as nat), 32), 16, 8),
    )
    &&& models(rd.loaders()) == Seq::new(pc.prototype@.len(), |i: int| (0nat, 0nat))
}

/// Two readers set up for the same point cloud of the same bytes are in the same state, so
/// that by the determinism of decoding they yield the same points.
pub proof fn lemma_fresh_readers_agree<'a, 'b>(
    r1: PointCloudReader<'a>,
    r2: PointCloudReader<'b>,
    d: Seq<u8>,
    pc: PointCloud,
)
    requires
        fresh_reader(r1, d, pc),
        fresh_reader(r2, d, pc),
    ensures
        same_state(r1, r2),
{
}

/// How a packet changes a field's stream: its slice is appended behind the unread bits,
/// or replaces them at a compressor restart.
pub open spec fn stream_after_packet(
    before: ByteStreamReadBuffer,
    after: ByteStreamReadBuffer,
    slice: Seq<u8>,
    restart: bool,
) -> bool {
    if restart {
        after.bits() == le_nat(slice) && after.available_bits() == 8 * slice.len()
    } else {
        after.bits() == before.bits() + pow2(before.available_bits()) * le_nat(slice)
            && after.available_bits() == before.available_bits() + 8 * slice.len()
    }
}

/// Iterates over all points of a point cloud, yielding the raw values of each point in
/// prototype order.
pub struct PointCloudReader<'a> {
    data: &'a [u8],
    prototype: Vec<Record>,
    loaders: Vec<FieldLoader>,
    records: u64,
    read: u64,
    next_packet: u64,
    failed: bool,
}

impl<'a> PointCloudReader<'a> {
    pub closed spec fn data(&self) -> Seq<u8> {
        self.data@
    }

    pub closed spec fn prototype(&self) -> Seq<Record> {
        self.prototype@
    }

    pub closed spec fn loaders(&self) -> Seq<FieldLoader> {
        self.loaders@
    }

    /// Number of points of the point cloud.
    pub closed spec fn records(&self) -> nat {
        self.records as nat
    }

    /// Number of points yielded so far.
    pub closed spec fn read_count(&self) -> nat {
        self.read as nat
    }

    /// Logical offset of the next packet.
    pub closed spec fn next_packet(&self) -> nat {
        self.next_packet as nat
    }

    /// Whether an error ended the iteration.
    pub closed spec fn failed(&self) -> bool {
        self.failed
    }

    pub closed spec fn wf(&self) -> bool {
        &&& self.loaders@.len() == self.prototype@.len()
        &&& self.prototype@.len() < 0x10000
        &&& self.next_packet <= self.data@.len() + 0x10004
        &&& self.data@.len() <= u64::MAX / 2
        &&& self.read <= self.records
        &&& forall|i: int|
            0 <= i < self.loaders@.len() ==> (#[trigger] self.loaders@[i]).wf()
                && self.loaders@[i].data_type() == self.prototype@[i].data_type
    }

    /// Sets up the decoding of the point cloud `pc` stored in the physical bytes `data`.
    #[verifier::loop_isolation(false)]
    pub fn new(pc: &PointCloud, data: &'a [u8]) -> (r: Result<Self, Error>)
        ensures
            match r {
                Ok(rd) => {
                    &&& setup_error(pc.file_offset, pc.prototype@, data@) is None
                    &&& rd.wf()
                    &&& fresh_reader(rd, data@, *pc)
                },
                Err(e) => setup_error(pc.file_offset, pc.prototype@, data@) == Some(e),
            },
    {
        if data.len() as u64 > u64::MAX / 2 {
            return Err(Error::Invalid(Invalid::FileSize));
        }
        let mut reader = PagedReader::new(data)?;
        reader.seek_physical(pc.file_offset)?;
        let section = CompressedVectorSectionHeader::read(&mut reader)?;
        reader.seek_physical(section.data_offset)?;
        let next_packet = reader.position_u64();
        if pc.prototype.len() >= 0x10000 {
            return Err(Error::Invalid(Invalid::BytestreamCount));
        }
        let mut loaders: Vec<FieldLoader> = Vec::new();
        let mut i: usize = 0;
        while i < pc.prototype.len()
            invariant
                i <= pc.prototype@.len(),
                loaders@.len() == i,
                first_type_error(pc.prototype@, 0) == first_type_error(pc.prototype@, i as nat),
                forall|j: int|
                    0 <= j < i ==> (#[trigger] loaders@[j]).wf() && loaders@[j].data_type()
                        == pc.prototype@[j].data_type && loaders@[j].stream().available_bits() == 0
                        && loaders@[j].stream().bits() == 0
                        && type_error(pc.prototype@[j].data_type) is None,
            decreases pc.prototype@.len() - i,
        {
            let loader = FieldLoader::new(pc.prototype[i].data_type)?;
            loaders.push(loader);
            assert(first_type_error(pc.prototype@, i as nat) == first_type_error(
                pc.prototype@,
                (i + 1) as nat,
            ));
            i = i + 1;
        }
        let prototype = pc.prototype.clone();
        proof {
            assert(prototype@ =~= pc.prototype@);
        }
        let rd = PointCloudReader {
            data,
            prototype,
            loaders,
            records: pc.records,
            read: 0,
            next_packet,
            failed: false,
        };
        proof {
            assert(models(rd.loaders@) =~= Seq::new(pc.prototype@.len(), |i: int| (0nat, 0nat)));
        }
        Ok(rd)
    }
}


proof fn lemma_span_sub(d: Seq<u8>, a: nat, m: nat, k: nat, l: nat)
    requires
        k + l <= m,
    ensures
        logical_span(d, a, m).subrange(k as int, (k + l) as int) == logical_span(d, a + k, l),
{
    assert(logical_span(d, a, m).subrange(k as int, (k + l) as int) =~= logical_span(d, a + k, l));
}

impl<'a> PointCloudReader<'a> {
    /// Reads the fixed header and the slice lengths of the packet at the next packet offset
    /// and checks that the slices fit into the packet.
    fn read_packet_layout(&self) -> (r: Result<(DataPacketHeader, Vec<u8>), Error>)
        requires
            self.wf(),
        ensures
            ({
                let d = self.data();
                let p = self.next_packet();
                let n = self.prototype().len();
                match r {
                    Ok((header, lens)) => {
                        &&& packet_error(d, p, n) is None
                        &&& header.packet_length == packet_len(d, p)
                        &&& header.packet_length <= 0x10000
                        &&& header.comp_restart == packet_restarts(d, p)
                        &&& lens@ == logical_span(d, p + 6, 2 * n)
                    },
                    Err(e) => packet_error(d, p, n) == Some(e),
                }
            }),
    {
        let ghost d = self.data@;
        let n = self.loaders.len();
        let p = self.next_packet;
        let dlen = self.data.len();
        let h = read_logical(self.data, p, 6)?;
        proof {
            lemma_logical_len_le(d.len());
        }
        let header = DataPacketHeader::from_bytes(h.as_slice(), n)?;
        proof {
            crate::bytes::lemma_le_nat_bound(h@.subrange(2, 4));
            lemma2_to64();
            lemma_span_sub(d, p as nat, 6, 2, 2);
        }
        let lens = read_logical(self.data, p + 6, 2 * n)?;
        let mut total: u64 = 0;
        let mut i: usize = 0;
        while i < n
            invariant
                i <= n,
                n < 0x10000,
                lens@ == logical_span(d, (p + 6) as nat, 2 * n as nat),
                total == slices_before(d, p as nat, i as nat),
                total <= 0xffff * i,
            decreases n - i,
        {
            proof {
                lemma_span_sub(d, (p + 6) as nat, 2 * n as nat, 2 * i as nat, 2);
            }
            let len = read_u16_le(lens.as_slice(), 2 * i);
            total = total + len as u64;
            i = i + 1;
        }
        if 6 + 2 * n as u64 + total > header.packet_length as u64 {
            return Err(Error::Invalid(Invalid::PacketLength));
        }
        if p + 6 + 2 * n as u64 + total > payload_len(dlen) as u64 {
            return Err(Error::Read);
        }
        Ok((header, lens))
    }

    /// Drops the unread bits of every field.
    fn restart_all(&mut self)
        requires
            old(self).wf(),
        ensures
            final(self).wf(),
            final(self).data() == old(self).data(),
            final(self).prototype() == old(self).prototype(),
            final(self).records() == old(self).records(),
            final(self).read_count() == old(self).read_count(),
            final(self).next_packet() == old(self).next_packet(),
            final(self).failed() == old(self).failed(),
            forall|j: int|
                0 <= j < final(self).loaders().len() ==> (#[trigger] final(self).loaders()[j]).stream().bits()
                    == 0 && final(self).loaders()[j].stream().available_bits() == 0,
    {
        let n = self.loaders.len();
        let mut k: usize = 0;
        while k < n
            invariant
                k <= n,
                n == self.loaders@.len(),
                self.wf(),
                self.data@ == old(self).data@,
                self.prototype@ == old(self).prototype@,
                self.next_packet == old(self).next_packet,
                self.records == old(self).records,
                self.read == old(self).read,
                self.failed == old(self).failed,
                forall|j: int|
                    0 <= j < k ==> (#[trigger] self.loaders@[j]).stream().bits() == 0
                        && self.loaders@[j].stream().available_bits() == 0,
            decreases n - k,
        {
            self.loaders[k].restart();
            k = k + 1;
        }
    }

    /// Appends the slice of each field in the packet at `p`, whose slice lengths are `lens`.
    fn append_slices(&mut self, p: u64, lens: &Vec<u8>)
        requires
            old(self).wf(),
            lens@ == logical_span(old(self).data(), (p + 6) as nat, 2 * old(self).prototype().len()),
            p + 6 + 2 * old(self).prototype().len() + slices_before(
                old(self).data(),
                p as nat,
                old(self).prototype().len(),
            ) <= logical_len(old(self).data().len()),
        ensures
            final(self).wf(),
            final(self).data() == old(self).data(),
            final(self).prototype() == old(self).prototype(),
            final(self).records() == old(self).records(),
            final(self).read_count() == old(self).read_count(),
            final(self).next_packet() == old(self).next_packet(),
            final(self).failed() == old(self).failed(),
            forall|j: int|
                0 <= j < old(self).prototype().len() ==> {
                    let b = (#[trigger] old(self).loaders()[j]).stream();
                    let a = final(self).loaders()[j].stream();
                    let slice = slice_bytes(
                        old(self).data(),
                        p as nat,
                        old(self).prototype().len(),
                        j as nat,
                    );
                    a.bits() == b.bits() + pow2(b.available_bits()) * le_nat(slice)
                        && a.available_bits() == b.available_bits() + 8 * slice.len()
                },
    {
        let ghost d = self.data@;
        let n = self.loaders.len();
        let dlen = self.data.len();
        proof {
            lemma_logical_len_le(d.len());
        }
        let mut start: u64 = p + 6 + 2 * n as u64;
        let mut i: usize = 0;
        while i < n
            invariant
                i <= n,
                n == self.loaders@.len(),
                n == old(self).loaders@.len(),
                n < 0x10000,
                self.wf(),
                d == old(self).data@,
                self.data@ == d,
                self.prototype@ == old(self).prototype@,
                self.next_packet == old(self).next_packet,
                self.records == old(self).records,
                self.read == old(self).read,
                self.failed == old(self).failed,
                lens@ == logical_span(d, (p + 6) as nat, 2 * n as nat),
                start == p + 6 + 2 * n + slices_before(d, p as nat, i as nat),
                p + 6 + 2 * n + slices_before(d, p as nat, n as nat) <= logical_len(d.len()),
                start <= dlen,
                dlen == d.len(),
                forall|j: int|
                    0 <= j < i ==> {
                        let b = (#[trigger] old(self).loaders@[j]).stream();
                        let a = self.loaders@[j].stream();
                        let slice = slice_bytes(d, p as nat, n as nat, j as nat);
                        a.bits() == b.bits() + pow2(b.available_bits()) * le_nat(slice)
                            && a.available_bits() == b.available_bits() + 8 * slice.len()
                    },
                forall|j: int| i <= j < n ==> #[trigger] self.loaders@[j] == old(self).loaders@[j],
            decreases n - i,
        {
            proof {
                lemma_span_sub(d, (p + 6) as nat, 2 * n as nat, 2 * i as nat, 2);
            }
            let len = read_u16_le(lens.as_slice(), 2 * i);
            proof {
                lemma_slices_before_mono(d, p as nat, (i + 1) as nat, n as nat);
                lemma_logical_len_le(d.len());
                assert(len == slice_len(d, p as nat, i as nat));
                assert(slices_before(d, p as nat, (i + 1) as nat) == slices_before(d, p as nat, i as nat)
                    + slice_len(d, p as nat, i as nat));
                assert(n == old(self).prototype().len());
                assert(start + len <= logical_len(d.len()));
            }
            let slice = match read_logical(self.data, start, len as usize) {
                Ok(v) => v,
                Err(_) => {
                    proof {
                        assert(false);
                    }
                    return;
                },
            };
            self.loaders[i].append(slice);
            start = start + len as u64;
            i = i + 1;
        }
    }

    /// Reads the data packet at the next packet offset and appends the slice of each field
    /// to that field's stream; at a compressor restart the unread bits are dropped first.
    pub fn pull_packet(&mut self) -> (r: Result<(), Error>)
        requires
            old(self).wf(),
        ensures
            final(self).wf(),
            final(self).data() == old(self).data(),
            final(self).prototype() == old(self).prototype(),
            final(self).records() == old(self).records(),
            final(self).read_count() == old(self).read_count(),
            final(self).failed() == old(self).failed(),
            ({
                let d = old(self).data();
                let p = old(self).next_packet();
                let n = old(self).prototype().len();
                match r {
                    Ok(_) => {
                        &&& packet_error(d, p, n) is None
                        &&& final(self).next_packet() == align4(p + packet_len(d, p))
                        &&& forall|i: int|
                            0 <= i < n ==> stream_after_packet(
                                #[trigger] old(self).loaders()[i].stream(),
                                final(self).loaders()[i].stream(),
                                slice_bytes(d, p, n, i as nat),
                                packet_restarts(d, p),
                            )
                    },
                    Err(e) => packet_error(d, p, n) == Some(e),
                }
            }),
    {
        let ghost old_self = *self;
        let ghost old_loaders = self.loaders@;
        let p = self.next_packet;
        let (header, lens) = self.read_packet_layout()?;
        if header.comp_restart {
            self.restart_all();
        }
        let ghost before = self.loaders@;
        let ghost mid = *self;
        self.append_slices(p, &lens);
        proof {
            lemma_logical_len_le(self.data@.len());
            lemma2_to64();
        }
        self.next_packet = (p + header.packet_length as u64 + 3) / 4 * 4;
        proof {
            let d = self.data@;
            let n = self.loaders@.len();
            assert forall|j: int| 0 <= j < n implies stream_after_packet(
                #[trigger] old_self.loaders()[j].stream(),
                self.loaders()[j].stream(),
                slice_bytes(d, p as nat, n as nat, j as nat),
                packet_restarts(d, p as nat),
            ) by {
                let b0 = old_self.loaders()[j].stream();
                let bm = mid.loaders()[j].stream();
                let a = self.loaders()[j].stream();
                let slice = slice_bytes(d, p as nat, n as nat, j as nat);
                assert(mid.loaders()[j] == before[j]);
                assert(a.bits() == bm.bits() + pow2(bm.available_bits()) * le_nat(slice));
                assert(a.available_bits() == bm.available_bits() + 8 * slice.len());
                if header.comp_restart {
                    assert(packet_restarts(d, p as nat));
                    assert(bm.bits() == 0);
                    assert(bm.available_bits() == 0);
                    assert(pow2(0) == 1);
                    assert(pow2(bm.available_bits()) == 1);
                    let x = le_nat(slice);
                    assert(pow2(bm.available_bits()) * x == x) by (nonlinear_arith)
                        requires
                            pow2(bm.available_bits()) == 1,
                    ;
                    assert(a.bits() == le_nat(slice));
                } else {
                    assert(!packet_restarts(d, p as nat));
                    assert(before[j] == old_loaders[j]);
                    assert(bm == b0);
                }
            }
        }
        Ok(())
    }
}

/// Each field's stream as its unread bits and their number.
pub open spec fn models(ls: Seq<FieldLoader>) -> Seq<(nat, nat)> {
    ls.map_values(|l: FieldLoader| (l.stream().bits(), l.stream().available_bits()))
}

/// Each field's width.
pub open spec fn widths(proto: Seq<Record>) -> Seq<nat> {
    proto.map_values(|r: Record| width_of(r.data_type))
}

/// Every stream holds the bits of its field's next value.
pub open spec fn ready_models(m: Seq<(nat, nat)>, w: Seq<nat>) -> bool {
    forall|i: int| 0 <= i < m.len() ==> (#[trigger] m[i]).1 >= w[i]
}

/// The streams after the packet at `p` of a prototype of `n` fields.
pub open spec fn apply_packet(m: Seq<(nat, nat)>, d: Seq<u8>, p: nat, n: nat) -> Seq<(nat, nat)> {
    Seq::new(
        m.len(),
        |i: int|
            {
                let slice = slice_bytes(d, p, n, i as nat);
                if packet_restarts(d, p) {
                    (le_nat(slice), 8 * slice.len())
                } else {
                    (m[i].0 + pow2(m[i].1) * le_nat(slice), m[i].1 + 8 * slice.len())
                }
            },
    )
}

/// Pulls packets from `p` on until every stream holds its next value: the streams and the
/// offset of the next packet then, or the error of the first packet that cannot be read.
pub open spec fn refill_outcome(m: Seq<(nat, nat)>, d: Seq<u8>, p: nat, n: nat, w: Seq<nat>) -> Result<
    (Seq<(nat, nat)>, nat),
    Error,
>
    decreases d.len() + 0x20000 - p,
{
    if ready_models(m, w) {
        Ok((m, p))
    } else if packet_error(d, p, n) is Some {
        Err(packet_error(d, p, n)->Some_0)
    } else {
        proof {
            lemma_logical_len_le(d.len());
            crate::bytes::lemma_le_nat_bound(logical_span(d, p + 2, 2));
            lemma2_to64();
        }
        refill_outcome(apply_packet(m, d, p, n), d, align4(p + packet_len(d, p)), n, w)
    }
}

/// The raw value of field `i` after a refill that gave the streams `pm`.
pub open spec fn raw_of(pm: Seq<(nat, nat)>, w: Seq<nat>, i: int) -> nat {
    take_bits(pm[i].0, w[i])
}

/// Some field's raw value lies above its maximum.
pub open spec fn some_out_of_range(proto: Seq<Record>, pm: Seq<(nat, nat)>, w: Seq<nat>) -> bool {
    exists|i: int| 0 <= i < proto.len() && !raw_in_range(proto[i].data_type, #[trigger] raw_of(pm, w, i))
}

/// The error that decoding the next point from state `s` gives, if any: the error of the
/// first packet that cannot be read, or an integer above its field's maximum.
pub open spec fn point_error<'a>(s: PointCloudReader<'a>) -> Option<Error> {
    let n = s.prototype().len();
    let w = widths(s.prototype());
    match refill_outcome(models(s.loaders()), s.data(), s.next_packet(), n, w) {
        Err(e) => Some(e),
        Ok((pm, _)) => if some_out_of_range(s.prototype(), pm, w) {
            Some(Error::Invalid(Invalid::ValueOutOfRange))
        } else {
            None
        },
    }
}

proof fn lemma_point_error_of<'a>(s: PointCloudReader<'a>, pm: Seq<(nat, nat)>, pp: nat)
    requires
        refill_outcome(
            models(s.loaders()),
            s.data(),
            s.next_packet(),
            s.prototype().len(),
            widths(s.prototype()),
        ) == Ok::<(Seq<(nat, nat)>, nat), Error>((pm, pp)),
    ensures
        (exists|i: int|
            0 <= i < s.prototype().len() && !raw_in_range(
                s.prototype()[i].data_type,
                #[trigger] raw_of(pm, widths(s.prototype()), i),
            )) ==> point_error(s) == Some(Error::Invalid(Invalid::ValueOutOfRange)),
        (forall|i: int|
            0 <= i < s.prototype().len() ==> raw_in_range(
                s.prototype()[i].data_type,
                #[trigger] raw_of(pm, widths(s.prototype()), i),
            )) ==> point_error(s) is None,
{
}

/// Decoding one point from state `s` gives the values `p` and leads to state `t`: the
/// packets are pulled that every stream needs, and each value is taken from the low bits of
/// its stream.
pub open spec fn next_point<'a>(s: PointCloudReader<'a>, p: Seq<RecordValue>, t: PointCloudReader<'a>) -> bool {
    let n = s.prototype().len();
    let w = widths(s.prototype());
    match refill_outcome(models(s.loaders()), s.data(), s.next_packet(), n, w) {
        Err(_) => false,
        Ok((pm, pp)) => {
            &&& t.data() == s.data()
            &&& t.prototype() == s.prototype()
            &&& t.records() == s.records()
            &&& t.read_count() == s.read_count() + 1
            &&& !t.failed()
            &&& p.len() == n
            &&& t.loaders().len() == n
            &&& pm.len() == n
            &&& t.next_packet() == pp
            &&& forall|i: int|
                0 <= i < n ==> {
                    &&& raw_in_range(s.prototype()[i].data_type, raw_of(pm, w, i))
                    &&& #[trigger] p[i] == value_of(s.prototype()[i].data_type, raw_of(pm, w, i))
                    &&& models(t.loaders())[i] == (
                        drop_bits(pm[i].0, w[i]),
                        (pm[i].1 - w[i]) as nat,
                    )
                }
        },
    }
}

/// A chain of decoding steps: from `states[k]` the point `pts[k]` leads to `states[k + 1]`.
pub open spec fn decode_chain<'a>(states: Seq<PointCloudReader<'a>>, pts: Seq<Seq<RecordValue>>) -> bool {
    &&& states.len() == pts.len() + 1
    &&& forall|k: int| 0 <= k < pts.len() ==> next_point(#[trigger] states[k], pts[k], states[k + 1])
}

/// The parts of a reader's state that decoding reads.
pub open spec fn same_state<'a, 'b>(s: PointCloudReader<'a>, t: PointCloudReader<'b>) -> bool {
    &&& s.data() == t.data()
    &&& s.prototype() == t.prototype()
    &&& s.records() == t.records()
    &&& s.read_count() == t.read_count()
    &&& s.failed() == t.failed()
    &&& s.next_packet() == t.next_packet()
    &&& models(s.loaders()) == models(t.loaders())
}

/// Decoding is a function of the reader's state: two readers in the same state meet the same
/// error, or decode the same next point and reach the same state again. Hence the sequence
/// of points and errors does not depend on anything done between opening the file and
/// reading, such as validating the page checksums, which only borrows the file.
pub proof fn lemma_next_point_determined<'a, 'b>(
    s1: PointCloudReader<'a>,
    s2: PointCloudReader<'b>,
    p1: Seq<RecordValue>,
    p2: Seq<RecordValue>,
    t1: PointCloudReader<'a>,
    t2: PointCloudReader<'b>,
)
    requires
        same_state(s1, s2),
    ensures
        point_error(s1) == point_error(s2),
        next_point(s1, p1, t1) && next_point(s2, p2, t2) ==> p1 == p2 && same_state(t1, t2),
{
    let n = s1.prototype().len();
    let w = widths(s1.prototype());
    if next_point(s1, p1, t1) && next_point(s2, p2, t2) {
        assert(p1 =~= p2);
        assert forall|i: int| 0 <= i < n implies models(t1.loaders())[i] == models(t2.loaders())[i] by {
            assert(p1[i] == p2[i]);
        }
        assert(models(t1.loaders()) =~= models(t2.loaders()));
    }
}

/// Every field's stream holds the bits of its next value.
pub open spec fn all_ready(loaders: Seq<FieldLoader>) -> bool {
    forall|i: int|
        0 <= i < loaders.len() ==> (#[trigger] loaders[i]).stream().available_bits() >= width_of(
            loaders[i].data_type(),
        )
}

impl<'a> PointCloudReader<'a> {
    fn fields_ready(&self) -> (r: bool)
        requires
            self.wf(),
        ensures
            r == all_ready(self.loaders()),
    {
        let n = self.loaders.len();
        let mut i: usize = 0;
        while i < n
            invariant
                i <= n,
                n == self.loaders@.len(),
                self.wf(),
                forall|j: int|
                    0 <= j < i ==> (#[trigger] self.loaders@[j]).stream().available_bits()
                        >= width_of(self.loaders@[j].data_type()),
            decreases n - i,
        {
            if !self.loaders[i].ready() {
                return false;
            }
            i = i + 1;
        }
        true
    }

    /// Decodes the next point: the raw value of each prototype field, in prototype order.
    /// Packets are pulled while some field lacks the bits of its next value. After an error,
    /// and after the last point, nothing more is yielded.
    #[verifier::rlimit(40)]
    pub fn next(&mut self) -> (r: Option<Result<Vec<RecordValue>, Error>>)
        requires
            old(self).wf(),
        ensures
            final(self).wf(),
            final(self).data() == old(self).data(),
            final(self).prototype() == old(self).prototype(),
            final(self).records() == old(self).records(),
            old(self).failed() || old(self).read_count() >= old(self).records() ==> r is None
                && *final(self) == *old(self),
            !(old(self).failed() || old(self).read_count() >= old(self).records()) ==> match point_error(
                *old(self),
            ) {
                Some(e) => r == Some(Err::<Vec<RecordValue>, Error>(e)) && final(self).failed()
                    && final(self).read_count() == old(self).read_count(),
                None => r matches Some(Ok(p)) && next_point(*old(self), p@, *final(self)),
            },
            r matches Some(Ok(p)) ==> forall|i: int|
                0 <= i < p@.len() ==> value_fits(old(self).prototype()[i].data_type, #[trigger] p@[i]),
    {
        if self.failed || self.read >= self.records {
            return None;
        }
        let ghost old_self = *self;
        let ghost nf = self.prototype@.len();
        let ghost w = widths(self.prototype@);
        let ghost outcome = refill_outcome(
            models(self.loaders@),
            self.data@,
            self.next_packet as nat,
            nf,
            w,
        );
        while !self.fields_ready()
            invariant
                self.wf(),
                old_self == *old(self),
                nf == self.prototype@.len(),
                w == widths(self.prototype@),
                outcome == refill_outcome(
                    models(old_self.loaders@),
                    old_self.data@,
                    old_self.next_packet as nat,
                    nf,
                    w,
                ),
                outcome == refill_outcome(
                    models(self.loaders@),
                    self.data@,
                    self.next_packet as nat,
                    nf,
                    w,
                ),
                !old_self.failed,
                !self.failed,
                self.read < self.records,
                self.data@ == old_self.data@,
                self.prototype@ == old_self.prototype@,
                self.records == old_self.records,
                self.read == old_self.read,
            decreases self.data@.len() + 0x10005 - self.next_packet,
        {
            let ghost before = self.next_packet;
            let ghost ls = self.loaders@;
            let ghost pre_pull = *self;
            proof {
                lemma_ready_models(self.loaders@, self.prototype@);
            }
            match self.pull_packet() {
                Ok(()) => {},
                Err(e) => {
                    self.failed = true;
                    return Some(Err(e));
                },
            }
            assert(self.next_packet > before);
            proof {
                assert forall|i: int| 0 <= i < nf implies #[trigger] models(self.loaders@)[i]
                    == apply_packet(models(ls), self.data@, before as nat, nf)[i] by {
                    assert(stream_after_packet(
                        pre_pull.loaders()[i].stream(),
                        self.loaders()[i].stream(),
                        slice_bytes(self.data@, before as nat, nf, i as nat),
                        packet_restarts(self.data@, before as nat),
                    ));
                }
                assert(models(self.loaders@) =~= apply_packet(models(ls), self.data@, before as nat, nf));
            }
        }
        proof {
            lemma_ready_models(self.loaders@, self.prototype@);
        }
        let ghost pre = self.loaders@;
        let ghost pm = models(pre);
        assert(outcome == Ok::<(Seq<(nat, nat)>, nat), Error>((pm, self.next_packet as nat)));
        let n = self.loaders.len();
        let mut point: Vec<RecordValue> = Vec::new();
        let mut i: usize = 0;
        while i < n
            invariant
                i <= n,
                n == self.loaders@.len(),
                n == pre.len(),
                n == nf,
                self.wf(),
                old_self == *old(self),
                !old_self.failed,
                !self.failed,
                self.read < self.records,
                self.data@ == old_self.data@,
                self.prototype@ == old_self.prototype@,
                self.records == old_self.records,
                self.read == old_self.read,
                outcome == Ok::<(Seq<(nat, nat)>, nat), Error>((pm, self.next_packet as nat)),
                outcome == refill_outcome(
                    models(old_self.loaders@),
                    old_self.data@,
                    old_self.next_packet as nat,
                    nf,
                    w,
                ),
                pm == models(pre),
                w == widths(self.prototype@),
                point@.len() == i,
                forall|j: int|
                    i <= j < n ==> (#[trigger] self.loaders@[j]) == pre[j]
                        && self.loaders@[j].stream().available_bits() >= width_of(
                        self.loaders@[j].data_type(),
                    ),
                forall|j: int|
                    0 <= j < i ==> {
                        &&& raw_in_range(self.prototype@[j].data_type, raw_of(pm, w, j))
                        &&& #[trigger] point@[j] == value_of(
                            self.prototype@[j].data_type,
                            raw_of(pm, w, j),
                        )
                        &&& value_fits(self.prototype@[j].data_type, point@[j])
                        &&& models(self.loaders@)[j] == (
                            drop_bits(pm[j].0, w[j]),
                            (pm[j].1 - w[j]) as nat,
                        )
                    },
            decreases n - i,
        {
            let ghost before_load = self.loaders@;
            proof {
                let ii = i as int;
                assert(self.loaders@[ii] == pre[ii]);
                assert(self.loaders@[ii].wf());
                assert(pre[ii].data_type() == self.prototype@[ii].data_type);
                assert(w[ii] == width_of(pre[ii].data_type()));
                assert(pm[ii] == (pre[ii].stream().bits(), pre[ii].stream().available_bits()));
            }
            match self.loaders[i].load() {
                Ok(v) => {
                    point.push(v);
                    proof {
                        let ii = i as int;
                        assert(models(self.loaders@)[ii] == (
                            self.loaders@[ii].stream().bits(),
                            self.loaders@[ii].stream().available_bits(),
                        ));
                        assert forall|j: int| 0 <= j < ii implies models(self.loaders@)[j] == models(
                            before_load,
                        )[j] by {
                            assert(self.loaders@[j] == before_load[j]);
                        }
                    }
                },
                Err(e) => {
                    proof {
                        let ii = i as int;
                        assert(pre[ii].data_type() == self.prototype@[ii].data_type);
                        assert(w[ii] == width_of(pre[ii].data_type()));
                        assert(pm[ii] == (pre[ii].stream().bits(), pre[ii].stream().available_bits()));
                        assert(!raw_in_range(old_self.prototype()[ii].data_type, raw_of(pm, w, ii)));
                        assert(refill_outcome(
                            models(old_self.loaders()),
                            old_self.data(),
                            old_self.next_packet(),
                            old_self.prototype().len(),
                            widths(old_self.prototype()),
                        ) == outcome);
                        lemma_point_error_of(old_self, pm, self.next_packet as nat);
                    }
                    self.failed = true;
                    return Some(Err(e));
                },
            }
            i = i + 1;
        }
        proof {
            assert forall|k: int| 0 <= k < n implies raw_in_range(
                self.prototype@[k].data_type,
                #[trigger] raw_of(pm, w, k),
            ) by {
                assert(k < i);
                assert(point@[k] == value_of(self.prototype@[k].data_type, raw_of(pm, w, k)));
                assert(point@[k] == point@[k]);
            }
        }
        self.read = self.read + 1;
        proof {
            assert forall|i: int| 0 <= i < n implies raw_in_range(
                old_self.prototype()[i].data_type,
                #[trigger] raw_of(pm, w, i),
            ) by {
                assert(point@[i] == point@[i]);
                assert(raw_in_range(self.prototype@[i].data_type, raw_of(pm, w, i)));
                assert(old_self.prototype() == self.prototype@);
            }
            assert(refill_outcome(
                models(old_self.loaders()),
                old_self.data(),
                old_self.next_packet(),
                old_self.prototype().len(),
                widths(old_self.prototype()),
            ) == outcome);
            lemma_point_error_of(old_self, pm, self.next_packet as nat);
            assert(next_point(old_self, point@, *self));
        }
        Some(Ok(point))
    }

    /// Decodes all remaining points.
    pub fn read_all(&mut self) -> (r: Result<Vec<Vec<RecordValue>>, Error>)
        requires
            old(self).wf(),
        ensures
            final(self).wf(),
            match r {
                Ok(v) => v@.len() == (if old(self).failed() {
                    0
                } else {
                    old(self).records() - old(self).read_count()
                }) && forall|k: int|
                    0 <= k < v@.len() ==> (#[trigger] v@[k])@.len() == old(self).prototype().len()
                        && forall|i: int|
                        0 <= i < old(self).prototype().len() ==> value_fits(
                            old(self).prototype()[i].data_type,
                            #[trigger] v@[k]@[i],
                        ) && exists|states: Seq<PointCloudReader<'a>>|
                    #![trigger states.len()]
                    {
                        &&& states.len() == v@.len() + 1
                        &&& states[0] == *old(self)
                        &&& states.last() == *final(self)
                        &&& forall|k: int|
                            0 <= k < v@.len() ==> next_point(
                                #[trigger] states[k],
                                v@[k]@,
                                states[k + 1],
                            )
                    } && (!old(self).failed() ==> final(self).read_count() == final(self).records()),
                Err(e) => final(self).failed() && exists|
                    states: Seq<PointCloudReader<'a>>,
                    pts: Seq<Seq<RecordValue>>,
                |
                    #![trigger decode_chain(states, pts)]
                    {
                        &&& decode_chain(states, pts)
                        &&& states[0] == *old(self)
                        &&& !states.last().failed()
                        &&& states.last().read_count() < states.last().records()
                        &&& point_error(states.last()) == Some(e)
                    },
            },
    {
        let mut points: Vec<Vec<RecordValue>> = Vec::new();
        let ghost start = *self;
        let ghost mut states: Seq<PointCloudReader<'a>> = seq![*self];
        loop
            invariant
                self.wf(),
                start == *old(self),
                states.len() == points@.len() + 1,
                states[0] == start,
                states.last() == *self,
                forall|k: int|
                    0 <= k < points@.len() ==> next_point(
                        #[trigger] states[k],
                        points@[k]@,
                        states[k + 1],
                    ),
                self.prototype() == start.prototype(),
                self.records() == start.records(),
                self.failed() == start.failed(),
                start.failed() ==> points@.len() == 0,
                !start.failed() ==> points@.len() == self.read_count() - start.read_count(),
                self.read_count() >= start.read_count(),
                forall|k: int|
                    0 <= k < points@.len() ==> (#[trigger] points@[k])@.len()
                        == start.prototype().len() && forall|i: int|
                        0 <= i < start.prototype().len() ==> value_fits(
                            start.prototype()[i].data_type,
                            #[trigger] points@[k]@[i],
                        ),
            decreases self.records() - self.read_count(),
        {
            let ghost before = *self;
            match self.next() {
                None => return Ok(points),
                Some(Ok(p)) => {
                    let ghost old_points = points@;
                    points.push(p);
                    proof {
                        states = states.push(*self);
                        assert forall|k: int|
                            0 <= k < points@.len() implies next_point(
                                #[trigger] states[k],
                                points@[k]@,
                                states[k + 1],
                            ) by {
                            if k < old_points.len() {
                                assert(points@[k] == old_points[k]);
                            }
                        }
                    }
                },
                Some(Err(e)) => {
                    proof {
                        let pts = points@.map_values(|x: Vec<RecordValue>| x@);
                        assert forall|k: int| 0 <= k < pts.len() implies next_point(
                            #[trigger] states[k],
                            pts[k],
                            states[k + 1],
                        ) by {
                            assert(pts[k] == points@[k]@);
                        }
                        assert(decode_chain(states, pts));
                    }
                    return Err(e);
                },
            }
        }
    }
}

proof fn lemma_ready_models(ls: Seq<FieldLoader>, proto: Seq<Record>)
    requires
        ls.len() == proto.len(),
        forall|i: int| 0 <= i < ls.len() ==> (#[trigger] ls[i]).data_type() == proto[i].data_type,
    ensures
        all_ready(ls) == ready_models(models(ls), widths(proto)),
{
    if all_ready(ls) {
        assert forall|i: int| 0 <= i < ls.len() implies (#[trigger] models(ls)[i]).1 >= widths(
            proto,
        )[i] by {
            assert(ls[i].stream().available_bits() >= width_of(ls[i].data_type()));
        }
    }
    if ready_models(models(ls), widths(proto)) {
        assert forall|i: int| 0 <= i < ls.len() implies (#[trigger] ls[i]).stream().available_bits()
            >= width_of(ls[i].data_type()) by {
            assert(models(ls)[i].1 >= widths(proto)[i]);
        }
    }
}

proof fn lemma_slices_before_mono(d: Seq<u8>, p: nat, i: nat, n: nat)
    requires
        i <= n,
    ensures
        slices_before(d, p, i) <= slices_before(d, p, n),
    decreases n - i,
{
    if i < n {
        lemma_slices_before_mono(d, p, i, (n - 1) as nat);
    }
}

/// The payload of `n` physical bytes is no longer than they are.
pub proof fn lemma_logical_len_le(n: nat)
    ensures
        logical_len(n) <= n,
{
    vstd::arithmetic::div_mod::lemma_fundamental_div_mod(n as int, 1024);
}

} // verus!
