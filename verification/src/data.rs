//! Fragments and the messages they add up to.

use crate::clock::precise_time_ns;
use crate::digest::{sha256, sha256_digest};
use crate::endian::{
    lemma_u16_be_bytes, lemma_u16_be_round_trip, lemma_u32_be_bytes, lemma_u32_be_round_trip,
    read_u16, read_u32, u16_from_be, u16_to_be, u32_from_be, u32_to_be, write_u16, write_u32,
};
use crate::order::{
    distinct_offsets, lemma_insert_sorts, lemma_sorted_any_order, lemma_sorted_keeps_members,
    lemma_sorted_keeps_total_size, lemma_stable_sort_unique, sorted, stable_sort_of,
};
use crate::text::{hex, hex_of, is_hex_digit, lemma_hex_of};
use vstd::prelude::*;
use vstd::slice::{slice_subrange, slice_to_vec};

verus! {

/// The flag bit that marks the fragment at which a message ends.
pub const EOF: u16 = 0x8000;

/// The number of bytes in front of a fragment's payload: flags, payload
/// length, byte offset and message id.
pub const HEADER_LEN: usize = 12;

/// Whether `flags` mark a fragment as the last of its message.
pub open spec fn is_terminal(flags: u16) -> bool {
    flags & EOF == EOF
}

/// Why a datagram was not accepted as a fragment.
#[derive(Debug, Clone, Copy, PartialEq, Eq, Structural)]
pub enum DecodeError {
    /// The datagram is shorter than its header, or than its header and the
    /// payload length that the header declares.
    TruncatedInput,
}

/// What a fragment is, as a mathematical value.
pub struct PacketView {
    pub packet_id: u32,
    pub flags: u16,
    pub data_size: u16,
    pub offset: u32,
    pub data: Seq<u8>,
}

impl PacketView {
    /// The payload is as long as the header says.
    pub open spec fn wf(self) -> bool {
        self.data.len() == self.data_size
    }

    /// The offset just behind the payload.
    pub open spec fn end(self) -> nat {
        (self.offset + self.data_size) as nat
    }

    /// The datagram that carries this fragment.
    pub open spec fn encode(self) -> Seq<u8> {
        u16_to_be(self.flags) + u16_to_be(self.data_size) + u32_to_be(self.offset) + u32_to_be(
            self.packet_id,
        ) + self.data
    }
}

/// The payload length that the header of `bytes` declares.
pub open spec fn declared_size(bytes: Seq<u8>) -> int {
    u16_from_be(bytes.subrange(2, 4))
}

/// The fragment that the datagram `bytes` carries, if it is long enough to
/// hold the header and the payload that the header declares. Bytes behind
/// the payload are ignored.
pub open spec fn decode(bytes: Seq<u8>) -> Option<PacketView> {
    if bytes.len() < HEADER_LEN || bytes.len() < HEADER_LEN + declared_size(bytes) {
        None
    } else {
        Some(
            PacketView {
                flags: u16_from_be(bytes.subrange(0, 2)) as u16,
                data_size: declared_size(bytes) as u16,
                offset: u32_from_be(bytes.subrange(4, 8)) as u32,
                packet_id: u32_from_be(bytes.subrange(8, 12)) as u32,
                data: bytes.subrange(HEADER_LEN as int, HEADER_LEN + declared_size(bytes)),
            },
        )
    }
}

/// One fragment of a message, as decoded from one datagram.
#[derive(Debug)]
pub struct Packet {
    pub packet_id: u32,
    flags: u16,
    data_size: u16,
    offset: u32,
    data: Vec<u8>,
}

impl View for Packet {
    type V = PacketView;

    closed spec fn view(&self) -> PacketView {
        PacketView {
            packet_id: self.packet_id,
            flags: self.flags,
            data_size: self.data_size,
            offset: self.offset,
            data: self.data@,
        }
    }
}

impl Packet {
    /// The payload is as long as the header says.
    pub open spec fn wf(&self) -> bool {
        self@.wf()
    }

    /// Decodes the fragment at the front of `bytes`.
    pub fn new(bytes: &[u8]) -> (r: Result<Packet, DecodeError>)
        ensures
            match r {
                Ok(p) => p.wf() && decode(bytes@) == Some(p@),
                Err(e) => e == DecodeError::TruncatedInput && decode(bytes@) is None,
            },
    {
        if bytes.len() < HEADER_LEN {
            return Err(DecodeError::TruncatedInput);
        }
        let flags = read_u16(slice_subrange(bytes, 0, 2));
        let data_size = read_u16(slice_subrange(bytes, 2, 4));
        let offset = read_u32(slice_subrange(bytes, 4, 8));
        let packet_id = read_u32(slice_subrange(bytes, 8, 12));
        let size: usize = data_size as usize;
        if bytes.len() - HEADER_LEN < size {
            return Err(DecodeError::TruncatedInput);
        }
        let data = slice_to_vec(slice_subrange(bytes, HEADER_LEN, HEADER_LEN + size));
        Ok(Packet { packet_id, flags, data_size, offset, data })
    }

    /// Encodes the fragment as the datagram that carries it.
    pub fn encode(&self) -> (bytes: Vec<u8>)
        requires
            self.wf(),
        ensures
            bytes@ == self@.encode(),
            bytes@.len() == HEADER_LEN + self@.data_size,
    {
        let mut bytes: Vec<u8> = Vec::new();
        bytes.extend_from_slice(&write_u16(self.flags));
        bytes.extend_from_slice(&write_u16(self.data_size));
        bytes.extend_from_slice(&write_u32(self.offset));
        bytes.extend_from_slice(&write_u32(self.packet_id));
        bytes.extend_from_slice(self.data.as_slice());
        bytes
    }

    /// The message that the fragment belongs to.
    pub fn packet_id(&self) -> (id: u32)
        ensures
            id == self@.packet_id,
    {
        self.packet_id
    }

    /// The flags of the fragment.
    pub fn flags(&self) -> (flags: u16)
        ensures
            flags == self@.flags,
    {
        self.flags
    }

    /// The number of payload bytes.
    pub fn data_size(&self) -> (size: u16)
        ensures
            size == self@.data_size,
    {
        self.data_size
    }

    /// Where the payload starts within the message.
    pub fn offset(&self) -> (offset: u32)
        ensures
            offset == self@.offset,
    {
        self.offset
    }

    /// The payload.
    pub fn data(&self) -> (data: &[u8])
        ensures
            data@ == self@.data,
    {
        self.data.as_slice()
    }

    /// Whether the fragment is the last of its message.
    pub fn is_terminal(&self) -> (terminal: bool)
        ensures
            terminal == is_terminal(self@.flags),
    {
        self.flags & EOF == EOF
    }
}

/// Decoding the datagram that carries a fragment gives the fragment back,
/// whatever follows it in the buffer.
pub proof fn lemma_decode_encode(p: PacketView, rest: Seq<u8>)
    requires
        p.wf(),
    ensures
        decode(p.encode() + rest) == Some(p),
{
    let bytes = p.encode() + rest;
    lemma_u16_be_round_trip(p.flags);
    lemma_u16_be_round_trip(p.data_size);
    lemma_u32_be_round_trip(p.offset);
    lemma_u32_be_round_trip(p.packet_id);
    assert(bytes.subrange(0, 2) =~= u16_to_be(p.flags));
    assert(bytes.subrange(2, 4) =~= u16_to_be(p.data_size));
    assert(bytes.subrange(4, 8) =~= u32_to_be(p.offset));
    assert(bytes.subrange(8, 12) =~= u32_to_be(p.packet_id));
    assert(declared_size(bytes) == p.data_size);
    assert(bytes.subrange(12, 12 + p.data_size) =~= p.data);
}

/// The fragment that a datagram carries is well formed, and the front of
/// the datagram, as far as the fragment reaches, is the fragment encoded.
pub proof fn lemma_encode_decode(bytes: Seq<u8>)
    requires
        decode(bytes) is Some,
    ensures
        decode(bytes)->0.wf(),
        decode(bytes)->0.encode() == bytes.take(HEADER_LEN + declared_size(bytes)),
{
    let p = decode(bytes)->0;
    lemma_u16_be_bytes(bytes.subrange(0, 2));
    lemma_u16_be_bytes(bytes.subrange(2, 4));
    lemma_u32_be_bytes(bytes.subrange(4, 8));
    lemma_u32_be_bytes(bytes.subrange(8, 12));
    assert(p.encode() =~= bytes.take(HEADER_LEN + declared_size(bytes)));
}

/// The views of the fragments in `packets`, in the same order.
pub open spec fn views(packets: Seq<Packet>) -> Seq<PacketView> {
    packets.map_values(|p: Packet| p@)
}

/// The sum of the payload lengths of `packets`.
pub open spec fn total_size(packets: Seq<PacketView>) -> nat
    decreases packets.len(),
{
    if packets.len() == 0 {
        0
    } else {
        (total_size(packets.drop_last()) + packets.last().data_size) as nat
    }
}

/// The payloads of `packets` one behind the other, in the order of the
/// sequence.
pub open spec fn content(packets: Seq<PacketView>) -> Seq<u8>
    decreases packets.len(),
{
    if packets.len() == 0 {
        Seq::empty()
    } else {
        content(packets.drop_last()) + packets.last().data
    }
}

/// The offset at which the fragment at position `i` is expected to start:
/// the end of the fragment in front of it, and 0 for the first.
pub open spec fn expected_offset(packets: Seq<PacketView>, i: int) -> u64 {
    if i <= 0 {
        0
    } else {
        (packets[i - 1].offset + packets[i - 1].data_size) as u64
    }
}

/// Whether the fragment at position `i` starts elsewhere than expected.
pub open spec fn breaks_at(packets: Seq<PacketView>, i: int) -> bool {
    packets[i].offset != expected_offset(packets, i)
}

/// One pair for each position at which the run of fragments breaks, in the
/// order of the sequence: the offset at which a fragment was expected, and
/// the offset at which the fragment at that position starts instead. Where
/// the fragments are sorted and do not overlap, the pair is the half-open
/// range of bytes that no fragment covers.
pub open spec fn gaps_of(packets: Seq<PacketView>) -> Seq<(u64, u64)>
    decreases packets.len(),
{
    if packets.len() == 0 {
        Seq::empty()
    } else {
        let i = packets.len() - 1;
        let before = gaps_of(packets.drop_last());
        if breaks_at(packets, i) {
            before.push((expected_offset(packets, i), packets[i].offset as u64))
        } else {
            before
        }
    }
}

/// What a message under reassembly is, as a mathematical value.
pub struct MessageView {
    /// Whether the message was ever seen complete.
    pub complete: bool,
    /// The clock reading at which the message was created, in nanoseconds.
    pub start: u64,
    /// The fragments, in their current order.
    pub packets: Seq<PacketView>,
    /// The end of the last terminal fragment that arrived, 0 before one did.
    pub eof: nat,
    /// The sum of the payload lengths of all fragments.
    pub seen: nat,
}

impl MessageView {
    /// The message without fragments that was created at `start`.
    pub open spec fn fresh(start: u64) -> MessageView {
        MessageView { complete: false, start, packets: Seq::empty(), eof: 0, seen: 0 }
    }

    /// Every fragment is well formed and the byte count is the sum of their
    /// payload lengths.
    pub open spec fn wf(self) -> bool {
        &&& forall|i: int| 0 <= i < self.packets.len() ==> (#[trigger] self.packets[i]).wf()
        &&& self.seen == total_size(self.packets)
    }

    /// The end that the message has after `p` arrived.
    pub open spec fn eof_after(self, p: PacketView) -> nat {
        if is_terminal(p.flags) {
            p.end()
        } else {
            self.eof
        }
    }

    /// The message after the fragment `p` was added.
    pub open spec fn add(self, p: PacketView) -> MessageView {
        MessageView {
            complete: self.complete || (self.eof_after(p) != 0 && self.eof_after(p) == self.seen
                + p.data_size),
            start: self.start,
            packets: self.packets.push(p),
            eof: self.eof_after(p),
            seen: (self.seen + p.data_size) as nat,
        }
    }

    /// The message after the fragments of `run` were added one after the
    /// other.
    pub open spec fn add_all(self, run: Seq<PacketView>) -> MessageView
        decreases run.len(),
    {
        if run.len() == 0 {
            self
        } else {
            self.add_all(run.drop_last()).add(run.last())
        }
    }

    /// The time that has passed since the message was created when the
    /// clock reads `now`, in nanoseconds; 0 for a reading in front of the
    /// creation.
    pub open spec fn age(self, now: u64) -> nat {
        if now >= self.start {
            (now - self.start) as nat
        } else {
            0
        }
    }

    /// The message with its fragments by ascending offset, those with the
    /// same offset in the order in which they stood.
    pub open spec fn sorted(self) -> MessageView {
        MessageView { packets: sorted(self.packets), ..self }
    }

    /// Every fragment carries the id `id`.
    pub open spec fn belongs_to(self, id: u32) -> bool {
        forall|i: int| 0 <= i < self.packets.len() ==> (#[trigger] self.packets[i]).packet_id == id
    }

    /// The id of the first fragment, if there is one.
    pub open spec fn first_id(self) -> Option<u32> {
        if self.packets.len() == 0 {
            None
        } else {
            Some(self.packets[0].packet_id)
        }
    }
}

/// No run of fragments holds more than 65535 bytes for each of them.
pub proof fn lemma_total_size_bound(packets: Seq<PacketView>)
    ensures
        total_size(packets) <= packets.len() * 0xffff,
    decreases packets.len(),
{
    if packets.len() > 0 {
        lemma_total_size_bound(packets.drop_last());
    }
}

/// Adding a fragment never lowers the byte count and never takes
/// completeness away.
pub proof fn lemma_add_is_monotone(m: MessageView, p: PacketView)
    ensures
        m.add(p).seen >= m.seen,
        m.complete ==> m.add(p).complete,
        m.add(p).start == m.start,
        m.wf() && p.wf() ==> m.add(p).wf(),
{
    assert(m.packets.push(p).drop_last() =~= m.packets);
}

/// What adding a run of fragments makes of a message: the fragments are
/// appended, their payload lengths counted, and the end is that of the
/// last terminal fragment of the run, if it has one.
pub proof fn lemma_add_all(m: MessageView, run: Seq<PacketView>)
    ensures
        m.add_all(run).packets == m.packets + run,
        m.add_all(run).seen == m.seen + total_size(run),
        m.add_all(run).start == m.start,
        m.complete ==> m.add_all(run).complete,
        (forall|i: int| 0 <= i < run.len() ==> !is_terminal(run[i].flags)) ==> m.add_all(run).eof
            == m.eof,
        forall|i: int|
            0 <= i < run.len() && is_terminal(run[i].flags) && (forall|j: int|
                i < j < run.len() ==> !is_terminal(run[j].flags)) ==> m.add_all(run).eof
                == run[i].end(),
    decreases run.len(),
{
    if run.len() == 0 {
        assert(m.packets + run =~= m.packets);
    } else {
        let front = run.drop_last();
        lemma_add_all(m, front);
        assert(m.packets + run =~= (m.packets + front).push(run.last()));
        assert forall|i: int|
            0 <= i < run.len() && is_terminal(run[i].flags) && (forall|j: int|
                i < j < run.len() ==> !is_terminal(run[j].flags)) implies m.add_all(run).eof
            == run[i].end() by {
            if i < front.len() {
                assert(!is_terminal(run[run.len() - 1].flags));
                assert(front[i] == run[i]);
                assert forall|j: int| i < j < front.len() implies !is_terminal(
                    front[j].flags,
                ) by {
                    assert(front[j] == run[j]);
                }
            }
        }
        if forall|i: int| 0 <= i < run.len() ==> !is_terminal(run[i].flags) {
            assert(!is_terminal(run[run.len() - 1].flags));
            assert forall|i: int| 0 <= i < front.len() implies !is_terminal(front[i].flags) by {
                assert(front[i] == run[i]);
            }
        }
    }
}

/// The position of the last terminal fragment of a run that has one.
proof fn lemma_last_terminal(run: Seq<PacketView>) -> (i: int)
    requires
        exists|k: int| 0 <= k < run.len() && is_terminal(run[k].flags),
    ensures
        0 <= i < run.len(),
        is_terminal(run[i].flags),
        forall|j: int| i < j < run.len() ==> !is_terminal(run[j].flags),
    decreases run.len(),
{
    if is_terminal(run.last().flags) {
        run.len() - 1
    } else {
        let front = run.drop_last();
        let k = choose|k: int| 0 <= k < run.len() && is_terminal(run[k].flags);
        assert(front[k] == run[k]);
        let i = lemma_last_terminal(front);
        assert(front[i] == run[i]);
        assert forall|j: int| i < j < run.len() implies !is_terminal(run[j].flags) by {
            if j < front.len() {
                assert(front[j] == run[j]);
            }
        }
        i
    }
}

/// A message is complete once all its fragments were added, in whatever
/// order they came: if one of them is terminal, every terminal one ends at
/// `end`, `end` is not 0, and the payload lengths add up to `end`.
pub proof fn lemma_complete_in_any_order(start: u64, run: Seq<PacketView>, end: nat)
    requires
        end != 0,
        total_size(run) == end,
        exists|i: int| 0 <= i < run.len() && is_terminal(run[i].flags),
        forall|i: int| 0 <= i < run.len() && is_terminal(run[i].flags) ==> run[i].end() == end,
    ensures
        MessageView::fresh(start).add_all(run).complete,
        MessageView::fresh(start).add_all(run).eof == end,
        MessageView::fresh(start).add_all(run).seen == end,
{
    let fresh = MessageView::fresh(start);
    let _ = lemma_last_terminal(run);
    lemma_add_all(fresh, run);
    lemma_add_all(fresh, run.drop_last());
    assert(run.drop_last().push(run.last()) =~= run);
}

/// A run of fragments has no gap if and only if its first fragment starts
/// at 0 and each of the others where the one in front of it ends.
pub proof fn lemma_no_gaps(run: Seq<PacketView>)
    ensures
        gaps_of(run).len() == 0 <==> forall|i: int| 0 <= i < run.len() ==> !breaks_at(run, i),
    decreases run.len(),
{
    if run.len() > 0 {
        let front = run.drop_last();
        lemma_no_gaps(front);
        assert forall|i: int| 0 <= i < front.len() implies breaks_at(front, i) == breaks_at(
            run,
            i,
        ) by {}
        if gaps_of(run).len() == 0 {
            assert forall|i: int| 0 <= i < run.len() implies !breaks_at(run, i) by {
                if i < front.len() {
                    assert(!breaks_at(front, i));
                }
            }
        }
        if forall|i: int| 0 <= i < run.len() ==> !breaks_at(run, i) {
            assert(!breaks_at(run, run.len() - 1));
            assert forall|i: int| 0 <= i < front.len() implies !breaks_at(front, i) by {
                assert(!breaks_at(run, i));
            }
        }
    }
}

/// The digest of a sorted message does not depend on the order in which
/// its fragments arrived, as long as no two of them start at the same
/// offset.
pub proof fn lemma_hash_in_any_order(a: Seq<PacketView>, b: Seq<PacketView>)
    requires
        a.to_multiset() == b.to_multiset(),
        distinct_offsets(a),
    ensures
        content(sorted(a)) == content(sorted(b)),
        hex_of(sha256(content(sorted(a)))) == hex_of(sha256(content(sorted(b)))),
{
    lemma_sorted_any_order(a, b);
}

/// Sorting changes nothing but the order of the fragments: a sorted
/// message is well formed if it was, has as many fragments as before, and
/// they carry the id that all of them carried.
pub proof fn lemma_sorted_keeps(m: MessageView, id: u32)
    ensures
        m.sorted().packets.len() == m.packets.len(),
        m.sorted().packets.to_multiset() == m.packets.to_multiset(),
        m.wf() ==> m.sorted().wf(),
        m.belongs_to(id) ==> m.sorted().belongs_to(id),
{
    let run = m.sorted().packets;
    lemma_sorted_keeps_members(m.packets);
    lemma_sorted_keeps_total_size(m.packets);
    assert forall|i: int| 0 <= i < run.len() implies m.packets.contains(#[trigger] run[i]) by {
        assert(run.contains(run[i]));
    }
    if m.wf() {
        assert forall|i: int| 0 <= i < run.len() implies (#[trigger] run[i]).wf() by {
            assert(m.packets.contains(run[i]));
            let k = choose|k: int| 0 <= k < m.packets.len() && m.packets[k] == run[i];
            assert(m.packets[k].wf());
        }
    }
    if m.belongs_to(id) {
        assert forall|i: int| 0 <= i < run.len() implies (#[trigger] run[i]).packet_id == id by {
            assert(m.packets.contains(run[i]));
            let k = choose|k: int| 0 <= k < m.packets.len() && m.packets[k] == run[i];
            assert(m.packets[k].packet_id == id);
        }
    }
}

/// The state of one message under reassembly.
#[derive(Debug)]
pub struct Message {
    complete: bool,
    start: u64,
    packets: Vec<Packet>,
    eof: u64,
    seen: u128,
}

impl View for Message {
    type V = MessageView;

    closed spec fn view(&self) -> MessageView {
        MessageView {
            complete: self.complete,
            start: self.start,
            packets: views(self.packets@),
            eof: self.eof as nat,
            seen: self.seen as nat,
        }
    }
}

impl Message {
    /// Every fragment is well formed and the byte count is the sum of their
    /// payload lengths.
    pub open spec fn wf(&self) -> bool {
        self@.wf()
    }

    /// Creates a message without fragments and notes the present reading of
    /// the clock as its creation time.
    pub fn new() -> (m: Message)
        ensures
            m.wf(),
            m@ == MessageView::fresh(m@.start),
    {
        Message::started_at(precise_time_ns())
    }

    /// Creates a message without fragments whose creation time is `start`,
    /// a clock reading in nanoseconds.
    pub fn started_at(start: u64) -> (m: Message)
        ensures
            m.wf(),
            m@ == MessageView::fresh(start),
    {
        let m = Message { complete: false, start, packets: Vec::new(), eof: 0, seen: 0 };
        assert(m@.packets =~= Seq::empty());
        m
    }

    /// Adds a fragment. The message counts its bytes, notes the end of the
    /// message if the fragment is terminal, and is complete from the moment
    /// at which the end is known and the bytes seen add up to it.
    pub fn add_packet(&mut self, packet: Packet)
        requires
            old(self).wf(),
            packet.wf(),
        ensures
            final(self).wf(),
            final(self)@ == old(self)@.add(packet@),
    {
        proof {
            lemma_total_size_bound(self@.packets);
            assert(self@.packets.len() == self.packets.len() <= usize::MAX);
            assert(self@.packets.push(packet@).drop_last() =~= self@.packets);
            assert(views(self.packets@.push(packet)) =~= views(self.packets@).push(packet@));
        }
        self.seen = self.seen + packet.data_size as u128;
        if packet.flags & EOF == EOF {
            self.eof = packet.offset as u64 + packet.data_size as u64;
        }
        self.packets.push(packet);
        if self.eof != 0 && self.eof as u128 == self.seen {
            self.complete = true;
        }
    }

    /// The payloads of the fragments in their current order, one behind
    /// the other.
    pub fn content(&self) -> (bytes: Vec<u8>)
        ensures
            bytes@ == content(self@.packets),
    {
        let mut bytes: Vec<u8> = Vec::new();
        let mut i: usize = 0;
        while i < self.packets.len()
            invariant
                i <= self.packets.len(),
                bytes@ == content(self@.packets.take(i as int)),
            decreases self.packets.len() - i,
        {
            proof {
                assert(self@.packets.take(i + 1).drop_last() =~= self@.packets.take(i as int));
            }
            bytes.extend_from_slice(self.packets[i].data.as_slice());
            i = i + 1;
        }
        proof {
            assert(self@.packets.take(i as int) =~= self@.packets);
        }
        bytes
    }

    /// The SHA-256 digest of the payloads in their current order, in
    /// lower-case hexadecimal notation.
    pub fn sha256(&self) -> (hash: String)
        ensures
            hash@ == hex_of(sha256(content(self@.packets))),
            hash@.len() == 64,
            forall|i: int| 0 <= i < 64 ==> is_hex_digit(#[trigger] hash@[i]),
    {
        let bytes = self.content();
        let digest = sha256_digest(bytes.as_slice());
        proof {
            lemma_hex_of(digest@);
        }
        hex(digest.as_slice())
    }

    /// The gaps in the run of fragments, read in their current order: for
    /// each fragment that does not start where the one in front of it
    /// ended (the first: at 0), the offset at which it was expected and
    /// the offset at which it starts. The message is meant to be sorted
    /// first.
    pub fn gaps(&self) -> (gaps: Vec<(u64, u64)>)
        ensures
            gaps@ == gaps_of(self@.packets),
    {
        let mut gaps: Vec<(u64, u64)> = Vec::new();
        let mut offset: u64 = 0;
        let mut i: usize = 0;
        while i < self.packets.len()
            invariant
                i <= self.packets.len(),
                offset == expected_offset(self@.packets, i as int),
                gaps@ == gaps_of(self@.packets.take(i as int)),
            decreases self.packets.len() - i,
        {
            let packet = &self.packets[i];
            proof {
                let upto = self@.packets.take(i + 1);
                assert(upto.drop_last() =~= self@.packets.take(i as int));
                assert(breaks_at(upto, i as int) == breaks_at(self@.packets, i as int));
            }
            if packet.offset as u64 != offset {
                gaps.push((offset, packet.offset as u64));
            }
            offset = packet.offset as u64 + packet.data_size as u64;
            i = i + 1;
        }
        proof {
            assert(self@.packets.take(i as int) =~= self@.packets);
        }
        gaps
    }

    /// Brings the fragments into the order of their offsets. Fragments with
    /// the same offset keep the order in which they stood.
    pub fn sort(&mut self)
        requires
            old(self).wf(),
        ensures
            final(self).wf(),
            final(self)@ == old(self)@.sorted(),
    {
        let ghost given = views(self.packets@);
        let n = self.packets.len();
        let mut i: usize = 0;
        proof {
            assert(given.take(0) =~= Seq::<PacketView>::empty());
            assert(given.skip(0) =~= given);
        }
        while i < n
            invariant
                i <= n,
                self.packets.len() == n,
                given.len() == n,
                self.complete == old(self).complete,
                self.start == old(self).start,
                self.eof == old(self).eof,
                self.seen == old(self).seen,
                stable_sort_of(views(self.packets@).take(i as int), given.take(i as int)),
                views(self.packets@).skip(i as int) == given.skip(i as int),
            decreases n - i,
        {
            let ghost before = views(self.packets@);
            let key = self.packets[i].offset;
            let mut j: usize = i;
            while j > 0 && self.packets[j - 1].offset > key
                invariant
                    j <= i < self.packets.len(),
                    before == views(self.packets@),
                    forall|m: int| j <= m < i ==> before[m].offset > key,
                decreases j,
            {
                j = j - 1;
            }
            proof {
                let front = before.take(i as int);
                assert(before[i as int] == before.skip(i as int)[0]);
                assert(given[i as int] == given.skip(i as int)[0]);
                assert forall|m: int| 0 <= m < j implies front[m].offset <= key by {
                    assert(front[m].offset <= front[j - 1].offset);
                }
                lemma_insert_sorts(front, given.take(i as int), before[i as int], j as int);
                assert(given.take(i + 1) =~= given.take(i as int).push(given[i as int]));
                assert(before.remove(i as int).insert(j as int, before[i as int]).take(i + 1)
                    =~= front.insert(j as int, before[i as int]));
                assert(before.remove(i as int).insert(j as int, before[i as int]).skip(i + 1)
                    =~= before.skip(i as int).skip(1));
                assert(given.skip(i + 1) =~= given.skip(i as int).skip(1));
            }
            if j < i {
                let packet = self.packets.remove(i);
                self.packets.insert(j, packet);
                proof {
                    assert(views(self.packets@) =~= before.remove(i as int).insert(
                        j as int,
                        before[i as int],
                    ));
                }
            } else {
                proof {
                    assert(before.remove(i as int).insert(i as int, before[i as int]) =~= before);
                }
            }
            i = i + 1;
        }
        proof {
            assert(views(self.packets@).take(n as int) =~= views(self.packets@));
            assert(given.take(n as int) =~= given);
            lemma_stable_sort_unique(views(self.packets@), given);
            lemma_sorted_keeps(old(self)@, 0);
        }
    }

    /// The id that the first fragment carries, if there is a fragment.
    pub fn packets_packet_id(&self) -> (id: Option<u32>)
        ensures
            id == self@.first_id(),
    {
        if self.packets.len() == 0 {
            None
        } else {
            Some(self.packets[0].packet_id)
        }
    }

    /// Whether the message was ever seen complete.
    pub fn complete(&self) -> (complete: bool)
        ensures
            complete == self@.complete,
    {
        self.complete
    }

    /// The clock reading at which the message was created.
    pub fn start(&self) -> (start: u64)
        ensures
            start == self@.start,
    {
        self.start
    }

    /// The fragments, in their current order.
    pub fn packets(&self) -> (packets: &Vec<Packet>)
        ensures
            views(packets@) == self@.packets,
    {
        &self.packets
    }

    /// The end of the message as the last terminal fragment gave it, 0
    /// before one arrived.
    pub fn eof(&self) -> (eof: u64)
        ensures
            eof == self@.eof,
    {
        self.eof
    }

    /// The sum of the payload lengths of all fragments.
    pub fn seen(&self) -> (seen: u128)
        ensures
            seen == self@.seen,
    {
        self.seen
    }

    /// The time since the message was created when the clock reads `now`.
    pub fn age(&self, now: u64) -> (age: u64)
        ensures
            age == self@.age(now),
    {
        if now >= self.start {
            now - self.start
        } else {
            0
        }
    }
}

} // verus!
