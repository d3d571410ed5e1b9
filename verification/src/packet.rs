//! The zero-copy packet wrapper: a decoded header bound to the borrowed
//! input buffer.
use vstd::prelude::*;

use crate::header::Header;
use crate::model::{
    lemma_options_bytes_len, lemma_parse_header_wf, parse_header, PacketModel,
};
use crate::{GeneveErr, MIN_GENEVE_HDR};

verus! {

//   Geneve Packet:
//      +-+-+-+-+-+-+-+-+-+-+-+-+-+-+-+-+-+-+-+-+-+-+-+-+-+-+-+-+-+-+-+-+
//      |       Geneve Header (with or without Option Fields)           |
//      +-+-+-+-+-+-+-+-+-+-+-+-+-+-+-+-+-+-+-+-+-+-+-+-+-+-+-+-+-+-+-+-+
//      |                    Payload                                    |
//      +-+-+-+-+-+-+-+-+-+-+-+-+-+-+-+-+-+-+-+-+-+-+-+-+-+-+-+-+-+-+-+-+

/// A decoded packet. It owns nothing: `payload` is the whole original
/// buffer, and `offset` records where the header's encoding ends and the
/// payload begins. Constructed only by a successful decode, so the header
/// and offset always agree with the buffer.
#[derive(Debug, PartialEq)]
pub struct GenevePacket<'a> {
    pub hdr: Header<'a>,
    offset: usize,
    pub payload: &'a [u8],
}

impl<'a> View for GenevePacket<'a> {
    type V = PacketModel;

    closed spec fn view(&self) -> PacketModel {
        PacketModel { hdr: self.hdr@, offset: self.offset as int, payload: self.payload@ }
    }
}

impl<'a> GenevePacket<'a> {
    /// Decodes a packet from the front of `packet`: the header parses from
    /// the first bytes and the rest is payload. `None` when the header does
    /// not parse.
    pub fn new(packet: &[u8]) -> (r: Option<GenevePacket>)
        ensures
            r is Some <==> parse_header(packet@) is Some,
            r matches Some(p) ==> p@.wf() && p@.payload == packet@,
    {
        if let Some((i, k)) = Header::unmarshal(packet) {
            Some(GenevePacket { hdr: i, offset: k, payload: packet })
        } else {
            None
        }
    }

    /// Appends the packet's re-serialization to `buffer`: the header's
    /// encoding, then the payload bytes from the recorded offset to the end.
    /// A decoded packet always re-serializes, so the result is always `Ok`.
    pub fn marshal(&self, buffer: &mut Vec<u8>) -> (r: Result<(), GeneveErr>)
        requires
            self@.wf(),
        ensures
            r is Ok,
            final(buffer)@ == old(buffer)@ + self@.hdr.wire_bytes() + self@.payload.skip(
                self@.offset,
            ),
    {
        proof {
            lemma_parse_header_wf(self@.payload);
        }
        let ghost buffer0: Seq<u8> = buffer@;
        let mut hdr_buffer: Vec<u8> = Vec::new();
        self.hdr.marshal(&mut hdr_buffer)?;

        let mut i: usize = 0;
        while i < hdr_buffer.len()
            invariant
                i <= hdr_buffer@.len(),
                hdr_buffer@ == self@.hdr.wire_bytes(),
                buffer@ == buffer0 + hdr_buffer@.subrange(0, i as int),
            decreases hdr_buffer@.len() - i,
        {
            buffer.push(hdr_buffer[i]);
            proof {
                assert(hdr_buffer@.subrange(0, i + 1) =~= hdr_buffer@.subrange(0, i as int).push(
                    hdr_buffer@[i as int],
                ));
            }
            i = i + 1;
        }
        proof {
            assert(hdr_buffer@.subrange(0, hdr_buffer@.len() as int) =~= hdr_buffer@);
        }

        let mut j: usize = self.offset;
        while j < self.payload.len()
            invariant
                self@.offset <= j <= self@.payload.len(),
                buffer@ == buffer0 + self@.hdr.wire_bytes() + self@.payload.subrange(
                    self@.offset,
                    j as int,
                ),
            decreases self@.payload.len() - j,
        {
            buffer.push(self.payload[j]);
            proof {
                assert(self@.payload.subrange(self@.offset, j + 1) =~= self@.payload.subrange(
                    self@.offset,
                    j as int,
                ).push(self@.payload[j as int]));
            }
            j = j + 1;
        }
        proof {
            assert(buffer@ =~= buffer0 + self@.hdr.wire_bytes() + self@.payload.skip(
                self@.offset,
            ));
        }
        Ok(())
    }

    /// Re-serializes the packet into the front of `buffer`, returning the
    /// bytes written. The exact required length, header plus payload tail,
    /// is validated first: the function fails with `InvalidLength`, writing
    /// nothing, when `buffer` is shorter than that.
    pub fn marshal_to_slice(&self, buffer: &mut [u8]) -> (r: Result<usize, GeneveErr>)
        requires
            self@.wf(),
        ensures
            r is Ok <==> self@.hdr.header_len() + (self@.payload.len() - self@.offset) <= old(
                buffer,
            )@.len(),
            r matches Ok(n) ==> n == self@.hdr.header_len() + (self@.payload.len() - self@.offset)
                && final(buffer)@ == self@.hdr.wire_bytes() + self@.payload.skip(self@.offset)
                + old(buffer)@.skip(n as int),
            r is Err ==> final(buffer)@ == old(buffer)@ && r matches Err(GeneveErr::InvalidLength),
    {
        proof {
            lemma_parse_header_wf(self@.payload);
        }
        let payload_len = self.payload.len() - self.offset;

        if buffer.len() < self.hdr.header_len() + payload_len {
            return Err(GeneveErr::InvalidLength);
        }

        let ghost buffer0: Seq<u8> = buffer@;
        let pos = self.hdr.marshal_to_slice(buffer)?;
        proof {
            lemma_options_bytes_len(self@.hdr.opts());
        }

        let mut i: usize = 0;
        while i < payload_len
            invariant
                i <= payload_len,
                pos == self@.hdr.header_len(),
                self@.hdr.wire_bytes().len() == pos,
                payload_len == self@.payload.len() - self@.offset,
                0 <= self@.offset <= self@.payload.len() == self.payload@.len(),
                self@.payload == self.payload@,
                self@.payload.len() <= usize::MAX,
                pos + payload_len <= buffer@.len() == buffer0.len(),
                buffer@.len() <= usize::MAX,
                forall|k: int| 0 <= k < pos ==> buffer@[k] == self@.hdr.wire_bytes()[k],
                forall|k: int|
                    pos <= k < pos + i ==> buffer@[k] == self@.payload[self@.offset + (k - pos)],
                forall|k: int| pos + i <= k < buffer@.len() ==> buffer@[k] == buffer0[k],
            decreases payload_len - i,
        {
            buffer[pos + i] = self.payload[self.offset + i];
            i = i + 1;
        }
        proof {
            assert(buffer@ =~= self@.hdr.wire_bytes() + self@.payload.skip(self@.offset)
                + buffer0.skip(pos + payload_len));
        }
        Ok(pos + payload_len)
    }

    /// Decodes a packet, telling the two failures apart: a buffer shorter
    /// than the minimum header size is `InvalidLength`; one that is long
    /// enough but does not parse as a Geneve header is `NotGeneve`.
    pub fn unmarshal(buffer: &'a [u8]) -> (r: Result<Self, GeneveErr>)
        ensures
            r is Ok <==> parse_header(buffer@) is Some,
            r matches Ok(p) ==> p@.wf() && p@.payload == buffer@,
            buffer@.len() < MIN_GENEVE_HDR ==> r matches Err(GeneveErr::InvalidLength),
            buffer@.len() >= MIN_GENEVE_HDR && parse_header(buffer@) is None ==> r matches Err(
                GeneveErr::NotGeneve,
            ),
    {
        if buffer.len() >= MIN_GENEVE_HDR {
            if let Some((i, cur)) = Header::unmarshal(buffer) {
                let pckt = GenevePacket { hdr: i, offset: cur, payload: buffer };
                Ok(pckt)
            } else {
                Err(GeneveErr::NotGeneve)
            }
        } else {
            Err(GeneveErr::InvalidLength)
        }
    }
}

impl<'a> TryFrom<&'a [u8]> for GenevePacket<'a> {
    type Error = GeneveErr;

    /// Decodes as [`GenevePacket::new`] does; the one failure is `NotGeneve`.
    fn try_from(packet: &'a [u8]) -> (r: Result<Self, Self::Error>)
        ensures
            r is Ok <==> parse_header(packet@) is Some,
            r matches Ok(p) ==> p@.wf() && p@.payload == packet@,
            r is Err ==> r matches Err(GeneveErr::NotGeneve),
    {
        if let Some((i, k)) = Header::unmarshal(packet) {
            Ok(GenevePacket { hdr: i, offset: k, payload: packet })
        } else {
            Err(GeneveErr::NotGeneve)
        }
    }
}

/// The generic `TryFrom` specification is left unclaimed: a spec-level
/// `try_from_spec` cannot name the decoded value, since a `Header` holds a
/// `Vec` of options. The contract lives on the `try_from` implementation
/// above instead.
impl<'a> vstd::std_specs::convert::TryFromSpecImpl<&'a [u8]> for GenevePacket<'a> {
    open spec fn obeys_try_from_spec() -> bool {
        false
    }

    open spec fn try_from_spec(packet: &'a [u8]) -> Result<Self, GeneveErr> {
        arbitrary()
    }
}

} // verus!
