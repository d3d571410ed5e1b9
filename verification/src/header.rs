//! The Geneve header and its codec.
use vstd::prelude::*;

use crate::model::{
    lemma_options_bytes_len, lemma_options_bytes_push, lemma_options_total_len_nonneg,
    lemma_options_total_len_push, lemma_options_total_len_split, lemma_round_up4, options_bytes,
    options_total_len, parse_header, parse_options, HeaderModel, OptionModel,
};
use crate::tunnel_option::{options_view, TunnelOption};
use crate::{GeneveErr, MIN_GENEVE_HDR};

verus! {

//   Geneve Header:
//      +-+-+-+-+-+-+-+-+-+-+-+-+-+-+-+-+-+-+-+-+-+-+-+-+-+-+-+-+-+-+-+-+
//      |Ver|  Opt Len  |O|C|    Rsvd.  |          Protocol Type        |
//      +-+-+-+-+-+-+-+-+-+-+-+-+-+-+-+-+-+-+-+-+-+-+-+-+-+-+-+-+-+-+-+-+
//      |        Virtual Network Identifier (VNI)       |    Reserved   |
//      +-+-+-+-+-+-+-+-+-+-+-+-+-+-+-+-+-+-+-+-+-+-+-+-+-+-+-+-+-+-+-+-+
//      |                    Variable Length Options                    |
//      +-+-+-+-+-+-+-+-+-+-+-+-+-+-+-+-+-+-+-+-+-+-+-+-+-+-+-+-+-+-+-+-+

/// The fixed fields of a Geneve header together with its option run.
#[derive(Debug, PartialEq)]
pub struct Header<'a> {
    pub version: u8,
    pub control_flag: bool,
    pub critical_flag: bool,
    pub protocol: u16,
    pub vni: u32,
    pub options: Option<Vec<TunnelOption<'a>>>,
    pub options_len: u8,
}

impl<'a> View for Header<'a> {
    type V = HeaderModel;

    open spec fn view(&self) -> HeaderModel {
        HeaderModel {
            version: self.version,
            control_flag: self.control_flag,
            critical_flag: self.critical_flag,
            protocol: self.protocol,
            vni: self.vni,
            options: match self.options {
                Some(v) => Some(options_view(v@)),
                None => None,
            },
            options_len: self.options_len,
        }
    }
}

impl<'a> Header<'a> {
    /// Minimum size of a Geneve header without any options present.
    pub const MIN_SIZE: usize = 8;

    /// Total wire length of the option area, derived from the options
    /// themselves: the sum of every option's padded length.
    pub fn opt_len(&self) -> (n: usize)
        requires
            self@.opt_len() <= usize::MAX,
        ensures
            n == self@.opt_len(),
    {
        let mut total: usize = 0;
        if let Some(opts) = &self.options {
            let ghost s = options_view(opts@);
            proof {
                assert(s == self@.opts());
            }
            let mut idx: usize = 0;
            while idx < opts.len()
                invariant
                    idx <= opts@.len(),
                    s == options_view(opts@),
                    s == self@.opts(),
                    options_total_len(s) <= usize::MAX,
                    total == options_total_len(s.subrange(0, idx as int)),
                decreases opts@.len() - idx,
            {
                proof {
                    lemma_options_total_len_split(s, idx as int);
                    lemma_options_total_len_nonneg(s.subrange(0, idx as int));
                    assert(s.skip(idx as int).drop_first() =~= s.skip(idx as int + 1));
                    lemma_options_total_len_nonneg(s.skip(idx as int + 1));
                    assert(s.skip(idx as int)[0] == s[idx as int]);
                }
                let o_len = opts[idx].opt_len();
                total = total + o_len;
                proof {
                    lemma_options_total_len_push(s.subrange(0, idx as int), s[idx as int]);
                    assert(s.subrange(0, idx + 1) =~= s.subrange(0, idx as int).push(
                        s[idx as int],
                    ));
                }
                idx = idx + 1;
            }
            proof {
                assert(s.subrange(0, s.len() as int) =~= s);
            }
        }
        total
    }

    /// Total wire length of the header: the eight fixed bytes plus the
    /// option area.
    pub fn header_len(&self) -> (n: usize)
        requires
            self@.header_len() <= usize::MAX,
        ensures
            n == self@.header_len(),
    {
        proof {
            lemma_options_total_len_nonneg(self@.opts());
        }
        Self::MIN_SIZE + self.opt_len()
    }

    /// Encodes the eight fixed bytes: version and option-area length packed
    /// into byte 0, the flags, the protocol, the 24-bit VNI, and a reserved
    /// zero byte.
    fn encode_header(&self) -> (b: [u8; 8])
        requires
            self@.version < 4,
            self@.vni < 0x1000000,
            0 <= self@.opt_len() <= 252,
        ensures
            b@ == self@.fixed_bytes(),
    {
        let mut buffer: [u8; 8] = [0u8; 8];
        let olen = self.opt_len();

        buffer[0] = self.version * 64 + (olen / 4) as u8;
        buffer[1] = match (self.control_flag, self.critical_flag) {
            (false, false) => 0x00,
            (true, false) => 0x80,
            (false, true) => 0x40,
            (true, true) => 0xc0,
        };
        buffer[2] = (self.protocol / 256) as u8;
        buffer[3] = (self.protocol % 256) as u8;
        buffer[4] = (self.vni / 0x10000) as u8;
        buffer[5] = ((self.vni / 0x100) % 256) as u8;
        buffer[6] = (self.vni % 256) as u8;
        buffer[7] = 0;

        proof {
            assert(buffer@ =~= self@.fixed_bytes());
        }
        buffer
    }

    /// Appends the header's encoding to `buffer`: every option serializes
    /// first (their total length feeds byte 0), then the fixed bytes and
    /// the option bytes follow. Fails with `InvalidLength`, appending
    /// nothing, when an option's data block exceeds 128 bytes.
    pub fn marshal(&self, buffer: &mut Vec<u8>) -> (r: Result<(), GeneveErr>)
        requires
            self@.wf(),
        ensures
            r is Ok <==> self@.options_encodable(),
            r is Ok ==> final(buffer)@ == old(buffer)@ + self@.wire_bytes(),
            r is Err ==> final(buffer)@ == old(buffer)@ && r matches Err(GeneveErr::InvalidLength),
    {
        let ghost buffer0: Seq<u8> = buffer@;
        let mut opt_buffer: Vec<u8> = Vec::new();
        if let Some(opts) = &self.options {
            let ghost s = options_view(opts@);
            proof {
                assert(s == self@.opts());
                assert(opt_buffer@ =~= options_bytes(s.subrange(0, 0)));
            }
            let mut idx: usize = 0;
            while idx < opts.len()
                invariant
                    idx <= opts@.len(),
                    s == options_view(opts@),
                    s == self@.opts(),
                    self@.wf(),
                    forall|i: int| 0 <= i < idx ==> (#[trigger] s[i]).encodable(),
                    opt_buffer@ == options_bytes(s.subrange(0, idx as int)),
                decreases opts@.len() - idx,
            {
                match opts[idx].marshal(&mut opt_buffer) {
                    Ok(_) => {},
                    Err(_) => {
                        proof {
                            assert(!s[idx as int].encodable());
                            assert(!self@.options_encodable());
                        }
                        return Err(GeneveErr::InvalidLength);
                    },
                }
                proof {
                    lemma_options_bytes_push(s.subrange(0, idx as int), s[idx as int]);
                    assert(s.subrange(0, idx + 1) =~= s.subrange(0, idx as int).push(
                        s[idx as int],
                    ));
                }
                idx = idx + 1;
            }
            proof {
                assert(s.subrange(0, s.len() as int) =~= s);
            }
        }
        proof {
            assert(self@.options_encodable());
            assert(opt_buffer@ =~= options_bytes(self@.opts()));
            lemma_options_total_len_nonneg(self@.opts());
        }

        let hdr = self.encode_header();
        let mut i: usize = 0;
        while i < 8
            invariant
                i <= 8,
                hdr@ == self@.fixed_bytes(),
                hdr@.len() == 8,
                buffer@ == buffer0 + hdr@.subrange(0, i as int),
            decreases 8 - i,
        {
            buffer.push(hdr[i]);
            proof {
                assert(hdr@.subrange(0, i + 1) =~= hdr@.subrange(0, i as int).push(
                    hdr@[i as int],
                ));
            }
            i = i + 1;
        }
        proof {
            assert(hdr@.subrange(0, 8) =~= hdr@);
        }

        let mut j: usize = 0;
        while j < opt_buffer.len()
            invariant
                j <= opt_buffer@.len(),
                buffer@ == buffer0 + self@.fixed_bytes() + opt_buffer@.subrange(0, j as int),
            decreases opt_buffer@.len() - j,
        {
            buffer.push(opt_buffer[j]);
            proof {
                assert(opt_buffer@.subrange(0, j + 1) =~= opt_buffer@.subrange(0, j as int).push(
                    opt_buffer@[j as int],
                ));
            }
            j = j + 1;
        }
        proof {
            assert(opt_buffer@.subrange(0, opt_buffer@.len() as int) =~= opt_buffer@);
            assert(buffer@ =~= buffer0 + self@.wire_bytes());
        }
        Ok(())
    }

    /// Encodes the header into the front of `buffer`, returning the number
    /// of bytes written. The required length is validated up front: the
    /// function fails with `InvalidLength`, writing nothing, when an
    /// option's data block exceeds 128 bytes or the buffer is shorter than
    /// [`Self::header_len`]; the buffer past the encoding is left unchanged.
    pub fn marshal_to_slice(&self, buffer: &mut [u8]) -> (r: Result<usize, GeneveErr>)
        requires
            self@.wf(),
        ensures
            r is Ok <==> self@.options_encodable() && self@.header_len() <= old(buffer)@.len(),
            r matches Ok(n) ==> n == self@.header_len() && final(buffer)@ == self@.wire_bytes()
                + old(buffer)@.skip(self@.header_len()),
            r is Err ==> final(buffer)@ == old(buffer)@ && r matches Err(GeneveErr::InvalidLength),
    {
        let ghost buffer0: Seq<u8> = buffer@;

        if let Some(opts) = &self.options {
            let ghost s = options_view(opts@);
            let mut idx: usize = 0;
            while idx < opts.len()
                invariant
                    idx <= opts@.len(),
                    s == options_view(opts@),
                    s == self@.opts(),
                    forall|i: int| 0 <= i < idx ==> (#[trigger] s[i]).encodable(),
                decreases opts@.len() - idx,
            {
                if opts[idx].data_len() > TunnelOption::MAX_DATA_SIZE {
                    proof {
                        assert(!s[idx as int].encodable());
                        assert(!self@.options_encodable());
                    }
                    return Err(GeneveErr::InvalidLength);
                }
                idx = idx + 1;
            }
            proof {
                assert(forall|i: int| 0 <= i < s.len() ==> (#[trigger] s[i]).encodable());
            }
        }
        proof {
            assert(self@.options_encodable());
            lemma_options_total_len_nonneg(self@.opts());
        }

        let len = self.header_len();
        if buffer.len() < len {
            return Err(GeneveErr::InvalidLength);
        }

        let hdr = self.encode_header();
        let mut k: usize = 0;
        while k < 8
            invariant
                k <= 8,
                hdr@ == self@.fixed_bytes(),
                hdr@.len() == 8,
                8 <= len <= buffer@.len() == buffer0.len(),
                forall|t: int| 0 <= t < k ==> buffer@[t] == hdr@[t],
                forall|t: int| k <= t < buffer@.len() ==> buffer@[t] == buffer0[t],
            decreases 8 - k,
        {
            buffer[k] = hdr[k];
            k = k + 1;
        }

        let mut pos: usize = Self::MIN_SIZE;
        if let Some(opts) = &self.options {
            let ghost s = options_view(opts@);
            proof {
                assert(buffer@.subrange(8, 8) =~= options_bytes(s.subrange(0, 0)));
            }
            let mut idx: usize = 0;
            while idx < opts.len()
                invariant
                    idx <= opts@.len(),
                    s == options_view(opts@),
                    s == self@.opts(),
                    self@.wf(),
                    self@.options_encodable(),
                    pos == 8 + options_total_len(s.subrange(0, idx as int)),
                    len == self@.header_len() <= buffer@.len() == buffer0.len(),
                    forall|t: int| 0 <= t < 8 ==> buffer@[t] == self@.fixed_bytes()[t],
                    buffer@.subrange(8, pos as int) == options_bytes(s.subrange(0, idx as int)),
                    forall|t: int| pos <= t < buffer@.len() ==> buffer@[t] == buffer0[t],
                decreases opts@.len() - idx,
            {
                let ghost prefix = s.subrange(0, idx as int);
                let ghost bytes_before = buffer@;
                proof {
                    lemma_options_total_len_split(s, idx as int);
                    lemma_options_total_len_nonneg(prefix);
                    assert(s.skip(idx as int).drop_first() =~= s.skip(idx as int + 1));
                    lemma_options_total_len_nonneg(s.skip(idx as int + 1));
                    assert(s.skip(idx as int)[0] == s[idx as int]);
                    lemma_options_bytes_len(prefix);
                }
                let next = opts[idx].write_to_slice(buffer, pos);
                proof {
                    lemma_options_total_len_push(prefix, s[idx as int]);
                    lemma_options_bytes_push(prefix, s[idx as int]);
                    assert(s.subrange(0, idx + 1) =~= prefix.push(s[idx as int]));
                    assert(buffer@.subrange(8, next as int) =~= bytes_before.subrange(
                        8,
                        pos as int,
                    ) + buffer@.subrange(pos as int, next as int));
                }
                pos = next;
                idx = idx + 1;
            }
            proof {
                assert(s.subrange(0, s.len() as int) =~= s);
            }
        } else {
            proof {
                assert(buffer@.subrange(8, 8) =~= options_bytes(self@.opts()));
            }
        }

        proof {
            lemma_options_bytes_len(self@.opts());
            assert(buffer@ =~= self@.wire_bytes() + buffer0.skip(self@.header_len()));
        }
        Ok(pos)
    }

    /// Decodes a header from the front of `buffer`, returning it together
    /// with the position where the payload starts. At least eight bytes
    /// must be present, the version must be 0, and the declared option area
    /// must be present in full and parse exactly; anything else is `None`.
    /// The decoded options borrow their data from `buffer`.
    pub fn unmarshal(buffer: &'a [u8]) -> (r: Option<(Self, usize)>)
        ensures
            r is Some <==> parse_header(buffer@) is Some,
            r matches Some(p) ==> parse_header(buffer@) == Some((p.0@, p.1 as int)),
    {
        if buffer.len() < MIN_GENEVE_HDR {
            return None;
        }
        if buffer[0] / 64 != 0 {
            return None;
        }

        let options_len_field = (buffer[0] % 64) * 4;
        let optlen = options_len_field as usize;
        let mut cursor: usize = MIN_GENEVE_HDR;

        let options: Option<Vec<TunnelOption<'a>>> = if optlen == 0 {
            None
        } else if optlen <= buffer.len() - MIN_GENEVE_HDR {
            let end = MIN_GENEVE_HDR + optlen;
            let ghost area = buffer@.subrange(8, end as int);
            let mut vector: Vec<TunnelOption<'a>> = Vec::new();
            proof {
                assert(options_view(vector@) =~= Seq::<OptionModel>::empty());
                if let Some(x) = parse_options(area) {
                    assert(options_view(vector@) + x =~= x);
                }
            }
            while cursor < end
                invariant
                    8 <= cursor <= end,
                    end == 8 + optlen,
                    end <= buffer@.len(),
                    buffer@[0] as int / 64 == 0,
                    optlen == (buffer@[0] as int % 64) * 4,
                    0 < optlen,
                    area == buffer@.subrange(8, end as int),
                    parse_options(area) == (match parse_options(
                        buffer@.subrange(cursor as int, end as int),
                    ) {
                        Some(rest) => Some(options_view(vector@) + rest),
                        None => None::<Seq<OptionModel>>,
                    }),
                decreases end - cursor,
            {
                let window = &buffer[cursor..end];
                let ghost rem = buffer@.subrange(cursor as int, end as int);
                match TunnelOption::unmarshal(window) {
                    Some(k) => {
                        proof {
                            lemma_round_up4(k@.data_len());
                        }
                        let adv = k.advance();
                        proof {
                            let consumed: int = 4 + (rem[3] as int % 32) * 4;
                            assert(adv == consumed);
                            assert(rem.skip(consumed) =~= buffer@.subrange(
                                cursor + consumed,
                                end as int,
                            ));
                            assert(options_view(vector@.push(k)) =~= options_view(vector@).push(
                                k@,
                            ));
                            if let Some(rest) = parse_options(rem.skip(consumed)) {
                                assert(options_view(vector@.push(k)) + rest =~= options_view(
                                    vector@,
                                ) + (seq![k@] + rest));
                            }
                        }
                        cursor = cursor + adv;
                        vector.push(k);
                    },
                    None => {
                        proof {
                            assert(parse_options(rem) is None);
                            assert(parse_header(buffer@) is None);
                        }
                        return None;
                    },
                }
            }
            proof {
                assert(buffer@.subrange(cursor as int, end as int) =~= Seq::<u8>::empty());
                assert(parse_options(buffer@.subrange(cursor as int, end as int)) == Some(
                    Seq::<OptionModel>::empty(),
                ));
                if let Some(x) = parse_options(area) {
                    assert(x =~= options_view(vector@));
                }
            }
            Some(vector)
        } else {
            return None;
        };

        let data = Header {
            version: 0,
            control_flag: buffer[1] >= 128,
            critical_flag: (buffer[1] % 128) / 64 == 1,
            protocol: (buffer[2] as u16) * 256 + (buffer[3] as u16),
            vni: (buffer[4] as u32) * 0x10000 + (buffer[5] as u32) * 0x100 + (buffer[6] as u32),
            options,
            options_len: options_len_field,
        };
        proof {
            assert(parse_header(buffer@) == Some((data@, cursor as int)));
        }
        Some((data, cursor))
    }
}

} // verus!
