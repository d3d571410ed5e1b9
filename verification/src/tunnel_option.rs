//! One variable-length tunnel option and its codec.
use vstd::prelude::*;

use crate::model::{lemma_round_up4, parse_option, round_up4, zero_bytes, OptionModel};
use crate::GeneveErr;

verus! {

//  Geneve Option:
//   +-+-+-+-+-+-+-+-+-+-+-+-+-+-+-+-+-+-+-+-+-+-+-+-+-+-+-+-+-+-+-+-+
//   |          Option Class         |      Type     |R|R|R| Length  |
//   +-+-+-+-+-+-+-+-+-+-+-+-+-+-+-+-+-+-+-+-+-+-+-+-+-+-+-+-+-+-+-+-+
//   |                      Variable Option Data                     |
//   +-+-+-+-+-+-+-+-+-+-+-+-+-+-+-+-+-+-+-+-+-+-+-+-+-+-+-+-+-+-+-+-+

/// One tunnel option: an identifier pair, a criticality flag, and an
/// optional borrowed data block of at most 128 bytes.
#[derive(Debug, PartialEq)]
pub struct TunnelOption<'a> {
    pub option_class: u16,
    pub option_type: u8,
    pub c_flag: bool,
    pub data: Option<&'a [u8]>,
}

impl<'a> View for TunnelOption<'a> {
    type V = OptionModel;

    open spec fn view(&self) -> OptionModel {
        OptionModel {
            option_class: self.option_class,
            option_type: self.option_type,
            c_flag: self.c_flag,
            data: match self.data {
                Some(d) => Some(d@),
                None => None,
            },
        }
    }
}

/// The models of a run of options, in order.
pub open spec fn options_view<'a>(s: Seq<TunnelOption<'a>>) -> Seq<OptionModel> {
    Seq::new(s.len(), |i: int| s[i]@)
}

impl<'a> TunnelOption<'a> {
    /// Bytes a data-less option occupies: the fixed option header.
    pub const MIN_OPT_SIZE: usize = 4;

    /// The protocol maximum for an option's data block.
    pub const MAX_DATA_SIZE: usize = 128;

    /// Returns the length in bytes of the data payload of this tunnel option.
    pub(crate) fn data_len(&self) -> (n: usize)
        ensures
            n == self@.data_len(),
    {
        match &self.data {
            Some(d) => d.len(),
            None => 0,
        }
    }

    /// Returns the number of bytes needed to encode this option. Lengths of
    /// Geneve tunnel options are measured in 4-byte units, so the data
    /// length is rounded up to the next multiple of 4 and the fixed 4-byte
    /// option header is added.
    pub fn opt_len(&self) -> (n: usize)
        requires
            self@.opt_len() <= usize::MAX,
        ensures
            n == self@.opt_len(),
    {
        let data_len = self.data_len();
        let remainder_len = if data_len % 4 != 0 {
            4 - (data_len % 4)
        } else {
            0
        };
        Self::MIN_OPT_SIZE + data_len + remainder_len
    }

    /// Encodes the fixed option header as a 4-byte array.
    fn encode_opt(&self) -> (r: Result<[u8; 4], GeneveErr>)
        requires
            self@.wf(),
            self@.data_len() <= 128,
        ensures
            r matches Ok(opt) && opt@ == self@.header_bytes(),
    {
        let mut opt: [u8; 4] = [0u8; 4];
        let data_len = self.data_len();

        opt[0] = (self.option_class / 256) as u8;
        opt[1] = (self.option_class % 256) as u8;
        opt[2] = self.option_type + if self.c_flag { 0x80 } else { 0 };
        opt[3] = ((data_len + 3) / 4) as u8;

        proof {
            lemma_round_up4(self@.data_len());
            assert(opt@ =~= self@.header_bytes());
        }
        Ok(opt)
    }

    /// Appends this option's encoding to `buffer`: the 4-byte option header,
    /// the data, then zero padding up to a multiple of 4 data bytes. Fails
    /// with `InvalidLength`, appending nothing, when the data block exceeds
    /// 128 bytes.
    pub fn marshal(&self, buffer: &mut Vec<u8>) -> (r: Result<(), GeneveErr>)
        requires
            self@.wf(),
        ensures
            r is Ok <==> self@.data_len() <= 128,
            r is Ok ==> final(buffer)@ == old(buffer)@ + self@.wire_bytes(),
            r is Err ==> final(buffer)@ == old(buffer)@ && r matches Err(GeneveErr::InvalidLength),
    {
        if self.data_len() > Self::MAX_DATA_SIZE {
            return Err(GeneveErr::InvalidLength);
        }

        let ghost buffer0: Seq<u8> = buffer@;
        let opt = self.encode_opt()?;
        buffer.push(opt[0]);
        buffer.push(opt[1]);
        buffer.push(opt[2]);
        buffer.push(opt[3]);
        proof {
            assert(buffer@ =~= buffer0 + self@.header_bytes());
        }

        if let Some(data) = self.data {
            proof {
                assert(buffer@ =~= buffer0 + self@.header_bytes() + data@.subrange(0, 0));
            }
            let mut i: usize = 0;
            while i < data.len()
                invariant
                    i <= data@.len(),
                    data@ == self@.data_bytes(),
                    buffer@ == buffer0 + self@.header_bytes() + data@.subrange(0, i as int),
                decreases data@.len() - i,
            {
                buffer.push(data[i]);
                proof {
                    assert(data@.subrange(0, i + 1) =~= data@.subrange(0, i as int).push(
                        data@[i as int],
                    ));
                }
                i = i + 1;
            }
            proof {
                assert(data@.subrange(0, data@.len() as int) =~= data@);
            }

            let data_len = data.len();
            let pad = if data_len % 4 != 0 {
                4 - data_len % 4
            } else {
                0
            };
            proof {
                lemma_round_up4(self@.data_len());
                assert(buffer@ =~= buffer0 + self@.header_bytes() + self@.data_bytes()
                    + zero_bytes(0));
            }
            let mut j: usize = 0;
            while j < pad
                invariant
                    j <= pad,
                    pad == round_up4(self@.data_len()) - self@.data_len(),
                    buffer@ == buffer0 + self@.header_bytes() + self@.data_bytes() + zero_bytes(
                        j as int,
                    ),
                decreases pad - j,
            {
                buffer.push(0u8);
                proof {
                    assert(zero_bytes(j + 1) =~= zero_bytes(j as int).push(0u8));
                }
                j = j + 1;
            }
        }
        proof {
            assert(buffer@ =~= buffer0 + self@.wire_bytes());
        }
        Ok(())
    }

    /// Encodes this option into the front of `buffer`, returning the number
    /// of bytes written. Fails with `InvalidLength`, writing nothing, when
    /// the data block exceeds 128 bytes or the buffer is shorter than
    /// [`Self::opt_len`]; the buffer past the encoding is left unchanged.
    pub fn marshal_to_slice(&self, buffer: &mut [u8]) -> (r: Result<usize, GeneveErr>)
        requires
            self@.wf(),
        ensures
            r is Ok <==> self@.data_len() <= 128 && self@.opt_len() <= old(buffer)@.len(),
            r matches Ok(n) ==> n == self@.opt_len() && final(buffer)@ == self@.wire_bytes() + old(
                buffer,
            )@.skip(self@.opt_len()),
            r is Err ==> final(buffer)@ == old(buffer)@ && r matches Err(GeneveErr::InvalidLength),
    {
        if self.data_len() > Self::MAX_DATA_SIZE {
            return Err(GeneveErr::InvalidLength);
        }
        proof {
            lemma_round_up4(self@.data_len());
        }
        let olen = self.opt_len();
        if buffer.len() < olen {
            return Err(GeneveErr::InvalidLength);
        }

        let ghost buffer0: Seq<u8> = buffer@;
        let end = self.write_to_slice(buffer, 0);
        proof {
            assert(buffer@ =~= self@.wire_bytes() + buffer0.skip(self@.opt_len()));
        }
        Ok(end)
    }

    /// Writes this option's encoding into `buffer` starting at `pos`,
    /// returning the position just past it; the bytes outside the encoding
    /// are left unchanged. This is the one place the option's byte layout
    /// is produced; both encode targets go through it.
    pub(crate) fn write_to_slice(&self, buffer: &mut [u8], pos: usize) -> (end: usize)
        requires
            self@.wf(),
            self@.data_len() <= 128,
            pos + self@.opt_len() <= old(buffer)@.len(),
        ensures
            end == pos + self@.opt_len(),
            final(buffer)@.len() == old(buffer)@.len(),
            forall|k: int| 0 <= k < pos ==> final(buffer)@[k] == old(buffer)@[k],
            final(buffer)@.subrange(pos as int, end as int) == self@.wire_bytes(),
            forall|k: int|
                end <= k < old(buffer)@.len() ==> final(buffer)@[k] == old(buffer)@[k],
    {
        let ghost buffer0: Seq<u8> = buffer@;
        proof {
            lemma_round_up4(self@.data_len());
        }
        let opt = self.encode_opt().unwrap();
        buffer[pos] = opt[0];
        buffer[pos + 1] = opt[1];
        buffer[pos + 2] = opt[2];
        buffer[pos + 3] = opt[3];

        let olen = self.opt_len();
        let end = pos + olen;
        let mut cur: usize = pos + 4;
        if let Some(data) = self.data {
            let mut i: usize = 0;
            while i < data.len()
                invariant
                    i <= data@.len(),
                    cur == pos + 4 + i,
                    olen == self@.opt_len(),
                    end == pos + olen,
                    data@ == self@.data_bytes(),
                    pos + 4 + data@.len() <= end <= buffer@.len() == buffer0.len(),
                    forall|k: int| 0 <= k < pos ==> buffer@[k] == buffer0[k],
                    forall|k: int| pos <= k < cur ==> buffer@[k] == self@.wire_bytes()[k - pos],
                    forall|k: int| cur <= k < buffer@.len() ==> buffer@[k] == buffer0[k],
                decreases data@.len() - i,
            {
                buffer[cur] = data[i];
                cur = cur + 1;
                i = i + 1;
            }
        }
        while cur < end
            invariant
                pos + 4 <= cur <= end,
                olen == self@.opt_len(),
                end == pos + olen,
                cur >= pos + 4 + self@.data_len(),
                end <= buffer@.len() == buffer0.len(),
                forall|k: int| 0 <= k < pos ==> buffer@[k] == buffer0[k],
                forall|k: int| pos <= k < cur ==> buffer@[k] == self@.wire_bytes()[k - pos],
                forall|k: int| cur <= k < buffer@.len() ==> buffer@[k] == buffer0[k],
            decreases end - cur,
        {
            buffer[cur] = 0;
            proof {
                lemma_round_up4(self@.data_len());
                assert(self@.wire_bytes()[cur - pos] == 0);
            }
            cur = cur + 1;
        }
        proof {
            lemma_round_up4(self@.data_len());
            assert(buffer@.subrange(pos as int, end as int) =~= self@.wire_bytes());
        }
        end
    }

    /// Decodes one option from the front of `buffer`: at least the 4-byte
    /// option header must be present, and the data block it declares must
    /// fit in the rest of the buffer. The decoded data borrows from
    /// `buffer`; trailing padding is not consumed here but accounted for by
    /// [`Self::advance`].
    pub fn unmarshal(buffer: &'a [u8]) -> (r: Option<Self>)
        ensures
            r is Some <==> parse_option(buffer@) is Some,
            r matches Some(o) ==> parse_option(buffer@) == Some(o@),
    {
        if buffer.len() >= 4 {
            let d = (buffer[3] % 32) as usize * 4;
            let data: Option<&'a [u8]> = if d == 0 {
                None
            } else if d <= buffer.len() - 4 {
                Some(&buffer[4..4 + d])
            } else {
                return None;
            };
            let opt = TunnelOption {
                option_class: (buffer[0] as u16) * 256 + (buffer[1] as u16),
                option_type: buffer[2] % 128,
                c_flag: buffer[2] >= 128,
                data,
            };
            proof {
                assert(parse_option(buffer@) == Some(opt@));
            }
            Some(opt)
        } else {
            None
        }
    }

    /// Returns how far the option-area cursor moves past this option's
    /// encoding; always equal to [`Self::opt_len`], so that decoding a run
    /// of options keeps step with what encoding produced.
    pub fn advance(&self) -> (n: usize)
        requires
            self@.opt_len() <= usize::MAX,
        ensures
            n == self@.advance(),
    {
        match &self.data {
            Some(d) => {
                if d.len() % 4 == 0 {
                    d.len() + 4
                } else {
                    d.len() + (4 - d.len() % 4) + 4
                }
            },
            None => 4,
        }
    }
}

} // verus!
