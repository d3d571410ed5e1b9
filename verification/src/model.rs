//! The mathematical model of the wire format.
//!
//! Ghost counterparts of the executable types, spec functions that give the
//! exact bytes an encode produces and the exact values a decode yields, and
//! the lemmas about them that the executable proofs rely on.
use vstd::prelude::*;

verus! {

/// Rounds a byte count up to the next multiple of 4, the unit in which the
/// wire format measures every length.
pub open spec fn round_up4(n: int) -> int {
    if n % 4 == 0 {
        n
    } else {
        n + (4 - n % 4)
    }
}

/// Rounding up to a multiple of 4 adds at most 3, lands on a multiple of 4,
/// and agrees with the add-3-then-divide form the executable code uses.
pub proof fn lemma_round_up4(d: int)
    requires
        d >= 0,
    ensures
        d <= round_up4(d) <= d + 3,
        round_up4(d) % 4 == 0,
        round_up4(d) == ((d + 3) / 4) * 4,
        round_up4(d) / 4 == (d + 3) / 4,
{
    assert(d == (d / 4) * 4 + d % 4);
    if d % 4 == 0 {
        assert((d + 3) / 4 == d / 4);
    } else {
        assert((d + (4 - d % 4)) / 4 == d / 4 + 1);
        assert((d + 3) / 4 == d / 4 + 1);
    }
}

/// A run of `n` zero bytes: the padding that encoding appends after a data
/// block whose length is not a multiple of 4.
pub open spec fn zero_bytes(n: int) -> Seq<u8> {
    Seq::new(n as nat, |i: int| 0u8)
}

/// The mathematical value of one tunnel option.
pub ghost struct OptionModel {
    pub option_class: u16,
    pub option_type: u8,
    pub c_flag: bool,
    pub data: Option<Seq<u8>>,
}

impl OptionModel {
    /// The logical data block; empty when no data is present.
    pub open spec fn data_bytes(self) -> Seq<u8> {
        match self.data {
            Some(d) => d,
            None => Seq::empty(),
        }
    }

    pub open spec fn data_len(self) -> int {
        self.data_bytes().len() as int
    }

    /// Total wire length of this option: 4 fixed bytes plus the padded data.
    pub open spec fn opt_len(self) -> int {
        4 + round_up4(self.data_len())
    }

    /// How far the option-area cursor moves past this option's encoding.
    /// This must match `opt_len` exactly, or parsing an option list would
    /// lose step with the encoder.
    pub open spec fn advance(self) -> int {
        self.opt_len()
    }

    /// The option type must leave the top bit free: that bit carries
    /// `c_flag` on the wire.
    pub open spec fn wf(self) -> bool {
        self.option_type < 0x80
    }

    /// Data blocks over 128 bytes cannot be encoded.
    pub open spec fn encodable(self) -> bool {
        self.data_len() <= 128
    }

    /// An option that decoding reproduces exactly. The wire format keeps the
    /// data length in 4-byte units, reads at most 31 of them back, and
    /// yields absent data for a zero length field; so exactly the options
    /// whose data block is absent, or a non-empty multiple of 4 bytes up to
    /// 124 bytes long, survive a round trip unchanged.
    pub open spec fn canonical(self) -> bool {
        &&& self.wf()
        &&& match self.data {
            None => true,
            Some(d) => 0 < d.len() <= 124 && d.len() % 4 == 0,
        }
    }

    /// The four fixed bytes that begin this option's encoding: the class in
    /// big-endian order, the type byte carrying `c_flag` in its top bit, and
    /// the data length in 4-byte units.
    pub open spec fn header_bytes(self) -> Seq<u8> {
        seq![
            (self.option_class as int / 256) as u8,
            (self.option_class as int % 256) as u8,
            (self.option_type as int + if self.c_flag { 0x80int } else { 0int }) as u8,
            (round_up4(self.data_len()) / 4) as u8,
        ]
    }

    /// The full encoding: fixed bytes, data, zero padding up to a multiple
    /// of 4 data bytes.
    pub open spec fn wire_bytes(self) -> Seq<u8> {
        self.header_bytes() + self.data_bytes() + zero_bytes(
            round_up4(self.data_len()) - self.data_len(),
        )
    }
}

/// Decodes one option from the front of `b`: the class from the first two
/// bytes, flag and type from the third, the data length in 4-byte units from
/// the low five bits of the fourth, then the data itself. `None` when fewer
/// than four bytes are present or the declared data overruns `b`.
pub open spec fn parse_option(b: Seq<u8>) -> Option<OptionModel> {
    if b.len() < 4 {
        None
    } else {
        let d: int = (b[3] as int % 32) * 4;
        if d != 0 && d > b.len() - 4 {
            None
        } else {
            Some(
                OptionModel {
                    option_class: (b[0] as int * 256 + b[1] as int) as u16,
                    option_type: (b[2] as int % 128) as u8,
                    c_flag: b[2] as int >= 128,
                    data: if d == 0 {
                        None
                    } else {
                        Some(b.subrange(4, 4 + d))
                    },
                },
            )
        }
    }
}

/// Decodes an entire option area: a run of options that must fill `b`
/// exactly. `None` when any option is truncated.
pub open spec fn parse_options(b: Seq<u8>) -> Option<Seq<OptionModel>>
    decreases b.len(),
{
    if b.len() == 0 {
        Some(Seq::empty())
    } else {
        match parse_option(b) {
            None => None,
            Some(m) => {
                let consumed: int = 4 + (b[3] as int % 32) * 4;
                match parse_options(b.skip(consumed)) {
                    None => None,
                    Some(rest) => Some(seq![m] + rest),
                }
            },
        }
    }
}

/// The mathematical value of a Geneve header.
pub ghost struct HeaderModel {
    pub version: u8,
    pub control_flag: bool,
    pub critical_flag: bool,
    pub protocol: u16,
    pub vni: u32,
    pub options: Option<Seq<OptionModel>>,
    pub options_len: u8,
}

/// Total wire length of a run of options.
pub open spec fn options_total_len(s: Seq<OptionModel>) -> int
    decreases s.len(),
{
    if s.len() == 0 {
        0
    } else {
        s[0].opt_len() + options_total_len(s.drop_first())
    }
}

/// Concatenated encodings of a run of options.
pub open spec fn options_bytes(s: Seq<OptionModel>) -> Seq<u8>
    decreases s.len(),
{
    if s.len() == 0 {
        Seq::empty()
    } else {
        s[0].wire_bytes() + options_bytes(s.drop_first())
    }
}

/// Every option occupies at least its 4 fixed bytes on the wire.
pub proof fn lemma_options_total_len_nonneg(s: Seq<OptionModel>)
    ensures
        options_total_len(s) >= 0,
        s.len() > 0 ==> options_total_len(s) >= 4,
    decreases s.len(),
{
    if s.len() > 0 {
        lemma_round_up4(s[0].data_len());
        lemma_options_total_len_nonneg(s.drop_first());
    }
}

/// Appending one option adds its wire length to the total.
pub proof fn lemma_options_total_len_push(s: Seq<OptionModel>, m: OptionModel)
    ensures
        options_total_len(s.push(m)) == options_total_len(s) + m.opt_len(),
    decreases s.len(),
{
    if s.len() == 0 {
        assert(s.push(m)[0] == m);
        assert(s.push(m).drop_first() =~= Seq::<OptionModel>::empty());
        assert(options_total_len(s.push(m)) == m.opt_len() + options_total_len(
            Seq::<OptionModel>::empty(),
        ));
    } else {
        assert(s.push(m)[0] == s[0]);
        assert(s.push(m).drop_first() =~= s.drop_first().push(m));
        lemma_options_total_len_push(s.drop_first(), m);
        assert(options_total_len(s.push(m)) == s[0].opt_len() + options_total_len(
            s.drop_first().push(m),
        ));
    }
}

/// Appending one option appends its encoding to the concatenated bytes.
pub proof fn lemma_options_bytes_push(s: Seq<OptionModel>, m: OptionModel)
    ensures
        options_bytes(s.push(m)) == options_bytes(s) + m.wire_bytes(),
    decreases s.len(),
{
    if s.len() == 0 {
        assert(s.push(m)[0] == m);
        assert(s.push(m).drop_first() =~= Seq::<OptionModel>::empty());
        assert(options_bytes(s.push(m)) == m.wire_bytes() + options_bytes(
            Seq::<OptionModel>::empty(),
        ));
        assert(options_bytes(s.push(m)) =~= options_bytes(s) + m.wire_bytes());
    } else {
        assert(s.push(m)[0] == s[0]);
        assert(s.push(m).drop_first() =~= s.drop_first().push(m));
        lemma_options_bytes_push(s.drop_first(), m);
        assert(options_bytes(s.push(m)) == s[0].wire_bytes() + options_bytes(
            s.drop_first().push(m),
        ));
        assert(options_bytes(s.push(m)) =~= options_bytes(s) + m.wire_bytes());
    }
}

/// The concatenated encodings are exactly as long as the total says.
pub proof fn lemma_options_bytes_len(s: Seq<OptionModel>)
    ensures
        options_bytes(s).len() == options_total_len(s),
    decreases s.len(),
{
    if s.len() > 0 {
        lemma_round_up4(s[0].data_len());
        lemma_options_bytes_len(s.drop_first());
    }
}

/// The wire length of an option run is a multiple of 4: each option's
/// padded length is one.
pub proof fn lemma_options_total_len_mod4(s: Seq<OptionModel>)
    ensures
        options_total_len(s) % 4 == 0,
    decreases s.len(),
{
    if s.len() > 0 {
        lemma_round_up4(s[0].data_len());
        lemma_options_total_len_mod4(s.drop_first());
    }
}

/// The total length of a run splits at any point into the totals of the
/// two parts.
pub proof fn lemma_options_total_len_split(s: Seq<OptionModel>, i: int)
    requires
        0 <= i <= s.len(),
    ensures
        options_total_len(s) == options_total_len(s.subrange(0, i)) + options_total_len(s.skip(i)),
    decreases i,
{
    if i == 0 {
        assert(s.subrange(0, 0) =~= Seq::<OptionModel>::empty());
        assert(s.skip(0) =~= s);
    } else {
        assert(s.subrange(0, i).drop_first() =~= s.drop_first().subrange(0, i - 1));
        assert(s.skip(i) =~= s.drop_first().skip(i - 1));
        lemma_options_total_len_split(s.drop_first(), i - 1);
    }
}

impl HeaderModel {
    /// The option run, empty when no options are present.
    pub open spec fn opts(self) -> Seq<OptionModel> {
        match self.options {
            Some(s) => s,
            None => Seq::empty(),
        }
    }

    /// Wire length of the option area that encoding this header produces;
    /// derived from the options themselves, never from `options_len`.
    pub open spec fn opt_len(self) -> int {
        options_total_len(self.opts())
    }

    /// Wire length of the whole header: eight fixed bytes plus the options.
    pub open spec fn header_len(self) -> int {
        8 + self.opt_len()
    }

    /// Every option's data block is small enough to encode.
    pub open spec fn options_encodable(self) -> bool {
        forall|i: int| 0 <= i < self.opts().len() ==> (#[trigger] self.opts()[i]).encodable()
    }

    /// What encoding a header requires: the version and VNI fit their bit
    /// fields, every option type leaves the flag bit free, and an option
    /// area that encodes at all fits the 6-bit length field, 252 bytes.
    pub open spec fn wf(self) -> bool {
        &&& self.version < 4
        &&& self.vni < 0x1000000
        &&& forall|i: int| 0 <= i < self.opts().len() ==> (#[trigger] self.opts()[i]).wf()
        &&& self.options_encodable() ==> self.opt_len() <= 252
    }

    /// The fixed eight bytes of the encoding: version and option-area length
    /// in 4-byte units packed into byte 0, the two flags in byte 1, the
    /// protocol and the 24-bit VNI in big-endian order, and a reserved zero.
    pub open spec fn fixed_bytes(self) -> Seq<u8> {
        seq![
            (self.version as int * 64 + self.opt_len() / 4) as u8,
            if self.control_flag && self.critical_flag {
                0xc0u8
            } else if self.control_flag {
                0x80u8
            } else if self.critical_flag {
                0x40u8
            } else {
                0x00u8
            },
            (self.protocol as int / 256) as u8,
            (self.protocol as int % 256) as u8,
            (self.vni as int / 0x10000) as u8,
            ((self.vni as int / 0x100) % 256) as u8,
            (self.vni as int % 256) as u8,
            0u8,
        ]
    }

    /// The full encoding: the fixed bytes, then every option in order.
    pub open spec fn wire_bytes(self) -> Seq<u8> {
        self.fixed_bytes() + options_bytes(self.opts())
    }

    /// A header that decoding reproduces exactly: version 0 (the only one
    /// the decoder accepts), a VNI within 24 bits, options absent rather
    /// than an empty run (both encode alike and decode as absent), every
    /// option canonical, and `options_len` equal to the derived option-area
    /// length, which must fit the 6-bit field.
    pub open spec fn canonical(self) -> bool {
        &&& self.version == 0
        &&& self.vni < 0x1000000
        &&& match self.options {
            None => true,
            Some(s) => s.len() > 0 && forall|i: int|
                0 <= i < s.len() ==> (#[trigger] s[i]).canonical(),
        }
        &&& self.opt_len() <= 252
        &&& self.options_len == self.opt_len()
    }
}

/// The header value whose fixed fields decode from `b` and whose option
/// area decoded to `options`.
pub open spec fn parsed_header(b: Seq<u8>, options: Option<Seq<OptionModel>>) -> HeaderModel {
    HeaderModel {
        version: 0,
        control_flag: b[1] as int >= 128,
        critical_flag: (b[1] as int % 128) / 64 == 1,
        protocol: (b[2] as int * 256 + b[3] as int) as u16,
        vni: (b[4] as int * 0x10000 + b[5] as int * 0x100 + b[6] as int) as u32,
        options: options,
        options_len: ((b[0] as int % 64) * 4) as u8,
    }
}

/// Decodes a header from the front of `b`: the parsed header together with
/// the byte position where the payload starts. `None` when `b` is shorter
/// than eight bytes, the version is not 0, or the declared option area is
/// truncated or does not parse exactly.
pub open spec fn parse_header(b: Seq<u8>) -> Option<(HeaderModel, int)> {
    if b.len() < 8 {
        None
    } else if b[0] as int / 64 != 0 {
        None
    } else {
        let optlen: int = (b[0] as int % 64) * 4;
        if optlen == 0 {
            Some((parsed_header(b, None), 8))
        } else if optlen <= b.len() - 8 {
            match parse_options(b.subrange(8, 8 + optlen)) {
                None => None,
                Some(opts) => Some((parsed_header(b, Some(opts)), 8 + optlen)),
            }
        } else {
            None
        }
    }
}

/// A canonical header satisfies everything encoding asks of it.
pub proof fn lemma_canonical_header(h: HeaderModel)
    requires
        h.canonical(),
    ensures
        h.wf(),
        h.options_encodable(),
{
    assert forall|i: int| 0 <= i < h.opts().len() implies (#[trigger] h.opts()[i]).wf()
        && h.opts()[i].encodable() by {
        assert(h.opts()[i].canonical());
    }
}

/// Whatever an option area parses to is canonical, and its total wire
/// length is exactly the area it came from.
pub proof fn lemma_parse_options_wf(b: Seq<u8>)
    requires
        parse_options(b) is Some,
    ensures
        options_total_len(parse_options(b).unwrap()) == b.len(),
        forall|i: int|
            0 <= i < parse_options(b).unwrap().len() ==> (#[trigger] parse_options(
                b,
            ).unwrap()[i]).canonical(),
    decreases b.len(),
{
    let s = parse_options(b).unwrap();
    if b.len() == 0 {
        assert(options_total_len(s) == 0);
    } else {
        let m = parse_option(b).unwrap();
        let d: int = (b[3] as int % 32) * 4;
        let consumed: int = 4 + d;
        let rest = parse_options(b.skip(consumed)).unwrap();
        assert(m.canonical());
        assert(m.data_len() == d);
        assert(m.opt_len() == consumed);
        lemma_parse_options_wf(b.skip(consumed));
        assert(s == seq![m] + rest);
        assert(s[0] == m);
        assert(s.drop_first() =~= rest);
        assert(options_total_len(s) == m.opt_len() + options_total_len(rest));
        assert forall|i: int| 0 <= i < s.len() implies (#[trigger] s[i]).canonical() by {
            if i > 0 {
                assert(s[i] == rest[i - 1]);
            }
        }
    }
}

/// Whatever a buffer parses to as a header is canonical, and the payload
/// offset is exactly the header's wire length, within the buffer.
pub proof fn lemma_parse_header_wf(b: Seq<u8>)
    requires
        parse_header(b) is Some,
    ensures
        parse_header(b).unwrap().0.canonical(),
        parse_header(b).unwrap().0.wf(),
        parse_header(b).unwrap().0.options_encodable(),
        parse_header(b).unwrap().1 == 8 + parse_header(b).unwrap().0.opt_len(),
        8 <= parse_header(b).unwrap().1 <= b.len(),
{
    let h = parse_header(b).unwrap().0;
    let optlen: int = (b[0] as int % 64) * 4;
    if optlen == 0 {
        assert(h.opts() =~= Seq::<OptionModel>::empty());
        assert(h.opt_len() == 0);
    } else {
        let area = b.subrange(8, 8 + optlen);
        lemma_parse_options_wf(area);
        let opts = parse_options(area).unwrap();
        assert(h.options == Some(opts));
        assert(options_total_len(opts) == optlen);
        if opts.len() == 0 {
            assert(options_total_len(opts) == 0);
        }
    }
    lemma_canonical_header(h);
}

/// The mathematical value of a decoded packet: the header, the offset where
/// the payload begins, and the whole original buffer.
pub ghost struct PacketModel {
    pub hdr: HeaderModel,
    pub offset: int,
    pub payload: Seq<u8>,
}

impl PacketModel {
    /// A packet as decoding constructs it: header and offset are exactly
    /// what parsing its own buffer yields.
    pub open spec fn wf(self) -> bool {
        parse_header(self.payload) == Some((self.hdr, self.offset))
    }
}

} // verus!
