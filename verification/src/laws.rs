//! The laws of the codec: what a round trip through encode and decode
//! yields, and what the padding looks like. Each is proved once, over the
//! models, and carries to the executable functions through their contracts.
use vstd::prelude::*;

use crate::model::{
    lemma_canonical_header, lemma_options_bytes_len, lemma_options_total_len_mod4,
    lemma_options_total_len_nonneg, lemma_round_up4, options_bytes, options_total_len,
    parse_header, parse_option, parse_options, parsed_header, round_up4, HeaderModel, OptionModel,
};

verus! {

/// Parsing one canonical option's encoding, with anything at all after it,
/// yields the option back and consumes exactly its wire length.
proof fn lemma_parse_option_prefix(m: OptionModel, rest: Seq<u8>)
    requires
        m.canonical(),
    ensures
        parse_option(m.wire_bytes() + rest) == Some(m),
        4 + ((m.wire_bytes() + rest)[3] as int % 32) * 4 == m.opt_len(),
        (m.wire_bytes() + rest).skip(m.opt_len()) == rest,
{
    let d: int = m.data_len();
    assert(d % 4 == 0);
    lemma_round_up4(d);
    assert(round_up4(d) == d);
    let b = m.wire_bytes() + rest;
    assert(m.wire_bytes().len() == 4 + d);

    assert(b[0] == (m.option_class as int / 256) as u8);
    assert(b[1] == (m.option_class as int % 256) as u8);
    assert(b[2] == (m.option_type as int + if m.c_flag {
        0x80int
    } else {
        0int
    }) as u8);
    assert(b[3] == (d / 4) as u8);

    assert(0 <= d / 4 <= 31);
    assert((b[3] as int % 32) * 4 == d);

    assert(m.option_class as int == (m.option_class as int / 256) * 256 + m.option_class as int
        % 256);
    assert((b[0] as int * 256 + b[1] as int) as u16 == m.option_class);

    assert((b[2] as int % 128) as u8 == m.option_type);
    assert((b[2] as int >= 128) == m.c_flag);

    let parsed = parse_option(b).unwrap();
    if d == 0 {
        assert(m.data is None);
        assert(parsed == m);
    } else {
        assert(b.subrange(4, 4 + d) =~= m.data_bytes());
        assert(m.data == Some(m.data_bytes()));
        assert(parsed == m);
    }
    assert(b.skip(m.opt_len()) =~= rest);
}

/// Round trip for one tunnel option: decoding the encoding of a canonical
/// option yields exactly that option, the padding left behind.
pub proof fn lemma_option_round_trip(m: OptionModel)
    requires
        m.canonical(),
    ensures
        parse_option(m.wire_bytes()) == Some(m),
{
    lemma_parse_option_prefix(m, Seq::empty());
    assert(m.wire_bytes() + Seq::<u8>::empty() =~= m.wire_bytes());
}

/// Round trip for an option run: parsing the concatenated encodings of
/// canonical options yields exactly that run.
proof fn lemma_parse_options_round_trip(s: Seq<OptionModel>)
    requires
        forall|i: int| 0 <= i < s.len() ==> (#[trigger] s[i]).canonical(),
    ensures
        parse_options(options_bytes(s)) == Some(s),
    decreases s.len(),
{
    if s.len() == 0 {
        assert(options_bytes(s).len() == 0);
        assert(Seq::<OptionModel>::empty() =~= s);
    } else {
        let m = s[0];
        let rest_bytes = options_bytes(s.drop_first());
        assert(options_bytes(s) == m.wire_bytes() + rest_bytes);
        lemma_parse_option_prefix(m, rest_bytes);
        assert(forall|i: int|
            0 <= i < s.drop_first().len() ==> (#[trigger] s.drop_first()[i]).canonical());
        lemma_parse_options_round_trip(s.drop_first());
        let b = options_bytes(s);
        assert(b.len() >= 4);
        assert(b.skip(m.opt_len()) == rest_bytes);
        assert(parse_options(b) == Some(seq![m] + s.drop_first()));
        assert(seq![m] + s.drop_first() =~= s);
    }
}

/// Round trip for a header: decoding the encoding of any canonical header
/// yields that header back, together with the full encoded length as the
/// payload offset.
pub proof fn lemma_header_round_trip(h: HeaderModel)
    requires
        h.canonical(),
    ensures
        parse_header(h.wire_bytes()) == Some((h, h.wire_bytes().len() as int)),
{
    let b = h.wire_bytes();
    let t: int = h.opt_len();
    lemma_canonical_header(h);
    lemma_options_bytes_len(h.opts());
    lemma_options_total_len_mod4(h.opts());
    lemma_options_total_len_nonneg(h.opts());
    assert(b.len() == 8 + t);
    assert(0 <= t <= 252 && t % 4 == 0);

    assert(b[0] == (h.version as int * 64 + t / 4) as u8);
    assert(b[0] as int == t / 4);
    assert(b[0] as int / 64 == 0);
    assert((b[0] as int % 64) * 4 == t);

    let f: int = b[1] as int;
    assert((f >= 128) == h.control_flag);
    assert(((f % 128) / 64 == 1) == h.critical_flag);

    assert(b[2] == (h.protocol as int / 256) as u8);
    assert(b[3] == (h.protocol as int % 256) as u8);
    assert((b[2] as int * 256 + b[3] as int) as u16 == h.protocol);

    let v: int = h.vni as int;
    assert(b[4] as int == v / 0x10000);
    assert(b[5] as int == (v / 0x100) % 256);
    assert(b[6] as int == v % 256);
    assert(v == 0x10000 * (v / 0x10000) + v % 0x10000);
    vstd::arithmetic::div_mod::lemma_mod_breakdown(v, 0x100, 0x100);
    assert(v % 0x10000 == 0x100 * ((v / 0x100) % 0x100) + v % 0x100);
    assert((b[4] as int * 0x10000 + b[5] as int * 0x100 + b[6] as int) as u32 == h.vni);

    if t == 0 {
        if h.options is Some {
            assert(h.opts().len() > 0);
            assert(options_total_len(h.opts()) >= 4);
        }
        assert(h.options is None);
        assert(parsed_header(b, None) == h);
        assert(parse_header(b) == Some((h, 8int)));
    } else {
        assert(t <= b.len() - 8);
        assert(b.subrange(8, 8 + t) =~= options_bytes(h.opts()));
        lemma_parse_options_round_trip(h.opts());
        if h.options is None {
            assert(h.opts() =~= Seq::<OptionModel>::empty());
        }
        assert(h.options == Some(h.opts()));
        assert(parsed_header(b, Some(h.opts())) == h);
        assert(parse_header(b) == Some((h, 8 + t)));
    }
}

/// Padding correctness: when the data length is not a multiple of 4, the
/// encoded option is the 4 fixed bytes plus the data length rounded up to
/// the next multiple of 4, and every pad byte is zero.
pub proof fn lemma_option_padding(m: OptionModel)
    requires
        m.data_len() % 4 != 0,
    ensures
        round_up4(m.data_len()) == m.data_len() + (4 - m.data_len() % 4),
        m.wire_bytes().len() == 4 + round_up4(m.data_len()),
        forall|k: int|
            4 + m.data_len() <= k < m.wire_bytes().len() ==> #[trigger] m.wire_bytes()[k] == 0,
{
    lemma_round_up4(m.data_len());
    assert forall|k: int|
        4 + m.data_len() <= k < m.wire_bytes().len() implies #[trigger] m.wire_bytes()[k]
        == 0 by {
        assert(m.wire_bytes()[k] == crate::model::zero_bytes(
            round_up4(m.data_len()) - m.data_len(),
        )[k - 4 - m.data_len()]);
    }
}

} // verus!
