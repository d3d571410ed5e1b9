use geneve::{GeneveErr, GenevePacket, Header, TunnelOption};

#[test]
fn option_round_trip_exact() {
    let original = TunnelOption {
        option_class: 0x0102,
        option_type: 0x7f,
        c_flag: true,
        data: Some(&[9, 8, 7, 6, 5, 4, 3, 2]),
    };
    let mut buffer: Vec<u8> = vec![];
    original.marshal(&mut buffer).expect("failed to marshal");
    let decoded = TunnelOption::unmarshal(&buffer).expect("failed to unmarshal");
    assert_eq!(decoded, original);
}

#[test]
fn header_round_trip_exact() {
    let original = Header {
        version: 0,
        control_flag: true,
        critical_flag: true,
        protocol: 0x0800,
        vni: 0x00123456,
        options: Some(vec![TunnelOption {
            option_class: 0x0011,
            option_type: 0x22,
            c_flag: false,
            data: Some(&[1, 2, 3, 4]),
        }]),
        options_len: 8,
    };
    let mut buffer: Vec<u8> = vec![];
    original.marshal(&mut buffer).expect("failed to marshal");
    let (decoded, consumed) = Header::unmarshal(&buffer).expect("failed to unmarshal");
    assert_eq!(decoded, original);
    assert_eq!(consumed, buffer.len());
}

#[test]
fn headerless_round_trip_no_options() {
    let original = Header {
        version: 0,
        control_flag: false,
        critical_flag: false,
        protocol: 0x86dd,
        vni: 1,
        options: None,
        options_len: 0,
    };
    let mut buffer: Vec<u8> = vec![];
    original.marshal(&mut buffer).expect("failed to marshal");
    assert_eq!(buffer, [0x00, 0x00, 0x86, 0xdd, 0x00, 0x00, 0x01, 0x00]);
    let (decoded, consumed) = Header::unmarshal(&buffer).expect("failed to unmarshal");
    assert_eq!(decoded, original);
    assert_eq!(consumed, 8);
}

#[test]
fn padding_rounds_up_and_is_zero() {
    let option = TunnelOption {
        option_class: 0xabcd,
        option_type: 0x01,
        c_flag: false,
        data: Some(&[0xaa, 0xbb, 0xcc]),
    };
    let mut buffer: Vec<u8> = vec![];
    option.marshal(&mut buffer).expect("failed to marshal");
    assert_eq!(option.opt_len(), 8);
    assert_eq!(buffer, [0xab, 0xcd, 0x01, 0x01, 0xaa, 0xbb, 0xcc, 0x00]);
}

#[test]
fn advance_matches_opt_len() {
    let padded = TunnelOption {
        option_class: 0,
        option_type: 0,
        c_flag: false,
        data: Some(&[1, 2, 3]),
    };
    assert_eq!(padded.advance(), padded.opt_len());
    assert_eq!(padded.advance(), 8);

    let dataless = TunnelOption { option_class: 0, option_type: 0, c_flag: false, data: None };
    assert_eq!(dataless.advance(), 4);
}

#[test]
fn data_len_128_encodes_129_fails() {
    let max_data: [u8; 128] = [7u8; 128];
    let at_max = TunnelOption {
        option_class: 0xffff,
        option_type: 0x0a,
        c_flag: false,
        data: Some(&max_data),
    };
    let mut slice_buffer: [u8; 256] = [0u8; 256];
    let size = at_max.marshal_to_slice(&mut slice_buffer).expect("failed to marshal");
    assert_eq!(size, 132);

    let over_data: [u8; 129] = [7u8; 129];
    let over_max = TunnelOption {
        option_class: 0xffff,
        option_type: 0x0a,
        c_flag: false,
        data: Some(&over_data),
    };
    let mut slice_buffer: [u8; 256] = [0u8; 256];
    let r = over_max.marshal_to_slice(&mut slice_buffer);
    assert!(matches!(r, Err(GeneveErr::InvalidLength)));
    assert_eq!(slice_buffer, [0u8; 256]);
}

#[test]
fn seven_bytes_fails_eight_bytes_decodes() {
    let bytes: [u8; 8] = [0u8; 8];
    let r = GenevePacket::unmarshal(&bytes[..7]);
    assert!(matches!(r, Err(GeneveErr::InvalidLength)));

    let packet = GenevePacket::unmarshal(&bytes[..8]).expect("failed to unmarshal");
    assert!(packet.hdr.options.is_none());
    assert_eq!(packet.hdr.options_len, 0);
    assert_eq!(packet.payload, &bytes[..8]);

    let (hdr, consumed) = Header::unmarshal(&bytes[..8]).expect("failed to unmarshal");
    assert_eq!(consumed, 8);
    assert!(hdr.options.is_none());
}

#[test]
fn slice_one_byte_short_writes_nothing() {
    let header = Header {
        version: 0,
        control_flag: false,
        critical_flag: false,
        protocol: 0x86dd,
        vni: 0x00aaaaee,
        options: Some(vec![
            TunnelOption {
                option_class: 0xffff,
                option_type: 0x0a,
                c_flag: false,
                data: Some(&[0x00, 0x01, 0x00, 0x00]),
            },
            TunnelOption {
                option_class: 0xffff,
                option_type: 0x0b,
                c_flag: false,
                data: Some(&[0x00, 0x02, 0x00, 0x00]),
            },
        ]),
        options_len: 16,
    };
    let mut short_buffer: [u8; 23] = [0u8; 23];
    let r = header.marshal_to_slice(&mut short_buffer);
    assert!(matches!(r, Err(GeneveErr::InvalidLength)));
    assert_eq!(short_buffer, [0u8; 23]);

    let option = TunnelOption {
        option_class: 0xffff,
        option_type: 0x0a,
        c_flag: false,
        data: Some(&[0x00, 0x01]),
    };
    let mut short_buffer: [u8; 7] = [0u8; 7];
    let r = option.marshal_to_slice(&mut short_buffer);
    assert!(matches!(r, Err(GeneveErr::InvalidLength)));
    assert_eq!(short_buffer, [0u8; 7]);
}

#[test]
fn packet_with_trailing_payload() {
    let bytes: [u8; 27] = [
        0x04, 0x00, 0x86, 0xdd, 0xaa, 0xaa, 0xee, 0x00, 0xff, 0xff, 0x0a, 0x01, 0x00, 0x01, 0x00,
        0x00, 0xff, 0xff, 0x0b, 0x01, 0x00, 0x02, 0x00, 0x00, 0xff, 0xff, 0xff,
    ];
    let expected_hdr = Header {
        version: 0,
        control_flag: false,
        critical_flag: false,
        protocol: 0x86dd,
        vni: 0x00aaaaee,
        options: Some(vec![
            TunnelOption {
                option_class: 0xffff,
                option_type: 0x0a,
                c_flag: false,
                data: Some(&[0x00, 0x01, 0x00, 0x00]),
            },
            TunnelOption {
                option_class: 0xffff,
                option_type: 0x0b,
                c_flag: false,
                data: Some(&[0x00, 0x02, 0x00, 0x00]),
            },
        ]),
        options_len: 16,
    };
    let packet = GenevePacket::unmarshal(&bytes).expect("failed to unmarshal");
    assert_eq!(packet.hdr, expected_hdr);
    assert_eq!(packet.payload, &bytes);
    assert_eq!(&packet.payload[packet.hdr.header_len()..], &[0xff, 0xff, 0xff]);

    let mut buffer: Vec<u8> = vec![];
    packet.marshal(&mut buffer).expect("failed to marshal");
    assert_eq!(buffer, bytes);

    let mut slice_buffer: [u8; 64] = [0u8; 64];
    let size = packet.marshal_to_slice(&mut slice_buffer).expect("failed to marshal");
    assert_eq!(size, 27);
    assert_eq!(&slice_buffer[..size], &bytes);
}

#[test]
fn version_one_is_not_geneve() {
    let bytes: [u8; 8] = [0x40, 0x00, 0x00, 0x00, 0x00, 0x00, 0x00, 0x00];
    assert!(Header::unmarshal(&bytes).is_none());
    let r = GenevePacket::unmarshal(&bytes);
    assert!(matches!(r, Err(GeneveErr::NotGeneve)));
}

#[test]
fn truncated_option_area_fails() {
    // The header declares an 8-byte option area, but the buffer ends after it
    // and the option inside claims 8 data bytes: the area cannot parse.
    let bytes: [u8; 16] = [
        0x02, 0x00, 0x00, 0x00, 0x00, 0x00, 0x00, 0x00, 0xff, 0xff, 0x0a, 0x02, 0x00, 0x00, 0x00,
        0x00,
    ];
    assert!(Header::unmarshal(&bytes).is_none());

    // The declared option area itself overruns the buffer.
    let short: [u8; 10] = [0x02, 0x00, 0x00, 0x00, 0x00, 0x00, 0x00, 0x00, 0xff, 0xff];
    assert!(Header::unmarshal(&short).is_none());
}

#[test]
fn reserved_bits_ignored_on_decode() {
    // Byte 3 of an option carries three reserved top bits; only the low
    // five bits count as the data length in 4-byte units.
    let encoded: [u8; 8] = [0x00, 0x01, 0x02, 0xe1, 1, 2, 3, 4];
    let opt = TunnelOption::unmarshal(&encoded).expect("failed to unmarshal");
    assert_eq!(opt.data, Some(&[1u8, 2, 3, 4][..]));

    // Byte 1 of a header carries six reserved low bits after the two flags.
    let hdr_bytes: [u8; 8] = [0x00, 0x3f, 0x00, 0x00, 0x00, 0x00, 0x00, 0x00];
    let (hdr, _) = Header::unmarshal(&hdr_bytes).expect("failed to unmarshal");
    assert!(!hdr.control_flag);
    assert!(!hdr.critical_flag);
}

#[test]
fn flags_round_trip() {
    let bytes_control: [u8; 8] = [0x00, 0x80, 0x00, 0x00, 0x00, 0x00, 0x00, 0x00];
    let (hdr, _) = Header::unmarshal(&bytes_control).expect("failed to unmarshal");
    assert!(hdr.control_flag);
    assert!(!hdr.critical_flag);

    let bytes_critical: [u8; 8] = [0x00, 0x40, 0x00, 0x00, 0x00, 0x00, 0x00, 0x00];
    let (hdr, _) = Header::unmarshal(&bytes_critical).expect("failed to unmarshal");
    assert!(!hdr.control_flag);
    assert!(hdr.critical_flag);

    let mut buffer: Vec<u8> = vec![];
    Header {
        version: 0,
        control_flag: true,
        critical_flag: false,
        protocol: 0,
        vni: 0,
        options: None,
        options_len: 0,
    }
        .marshal(&mut buffer)
        .expect("failed to marshal");
    assert_eq!(buffer[1], 0x80);
}
