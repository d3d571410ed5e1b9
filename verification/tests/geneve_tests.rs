use geneve::{GenevePacket, Header, TunnelOption};

#[test]
fn tunnel_options_marshal() {
    let decoded = TunnelOption {
        option_class: 0xffff,
        option_type: 0x0a,
        c_flag: false,
        data: Some(&[0x00, 0x01]),
    };
    let encoded: [u8; 8] = [0xff, 0xff, 0x0a, 0x01, 0x00, 0x01, 0x00, 0x00];
    let mut buffer: Vec<u8> = vec![];
    decoded.marshal(&mut buffer).expect("failed to marshal");
    assert_eq!(buffer, encoded);

    let mut slice_buffer: [u8; 128] = [0u8; 128];
    let size = decoded.marshal_to_slice(&mut slice_buffer).expect("failed to marshal");
    assert_eq!(size, encoded.len());
    assert_eq!(&slice_buffer[..size], &encoded);

    let decoded_empty_data = TunnelOption {
        option_class: 0xffff,
        option_type: 0x0a,
        c_flag: false,
        data: None,
    };
    let encoded_empty_data: [u8; 4] = [0xff, 0xff, 0x0a, 0x00];
    let mut buffer: Vec<u8> = vec![];
    decoded_empty_data.marshal(&mut buffer).expect("failed to marshal");
    assert_eq!(buffer, encoded_empty_data);

    let mut slice_buffer: [u8; 128] = [0u8; 128];
    let size = decoded_empty_data.marshal_to_slice(&mut slice_buffer).expect("failed to marshal");
    assert_eq!(size, encoded_empty_data.len());

    let decoded_4_data = TunnelOption {
        option_class: 0xffff,
        option_type: 0x0a,
        c_flag: false,
        data: Some(&[1, 2, 3, 4]),
    };
    let encoded_4_data: [u8; 8] = [0xff, 0xff, 0x0a, 0x01, 1, 2, 3, 4];
    let mut buffer: Vec<u8> = vec![];
    decoded_4_data.marshal(&mut buffer).expect("failed to marshal");
    assert_eq!(buffer, encoded_4_data);

    let mut slice_buffer: [u8; 128] = [0u8; 128];
    let size = decoded_4_data.marshal_to_slice(&mut slice_buffer).expect("failed to marshal");
    assert_eq!(size, encoded_4_data.len());
    assert_eq!(&slice_buffer[..size], &encoded_4_data);
    assert_eq!(&slice_buffer[..size], &encoded_4_data);
}

#[test]
fn tunnel_option_marshal_invalid_length() {
    let really_long_data: [u8; 1024] = [0u8; 1024];
    let decoded = TunnelOption {
        option_class: 0xffff,
        option_type: 0x0a,
        c_flag: false,
        data: Some(&really_long_data),
    };

    let mut slice_buffer: [u8; 128] = [0u8; 128];
    assert!(decoded.marshal_to_slice(&mut slice_buffer).is_err());
}

#[test]
fn tunnel_option_marshal_slice_too_small_buffer() {
    let long_test_data: [u8; 64] = [0u8; 64];
    let decoded = TunnelOption {
        option_class: 0xffff,
        option_type: 0x0a,
        c_flag: false,
        data: Some(&long_test_data),
    };

    let mut slice_buffer: [u8; 32] = [0u8; 32];
    assert!(decoded.marshal_to_slice(&mut slice_buffer).is_err());
}

#[test]
fn tunnel_options_unmarshal() {
    let encoded: [u8; 8] = [0xff, 0xff, 0x0a, 0x01, 0x00, 0x01, 0x00, 0x00];
    let decoded = TunnelOption {
        option_class: 0xffff,
        option_type: 0x0a,
        c_flag: false,
        data: Some(&[0x00, 0x01, 0x00, 0x00]),
    };
    if let Some(i) = TunnelOption::unmarshal(&encoded) {
        assert_eq!(i, decoded);
    }
}

#[test]
fn geneve_header_marshal() {
    let decoded = Header {
        version: 0,
        control_flag: false,
        critical_flag: false,
        protocol: 0x86dd,
        vni: 0x00aaaaee,
        options: Some(vec![
            TunnelOption {
                option_class: 0xffff,
                option_type: 0x0a,
                c_flag: false,
                data: Some(&[0x00, 0x01, 0x00, 0x00]),
            },
            TunnelOption {
                option_class: 0xffff,
                option_type: 0x0b,
                c_flag: false,
                data: Some(&[0x00, 0x02, 0x00, 0x00]),
            },
        ]),
        options_len: 0,
    };
    let encoded: [u8; 24] = [
        0x04, 0x00, 0x86, 0xdd, 0xaa, 0xaa, 0xee, 0x00, 0xff, 0xff, 0x0a, 0x01, 0x00, 0x01, 0x00,
        0x00, 0xff, 0xff, 0x0b, 0x01, 0x00, 0x02, 0x00, 0x00,
    ];
    let mut buffer: Vec<u8> = vec![];
    decoded.marshal(&mut buffer).expect("failed to marshal");
    assert_eq!(buffer, encoded);

    let mut buffer: [u8; 128] = [0u8; 128];
    let size = decoded.marshal_to_slice(&mut buffer).expect("failed to encode");
    assert_eq!(encoded.len(), size);
    assert_eq!(&buffer[..size], &encoded);
}

#[test]
fn geneve_header_unmarshal() {
    let decoded = Header {
        version: 0,
        control_flag: false,
        critical_flag: false,
        protocol: 0x86dd,
        vni: 0x00aaaaee,
        options: Some(vec![
            TunnelOption {
                option_class: 0xffff,
                option_type: 0x0a,
                c_flag: false,
                data: Some(&[0x00, 0x01, 0x00, 0x00]),
            },
            TunnelOption {
                option_class: 0xffff,
                option_type: 0x0b,
                c_flag: false,
                data: Some(&[0x00, 0x02, 0x00, 0x00]),
            },
        ]),
        options_len: 16,
    };
    let encoded: [u8; 24] = [
        0x04, 0x00, 0x86, 0xdd, 0xaa, 0xaa, 0xee, 0x00, 0xff, 0xff, 0x0a, 0x01, 0x00, 0x01, 0x00,
        0x00, 0xff, 0xff, 0x0b, 0x01, 0x00, 0x02, 0x00, 0x00,
    ];
    if let Some((i, _)) = Header::unmarshal(&encoded) {
        assert_eq!(i, decoded);
    }
}

#[test]
fn geneve_packet_unmarshal() {
    let encoded_payload: [u8; 30] = [
        0x04, 0x00, 0x86, 0xdd, 0xaa, 0xaa, 0xee, 0x00, 0xff, 0xff, 0x0a, 0x01, 0x00, 0x01, 0x00,
        0x00, 0xff, 0xff, 0x0b, 0x01, 0x00, 0x02, 0x00, 0x00, 0x00, 0x00, 0x00, 0x00, 0x00, 0x00,
    ];
    let decoded_hdr = Header {
        version: 0,
        control_flag: false,
        critical_flag: false,
        protocol: 0x86dd,
        vni: 0x00aaaaee,
        options: Some(vec![
            TunnelOption {
                option_class: 0xffff,
                option_type: 0x0a,
                c_flag: false,
                data: Some(&[0x00, 0x01, 0x00, 0x00]),
            },
            TunnelOption {
                option_class: 0xffff,
                option_type: 0x0b,
                c_flag: false,
                data: Some(&[0x00, 0x02, 0x00, 0x00]),
            },
        ]),
        options_len: 16,
    };
    match GenevePacket::try_from(&encoded_payload[..]) {
        Ok(i) => assert_eq!(i.hdr, decoded_hdr),
        Err(_) => panic!(),
    }
}

#[test]
fn geneve_packet_marshal() {
    let encoded_payload: [u8; 30] = [
        0x04, 0x00, 0x86, 0xdd, 0xaa, 0xaa, 0xee, 0x00, 0xff, 0xff, 0x0a, 0x01, 0x00, 0x01, 0x00,
        0x00, 0xff, 0xff, 0x0b, 0x01, 0x00, 0x02, 0x00, 0x00, 0x00, 0x00, 0x00, 0x00, 0x00, 0x00,
    ];
    if let Some(packet) = GenevePacket::new(&encoded_payload) {
        let mut buffer = vec![];
        packet.marshal(&mut buffer).expect("failed to marshal");
        assert_eq!(buffer, encoded_payload);

        let mut buffer: [u8; 128] = [0u8; 128];
        let size = packet.marshal_to_slice(&mut buffer).expect("failed to marshal");
        assert_eq!(size, encoded_payload.len());
        assert_eq!(&buffer[..size], &encoded_payload);
    }
}
