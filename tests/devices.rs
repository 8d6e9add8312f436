use xadb::devices::{AdbDevice, Error, TrackDevicesDecodeError, TrackDevicesDecoder};

#[test]
fn parse_short_line_has_no_live_properties() {
    let d = AdbDevice::parse("emulator-5554 device usb:1-1").unwrap();
    assert_eq!(d.connection_name, "emulator-5554");
    assert_eq!(d.properties.connection_state, "device");
    assert_eq!(d.properties.devpath, "usb:1-1");
    assert!(d.properties.live.is_none());
}

#[test]
fn parse_long_line_reads_every_field() {
    let line = "0123456789ABCDEF       device usb:336592896X product:sdk_gphone64_arm64 model:sdk_gphone64_arm64 device:emu64a transport_id:12";
    let d = AdbDevice::parse(line).unwrap();
    assert_eq!(d.connection_name, "0123456789ABCDEF");
    assert_eq!(d.properties.connection_state, "device");
    assert_eq!(d.properties.devpath, "usb:336592896X");
    let live = d.properties.live.unwrap();
    assert_eq!(live.product, "sdk_gphone64_arm64");
    assert_eq!(live.model, "sdk_gphone64_arm64");
    assert_eq!(live.device, "emu64a");
    assert_eq!(live.transport_id, 12);
}

#[test]
fn parse_values_take_as_much_as_they_can() {
    let line = "x device u product:a b model:c model:d device:e transport_id:7";
    let live = AdbDevice::parse(line).unwrap().properties.live.unwrap();
    assert_eq!(live.product, "a b model:c");
    assert_eq!(live.model, "d");
    assert_eq!(live.device, "e");
    assert_eq!(live.transport_id, 7);
}

#[test]
fn parse_incomplete_block_is_ignored() {
    let d = AdbDevice::parse("abc offline usb:2 product:p model:m").unwrap();
    assert_eq!(d.properties.connection_state, "offline");
    assert!(d.properties.live.is_none());
}

#[test]
fn parse_rejects_header_and_blank_lines() {
    for line in ["", "   ", "serial  device", "abc device  usb:1", "\u{e9} device usb"] {
        match AdbDevice::parse(line) {
            Err(Error::Parse(l)) => assert_eq!(l, line),
            other => panic!("unexpected {:?}", other),
        }
    }
}

#[test]
fn parse_transport_id_too_large_drops_block() {
    let line = "s device p product:a model:b device:c transport_id:99999999999999999999999";
    let d = AdbDevice::parse(line).unwrap();
    assert!(d.properties.live.is_none());
}

#[test]
fn round_trip_reproduces_fields() {
    let line = "R5CT  unauthorized usb:1-2 product:x y model:m\tdevice:d transport_id:0042";
    let d = AdbDevice::parse(line).unwrap();
    let again = AdbDevice::parse(&d.to_line()).unwrap();
    assert_eq!(d.to_line(), "R5CT unauthorized usb:1-2 product:x y model:m device:d transport_id:42");
    assert_eq!(again.connection_name, d.connection_name);
    let (a, b) = (again.properties.live.unwrap(), d.properties.live.unwrap());
    assert_eq!(a.product, b.product);
    assert_eq!(a.model, b.model);
    assert_eq!(a.device, b.device);
    assert_eq!(a.transport_id, b.transport_id);
}

#[test]
fn track_frame_example() {
    let mut buf = b"0012abc1 device usb:1\n".to_vec();
    let mut dec = TrackDevicesDecoder::new();
    let frame = dec.decode(&mut buf).unwrap().unwrap();
    assert_eq!(frame.len(), 1);
    let d = frame[0].as_ref().unwrap();
    assert_eq!(d.connection_name, "abc1");
    assert_eq!(d.properties.connection_state, "device");
    assert_eq!(d.properties.devpath, "usb:1");
    assert!(buf.is_empty());
}

#[test]
fn track_byte_by_byte_matches_one_piece() {
    let bytes = b"0021a device usb:1\n\nb offline usb:2\r\n0000".to_vec();
    let mut whole = bytes.clone();
    let mut dec = TrackDevicesDecoder::new();
    let at_once = dec.decode(&mut whole).unwrap().unwrap();
    assert_eq!(whole, b"0000".to_vec());

    let mut buf = Vec::new();
    let mut items = Vec::new();
    for &x in &bytes[..0x21 + 4] {
        buf.push(x);
        if let Some(frame) = dec.decode(&mut buf).unwrap() {
            items.push(frame);
        }
    }
    assert_eq!(items.len(), 1);
    assert_eq!(items[0].len(), at_once.len());
    assert_eq!(at_once.len(), 2);
    let names: Vec<String> = items[0].iter().map(|r| r.as_ref().unwrap().connection_name.clone()).collect();
    assert_eq!(names, vec!["a".to_string(), "b".to_string()]);
    assert_eq!(items[0][1].as_ref().unwrap().properties.devpath, "usb:2");
    assert!(buf.is_empty());
}

#[test]
fn track_short_buffer_waits() {
    let mut dec = TrackDevicesDecoder::new();
    let mut buf = b"00".to_vec();
    assert!(dec.decode(&mut buf).unwrap().is_none());
    assert_eq!(buf, b"00".to_vec());
    let mut buf = b"0010abc".to_vec();
    assert!(dec.decode(&mut buf).unwrap().is_none());
    assert_eq!(buf.len(), 7);
}

#[test]
fn track_empty_frame_has_no_devices() {
    let mut dec = TrackDevicesDecoder::new();
    let mut buf = b"0000".to_vec();
    assert_eq!(dec.decode(&mut buf).unwrap().unwrap().len(), 0);
    assert!(buf.is_empty());
}

#[test]
fn track_bad_length_field() {
    let mut dec = TrackDevicesDecoder::new();
    let mut buf = b"00x1abc".to_vec();
    assert_eq!(dec.decode(&mut buf).err(), Some(TrackDevicesDecodeError::ParseIntError));
    assert_eq!(buf.len(), 7);
    let mut buf = vec![0xffu8, b'0', b'0', b'1', b'a'];
    assert_eq!(dec.decode(&mut buf).err(), Some(TrackDevicesDecodeError::Utf8Error));
}

#[test]
fn track_length_field_must_be_four_hex_digits() {
    let mut dec = TrackDevicesDecoder::new();
    let mut buf = b"+001z".to_vec();
    assert_eq!(dec.decode(&mut buf).err(), Some(TrackDevicesDecodeError::ParseIntError));
    assert_eq!(buf, b"+001z".to_vec());
    let mut buf = b"zzzzabc".to_vec();
    assert_eq!(dec.decode(&mut buf).err(), Some(TrackDevicesDecodeError::ParseIntError));
    assert_eq!(buf.len(), 7);
    let mut buf = b"000Aa device usb:1".to_vec();
    assert_eq!(dec.decode(&mut buf).unwrap().unwrap().len(), 1);
    assert_eq!(buf, b"sb:1".to_vec());
}

#[test]
fn track_invalid_payload_utf8() {
    let mut dec = TrackDevicesDecoder::new();
    let mut buf = vec![b'0', b'0', b'0', b'2', 0xc3, 0x28];
    assert_eq!(dec.decode(&mut buf).err(), Some(TrackDevicesDecodeError::Utf8Error));
    assert_eq!(buf.len(), 6);
}
