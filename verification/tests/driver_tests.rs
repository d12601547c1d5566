use sh1122::{BusRecord, Framebuffer, RecordingInterface, Sh1122Device, TransportError};

fn opcode_of(rec: &BusRecord) -> u8 {
    match rec {
        BusRecord::Cmd { opcode, .. } => *opcode,
        BusRecord::Data { .. } => panic!("expected a command, found a data write"),
    }
}

fn cmd_payload_of(rec: &BusRecord) -> &[u8] {
    match rec {
        BusRecord::Cmd { payload, .. } => payload.as_slice(),
        BusRecord::Data { .. } => panic!("expected a command, found a data write"),
    }
}

fn data_payload_of(rec: &BusRecord) -> &[u8] {
    match rec {
        BusRecord::Data { payload } => payload.as_slice(),
        BusRecord::Cmd { .. } => panic!("expected a data write, found a command"),
    }
}

#[test]
fn pixel_round_trip() {
    let mut dev = Sh1122Device::with_interface(RecordingInterface::new(), 256, 64);
    dev.set_pixel(0, 0, 0xff);
    assert_eq!(dev.get_pixel(0, 0), 0xf0);
    dev.set_pixel(255, 63, 0x47);
    assert_eq!(dev.get_pixel(255, 63), 0x40);
    dev.set_pixel(10, 5, 0x0f);
    assert_eq!(dev.get_pixel(10, 5), 0x00);
    dev.set_pixel(10, 5, 0x3c);
    assert_eq!(dev.get_pixel(10, 5), 0x30);
}

#[test]
fn fill_round_trip() {
    let mut dev = Sh1122Device::with_interface(RecordingInterface::new(), 256, 64);
    dev.fill(0x37);
    assert_eq!(dev.get_pixel(0, 0), 0x30);
    assert_eq!(dev.get_pixel(255, 0), 0x30);
    assert_eq!(dev.get_pixel(0, 63), 0x30);
    assert_eq!(dev.get_pixel(255, 63), 0x30);
    assert_eq!(dev.get_pixel(128, 32), 0x30);
    dev.fill(0xff);
    assert_eq!(dev.get_pixel(17, 42), 0xf0);
}

#[test]
fn neighbor_nibble_preserved() {
    let mut dev = Sh1122Device::with_interface(RecordingInterface::new(), 256, 64);
    dev.set_pixel(0, 0, 0xf0);
    dev.set_pixel(1, 0, 0x10);
    assert_eq!(dev.get_pixel(0, 0), 0xf0);
    assert_eq!(dev.get_pixel(1, 0), 0x10);
    dev.set_pixel(1, 0, 0x50);
    assert_eq!(dev.get_pixel(0, 0), 0xf0);
    assert_eq!(dev.get_pixel(1, 0), 0x50);
}

#[test]
fn buffer_size_and_packing_order() {
    // 256 x 64 at 4 bits per pixel packs into 8192 bytes; pixel 0 is the
    // high nibble of byte 0 and pixel 1 the low nibble.
    let mut dev = Sh1122Device::with_interface(RecordingInterface::new(), 256, 64);
    dev.set_pixel(0, 0, 0xf0);
    dev.set_pixel(1, 0, 0x10);
    dev.flush().unwrap();
    let iface = dev.release_interface();
    assert_eq!(iface.calls.len(), 4);
    let data = data_payload_of(&iface.calls[3]);
    assert_eq!(data.len(), 256 * 64 * 4 / 8);
    assert_eq!(data.len(), 8192);
    assert_eq!(data[0], 0xf1);
}

#[test]
fn partial_fill_sets_rectangle_only() {
    let mut dev = Sh1122Device::with_interface(RecordingInterface::new(), 16, 4);
    dev.fill(0x10);
    dev.partial_fill(2, 1, 3, 2, 0xa0);
    for y in 0..4 {
        for x in 0..16 {
            let inside = (2..5).contains(&x) && (1..3).contains(&y);
            let expected = if inside { 0xa0 } else { 0x10 };
            assert_eq!(dev.get_pixel(x, y), expected);
        }
    }
}

#[test]
fn partial_flush_out_of_bounds_is_silent_noop() {
    let mut dev = Sh1122Device::with_interface(RecordingInterface::new(), 256, 64);
    assert!(dev.partial_flush(256, 0, 4, 4).is_ok());
    assert!(dev.partial_flush(0, 64, 4, 4).is_ok());
    assert!(dev.partial_flush(1000, 1000, 1, 1).is_ok());
    let iface = dev.release_interface();
    assert_eq!(iface.calls.len(), 0);
}

#[test]
fn partial_flush_full_surface_single_write() {
    let mut dev = Sh1122Device::with_interface(RecordingInterface::new(), 256, 64);
    dev.partial_flush(0, 0, 256, 64).unwrap();
    let iface = dev.release_interface();
    assert_eq!(iface.calls.len(), 4);
    assert_eq!(opcode_of(&iface.calls[0]), 0x00);
    assert_eq!(opcode_of(&iface.calls[1]), 0x10);
    assert_eq!(opcode_of(&iface.calls[2]), 0xb0);
    assert_eq!(cmd_payload_of(&iface.calls[2]), &[0]);
    let data = data_payload_of(&iface.calls[3]);
    assert_eq!(data.len(), 256 * 64 * 4 / 8);
}

#[test]
fn partial_flush_narrow_rect_goes_row_by_row() {
    let mut dev = Sh1122Device::with_interface(RecordingInterface::new(), 16, 4);
    dev.set_pixel(2, 1, 0xa0);
    dev.set_pixel(3, 1, 0xb0);
    dev.partial_flush(2, 1, 4, 2).unwrap();
    let iface = dev.release_interface();
    // two affected rows, each a column set (two commands), a row set, and
    // one data write
    assert_eq!(iface.calls.len(), 8);
    for row in 0..2u8 {
        let base = row as usize * 4;
        assert_eq!(opcode_of(&iface.calls[base]), 0x00 | 0x02);
        assert_eq!(opcode_of(&iface.calls[base + 1]), 0x10);
        assert_eq!(opcode_of(&iface.calls[base + 2]), 0xb0);
        assert_eq!(cmd_payload_of(&iface.calls[base + 2]), &[1 + row]);
        let data = data_payload_of(&iface.calls[base + 3]);
        assert_eq!(data.len(), (4 * 4 + 4) / 8);
    }
    // row 1 starts at byte (2 + 1 * 16) / 2 = 9: pixels (2,1) and (3,1)
    let data = data_payload_of(&iface.calls[3]);
    assert_eq!(data[0], 0xab);
}

#[test]
fn partial_flush_unaligned_x_widens_leftward() {
    let mut dev = Sh1122Device::with_interface(RecordingInterface::new(), 16, 4);
    dev.set_pixel(2, 0, 0xc0);
    dev.set_pixel(3, 0, 0xd0);
    // x = 3 is off the 2-pixel boundary: the emitted window starts at
    // column 2 and is one pixel wider
    dev.partial_flush(3, 0, 4, 1).unwrap();
    let iface = dev.release_interface();
    assert_eq!(iface.calls.len(), 4);
    assert_eq!(opcode_of(&iface.calls[0]), 0x00 | 0x02);
    assert_eq!(opcode_of(&iface.calls[1]), 0x10);
    assert_eq!(cmd_payload_of(&iface.calls[2]), &[0]);
    let data = data_payload_of(&iface.calls[3]);
    // five pixels starting at byte 1, rounded up to whole bytes
    assert_eq!(data.len(), (5 * 4 + 4) / 8);
    assert_eq!(data[0], 0xcd);
}

#[test]
fn init_display_opcode_order() {
    let mut dev = Sh1122Device::with_interface(RecordingInterface::new(), 256, 64);
    dev.init_display().unwrap();
    let iface = dev.release_interface();
    assert_eq!(iface.calls.len(), 18);
    let expected: [(u8, &[u8]); 17] = [
        (0xae, &[]),        // display off
        (0xb0, &[0]),       // row address 0
        (0x00, &[]),        // column address low nibble
        (0x10, &[]),        // column address high nibble
        (0x40, &[]),        // start line 0
        (0xa1, &[]),        // segment remap on
        (0xa0, &[]),        // segment remap off
        (0xa8, &[63]),      // mux ratio = height - 1
        (0xc0, &[]),        // common output scan direction
        (0xd3, &[0]),       // display offset 0
        (0x81, &[0x80]),    // default contrast
        (0xa4, &[]),        // entire display on pulse
        (0xa6, &[]),        // normal polarity
        (0xaf, &[]),        // display on
        (0x00, &[]),        // flush: column address low nibble
        (0x10, &[]),        // flush: column address high nibble
        (0xb0, &[0]),       // flush: row address 0
    ];
    for (i, (op, payload)) in expected.iter().enumerate() {
        assert_eq!(opcode_of(&iface.calls[i]), *op, "opcode at step {}", i);
        assert_eq!(cmd_payload_of(&iface.calls[i]), *payload, "payload at step {}", i);
    }
    let data = data_payload_of(&iface.calls[17]);
    assert_eq!(data.len(), 8192);
    assert!(data.iter().all(|b| *b == 0));
}

#[test]
fn init_display_aborts_after_failed_command() {
    // the transport accepts four transactions and refuses the fifth: no
    // command after the failing one may be issued
    let mut dev = Sh1122Device::with_interface(RecordingInterface::failing_from(4), 256, 64);
    assert_eq!(dev.init_display(), Err(TransportError));
    let iface = dev.release_interface();
    assert_eq!(iface.calls.len(), 4);
    assert_eq!(opcode_of(&iface.calls[0]), 0xae);
    assert_eq!(opcode_of(&iface.calls[1]), 0xb0);
    assert_eq!(opcode_of(&iface.calls[2]), 0x00);
    assert_eq!(opcode_of(&iface.calls[3]), 0x10);
}

#[test]
fn transport_error_propagates() {
    let mut dev = Sh1122Device::with_interface(RecordingInterface::failing_from(0), 256, 64);
    assert_eq!(dev.display_on(), Err(TransportError));
    assert_eq!(dev.flush(), Err(TransportError));
    assert_eq!(dev.partial_flush(0, 0, 10, 10), Err(TransportError));
    let iface = dev.release_interface();
    assert_eq!(iface.calls.len(), 0);
}

#[test]
fn simple_commands_emit_their_opcode() {
    let mut dev = Sh1122Device::with_interface(RecordingInterface::new(), 256, 64);
    dev.display_on().unwrap();
    dev.display_off().unwrap();
    dev.set_contrast(0x55).unwrap();
    dev.set_inverted(true).unwrap();
    dev.set_inverted(false).unwrap();
    let iface = dev.release_interface();
    assert_eq!(iface.calls.len(), 5);
    assert_eq!(opcode_of(&iface.calls[0]), 0xaf);
    assert_eq!(opcode_of(&iface.calls[1]), 0xae);
    assert_eq!(opcode_of(&iface.calls[2]), 0x81);
    assert_eq!(cmd_payload_of(&iface.calls[2]), &[0x55]);
    assert_eq!(opcode_of(&iface.calls[3]), 0xa7);
    assert_eq!(opcode_of(&iface.calls[4]), 0xa6);
}

#[test]
fn flush_writes_filled_buffer() {
    let mut dev = Sh1122Device::with_interface(RecordingInterface::new(), 16, 4);
    dev.fill(0x20);
    dev.flush().unwrap();
    let iface = dev.release_interface();
    let data = data_payload_of(&iface.calls[3]);
    assert_eq!(data.len(), 16 * 4 * 4 / 8);
    assert!(data.iter().all(|b| *b == 0x22));
}

#[test]
fn dimensions_are_reported() {
    let dev = Sh1122Device::with_interface(RecordingInterface::new(), 256, 64);
    assert_eq!(dev.get_width(), 256);
    assert_eq!(dev.get_height(), 64);
}

#[test]
fn partial_flush_zero_height_emits_nothing() {
    let mut dev = Sh1122Device::with_interface(RecordingInterface::new(), 16, 4);
    dev.partial_flush(2, 1, 4, 0).unwrap();
    let iface = dev.release_interface();
    assert_eq!(iface.calls.len(), 0);
}

#[test]
fn partial_flush_zero_width_emits_empty_rows() {
    let mut dev = Sh1122Device::with_interface(RecordingInterface::new(), 16, 4);
    dev.partial_flush(2, 1, 0, 2).unwrap();
    let iface = dev.release_interface();
    // the rectangle is in bounds, so both rows are addressed, each with an
    // empty data write
    assert_eq!(iface.calls.len(), 8);
    assert_eq!(data_payload_of(&iface.calls[3]).len(), 0);
    assert_eq!(data_payload_of(&iface.calls[7]).len(), 0);
}
