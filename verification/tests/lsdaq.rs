use nimhddk::lsdaq::{find_pxi, last_line, locate_device, DeviceAddress, LocateError};
use regex::Regex;

fn addr(bus: i32, device: i32) -> Result<DeviceAddress, LocateError> {
    Ok(DeviceAddress { bus, device })
}

#[test]
fn locates_board_on_last_line() {
    let listing = b"PXI0::0::INSTR\nPXI11::0::INSTR\n";
    assert_eq!(locate_device(listing), addr(11, 0));
}

#[test]
fn locates_unterminated_last_line() {
    assert_eq!(locate_device(b"PXI4::13::INSTR"), addr(4, 13));
}

#[test]
fn empty_listing_has_no_lines() {
    assert_eq!(locate_device(b""), Err(LocateError::NoLines));
    assert_eq!(last_line(b""), None);
}

#[test]
fn lone_newline_is_one_empty_line() {
    assert_eq!(last_line(b"\n"), Some(Vec::new()));
    assert_eq!(locate_device(b"\n"), Err(LocateError::NoMatch));
}

#[test]
fn last_line_without_resource_string() {
    assert_eq!(locate_device(b"PXI1::2::INSTR\nnothing here\n"), Err(LocateError::NoMatch));
}

#[test]
fn earlier_lines_are_ignored() {
    let alone = locate_device(b"PXI9::8::INSTR\n");
    let after = locate_device(b"first\nPXI1::1::INSTR\nPXI9::8::INSTR\n");
    assert_eq!(alone, addr(9, 8));
    assert_eq!(after, alone);
}

#[test]
fn leftmost_resource_string_wins() {
    assert_eq!(locate_device(b"xx PXI3::4::INSTR PXI5::6::INSTR"), addr(3, 4));
    assert_eq!(locate_device(b"PXIPXI1::2::INSTR"), addr(1, 2));
    assert_eq!(find_pxi(b"PXIPXI1::2::INSTR"), Some(3));
}

#[test]
fn bus_out_of_range() {
    assert_eq!(locate_device(b"PXI2147483648::0::INSTR"), Err(LocateError::BusOutOfRange));
    assert_eq!(
        locate_device(b"PXI99999999999999999999::99999999999999999999::INSTR"),
        Err(LocateError::BusOutOfRange)
    );
}

#[test]
fn device_out_of_range() {
    assert_eq!(locate_device(b"PXI1::2147483648::INSTR"), Err(LocateError::DeviceOutOfRange));
}

#[test]
fn largest_numbers_fit() {
    assert_eq!(
        locate_device(b"PXI2147483647::2147483647::INSTR"),
        addr(2147483647, 2147483647)
    );
}

#[test]
fn leading_zeros_are_read_in_decimal() {
    assert_eq!(locate_device(b"PXI007::0010::INSTR\n"), addr(7, 10));
    assert_eq!(locate_device(b"PXI0000000000002147483647::0::INSTR"), addr(2147483647, 0));
}

#[test]
fn crlf_line_endings() {
    assert_eq!(last_line(b"a\r\nPXI1::2::INSTR\r\n"), Some(b"PXI1::2::INSTR".to_vec()));
    assert_eq!(locate_device(b"a\r\nPXI1::2::INSTR\r\n"), addr(1, 2));
    assert_eq!(last_line(b"a\nb\r"), Some(b"b\r".to_vec()));
    assert_eq!(last_line(b"a\nb\r\n"), Some(b"b".to_vec()));
    assert_eq!(last_line(b"a\n\r\n"), Some(Vec::new()));
}

#[test]
fn malformed_resource_strings() {
    for line in [
        &b"PXI::1::INSTR"[..],
        b"PXI1::::INSTR",
        b"PXI1:2::INSTR",
        b"PXI1::2:INSTR",
        b"PXI1::2::INSTX",
        b"PXI1::2::INST",
        b"pxi1::2::INSTR",
        b"PXI-1::2::INSTR",
        b"PXI1 ::2::INSTR",
    ] {
        assert_eq!(find_pxi(line), None, "{:?}", String::from_utf8_lossy(line));
        assert_eq!(locate_device(line), Err(LocateError::NoMatch));
    }
}

#[test]
fn trailing_text_after_resource_string() {
    assert_eq!(locate_device(b"PXI12::3::INSTRUMENT"), addr(12, 3));
    assert_eq!(locate_device(b"slot 2: PXI12::3::INSTR (X-series)\n"), addr(12, 3));
}

#[test]
fn formatted_address_round_trips() {
    for (bus, device) in [(0, 0), (11, 0), (7, 42), (2147483647, 1), (123456, 2147483647)] {
        let listing = format!("PXI0::0::INSTR\nPXI{}::{}::INSTR\n", bus, device);
        assert_eq!(locate_device(listing.as_bytes()), addr(bus, device));
        let bare = format!("PXI{}::{}::INSTR", bus, device);
        assert_eq!(locate_device(bare.as_bytes()), addr(bus, device));
    }
}

#[test]
fn agrees_with_regex_crate() {
    let re = Regex::new(r"PXI([0-9]+)::([0-9]+)::INSTR").unwrap();
    let lines = [
        "PXI11::0::INSTR",
        "junk PXI1::2::INSTR more PXI3::4::INSTR",
        "PXIPXI5::6::INSTR",
        "PXI5::6::INSTRPXI7::8::INSTR",
        "PXI::1::INSTR PXI2::3::INSTR",
        "PXI1::2::INSTX PXI9::9::INSTR",
        "no resource here",
        "",
        "PXI1:::2::INSTR",
        "PXI12::34::INST",
        "PXI0012::0::INSTR",
        "::INSTR PXI PXI4::::INSTR PXI4::5::INSTR",
    ];
    for line in lines {
        let ours = find_pxi(line.as_bytes());
        let theirs = re.captures(line);
        match (ours, theirs) {
            (None, None) => {}
            (Some(start), Some(caps)) => {
                assert_eq!(start, caps.get(0).unwrap().start(), "{}", line);
                let bus: i32 = caps.get(1).unwrap().as_str().parse().unwrap();
                let device: i32 = caps.get(2).unwrap().as_str().parse().unwrap();
                assert_eq!(locate_device(line.as_bytes()), addr(bus, device), "{}", line);
            }
            (ours, theirs) => panic!("{}: {:?} against {:?}", line, ours, theirs.is_some()),
        }
    }
}
