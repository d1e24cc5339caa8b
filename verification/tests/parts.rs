use utf16_ext::bytes::{push_all, push_bytes_units, push_unit, push_units, read_unit};
use utf16_ext::utf8::{continues, opened_length, unfinished_len};

#[test]
fn unit_bytes_in_both_orders() {
    let mut out = vec![9u8];
    push_unit(false, 0x20AC, &mut out);
    push_unit(true, 0x20AC, &mut out);
    assert_eq!(out, vec![9, 0xAC, 0x20, 0x20, 0xAC]);
    assert_eq!(0x20ACu16.to_le_bytes(), [0xAC, 0x20]);
    assert_eq!(0x20ACu16.to_be_bytes(), [0x20, 0xAC]);
}

#[test]
fn units_from_bytes_in_both_orders() {
    assert_eq!(read_unit(false, 0xAC, 0x20), 0x20AC);
    assert_eq!(read_unit(true, 0xAC, 0x20), 0xAC20);
    assert_eq!(read_unit(true, 0xFF, 0xFF), 0xFFFF);
    assert_eq!(read_unit(false, 0x00, 0x00), 0x0000);
    assert_eq!(read_unit(false, 0xAC, 0x20), u16::from_le_bytes([0xAC, 0x20]));
    assert_eq!(read_unit(true, 0xAC, 0x20), u16::from_be_bytes([0xAC, 0x20]));
}

#[test]
fn every_unit_survives_its_bytes() {
    for unit in [0u16, 1, 0xFF, 0x100, 0xD800, 0xDFFF, 0xFEFF, 0xFFFE, 0xFFFF] {
        for big_endian in [false, true] {
            let mut out = Vec::new();
            push_unit(big_endian, unit, &mut out);
            assert_eq!(out.len(), 2);
            assert_eq!(read_unit(big_endian, out[0], out[1]), unit);
        }
    }
}

#[test]
fn many_units_to_bytes() {
    let mut out = Vec::new();
    push_units(true, &[0x0041, 0xD834, 0xDD1E], &mut out);
    assert_eq!(out, vec![0x00, 0x41, 0xD8, 0x34, 0xDD, 0x1E]);
    push_units(false, &[], &mut out);
    assert_eq!(out.len(), 6);
    push_units(false, &[0x0041], &mut out);
    assert_eq!(&out[6..], &[0x41, 0x00]);
}

#[test]
fn bytes_to_units_pair_by_pair() {
    let mut units = vec![7u16];
    push_bytes_units(true, &[0x00, 0x41, 0xD8, 0x34], &mut units);
    assert_eq!(units, vec![7, 0x0041, 0xD834]);
    let mut units = Vec::new();
    push_bytes_units(false, &[0x41, 0x00, 0x34, 0xD8, 0x99], &mut units);
    assert_eq!(units, vec![0x0041, 0xD834]);
    let mut units = Vec::new();
    push_bytes_units(false, &[0x41], &mut units);
    assert_eq!(units, Vec::<u16>::new());
}

#[test]
fn push_all_appends() {
    let mut out = vec![1u8, 2];
    push_all(&[3, 4, 5], &mut out);
    push_all(&[], &mut out);
    assert_eq!(out, vec![1, 2, 3, 4, 5]);
}

#[test]
fn lengths_of_sequences() {
    assert_eq!(opened_length(0x00), 1);
    assert_eq!(opened_length(0x7F), 1);
    assert_eq!(opened_length(0x80), 0);
    assert_eq!(opened_length(0xBF), 0);
    assert_eq!(opened_length(0xC0), 2);
    assert_eq!(opened_length(0xDF), 2);
    assert_eq!(opened_length(0xE0), 3);
    assert_eq!(opened_length(0xEF), 3);
    assert_eq!(opened_length(0xF0), 4);
    assert_eq!(opened_length(0xF7), 4);
    assert_eq!(opened_length(0xF8), 0);
    assert_eq!(opened_length(0xFF), 0);
}

#[test]
fn continuation_bytes() {
    assert!(!continues(0x7F));
    assert!(continues(0x80));
    assert!(continues(0xBF));
    assert!(!continues(0xC0));
}

#[test]
fn unfinished_ends() {
    assert_eq!(unfinished_len(&[]), 0);
    assert_eq!(unfinished_len(b"abc"), 0);
    assert_eq!(unfinished_len("€".as_bytes()), 0);
    assert_eq!(unfinished_len(&"€".as_bytes()[..1]), 1);
    assert_eq!(unfinished_len(&"€".as_bytes()[..2]), 2);
    assert_eq!(unfinished_len("𝄞".as_bytes()), 0);
    assert_eq!(unfinished_len(&"𝄞".as_bytes()[..3]), 3);
    assert_eq!(unfinished_len(&"a𝄞".as_bytes()[..3]), 2);
    assert_eq!(unfinished_len(&[b'a', 0xC3]), 1);
    assert_eq!(unfinished_len(&[0xC3, 0xA9]), 0);
    assert_eq!(unfinished_len(&[0x80, 0x80, 0x80]), 0);
    assert_eq!(unfinished_len(&[0xF0, 0x80, 0x80, 0x80]), 0);
    assert_eq!(unfinished_len(&[0xC3, 0x80, 0x80]), 0);
    assert_eq!(unfinished_len(&[0xFF]), 0);
    assert_eq!(unfinished_len(&[0xE2, b'a']), 0);
}
