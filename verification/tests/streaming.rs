use utf16_ext::codec::{decode_utf16, encode_utf16};
use utf16_ext::error::{DecodeUtf16Error, ErrorKind};
use utf16_ext::reader::{ReadAction, Utf16Reader};
use utf16_ext::variant::Utf16;
use utf16_ext::writer::Utf16Writer;

const FORMS: [Utf16; 4] = [Utf16::Le, Utf16::LeBom, Utf16::Be, Utf16::BeBom];

const SAMPLE: &str = "A€𝄞z\u{10FFFF}é";

fn read_in_chunks(variant: Utf16, chunks: &[&[u8]], room: usize) -> Result<Vec<u8>, DecodeUtf16Error> {
    let mut reader = Utf16Reader::new(variant);
    let mut all = Vec::new();
    for chunk in chunks {
        reader.feed(chunk)?;
        loop {
            let out = reader.read(room);
            if out.is_empty() {
                break;
            }
            all.extend_from_slice(&out);
        }
    }
    reader.finish()?;
    Ok(all)
}

fn write_in_chunks(variant: Utf16, chunks: &[&[u8]]) -> Result<Vec<u8>, DecodeUtf16Error> {
    let mut writer = Utf16Writer::new(variant);
    let mut all = Vec::new();
    for chunk in chunks {
        all.extend_from_slice(&writer.write(chunk)?);
    }
    all.extend_from_slice(&writer.finish()?);
    Ok(all)
}

#[test]
fn reader_whole_stream_equals_decode() {
    for variant in FORMS {
        let payload = encode_utf16(variant, SAMPLE);
        let out = read_in_chunks(variant, &[&payload], 1024).unwrap();
        assert_eq!(out, decode_utf16(variant, &payload).unwrap().into_bytes());
        assert_eq!(out, SAMPLE.as_bytes());
    }
}

#[test]
fn reader_byte_by_byte_equals_decode() {
    for variant in FORMS {
        let payload = encode_utf16(variant, SAMPLE);
        let chunks: Vec<&[u8]> = payload.chunks(1).collect();
        assert_eq!(read_in_chunks(variant, &chunks, 4).unwrap(), SAMPLE.as_bytes());
    }
}

#[test]
fn reader_every_two_way_split_equals_decode() {
    for variant in FORMS {
        let payload = encode_utf16(variant, SAMPLE);
        for at in 0..=payload.len() {
            let (a, b) = payload.split_at(at);
            assert_eq!(read_in_chunks(variant, &[a, b], 4).unwrap(), SAMPLE.as_bytes());
        }
    }
}

#[test]
fn reader_every_three_way_split_equals_decode() {
    let variant = Utf16::BeBom;
    let payload = encode_utf16(variant, "a𝄞€");
    for i in 0..=payload.len() {
        for j in i..=payload.len() {
            let chunks: [&[u8]; 3] = [&payload[..i], &payload[i..j], &payload[j..]];
            assert_eq!(read_in_chunks(variant, &chunks, 64).unwrap(), "a𝄞€".as_bytes());
        }
    }
}

#[test]
fn reader_chunks_of_every_size_equal_decode() {
    for variant in FORMS {
        let payload = encode_utf16(variant, SAMPLE);
        for size in 1..=payload.len() {
            let chunks: Vec<&[u8]> = payload.chunks(size).collect();
            assert_eq!(read_in_chunks(variant, &chunks, 5).unwrap(), SAMPLE.as_bytes());
        }
    }
}

#[test]
fn reader_empty_chunks_change_nothing() {
    let payload = encode_utf16(Utf16::LeBom, "hi");
    let chunks: [&[u8]; 5] = [&[], &payload[..3], &[], &payload[3..], &[]];
    assert_eq!(read_in_chunks(Utf16::LeBom, &chunks, 8).unwrap(), b"hi");
}

#[test]
fn reader_holds_a_high_surrogate_until_its_pair() {
    let mut reader = Utf16Reader::new(Utf16::Be);
    reader.feed(&[0x00, 0x41, 0xD8, 0x34]).unwrap();
    assert_eq!(reader.buffered(), 1);
    assert_eq!(reader.read(16), b"A");
    assert_eq!(reader.read(16), b"");
    reader.feed(&[0xDD]).unwrap();
    assert_eq!(reader.buffered(), 0);
    reader.feed(&[0x1E]).unwrap();
    assert_eq!(reader.buffered(), 4);
    assert_eq!(reader.read(16), "𝄞".as_bytes());
    assert!(reader.finish().is_ok());
}

#[test]
fn reader_holds_the_first_byte_of_a_unit() {
    let mut reader = Utf16Reader::new(Utf16::Le);
    reader.feed(&[0xAC]).unwrap();
    assert_eq!(reader.buffered(), 0);
    assert!(matches!(reader.finish(), Err(DecodeUtf16Error::BadLength)));
    reader.feed(&[0x20]).unwrap();
    assert_eq!(reader.read(16), "€".as_bytes());
    assert!(reader.finish().is_ok());
}

#[test]
fn reader_gives_out_whole_characters_that_fit() {
    let mut reader = Utf16Reader::new(Utf16::Le);
    reader.feed(&encode_utf16(Utf16::Le, "€uro")).unwrap();
    assert_eq!(reader.buffered(), 6);
    assert_eq!(reader.read(0), b"");
    assert_eq!(reader.read(1), b"");
    assert_eq!(reader.read(2), b"");
    assert_eq!(reader.buffered(), 6);
    assert_eq!(reader.read(3), "€".as_bytes());
    assert_eq!(reader.buffered(), 3);
    assert_eq!(reader.read(2), b"ur");
    assert_eq!(reader.read(100), b"o");
    assert_eq!(reader.read(100), b"");
}

#[test]
fn reader_never_cuts_a_character() {
    let mut reader = Utf16Reader::new(Utf16::Le);
    for _ in 0..3 {
        reader.feed(&[0xE9, 0x00]).unwrap();
    }
    assert_eq!(reader.buffered(), 6);
    let out = reader.read(5);
    assert_eq!(out, "éé".as_bytes());
    assert!(std::str::from_utf8(&out).is_ok());
    assert_eq!(reader.read(5), "é".as_bytes());
}

#[test]
fn reader_reads_are_utf8_for_every_room() {
    for variant in FORMS {
        let payload = encode_utf16(variant, SAMPLE);
        for room in 0..=12 {
            let mut reader = Utf16Reader::new(variant);
            reader.feed(&payload).unwrap();
            let mut text = Vec::new();
            loop {
                let out = reader.read(room);
                assert!(out.len() <= room);
                assert!(std::str::from_utf8(&out).is_ok());
                if out.is_empty() {
                    break;
                }
                text.extend_from_slice(&out);
            }
            assert!(SAMPLE.as_bytes().starts_with(&text));
            if room >= 4 {
                assert_eq!(text, SAMPLE.as_bytes());
            }
        }
    }
}

fn drive(variant: Utf16, pieces: &[&[u8]], room: usize) -> Result<Vec<u8>, DecodeUtf16Error> {
    let mut reader = Utf16Reader::new(variant);
    let mut source = pieces.iter();
    let mut text = Vec::new();
    loop {
        match reader.next_action(room) {
            ReadAction::Give(out) => {
                assert!(!out.is_empty() && out.len() <= room);
                assert!(std::str::from_utf8(&out).is_ok());
                text.extend_from_slice(&out);
            }
            ReadAction::Pull => match source.next() {
                Some(piece) if !piece.is_empty() => reader.supply(piece)?,
                Some(_) => {}
                None => reader.supply(&[])?,
            },
            ReadAction::End => return Ok(text),
            ReadAction::TooSmall => panic!("room for {room} bytes is too small"),
        }
    }
}

#[test]
fn reader_steps_give_the_text_for_every_split() {
    for variant in FORMS {
        let payload = encode_utf16(variant, SAMPLE);
        for size in 1..=payload.len() {
            let pieces: Vec<&[u8]> = payload.chunks(size).collect();
            for room in [4, 5, 7, 64] {
                assert_eq!(drive(variant, &pieces, room).unwrap(), SAMPLE.as_bytes());
            }
        }
    }
}

#[test]
fn reader_steps_fail_where_decode_fails() {
    let bad: [&[u8]; 4] =
        [&[0xFE, 0xFF, 0xD8, 0x00], &[0xFE, 0xFF, 0x00], &[0xFF, 0xFE, 0x00, 0x41], &[]];
    for payload in bad {
        for size in 1..=payload.len().max(1) {
            let pieces: Vec<&[u8]> = payload.chunks(size).collect();
            assert!(drive(Utf16::BeBom, &pieces, 8).is_err());
        }
    }
}

#[test]
fn reader_steps_in_order() {
    let mut reader = Utf16Reader::new(Utf16::Be);
    assert_eq!(reader.next_action(8), ReadAction::Pull);
    assert_eq!(reader.next_action(0), ReadAction::Give(Vec::new()));
    reader.supply(&[0x00, 0x41, 0xD8, 0x34, 0xDD]).unwrap();
    assert_eq!(reader.next_action(8), ReadAction::Give(b"A".to_vec()));
    assert_eq!(reader.next_action(8), ReadAction::Pull);
    assert!(matches!(reader.supply(&[]), Err(DecodeUtf16Error::BadLength)));
    assert_eq!(reader.next_action(8), ReadAction::Pull);
    reader.supply(&[0x1E, 0x20, 0xAC]).unwrap();
    assert_eq!(reader.next_action(3), ReadAction::TooSmall);
    assert_eq!(reader.next_action(1), ReadAction::TooSmall);
    assert_eq!(reader.buffered(), 7);
    assert_eq!(reader.next_action(6), ReadAction::Give("𝄞".as_bytes().to_vec()));
    assert_eq!(reader.next_action(2), ReadAction::TooSmall);
    assert_eq!(reader.next_action(3), ReadAction::Give("€".as_bytes().to_vec()));
    assert_eq!(reader.next_action(3), ReadAction::Pull);
    reader.supply(&[]).unwrap();
    assert_eq!(reader.next_action(3), ReadAction::End);
    assert_eq!(reader.next_action(3), ReadAction::End);
    assert_eq!(reader.next_action(0), ReadAction::Give(Vec::new()));
    reader.seek(0);
    assert_eq!(reader.next_action(3), ReadAction::Pull);
}

#[test]
fn reader_end_waits_for_what_is_ready() {
    let mut reader = Utf16Reader::new(Utf16::LeBom);
    reader.supply(&[0xFF, 0xFE, 0x41, 0x00, 0x42, 0x00]).unwrap();
    reader.supply(&[]).unwrap();
    assert_eq!(reader.next_action(1), ReadAction::Give(b"A".to_vec()));
    assert_eq!(reader.next_action(1), ReadAction::Give(b"B".to_vec()));
    assert_eq!(reader.next_action(1), ReadAction::End);
}

#[test]
fn reader_without_its_mark_gives_nothing() {
    for variant in [Utf16::LeBom, Utf16::BeBom] {
        let wrong = encode_utf16(if variant == Utf16::LeBom { Utf16::BeBom } else { Utf16::LeBom }, "A");
        let payloads: [&[u8]; 4] = [&wrong, &[0x00, 0x41, 0x00, 0x42], &[0xFF], &[]];
        for payload in payloads {
            for size in 1..=payload.len().max(1) {
                let mut reader = Utf16Reader::new(variant);
                let mut failed = false;
                for piece in payload.chunks(size) {
                    failed = failed || reader.feed(piece).is_err();
                    assert_eq!(reader.buffered(), 0);
                }
                assert!(failed || reader.finish().is_err());
            }
        }
    }
}

#[test]
fn reader_checks_the_mark_first() {
    let mut reader = Utf16Reader::new(Utf16::LeBom);
    reader.feed(&[0xFF]).unwrap();
    assert_eq!(reader.buffered(), 0);
    reader.feed(&[0xFE, 0x41, 0x00]).unwrap();
    assert_eq!(reader.read(8), b"A");
    assert!(reader.finish().is_ok());
}

#[test]
fn reader_wrong_mark_fails() {
    let mut reader = Utf16Reader::new(Utf16::LeBom);
    let err = reader.feed(&[0xFE, 0xFF, 0x00, 0x41]).unwrap_err();
    assert!(matches!(err, DecodeUtf16Error::BomMismatch));
    assert_eq!(reader.buffered(), 0);

    let mut reader = Utf16Reader::new(Utf16::BeBom);
    reader.feed(&[0xFE]).unwrap();
    let err = reader.feed(&[0xFE]).unwrap_err();
    assert_eq!(err.kind(), ErrorKind::BomMismatch);
}

#[test]
fn reader_unmarked_form_reads_a_mark_as_text() {
    let mut reader = Utf16Reader::new(Utf16::Le);
    reader.feed(&[0xFF, 0xFE, 0x41, 0x00]).unwrap();
    assert_eq!(reader.read(16), "\u{FEFF}A".as_bytes());
}

#[test]
fn reader_end_of_stream_failures() {
    let mut reader = Utf16Reader::new(Utf16::BeBom);
    assert!(matches!(reader.finish(), Err(DecodeUtf16Error::BomMismatch)));
    reader.feed(&[0xFE]).unwrap();
    assert!(matches!(reader.finish(), Err(DecodeUtf16Error::BadLength)));
    reader.feed(&[0xFF]).unwrap();
    assert!(reader.finish().is_ok());
    reader.feed(&[0xD8, 0x00]).unwrap();
    assert!(matches!(reader.finish(), Err(DecodeUtf16Error::Decode(_))));
    reader.feed(&[0xDC]).unwrap();
    assert!(matches!(reader.finish(), Err(DecodeUtf16Error::BadLength)));
    reader.feed(&[0x00]).unwrap();
    assert!(reader.finish().is_ok());
    assert_eq!(reader.read(16), "\u{10000}".as_bytes());
}

#[test]
fn reader_unpaired_surrogates_fail() {
    let mut reader = Utf16Reader::new(Utf16::Be);
    assert!(matches!(reader.feed(&[0xDC, 0x00]), Err(DecodeUtf16Error::Decode(_))));

    let mut reader = Utf16Reader::new(Utf16::Be);
    reader.feed(&[0xD8, 0x00]).unwrap();
    assert!(matches!(reader.feed(&[0x00, 0x41]), Err(DecodeUtf16Error::Decode(_))));

    let mut reader = Utf16Reader::new(Utf16::Be);
    reader.feed(&[0xD8, 0x00]).unwrap();
    assert!(matches!(reader.feed(&[0xD8, 0x00]), Err(DecodeUtf16Error::Decode(_))));
}

#[test]
fn reader_failure_takes_nothing_in() {
    let mut reader = Utf16Reader::new(Utf16::Be);
    reader.feed(&[0x00, 0x41, 0xD8]).unwrap();
    assert!(reader.feed(&[0x34, 0x00, 0x42]).is_err());
    assert_eq!(reader.buffered(), 1);
    reader.feed(&[0x34, 0xDD, 0x1E]).unwrap();
    assert_eq!(reader.read(16), "A𝄞".as_bytes());
    assert!(reader.finish().is_ok());
}

#[test]
fn reader_fails_where_decode_fails() {
    let bad: [&[u8]; 5] = [
        &[0xFE, 0xFF, 0xD8, 0x00],
        &[0xFE, 0xFF, 0x00],
        &[0xFF, 0xFE, 0x00, 0x41],
        &[0xFE, 0xFF, 0x00, 0x41, 0xDC, 0x00, 0x00, 0x42],
        &[],
    ];
    for payload in bad {
        assert!(decode_utf16(Utf16::BeBom, payload).is_err());
        for size in 1..=payload.len().max(1) {
            let chunks: Vec<&[u8]> = payload.chunks(size).collect();
            assert!(read_in_chunks(Utf16::BeBom, &chunks, 4).is_err());
        }
    }
}

#[test]
fn reader_seek_forgets_what_is_held() {
    let mut reader = Utf16Reader::new(Utf16::LeBom);
    reader.feed(&[0xFF, 0xFE, 0x41, 0x00, 0x34, 0xD8, 0x1E]).unwrap();
    assert_eq!(reader.buffered(), 1);
    reader.seek(4);
    assert_eq!(reader.buffered(), 0);
    assert!(reader.finish().is_ok());
    reader.feed(&[0x42, 0x00]).unwrap();
    assert_eq!(reader.read(8), b"B");

    reader.seek(0);
    assert!(matches!(reader.finish(), Err(DecodeUtf16Error::BomMismatch)));
    reader.feed(&[0xFF, 0xFE, 0x43, 0x00]).unwrap();
    assert_eq!(reader.read(8), b"C");

    let mut plain = Utf16Reader::new(Utf16::Be);
    plain.feed(&[0x00]).unwrap();
    plain.seek(0);
    assert!(plain.finish().is_ok());
    assert_eq!(plain.variant(), Utf16::Be);
}

#[test]
fn writer_whole_text_equals_encode() {
    for variant in FORMS {
        let out = write_in_chunks(variant, &[SAMPLE.as_bytes()]).unwrap();
        assert_eq!(out, encode_utf16(variant, SAMPLE));
    }
}

#[test]
fn writer_byte_by_byte_equals_encode() {
    for variant in FORMS {
        let chunks: Vec<&[u8]> = SAMPLE.as_bytes().chunks(1).collect();
        assert_eq!(write_in_chunks(variant, &chunks).unwrap(), encode_utf16(variant, SAMPLE));
    }
}

#[test]
fn writer_every_split_equals_encode() {
    let text = SAMPLE.as_bytes();
    for variant in FORMS {
        for i in 0..=text.len() {
            for j in i..=text.len() {
                let chunks: [&[u8]; 3] = [&text[..i], &text[i..j], &text[j..]];
                assert_eq!(write_in_chunks(variant, &chunks).unwrap(), encode_utf16(variant, SAMPLE));
            }
        }
    }
}

#[test]
fn writer_empty_text_gives_the_mark_alone() {
    assert_eq!(write_in_chunks(Utf16::Le, &[]).unwrap(), Vec::<u8>::new());
    assert_eq!(write_in_chunks(Utf16::LeBom, &[]).unwrap(), vec![0xFF, 0xFE]);
    assert_eq!(write_in_chunks(Utf16::BeBom, &[&[], &[]]).unwrap(), vec![0xFE, 0xFF]);
    assert_eq!(write_in_chunks(Utf16::Be, &[&[]]).unwrap(), Vec::<u8>::new());
}

#[test]
fn writer_gives_the_mark_once() {
    let mut writer = Utf16Writer::new(Utf16::BeBom);
    assert_eq!(writer.write(b"A").unwrap(), vec![0xFE, 0xFF, 0x00, 0x41]);
    assert_eq!(writer.write(b"B").unwrap(), vec![0x00, 0x42]);
    assert_eq!(writer.finish().unwrap(), Vec::<u8>::new());
    assert_eq!(writer.finish().unwrap(), Vec::<u8>::new());

    let mut writer = Utf16Writer::new(Utf16::LeBom);
    assert_eq!(writer.write(&[]).unwrap(), vec![0xFF, 0xFE]);
    assert_eq!(writer.write(b"A").unwrap(), vec![0x41, 0x00]);
}

#[test]
fn writer_holds_an_unfinished_sequence() {
    let euro = "€".as_bytes();
    let mut writer = Utf16Writer::new(Utf16::Le);
    assert_eq!(writer.write(&[b'A', euro[0]]).unwrap(), vec![0x41, 0x00]);
    assert_eq!(writer.pending(), 1);
    assert_eq!(writer.write(&euro[1..2]).unwrap(), Vec::<u8>::new());
    assert_eq!(writer.pending(), 2);
    assert_eq!(writer.write(&euro[2..]).unwrap(), vec![0xAC, 0x20]);
    assert_eq!(writer.pending(), 0);
    assert_eq!(writer.finish().unwrap(), Vec::<u8>::new());
}

#[test]
fn writer_holds_up_to_three_bytes() {
    let clef = "𝄞".as_bytes();
    let mut writer = Utf16Writer::new(Utf16::Be);
    assert_eq!(writer.write(&clef[..3]).unwrap(), Vec::<u8>::new());
    assert_eq!(writer.pending(), 3);
    assert_eq!(writer.write(&clef[3..]).unwrap(), vec![0xD8, 0x34, 0xDD, 0x1E]);
    assert_eq!(writer.pending(), 0);
}

#[test]
fn writer_unfinished_text_fails_at_the_end() {
    let mut writer = Utf16Writer::new(Utf16::LeBom);
    writer.write(&"é".as_bytes()[..1]).unwrap();
    let err = writer.finish().unwrap_err();
    assert!(matches!(err, DecodeUtf16Error::IncompleteTrailingSequence));
    assert_eq!(err.kind(), ErrorKind::IncompleteTrailingSequence);
    assert_eq!(writer.pending(), 1);
    assert_eq!(writer.write(&"é".as_bytes()[1..]).unwrap(), vec![0xE9, 0x00]);
    assert!(writer.finish().is_ok());
}

#[test]
fn writer_refuses_what_is_no_utf8() {
    let bad: [&[u8]; 6] = [
        &[0x80],
        &[0xFF],
        &[b'a', 0xC3, b'b'],
        &[0xC0, 0x80],
        &[0xED, 0xA0, 0x80],
        &[0xF4, 0x90, 0x80, 0x80],
    ];
    for bytes in bad {
        let mut writer = Utf16Writer::new(Utf16::Le);
        let err = writer.write(bytes).unwrap_err();
        assert!(matches!(err, DecodeUtf16Error::InvalidUtf8));
        assert_eq!(err.kind(), ErrorKind::InvalidUtf8);
        assert_eq!(writer.pending(), 0);
    }
}

#[test]
fn writer_fails_on_every_split_of_what_is_no_utf8() {
    let bad: [&[u8]; 4] = [&[b'a', 0xE2, 0x82], &[0xE2, 0x82, b'a'], &[0xF0, 0x9D, 0x84], &[0xC3]];
    for bytes in bad {
        assert!(std::str::from_utf8(bytes).is_err());
        for at in 0..=bytes.len() {
            let (a, b) = bytes.split_at(at);
            assert!(write_in_chunks(Utf16::BeBom, &[a, b]).is_err());
        }
    }
}

#[test]
fn writer_failure_takes_nothing_in() {
    let mut writer = Utf16Writer::new(Utf16::BeBom);
    writer.write(&"€".as_bytes()[..2]).unwrap();
    assert!(writer.write(b"x").is_err());
    assert_eq!(writer.pending(), 2);
    assert_eq!(writer.write(&"€".as_bytes()[2..]).unwrap(), vec![0x20, 0xAC]);
}

#[test]
fn writer_seek_forgets_what_is_held() {
    let mut writer = Utf16Writer::new(Utf16::LeBom);
    writer.write(&[b'A', 0xE2]).unwrap();
    assert_eq!(writer.pending(), 1);
    writer.seek(6);
    assert_eq!(writer.pending(), 0);
    assert_eq!(writer.write(b"B").unwrap(), vec![0x42, 0x00]);
    writer.seek(0);
    assert_eq!(writer.write(b"C").unwrap(), vec![0xFF, 0xFE, 0x43, 0x00]);
    assert_eq!(writer.variant(), Utf16::LeBom);

    let mut fresh = Utf16Writer::new(Utf16::BeBom);
    fresh.seek(10);
    assert_eq!(fresh.write(b"A").unwrap(), vec![0x00, 0x41]);
    assert_eq!(fresh.finish().unwrap(), Vec::<u8>::new());
}

#[test]
fn writer_then_reader_gives_the_text_back() {
    for variant in FORMS {
        let mut writer = Utf16Writer::new(variant);
        let mut reader = Utf16Reader::new(variant);
        let mut text = Vec::new();
        for chunk in SAMPLE.as_bytes().chunks(3) {
            for piece in writer.write(chunk).unwrap().chunks(5) {
                reader.feed(piece).unwrap();
                text.extend_from_slice(&reader.read(7));
            }
        }
        reader.feed(&writer.finish().unwrap()).unwrap();
        reader.finish().unwrap();
        while reader.buffered() > 0 {
            text.extend_from_slice(&reader.read(4));
        }
        assert_eq!(text, SAMPLE.as_bytes());
    }
}

#[test]
fn reader_gives_whole_characters_after_every_piece() {
    for variant in FORMS {
        let payload = encode_utf16(variant, SAMPLE);
        for size in 1..=5 {
            let mut reader = Utf16Reader::new(variant);
            let mut text = String::new();
            for piece in payload.chunks(size) {
                reader.feed(piece).unwrap();
                let out = reader.read(reader.buffered());
                text.push_str(std::str::from_utf8(&out).unwrap());
            }
            reader.finish().unwrap();
            assert_eq!(text, SAMPLE);
        }
    }
}

#[test]
fn items_at_the_crate_root() {
    let bytes = utf16_ext::encode_utf16(utf16_ext::Utf16::Be, "A");
    assert_eq!(bytes, vec![0x00, 0x41]);
    assert_eq!(utf16_ext::decode_utf16(utf16_ext::Utf16::Be, &bytes).unwrap(), "A");
    let mut writer = utf16_ext::Utf16Writer::new(utf16_ext::Utf16::from(utf16_ext::Utf16LeBom));
    assert_eq!(writer.write(b"A").unwrap(), vec![0xFF, 0xFE, 0x41, 0x00]);
    let mut reader = utf16_ext::Utf16Reader::new(utf16_ext::Utf16BeBom.into());
    assert!(matches!(
        reader.feed(&[0xFF, 0xFE]),
        Err(utf16_ext::DecodeUtf16Error::BomMismatch)
    ));
}
