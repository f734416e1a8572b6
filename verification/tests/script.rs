use dr2::encoding::{decode_utf16, decode_utf16_le, encode_utf16};
use dr2::pak::{Entry, Pak};
use dr2::script::{Instruction, Instructions, Script};
use dr2::Error;

#[test]
fn utf16_wire_round_trip() {
    let bytes = encode_utf16("hi").unwrap();
    assert_eq!(bytes, vec![0xff, 0xfe, 0x68, 0x00, 0x69, 0x00, 0x00, 0x00]);
    assert_eq!(decode_utf16(&bytes).unwrap(), "hi".to_string());
    assert_eq!(decode_utf16_le(&bytes), Some("hi".to_string()));
}

#[test]
fn utf16_errors() {
    // missing byte-order mark
    assert!(matches!(decode_utf16(&[0x68, 0x00, 0x00, 0x00]), Err(Error::InvalidUtf16)));
    // missing zero terminator
    assert!(matches!(decode_utf16(&[0xff, 0xfe, 0x68, 0x00]), Err(Error::InvalidUtf16)));
    // an unpaired surrogate is not valid UTF-16
    assert!(matches!(
        decode_utf16(&[0xff, 0xfe, 0x00, 0xd8, 0x00, 0x00]),
        Err(Error::InvalidUtf16)
    ));
    // without a terminator the tolerant decoder takes all units
    assert_eq!(decode_utf16_le(&[0xff, 0xfe, 0x68, 0x00]), Some("h".to_string()));
    assert_eq!(decode_utf16_le(&[0x68, 0x00]), None);
}

#[test]
fn instruction_stream_decodes() {
    let data = [0x70u8, 0x00, 0x05, 0x00, 0x70, 0x1a, 0x70, 0x1c, 0x42];
    let mut it = Instructions::decode(&data);
    assert!(matches!(it.next(), Some(Instruction::TextCount(5))));
    assert!(matches!(it.next(), Some(Instruction::Stop)));
    assert!(matches!(it.next(), Some(Instruction::Return)));
    match it.next() {
        Some(Instruction::Raw(v)) => assert_eq!(v, vec![0x42]),
        _ => panic!("expected a raw instruction"),
    }
    assert!(it.next().is_none());
}

#[test]
fn text_index_is_big_endian() {
    let data = [0x70u8, 0x02, 0x01, 0x02];
    let (instr, size) = Instruction::read(&data).unwrap();
    assert_eq!(size, 4);
    assert!(matches!(instr, Instruction::Text(0x0102)));
}

#[test]
fn script_decode_and_decompile() {
    // the strings container: one UTF-16 entry "hi"
    let strings_pak = Pak {
        entries: vec![Entry::Utf16String("hi".to_string())],
    };
    let strings_bytes = strings_pak.repack().unwrap();

    // the instruction stream: text_count 1, text 0, stop
    let instr_bytes = vec![0x70u8, 0x00, 0x01, 0x00, 0x70, 0x02, 0x00, 0x00, 0x70, 0x1a];

    let payload = Pak {
        entries: vec![Entry::RawData(instr_bytes), Entry::RawData(strings_bytes)],
    }
    .repack()
    .unwrap();

    let script = Script::decode(&payload).unwrap();
    assert_eq!(script.strings, vec!["hi".to_string()]);
    assert_eq!(script.instructions.len(), 3);

    let text = script.decompile();
    assert_eq!(text, "text_count 1\ntext `\nhi`\nstop\n");
}

#[test]
fn script_decode_rejects_wrong_shape() {
    // three entries are not a script payload
    let payload = Pak {
        entries: vec![
            Entry::RawData(vec![0x70, 0x1a]),
            Entry::RawData(vec![0x70, 0x1a]),
            Entry::RawData(vec![0x70, 0x1a]),
        ],
    }
    .repack()
    .unwrap();
    assert!(Script::decode(&payload).is_none());
    assert!(Script::decode(b"xx").is_none());
}

#[test]
fn raw_decompiles_as_hex_list() {
    let script = Script { instructions: vec![Instruction::Raw(vec![0x0a, 0xff, 0x00])], strings: vec![] };
    assert_eq!(script.decompile(), "raw 0x0a, 0xff, 0x00\n");
}
