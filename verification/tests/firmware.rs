use pixdr::firmware::{read_firmware, Ending, FirmwareLoad, LineFault, LoadAction};
use pixdr::ihex::{ihex_record_aligns, parse_ihex_line, IhexError};

fn record(bytes: &[u8]) -> String {
    let sum = bytes.iter().fold(0u8, |acc, b| acc.wrapping_add(*b));
    let mut text = String::from(":");
    for b in bytes.iter().chain([sum.wrapping_neg()].iter()) {
        text.push_str(&format!("{b:02X}"));
    }
    text
}

#[test]
fn records_are_parsed() {
    assert_eq!(parse_ihex_line(":00000001FF"), Ok(vec![0, 0, 0, 1, 0xff]));
    assert_eq!(parse_ihex_line(":00000001ff"), Ok(vec![0, 0, 0, 1, 0xff]));
    assert_eq!(parse_ihex_line(":"), Ok(vec![]));
    assert_eq!(parse_ihex_line(":+0+0"), Ok(vec![0, 0]));
}

#[test]
fn bad_records_are_refused() {
    assert_eq!(parse_ihex_line("00000001FF"), Err("missing ':'".to_string()));
    assert_eq!(parse_ihex_line(""), Err("missing ':'".to_string()));
    assert_eq!(parse_ihex_line(":000"), Err("odd number of hex digits".to_string()));
    assert_eq!(
        parse_ihex_line(":0g"),
        Err("invalid hex byte: invalid digit found in string".to_string())
    );
    assert_eq!(
        parse_ihex_line(":\u{e9}"),
        Err("invalid hex byte: invalid digit found in string".to_string())
    );
    assert_eq!(parse_ihex_line(":00000001FE"), Err("checksum mismatch".to_string()));
}

#[test]
fn written_record_reads_back() {
    let bytes = [4, 0x12, 0x34, 0, 1, 2, 3, 4];
    let mut whole = bytes.to_vec();
    whole.push(bytes.iter().fold(0u8, |acc, b| acc.wrapping_add(*b)).wrapping_neg());
    assert_eq!(parse_ihex_line(&record(&bytes)), Ok(whole));
}

#[test]
fn pairs_may_not_split_characters() {
    let aligns = |text: &str| ihex_record_aligns(&text.chars().collect::<Vec<char>>());
    assert!(aligns(":0011"));
    assert!(aligns(":\u{e9}"));
    assert!(!aligns(":0\u{e9}0"));
    assert!(!aligns(":\u{20ac}0"));
    assert!(aligns(":0\u{e9}"));
    assert!(aligns("\u{20ac}"));
    assert!(aligns(":zz\u{20ac}0"));
}

#[test]
fn an_image_becomes_transfers() {
    let text = format!(
        "{}\r\n\n  {}\n{}\n{}\n{}\n{}\n{}\nnot a record\n",
        record(&[2, 0, 0, 4, 0x40, 0x01]),
        record(&[3, 0x10, 0x20, 0, 7, 8, 9]),
        record(&[2, 0, 0, 2, 0x12, 0x34]),
        record(&[1, 0x00, 0x05, 0, 0xaa]),
        record(&[0, 0, 0, 3]),
        record(&[4, 0, 0, 5, 0x40, 0x01, 0x12, 0x34]),
        record(&[0, 0, 0, 1]),
    );
    let image = read_firmware(&text);
    assert_eq!(image.ending, Ending::Complete);
    assert_eq!(image.records, 2);
    let sent: Vec<(u32, Vec<u8>)> =
        image.transfers.iter().map(|t| (t.address, t.data.clone())).collect();
    assert_eq!(
        sent,
        vec![
            (0x4001_1020, vec![7, 8, 9]),
            (0x0001_2345, vec![0xaa]),
            (0x4001_1234, vec![]),
        ]
    );
    assert_eq!(image.transfers[0].value(), 0x1020);
    assert_eq!(image.transfers[0].index(), 0x4001);
}

#[test]
fn faults_name_their_line() {
    let fault = |text: &str| read_firmware(text).ending;
    let good = record(&[0, 0, 0, 0]);
    assert_eq!(
        fault(&format!("{good}\n\nnonsense")),
        Ending::Fault(3, LineFault::NoRecord(IhexError::MissingColon))
    );
    assert_eq!(
        fault(":0"),
        Ending::Fault(1, LineFault::NoRecord(IhexError::OddDigits))
    );
    assert_eq!(
        fault(":xx"),
        Ending::Fault(1, LineFault::NoRecord(IhexError::InvalidByte))
    );
    assert_eq!(
        fault(":01"),
        Ending::Fault(1, LineFault::NoRecord(IhexError::Checksum))
    );
    assert_eq!(fault(&record(&[0, 0, 0])), Ending::Fault(1, LineFault::TooShort));
    assert_eq!(fault(&record(&[9, 0, 0, 0])), Ending::Fault(1, LineFault::LengthMismatch));
    assert_eq!(fault(&record(&[1, 0, 0, 2, 0])), Ending::Fault(1, LineFault::SegmentAddress));
    assert_eq!(fault(&record(&[1, 0, 0, 4, 0])), Ending::Fault(1, LineFault::LinearAddress));
    assert_eq!(fault(&record(&[1, 0, 0, 5, 0])), Ending::Fault(1, LineFault::StartAddress));
    assert_eq!(fault(":0\u{e9}0"), Ending::Fault(1, LineFault::SplitCharacter));
    assert_eq!(fault(""), Ending::Complete);
}

#[test]
fn loading_goes_through_the_transfers() {
    let text = format!("{}\n{}\n", record(&[1, 0, 0, 0, 5]), record(&[4, 0, 0, 5, 0, 0, 0, 1]));
    let mut load = FirmwareLoad::new(read_firmware(&text));
    assert_eq!(load.next(), LoadAction::Send(0));
    load.reply(1);
    assert_eq!(load.next(), LoadAction::Send(1));
    load.reply(0);
    assert_eq!(load.next(), LoadAction::Done(true));
    let mut refused = FirmwareLoad::new(read_firmware(&text));
    refused.reply(-1);
    assert_eq!(refused.next(), LoadAction::Fail);
}

#[test]
fn loading_fails_after_a_fault() {
    let text = format!("{}\nbad\n", record(&[1, 0, 0, 0, 5]));
    let mut load = FirmwareLoad::new(read_firmware(&text));
    assert_eq!(load.next(), LoadAction::Send(0));
    load.reply(1);
    assert_eq!(load.next(), LoadAction::Fail);
    assert_eq!(FirmwareLoad::new(read_firmware("")).next(), LoadAction::Done(false));
}
