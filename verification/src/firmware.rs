//! Loading firmware into the boot loader of the USB controller.

use crate::ihex::{
    byte_sum, hex_digits, hex_digits_are_digits, ihex_record_aligns, parse_ihex_record,
    record_aligns, record_of, written_record_reads_back, IhexError,
};
use crate::text::{
    bare_text_is_not_trimmed, chars_of, is_white, only_white_space_is_trimmed, trim, trimmed,
    trimmed_has_no_white_ends,
};
use vstd::prelude::*;
use vstd::slice::{slice_subrange, slice_to_vec};

verus! {

/// A vendor request that writes `data` at `address`; without data it makes the
/// controller jump there.
pub struct Transfer {
    pub address: u32,
    pub data: Vec<u8>,
}

/// Model of [`Transfer`].
pub struct TransferView {
    pub address: u32,
    pub data: Seq<u8>,
}

impl View for Transfer {
    type V = TransferView;

    open spec fn view(&self) -> TransferView {
        TransferView { address: self.address, data: self.data@ }
    }
}

/// The models of transfers.
pub open spec fn transfer_views(transfers: Seq<Transfer>) -> Seq<TransferView> {
    transfers.map_values(|t: Transfer| t@)
}

/// Type of the vendor request that carries a transfer.
pub const TRANSFER_REQUEST_TYPE: i32 = 0x40;

/// The vendor request that carries a transfer.
pub const TRANSFER_REQUEST: i32 = 0xa0;

impl Transfer {
    /// The value of the request: the lower half of the address.
    pub fn value(&self) -> (v: i32)
        ensures
            v == self.address % 0x10000,
    {
        let address: u32 = self.address;
        assert(address & 0xffff == address % 0x10000) by (bit_vector);
        (address & 0xffff) as i32
    }

    /// The index of the request: the upper half of the address.
    pub fn index(&self) -> (v: i32)
        ensures
            v == self.address / 0x10000,
    {
        let address: u32 = self.address;
        assert((address >> 16) & 0xffff == address / 0x10000) by (bit_vector);
        ((address >> 16) & 0xffff) as i32
    }
}

/// What is wrong with a line of a firmware image.
#[derive(Clone, Copy, PartialEq, Eq, Structural, Debug)]
pub enum LineFault {
    /// It is no record.
    NoRecord(IhexError),
    /// The record has no room for its header.
    TooShort,
    /// The record is shorter than it says.
    LengthMismatch,
    /// An extended segment address that does not have two bytes.
    SegmentAddress,
    /// An extended linear address that does not have two bytes.
    LinearAddress,
    /// A start address that does not have four bytes.
    StartAddress,
    /// A pair of digits ends in the middle of a character.
    SplitCharacter,
}

/// What a line of a firmware image asks for.
pub enum LineEffect {
    /// Nothing.
    Nothing,
    /// The image ends here.
    End,
    /// Addresses count from here on.
    Base(u32),
    /// Data to be written.
    Write(u32, Seq<u8>),
    /// An address to jump to.
    Jump(u32),
    /// The line cannot be followed.
    Fault(LineFault),
}

/// A big-endian number of two bytes.
pub open spec fn big_endian_2(a: u8, b: u8) -> int {
    256 * a + b
}

/// A big-endian number of four bytes.
pub open spec fn big_endian_4(a: u8, b: u8, c: u8, d: u8) -> int {
    65536 * big_endian_2(a, b) + big_endian_2(c, d)
}

/// What a record asks for when addresses count from `base`: its bytes are a
/// length, an address, a type, data and a checksum.
pub open spec fn record_effect(bytes: Seq<u8>, base: int) -> LineEffect {
    let len = bytes[0] as int;
    let data = bytes.subrange(4, 4 + len);
    if bytes.len() < 5 {
        LineEffect::Fault(LineFault::TooShort)
    } else if bytes.len() < 5 + len {
        LineEffect::Fault(LineFault::LengthMismatch)
    } else if bytes[3] == 0 {
        LineEffect::Write((base + big_endian_2(bytes[1], bytes[2])) as u32, data)
    } else if bytes[3] == 1 {
        LineEffect::End
    } else if bytes[3] == 2 {
        if len != 2 {
            LineEffect::Fault(LineFault::SegmentAddress)
        } else {
            LineEffect::Base((16 * big_endian_2(data[0], data[1])) as u32)
        }
    } else if bytes[3] == 4 {
        if len != 2 {
            LineEffect::Fault(LineFault::LinearAddress)
        } else {
            LineEffect::Base((65536 * big_endian_2(data[0], data[1])) as u32)
        }
    } else if bytes[3] == 5 {
        if len != 4 {
            LineEffect::Fault(LineFault::StartAddress)
        } else {
            LineEffect::Jump(big_endian_4(data[0], data[1], data[2], data[3]) as u32)
        }
    } else {
        LineEffect::Nothing
    }
}

/// What a line asks for; a blank line asks for nothing.
pub open spec fn line_effect(line: Seq<char>, base: int) -> LineEffect {
    let text = trimmed(line);
    if text.len() == 0 {
        LineEffect::Nothing
    } else if !record_aligns(text) {
        LineEffect::Fault(LineFault::SplitCharacter)
    } else {
        match record_of(text) {
            Err(e) => LineEffect::Fault(LineFault::NoRecord(e)),
            Ok(bytes) => record_effect(bytes, base),
        }
    }
}

/// How the reading of an image ends.
#[derive(Clone, Copy, PartialEq, Eq, Structural, Debug)]
pub enum Ending {
    /// At its end, or at a record that says so.
    Complete,
    /// At a line, counted from one, that cannot be followed.
    Fault(usize, LineFault),
}

/// The state of the reading of an image.
pub struct ImageView {
    /// Where addresses count from.
    pub base: u32,
    /// What is to be sent.
    pub transfers: Seq<TransferView>,
    /// How many of the transfers write data.
    pub records: int,
    /// How the reading ended, if it has.
    pub ending: Option<Ending>,
}

/// The state after line `number`.
pub open spec fn image_step(image: ImageView, line: Seq<char>, number: int) -> ImageView {
    if image.ending is Some {
        image
    } else {
        match line_effect(line, image.base as int) {
            LineEffect::Nothing => image,
            LineEffect::End => ImageView { ending: Some(Ending::Complete), ..image },
            LineEffect::Base(base) => ImageView { base, ..image },
            LineEffect::Write(address, data) => ImageView {
                transfers: image.transfers.push(TransferView { address, data }),
                records: image.records + 1,
                ..image
            },
            LineEffect::Jump(address) => ImageView {
                transfers: image.transfers.push(TransferView { address, data: seq![] }),
                ..image
            },
            LineEffect::Fault(fault) => ImageView {
                ending: Some(Ending::Fault(number as usize, fault)),
                ..image
            },
        }
    }
}

/// Where the first line of a text ends: at its first line feed, or at its end.
pub open spec fn line_end(text: Seq<char>) -> int
    decreases text.len(),
{
    if text.len() == 0 || text[0] == '\n' {
        0
    } else {
        1 + line_end(text.drop_first())
    }
}

/// The lines of a text. A line feed at the end leaves a blank line after it.
pub open spec fn lines_of(text: Seq<char>) -> Seq<Seq<char>>
    decreases text.len(),
    via lines_of_decreases
{
    let end = line_end(text);
    if end >= text.len() {
        seq![text]
    } else {
        seq![text.take(end)] + lines_of(text.skip(end + 1))
    }
}

#[via_fn]
proof fn lines_of_decreases(text: Seq<char>) {
    line_end_bounds(text);
}

proof fn line_end_bounds(text: Seq<char>)
    ensures
        0 <= line_end(text) <= text.len(),
        line_end(text) < text.len() ==> text[line_end(text)] == '\n',
    decreases text.len(),
{
    if text.len() > 0 && text[0] != '\n' {
        line_end_bounds(text.drop_first());
    }
}

/// The state after the first `n` lines.
pub open spec fn image_after(lines: Seq<Seq<char>>, n: nat) -> ImageView
    decreases n,
{
    if n == 0 {
        ImageView { base: 0, transfers: seq![], records: 0, ending: None }
    } else {
        image_step(image_after(lines, (n - 1) as nat), lines[n - 1], n as int)
    }
}

/// What an image asks for.
pub open spec fn image_of(text: Seq<char>) -> ImageView {
    let read = image_after(lines_of(text), lines_of(text).len());
    ImageView {
        ending: match read.ending {
            Some(ending) => Some(ending),
            None => Some(Ending::Complete),
        },
        ..read
    }
}

/// What an image asks for: transfers in order, up to its end or to the first
/// line that cannot be followed.
pub struct FirmwareImage {
    pub transfers: Vec<Transfer>,
    pub records: usize,
    pub ending: Ending,
}

struct ImageReader {
    base: u32,
    transfers: Vec<Transfer>,
    records: usize,
    ending: Option<Ending>,
}

impl View for ImageReader {
    type V = ImageView;

    closed spec fn view(&self) -> ImageView {
        ImageView {
            base: self.base,
            transfers: transfer_views(self.transfers@),
            records: self.records as int,
            ending: self.ending,
        }
    }
}

fn join_2(a: u8, b: u8) -> (v: u32)
    ensures
        v == big_endian_2(a, b),
        v < 65536,
{
    256 * a as u32 + b as u32
}

impl ImageReader {
    /// Whether addresses that count from the base stay in range, and no
    /// transfer is longer than a record can make it.
    spec fn sound(self) -> bool {
        &&& self.base <= 0xffff_0000
        &&& forall|i: int|
            0 <= i < self.transfers@.len() ==> (#[trigger] self.transfers@[i]).data@.len() <= 255
    }

    fn send(&mut self, address: u32, data: Vec<u8>)
        requires
            old(self).sound(),
            data@.len() <= 255,
        ensures
            final(self).sound(),
            final(self)@ == (ImageView {
                transfers: old(self)@.transfers.push(TransferView { address, data: data@ }),
                ..old(self)@
            }),
    {
        let ghost before = self.transfers@;
        let transfer = Transfer { address, data };
        let ghost view = transfer@;
        self.transfers.push(transfer);
        assert(transfer_views(self.transfers@) =~= transfer_views(before).push(view));
    }

    fn follow_record(&mut self, bytes: &[u8], number: usize)
        requires
            old(self).ending is None,
            old(self).sound(),
            old(self).records < usize::MAX,
        ensures
            final(self).sound(),
            final(self).records <= old(self).records + 1,
            final(self)@ == match record_effect(bytes@, old(self).base as int) {
                LineEffect::Nothing => old(self)@,
                LineEffect::End => ImageView { ending: Some(Ending::Complete), ..old(self)@ },
                LineEffect::Base(base) => ImageView { base, ..old(self)@ },
                LineEffect::Write(address, data) => ImageView {
                    transfers: old(self)@.transfers.push(TransferView { address, data }),
                    records: old(self)@.records + 1,
                    ..old(self)@
                },
                LineEffect::Jump(address) => ImageView {
                    transfers: old(self)@.transfers.push(TransferView { address, data: seq![] }),
                    ..old(self)@
                },
                LineEffect::Fault(fault) => ImageView {
                    ending: Some(Ending::Fault(number, fault)),
                    ..old(self)@
                },
            },
    {
        if bytes.len() < 5 {
            self.ending = Some(Ending::Fault(number, LineFault::TooShort));
            return;
        }
        let len: usize = bytes[0] as usize;
        if bytes.len() < 5 + len {
            self.ending = Some(Ending::Fault(number, LineFault::LengthMismatch));
            return;
        }
        let data = slice_subrange(bytes, 4, 4 + len);
        match bytes[3] {
            0 => {
                let address: u32 = self.base + join_2(bytes[1], bytes[2]);
                let payload = slice_to_vec(data);
                assert(payload@ =~= bytes@.subrange(4, 4 + len));
                self.send(address, payload);
                self.records = self.records + 1;
            },
            1 => {
                self.ending = Some(Ending::Complete);
            },
            2 => {
                if len != 2 {
                    self.ending = Some(Ending::Fault(number, LineFault::SegmentAddress));
                } else {
                    self.base = 16 * join_2(data[0], data[1]);
                }
            },
            4 => {
                if len != 2 {
                    self.ending = Some(Ending::Fault(number, LineFault::LinearAddress));
                } else {
                    self.base = 65536 * join_2(data[0], data[1]);
                }
            },
            5 => {
                if len != 4 {
                    self.ending = Some(Ending::Fault(number, LineFault::StartAddress));
                } else {
                    let address: u32 = 65536 * join_2(data[0], data[1]) + join_2(data[2], data[3]);
                    let payload: Vec<u8> = Vec::new();
                    assert(payload@ =~= seq![]);
                    self.send(address, payload);
                }
            },
            _ => {},
        }
    }

    fn follow_line(&mut self, line: &[char], number: usize)
        requires
            old(self).sound(),
            old(self).records < usize::MAX,
        ensures
            final(self).sound(),
            final(self).records <= old(self).records + 1,
            final(self)@ == image_step(old(self)@, line@, number as int),
    {
        if self.ending.is_some() {
            return;
        }
        let text = trim(line);
        if text.len() == 0 {
            return;
        }
        if !ihex_record_aligns(text.as_slice()) {
            self.ending = Some(Ending::Fault(number, LineFault::SplitCharacter));
            return;
        }
        match parse_ihex_record(text.as_slice()) {
            Err(e) => {
                self.ending = Some(Ending::Fault(number, LineFault::NoRecord(e)));
            },
            Ok(bytes) => {
                self.follow_record(bytes.as_slice(), number);
            },
        }
    }
}

proof fn line_end_at(text: Seq<char>, end: int)
    requires
        0 <= end <= text.len(),
        end < text.len() ==> text[end] == '\n',
        forall|i: int| 0 <= i < end ==> text[i] != '\n',
    ensures
        line_end(text) == end,
    decreases end,
{
    if end > 0 {
        let rest = text.drop_first();
        assert forall|i: int| 0 <= i < end - 1 implies rest[i] != '\n' by {
            assert(rest[i] == text[i + 1]);
        }
        line_end_at(rest, end - 1);
    }
}

/// Reads a firmware image.
pub fn read_firmware(text: &str) -> (image: FirmwareImage)
    requires
        text@.len() < usize::MAX,
    ensures
        transfer_views(image.transfers@) == image_of(text@).transfers,
        image.records == image_of(text@).records,
        Some(image.ending) == image_of(text@).ending,
        forall|i: int|
            0 <= i < image.transfers@.len() ==> (#[trigger] image.transfers@[i]).data@.len()
                <= 255,
{
    let chars = chars_of(text);
    let ghost whole = chars@;
    let ghost lines = lines_of(whole);
    let mut reader = ImageReader { base: 0, transfers: Vec::new(), records: 0, ending: None };
    assert(reader@.transfers =~= seq![]);
    let mut from: usize = 0;
    let mut number: usize = 0;
    let mut more = true;
    assert(whole.skip(0) =~= whole);
    assert(lines.skip(0) =~= lines);
    while more
        invariant
            whole == chars@,
            whole.len() < usize::MAX,
            lines == lines_of(whole),
            from <= whole.len() + 1,
            number <= from,
            number <= lines.len(),
            more ==> from <= whole.len() && lines.skip(number as int) == lines_of(
                whole.skip(from as int),
            ),
            !more ==> number == lines.len(),
            reader.sound(),
            reader.records <= number,
            reader@ == image_after(lines, number as nat),
        decreases whole.len() + 1 - from + if more { 1int } else { 0int },
    {
        let ghost rest = whole.skip(from as int);
        let mut end: usize = from;
        while end < chars.len() && chars[end] != '\n'
            invariant
                whole == chars@,
                from <= end <= whole.len(),
                forall|i: int| from <= i < end ==> whole[i] != '\n',
            decreases whole.len() - end,
        {
            end = end + 1;
        }
        proof {
            line_end_at(rest, end - from);
        }
        let line = slice_subrange(chars.as_slice(), from, end);
        assert(lines_of(rest).len() > 0);
        assert(lines.skip(number as int)[0] == lines[number as int]);
        assert(line@ =~= lines[number as int]) by {
            if end == whole.len() {
                assert(line@ =~= rest);
            } else {
                assert(line@ =~= rest.take(end - from));
            }
        }
        reader.follow_line(line, number + 1);
        if end == chars.len() {
            more = false;
            assert(lines.skip(number as int).len() == 1);
        } else {
            assert(lines.skip(number + 1) =~= lines_of(rest.skip(end - from + 1))) by {
                assert(lines.skip(number + 1) =~= lines.skip(number as int).skip(1));
            }
            assert(rest.skip(end - from + 1) =~= whole.skip(end + 1));
            assert(lines.len() > number);
        }
        from = end + 1;
        number = number + 1;
    }
    let ending = match reader.ending {
        Some(ending) => ending,
        None => Ending::Complete,
    };
    FirmwareImage { transfers: reader.transfers, records: reader.records, ending }
}

/// What is to be done next when an image is loaded.
#[derive(Clone, Copy, PartialEq, Eq, Structural, Debug)]
pub enum LoadAction {
    /// The transfer with this index is to be sent.
    Send(usize),
    /// Loading failed.
    Fail,
    /// Loading is over; it counts if something was written.
    Done(bool),
}

/// The loading of an image, one transfer after the other.
pub struct FirmwareLoad {
    pub image: FirmwareImage,
    /// How many transfers were accepted.
    pub sent: usize,
    /// Whether one was not.
    pub refused: bool,
}

impl FirmwareLoad {
    /// Begins to load an image.
    pub fn new(image: FirmwareImage) -> (load: Self)
        ensures
            load.image == image,
            load.sent == 0,
            !load.refused,
    {
        FirmwareLoad { image, sent: 0, refused: false }
    }

    /// What is to be done next.
    pub open spec fn action(self) -> LoadAction {
        if self.refused {
            LoadAction::Fail
        } else if self.sent < self.image.transfers@.len() {
            LoadAction::Send(self.sent)
        } else if self.image.ending == Ending::Complete {
            LoadAction::Done(self.image.records > 0)
        } else {
            LoadAction::Fail
        }
    }

    /// Tells what is to be done next: send what was not sent yet, then fail
    /// where the image has a fault.
    pub fn next(&self) -> (action: LoadAction)
        ensures
            action == self.action(),
    {
        if self.refused {
            LoadAction::Fail
        } else if self.sent < self.image.transfers.len() {
            LoadAction::Send(self.sent)
        } else {
            match self.image.ending {
                Ending::Complete => LoadAction::Done(self.image.records > 0),
                Ending::Fault(_, _) => LoadAction::Fail,
            }
        }
    }

    /// Takes the reply to the transfer that was to be sent: it was accepted
    /// where the reply is its length.
    pub fn reply(&mut self, reply: i32)
        requires
            old(self).action() is Send,
            old(self).image.transfers@[old(self).sent as int].data@.len() <= i32::MAX,
        ensures
            final(self).image == old(self).image,
            if reply == old(self).image.transfers@[old(self).sent as int].data@.len() {
                final(self).sent == old(self).sent + 1 && !final(self).refused
            } else {
                final(self).sent == old(self).sent && final(self).refused
            },
    {
        let len: usize = self.image.transfers[self.sent].data.len();
        if reply == len as i32 {
            assert(self.sent < self.image.transfers.len());
            self.sent = self.sent + 1;
        } else {
            self.refused = true;
        }
    }
}

/// Lines joined by line feeds.
pub open spec fn joined(lines: Seq<Seq<char>>) -> Seq<char>
    decreases lines.len(),
{
    if lines.len() == 0 {
        seq![]
    } else if lines.len() == 1 {
        lines[0]
    } else {
        lines[0] + seq!['\n'] + joined(lines.drop_first())
    }
}

/// The lines of a text, joined again, are the text.
pub proof fn lines_rejoin(text: Seq<char>)
    ensures
        lines_of(text).len() > 0,
        joined(lines_of(text)) == text,
    decreases text.len(),
{
    let end = line_end(text);
    let lines = lines_of(text);
    line_end_bounds(text);
    if end < text.len() {
        let rest = text.skip(end + 1);
        lines_rejoin(rest);
        assert(lines.drop_first() =~= lines_of(rest));
        assert(joined(lines) =~= text);
    }
}

/// Nothing after the end of an image, or after its first fault, is sent.
pub proof fn reading_stops_at_the_end(lines: Seq<Seq<char>>, n: nat, m: nat)
    requires
        n <= m,
        image_after(lines, n).ending is Some,
    ensures
        image_after(lines, m) == image_after(lines, n),
    decreases m - n,
{
    if n < m {
        reading_stops_at_the_end(lines, n, (m - 1) as nat);
    }
}

/// What is to be sent is in the order of the lines: what follows adds to it.
pub proof fn transfers_are_in_line_order(lines: Seq<Seq<char>>, n: nat, m: nat)
    requires
        n <= m,
    ensures
        image_after(lines, n).transfers.is_prefix_of(image_after(lines, m).transfers),
        0 <= image_after(lines, m).records <= image_after(lines, m).transfers.len(),
    decreases m,
{
    if m > 0 {
        transfers_are_in_line_order(
            lines,
            if n < m {
                n
            } else {
                (m - 1) as nat
            },
            (m - 1) as nat,
        );
    }
}

/// The record of a kind that holds `data` for an address: its length, the
/// address, the kind, the data, and what makes the bytes add up to zero.
pub open spec fn record_bytes(address: int, kind: u8, data: Seq<u8>, checksum: u8) -> Seq<u8> {
    seq![data.len() as u8, (address / 256) as u8, (address % 256) as u8, kind] + data + seq![
        checksum,
    ]
}

/// A line that holds a record asks for what its kind says: data is to be written
/// at its address, counted from the base; a segment address sets the base to
/// sixteen times itself, and a linear address to 65536 times; a start address
/// is jumped to; and the end is the end. Other kinds ask for nothing.
pub proof fn written_lines_are_followed(
    address: int,
    kind: u8,
    data: Seq<u8>,
    checksum: u8,
    base: int,
)
    requires
        0 <= address < 65536,
        data.len() <= 255,
        byte_sum(record_bytes(address, kind, data, checksum)) % 256 == 0,
        0 <= base,
        base + 65535 <= u32::MAX,
    ensures
        ({
            let line = seq![':'] + hex_digits(record_bytes(address, kind, data, checksum));
            let effect = line_effect(line, base);
            &&& kind == 0 ==> (effect matches LineEffect::Write(at, written) && at == base
                + address && written == data)
            &&& kind == 1 ==> effect is End
            &&& kind == 2 && data.len() == 2 ==> (effect matches LineEffect::Base(b) && b == 4096
                * data[0] + 16 * data[1])
            &&& kind == 4 && data.len() == 2 ==> (effect matches LineEffect::Base(b) && b
                == 16777216 * data[0] + 65536 * data[1])
            &&& kind == 5 && data.len() == 4 ==> (effect matches LineEffect::Jump(at) && at
                == 16777216 * data[0] + 65536 * data[1] + 256 * data[2] + data[3])
            &&& kind == 2 && data.len() != 2 ==> effect == LineEffect::Fault(
                LineFault::SegmentAddress,
            )
            &&& kind == 4 && data.len() != 2 ==> effect == LineEffect::Fault(
                LineFault::LinearAddress,
            )
            &&& kind == 5 && data.len() != 4 ==> effect == LineEffect::Fault(
                LineFault::StartAddress,
            )
            &&& kind == 3 || kind > 5 ==> effect is Nothing
        }),
{
    let bytes = record_bytes(address, kind, data, checksum);
    let line = seq![':'] + hex_digits(bytes);
    written_record_reads_back(bytes);
    hex_line_is_bare(bytes);
    bare_text_is_not_trimmed(line);
    assert(bytes.subrange(4, 4 + data.len() as int) =~= data);
    assert(bytes[0] == data.len());
    assert(256 * bytes[1] + bytes[2] == address);
    assert(bytes[3] == kind);
}

proof fn hex_line_is_bare(bytes: Seq<u8>)
    ensures
        ({
            let line = seq![':'] + hex_digits(bytes);
            line.len() > 0 && !is_white(line[0]) && !is_white(line.last())
        }),
{
    let line = seq![':'] + hex_digits(bytes);
    if bytes.len() > 0 {
        hex_digits_are_digits(bytes);
        assert(line.last() == hex_digits(bytes).last());
    } else {
        assert(hex_digits(bytes).len() == 0);
        assert(line.last() == ':');
    }
}

/// A line that asks for nothing it can be trusted with is a fault: too few bytes
/// for a record, or fewer than it says.
pub proof fn short_records_are_faults(bytes: Seq<u8>, base: int)
    ensures
        bytes.len() < 5 <==> record_effect(bytes, base) == LineEffect::Fault(LineFault::TooShort),
        bytes.len() >= 5 && bytes.len() < 5 + bytes[0] <==> record_effect(bytes, base)
            == LineEffect::Fault(LineFault::LengthMismatch),
{
}

/// A line that is no record is a fault, and says why; one of white space asks
/// for nothing.
pub proof fn other_lines_are_faults(line: Seq<char>, base: int)
    ensures
        (forall|i: int| 0 <= i < line.len() ==> is_white(#[trigger] line[i])) ==> line_effect(
            line,
            base,
        ) is Nothing,
        trimmed(line).len() > 0 && record_aligns(trimmed(line)) ==> (record_of(
            trimmed(line),
        ) matches Err(e) ==> line_effect(line, base) == LineEffect::Fault(LineFault::NoRecord(e))),
{
    if forall|i: int| 0 <= i < line.len() ==> is_white(#[trigger] line[i]) {
        only_white_space_is_trimmed(line);
        trimmed_has_no_white_ends(line);
        if trimmed(line).len() > 0 {
            let (front, back) = choose|front: Seq<char>, back: Seq<char>|
                #![trigger front.len(), back.len()]
                {
                    &&& line == front + trimmed(line) + back
                    &&& forall|i: int| 0 <= i < front.len() ==> is_white(#[trigger] front[i])
                    &&& forall|i: int| 0 <= i < back.len() ==> is_white(#[trigger] back[i])
                };
            assert(line[front.len() as int] == trimmed(line)[0]);
        }
    }
}

/// An image begins at address zero with nothing to send; each line adds what it
/// asks for. Data and jumps are sent in turn, and only data counts; a base
/// stays until the next; the end, or a fault, with the number of its line,
/// ends the reading.
pub proof fn lines_add_what_they_ask_for(lines: Seq<Seq<char>>, n: nat)
    requires
        n < lines.len(),
    ensures
        ({
            let before = image_after(lines, n);
            let after = image_after(lines, n + 1);
            &&& n == 0 ==> before.base == 0 && before.transfers.len() == 0 && before.records == 0
                && before.ending is None
            &&& before.ending is None ==> match line_effect(lines[n as int], before.base as int) {
                LineEffect::Nothing => after == before,
                LineEffect::End => after.ending == Some(Ending::Complete) && after.transfers
                    == before.transfers && after.records == before.records,
                LineEffect::Base(base) => after.base == base && after.transfers
                    == before.transfers && after.records == before.records && after.ending is None,
                LineEffect::Write(address, data) => {
                    &&& after.base == before.base
                    &&& after.ending is None
                    &&& after.records == before.records + 1
                    &&& after.transfers.len() == before.transfers.len() + 1
                    &&& after.transfers.drop_last() == before.transfers
                    &&& after.transfers.last().address == address
                    &&& after.transfers.last().data == data
                },
                LineEffect::Jump(address) => {
                    &&& after.base == before.base
                    &&& after.ending is None
                    &&& after.records == before.records
                    &&& after.transfers.len() == before.transfers.len() + 1
                    &&& after.transfers.drop_last() == before.transfers
                    &&& after.transfers.last().address == address
                    &&& after.transfers.last().data.len() == 0
                },
                LineEffect::Fault(fault) => after.ending == Some(
                    Ending::Fault((n + 1) as usize, fault),
                ) && after.transfers == before.transfers,
            }
        }),
{
    let before = image_after(lines, n);
    let after = image_after(lines, n + 1);
    if after.transfers.len() > before.transfers.len() {
        assert(after.transfers.drop_last() =~= before.transfers);
    }
}

/// What is read of an image is what its lines ask for, all of them; one that
/// runs out of lines is complete.
pub proof fn images_are_read_to_the_last_line(text: Seq<char>)
    ensures
        ({
            let read = image_after(lines_of(text), lines_of(text).len());
            let image = image_of(text);
            &&& image.transfers == read.transfers
            &&& image.records == read.records
            &&& read.ending is None ==> image.ending == Some(Ending::Complete)
            &&& read.ending is Some ==> image.ending == read.ending
        }),
{
}

/// No line holds a line feed.
pub proof fn lines_hold_no_line_feed(text: Seq<char>, i: int, k: int)
    requires
        0 <= i < lines_of(text).len(),
        0 <= k < lines_of(text)[i].len(),
    ensures
        lines_of(text)[i][k] != '\n',
    decreases text.len(),
{
    let end = line_end(text);
    line_end_bounds(text);
    first_line_is_bare(text);
    if end < text.len() {
        let rest = text.skip(end + 1);
        if i > 0 {
            assert(lines_of(text)[i] == lines_of(rest)[i - 1]);
            lines_hold_no_line_feed(rest, i - 1, k);
        } else {
            assert(lines_of(text)[0] == text.take(end));
        }
    }
}

proof fn first_line_is_bare(text: Seq<char>)
    ensures
        forall|k: int| 0 <= k < line_end(text) ==> #[trigger] text[k] != '\n',
    decreases text.len(),
{
    if text.len() > 0 && text[0] != '\n' {
        first_line_is_bare(text.drop_first());
        line_end_bounds(text.drop_first());
        assert forall|k: int| 0 <= k < line_end(text) implies #[trigger] text[k] != '\n' by {
            if k > 0 {
                assert(text.drop_first()[k - 1] == text[k]);
            }
        }
    }
}

/// Transfers are sent one after the other, each once the one before was
/// accepted. Loading is done when all of them were, unless the image has a
/// fault, and counts if data was written; it fails at the first that is not
/// accepted.
pub proof fn loading_sends_every_transfer(load: FirmwareLoad, i: usize)
    ensures
        load.action() == LoadAction::Send(i) <==> !load.refused && load.sent == i && i
            < load.image.transfers@.len(),
        load.action() == LoadAction::Done(true) <==> !load.refused && load.sent
            >= load.image.transfers@.len() && load.image.ending == Ending::Complete
            && load.image.records > 0,
        load.action() == LoadAction::Done(false) <==> !load.refused && load.sent
            >= load.image.transfers@.len() && load.image.ending == Ending::Complete
            && load.image.records == 0,
        load.refused ==> load.action() is Fail,
        load.image.ending is Fault ==> !(load.action() is Done),
{
}

} // verus!
