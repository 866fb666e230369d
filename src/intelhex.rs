//! Intel HEX: records to and from byte buffers, and text through the `ihex`
//! crate.

use crate::buffer::{
    buf_extend, buf_len, buf_new, buf_resize, buf_slice, buf_split_off, buf_split_to, bytes_of,
    repeat_byte,
};
use bytes::BytesMut;
use ihex::record::Record;
use vstd::prelude::*;

verus! {

/// An Intel HEX record, as the `ihex` crate reads and writes it.
#[derive(Debug, Clone, PartialEq, Eq)]
pub enum HexRecord {
    Data { offset: u16, value: Vec<u8> },
    EndOfFile,
    ExtendedSegmentAddress(u16),
    StartSegmentAddress { cs: u16, ip: u16 },
    ExtendedLinearAddress(u16),
    StartLinearAddress(u32),
}

/// Why a conversion failed.
#[derive(Debug, Clone, Copy, PartialEq, Eq)]
pub enum HexError {
    /// A line is not a well-formed record (start code, digits, length,
    /// checksum).
    Malformed,
    /// A record of a type other than data or end of file.
    UnknownRecord,
    /// The buffer reaches past what 16-bit record offsets address.
    TooLarge,
    /// The writer refused the records.
    Unwritable,
}

/// A record as it stands on a line: record type, address field, payload.
pub type Wire = (u8, u16, Seq<u8>);

pub open spec fn hi(v: u16) -> u8 {
    (v / 256) as u8
}

pub open spec fn lo(v: u16) -> u8 {
    (v % 256) as u8
}

impl HexRecord {
    /// The record's type, address field and payload.
    pub open spec fn wire(&self) -> Wire {
        match *self {
            HexRecord::Data { offset, value } => (0u8, offset, value@),
            HexRecord::EndOfFile => (1u8, 0u16, Seq::empty()),
            HexRecord::ExtendedSegmentAddress(a) => (2u8, 0u16, seq![hi(a), lo(a)]),
            HexRecord::StartSegmentAddress { cs, ip } => (3u8, 0u16, seq![hi(cs), lo(cs), hi(ip), lo(ip)]),
            HexRecord::ExtendedLinearAddress(a) => (4u8, 0u16, seq![hi(a), lo(a)]),
            HexRecord::StartLinearAddress(a) => (5u8, 0u16, seq![
                (a / 0x100_0000) as u8,
                (a / 0x1_0000 % 256) as u8,
                (a / 256 % 256) as u8,
                (a % 256) as u8,
            ]),
        }
    }
}

/// What a line read gives: a record, or `None` for a line that is not one.
pub open spec fn item_wire(x: Option<HexRecord>) -> Option<Wire> {
    match x {
        Some(r) => Some(r.wire()),
        None => None,
    }
}

pub open spec fn items_wire(s: Seq<Option<HexRecord>>) -> Seq<Option<Wire>> {
    s.map_values(|x: Option<HexRecord>| item_wire(x))
}

pub open spec fn records_wire(s: Seq<HexRecord>) -> Seq<Wire> {
    s.map_values(|x: HexRecord| x.wire())
}

// ---------------------------------------------------------------- text form

pub open spec fn hex_digits() -> Seq<char> {
    seq!['0', '1', '2', '3', '4', '5', '6', '7', '8', '9', 'A', 'B', 'C', 'D', 'E', 'F']
}

/// Two upper-case hex digits for a byte.
pub open spec fn hex_pair(b: u8) -> Seq<char> {
    seq![hex_digits()[(b / 16) as int], hex_digits()[(b % 16) as int]]
}

pub open spec fn hex_of(s: Seq<u8>) -> Seq<char>
    decreases s.len(),
{
    if s.len() == 0 { Seq::empty() } else { hex_pair(s[0]) + hex_of(s.drop_first()) }
}

pub open spec fn sum_of(s: Seq<u8>) -> nat
    decreases s.len(),
{
    if s.len() == 0 { 0 } else { (s[0] + sum_of(s.drop_first())) as nat }
}

/// The two's complement of the low byte of the sum.
pub open spec fn checksum(s: Seq<u8>) -> u8 {
    ((256 - sum_of(s) % 256) % 256) as u8
}

/// Count, address, type and payload: the bytes that the checksum covers.
pub open spec fn line_bytes(r: Wire) -> Seq<u8> {
    seq![r.2.len() as u8, hi(r.1), lo(r.1), r.0] + r.2
}

/// One line: start code, then the bytes and the checksum in hex.
pub open spec fn record_line(r: Wire) -> Seq<char> {
    seq![':'] + hex_of(line_bytes(r) + seq![checksum(line_bytes(r))])
}

/// The lines of `recs`, joined by line feeds.
pub open spec fn hex_text(recs: Seq<Wire>) -> Seq<char>
    decreases recs.len(),
{
    if recs.len() == 0 {
        Seq::empty()
    } else if recs.len() == 1 {
        record_line(recs[0])
    } else {
        record_line(recs[0]) + seq!['\n'] + hex_text(recs.drop_first())
    }
}

/// Records that the writer takes: each payload fits a count byte, and the
/// one end-of-file record is the last.
pub open spec fn writable(recs: Seq<Wire>) -> bool {
    &&& recs.len() > 0
    &&& recs.last().0 == 1
    &&& forall|i: int| 0 <= i < recs.len() ==> #[trigger] recs[i].2.len() <= 255
    &&& forall|i: int| 0 <= i < recs.len() - 1 ==> #[trigger] recs[i].0 != 1
}

/// Data records followed by one end-of-file record, as `ihex` parses them
/// back: the end-of-file record has address 0 and no payload.
pub open spec fn plain_records(recs: Seq<Wire>) -> bool {
    &&& writable(recs)
    &&& recs.last() == (1u8, 0u16, Seq::<u8>::empty())
    &&& forall|i: int| 0 <= i < recs.len() - 1 ==> #[trigger] recs[i].0 == 0
}

/// What `ihex`'s reader, stopping after the end-of-file record, gives for
/// each non-empty line of a text.
pub uninterp spec fn ihex_read(s: Seq<char>) -> Seq<Option<Wire>>;

/// Relies on `ihex::reader::Reader` (built with
/// `new_stopping_after_error_and_eof(text, false, true)`): one item per
/// non-empty line up to the first end-of-file record, each the parsed
/// record or an error. The reader parses back each line that
/// `create_object_file_representation` writes for data and end-of-file
/// records.
#[verifier::external_body]
fn read_records(text: &str) -> (r: Vec<Option<HexRecord>>)
    ensures
        items_wire(r@) == ihex_read(text@),
        forall|recs: Seq<Wire>| plain_records(recs) && text@ == #[trigger] hex_text(recs)
            ==> items_wire(r@) == recs.map_values(|w: Wire| Some(w)),
{
    ihex::reader::Reader::new_stopping_after_error_and_eof(text, false, true).map(|item| item.ok().map(|rec| match rec {
        Record::Data { offset, value } => HexRecord::Data { offset, value },
        Record::EndOfFile => HexRecord::EndOfFile,
        Record::ExtendedSegmentAddress(a) => HexRecord::ExtendedSegmentAddress(a),
        Record::StartSegmentAddress { cs, ip } => HexRecord::StartSegmentAddress { cs, ip },
        Record::ExtendedLinearAddress(a) => HexRecord::ExtendedLinearAddress(a),
        Record::StartLinearAddress(a) => HexRecord::StartLinearAddress(a),
    })).collect()
}

/// Relies on `ihex::writer::create_object_file_representation`: it accepts
/// records whose payloads fit a count byte and whose one end-of-file record
/// comes last, and writes each as a line of upper-case hex with its
/// checksum, the lines joined by line feeds.
#[verifier::external_body]
fn write_records(records: &Vec<HexRecord>) -> (r: Option<String>)
    ensures
        r is Some <==> writable(records_wire(records@)),
        r is Some ==> r->Some_0@ == hex_text(records_wire(records@)),
{
    let recs: Vec<Record> = records.iter().map(|rec| match rec.clone() {
        HexRecord::Data { offset, value } => Record::Data { offset, value },
        HexRecord::EndOfFile => Record::EndOfFile,
        HexRecord::ExtendedSegmentAddress(a) => Record::ExtendedSegmentAddress(a),
        HexRecord::StartSegmentAddress { cs, ip } => Record::StartSegmentAddress { cs, ip },
        HexRecord::ExtendedLinearAddress(a) => Record::ExtendedLinearAddress(a),
        HexRecord::StartLinearAddress(a) => Record::StartLinearAddress(a),
    }).collect();
    ihex::writer::create_object_file_representation(&recs).ok()
}

// ---------------------------------------------------------------- decoding

/// `b` with `v` written from index `o` on: `b` is first grown with zero
/// bytes up to `o`, and grows further where `v` reaches past its end.
pub open spec fn place(b: Seq<u8>, o: nat, v: Seq<u8>) -> Seq<u8> {
    let base = if b.len() < o { b + repeat_byte(0, (o - b.len()) as nat) } else { b };
    let rest = if o + v.len() < base.len() { base.skip((o + v.len()) as int) } else { Seq::empty() };
    base.take(o as int) + v + rest
}

/// One record applied to the bytes decoded so far.
pub open spec fn apply_record(r: Wire, acc: Seq<u8>) -> Result<Seq<u8>, HexError> {
    if r.0 == 0 {
        Ok(place(acc, r.1 as nat, r.2))
    } else if r.0 == 1 {
        Ok(acc)
    } else {
        Err(HexError::UnknownRecord)
    }
}

/// The bytes that `items` decode to, on top of `acc`: records apply in
/// order up to the first end-of-file record; a line that is no record, or
/// a record of another type, fails the whole decoding.
pub open spec fn decode_from(items: Seq<Option<Wire>>, acc: Seq<u8>) -> Result<Seq<u8>, HexError>
    decreases items.len(),
{
    if items.len() == 0 {
        Ok(acc)
    } else {
        match items[0] {
            None => Err(HexError::Malformed),
            Some(r) => if r.0 == 1 {
                Ok(acc)
            } else {
                match apply_record(r, acc) {
                    Ok(next) => decode_from(items.drop_first(), next),
                    Err(e) => Err(e),
                }
            },
        }
    }
}

pub open spec fn decode_items(items: Seq<Option<Wire>>) -> Result<Seq<u8>, HexError> {
    decode_from(items, Seq::empty())
}

/// The bytes of a result, as a result over sequences.
pub open spec fn result_bytes(r: Result<BytesMut, HexError>) -> Result<Seq<u8>, HexError> {
    match r {
        Ok(b) => Ok(bytes_of(b)),
        Err(e) => Err(e),
    }
}

/// Writes `value` into `binary` from index `offset` on, zero-filling any gap.
fn place_bytes(binary: BytesMut, offset: u16, value: &Vec<u8>) -> (r: BytesMut)
    ensures
        bytes_of(r) == place(bytes_of(binary), offset as nat, value@),
{
    let ghost b = bytes_of(binary);
    let ghost v = value@;
    let mut bin = binary;
    let o = offset as usize;
    let len = buf_len(&bin);
    if len < o {
        buf_resize(&mut bin, o, 0x00);
    }
    let ghost base = bytes_of(bin);
    let mut tail = buf_split_off(&mut bin, o);
    buf_extend(&mut bin, value.as_slice());
    let tlen = buf_len(&tail);
    if value.len() < tlen {
        let rest = buf_split_off(&mut tail, value.len());
        buf_extend(&mut bin, buf_slice(&rest));
        assert(base.skip(o as int).skip(v.len() as int) =~= base.skip(o + v.len()));
    } else {
        assert(bytes_of(bin) =~= base.take(o as int) + v + Seq::<u8>::empty());
    }
    bin
}

/// Applies one record to the bytes decoded so far: a data record writes
/// its payload at its offset, an end-of-file record changes nothing, and
/// any other record is an error.
pub fn hex_record2bin(record: HexRecord, binary: BytesMut) -> (r: Result<BytesMut, HexError>)
    ensures
        result_bytes(r) == apply_record(record.wire(), bytes_of(binary)),
{
    match record {
        HexRecord::Data { offset, value } => Ok(place_bytes(binary, offset, &value)),
        HexRecord::EndOfFile => Ok(binary),
        _ => Err(HexError::UnknownRecord),
    }
}

/// Decodes the items read from Intel HEX text, in order.
pub fn records_to_bin(items: Vec<Option<HexRecord>>) -> (r: Result<BytesMut, HexError>)
    ensures
        result_bytes(r) == decode_items(items_wire(items@)),
{
    let ghost all = items_wire(items@);
    let mut rest = items;
    let mut bin = buf_new();
    let ghost mut k: int = 0;
    assert(all.skip(0) =~= all);
    while rest.len() > 0
        invariant
            all == items_wire(items@),
            0 <= k <= all.len(),
            items_wire(rest@) == all.skip(k),
            decode_items(all) == decode_from(all.skip(k), bytes_of(bin)),
        decreases rest.len(),
    {
        let item = rest.remove(0);
        let ghost tail = all.skip(k);
        assert(tail[0] == item_wire(item));
        assert(tail.drop_first() =~= all.skip(k + 1));
        assert(decode_from(tail, bytes_of(bin)) == match tail[0] {
            None => Err(HexError::Malformed),
            Some(r) => if r.0 == 1 {
                Ok(bytes_of(bin))
            } else {
                match apply_record(r, bytes_of(bin)) {
                    Ok(next) => decode_from(tail.drop_first(), next),
                    Err(e) => Err(e),
                }
            },
        });
        match item {
            None => {
                return Err(HexError::Malformed);
            },
            Some(record) => {
                let is_eof = match record {
                    HexRecord::EndOfFile => true,
                    _ => false,
                };
                if is_eof {
                    return Ok(bin);
                }
                match hex_record2bin(record, bin) {
                    Ok(next) => {
                        bin = next;
                    },
                    Err(e) => {
                        return Err(e);
                    },
                }
            },
        }
        proof {
            k = k + 1;
            assert(items_wire(rest@) =~= all.skip(k));
        }
    }
    Ok(bin)
}

/// Decodes Intel HEX text into bytes. When the text is what
/// [`bin_as_hex`] writes for some bytes, those bytes come back.
pub fn convert_hex2bin(content: &str) -> (r: Result<BytesMut, HexError>)
    ensures
        result_bytes(r) == decode_items(ihex_read(content@)),
        forall|b: Seq<u8>| b.len() <= MAX_HEX_LEN && content@ == #[trigger] hex_text(records_of(b))
            ==> result_bytes(r) == Ok::<Seq<u8>, HexError>(b),
{
    let items = read_records(content);
    let r = records_to_bin(items);
    proof {
        assert forall|b: Seq<u8>| b.len() <= MAX_HEX_LEN && content@ == #[trigger] hex_text(records_of(b))
            implies result_bytes(r) == Ok::<Seq<u8>, HexError>(b) by {
            lemma_records_of_plain(b);
            lemma_decode_records_of(b);
        }
    }
    r
}

// ---------------------------------------------------------------- encoding

/// The most bytes that 16-bit record offsets address.
pub const MAX_HEX_LEN: usize = 65536;

/// Data records for `b`, 16 bytes each but the last, the first at offset
/// `16 * first`.
pub open spec fn data_records(b: Seq<u8>, first: nat) -> Seq<Wire>
    decreases b.len(),
{
    if b.len() == 0 {
        Seq::empty()
    } else if b.len() <= 16 {
        seq![(0u8, (16 * first) as u16, b)]
    } else {
        seq![(0u8, (16 * first) as u16, b.take(16))] + data_records(b.skip(16), first + 1)
    }
}

/// The records that encode `b`: its data records, then end of file.
pub open spec fn records_of(b: Seq<u8>) -> Seq<Wire> {
    data_records(b, 0) + seq![(1u8, 0u16, Seq::<u8>::empty())]
}

/// Splits `bytes` into data records of 16 bytes (the last may be shorter),
/// record `i` at offset `16 * i`, and ends them with an end-of-file record.
pub fn bin_to_records(bytes: BytesMut) -> (r: Vec<HexRecord>)
    requires
        bytes_of(bytes).len() <= MAX_HEX_LEN,
    ensures
        records_wire(r@) == records_of(bytes_of(bytes)),
{
    let ghost orig = bytes_of(bytes);
    let mut rest = bytes;
    let mut recs: Vec<HexRecord> = Vec::new();
    let mut ind: usize = 0;
    assert(records_wire(recs@) + data_records(orig, 0) =~= data_records(orig, 0));
    while buf_len(&rest) > 0
        invariant
            bytes_of(rest).len() > 0 ==> 16 * ind + bytes_of(rest).len() == orig.len(),
            orig.len() <= MAX_HEX_LEN,
            records_wire(recs@) + data_records(bytes_of(rest), ind as nat) == data_records(orig, 0),
        decreases bytes_of(rest).len(),
    {
        let ghost before = bytes_of(rest);
        let ghost done = records_wire(recs@);
        let n = buf_len(&rest);
        let chunk = if n > 16 { buf_split_to(&mut rest, 16) } else { buf_split_to(&mut rest, n) };
        let value = vstd::slice::slice_to_vec(buf_slice(&chunk));
        let offset: u16 = (16 * ind) as u16;
        let rec = HexRecord::Data { offset, value };
        recs.push(rec);
        proof {
            let w = rec.wire();
            assert(records_wire(recs@) =~= done + seq![w]);
            if n <= 16 {
                assert(before.take(n as int) =~= before);
                assert(bytes_of(rest).len() == 0);
                assert(data_records(bytes_of(rest), (ind + 1) as nat) =~= Seq::<Wire>::empty());
                assert(done + seq![w] + Seq::<Wire>::empty() =~= done + data_records(before, ind as nat));
            } else {
                assert(done + seq![w] + data_records(bytes_of(rest), (ind + 1) as nat)
                    =~= done + data_records(before, ind as nat));
            }
        }
        ind = ind + 1;
    }
    let ghost done = records_wire(recs@);
    recs.push(HexRecord::EndOfFile);
    proof {
        assert(data_records(bytes_of(rest), ind as nat) =~= Seq::<Wire>::empty());
        assert(records_wire(recs@) =~= done + seq![(1u8, 0u16, Seq::<u8>::empty())]);
        assert(done =~= data_records(orig, 0));
    }
    recs
}

/// Encodes bytes as Intel HEX text: 16 bytes to a data record, then an
/// end-of-file record. Fails only for more bytes than 16-bit offsets
/// address.
pub fn bin_as_hex(bytes: BytesMut) -> (r: Result<String, HexError>)
    ensures
        r is Ok <==> bytes_of(bytes).len() <= MAX_HEX_LEN,
        r is Ok ==> r->Ok_0@ == hex_text(records_of(bytes_of(bytes))),
        r is Err ==> r == Err::<String, HexError>(HexError::TooLarge),
{
    if buf_len(&bytes) > MAX_HEX_LEN {
        return Err(HexError::TooLarge);
    }
    let ghost b = bytes_of(bytes);
    let recs = bin_to_records(bytes);
    proof {
        lemma_records_of_plain(b);
    }
    match write_records(&recs) {
        Some(text) => Ok(text),
        None => Err(HexError::Unwritable),
    }
}

// ---------------------------------------------------------------- laws

proof fn lemma_data_records_shape(b: Seq<u8>, f: nat)
    ensures
        forall|i: int| 0 <= i < data_records(b, f).len() ==>
            (#[trigger] data_records(b, f)[i]).0 == 0 && data_records(b, f)[i].2.len() <= 16,
    decreases b.len(),
{
    if b.len() > 16 {
        lemma_data_records_shape(b.skip(16), f + 1);
        let d = data_records(b, f);
        let t = data_records(b.skip(16), f + 1);
        assert forall|i: int| 0 <= i < d.len() implies (#[trigger] d[i]).0 == 0 && d[i].2.len() <= 16 by {
            if i > 0 {
                assert(d[i] == t[i - 1]);
            }
        }
    }
}

/// The records that encode any bytes are data records with at most 16
/// bytes each, followed by one end-of-file record.
pub proof fn lemma_records_of_plain(b: Seq<u8>)
    ensures
        plain_records(records_of(b)),
{
    lemma_data_records_shape(b, 0);
    let r = records_of(b);
    let d = data_records(b, 0);
    assert forall|i: int| 0 <= i < r.len() implies #[trigger] r[i].2.len() <= 255 by {
        if i < d.len() {
            assert(r[i] == d[i]);
        }
    }
    assert forall|i: int| 0 <= i < r.len() - 1 implies #[trigger] r[i].0 == 0 by {
        assert(r[i] == d[i]);
    }
}

proof fn lemma_decode_data_records(b: Seq<u8>, f: nat, acc: Seq<u8>)
    requires
        acc.len() == 16 * f,
        16 * f + b.len() <= MAX_HEX_LEN,
    ensures
        decode_from((data_records(b, f) + seq![(1u8, 0u16, Seq::<u8>::empty())]).map_values(|w: Wire| Some(w)), acc)
            == Ok::<Seq<u8>, HexError>(acc + b),
    decreases b.len(),
{
    let eof: Wire = (1u8, 0u16, Seq::<u8>::empty());
    let recs = data_records(b, f) + seq![eof];
    let items = recs.map_values(|w: Wire| Some(w));
    if b.len() == 0 {
        assert(recs =~= seq![eof]);
        assert(acc + b =~= acc);
        assert(items[0] == Some(eof));
    } else if b.len() <= 16 {
        assert(recs =~= seq![(0u8, (16 * f) as u16, b), eof]);
        assert(items[0] == Some((0u8, (16 * f) as u16, b)));
        assert((16 * f) as u16 == 16 * f);
        assert(place(acc, 16 * f, b) =~= acc + b);
        assert(items.drop_first()[0] == Some(eof));
        assert(decode_from(items.drop_first(), acc + b) == Ok::<Seq<u8>, HexError>(acc + b));
    } else {
        let head = b.take(16);
        assert(items[0] == Some((0u8, (16 * f) as u16, head)));
        assert((16 * f) as u16 == 16 * f);
        assert(place(acc, 16 * f, head) =~= acc + head);
        let tail_recs = data_records(b.skip(16), f + 1) + seq![eof];
        assert(items.drop_first() =~= tail_recs.map_values(|w: Wire| Some(w)));
        assert(recs =~= seq![(0u8, (16 * f) as u16, head)] + tail_recs);
        lemma_decode_data_records(b.skip(16), f + 1, acc + head);
        assert(acc + head + b.skip(16) =~= acc + b);
    }
}

/// Decoding the records that encode `b` gives `b` back, for every `b` that
/// 16-bit offsets address.
pub proof fn lemma_decode_records_of(b: Seq<u8>)
    requires
        b.len() <= MAX_HEX_LEN,
    ensures
        decode_items(records_of(b).map_values(|w: Wire| Some(w))) == Ok::<Seq<u8>, HexError>(b),
{
    lemma_decode_data_records(b, 0, Seq::empty());
    assert(Seq::<u8>::empty() + b =~= b);
}

/// An item that is no record, or a record of an unknown type: decoding
/// fails at it.
pub open spec fn bad_item(x: Option<Wire>) -> bool {
    match x {
        None => true,
        Some(r) => r.0 > 1,
    }
}

pub open spec fn is_eof_item(x: Option<Wire>) -> bool {
    match x {
        None => false,
        Some(r) => r.0 == 1,
    }
}

proof fn lemma_bad_item_fails(items: Seq<Option<Wire>>, acc: Seq<u8>, i: int)
    requires
        0 <= i < items.len(),
        bad_item(items[i]),
        forall|j: int| 0 <= j < i ==> !is_eof_item(#[trigger] items[j]),
    ensures
        decode_from(items, acc) is Err,
    decreases i,
{
    if i > 0 {
        assert(!is_eof_item(items[0]));
        match items[0] {
            None => {},
            Some(r) => {
                match apply_record(r, acc) {
                    Ok(next) => {
                        let t = items.drop_first();
                        assert forall|j: int| 0 <= j < i - 1 implies !is_eof_item(#[trigger] t[j]) by {
                            assert(t[j] == items[j + 1]);
                        }
                        lemma_bad_item_fails(t, next, i - 1);
                    },
                    Err(_) => {},
                }
            },
        }
    }
}

/// A record of a type other than data or end of file, with no end-of-file
/// record before it, fails the whole decoding.
pub proof fn lemma_unknown_record_fails(items: Seq<Option<Wire>>, i: int)
    requires
        0 <= i < items.len(),
        items[i] is Some,
        items[i]->Some_0.0 != 0 && items[i]->Some_0.0 != 1,
        forall|j: int| 0 <= j < i ==> !is_eof_item(#[trigger] items[j]),
    ensures
        decode_items(items) is Err,
{
    lemma_bad_item_fails(items, Seq::empty(), i);
}

/// A line that does not parse as a record (a wrong checksum, a cut
/// payload), with no end-of-file record before it, fails the whole decoding.
pub proof fn lemma_malformed_line_fails(items: Seq<Option<Wire>>, i: int)
    requires
        0 <= i < items.len(),
        items[i] is None,
        forall|j: int| 0 <= j < i ==> !is_eof_item(#[trigger] items[j]),
    ensures
        decode_items(items) is Err,
{
    lemma_bad_item_fails(items, Seq::empty(), i);
}

} // verus!
