//! The on-disk record format and its codec.
//!
//! One record is `len (4 bytes, big-endian) ‖ payload (len bytes) ‖
//! crc64 (8 bytes, big-endian)`, where the checksum covers `len ‖
//! payload`. The payload is a tagged message: a write command carries a
//! key field and a value field, each a length-prefixed UTF-8 string
//! inside a length-prefixed submessage; a commit command is the bare
//! commit marker. Everything here is stated over byte sequences; the
//! checksum itself is the named function of `crate::checksum`.

use vstd::prelude::*;
use vstd::utf8::{valid_utf8, encode_utf8, decode_utf8};
use crate::bytes::{
    be32, be64, u32_from_be, u64_from_be, varint, parse_varint, push_be32, push_be64, push_bytes,
    push_varint, read_be32, read_be64, read_varint,
};
use crate::checksum::{crc64_of, crc64};
use crate::command::{Command, loggable};
use crate::text::string_from_utf8;

verus! {

/// A decoded command, at the level of the mathematical model: key and
/// value are character sequences.
#[verifier::ext_equal]
pub enum SpecCommand {
    Write { key: Seq<char>, value: Seq<char> },
    Commit,
}

/// The model of an exec command that may be logged.
pub open spec fn spec_cmd(c: Command) -> SpecCommand {
    match c {
        Command::Write { key, value } => SpecCommand::Write { key: key@, value: value@ },
        _ => SpecCommand::Commit,
    }
}

// Field tags of the payload message.
pub open spec fn tag_first() -> u8 {
    0x0a
}

pub open spec fn tag_second() -> u8 {
    0x12
}

/// A tagged, length-prefixed field.
pub open spec fn field(tag: u8, data: Seq<u8>) -> Seq<u8> {
    seq![tag] + varint(data.len()) + data
}

/// The payload bytes of one command.
pub open spec fn spec_payload(c: SpecCommand) -> Seq<u8> {
    match c {
        SpecCommand::Write { key, value } => {
            let inner = field(tag_first(), encode_utf8(key)) + field(
                tag_second(),
                encode_utf8(value),
            );
            field(tag_first(), inner)
        },
        SpecCommand::Commit => field(tag_second(), Seq::empty()),
    }
}

/// Whether the payload length fits the 32-bit length prefix.
pub open spec fn payload_fits(c: SpecCommand) -> bool {
    spec_payload(c).len() <= u32::MAX
}

/// The complete record for one command: length, payload, checksum.
pub open spec fn spec_record(c: SpecCommand) -> Seq<u8> {
    let p = spec_payload(c);
    let framed = be32(p.len() as u32) + p;
    framed + be64(crc64_of(framed))
}

/// The outcome of decoding one record at a byte position.
#[verifier::ext_equal]
pub enum SpecDecode {
    /// A complete, checksum-valid, well-formed record; `end` is the
    /// offset just after its trailing checksum.
    Rec { cmd: SpecCommand, end: int },
    /// The clean end of the log.
    Eof,
    /// An incomplete or checksum-failing record.
    Torn,
    /// A complete record whose payload does not match the grammar.
    Broken,
}

/// One field parsed at `pos`: its data and the index just after it.
pub open spec fn parse_field(s: Seq<u8>, pos: int, tag: u8) -> Option<(Seq<u8>, int)> {
    if 0 <= pos < s.len() && s[pos] == tag {
        match parse_varint(s, pos + 1) {
            Some((n, q)) => {
                if q + n <= s.len() {
                    Some((s.subrange(q, q + n), q + n))
                } else {
                    None
                }
            },
            None => None,
        }
    } else {
        None
    }
}

/// The write command encoded in a payload submessage, if any.
pub open spec fn parse_write(inner: Seq<u8>) -> Option<SpecCommand> {
    match parse_field(inner, 0, tag_first()) {
        Some((kb, n1)) => match parse_field(inner, n1, tag_second()) {
            Some((vb, n2)) => {
                if n2 == inner.len() && valid_utf8(kb) && valid_utf8(vb) {
                    Some(SpecCommand::Write { key: decode_utf8(kb), value: decode_utf8(vb) })
                } else {
                    None
                }
            },
            None => None,
        },
        None => None,
    }
}

/// The command encoded in a payload, if the payload matches the grammar.
pub open spec fn parse_payload(p: Seq<u8>) -> Option<SpecCommand> {
    match parse_field(p, 0, tag_first()) {
        Some((inner, next)) => {
            if next == p.len() {
                parse_write(inner)
            } else {
                None
            }
        },
        None => {
            if p =~= seq![tag_second(), 0u8] {
                Some(SpecCommand::Commit)
            } else {
                None
            }
        },
    }
}

/// Decodes the record that starts at `pos`.
pub open spec fn record_at(log: Seq<u8>, pos: int) -> SpecDecode {
    if pos == log.len() {
        SpecDecode::Eof
    } else if pos < 0 || pos + 4 > log.len() {
        SpecDecode::Torn
    } else {
        let len = u32_from_be(log[pos], log[pos + 1], log[pos + 2], log[pos + 3]) as int;
        if pos + 4 + len + 8 > log.len() {
            SpecDecode::Torn
        } else {
            let framed = log.subrange(pos, pos + 4 + len);
            let stored = u64_from_be(
                log[pos + 4 + len],
                log[pos + 4 + len + 1],
                log[pos + 4 + len + 2],
                log[pos + 4 + len + 3],
                log[pos + 4 + len + 4],
                log[pos + 4 + len + 5],
                log[pos + 4 + len + 6],
                log[pos + 4 + len + 7],
            );
            if stored != crc64_of(framed) {
                SpecDecode::Torn
            } else {
                match parse_payload(log.subrange(pos + 4, pos + 4 + len)) {
                    Some(c) => SpecDecode::Rec { cmd: c, end: pos + 4 + len + 8 },
                    None => SpecDecode::Broken,
                }
            }
        }
    }
}

/// A field embedded in a longer sequence parses to its data.
pub proof fn lemma_field_embedded(s: Seq<u8>, pos: int, tag: u8, data: Seq<u8>)
    requires
        data.len() < 0x1_0000_0000,
        0 <= pos,
        pos + field(tag, data).len() <= s.len(),
        s.subrange(pos, pos + field(tag, data).len() as int) =~= field(tag, data),
    ensures
        parse_field(s, pos, tag) == Some((data, pos + field(tag, data).len())),
{
    let f = field(tag, data);
    let vl = varint(data.len()).len() as int;
    assert(s[pos] == f[0]);
    assert(s.subrange(pos + 1, pos + 1 + vl) =~= varint(data.len())) by {
        assert(forall|i: int|
            0 <= i < vl ==> #[trigger] s.subrange(pos + 1, pos + 1 + vl)[i] == f[i + 1]);
    }
    crate::bytes::lemma_varint_roundtrip(s, pos + 1, data.len());
    let q = pos + 1 + vl;
    assert(q + data.len() <= s.len());
    assert(s.subrange(q, q + data.len() as int) =~= data) by {
        assert(forall|i: int|
            0 <= i < data.len() ==> #[trigger] s.subrange(q, q + data.len() as int)[i] == f[i + 1
                + vl]);
    }
}

/// The payload of a command parses back to that command.
pub proof fn lemma_payload_roundtrip(c: SpecCommand)
    requires
        payload_fits(c),
    ensures
        parse_payload(spec_payload(c)) == Some(c),
{
    let p = spec_payload(c);
    match c {
        SpecCommand::Write { key, value } => {
            let kb = encode_utf8(key);
            let vb = encode_utf8(value);
            let f1 = field(tag_first(), kb);
            let f2 = field(tag_second(), vb);
            let inner = f1 + f2;
            assert(p == field(tag_first(), inner));
            assert(inner.len() < 0x1_0000_0000) by {
                assert(p.len() == 1 + varint(inner.len()).len() + inner.len());
            }
            assert(kb.len() < 0x1_0000_0000 && vb.len() < 0x1_0000_0000) by {
                assert(f1.len() == 1 + varint(kb.len()).len() + kb.len());
                assert(f2.len() == 1 + varint(vb.len()).len() + vb.len());
            }
            assert(p.subrange(0, p.len() as int) =~= field(tag_first(), inner));
            lemma_field_embedded(p, 0, tag_first(), inner);
            assert(parse_field(p, 0, tag_first()) == Some((inner, p.len() as int)));
            assert(inner.subrange(0, f1.len() as int) =~= f1);
            lemma_field_embedded(inner, 0, tag_first(), kb);
            assert(inner.subrange(f1.len() as int, (f1.len() + f2.len()) as int) =~= f2);
            lemma_field_embedded(inner, f1.len() as int, tag_second(), vb);
            vstd::utf8::encode_utf8_valid_utf8(key);
            vstd::utf8::encode_utf8_valid_utf8(value);
            vstd::utf8::encode_utf8_decode_utf8(key);
            vstd::utf8::encode_utf8_decode_utf8(value);
            assert(parse_write(inner) == Some(c));
        },
        SpecCommand::Commit => {
            assert(varint(Seq::<u8>::empty().len()) =~= seq![0u8]);
            assert(p =~= seq![tag_second(), 0u8]);
            assert(0 < p.len() && p[0] == tag_second());
            assert(parse_field(p, 0, tag_first()) is None);
        },
    }
}

/// A complete record embedded at `pos` decodes to its command, whatever
/// bytes surround it: the decoder reads nothing outside the record.
pub proof fn lemma_record_embedded(log: Seq<u8>, pos: int, c: SpecCommand)
    requires
        payload_fits(c),
        0 <= pos,
        pos + spec_record(c).len() <= log.len(),
        log.subrange(pos, pos + spec_record(c).len() as int) =~= spec_record(c),
    ensures
        record_at(log, pos) == (SpecDecode::Rec { cmd: c, end: pos + spec_record(c).len() }),
{
    let p = spec_payload(c);
    let len = p.len() as int;
    let framed = be32(p.len() as u32) + p;
    let r = spec_record(c);
    assert(r.len() == 4 + len + 8);
    assert(pos + 4 <= log.len());
    assert(log[pos] == r[0] && log[pos + 1] == r[1] && log[pos + 2] == r[2] && log[pos + 3]
        == r[3]);
    crate::bytes::lemma_be32_roundtrip(p.len() as u32);
    assert(u32_from_be(log[pos], log[pos + 1], log[pos + 2], log[pos + 3]) == p.len());
    assert(log.subrange(pos, pos + 4 + len) =~= framed) by {
        assert(forall|i: int|
            0 <= i < 4 + len ==> #[trigger] log.subrange(pos, pos + 4 + len)[i] == r[i]);
    }
    let sum = crc64_of(framed);
    crate::bytes::lemma_be64_roundtrip(sum);
    assert(forall|i: int| 0 <= i < 8 ==> log[pos + 4 + len + i] == #[trigger] r[4 + len + i]);
    assert(u64_from_be(
        log[pos + 4 + len],
        log[pos + 4 + len + 1],
        log[pos + 4 + len + 2],
        log[pos + 4 + len + 3],
        log[pos + 4 + len + 4],
        log[pos + 4 + len + 5],
        log[pos + 4 + len + 6],
        log[pos + 4 + len + 7],
    ) == sum) by {
        assert(forall|i: int| 0 <= i < 8 ==> r[4 + len + i] == #[trigger] be64(sum)[i]);
    }
    assert(log.subrange(pos + 4, pos + 4 + len) =~= p) by {
        assert(forall|i: int|
            0 <= i < len ==> #[trigger] log.subrange(pos + 4, pos + 4 + len)[i] == r[i + 4]);
    }
    lemma_payload_roundtrip(c);
}

/// Decoding an encoded record gives back the record: the round trip at
/// the level of the on-disk model.
pub proof fn lemma_record_roundtrip(c: SpecCommand)
    requires
        payload_fits(c),
    ensures
        record_at(spec_record(c), 0) == (SpecDecode::Rec { cmd: c, end: spec_record(c).len() as int }),
{
    assert(spec_record(c).subrange(0, spec_record(c).len() as int) =~= spec_record(c));
    lemma_record_embedded(spec_record(c), 0, c);
}

/// Any damage confined to the checksum trailer of a record is caught:
/// the record decodes as torn, never as a command.
pub proof fn lemma_crc_damage_detected(c: SpecCommand, trailer: Seq<u8>)
    requires
        payload_fits(c),
        trailer.len() == 8,
        !(trailer =~= be64(crc64_of(be32(spec_payload(c).len() as u32) + spec_payload(c)))),
    ensures
        record_at(be32(spec_payload(c).len() as u32) + spec_payload(c) + trailer, 0)
            is Torn,
{
    let p = spec_payload(c);
    let len = p.len() as int;
    let framed = be32(p.len() as u32) + p;
    let log = framed + trailer;
    crate::bytes::lemma_be32_roundtrip(p.len() as u32);
    assert(u32_from_be(log[0], log[1], log[2], log[3]) == p.len());
    assert(log.subrange(0, 4 + len) =~= framed);
    let stored = u64_from_be(
        log[4 + len],
        log[4 + len + 1],
        log[4 + len + 2],
        log[4 + len + 3],
        log[4 + len + 4],
        log[4 + len + 5],
        log[4 + len + 6],
        log[4 + len + 7],
    );
    if stored == crc64_of(framed) {
        crate::bytes::lemma_be64_inverse(
            log[4 + len],
            log[4 + len + 1],
            log[4 + len + 2],
            log[4 + len + 3],
            log[4 + len + 4],
            log[4 + len + 5],
            log[4 + len + 6],
            log[4 + len + 7],
        );
        assert(trailer =~= be64(crc64_of(framed)));
    }
}

/// Damage to the length prefix that raises the length is caught: the
/// framing then asks for more bytes than the record has.
pub proof fn lemma_oversized_length_detected(m: u32, rest: Seq<u8>)
    requires
        m > rest.len() - 8,
    ensures
        record_at(be32(m) + rest, 0) is Torn,
{
    let log = be32(m) + rest;
    crate::bytes::lemma_be32_roundtrip(m);
    assert(u32_from_be(log[0], log[1], log[2], log[3]) == m);
    if log.len() >= 4 {
        assert(4 + m + 8 > log.len());
    }
}

/// One staged entry of the log. The transaction id lives in memory
/// only; the record format does not persist it.
#[derive(Debug, Clone, PartialEq, Eq)]
pub struct WalEntry {
    pub transaction_id: u64,
    pub command: Command,
}

/// How a read of one record can fail. `Eof` is the clean end of the
/// log, not a fault; the other two mark a damaged tail. I/O faults
/// belong to the adapter that owns the file.
#[derive(Debug, Clone, Copy, PartialEq, Eq, Structural)]
pub enum WalReadError {
    Eof,
    IncompleteRecord,
    BrokenRecord,
}

/// Decodes the record that starts at `pos`, returning the command and
/// the byte position just after the record's checksum.
pub fn read_record(log: &[u8], pos: usize) -> (r: Result<(WalEntry, usize), WalReadError>)
    requires
        pos <= log@.len(),
    ensures
        (match r {
            Ok((entry, end)) => {
                &&& loggable(entry.command)
                &&& entry.transaction_id == 0
                &&& pos < end <= log@.len()
                &&& record_at(log@, pos as int) == (SpecDecode::Rec {
                    cmd: spec_cmd(entry.command),
                    end: end as int,
                })
            },
            Err(WalReadError::Eof) => record_at(log@, pos as int) is Eof,
            Err(WalReadError::IncompleteRecord) => record_at(log@, pos as int) is Torn,
            Err(WalReadError::BrokenRecord) => record_at(log@, pos as int) is Broken,
        }),
{
    if pos == log.len() {
        return Err(WalReadError::Eof);
    }
    if log.len() - pos < 4 {
        return Err(WalReadError::IncompleteRecord);
    }
    let len32 = read_be32(log, pos);
    let len = len32 as usize;
    let after_len = log.len() - pos - 4;
    if after_len < 8 || after_len - 8 < len {
        return Err(WalReadError::IncompleteRecord);
    }
    let framed = vstd::slice::slice_subrange(log, pos, pos + 4 + len);
    let stored = read_be64(log, pos + 4 + len);
    if stored != crc64(framed) {
        return Err(WalReadError::IncompleteRecord);
    }
    let payload = vstd::slice::slice_subrange(log, pos + 4, pos + 4 + len);
    match decode_payload(payload) {
        Some(command) => Ok((WalEntry { transaction_id: 0, command }, pos + 4 + len + 8)),
        None => Err(WalReadError::BrokenRecord),
    }
}

/// Decodes a payload, if it matches the grammar.
fn decode_payload(p: &[u8]) -> (r: Option<Command>)
    ensures
        (match r {
            Some(c) => loggable(c) && parse_payload(p@) == Some(spec_cmd(c)),
            None => parse_payload(p@) is None,
        }),
{
    match read_field(p, 0, 0x0a) {
        Some((start, end, next)) => {
            if next != p.len() {
                return None;
            }
            let inner = vstd::slice::slice_subrange(p, start, end);
            decode_write(inner)
        },
        None => {
            if p.len() == 2 && p[0] == 0x12 && p[1] == 0x00 {
                proof {
                    assert(p@ =~= seq![tag_second(), 0u8]);
                }
                Some(Command::Commit)
            } else {
                proof {
                    assert(!(p@ =~= seq![tag_second(), 0u8]));
                }
                None
            }
        },
    }
}

/// Decodes the two string fields of a write submessage.
fn decode_write(inner: &[u8]) -> (r: Option<Command>)
    ensures
        (match r {
            Some(c) => loggable(c) && parse_write(inner@) == Some(spec_cmd(c)),
            None => parse_write(inner@) is None,
        }),
{
    let (ks, ke, n1) = match read_field(inner, 0, 0x0a) {
        Some(x) => x,
        None => {
            return None;
        },
    };
    let (vs, ve, n2) = match read_field(inner, n1, 0x12) {
        Some(x) => x,
        None => {
            return None;
        },
    };
    if n2 != inner.len() {
        return None;
    }
    let kb = vstd::slice::slice_to_vec(vstd::slice::slice_subrange(inner, ks, ke));
    let key = match string_from_utf8(kb) {
        Some(s) => s,
        None => {
            return None;
        },
    };
    let vb = vstd::slice::slice_to_vec(vstd::slice::slice_subrange(inner, vs, ve));
    let value = match string_from_utf8(vb) {
        Some(s) => s,
        None => {
            return None;
        },
    };
    proof {
        vstd::utf8::encode_utf8_decode_utf8(key@);
        vstd::utf8::encode_utf8_decode_utf8(value@);
        assert(decode_utf8(inner@.subrange(ks as int, ke as int)) == key@);
        assert(decode_utf8(inner@.subrange(vs as int, ve as int)) == value@);
        assert(parse_write(inner@) == Some(
            spec_cmd(Command::Write { key: key, value: value }),
        ));
    }
    Some(Command::Write { key, value })
}

/// Reads one field at `pos`: the index range of its data and the index
/// just after it.
fn read_field(s: &[u8], pos: usize, tag: u8) -> (r: Option<(usize, usize, usize)>)
    ensures
        (match r {
            Some((start, end, next)) => {
                &&& start <= end <= s@.len()
                &&& next == end
                &&& parse_field(s@, pos as int, tag) == Some(
                    (s@.subrange(start as int, end as int), next as int),
                )
            },
            None => parse_field(s@, pos as int, tag) is None,
        }),
{
    if pos >= s.len() || s[pos] != tag {
        return None;
    }
    match read_varint(s, pos + 1) {
        Some((n, q)) => {
            proof {
                crate::bytes::lemma_parse_varint_bound(s@, pos + 1, 5);
            }
            let rem: u64 = (s.len() - q) as u64;
            if rem < n {
                return None;
            }
            Some((q, q + n as usize, q + n as usize))
        },
        None => None,
    }
}

/// Whether a write of `key` and `value` gives a record whose payload
/// fits the 32-bit length prefix. Every smaller write is accepted.
pub fn write_fits(key: &str, value: &str) -> (b: bool)
    ensures
        b == payload_fits(SpecCommand::Write { key: key@, value: value@ }),
{
    let ghost kb = encode_utf8(key@);
    let ghost vb = encode_utf8(value@);
    let ghost inner_s = field(tag_first(), kb) + field(tag_second(), vb);
    let ghost p = spec_payload(SpecCommand::Write { key: key@, value: value@ });
    let kl = key.as_bytes().len();
    let vl = value.as_bytes().len();
    proof {
        assert(kl == kb.len() && vl == vb.len());
        assert(p.len() >= inner_s.len());
        assert(inner_s.len() >= kb.len() && inner_s.len() >= vb.len());
    }
    if kl > 0xFFFF_FFFF as usize || vl > 0xFFFF_FFFF as usize {
        return false;
    }
    let kvl = crate::bytes::varint_len(kl as u64);
    let vvl = crate::bytes::varint_len(vl as u64);
    let inner: u64 = 2 + kvl as u64 + kl as u64 + vvl as u64 + vl as u64;
    proof {
        assert(inner as nat == inner_s.len());
    }
    let ivl = crate::bytes::varint_len(inner);
    let total: u64 = 1 + ivl as u64 + inner;
    proof {
        assert(total as nat == p.len());
    }
    total <= 0xFFFF_FFFF
}

/// Encodes one record: length prefix, payload, trailing checksum.
pub fn encode_record(entry: &WalEntry) -> (out: Vec<u8>)
    requires
        loggable(entry.command),
        payload_fits(spec_cmd(entry.command)),
    ensures
        out@ == spec_record(spec_cmd(entry.command)),
{
    let payload = encode_payload(&entry.command);
    let mut out: Vec<u8> = Vec::new();
    push_be32(&mut out, payload.len() as u32);
    push_bytes(&mut out, payload.as_slice());
    proof {
        assert(out@ =~= be32(spec_payload(spec_cmd(entry.command)).len() as u32) + spec_payload(
            spec_cmd(entry.command),
        ));
    }
    let sum = crc64(out.as_slice());
    push_be64(&mut out, sum);
    out
}

/// Builds the payload bytes of a loggable command.
fn encode_payload(c: &Command) -> (out: Vec<u8>)
    requires
        loggable(*c),
    ensures
        out@ == spec_payload(spec_cmd(*c)),
{
    match c {
        Command::Write { key, value } => {
            let kb = key.as_str().as_bytes();
            let vb = value.as_str().as_bytes();
            let mut inner: Vec<u8> = Vec::new();
            inner.push(0x0a);
            push_varint(&mut inner, kb.len());
            push_bytes(&mut inner, kb);
            proof {
                assert(inner@ =~= field(tag_first(), encode_utf8(key@)));
            }
            inner.push(0x12);
            push_varint(&mut inner, vb.len());
            push_bytes(&mut inner, vb);
            proof {
                assert(inner@ =~= field(tag_first(), encode_utf8(key@)) + field(
                    tag_second(),
                    encode_utf8(value@),
                ));
            }
            let mut out: Vec<u8> = Vec::new();
            out.push(0x0a);
            push_varint(&mut out, inner.len());
            push_bytes(&mut out, inner.as_slice());
            proof {
                assert(out@ =~= spec_payload(spec_cmd(*c)));
            }
            out
        },
        _ => {
            let mut out: Vec<u8> = Vec::new();
            out.push(0x12);
            out.push(0x00);
            proof {
                assert(varint(Seq::<u8>::empty().len()) =~= seq![0u8]);
                assert(out@ =~= field(tag_second(), Seq::empty()));
            }
            out
        },
    }
}

} // verus!
