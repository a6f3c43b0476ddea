//! The snapshot decoder: reads the length-prefixed, tagged, little-endian
//! binary snapshot format into a keyspace with its framing metadata. The
//! caller supplies the file's bytes; nothing here touches a disk.

use crate::decimal::dec_int;
use crate::decimal::dec_nat;
use crate::decimal::spec_parse_u64;
use crate::keyspace::empty_rdb;
use crate::keyspace::DBEntry;
use crate::keyspace::EntryModel;
use crate::keyspace::Rdb;
use crate::keyspace::RdbModel;
use crate::resp::RespData;
use crate::resp::RESPValue;
use vstd::prelude::*;
use vstd::string::StringExecFns;
use vstd::utf8::decode_utf8;
use vstd::utf8::valid_utf8;

verus! {

/// Why a snapshot failed to decode: a bad magic header, a file cut short,
/// a compressed string (which this decoder refuses to load), a length
/// encoding outside the format, or a string payload that is not text.
#[derive(Clone, Copy, Debug, PartialEq, Eq, Structural)]
pub enum RdbError {
    InvalidMagic,
    Truncated,
    LzfDecompressFailure,
    BadLengthEncoding,
    BadStringPayload,
}

/// The two modes of the length-encoding subcodec: read an integer as its
/// decimal text, or read the following payload as text.
#[derive(Clone, Copy, Debug, PartialEq, Eq, Structural)]
pub enum LengthEncodedKind {
    Integer,
    Text,
}

/// The value of `n` bytes read little-endian at `pos`.
pub open spec fn le_val(s: Seq<u8>, pos: int, n: int) -> int
    decreases n,
{
    if n <= 0 {
        0
    } else {
        s[pos] + 256 * le_val(s, pos + 1, n - 1)
    }
}

/// Powers of 256.
pub open spec fn pow256(n: int) -> int
    decreases n,
{
    if n <= 0 {
        1
    } else {
        256 * pow256(n - 1)
    }
}

pub proof fn lemma_le_val_bound(s: Seq<u8>, pos: int, n: int)
    requires
        0 <= pos,
        pos + n <= s.len(),
    ensures
        0 <= le_val(s, pos, n) < pow256(n),
    decreases n,
{
    if n > 0 {
        lemma_le_val_bound(s, pos + 1, n - 1);
    }
}

pub proof fn lemma_pow256_values()
    ensures
        pow256(1) == 0x100,
        pow256(2) == 0x10000,
        pow256(4) == 0x100000000,
        pow256(8) == 0x10000000000000000,
{
    assert(pow256(0) == 1);
    assert(pow256(1) == 0x100);
    assert(pow256(2) == 0x10000);
    assert(pow256(3) == 0x1000000);
    assert(pow256(4) == 0x100000000);
    assert(pow256(5) == 0x10000000000);
    assert(pow256(6) == 0x1000000000000);
    assert(pow256(7) == 0x100000000000000);
}

pub proof fn lemma_pow256_at_most_8(n: int)
    requires
        n <= 8,
    ensures
        pow256(n) <= 0x10000000000000000,
    decreases 8 - n,
{
    if n < 8 {
        lemma_pow256_at_most_8(n + 1);
    } else {
        assert(pow256(8) == 0x10000000000000000) by {
            assert(pow256(0) == 1);
            assert(pow256(1) == 0x100);
            assert(pow256(2) == 0x10000);
            assert(pow256(3) == 0x1000000);
            assert(pow256(4) == 0x100000000);
            assert(pow256(5) == 0x10000000000);
            assert(pow256(6) == 0x1000000000000);
            assert(pow256(7) == 0x100000000000000);
        }
    }
}

/// Reads `n` bytes little-endian at `pos`.
fn le_bytes_val(bytes: &[u8], pos: usize, n: usize) -> (r: u64)
    requires
        pos + n <= bytes@.len(),
        n <= 8,
    ensures
        r as int == le_val(bytes@, pos as int, n as int),
    decreases n,
{
    let len = bytes.len();
    if n == 0 {
        0
    } else {
        proof {
            lemma_le_val_bound(bytes@, pos + 1, n - 1);
            lemma_pow256_at_most_8(n - 1);
            lemma_pow256_at_most_8(n as int);
        }
        let rest = le_bytes_val(bytes, pos + 1, n - 1);
        let b = bytes[pos];
        b as u64 + 256 * rest
    }
}

/// The signed reading of one byte.
pub open spec fn i8_val(b: u8) -> int {
    if b >= 128 {
        b - 256
    } else {
        b as int
    }
}

/// The signed reading of a two-byte little-endian value.
pub open spec fn i16_val(v: int) -> int {
    if v >= 0x8000 {
        v - 0x10000
    } else {
        v
    }
}

/// The signed reading of a four-byte little-endian value.
pub open spec fn i32_val(v: int) -> int {
    if v >= 0x80000000 {
        v - 0x100000000
    } else {
        v
    }
}

/// The length-encoding subcodec. The top two bits of the first byte select
/// the scheme: `00` a 6-bit length, `01` a 14-bit length (low 6 bits plus
/// the next byte, low byte first), `10` a four-byte little-endian length,
/// `11` a special form (a signed 8-, 16- or 32-bit integer, returned as its
/// decimal text in either mode, or a compressed string, which is refused).
/// In `Integer` mode the length itself is the value, as decimal text; in
/// `Text` mode the following length-many bytes are decoded as text.
pub open spec fn spec_extract_value(s: Seq<u8>, pos: int, lek: LengthEncodedKind) -> Result<
    (Seq<char>, int),
    RdbError,
> {
    if pos < 0 || pos >= s.len() {
        Err(RdbError::Truncated)
    } else {
        let b = s[pos];
        let top = b / 64;
        let low = (b % 64) as int;
        if top == 0 {
            if lek == LengthEncodedKind::Integer {
                Ok((dec_nat(low as nat), pos + 1))
            } else {
                spec_text_payload(s, pos + 1, low)
            }
        } else if top == 1 {
            if pos + 2 > s.len() {
                Err(RdbError::Truncated)
            } else {
                let l = low + 256 * s[pos + 1];
                if lek == LengthEncodedKind::Integer {
                    Ok((dec_nat(l as nat), pos + 2))
                } else {
                    spec_text_payload(s, pos + 2, l)
                }
            }
        } else if top == 2 {
            if pos + 5 > s.len() {
                Err(RdbError::Truncated)
            } else {
                let l = le_val(s, pos + 1, 4);
                if lek == LengthEncodedKind::Integer {
                    Ok((dec_nat(l as nat), pos + 5))
                } else {
                    spec_text_payload(s, pos + 5, l)
                }
            }
        } else {
            if low == 0 {
                if pos + 2 > s.len() {
                    Err(RdbError::Truncated)
                } else {
                    Ok((dec_int(i8_val(s[pos + 1])), pos + 2))
                }
            } else if low == 1 {
                if pos + 3 > s.len() {
                    Err(RdbError::Truncated)
                } else {
                    Ok((dec_int(i16_val(le_val(s, pos + 1, 2))), pos + 3))
                }
            } else if low == 2 {
                if pos + 5 > s.len() {
                    Err(RdbError::Truncated)
                } else {
                    Ok((dec_int(i32_val(le_val(s, pos + 1, 4))), pos + 5))
                }
            } else if low == 3 {
                Err(RdbError::LzfDecompressFailure)
            } else {
                Err(RdbError::BadLengthEncoding)
            }
        }
    }
}

/// The text read from `l` payload bytes at `pos`.
pub open spec fn spec_text_payload(s: Seq<u8>, pos: int, l: int) -> Result<
    (Seq<char>, int),
    RdbError,
> {
    if pos + l > s.len() {
        Err(RdbError::Truncated)
    } else {
        let payload = s.subrange(pos, pos + l);
        if valid_utf8(payload) {
            Ok((decode_utf8(payload), pos + l))
        } else {
            Err(RdbError::BadStringPayload)
        }
    }
}

/// Relies on the standard library's `String::from_utf8`: it succeeds
/// exactly on valid UTF-8 and decodes the bytes to their characters.
#[verifier::external_body]
fn bytes_to_string(v: Vec<u8>) -> (r: Option<String>)
    ensures
        r is Some <==> valid_utf8(v@),
        r is Some ==> r->0@ == decode_utf8(v@),
{
    match String::from_utf8(v) {
        Ok(s) => Some(s),
        Err(_) => None,
    }
}

/// Decodes `l` payload bytes at `pos` as text.
fn text_payload(bytes: &[u8], pos: usize, l: u64) -> (r: Result<(String, usize), RdbError>)
    requires
        pos <= bytes@.len(),
    ensures
        match r {
            Ok(p) => pos <= p.1 <= bytes@.len() && spec_text_payload(bytes@, pos as int, l as int)
                == Ok::<(Seq<char>, int), RdbError>((p.0@, p.1 as int)),
            Err(e) => spec_text_payload(bytes@, pos as int, l as int) == Err::<
                (Seq<char>, int),
                RdbError,
            >(e),
        },
{
    let len = bytes.len();
    let remaining = (len - pos) as u64;
    if l > remaining {
        return Err(RdbError::Truncated);
    }
    let l = l as usize;
    let payload = vstd::slice::slice_to_vec(vstd::slice::slice_subrange(bytes, pos, pos + l));
    match bytes_to_string(payload) {
        Some(text) => Ok((text, pos + l)),
        None => Err(RdbError::BadStringPayload),
    }
}

/// Reads one length-encoded item at `pos`.
pub fn extract_value(bytes: &[u8], pos: usize, lek: LengthEncodedKind) -> (r: Result<
    (String, usize),
    RdbError,
>)
    requires
        pos <= bytes@.len(),
    ensures
        match r {
            Ok(p) => pos < p.1 <= bytes@.len() && spec_extract_value(bytes@, pos as int, lek)
                == Ok::<(Seq<char>, int), RdbError>((p.0@, p.1 as int)),
            Err(e) => spec_extract_value(bytes@, pos as int, lek) == Err::<
                (Seq<char>, int),
                RdbError,
            >(e),
        },
{
    let len = bytes.len();
    if pos >= len {
        return Err(RdbError::Truncated);
    }
    let b = bytes[pos];
    let top = b / 64;
    let low = b % 64;
    if top == 0 {
        if lek == LengthEncodedKind::Integer {
            Ok((crate::decimal::u64_to_dec(low as u64), pos + 1))
        } else {
            text_payload(bytes, pos + 1, low as u64)
        }
    } else if top == 1 {
        if len - pos < 2 {
            return Err(RdbError::Truncated);
        }
        let l: u64 = low as u64 + 256 * (bytes[pos + 1] as u64);
        if lek == LengthEncodedKind::Integer {
            Ok((crate::decimal::u64_to_dec(l), pos + 2))
        } else {
            text_payload(bytes, pos + 2, l)
        }
    } else if top == 2 {
        if len - pos < 5 {
            return Err(RdbError::Truncated);
        }
        let l = le_bytes_val(bytes, pos + 1, 4);
        if lek == LengthEncodedKind::Integer {
            Ok((crate::decimal::u64_to_dec(l), pos + 5))
        } else {
            text_payload(bytes, pos + 5, l)
        }
    } else {
        if low == 0 {
            if len - pos < 2 {
                return Err(RdbError::Truncated);
            }
            let v = bytes[pos + 1];
            let sv: i64 = if v >= 128 {
                v as i64 - 256
            } else {
                v as i64
            };
            Ok((crate::decimal::i64_to_dec(sv), pos + 2))
        } else if low == 1 {
            if len - pos < 3 {
                return Err(RdbError::Truncated);
            }
            let u = le_bytes_val(bytes, pos + 1, 2);
            proof {
                lemma_le_val_bound(bytes@, pos + 1, 2);
                lemma_pow256_values();
            }
            let sv: i64 = if u >= 0x8000 {
                u as i64 - 0x10000
            } else {
                u as i64
            };
            Ok((crate::decimal::i64_to_dec(sv), pos + 3))
        } else if low == 2 {
            if len - pos < 5 {
                return Err(RdbError::Truncated);
            }
            let u = le_bytes_val(bytes, pos + 1, 4);
            proof {
                lemma_le_val_bound(bytes@, pos + 1, 4);
                lemma_pow256_values();
            }
            let sv: i64 = if u >= 0x80000000 {
                u as i64 - 0x100000000
            } else {
                u as i64
            };
            Ok((crate::decimal::i64_to_dec(sv), pos + 5))
        } else if low == 3 {
            Err(RdbError::LzfDecompressFailure)
        } else {
            Err(RdbError::BadLengthEncoding)
        }
    }
}

/// The database index read from the selector's decimal text; text that is
/// not an index in range reads as zero.
pub open spec fn spec_parse_u32_or0(t: Seq<char>) -> u32 {
    match spec_parse_u64(t) {
        Some(v) => if v <= u32::MAX {
            v as u32
        } else {
            0
        },
        None => 0,
    }
}

/// A declared table size read from decimal text; text that is not a size in
/// range reads as zero.
pub open spec fn spec_parse_usize_or0(t: Seq<char>) -> usize {
    match spec_parse_u64(t) {
        Some(v) => if v <= usize::MAX {
            v as usize
        } else {
            0
        },
        None => 0,
    }
}

fn parse_u32_or0(t: &String) -> (r: u32)
    ensures
        r == spec_parse_u32_or0(t@),
{
    match crate::decimal::parse_u64(t.as_str()) {
        Some(v) => {
            if v <= u32::MAX as u64 {
                v as u32
            } else {
                0
            }
        },
        None => 0,
    }
}

fn parse_usize_or0(t: &String) -> (r: usize)
    ensures
        r == spec_parse_usize_or0(t@),
{
    match crate::decimal::parse_u64(t.as_str()) {
        Some(v) => {
            if v <= usize::MAX as u64 {
                v as usize
            } else {
                0
            }
        },
        None => 0,
    }
}

/// Decodes the opcode-tagged sections from `pos` to the end-of-file opcode.
/// `pending` is the expiry instant announced by a preceding expiry prefix,
/// waiting for its data entry; a zero expiry means no expiry. Any byte that
/// is no known opcode tags a data entry: a length-encoded key, then a
/// length-encoded string value.
pub open spec fn spec_sections(s: Seq<u8>, pos: int, pending: Option<u64>, m: RdbModel) -> Result<
    RdbModel,
    RdbError,
>
    decreases s.len() - pos,
{
    if pos < 0 || pos >= s.len() {
        Err(RdbError::Truncated)
    } else {
        let b = s[pos];
        if b == 0xFA {
            match spec_extract_value(s, pos + 1, LengthEncodedKind::Text) {
                Ok((k, p2)) => match spec_extract_value(s, p2, LengthEncodedKind::Text) {
                    Ok((v, p3)) => {
                        if pos < p3 <= s.len() {
                            spec_sections(
                                s,
                                p3,
                                pending,
                                RdbModel { metadata: m.metadata.insert(k, v), ..m },
                            )
                        } else {
                            Err(RdbError::Truncated)
                        }
                    },
                    Err(e) => Err(e),
                },
                Err(e) => Err(e),
            }
        } else if b == 0xFE {
            match spec_extract_value(s, pos + 1, LengthEncodedKind::Integer) {
                Ok((t, p2)) => {
                    if pos < p2 <= s.len() {
                        spec_sections(
                            s,
                            p2,
                            pending,
                            RdbModel { selected_db: spec_parse_u32_or0(t), ..m },
                        )
                    } else {
                        Err(RdbError::Truncated)
                    }
                },
                Err(e) => Err(e),
            }
        } else if b == 0xFB {
            match spec_extract_value(s, pos + 1, LengthEncodedKind::Integer) {
                Ok((t1, p2)) => match spec_extract_value(s, p2, LengthEncodedKind::Integer) {
                    Ok((t2, p3)) => {
                        if pos < p3 <= s.len() {
                            spec_sections(
                                s,
                                p3,
                                pending,
                                RdbModel {
                                    db_hash_table_size: spec_parse_usize_or0(t1) as int,
                                    expiry_hash_table_size: spec_parse_usize_or0(t2) as int,
                                    ..m
                                },
                            )
                        } else {
                            Err(RdbError::Truncated)
                        }
                    },
                    Err(e) => Err(e),
                },
                Err(e) => Err(e),
            }
        } else if b == 0xFF {
            if pos + 9 <= s.len() {
                Ok(RdbModel { original_checksum: le_val(s, pos + 1, 8) as u64, ..m })
            } else {
                Err(RdbError::Truncated)
            }
        } else if b == 0xFC {
            if pos + 9 <= s.len() {
                let ms = le_val(s, pos + 1, 8) as u64;
                spec_sections(
                    s,
                    pos + 9,
                    if ms == 0 {
                        None
                    } else {
                        Some(ms)
                    },
                    m,
                )
            } else {
                Err(RdbError::Truncated)
            }
        } else if b == 0xFD {
            if pos + 5 <= s.len() {
                let secs = le_val(s, pos + 1, 4);
                spec_sections(
                    s,
                    pos + 5,
                    if secs == 0 {
                        None
                    } else {
                        Some((secs * 1000) as u64)
                    },
                    m,
                )
            } else {
                Err(RdbError::Truncated)
            }
        } else {
            match spec_extract_value(s, pos + 1, LengthEncodedKind::Text) {
                Ok((k, p2)) => match spec_extract_value(s, p2, LengthEncodedKind::Text) {
                    Ok((v, p3)) => {
                        if pos < p3 <= s.len() {
                            spec_sections(
                                s,
                                p3,
                                None,
                                RdbModel {
                                    data: m.data.insert(
                                        k,
                                        EntryModel {
                                            value: RespData::SimpleString(v),
                                            expires_at: pending,
                                        },
                                    ),
                                    ..m
                                },
                            )
                        } else {
                            Err(RdbError::Truncated)
                        }
                    },
                    Err(e) => Err(e),
                },
                Err(e) => Err(e),
            }
        }
    }
}

/// Decodes the sections of a snapshot, threading the keyspace being built.
fn rdb_sections(bytes: &[u8], pos: usize, pending: Option<u64>, rdb: Rdb) -> (r: Result<
    Rdb,
    RdbError,
>)
    requires
        pos <= bytes@.len(),
    ensures
        match r {
            Ok(out) => spec_sections(bytes@, pos as int, pending, rdb@) == Ok::<RdbModel, RdbError>(
                out@,
            ),
            Err(e) => spec_sections(bytes@, pos as int, pending, rdb@) == Err::<
                RdbModel,
                RdbError,
            >(e),
        },
    decreases bytes@.len() - pos,
{
    let mut rdb = rdb;
    let len = bytes.len();
    if pos >= len {
        return Err(RdbError::Truncated);
    }
    let b = bytes[pos];
    if b == 0xFA {
        let (key, p2) = match extract_value(bytes, pos + 1, LengthEncodedKind::Text) {
            Ok(p) => p,
            Err(e) => {
                return Err(e);
            },
        };
        let (value, p3) = match extract_value(bytes, p2, LengthEncodedKind::Text) {
            Ok(p) => p,
            Err(e) => {
                return Err(e);
            },
        };
        rdb.push_metadata(key, value);
        rdb_sections(bytes, p3, pending, rdb)
    } else if b == 0xFE {
        let (t, p2) = match extract_value(bytes, pos + 1, LengthEncodedKind::Integer) {
            Ok(p) => p,
            Err(e) => {
                return Err(e);
            },
        };
        let db = parse_u32_or0(&t);
        rdb.set_selected_db(db);
        rdb_sections(bytes, p2, pending, rdb)
    } else if b == 0xFB {
        let (t1, p2) = match extract_value(bytes, pos + 1, LengthEncodedKind::Integer) {
            Ok(p) => p,
            Err(e) => {
                return Err(e);
            },
        };
        let (t2, p3) = match extract_value(bytes, p2, LengthEncodedKind::Integer) {
            Ok(p) => p,
            Err(e) => {
                return Err(e);
            },
        };
        let db_size = parse_usize_or0(&t1);
        let expiry_size = parse_usize_or0(&t2);
        rdb.set_table_sizes(db_size, expiry_size);
        rdb_sections(bytes, p3, pending, rdb)
    } else if b == 0xFF {
        if len - pos < 9 {
            return Err(RdbError::Truncated);
        }
        proof {
            lemma_le_val_bound(bytes@, pos + 1, 8);
            lemma_pow256_values();
        }
        let checksum = le_bytes_val(bytes, pos + 1, 8);
        rdb.set_checksum(checksum);
        Ok(rdb)
    } else if b == 0xFC {
        if len - pos < 9 {
            return Err(RdbError::Truncated);
        }
        proof {
            lemma_le_val_bound(bytes@, pos + 1, 8);
            lemma_pow256_values();
        }
        let ms = le_bytes_val(bytes, pos + 1, 8);
        let pending2: Option<u64> = if ms == 0 {
            None
        } else {
            Some(ms)
        };
        rdb_sections(bytes, pos + 9, pending2, rdb)
    } else if b == 0xFD {
        if len - pos < 5 {
            return Err(RdbError::Truncated);
        }
        proof {
            lemma_le_val_bound(bytes@, pos + 1, 4);
            lemma_pow256_values();
        }
        let secs = le_bytes_val(bytes, pos + 1, 4);
        let pending2: Option<u64> = if secs == 0 {
            None
        } else {
            Some(secs * 1000)
        };
        rdb_sections(bytes, pos + 5, pending2, rdb)
    } else {
        let (key, p2) = match extract_value(bytes, pos + 1, LengthEncodedKind::Text) {
            Ok(p) => p,
            Err(e) => {
                return Err(e);
            },
        };
        let (value, p3) = match extract_value(bytes, p2, LengthEncodedKind::Text) {
            Ok(p) => p,
            Err(e) => {
                return Err(e);
            },
        };
        let entry = DBEntry::new(RESPValue::SimpleString(value), pending);
        rdb.insert_entry(key, entry);
        rdb_sections(bytes, p3, None, rdb)
    }
}

/// What a snapshot's bytes decode to: the nine-byte header (the magic text
/// then a four-character version), then the tagged sections up to the
/// end-of-file opcode.
pub open spec fn spec_decode_rdb(s: Seq<u8>) -> Result<RdbModel, RdbError> {
    if s.len() < 9 {
        Err(RdbError::Truncated)
    } else if !(s[0] == 82 && s[1] == 69 && s[2] == 68 && s[3] == 73 && s[4] == 83) {
        Err(RdbError::InvalidMagic)
    } else if !valid_utf8(s.subrange(5, 9)) {
        Err(RdbError::BadStringPayload)
    } else {
        spec_sections(
            s,
            9,
            None,
            RdbModel { version: decode_utf8(s.subrange(5, 9)), ..empty_rdb() },
        )
    }
}

/// Decodes a whole snapshot into a keyspace with its framing.
pub fn decode_rdb(bytes: &[u8]) -> (r: Result<Rdb, RdbError>)
    ensures
        match r {
            Ok(rdb) => spec_decode_rdb(bytes@) == Ok::<RdbModel, RdbError>(rdb@),
            Err(e) => spec_decode_rdb(bytes@) == Err::<RdbModel, RdbError>(e),
        },
{
    let len = bytes.len();
    if len < 9 {
        return Err(RdbError::Truncated);
    }
    if !(bytes[0] == 82 && bytes[1] == 69 && bytes[2] == 68 && bytes[3] == 73 && bytes[4] == 83) {
        return Err(RdbError::InvalidMagic);
    }
    let version_bytes = vstd::slice::slice_to_vec(vstd::slice::slice_subrange(bytes, 5, 9));
    let version = match bytes_to_string(version_bytes) {
        Some(v) => v,
        None => {
            return Err(RdbError::BadStringPayload);
        },
    };
    let mut rdb = Rdb::default();
    rdb.set_version(version);
    rdb_sections(bytes, 9, None, rdb)
}

/// Bytes that are plain ASCII text.
pub open spec fn all_ascii(b: Seq<u8>) -> bool {
    forall|i: int| 0 <= i < b.len() ==> (#[trigger] b[i]) < 128
}

/// The characters spelled by ASCII bytes.
pub open spec fn ascii_chars(b: Seq<u8>) -> Seq<char> {
    Seq::new(b.len(), |i: int| b[i] as char)
}

/// ASCII bytes are valid UTF-8 and decode to their own characters.
pub proof fn lemma_ascii_decode(b: Seq<u8>)
    requires
        all_ascii(b),
    ensures
        valid_utf8(b),
        decode_utf8(b) == ascii_chars(b),
{
    let cs = ascii_chars(b);
    assert(vstd::utf8::is_ascii_chars(cs)) by {
        assert forall|i: int| 0 <= i < cs.len() implies ((#[trigger] cs[i]) as u32) < 128 by {
            assert(b[i] < 128);
        }
    }
    vstd::utf8::is_ascii_chars_encode_utf8(cs);
    assert(vstd::utf8::encode_utf8(cs) =~= b) by {
        assert forall|i: int| 0 <= i < cs.len() implies cs[i] as u8 == b[i] by {
            assert(b[i] < 128);
        }
    }
    vstd::utf8::encode_utf8_valid_utf8(cs);
    vstd::utf8::encode_utf8_decode_utf8(cs);
}

/// The little-endian bytes of a value.
pub open spec fn le_bytes(v: int, n: int) -> Seq<u8>
    decreases n,
{
    if n <= 0 {
        Seq::empty()
    } else {
        seq![(v % 256) as u8] + le_bytes(v / 256, n - 1)
    }
}

pub proof fn lemma_le_bytes_len(v: int, n: int)
    requires
        0 <= n,
    ensures
        le_bytes(v, n).len() == n,
    decreases n,
{
    if n > 0 {
        lemma_le_bytes_len(v / 256, n - 1);
    }
}

/// Reading back the little-endian bytes of a value yields the value.
pub proof fn lemma_le_bytes_read(s: Seq<u8>, pos: int, v: int, n: int)
    requires
        0 <= n,
        0 <= v < pow256(n),
        forall|i: int| 0 <= i < n ==> s[pos + i] == le_bytes(v, n)[i],
    ensures
        le_val(s, pos, n) == v,
    decreases n,
{
    lemma_le_bytes_len(v, n);
    if n > 0 {
        lemma_le_bytes_len(v / 256, n - 1);
        vstd::arithmetic::div_mod::lemma_fundamental_div_mod(v, 256);
        if v / 256 >= pow256(n - 1) {
            assert(256 * (v / 256) >= 256 * pow256(n - 1));
            assert(false);
        }
        assert forall|i: int| 0 <= i < n - 1 implies s[pos + 1 + i] == #[trigger] le_bytes(
            v / 256,
            n - 1,
        )[i] by {
            assert(s[pos + 1 + i] == le_bytes(v, n)[i + 1]);
        }
        lemma_le_bytes_read(s, pos + 1, v / 256, n - 1);
        assert(s[pos] == le_bytes(v, n)[0]);
    }
}

/// A snapshot entry this round trip covers: an ASCII key and string value
/// of at most 63 bytes each, and an optional nonzero expiry instant.
pub open spec fn snapshot_entry_wf(e: (Seq<u8>, Seq<u8>, Option<u64>)) -> bool {
    &&& e.0.len() <= 63
    &&& e.1.len() <= 63
    &&& all_ascii(e.0)
    &&& all_ascii(e.1)
    &&& (e.2 is Some ==> e.2->0 != 0)
}

/// The body of a data entry: the string type tag, then the length-prefixed
/// key and value.
pub open spec fn snapshot_entry_body(key: Seq<u8>, val: Seq<u8>) -> Seq<u8> {
    seq![0u8] + seq![key.len() as u8] + key + seq![val.len() as u8] + val
}

/// The bytes of one entry: an optional millisecond-expiry prefix, then the
/// entry body.
pub open spec fn snapshot_entry_bytes(e: (Seq<u8>, Seq<u8>, Option<u64>)) -> Seq<u8> {
    (match e.2 {
        Some(ms) => seq![0xFCu8] + le_bytes(ms as int, 8),
        None => Seq::empty(),
    }) + snapshot_entry_body(e.0, e.1)
}

/// The bytes of the entries from index `i` on.
pub open spec fn snapshot_entries_bytes(entries: Seq<(Seq<u8>, Seq<u8>, Option<u64>)>, i: int) -> Seq<
    u8,
>
    decreases entries.len() - i,
{
    if i < 0 || i >= entries.len() {
        Seq::empty()
    } else {
        snapshot_entry_bytes(entries[i]) + snapshot_entries_bytes(entries, i + 1)
    }
}

/// A whole snapshot: the magic header and version, the entries, the
/// end-of-file opcode and the checksum.
pub open spec fn snapshot_bytes(entries: Seq<(Seq<u8>, Seq<u8>, Option<u64>)>, ck: u64) -> Seq<
    u8,
> {
    seq![82u8, 69u8, 68u8, 73u8, 83u8, 48u8, 48u8, 49u8, 49u8] + snapshot_entries_bytes(entries, 0)
        + seq![255u8] + le_bytes(ck as int, 8)
}

/// The mapping the entries from index `i` on build over `m`, later entries
/// shadowing earlier ones.
pub open spec fn snapshot_map(
    entries: Seq<(Seq<u8>, Seq<u8>, Option<u64>)>,
    i: int,
    m: Map<Seq<char>, EntryModel>,
) -> Map<Seq<char>, EntryModel>
    decreases entries.len() - i,
{
    if i < 0 || i >= entries.len() {
        m
    } else {
        snapshot_map(
            entries,
            i + 1,
            m.insert(
                ascii_chars(entries[i].0),
                EntryModel {
                    value: RespData::SimpleString(ascii_chars(entries[i].1)),
                    expires_at: entries[i].2,
                },
            ),
        )
    }
}

/// Decoding the length-prefixed ASCII text at `pos` yields its characters.
proof fn lemma_snapshot_text(s: Seq<u8>, pos: int, text: Seq<u8>)
    requires
        0 <= pos,
        pos + 1 + text.len() <= s.len(),
        text.len() <= 63,
        all_ascii(text),
        s[pos] == text.len() as u8,
        forall|i: int| 0 <= i < text.len() ==> s[pos + 1 + i] == text[i],
    ensures
        spec_extract_value(s, pos, LengthEncodedKind::Text) == Ok::<(Seq<char>, int), RdbError>(
            (ascii_chars(text), pos + 1 + text.len()),
        ),
{
    let b = s[pos];
    assert(b / 64 == 0);
    assert(b % 64 == text.len());
    assert(s.subrange(pos + 1, pos + 1 + text.len()) =~= text);
    lemma_ascii_decode(text);
}

/// Decoding the sections of a data entry's body, then the rest of the
/// snapshot.
#[verifier::rlimit(80)]
proof fn lemma_snapshot_data_entry(
    s: Seq<u8>,
    pos: int,
    entries: Seq<(Seq<u8>, Seq<u8>, Option<u64>)>,
    i: int,
    ck: u64,
    m: RdbModel,
)
    requires
        0 <= i < entries.len(),
        0 <= pos <= s.len(),
        s.subrange(pos, s.len() as int) == snapshot_entry_body(entries[i].0, entries[i].1)
            + snapshot_entries_bytes(entries, i + 1) + seq![255u8] + le_bytes(ck as int, 8),
        forall|j: int| i <= j < entries.len() ==> snapshot_entry_wf(#[trigger] entries[j]),
    ensures
        spec_sections(s, pos, entries[i].2, m) == Ok::<RdbModel, RdbError>(
            RdbModel {
                data: snapshot_map(entries, i, m.data),
                original_checksum: ck,
                ..m
            },
        ),
    decreases entries.len() - i, 0int,
{
    let key = entries[i].0;
    let val = entries[i].1;
    let body = snapshot_entry_body(key, val);
    let rest = snapshot_entries_bytes(entries, i + 1) + seq![255u8] + le_bytes(ck as int, 8);
    let suffix = s.subrange(pos, s.len() as int);
    lemma_le_bytes_len(ck as int, 8);
    assert(snapshot_entry_wf(entries[i]));
    assert(body.len() == 3 + key.len() + val.len());
    assert(suffix =~= body + rest);
    assert(suffix.len() == body.len() + rest.len());
    assert(s[pos] == suffix[0]);
    assert(suffix[0] == body[0]);
    assert(s[pos] == 0u8);
    // The key.
    assert(s[pos + 1] == suffix[1]);
    assert(suffix[1] == body[1]);
    assert forall|k: int| 0 <= k < key.len() implies s[pos + 2 + k] == key[k] by {
        assert(s[pos + 2 + k] == suffix[2 + k]);
        assert(suffix[2 + k] == body[2 + k]);
        assert(body[2 + k] == key[k]);
    }
    lemma_snapshot_text(s, pos + 1, key);
    let p2 = pos + 2 + key.len();
    // The value.
    assert(s[p2] == suffix[2 + key.len() as int]);
    assert(suffix[2 + key.len() as int] == body[2 + key.len() as int]);
    assert forall|k: int| 0 <= k < val.len() implies s[p2 + 1 + k] == val[k] by {
        assert(s[p2 + 1 + k] == suffix[3 + key.len() + k]);
        assert(suffix[3 + key.len() + k] == body[3 + key.len() + k]);
        assert(body[3 + key.len() as int + k] == val[k]);
    }
    lemma_snapshot_text(s, p2, val);
    let p3 = p2 + 1 + val.len();
    // The remainder is the rest of the snapshot.
    assert(s.subrange(p3, s.len() as int) =~= rest) by {
        assert forall|k: int| 0 <= k < rest.len() implies s[p3 + k] == rest[k] by {
            assert(s[p3 + k] == suffix[body.len() + k]);
            assert(suffix[body.len() + k] == rest[k]);
        }
    }
    let m2 = RdbModel {
        data: m.data.insert(
            ascii_chars(key),
            EntryModel { value: RespData::SimpleString(ascii_chars(val)), expires_at: entries[i].2 },
        ),
        ..m
    };
    lemma_snapshot_sections(s, p3, entries, i + 1, ck, m2);
}

/// Decoding an entry that carries a millisecond-expiry prefix.
#[verifier::rlimit(80)]
proof fn lemma_snapshot_expiry_entry(
    s: Seq<u8>,
    pos: int,
    entries: Seq<(Seq<u8>, Seq<u8>, Option<u64>)>,
    i: int,
    ck: u64,
    m: RdbModel,
)
    requires
        0 <= i < entries.len(),
        0 <= pos <= s.len(),
        entries[i].2 is Some,
        s.subrange(pos, s.len() as int) == snapshot_entry_bytes(entries[i])
            + (snapshot_entries_bytes(entries, i + 1) + seq![255u8] + le_bytes(ck as int, 8)),
        forall|j: int| i <= j < entries.len() ==> snapshot_entry_wf(#[trigger] entries[j]),
    ensures
        spec_sections(s, pos, None, m) == Ok::<RdbModel, RdbError>(
            RdbModel {
                data: snapshot_map(entries, i, m.data),
                original_checksum: ck,
                ..m
            },
        ),
    decreases entries.len() - i, 1int,
{
    let ms = entries[i].2->0;
    let eb = snapshot_entry_bytes(entries[i]);
    let body = snapshot_entry_body(entries[i].0, entries[i].1);
    let rest = snapshot_entries_bytes(entries, i + 1) + seq![255u8] + le_bytes(ck as int, 8);
    let suffix = s.subrange(pos, s.len() as int);
    assert(snapshot_entry_wf(entries[i]));
    lemma_le_bytes_len(ms as int, 8);
    lemma_le_bytes_len(ck as int, 8);
    assert(eb =~= (seq![0xFCu8] + le_bytes(ms as int, 8)) + body);
    assert(eb.len() == 9 + body.len());
    assert(suffix == eb + rest);
    assert(rest.len() >= 9);
    assert(suffix.len() == eb.len() + rest.len());
    assert(pos + 9 <= s.len());
    assert(s[pos] == suffix[0]);
    assert(suffix[0] == eb[0]);
    assert(s[pos] == 0xFCu8);
    lemma_pow256_values();
    lemma_le_val_bound(s, pos + 1, 8);
    assert forall|k: int| 0 <= k < 8 implies s[pos + 1 + k] == #[trigger] le_bytes(
        ms as int,
        8,
    )[k] by {
        assert(s[pos + 1 + k] == suffix[1 + k]);
        assert(suffix[1 + k] == eb[1 + k]);
        assert(eb[1 + k] == le_bytes(ms as int, 8)[k]);
    }
    lemma_le_bytes_read(s, pos + 1, ms as int, 8);
    assert(le_val(s, pos + 1, 8) == ms);
    assert(ms != 0);
    assert(s.subrange(pos + 9, s.len() as int) =~= body + rest) by {
        assert forall|k: int| 0 <= k < body.len() + rest.len() implies s[pos + 9 + k] == (body
            + rest)[k] by {
            assert(s[pos + 9 + k] == suffix[9 + k]);
            assert(suffix[9 + k] == (eb + rest)[9 + k]);
        }
    }
    assert(body + rest =~= snapshot_entry_body(entries[i].0, entries[i].1)
        + snapshot_entries_bytes(entries, i + 1) + seq![255u8] + le_bytes(ck as int, 8));
    lemma_snapshot_data_entry(s, pos + 9, entries, i, ck, m);
}

/// Decoding the sections of the entries from index `i` on, then the
/// end-of-file section.
#[verifier::rlimit(80)]
proof fn lemma_snapshot_sections(
    s: Seq<u8>,
    pos: int,
    entries: Seq<(Seq<u8>, Seq<u8>, Option<u64>)>,
    i: int,
    ck: u64,
    m: RdbModel,
)
    requires
        0 <= i <= entries.len(),
        0 <= pos <= s.len(),
        s.subrange(pos, s.len() as int) == snapshot_entries_bytes(entries, i) + seq![255u8]
            + le_bytes(ck as int, 8),
        forall|j: int| i <= j < entries.len() ==> snapshot_entry_wf(#[trigger] entries[j]),
    ensures
        spec_sections(s, pos, None, m) == Ok::<RdbModel, RdbError>(
            RdbModel {
                data: snapshot_map(entries, i, m.data),
                original_checksum: ck,
                ..m
            },
        ),
    decreases entries.len() - i, 2int,
{
    let suffix = s.subrange(pos, s.len() as int);
    lemma_le_bytes_len(ck as int, 8);
    if i >= entries.len() {
        assert(snapshot_entries_bytes(entries, i) =~= Seq::<u8>::empty());
        assert(suffix =~= seq![255u8] + le_bytes(ck as int, 8));
        assert(suffix.len() == 9);
        assert(suffix.len() == s.len() - pos);
        assert(s[pos] == suffix[0]);
        assert(suffix[0] == 255u8);
        lemma_pow256_values();
        lemma_le_val_bound(s, pos + 1, 8);
        assert forall|k: int| 0 <= k < 8 implies s[pos + 1 + k] == #[trigger] le_bytes(
            ck as int,
            8,
        )[k] by {
            assert(s[pos + 1 + k] == suffix[1 + k]);
        }
        lemma_le_bytes_read(s, pos + 1, ck as int, 8);
    } else {
        assert(snapshot_entry_wf(entries[i]));
        let eb = snapshot_entry_bytes(entries[i]);
        let body = snapshot_entry_body(entries[i].0, entries[i].1);
        let rest = snapshot_entries_bytes(entries, i + 1) + seq![255u8] + le_bytes(ck as int, 8);
        assert(suffix =~= eb + rest);
        match entries[i].2 {
            None => {
                assert(eb =~= body);
                assert(s.subrange(pos, s.len() as int) =~= body + rest);
                assert(body + rest =~= snapshot_entry_body(entries[i].0, entries[i].1)
                    + snapshot_entries_bytes(entries, i + 1) + seq![255u8] + le_bytes(
                    ck as int,
                    8,
                ));
                lemma_snapshot_data_entry(s, pos, entries, i, ck, m);
            },
            Some(_) => {
                assert(s.subrange(pos, s.len() as int) =~= eb + rest);
                lemma_snapshot_expiry_entry(s, pos, entries, i, ck, m);
            },
        }
    }
}

/// Loading a snapshot that holds only string entries yields exactly those
/// keys, values and expiry instants, along with the header's version and
/// the recorded checksum.
#[verifier::rlimit(100)]
#[verifier::spinoff_prover]
pub proof fn lemma_snapshot_round_trip(
    entries: Seq<(Seq<u8>, Seq<u8>, Option<u64>)>,
    ck: u64,
)
    requires
        forall|j: int| 0 <= j < entries.len() ==> snapshot_entry_wf(#[trigger] entries[j]),
    ensures
        spec_decode_rdb(snapshot_bytes(entries, ck)) == Ok::<RdbModel, RdbError>(
            RdbModel {
                version: ascii_chars(seq![48u8, 48u8, 49u8, 49u8]),
                data: snapshot_map(entries, 0, Map::empty()),
                original_checksum: ck,
                ..empty_rdb()
            },
        ),
{
    let s = snapshot_bytes(entries, ck);
    let header = seq![82u8, 69u8, 68u8, 73u8, 83u8, 48u8, 48u8, 49u8, 49u8];
    let rest = snapshot_entries_bytes(entries, 0) + seq![255u8] + le_bytes(ck as int, 8);
    lemma_le_bytes_len(ck as int, 8);
    assert(s.len() >= 9);
    assert(s[0] == 82 && s[1] == 69 && s[2] == 68 && s[3] == 73 && s[4] == 83);
    let version_bytes = seq![48u8, 48u8, 49u8, 49u8];
    assert(s.subrange(5, 9) =~= version_bytes);
    lemma_ascii_decode(version_bytes);
    assert(s.subrange(9, s.len() as int) =~= rest);
    let m0 = RdbModel { version: ascii_chars(version_bytes), ..empty_rdb() };
    lemma_snapshot_sections(s, 9, entries, 0, ck, m0);
}

/// The name of a data-entry type tag.
pub open spec fn spec_datatype_name(b: u8) -> Seq<char> {
    if b == 0 {
        "String Encoding"@
    } else if b == 1 {
        "List Encoding"@
    } else if b == 2 {
        "Set Encoding"@
    } else if b == 3 {
        "Sorted Set Encoding"@
    } else if b == 4 {
        "Hash Encoding"@
    } else if b == 9 {
        "Zipmap Encoding"@
    } else if b == 10 {
        "Ziplist Encoding"@
    } else if b == 11 {
        "Intset Encoding"@
    } else if b == 12 {
        "Sorted Set in Ziplist Encoding"@
    } else if b == 13 {
        "Hashmap in Ziplist Encoding"@
    } else if b == 14 {
        "List in Quicklist encoding"@
    } else {
        "Unknown"@
    }
}

/// Names a data-entry type tag.
pub fn extract_datatype(byte: u8) -> (r: &'static str)
    ensures
        r@ == spec_datatype_name(byte),
{
    if byte == 0 {
        "String Encoding"
    } else if byte == 1 {
        "List Encoding"
    } else if byte == 2 {
        "Set Encoding"
    } else if byte == 3 {
        "Sorted Set Encoding"
    } else if byte == 4 {
        "Hash Encoding"
    } else if byte == 9 {
        "Zipmap Encoding"
    } else if byte == 10 {
        "Ziplist Encoding"
    } else if byte == 11 {
        "Intset Encoding"
    } else if byte == 12 {
        "Sorted Set in Ziplist Encoding"
    } else if byte == 13 {
        "Hashmap in Ziplist Encoding"
    } else if byte == 14 {
        "List in Quicklist encoding"
    } else {
        "Unknown"
    }
}

} // verus!
