//! Decoding of snapshot files: a fixed header, then records, of which the
//! plain-string entries give the key names that the snapshot holds.

use crate::buffer::{buf_advance, buf_byte, buf_contents, buf_from_slice, buf_len};
use bytes::BytesMut;
use vstd::prelude::*;
use vstd::utf8::{encode_utf8, valid_utf8};

verus! {

/// Why a snapshot could not be decoded.
#[derive(Debug, Clone, Copy, PartialEq, Eq, Structural)]
pub enum RdbError {
    /// The header, a length encoding or a string's text is invalid.
    FormatError,
    /// The data ends inside a record.
    UnexpectedEof,
}

/// The key names found in a snapshot, in file order.
#[derive(Debug)]
pub struct RDBData {
    pub keys: Vec<String>,
}

/// The nine-byte signature `REDIS0011` that opens a snapshot.
pub open spec fn header() -> Seq<u8> {
    seq![82u8, 69, 68, 73, 83, 48, 48, 49, 49]
}

/// The rest of `s` after its first `k` bytes.
pub open spec fn skip(s: Seq<u8>, k: int) -> Seq<u8> {
    s.subrange(k, s.len() as int)
}

/// A length field at the front of `s`: its value and the bytes after it.
/// The top two bits of the first byte choose a 6-bit length, a 14-bit
/// length over two bytes, a 4-byte big-endian length, or a special
/// encoding whose low bits 0, 1 and 2 stand for widths 1, 2 and 4.
pub open spec fn length_of(s: Seq<u8>) -> Result<(nat, Seq<u8>), RdbError> {
    if s.len() == 0 {
        Err(RdbError::UnexpectedEof)
    } else {
        let f = s[0];
        let mode = f / 64;
        let low = f % 64;
        if mode == 0 {
            Ok((low as nat, skip(s, 1)))
        } else if mode == 1 {
            if s.len() < 2 {
                Err(RdbError::UnexpectedEof)
            } else {
                Ok(((low * 256 + s[1]) as nat, skip(s, 2)))
            }
        } else if mode == 2 {
            if s.len() < 5 {
                Err(RdbError::UnexpectedEof)
            } else {
                Ok(
                    ((s[1] * 16777216 + s[2] * 65536 + s[3] * 256 + s[4]) as nat, skip(s, 5)),
                )
            }
        } else if low == 0 {
            Ok((1, skip(s, 1)))
        } else if low == 1 {
            Ok((2, skip(s, 1)))
        } else if low == 2 {
            Ok((4, skip(s, 1)))
        } else {
            Err(RdbError::FormatError)
        }
    }
}

/// A length-prefixed string at the front of `s`: its bytes, which must be
/// UTF-8 text, and the bytes after it.
pub open spec fn string_of(s: Seq<u8>) -> Result<(Seq<u8>, Seq<u8>), RdbError> {
    match length_of(s) {
        Err(e) => Err(e),
        Ok((n, r)) => if r.len() < n {
            Err(RdbError::UnexpectedEof)
        } else if !valid_utf8(r.subrange(0, n as int)) {
            Err(RdbError::FormatError)
        } else {
            Ok((r.subrange(0, n as int), skip(r, n as int)))
        },
    }
}

/// A key and a value at the front of `s`: the key's bytes and the bytes
/// after the value.
pub open spec fn entry_of(s: Seq<u8>) -> Result<(Seq<u8>, Seq<u8>), RdbError> {
    match string_of(s) {
        Err(e) => Err(e),
        Ok((k, r)) => match string_of(r) {
            Err(e) => Err(e),
            Ok((_v, r2)) => Ok((k, r2)),
        },
    }
}

/// An entry after an expiry of `width` bytes (the opcode already read):
/// the timestamp is skipped, then a value-type tag is read; tag 0 is a
/// string entry whose key is kept, any other tag is left behind.
pub open spec fn expiring_entry_of(s: Seq<u8>, width: int) -> Result<
    (Option<Seq<u8>>, Seq<u8>),
    RdbError,
> {
    if s.len() <= width {
        Err(RdbError::UnexpectedEof)
    } else if s[width] == 0 {
        match entry_of(skip(s, width + 1)) {
            Err(e) => Err(e),
            Ok((k, r)) => Ok((Some(k), r)),
        }
    } else {
        Ok((None, skip(s, width + 1)))
    }
}

/// A database selector after its opcode: the index, then, when the resize
/// opcode follows, two table sizes; all discarded.
pub open spec fn selector_of(s: Seq<u8>) -> Result<Seq<u8>, RdbError> {
    match length_of(s) {
        Err(e) => Err(e),
        Ok((_db, r)) => if r.len() > 0 && r[0] == 0xFB {
            match length_of(skip(r, 1)) {
                Err(e) => Err(e),
                Ok((_h, r2)) => match length_of(r2) {
                    Err(e) => Err(e),
                    Ok((_x, r3)) => Ok(r3),
                },
            }
        } else {
            Ok(r)
        },
    }
}

/// One record at the front of the non-empty `s`: `None` at the end marker,
/// else the key it adds, if any, and the bytes after it. Unknown opcodes
/// are passed over one byte at a time.
pub open spec fn record_of(s: Seq<u8>) -> Result<Option<(Option<Seq<u8>>, Seq<u8>)>, RdbError> {
    let op = s[0];
    let r = skip(s, 1);
    if op == 0xFF {
        Ok(None)
    } else if op == 0xFA {
        match entry_of(r) {
            Err(e) => Err(e),
            Ok((_k, r2)) => Ok(Some((None, r2))),
        }
    } else if op == 0xFE {
        match selector_of(r) {
            Err(e) => Err(e),
            Ok(r2) => Ok(Some((None, r2))),
        }
    } else if op == 0xFD {
        match expiring_entry_of(r, 4) {
            Err(e) => Err(e),
            Ok(x) => Ok(Some(x)),
        }
    } else if op == 0xFC {
        match expiring_entry_of(r, 8) {
            Err(e) => Err(e),
            Ok(x) => Ok(Some(x)),
        }
    } else if op == 0 {
        match entry_of(r) {
            Err(e) => Err(e),
            Ok((k, r2)) => Ok(Some((Some(k), r2))),
        }
    } else {
        Ok(Some((None, r)))
    }
}

/// `keys` followed by the keys of the records in `s`, up to the end marker
/// or the end of the data.
pub open spec fn keys_from(s: Seq<u8>, keys: Seq<Seq<u8>>) -> Result<Seq<Seq<u8>>, RdbError>
    decreases s.len(),
{
    if s.len() == 0 {
        Ok(keys)
    } else {
        match record_of(s) {
            Err(e) => Err(e),
            Ok(None) => Ok(keys),
            Ok(Some((k, r))) => if r.len() < s.len() {
                keys_from(
                    r,
                    match k {
                        Some(k) => keys.push(k),
                        None => keys,
                    },
                )
            } else {
                Ok(keys)
            },
        }
    }
}

/// The keys that snapshot data `s` holds, in file order.
pub open spec fn snapshot_keys(s: Seq<u8>) -> Result<Seq<Seq<u8>>, RdbError> {
    if s.len() < 9 || s.subrange(0, 9) != header() {
        Err(RdbError::FormatError)
    } else {
        keys_from(skip(s, 9), seq![])
    }
}

/// The UTF-8 bytes of each string.
pub open spec fn text_bytes(v: Seq<String>) -> Seq<Seq<u8>> {
    v.map_values(|k: String| encode_utf8(k@))
}

/// Relies on `String::from_utf8`: the text of the bytes, present exactly
/// when they are valid UTF-8.
#[verifier::external_body]
fn utf8_text(v: Vec<u8>) -> (r: Option<String>)
    ensures
        r is Some <==> valid_utf8(v@),
        r is Some ==> encode_utf8(r.unwrap()@) == v@,
{
    String::from_utf8(v).ok()
}

/// Takes the first byte off the buffer.
fn take_byte(b: &mut BytesMut) -> (r: u8)
    requires
        buf_contents(*old(b)).len() > 0,
    ensures
        r == buf_contents(*old(b))[0],
        buf_contents(*final(b)) == skip(buf_contents(*old(b)), 1),
{
    let c = buf_byte(b, 0);
    buf_advance(b, 1);
    c
}

/// Reads a length field off the front of the buffer.
fn read_length(b: &mut BytesMut) -> (r: Result<usize, RdbError>)
    ensures
        buf_contents(*final(b)).len() <= buf_contents(*old(b)).len(),
        match length_of(buf_contents(*old(b))) {
            Err(e) => r == Err::<usize, RdbError>(e),
            Ok((n, rest)) => r == Ok::<usize, RdbError>(n as usize) && buf_contents(*final(b))
                == rest,
        },
{
    let ghost s = buf_contents(*b);
    if buf_len(b) == 0 {
        return Err(RdbError::UnexpectedEof);
    }
    let first = take_byte(b);
    let mode = first / 64;
    let low = first % 64;
    if mode == 0 {
        Ok(low as usize)
    } else if mode == 1 {
        if buf_len(b) == 0 {
            return Err(RdbError::UnexpectedEof);
        }
        let next = take_byte(b);
        proof {
            assert(skip(skip(s, 1), 1) =~= skip(s, 2));
        }
        Ok((low as usize) * 256 + next as usize)
    } else if mode == 2 {
        if buf_len(b) < 4 {
            return Err(RdbError::UnexpectedEof);
        }
        let b1 = take_byte(b);
        let b2 = take_byte(b);
        let b3 = take_byte(b);
        let b4 = take_byte(b);
        proof {
            assert(skip(skip(skip(skip(skip(s, 1), 1), 1), 1), 1) =~= skip(s, 5));
        }
        Ok((b1 as usize) * 16777216 + (b2 as usize) * 65536 + (b3 as usize) * 256 + b4 as usize)
    } else if low == 0 {
        Ok(1)
    } else if low == 1 {
        Ok(2)
    } else if low == 2 {
        Ok(4)
    } else {
        Err(RdbError::FormatError)
    }
}

/// Reads a length-prefixed string of UTF-8 text off the front of the buffer.
fn read_string(b: &mut BytesMut) -> (r: Result<String, RdbError>)
    ensures
        buf_contents(*final(b)).len() <= buf_contents(*old(b)).len(),
        match string_of(buf_contents(*old(b))) {
            Err(e) => r == Err::<String, RdbError>(e),
            Ok((t, rest)) => r is Ok && encode_utf8(r.unwrap()@) == t && buf_contents(*final(b))
                == rest,
        },
{
    let length = read_length(b)?;
    let len = buf_len(b);
    if len < length {
        return Err(RdbError::UnexpectedEof);
    }
    let ghost r0 = buf_contents(*b);
    let mut data: Vec<u8> = Vec::new();
    let mut i: usize = 0;
    while i < length
        invariant
            r0 == buf_contents(*b),
            i <= length <= r0.len(),
            data@ == r0.subrange(0, i as int),
        decreases length - i,
    {
        data.push(buf_byte(b, i));
        i = i + 1;
        proof {
            assert(data@ =~= r0.subrange(0, i as int));
        }
    }
    buf_advance(b, length);
    match utf8_text(data) {
        Some(t) => Ok(t),
        None => Err(RdbError::FormatError),
    }
}

/// Reads a key and a value off the front of the buffer; returns the key.
fn read_entry(b: &mut BytesMut) -> (r: Result<String, RdbError>)
    ensures
        buf_contents(*final(b)).len() <= buf_contents(*old(b)).len(),
        match entry_of(buf_contents(*old(b))) {
            Err(e) => r == Err::<String, RdbError>(e),
            Ok((k, rest)) => r is Ok && encode_utf8(r.unwrap()@) == k && buf_contents(*final(b))
                == rest,
        },
{
    let key = read_string(b)?;
    let _value = read_string(b)?;
    Ok(key)
}

/// Reads an entry that follows an expiry of `width` bytes; returns its key
/// when its value-type tag is that of a plain string.
fn read_expiring_entry(b: &mut BytesMut, width: usize) -> (r: Result<Option<String>, RdbError>)
    ensures
        buf_contents(*final(b)).len() <= buf_contents(*old(b)).len(),
        match expiring_entry_of(buf_contents(*old(b)), width as int) {
            Err(e) => r == Err::<Option<String>, RdbError>(e),
            Ok((k, rest)) => r is Ok && buf_contents(*final(b)) == rest && match k {
                Some(k) => r.unwrap() is Some && encode_utf8(r.unwrap().unwrap()@) == k,
                None => r.unwrap() is None,
            },
        },
{
    let ghost s = buf_contents(*b);
    if buf_len(b) <= width {
        return Err(RdbError::UnexpectedEof);
    }
    buf_advance(b, width);
    let tag = take_byte(b);
    proof {
        assert(skip(skip(s, width as int), 1) =~= skip(s, width + 1));
    }
    if tag == 0 {
        let key = read_entry(b)?;
        Ok(Some(key))
    } else {
        Ok(None)
    }
}

/// Reads a database selector, and the resize hints that may follow it.
fn read_selector(b: &mut BytesMut) -> (r: Result<(), RdbError>)
    ensures
        buf_contents(*final(b)).len() <= buf_contents(*old(b)).len(),
        match selector_of(buf_contents(*old(b))) {
            Err(e) => r == Err::<(), RdbError>(e),
            Ok(rest) => r is Ok && buf_contents(*final(b)) == rest,
        },
{
    let _db = read_length(b)?;
    if buf_len(b) > 0 && buf_byte(b, 0) == 0xFB {
        buf_advance(b, 1);
        let _hash_size = read_length(b)?;
        let _expires_size = read_length(b)?;
    }
    Ok(())
}

proof fn lemma_text_bytes_push(v: Seq<String>, x: String)
    ensures
        text_bytes(v.push(x)) == text_bytes(v).push(encode_utf8(x@)),
{
    assert(text_bytes(v.push(x)) =~= text_bytes(v).push(encode_utf8(x@)));
}

/// Reads one record off the front of the non-empty buffer and appends the
/// key it holds, if any, to `keys`. Returns `false` at the end marker.
fn read_record(b: &mut BytesMut, keys: &mut Vec<String>) -> (r: Result<bool, RdbError>)
    requires
        buf_contents(*old(b)).len() > 0,
    ensures
        r == Ok::<bool, RdbError>(true) ==> buf_contents(*final(b)).len() < buf_contents(
            *old(b),
        ).len(),
        match record_of(buf_contents(*old(b))) {
            Err(e) => r == Err::<bool, RdbError>(e),
            Ok(None) => r == Ok::<bool, RdbError>(false) && final(keys)@ == old(keys)@,
            Ok(Some((k, rest))) => r == Ok::<bool, RdbError>(true) && buf_contents(*final(b))
                == rest && text_bytes(final(keys)@) == match k {
                Some(k) => text_bytes(old(keys)@).push(k),
                None => text_bytes(old(keys)@),
            },
        },
{
    let op = take_byte(b);
    if op == 0xFF {
        Ok(false)
    } else if op == 0xFA {
        let _aux_key = read_entry(b)?;
        Ok(true)
    } else if op == 0xFE {
        read_selector(b)?;
        Ok(true)
    } else if op == 0xFD || op == 0xFC {
        let width: usize = if op == 0xFD {
            4
        } else {
            8
        };
        match read_expiring_entry(b, width)? {
            Some(key) => {
                proof {
                    lemma_text_bytes_push(keys@, key);
                }
                keys.push(key);
            },
            None => {},
        }
        Ok(true)
    } else if op == 0 {
        let key = read_entry(b)?;
        proof {
            lemma_text_bytes_push(keys@, key);
        }
        keys.push(key);
        Ok(true)
    } else {
        Ok(true)
    }
}

/// Decodes snapshot data: the header, then records up to the end marker or
/// the end of the data. Returns the keys of the plain-string entries in
/// file order.
pub fn parse_rdb(data: &[u8]) -> (r: Result<RDBData, RdbError>)
    ensures
        match snapshot_keys(data@) {
            Err(e) => r is Err && r->Err_0 == e,
            Ok(keys) => r is Ok && text_bytes(r->Ok_0.keys@) == keys,
        },
{
    let mut b = buf_from_slice(data);
    let mut keys: Vec<String> = Vec::new();
    if buf_len(&b) < 9 {
        return Err(RdbError::FormatError);
    }
    let expected: [u8; 9] = [82u8, 69, 68, 73, 83, 48, 48, 49, 49];
    let mut i: usize = 0;
    while i < 9
        invariant
            buf_contents(b) == data@,
            data@.len() >= 9,
            i <= 9,
            expected@ == header(),
            forall|j: int| 0 <= j < i ==> data@[j] == header()[j],
        decreases 9 - i,
    {
        if buf_byte(&b, i) != expected[i] {
            proof {
                assert(data@.subrange(0, 9)[i as int] != header()[i as int]);
            }
            return Err(RdbError::FormatError);
        }
        i = i + 1;
    }
    proof {
        assert(data@.subrange(0, 9) =~= header());
    }
    buf_advance(&mut b, 9);
    proof {
        assert(text_bytes(keys@) =~= Seq::<Seq<u8>>::empty());
    }
    loop
        invariant_except_break
            snapshot_keys(data@) == keys_from(buf_contents(b), text_bytes(keys@)),
        ensures
            snapshot_keys(data@) == Ok::<Seq<Seq<u8>>, RdbError>(text_bytes(keys@)),
        decreases buf_contents(b).len(),
    {
        if buf_len(&b) == 0 {
            break;
        }
        let more = read_record(&mut b, &mut keys)?;
        if !more {
            break;
        }
    }
    Ok(RDBData { keys })
}

/// The keys that snapshot data holds, or none when it cannot be decoded:
/// a bad snapshot leaves the server with an empty key list.
pub fn load_keys(data: &[u8]) -> (r: Vec<String>)
    ensures
        match snapshot_keys(data@) {
            Err(_) => r@.len() == 0,
            Ok(keys) => text_bytes(r@) == keys,
        },
{
    match parse_rdb(data) {
        Ok(d) => d.keys,
        Err(_) => Vec::new(),
    }
}

} // verus!
