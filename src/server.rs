//! Executing commands: the effect on the store and the reply bytes.

use crate::rdb::text_bytes;
use crate::buffer::{buf_contents};
use crate::resp::{decode, parse_command, Command, CommandView};
use bytes::BytesMut;
use crate::store::{deadline_for, lookup, EntryView, Store};
use vstd::prelude::*;
use vstd::utf8::encode_utf8;

verus! {

/// The two configuration values, fixed for the life of the server.
pub struct Config {
    pub dir: String,
    pub dbfilename: String,
}

pub open spec fn crlf() -> Seq<u8> {
    seq![13u8, 10]
}

/// The decimal digits of `n`, most significant first.
pub open spec fn decimal(n: nat) -> Seq<u8>
    decreases n,
{
    if n < 10 {
        seq![(48 + n) as u8]
    } else {
        decimal(n / 10).push((48 + n % 10) as u8)
    }
}

/// `$<length>\r\n<bytes>\r\n`.
pub open spec fn bulk_reply(b: Seq<u8>) -> Seq<u8> {
    seq![36u8] + decimal(b.len()) + crlf() + b + crlf()
}

/// `$-1\r\n`, the reply for no value.
pub open spec fn nil_reply() -> Seq<u8> {
    seq![36u8, 45, 49, 13, 10]
}

/// `+PONG\r\n`.
pub open spec fn pong_reply() -> Seq<u8> {
    seq![43u8, 80, 79, 78, 71, 13, 10]
}

/// `+OK\r\n`.
pub open spec fn ok_reply() -> Seq<u8> {
    seq![43u8, 79, 75, 13, 10]
}

/// `*<n>\r\n`, the header of an array of `n` replies.
pub open spec fn array_header(n: nat) -> Seq<u8> {
    seq![42u8] + decimal(n) + crlf()
}

/// The bulk replies of each string in turn.
pub open spec fn bulk_list(items: Seq<Seq<u8>>) -> Seq<u8>
    decreases items.len(),
{
    if items.len() == 0 {
        seq![]
    } else {
        bulk_list(items.drop_last()) + bulk_reply(items.last())
    }
}

/// An array of bulk strings.
pub open spec fn array_reply(items: Seq<Seq<u8>>) -> Seq<u8> {
    array_header(items.len()) + bulk_list(items)
}

pub open spec fn name_dir() -> Seq<char> {
    seq!['d', 'i', 'r']
}

pub open spec fn name_dbfilename() -> Seq<char> {
    seq!['d', 'b', 'f', 'i', 'l', 'e', 'n', 'a', 'm', 'e']
}

/// The reply to `CONFIG GET param`: the name and the value for `dir` and
/// `dbfilename`, no value for any other name.
pub open spec fn config_reply(param: Seq<char>, dir: Seq<char>, dbfilename: Seq<char>) -> Seq<
    u8,
> {
    if param == name_dir() {
        array_reply(seq![encode_utf8(param), encode_utf8(dir)])
    } else if param == name_dbfilename() {
        array_reply(seq![encode_utf8(param), encode_utf8(dbfilename)])
    } else {
        nil_reply()
    }
}

/// The reply to a command and the store after it, at time `now`, given
/// the configuration values and the snapshot's keys.
pub open spec fn respond(
    c: CommandView,
    m: Map<Seq<char>, EntryView>,
    dir: Seq<char>,
    dbfilename: Seq<char>,
    keys: Seq<Seq<u8>>,
    now: u64,
) -> (Seq<u8>, Map<Seq<char>, EntryView>) {
    match c {
        CommandView::Ping => (pong_reply(), m),
        CommandView::Echo(msg) => (bulk_reply(encode_utf8(msg)), m),
        CommandView::SetValue(k, v, px) => (ok_reply(), m.insert(k, (v, deadline_for(now, px)))),
        CommandView::Get(k) => {
            let (r, m2) = lookup(m, k, now);
            (
                match r {
                    Some(v) => bulk_reply(encode_utf8(v)),
                    None => nil_reply(),
                },
                m2,
            )
        },
        CommandView::ConfigGet(p) => (config_reply(p, dir, dbfilename), m),
        CommandView::Keys => (array_reply(keys), m),
    }
}

fn push_bytes(out: &mut Vec<u8>, b: &[u8])
    ensures
        final(out)@ == old(out)@ + b@,
{
    let mut i: usize = 0;
    while i < b.len()
        invariant
            i <= b@.len(),
            out@ == old(out)@ + b@.subrange(0, i as int),
        decreases b@.len() - i,
    {
        out.push(b[i]);
        i = i + 1;
        proof {
            assert(out@ =~= old(out)@ + b@.subrange(0, i as int));
        }
    }
    proof {
        assert(b@.subrange(0, b@.len() as int) =~= b@);
    }
}

fn push_decimal(out: &mut Vec<u8>, n: usize)
    ensures
        final(out)@ == old(out)@ + decimal(n as nat),
    decreases n,
{
    if n >= 10 {
        push_decimal(out, n / 10);
    }
    out.push((48 + n % 10) as u8);
    proof {
        assert(out@ =~= old(out)@ + decimal(n as nat));
    }
}

fn push_crlf(out: &mut Vec<u8>)
    ensures
        final(out)@ == old(out)@ + crlf(),
{
    out.push(13);
    out.push(10);
    proof {
        assert(out@ =~= old(out)@ + crlf());
    }
}

/// Appends the bulk reply of a string's UTF-8 bytes.
fn push_bulk(out: &mut Vec<u8>, s: &String)
    ensures
        final(out)@ == old(out)@ + bulk_reply(encode_utf8(s@)),
{
    let b = s.as_str().as_bytes();
    out.push(36);
    push_decimal(out, b.len());
    push_crlf(out);
    push_bytes(out, b);
    push_crlf(out);
    proof {
        assert(out@ =~= old(out)@ + bulk_reply(encode_utf8(s@)));
    }
}

/// Writes the header and the elements of an array of bulk strings.
fn array_of(items: &Vec<String>) -> (r: Vec<u8>)
    ensures
        r@ == array_reply(text_bytes(items@)),
{
    let mut out: Vec<u8> = Vec::new();
    out.push(42);
    push_decimal(&mut out, items.len());
    push_crlf(&mut out);
    let ghost head = out@;
    let mut i: usize = 0;
    proof {
        assert(text_bytes(items@).subrange(0, 0) =~= Seq::<Seq<u8>>::empty());
        assert(out@ =~= head + bulk_list(text_bytes(items@).subrange(0, 0)));
    }
    while i < items.len()
        invariant
            i <= items@.len(),
            head == array_header(items@.len() as nat),
            out@ == head + bulk_list(text_bytes(items@).subrange(0, i as int)),
        decreases items@.len() - i,
    {
        let ghost before = out@;
        push_bulk(&mut out, &items[i]);
        i = i + 1;
        proof {
            let t = text_bytes(items@);
            assert(t.subrange(0, i as int).drop_last() =~= t.subrange(0, i - 1));
            assert(out@ =~= head + bulk_list(t.subrange(0, i as int)));
        }
    }
    proof {
        assert(text_bytes(items@).subrange(0, items@.len() as int) =~= text_bytes(items@));
    }
    out
}

/// The reply to `CONFIG GET param`.
fn config_value(param: &String, config: &Config) -> (r: Vec<u8>)
    ensures
        r@ == config_reply(param@, config.dir@, config.dbfilename@),
{
    let dir_name = "dir".to_owned();
    let dbfilename_name = "dbfilename".to_owned();
    proof {
        reveal_strlit("dir");
        reveal_strlit("dbfilename");
        assert(dir_name@ =~= name_dir());
        assert(dbfilename_name@ =~= name_dbfilename());
    }
    let value = if *param == dir_name {
        config.dir.clone()
    } else if *param == dbfilename_name {
        config.dbfilename.clone()
    } else {
        let mut out: Vec<u8> = Vec::new();
        out.push(36);
        out.push(45);
        out.push(49);
        push_crlf(&mut out);
        proof {
            assert(out@ =~= nil_reply());
        }
        return out;
    };
    let pair: Vec<String> = vec![param.clone(), value];
    proof {
        assert(text_bytes(pair@) =~= seq![encode_utf8(param@), encode_utf8(value@)]);
    }
    array_of(&pair)
}

/// Executes `cmd` at time `now` (milliseconds) against the store, the
/// configuration and the snapshot's keys, and returns the reply's bytes.
pub fn execute(cmd: Command, store: &mut Store, config: &Config, keys: &Vec<String>, now: u64) -> (r:
    Vec<u8>)
    requires
        old(store).wf(),
    ensures
        final(store).wf(),
        (r@, final(store)@) == respond(
            cmd@,
            old(store)@,
            config.dir@,
            config.dbfilename@,
            text_bytes(keys@),
            now,
        ),
{
    match cmd {
        Command::Ping => {
            let mut out: Vec<u8> = Vec::new();
            out.push(43);
            out.push(80);
            out.push(79);
            out.push(78);
            out.push(71);
            push_crlf(&mut out);
            proof {
                assert(out@ =~= pong_reply());
            }
            out
        },
        Command::Echo(msg) => {
            let mut out: Vec<u8> = Vec::new();
            push_bulk(&mut out, &msg);
            proof {
                assert(out@ =~= bulk_reply(encode_utf8(msg@)));
            }
            out
        },
        Command::SetValue(key, value, px) => {
            let deadline = match px {
                Some(ms) => Some(now.saturating_add(ms)),
                None => None,
            };
            store.set(key, value, deadline);
            let mut out: Vec<u8> = Vec::new();
            out.push(43);
            out.push(79);
            out.push(75);
            push_crlf(&mut out);
            proof {
                assert(out@ =~= ok_reply());
            }
            out
        },
        Command::Get(key) => {
            let mut out: Vec<u8> = Vec::new();
            match store.get(&key, now) {
                Some(v) => {
                    push_bulk(&mut out, &v);
                    proof {
                        assert(out@ =~= bulk_reply(encode_utf8(v@)));
                    }
                },
                None => {
                    out.push(36);
                    out.push(45);
                    out.push(49);
                    push_crlf(&mut out);
                    proof {
                        assert(out@ =~= nil_reply());
                    }
                },
            }
            out
        },
        Command::ConfigGet(param) => config_value(&param, config),
        Command::Keys => array_of(keys),
    }
}

/// Serving the bytes `s` received on a connection: each complete request at
/// the front is decoded and executed in turn. Gives the concatenated
/// replies, the store afterwards and the bytes left for a later read.
pub open spec fn serve(
    s: Seq<u8>,
    m: Map<Seq<char>, EntryView>,
    dir: Seq<char>,
    dbfilename: Seq<char>,
    keys: Seq<Seq<u8>>,
    now: u64,
) -> (Seq<u8>, Map<Seq<char>, EntryView>, Seq<u8>)
    decreases s.len(),
{
    match decode(s) {
        Some((c, n)) => if 0 < n <= s.len() {
            let (r, m2) = respond(c, m, dir, dbfilename, keys, now);
            let (rs, m3, rest) = serve(s.subrange(n, s.len() as int), m2, dir, dbfilename, keys, now);
            (r + rs, m3, rest)
        } else {
            (seq![], m, s)
        },
        None => (seq![], m, s),
    }
}

proof fn lemma_decode_len(s: Seq<u8>)
    requires
        decode(s) is Some,
    ensures
        0 < decode(s).unwrap().1 <= s.len(),
{
    crate::resp::lemma_frame_len(s);
    crate::resp::lemma_frame_nonempty(s);
}

/// Decodes and executes every complete request at the front of `buffer`,
/// in order, at time `now`, and returns the concatenated replies. The bytes
/// of an incomplete request stay in the buffer for the next read.
pub fn serve_buffer(
    buffer: &mut BytesMut,
    store: &mut Store,
    config: &Config,
    keys: &Vec<String>,
    now: u64,
) -> (r: Vec<u8>)
    requires
        old(store).wf(),
    ensures
        final(store).wf(),
        (r@, final(store)@, buf_contents(*final(buffer))) == serve(
            buf_contents(*old(buffer)),
            old(store)@,
            config.dir@,
            config.dbfilename@,
            text_bytes(keys@),
            now,
        ),
{
    let mut out: Vec<u8> = Vec::new();
    loop
        invariant_except_break
            store.wf(),
            ({
                let (r0, m0, rest0) = serve(
                    buf_contents(*old(buffer)),
                    old(store)@,
                    config.dir@,
                    config.dbfilename@,
                    text_bytes(keys@),
                    now,
                );
                let (r1, m1, rest1) = serve(
                    buf_contents(*buffer),
                    store@,
                    config.dir@,
                    config.dbfilename@,
                    text_bytes(keys@),
                    now,
                );
                r0 == out@ + r1 && m0 == m1 && rest0 == rest1
            }),
        ensures
            store.wf(),
            (out@, store@, buf_contents(*buffer)) == serve(
                buf_contents(*old(buffer)),
                old(store)@,
                config.dir@,
                config.dbfilename@,
                text_bytes(keys@),
                now,
            ),
        decreases buf_contents(*buffer).len(),
    {
        let ghost s = buf_contents(*buffer);
        let ghost m = store@;
        let ghost before = out@;
        match parse_command(buffer) {
            None => {
                proof {
                    assert(out@ =~= out@ + Seq::<u8>::empty());
                }
                break;
            },
            Some(cmd) => {
                proof {
                    lemma_decode_len(s);
                }
                let reply = execute(cmd, store, config, keys, now);
                let mut i: usize = 0;
                while i < reply.len()
                    invariant
                        i <= reply@.len(),
                        out@ == before + reply@.subrange(0, i as int),
                    decreases reply@.len() - i,
                {
                    out.push(reply[i]);
                    i = i + 1;
                    proof {
                        assert(out@ =~= before + reply@.subrange(0, i as int));
                    }
                }
                proof {
                    assert(reply@.subrange(0, reply@.len() as int) =~= reply@);
                    let (r1, m1, rest1) = serve(
                        buf_contents(*buffer),
                        store@,
                        config.dir@,
                        config.dbfilename@,
                        text_bytes(keys@),
                        now,
                    );
                    assert(before + (reply@ + r1) =~= out@ + r1);
                }
            },
        }
    }
    out
}

} // verus!
