//! Decoding of requests: an array of bulk strings at the front of a
//! connection's buffer, dispatched to a typed command.

use crate::buffer::{buf_advance, buf_byte, buf_contents, buf_len};
use bytes::BytesMut;
use vstd::prelude::*;
use vstd::utf8::encode_utf8;

verus! {

/// A request understood by the server.
#[derive(Debug)]
pub enum Command {
    Ping,
    Echo(String),
    SetValue(String, String, Option<u64>),
    Get(String),
    ConfigGet(String),
    Keys,
}

/// The mathematical value of a `Command`: its strings as character sequences.
pub enum CommandView {
    Ping,
    Echo(Seq<char>),
    SetValue(Seq<char>, Seq<char>, Option<u64>),
    Get(Seq<char>),
    ConfigGet(Seq<char>),
    Keys,
}

impl View for Command {
    type V = CommandView;

    open spec fn view(&self) -> CommandView {
        match self {
            Command::Ping => CommandView::Ping,
            Command::Echo(m) => CommandView::Echo(m@),
            Command::SetValue(k, v, px) => CommandView::SetValue(k@, v@, *px),
            Command::Get(k) => CommandView::Get(k@),
            Command::ConfigGet(p) => CommandView::ConfigGet(p@),
            Command::Keys => CommandView::Keys,
        }
    }
}

/// The text that `String::from_utf8_lossy` makes of some bytes.
pub uninterp spec fn lossy_text(b: Seq<u8>) -> Seq<char>;

/// Relies on `String::from_utf8_lossy`: the text of the bytes, with invalid
/// sequences replaced; bytes that are valid UTF-8 are kept as they are.
#[verifier::external_body]
fn text_of(b: &Vec<u8>) -> (r: String)
    ensures
        r@ == lossy_text(b@),
        vstd::utf8::valid_utf8(b@) ==> encode_utf8(r@) == b@,
{
    String::from_utf8_lossy(b.as_slice()).into_owned()
}

pub open spec fn is_digit(b: u8) -> bool {
    48 <= b <= 57
}

/// The value of a run of decimal digits, most significant first.
pub open spec fn digits_value(d: Seq<u8>) -> nat
    decreases d.len(),
{
    if d.len() == 0 {
        0
    } else {
        10 * digits_value(d.drop_last()) + (d.last() - 48) as nat
    }
}

/// The first position at or after `i` that does not hold a digit.
pub open spec fn digit_run_end(s: Seq<u8>, i: int) -> int
    decreases s.len() - i,
{
    if 0 <= i < s.len() && is_digit(s[i]) {
        digit_run_end(s, i + 1)
    } else {
        i
    }
}

/// A line `<digits>\r\n` starting at `p` whose value fits a `usize`:
/// the value and the position after the line.
pub open spec fn number_at(s: Seq<u8>, p: int) -> Option<(nat, int)> {
    let e = digit_run_end(s, p);
    if 0 <= p && p < e && e + 1 < s.len() && s[e] == 13 && s[e + 1] == 10 && digits_value(
        s.subrange(p, e),
    ) <= usize::MAX {
        Some((digits_value(s.subrange(p, e)), e + 2))
    } else {
        None
    }
}

/// A bulk string `$<n>\r\n<n bytes>\r\n` starting at `p`: its bytes and the
/// position after it.
pub open spec fn bulk_at(s: Seq<u8>, p: int) -> Option<(Seq<u8>, int)> {
    if 0 <= p < s.len() && s[p] == 36 {
        match number_at(s, p + 1) {
            Some((n, q)) => if q + n + 2 <= s.len() && s[q + n] == 13 && s[q + n + 1] == 10 {
                Some((s.subrange(q, q + n), q + n + 2))
            } else {
                None
            },
            None => None,
        }
    } else {
        None
    }
}

/// `n` more bulk strings from `p`, appended to those already read in `acc`.
pub open spec fn bulks_from(s: Seq<u8>, p: int, n: nat, acc: Seq<Seq<u8>>) -> Option<
    (Seq<Seq<u8>>, int),
>
    decreases n,
{
    if n == 0 {
        Some((acc, p))
    } else {
        match bulk_at(s, p) {
            Some((a, q)) => bulks_from(s, q, (n - 1) as nat, acc.push(a)),
            None => None,
        }
    }
}

/// A complete request frame `*<n>\r\n` followed by `n` bulk strings at the
/// front of `s`: the strings and the number of bytes the frame takes.
pub open spec fn frame_of(s: Seq<u8>) -> Option<(Seq<Seq<u8>>, int)> {
    if s.len() > 0 && s[0] == 42 {
        match number_at(s, 1) {
            Some((n, q)) => bulks_from(s, q, n, seq![]),
            None => None,
        }
    } else {
        None
    }
}

proof fn lemma_run_end(s: Seq<u8>, p: int)
    requires
        0 <= p <= s.len(),
    ensures
        p <= digit_run_end(s, p) <= s.len(),
        forall|j: int| p <= j < digit_run_end(s, p) ==> is_digit(s[j]),
        digit_run_end(s, p) == s.len() || !is_digit(s[digit_run_end(s, p)]),
    decreases s.len() - p,
{
    if p < s.len() && is_digit(s[p]) {
        lemma_run_end(s, p + 1);
    }
}

/// A prefix of a digit run is worth no more than the whole run.
proof fn lemma_value_prefix(d: Seq<u8>, k: int)
    requires
        0 <= k <= d.len(),
    ensures
        digits_value(d.subrange(0, k)) <= digits_value(d),
    decreases d.len(),
{
    if k == d.len() {
        assert(d.subrange(0, k) =~= d);
    } else {
        lemma_value_prefix(d.drop_last(), k);
        assert(d.drop_last().subrange(0, k) =~= d.subrange(0, k));
    }
}

proof fn lemma_step_fits(acc: int, d: int, m: int)
    requires
        0 <= d <= 9,
        d <= m,
        0 <= acc <= (m - d) / 10,
    ensures
        acc * 10 + d <= m,
{
    assert(acc * 10 + d <= m) by (nonlinear_arith)
        requires
            0 <= d <= 9,
            d <= m,
            0 <= acc <= (m - d) / 10,
    ;
}

proof fn lemma_step_overflows(acc: int, d: int, m: int)
    requires
        0 <= d <= 9,
        d <= m,
        acc > (m - d) / 10,
    ensures
        acc * 10 + d > m,
{
    assert(acc * 10 + d > m) by (nonlinear_arith)
        requires
            0 <= d <= 9,
            d <= m,
            acc > (m - d) / 10,
    ;
}

/// Reads the line `<digits>\r\n` at position `p` of the buffer.
fn read_number(b: &BytesMut, p: usize) -> (r: Option<(usize, usize)>)
    requires
        p <= buf_contents(*b).len(),
    ensures
        r is Some <==> number_at(buf_contents(*b), p as int) is Some,
        r is Some ==> number_at(buf_contents(*b), p as int).unwrap() == (
            r.unwrap().0 as nat,
            r.unwrap().1 as int,
        ),
{
    let ghost s = buf_contents(*b);
    let len = buf_len(b);
    let mut i: usize = p;
    let mut acc: usize = 0;
    proof {
        lemma_run_end(s, p as int);
        assert(s.subrange(p as int, p as int) =~= Seq::<u8>::empty());
    }
    loop
        invariant
            s == buf_contents(*b),
            len == s.len(),
            p <= i <= len,
            p <= digit_run_end(s, p as int) <= s.len(),
            forall|j: int| p <= j < digit_run_end(s, p as int) ==> is_digit(s[j]),
            digit_run_end(s, p as int) == s.len() || !is_digit(s[digit_run_end(s, p as int)]),
            forall|j: int| p <= j < i ==> is_digit(s[j]),
            acc as nat == digits_value(s.subrange(p as int, i as int)),
        ensures
            p <= i <= len,
            forall|j: int| p <= j < i ==> is_digit(s[j]),
            i == len || !is_digit(s[i as int]),
            acc as nat == digits_value(s.subrange(p as int, i as int)),
        decreases len - i,
    {
        if i >= len {
            break;
        }
        let c = buf_byte(b, i);
        if c < 48 || c > 57 {
            break;
        }
        let d: usize = (c - 48) as usize;
        proof {
            assert(s.subrange(p as int, i + 1).drop_last() =~= s.subrange(p as int, i as int));
        }
        if acc > (usize::MAX - d) / 10 {
            proof {
                lemma_step_overflows(acc as int, d as int, usize::MAX as int);
                let e = digit_run_end(s, p as int);
                assert(e > i);
                lemma_value_prefix(s.subrange(p as int, e), i + 1 - p);
                assert(s.subrange(p as int, e).subrange(0, i + 1 - p) =~= s.subrange(
                    p as int,
                    i + 1,
                ));
            }
            return None;
        }
        proof {
            lemma_step_fits(acc as int, d as int, usize::MAX as int);
        }
        acc = acc * 10 + d;
        i = i + 1;
    }
    proof {
        assert(digit_run_end(s, p as int) == i);
    }
    if i == p || len - i < 2 {
        return None;
    }
    if buf_byte(b, i) != 13 || buf_byte(b, i + 1) != 10 {
        return None;
    }
    Some((acc, i + 2))
}

/// Reads the bulk string at position `p` of the buffer.
fn read_bulk(b: &BytesMut, p: usize) -> (r: Option<(Vec<u8>, usize)>)
    requires
        p <= buf_contents(*b).len(),
    ensures
        r is Some <==> bulk_at(buf_contents(*b), p as int) is Some,
        r is Some ==> bulk_at(buf_contents(*b), p as int).unwrap() == (
            r.unwrap().0@,
            r.unwrap().1 as int,
        ),
{
    let ghost s = buf_contents(*b);
    let len = buf_len(b);
    if p >= len || buf_byte(b, p) != 36 {
        return None;
    }
    let (n, q) = match read_number(b, p + 1) {
        Some(x) => x,
        None => {
            return None;
        },
    };
    proof {
        lemma_run_end(s, p + 1);
    }
    if n > len - q || len - q - n < 2 {
        return None;
    }
    if buf_byte(b, q + n) != 13 || buf_byte(b, q + n + 1) != 10 {
        return None;
    }
    let mut out: Vec<u8> = Vec::new();
    let mut i: usize = q;
    let end = q + n;
    while i < end
        invariant
            s == buf_contents(*b),
            end == q + n,
            q <= i <= q + n,
            q + n + 2 <= s.len(),
            out@ == s.subrange(q as int, i as int),
        decreases end - i,
    {
        let c = buf_byte(b, i);
        out.push(c);
        i = i + 1;
        proof {
            assert(out@ =~= s.subrange(q as int, i as int));
        }
    }
    Some((out, q + n + 2))
}

/// The byte strings held by a sequence of vectors.
pub open spec fn arg_views(v: Seq<Vec<u8>>) -> Seq<Seq<u8>> {
    v.map_values(|x: Vec<u8>| x@)
}

/// Reads a whole request frame at the front of the buffer, without
/// consuming anything.
fn read_frame(b: &BytesMut) -> (r: Option<(Vec<Vec<u8>>, usize)>)
    ensures
        r is Some <==> frame_of(buf_contents(*b)) is Some,
        r is Some ==> frame_of(buf_contents(*b)).unwrap() == (
            arg_views(r.unwrap().0@),
            r.unwrap().1 as int,
        ),
{
    let ghost s = buf_contents(*b);
    let len = buf_len(b);
    if len == 0 || buf_byte(b, 0) != 42 {
        return None;
    }
    let (n, q) = match read_number(b, 1) {
        Some(x) => x,
        None => {
            return None;
        },
    };
    let mut args: Vec<Vec<u8>> = Vec::new();
    let mut pos: usize = q;
    let mut k: usize = 0;
    proof {
        lemma_run_end(s, 1);
        assert(arg_views(args@) =~= Seq::<Seq<u8>>::empty());
    }
    while k < n
        invariant
            s == buf_contents(*b),
            len == s.len(),
            pos <= len,
            k <= n,
            frame_of(s) == bulks_from(s, pos as int, (n - k) as nat, arg_views(args@)),
        decreases n - k,
    {
        let (a, next) = match read_bulk(b, pos) {
            Some(x) => x,
            None => {
                return None;
            },
        };
        let ghost before = args@;
        args.push(a);
        proof {
            assert(arg_views(args@) =~= arg_views(before).push(a@));
        }
        pos = next;
        k = k + 1;
    }
    Some((args, pos))
}

/// A byte with ASCII lower-case letters raised to upper case.
pub open spec fn upper(b: u8) -> u8 {
    if 97 <= b <= 122 {
        (b - 32) as u8
    } else {
        b
    }
}

/// `a` spells the upper-case word `w`, ignoring ASCII case.
pub open spec fn same_word(a: Seq<u8>, w: Seq<u8>) -> bool {
    a.len() == w.len() && forall|i: int| 0 <= i < a.len() ==> upper(a[i]) == w[i]
}

/// A non-empty run of decimal digits whose value fits a `u64`.
pub open spec fn u64_of(a: Seq<u8>) -> Option<u64> {
    if a.len() > 0 && (forall|i: int| 0 <= i < a.len() ==> is_digit(a[i])) && digits_value(a)
        <= u64::MAX {
        Some(digits_value(a) as u64)
    } else {
        None
    }
}

pub open spec fn word_ping() -> Seq<u8> {
    seq![80u8, 73, 78, 71]
}

pub open spec fn word_echo() -> Seq<u8> {
    seq![69u8, 67, 72, 79]
}

pub open spec fn word_set() -> Seq<u8> {
    seq![83u8, 69, 84]
}

pub open spec fn word_get() -> Seq<u8> {
    seq![71u8, 69, 84]
}

pub open spec fn word_px() -> Seq<u8> {
    seq![80u8, 88]
}

pub open spec fn word_config() -> Seq<u8> {
    seq![67u8, 79, 78, 70, 73, 71]
}

pub open spec fn word_keys() -> Seq<u8> {
    seq![75u8, 69, 89, 83]
}

/// The command that a request's strings stand for, if any. The command
/// name and the `PX` and `GET` keywords are matched without regard to case.
pub open spec fn command_of(args: Seq<Seq<u8>>) -> Option<CommandView> {
    if args.len() == 1 && same_word(args[0], word_ping()) {
        Some(CommandView::Ping)
    } else if args.len() == 2 && same_word(args[0], word_echo()) {
        Some(CommandView::Echo(lossy_text(args[1])))
    } else if args.len() == 2 && same_word(args[0], word_get()) {
        Some(CommandView::Get(lossy_text(args[1])))
    } else if args.len() == 2 && same_word(args[0], word_keys()) {
        Some(CommandView::Keys)
    } else if args.len() == 3 && same_word(args[0], word_set()) {
        Some(CommandView::SetValue(lossy_text(args[1]), lossy_text(args[2]), None))
    } else if args.len() == 5 && same_word(args[0], word_set()) && same_word(args[3], word_px())
        && u64_of(args[4]) is Some {
        Some(CommandView::SetValue(lossy_text(args[1]), lossy_text(args[2]), u64_of(args[4])))
    } else if args.len() == 3 && same_word(args[0], word_config()) && same_word(
        args[1],
        word_get(),
    ) {
        Some(CommandView::ConfigGet(lossy_text(args[2])))
    } else {
        None
    }
}

/// What decoding the front of `s` gives: the command and the number of
/// bytes its request takes, or `None` while no complete, recognised
/// request is there.
pub open spec fn decode(s: Seq<u8>) -> Option<(CommandView, int)> {
    match frame_of(s) {
        Some((args, n)) => match command_of(args) {
            Some(c) => Some((c, n)),
            None => None,
        },
        None => None,
    }
}

fn is_word(a: &Vec<u8>, w: &[u8]) -> (r: bool)
    ensures
        r == same_word(a@, w@),
{
    if a.len() != w.len() {
        return false;
    }
    let mut i: usize = 0;
    while i < a.len()
        invariant
            a@.len() == w@.len(),
            i <= a.len(),
            forall|j: int| 0 <= j < i ==> upper(a@[j]) == w@[j],
        decreases a.len() - i,
    {
        let c = a[i];
        let u = if 97 <= c && c <= 122 {
            c - 32
        } else {
            c
        };
        if u != w[i] {
            return false;
        }
        i = i + 1;
    }
    true
}

fn parse_u64(a: &Vec<u8>) -> (r: Option<u64>)
    ensures
        r == u64_of(a@),
{
    if a.len() == 0 {
        return None;
    }
    let mut acc: u64 = 0;
    let mut i: usize = 0;
    proof {
        assert(a@.subrange(0, 0) =~= Seq::<u8>::empty());
    }
    while i < a.len()
        invariant
            i <= a.len(),
            forall|j: int| 0 <= j < i ==> is_digit(a@[j]),
            acc as nat == digits_value(a@.subrange(0, i as int)),
        decreases a.len() - i,
    {
        let c = a[i];
        if c < 48 || c > 57 {
            return None;
        }
        let d: u64 = (c - 48) as u64;
        proof {
            assert(a@.subrange(0, i + 1).drop_last() =~= a@.subrange(0, i as int));
        }
        if acc > (u64::MAX - d) / 10 {
            proof {
                lemma_step_overflows(acc as int, d as int, u64::MAX as int);
                lemma_value_prefix(a@, i + 1);
            }
            return None;
        }
        proof {
            lemma_step_fits(acc as int, d as int, u64::MAX as int);
        }
        acc = acc * 10 + d;
        i = i + 1;
    }
    proof {
        assert(a@.subrange(0, a@.len() as int) =~= a@);
    }
    Some(acc)
}

fn command_from(args: &Vec<Vec<u8>>) -> (r: Option<Command>)
    ensures
        r is Some <==> command_of(arg_views(args@)) is Some,
        r is Some ==> r.unwrap()@ == command_of(arg_views(args@)).unwrap(),
{
    let ghost v = arg_views(args@);
    let n = args.len();
    if n == 0 {
        return None;
    }
    let name = &args[0];
    proof {
        assert(v[0] == name@);
    }
    if n == 1 && is_word(name, &[80u8, 73, 78, 71]) {
        proof {
            assert(word_ping() =~= seq![80u8, 73, 78, 71]);
        }
        return Some(Command::Ping);
    }
    if n == 2 {
        proof {
            assert(v[1] == args@[1]@);
        }
        if is_word(name, &[69u8, 67, 72, 79]) {
            return Some(Command::Echo(text_of(&args[1])));
        }
        if is_word(name, &[71u8, 69, 84]) {
            return Some(Command::Get(text_of(&args[1])));
        }
        if is_word(name, &[75u8, 69, 89, 83]) {
            return Some(Command::Keys);
        }
        return None;
    }
    if n == 3 {
        proof {
            assert(v[1] == args@[1]@);
            assert(v[2] == args@[2]@);
        }
        if is_word(name, &[83u8, 69, 84]) {
            return Some(Command::SetValue(text_of(&args[1]), text_of(&args[2]), None));
        }
        if is_word(name, &[67u8, 79, 78, 70, 73, 71]) && is_word(&args[1], &[71u8, 69, 84]) {
            return Some(Command::ConfigGet(text_of(&args[2])));
        }
        return None;
    }
    if n == 5 {
        proof {
            assert(v[1] == args@[1]@);
            assert(v[2] == args@[2]@);
            assert(v[3] == args@[3]@);
            assert(v[4] == args@[4]@);
        }
        if is_word(name, &[83u8, 69, 84]) && is_word(&args[3], &[80u8, 88]) {
            match parse_u64(&args[4]) {
                Some(ms) => {
                    return Some(Command::SetValue(text_of(&args[1]), text_of(&args[2]), Some(ms)));
                },
                None => {
                    return None;
                },
            }
        }
        return None;
    }
    None
}

proof fn lemma_bulks_len(s: Seq<u8>, p: int, n: nat, acc: Seq<Seq<u8>>)
    requires
        0 <= p <= s.len(),
        bulks_from(s, p, n, acc) is Some,
    ensures
        p <= bulks_from(s, p, n, acc).unwrap().1 <= s.len(),
    decreases n,
{
    if n > 0 {
        let (a, q) = bulk_at(s, p).unwrap();
        lemma_bulks_len(s, q, (n - 1) as nat, acc.push(a));
    }
}

/// A complete frame never takes more bytes than there are.
pub(crate) proof fn lemma_frame_len(s: Seq<u8>)
    requires
        frame_of(s) is Some,
    ensures
        0 <= frame_of(s).unwrap().1 <= s.len(),
{
    let (n, q) = number_at(s, 1).unwrap();
    lemma_bulks_len(s, q, n, seq![]);
}

/// Decodes one request at the front of `buffer`. On success its bytes are
/// removed and the command is returned; while the front holds no complete,
/// recognised request (too few bytes so far, or bytes that do not form one)
/// `None` is returned and the buffer is left as it was.
pub fn parse_command(buffer: &mut BytesMut) -> (r: Option<Command>)
    ensures
        r is Some <==> decode(buf_contents(*old(buffer))) is Some,
        r is Some ==> {
            let (c, n) = decode(buf_contents(*old(buffer))).unwrap();
            &&& r.unwrap()@ == c
            &&& buf_contents(*final(buffer)) == buf_contents(*old(buffer)).subrange(
                n,
                buf_contents(*old(buffer)).len() as int,
            )
        },
        r is None ==> buf_contents(*final(buffer)) == buf_contents(*old(buffer)),
{
    let (args, n) = match read_frame(buffer) {
        Some(x) => x,
        None => {
            return None;
        },
    };
    let cmd = command_from(&args);
    if cmd.is_some() {
        proof {
            lemma_frame_len(buf_contents(*buffer));
        }
        buf_advance(buffer, n);
    }
    cmd
}

/// A complete frame takes at least one byte.
pub(crate) proof fn lemma_frame_nonempty(s: Seq<u8>)
    requires
        frame_of(s) is Some,
    ensures
        frame_of(s).unwrap().1 > 0,
{
    let (n, q) = number_at(s, 1).unwrap();
    lemma_run_end(s, 1);
    lemma_bulks_len(s, q, n, seq![]);
}

proof fn lemma_run_end_ext(s: Seq<u8>, t: Seq<u8>, p: int)
    requires
        0 <= p <= s.len(),
        digit_run_end(s, p) < s.len(),
    ensures
        digit_run_end(s + t, p) == digit_run_end(s, p),
    decreases s.len() - p,
{
    if p < s.len() && is_digit(s[p]) {
        lemma_run_end_ext(s, t, p + 1);
    }
}

proof fn lemma_number_ext(s: Seq<u8>, t: Seq<u8>, p: int)
    requires
        0 <= p <= s.len(),
        number_at(s, p) is Some,
    ensures
        number_at(s + t, p) == number_at(s, p),
{
    lemma_run_end_ext(s, t, p);
    let e = digit_run_end(s, p);
    assert((s + t).subrange(p, e) =~= s.subrange(p, e));
}

proof fn lemma_bulk_ext(s: Seq<u8>, t: Seq<u8>, p: int)
    requires
        bulk_at(s, p) is Some,
    ensures
        bulk_at(s + t, p) == bulk_at(s, p),
{
    lemma_number_ext(s, t, p + 1);
    let (n, q) = number_at(s, p + 1).unwrap();
    assert((s + t).subrange(q, q + n) =~= s.subrange(q, q + n));
}

proof fn lemma_bulks_ext(s: Seq<u8>, t: Seq<u8>, p: int, n: nat, acc: Seq<Seq<u8>>)
    requires
        bulks_from(s, p, n, acc) is Some,
    ensures
        bulks_from(s + t, p, n, acc) == bulks_from(s, p, n, acc),
    decreases n,
{
    if n > 0 {
        lemma_bulk_ext(s, t, p);
        let (a, q) = bulk_at(s, p).unwrap();
        lemma_bulks_ext(s, t, q, (n - 1) as nat, acc.push(a));
    }
}

/// Bytes that arrive after a complete request do not change how it
/// decodes: decoding sees the same command of the same length.
pub proof fn lemma_decode_ignores_later_bytes(s: Seq<u8>, t: Seq<u8>)
    requires
        decode(s) is Some,
    ensures
        decode(s + t) == decode(s),
{
    let (n, q) = number_at(s, 1).unwrap();
    lemma_number_ext(s, t, 1);
    lemma_bulks_ext(s, t, q, n, seq![]);
}

/// Every proper prefix of a complete request is incomplete: decoding it
/// gives nothing (and so leaves the buffer as it is), while the whole
/// request decodes, whatever follows it.
pub proof fn lemma_truncated_request_incomplete(s: Seq<u8>, k: int)
    requires
        decode(s) is Some,
        0 <= k < decode(s).unwrap().1,
    ensures
        decode(s.subrange(0, k)) is None,
{
    lemma_frame_len(s);
    let n = decode(s).unwrap().1;
    let pre = s.subrange(0, k);
    if decode(pre) is Some {
        lemma_frame_len(pre);
        let rest = s.subrange(k, s.len() as int);
        assert(pre + rest =~= s);
        lemma_decode_ignores_later_bytes(pre, rest);
        assert(decode(s).unwrap().1 <= k);
    }
}

} // verus!
