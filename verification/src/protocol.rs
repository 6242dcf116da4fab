//! The binary wire protocol: request framing and response encoding.
//!
//! A request is `total_len: u32` followed by `total_len` bytes holding
//! `num_args: u32` and then, for each argument, `len: u32` and `len` bytes.
//! All integers are little-endian. A response is `total_len: u32` followed by
//! one tagged value: 0 nil, 1 error (`code: u32`, `len: u32`, message), 2
//! string (`len: u32`, bytes), 3 integer (`i64`), 4 double (`f64` bits),
//! 5 array (`count: u32`, then `count` tagged values).

use std::collections::hash_map::DefaultHasher;
use std::hash::{Hash, Hasher};
use vstd::std_specs::hash::DefaultHasherAdditionalSpecFns;
use vstd::prelude::*;
use vstd::string::StringSliceAdditionalSpecFns;

verus! {

/// Error codes carried by an error response.
#[derive(Debug, Clone, Copy)]
pub enum ErrorCode {
    Unknown,
    ArgError,
    TypeError,
}

/// The number that encodes an error code on the wire.
pub open spec fn error_code_value(code: ErrorCode) -> u32 {
    match code {
        ErrorCode::Unknown => 1,
        ErrorCode::ArgError => 2,
        ErrorCode::TypeError => 3,
    }
}

impl ErrorCode {
    /// The number that encodes this code on the wire.
    pub fn value(self) -> (v: u32)
        ensures
            v == error_code_value(self),
    {
        match self {
            ErrorCode::Unknown => 1,
            ErrorCode::ArgError => 2,
            ErrorCode::TypeError => 3,
        }
    }
}

/// A parsed request: its arguments, each a slice of the receive buffer.
pub struct Command<'a> {
    pub args: Vec<&'a [u8]>,
}

/// The bytes of each argument.
pub open spec fn arg_views(args: Seq<&[u8]>) -> Seq<Seq<u8>> {
    args.map_values(|a: &[u8]| a@)
}

/// The little-endian `u32` stored in `b[off..off + 4]`.
pub open spec fn le_u32_at(b: Seq<u8>, off: int) -> int {
    b[off] as int + b[off + 1] as int * 256 + b[off + 2] as int * 65536 + b[off + 3] as int
        * 16777216
}

/// The four little-endian bytes of `x`.
pub open spec fn u32_le(x: u32) -> Seq<u8> {
    seq![
        (x % 256) as u8,
        ((x / 256) % 256) as u8,
        ((x / 65536) % 256) as u8,
        (x / 16777216) as u8,
    ]
}

/// The eight little-endian bytes of `x`.
pub open spec fn u64_le(x: u64) -> Seq<u8> {
    seq![
        (x % 256) as u8,
        ((x / 0x100) % 256) as u8,
        ((x / 0x10000) % 256) as u8,
        ((x / 0x1000000) % 256) as u8,
        ((x / 0x100000000) % 256) as u8,
        ((x / 0x10000000000) % 256) as u8,
        ((x / 0x1000000000000) % 256) as u8,
        (x / 0x100000000000000) as u8,
    ]
}

/// Why a complete frame was rejected.
pub enum ParseFault {
    /// The length prefix is below the four bytes of the argument count.
    BadTotalLength,
    /// An argument's length field runs past the end of the frame.
    ArgLengthOverflow,
    /// An argument's bytes run past the end of the frame.
    ArgDataOverflow,
}

/// The message returned for each fault.
pub open spec fn fault_text(f: ParseFault) -> Seq<char> {
    match f {
        ParseFault::BadTotalLength => "Invalid total packet length"@,
        ParseFault::ArgLengthOverflow => "Buffer overflow parsing argument length"@,
        ParseFault::ArgDataOverflow => "Buffer overflow parsing argument data"@,
    }
}

/// What the front of a receive buffer holds.
pub enum Frame {
    /// Not all of the first frame has arrived.
    Incomplete,
    /// The first frame is complete and malformed.
    Malformed(ParseFault),
    /// The first frame holds these arguments and takes this many bytes.
    Complete(Seq<Seq<u8>>, nat),
}

/// The `n` arguments that start at `off`, within a frame that ends at `end`.
pub open spec fn parse_args(b: Seq<u8>, off: int, n: nat, end: int) -> Result<
    Seq<Seq<u8>>,
    ParseFault,
>
    decreases n,
{
    if n == 0 {
        Ok(Seq::empty())
    } else if end - off < 4 {
        Err(ParseFault::ArgLengthOverflow)
    } else {
        let len = le_u32_at(b, off);
        if len > end - (off + 4) {
            Err(ParseFault::ArgDataOverflow)
        } else {
            match parse_args(b, off + 4 + len, (n - 1) as nat, end) {
                Ok(rest) => Ok(seq![b.subrange(off + 4, off + 4 + len)] + rest),
                Err(f) => Err(f),
            }
        }
    }
}

/// The first frame of `b`.
pub open spec fn request_frame(b: Seq<u8>) -> Frame {
    if b.len() < 4 {
        Frame::Incomplete
    } else if b.len() < 4 + le_u32_at(b, 0) {
        Frame::Incomplete
    } else if le_u32_at(b, 0) < 4 {
        Frame::Malformed(ParseFault::BadTotalLength)
    } else {
        match parse_args(b, 8, le_u32_at(b, 4) as nat, 4 + le_u32_at(b, 0)) {
            Ok(args) => Frame::Complete(args, (4 + le_u32_at(b, 0)) as nat),
            Err(f) => Frame::Malformed(f),
        }
    }
}

/// Bytes after the frame do not change how its arguments parse.
pub proof fn lemma_parse_args_prefix(a: Seq<u8>, b: Seq<u8>, off: int, n: nat, end: int)
    requires
        0 <= off,
        end <= a.len(),
    ensures
        parse_args(a + b, off, n, end) == parse_args(a, off, n, end),
    decreases n,
{
    if n > 0 && end - off >= 4 {
        let ab = a + b;
        assert(le_u32_at(ab, off) == le_u32_at(a, off));
        let len = le_u32_at(a, off);
        if len <= end - (off + 4) {
            assert(ab.subrange(off + 4, off + 4 + len) =~= a.subrange(off + 4, off + 4 + len));
            lemma_parse_args_prefix(a, b, off + 4 + len, (n - 1) as nat, end);
        }
    }
}

/// Arguments read from `b` between `off` and `end`: as many as asked, each
/// the bytes of `b` between two positions inside that range.
pub proof fn lemma_parse_args_shape(b: Seq<u8>, off: int, n: nat, end: int)
    requires
        0 <= off,
        end <= b.len(),
        parse_args(b, off, n, end) is Ok,
    ensures
        ({
            let args = parse_args(b, off, n, end)->Ok_0;
            &&& args.len() == n
            &&& forall|i: int| 0 <= i < n ==> exists|s: int, e: int|
                off <= s <= e <= end && #[trigger] args[i] == b.subrange(s, e)
        }),
    decreases n,
{
    if n > 0 {
        let len = le_u32_at(b, off);
        let next = off + 4 + len;
        lemma_parse_args_shape(b, next, (n - 1) as nat, end);
        let rest = parse_args(b, next, (n - 1) as nat, end)->Ok_0;
        let args = parse_args(b, off, n, end)->Ok_0;
        assert(args == seq![b.subrange(off + 4, next)] + rest);
        assert forall|i: int| 0 <= i < n implies exists|s: int, e: int|
            off <= s <= e <= end && #[trigger] args[i] == b.subrange(s, e) by {
            if i == 0 {
                assert(args[0] == b.subrange(off + 4, next));
            } else {
                assert(args[i] == rest[i - 1]);
                let (s, e) = choose|s: int, e: int| next <= s <= e <= end && #[trigger] rest[i - 1] == b.subrange(s, e);
                assert(args[i] == b.subrange(s, e));
            }
        }
    }
}

/// A complete request frame holds `4 + L` bytes, where `L` is the length
/// in its first four; its arguments are as many as the count in the next
/// four says, and each is a slice of the frame after those eight bytes.
pub proof fn lemma_frame_shape(b: Seq<u8>)
    requires
        request_frame(b) is Complete,
    ensures
        ({
            let args = request_frame(b)->Complete_0;
            let n = request_frame(b)->Complete_1;
            &&& n == 4 + le_u32_at(b, 0) <= b.len()
            &&& args.len() == le_u32_at(b, 4)
            &&& forall|i: int| 0 <= i < args.len() ==> exists|s: int, e: int|
                8 <= s <= e <= n && #[trigger] args[i] == b.subrange(s, e)
        }),
{
    lemma_parse_args_shape(b, 8, le_u32_at(b, 4) as nat, 4 + le_u32_at(b, 0));
}

/// The little-endian bytes of `x` read back give `x`.
pub proof fn lemma_u32_le_read(x: u32, b: Seq<u8>, off: int)
    requires
        0 <= off,
        off + 4 <= b.len(),
        b.subrange(off, off + 4) == u32_le(x),
    ensures
        le_u32_at(b, off) == x,
{
    assert(b[off] == u32_le(x)[0]);
    assert(b[off + 1] == u32_le(x)[1]);
    assert(b[off + 2] == u32_le(x)[2]);
    assert(b[off + 3] == u32_le(x)[3]);
    assert((x % 256) as u8 as int + ((x / 256) % 256) as u8 as int * 256 + ((x / 65536) % 256) as u8 as int
        * 65536 + (x / 16777216) as u8 as int * 16777216 == x) by (bit_vector);
}

/// The arguments of a request as they travel: each its length, then its
/// bytes.
pub open spec fn encode_args(args: Seq<Seq<u8>>) -> Seq<u8>
    decreases args.len(),
{
    if args.len() == 0 {
        Seq::empty()
    } else {
        u32_le(args[0].len() as u32) + args[0] + encode_args(args.drop_first())
    }
}

/// A request as it travels: the length of the rest, the number of
/// arguments, then the arguments.
pub open spec fn encode_request(args: Seq<Seq<u8>>) -> Seq<u8> {
    let body = u32_le(args.len() as u32) + encode_args(args);
    u32_le(body.len() as u32) + body
}

/// Encoded arguments lying in `b` from `off` up to `end` read back.
proof fn lemma_parse_encoded(b: Seq<u8>, off: int, args: Seq<Seq<u8>>, end: int)
    requires
        0 <= off,
        off + encode_args(args).len() == end,
        end <= b.len(),
        b.subrange(off, end) == encode_args(args),
        forall|i: int| 0 <= i < args.len() ==> #[trigger] args[i].len() <= u32::MAX,
    ensures
        parse_args(b, off, args.len(), end) == Ok::<Seq<Seq<u8>>, ParseFault>(args),
    decreases args.len(),
{
    if args.len() > 0 {
        let a = args[0];
        let rest = args.drop_first();
        let e = encode_args(args);
        assert(e == u32_le(a.len() as u32) + a + encode_args(rest));
        assert(b.subrange(off, off + 4) =~= u32_le(a.len() as u32)) by {
            assert forall|j: int| 0 <= j < 4 implies #[trigger] b.subrange(off, off + 4)[j] == u32_le(a.len() as u32)[j] by {
                assert(b.subrange(off, end)[j] == e[j]);
            }
        }
        lemma_u32_le_read(a.len() as u32, b, off);
        let next = off + 4 + a.len();
        assert(b.subrange(off + 4, next) =~= a) by {
            assert forall|j: int| 0 <= j < a.len() implies #[trigger] b.subrange(off + 4, next)[j] == a[j] by {
                assert(b.subrange(off, end)[4 + j] == e[4 + j]);
            }
        }
        assert(b.subrange(next, end) =~= encode_args(rest)) by {
            assert forall|j: int| 0 <= j < end - next implies #[trigger] b.subrange(next, end)[j] == encode_args(rest)[j] by {
                assert(b.subrange(off, end)[4 + a.len() + j] == e[4 + a.len() + j]);
            }
        }
        assert forall|i: int| 0 <= i < rest.len() implies #[trigger] rest[i].len() <= u32::MAX by {
            assert(rest[i] == args[i + 1]);
        }
        lemma_parse_encoded(b, next, rest, end);
        assert(seq![a] + rest =~= args);
        assert(le_u32_at(b, off) == a.len());
        assert((args.len() - 1) as nat == rest.len());
        assert(parse_args(b, off, args.len(), end) == Ok::<Seq<Seq<u8>>, ParseFault>(
            seq![b.subrange(off + 4, next)] + rest,
        ));
    } else {
        assert(args =~= Seq::<Seq<u8>>::empty());
    }
}

/// A request encoded, with any bytes after it, parses back into its
/// arguments and takes exactly its own bytes; any strict prefix of it has
/// not fully arrived.
pub proof fn lemma_request_round_trip(args: Seq<Seq<u8>>, rest: Seq<u8>, p: int)
    requires
        encode_request(args).len() <= u32::MAX,
        args.len() <= u32::MAX,
        forall|i: int| 0 <= i < args.len() ==> #[trigger] args[i].len() <= u32::MAX,
    ensures
        request_frame(encode_request(args) + rest) == Frame::Complete(args, encode_request(args).len()),
        0 <= p < encode_request(args).len() ==> request_frame(encode_request(args).take(p)) is Incomplete,
{
    let body = u32_le(args.len() as u32) + encode_args(args);
    let enc = encode_request(args);
    let b = enc + rest;
    assert(enc.len() == 4 + body.len());
    assert(b.subrange(0, 4) =~= u32_le(body.len() as u32));
    lemma_u32_le_read(body.len() as u32, b, 0);
    assert(b.subrange(4, 8) =~= u32_le(args.len() as u32));
    lemma_u32_le_read(args.len() as u32, b, 4);
    let end = 4 + body.len() as int;
    assert(b.subrange(8, end) =~= encode_args(args));
    lemma_parse_encoded(b, 8, args, end);
    if 4 <= p < enc.len() {
        let t = enc.take(p);
        assert(t.subrange(0, 4) =~= u32_le(body.len() as u32));
        lemma_u32_le_read(body.len() as u32, t, 0);
    }
}

/// Once the first frame of `a` has fully arrived, bytes after it do not
/// change what it is.
pub proof fn lemma_frame_prefix(a: Seq<u8>, b: Seq<u8>)
    requires
        !(request_frame(a) is Incomplete),
    ensures
        request_frame(a + b) == request_frame(a),
{
    let ab = a + b;
    assert(le_u32_at(ab, 0) == le_u32_at(a, 0));
    if le_u32_at(a, 0) >= 4 {
        assert(le_u32_at(ab, 4) == le_u32_at(a, 4));
        lemma_parse_args_prefix(a, b, 8, le_u32_at(a, 4) as nat, 4 + le_u32_at(a, 0));
    }
}

/// `prefix` put in front of the arguments that `r` holds.
pub open spec fn prepend_args(prefix: Seq<Seq<u8>>, r: Result<Seq<Seq<u8>>, ParseFault>) -> Result<
    Seq<Seq<u8>>,
    ParseFault,
> {
    match r {
        Ok(rest) => Ok(prefix + rest),
        Err(f) => Err(f),
    }
}

/// Reads the little-endian `u32` at `off`.
fn read_u32_le(buf: &[u8], off: usize) -> (v: usize)
    requires
        off + 4 <= buf@.len(),
    ensures
        v == le_u32_at(buf@, off as int),
{
    buf[off] as usize + (buf[off + 1] as usize) * 256 + (buf[off + 2] as usize) * 65536 + (buf[off
        + 3] as usize) * 16777216
}

/// Splits the first request frame off the front of `buf`: `Ok(None)` until
/// the whole frame has arrived, then its arguments and its length in bytes,
/// or the reason the frame is malformed.
pub fn parse_request(buf: &[u8]) -> (r: Result<Option<(Command, usize)>, &'static str>)
    ensures
        request_frame(buf@) is Incomplete <==> r == Ok::<Option<(Command, usize)>, &'static str>(
            None,
        ),
        request_frame(buf@) matches Frame::Malformed(f) ==> r matches Err(m) && m@ == fault_text(
            f,
        ),
        request_frame(buf@) matches Frame::Complete(args, n) ==> r matches Ok(Some((c, m)))
            && arg_views(c.args@) == args && m == n,
        r matches Ok(Some((c, m))) ==> m <= buf@.len(),
{
    if buf.len() < 4 {
        return Ok(None);
    }
    let total_len = read_u32_le(buf, 0);
    if buf.len() - 4 < total_len {
        return Ok(None);
    }
    if total_len < 4 {
        proof {
            reveal_strlit("Invalid total packet length");
        }
        return Err("Invalid total packet length");
    }
    let end = 4 + total_len;
    let num_args = read_u32_le(buf, 4);
    let mut offset: usize = 8;
    let mut args: Vec<&[u8]> = Vec::with_capacity(num_args);
    let mut i: usize = 0;
    while i < num_args
        invariant
            8 <= offset <= end <= buf@.len(),
            end == 4 + le_u32_at(buf@, 0),
            num_args == le_u32_at(buf@, 4),
            i <= num_args,
            parse_args(buf@, 8, num_args as nat, end as int) == prepend_args(
                arg_views(args@),
                parse_args(buf@, offset as int, (num_args - i) as nat, end as int),
            ),
        decreases num_args - i,
    {
        if end - offset < 4 {
            proof {
                reveal_strlit("Buffer overflow parsing argument length");
            }
            return Err("Buffer overflow parsing argument length");
        }
        let arg_len = read_u32_le(buf, offset);
        offset = offset + 4;
        if arg_len > end - offset {
            proof {
                reveal_strlit("Buffer overflow parsing argument data");
            }
            return Err("Buffer overflow parsing argument data");
        }
        let ghost before = args@;
        let arg = &buf[offset..offset + arg_len];
        args.push(arg);
        proof {
            let rest = parse_args(buf@, (offset + arg_len) as int, (num_args - i - 1) as nat, end as int);
            assert(arg_views(args@) =~= arg_views(before).push(arg@));
            match rest {
                Ok(x) => {
                    assert(arg_views(before) + (seq![arg@] + x) =~= arg_views(args@) + x);
                },
                Err(_) => {},
            }
        }
        offset = offset + arg_len;
        i = i + 1;
    }
    assert(arg_views(args@) + Seq::<Seq<u8>>::empty() =~= arg_views(args@));
    Ok(Some((Command { args }, end)))
}

/// Appends `data` to `buf`.
fn append_bytes(buf: &mut Vec<u8>, data: &[u8])
    ensures
        final(buf)@ == old(buf)@ + data@,
{
    let mut i: usize = 0;
    while i < data.len()
        invariant
            i <= data@.len(),
            buf@ == old(buf)@ + data@.subrange(0, i as int),
        decreases data@.len() - i,
    {
        buf.push(data[i]);
        assert(data@.subrange(0, i + 1) =~= data@.subrange(0, i as int).push(data@[i as int]));
        i = i + 1;
    }
    assert(data@.subrange(0, data@.len() as int) =~= data@);
}

/// Appends the four little-endian bytes of `x` to `buf`.
fn append_u32_le(buf: &mut Vec<u8>, x: u32)
    ensures
        final(buf)@ == old(buf)@ + u32_le(x),
{
    buf.push((x % 256) as u8);
    buf.push(((x / 256) % 256) as u8);
    buf.push(((x / 65536) % 256) as u8);
    buf.push((x / 16777216) as u8);
    assert(buf@ =~= old(buf)@ + u32_le(x));
}

/// Appends the eight little-endian bytes of `x` to `buf`.
fn append_u64_le(buf: &mut Vec<u8>, x: u64)
    ensures
        final(buf)@ == old(buf)@ + u64_le(x),
{
    buf.push((x % 256) as u8);
    buf.push(((x / 0x100) % 256) as u8);
    buf.push(((x / 0x10000) % 256) as u8);
    buf.push(((x / 0x1000000) % 256) as u8);
    buf.push(((x / 0x100000000) % 256) as u8);
    buf.push(((x / 0x10000000000) % 256) as u8);
    buf.push(((x / 0x1000000000000) % 256) as u8);
    buf.push((x / 0x100000000000000) as u8);
    assert(buf@ =~= old(buf)@ + u64_le(x));
}

/// Overwrites `buf[pos..pos + 4]` with the little-endian bytes of `x`.
fn write_u32_le_at(buf: &mut Vec<u8>, pos: usize, x: u32)
    requires
        pos + 4 <= old(buf)@.len(),
    ensures
        final(buf)@ == old(buf)@.subrange(0, pos as int) + u32_le(x) + old(buf)@.subrange(
            pos + 4,
            old(buf)@.len() as int,
        ),
{
    assert(buf@.len() == buf.len());
    let p1 = pos + 1;
    let p2 = pos + 2;
    let p3 = pos + 3;
    buf.set(pos, (x % 256) as u8);
    buf.set(p1, ((x / 256) % 256) as u8);
    buf.set(p2, ((x / 65536) % 256) as u8);
    buf.set(p3, (x / 16777216) as u8);
    assert(buf@ =~= old(buf)@.subrange(0, pos as int) + u32_le(x) + old(buf)@.subrange(
        pos + 4,
        old(buf)@.len() as int,
    ));
}

/// The bytes of a nil value.
pub open spec fn nil_bytes() -> Seq<u8> {
    seq![0u8]
}

/// The bytes of an error value.
pub open spec fn error_bytes(code: ErrorCode, msg: Seq<u8>) -> Seq<u8> {
    seq![1u8] + u32_le(error_code_value(code)) + u32_le(msg.len() as u32) + msg
}

/// The bytes of a string value.
pub open spec fn str_bytes(val: Seq<u8>) -> Seq<u8> {
    seq![2u8] + u32_le(val.len() as u32) + val
}

/// The bytes of an integer value.
pub open spec fn int_bytes(val: i64) -> Seq<u8> {
    seq![3u8] + u64_le(val as u64)
}

/// The bytes of a double value, given the bits of the `f64`.
pub open spec fn double_bytes(bits: u64) -> Seq<u8> {
    seq![4u8] + u64_le(bits)
}

/// The little-endian `u64` stored in `b[off..off + 8]`.
pub open spec fn le_u64_at(b: Seq<u8>, off: int) -> int {
    le_u32_at(b, off) + le_u32_at(b, off + 4) * 0x1_0000_0000
}

/// A string value reads back as the tag 2, the value's length as a
/// little-endian `u32`, and the value's bytes, whatever its length up to
/// `u32::MAX`.
pub proof fn lemma_str_bytes_read(val: Seq<u8>)
    requires
        val.len() <= u32::MAX,
    ensures
        str_bytes(val).len() == 5 + val.len(),
        str_bytes(val)[0] == 2,
        le_u32_at(str_bytes(val), 1) == val.len(),
        str_bytes(val).subrange(5, 5 + val.len() as int) == val,
{
    let b = str_bytes(val);
    assert(b.subrange(1, 5) =~= u32_le(val.len() as u32));
    lemma_u32_le_read(val.len() as u32, b, 1);
    assert(b.subrange(5, 5 + val.len() as int) =~= val);
}

/// An integer value reads back as the tag 3 and the integer in two's
/// complement: a little-endian `u64` that is the value itself when it is not
/// negative and the value plus 2^64 when it is.
pub proof fn lemma_int_bytes_read(val: i64)
    ensures
        int_bytes(val).len() == 9,
        int_bytes(val)[0] == 3,
        le_u64_at(int_bytes(val), 1) == (if val >= 0 {
            val as int
        } else {
            val + 0x1_0000_0000_0000_0000
        }),
{
    let bits = val as u64;
    let b = int_bytes(val);
    let u = u64_le(bits);
    assert(b[1] == u[0] && b[2] == u[1] && b[3] == u[2] && b[4] == u[3]);
    assert(b[5] == u[4] && b[6] == u[5] && b[7] == u[6] && b[8] == u[7]);
    assert((bits % 256) as u8 as int + ((bits / 0x100) % 256) as u8 as int * 0x100 + ((bits
        / 0x10000) % 256) as u8 as int * 0x10000 + ((bits / 0x1000000) % 256) as u8 as int
        * 0x1000000 + ((bits / 0x100000000) % 256) as u8 as int * 0x100000000 + ((bits
        / 0x10000000000) % 256) as u8 as int * 0x10000000000 + ((bits / 0x1000000000000)
        % 256) as u8 as int * 0x1000000000000 + (bits / 0x100000000000000) as u8 as int
        * 0x100000000000000 == bits) by (bit_vector);
    assert(bits as int == (if val >= 0 {
        val as int
    } else {
        val + 0x1_0000_0000_0000_0000
    })) by (bit_vector)
        requires
            bits == val as u64,
    ;
}

/// An error value reads back as the tag 1, the error's code and the
/// message's length as little-endian `u32`s, and the message's bytes.
pub proof fn lemma_error_bytes_read(code: ErrorCode, msg: Seq<u8>)
    requires
        msg.len() <= u32::MAX,
    ensures
        error_bytes(code, msg).len() == 9 + msg.len(),
        error_bytes(code, msg)[0] == 1,
        le_u32_at(error_bytes(code, msg), 1) == error_code_value(code),
        le_u32_at(error_bytes(code, msg), 5) == msg.len(),
        error_bytes(code, msg).subrange(9, 9 + msg.len() as int) == msg,
{
    let b = error_bytes(code, msg);
    assert(b.subrange(1, 5) =~= u32_le(error_code_value(code)));
    assert(b.subrange(5, 9) =~= u32_le(msg.len() as u32));
    lemma_u32_le_read(error_code_value(code), b, 1);
    lemma_u32_le_read(msg.len() as u32, b, 5);
    assert(b.subrange(9, 9 + msg.len() as int) =~= msg);
}

/// A double value reads back as the tag 4 and the very bits it was given,
/// sign bit included, as a little-endian `u64`.
pub proof fn lemma_double_bytes_read(bits: u64)
    ensures
        double_bytes(bits).len() == 9,
        double_bytes(bits)[0] == 4,
        le_u64_at(double_bytes(bits), 1) == bits,
{
    let b = double_bytes(bits);
    let u = u64_le(bits);
    assert(b[1] == u[0] && b[2] == u[1] && b[3] == u[2] && b[4] == u[3]);
    assert(b[5] == u[4] && b[6] == u[5] && b[7] == u[6] && b[8] == u[7]);
    assert((bits % 256) as u8 as int + ((bits / 0x100) % 256) as u8 as int * 0x100 + ((bits
        / 0x10000) % 256) as u8 as int * 0x10000 + ((bits / 0x1000000) % 256) as u8 as int
        * 0x1000000 + ((bits / 0x100000000) % 256) as u8 as int * 0x100000000 + ((bits
        / 0x10000000000) % 256) as u8 as int * 0x10000000000 + ((bits / 0x1000000000000)
        % 256) as u8 as int * 0x1000000000000 + (bits / 0x100000000000000) as u8 as int
        * 0x100000000000000 == bits) by (bit_vector);
}

/// Builds binary responses; the first four bytes are reserved for the length
/// prefix that [`ResponseBuilder::finish`] fills in.
pub struct ResponseBuilder {
    buf: Vec<u8>,
}

impl View for ResponseBuilder {
    type V = Seq<u8>;

    /// The bytes written so far, length prefix slot included.
    closed spec fn view(&self) -> Seq<u8> {
        self.buf@
    }
}

impl ResponseBuilder {
    /// The four bytes of the length prefix are in place.
    pub closed spec fn wf(&self) -> bool {
        self.buf@.len() >= 4
    }

    /// A response with room for its length prefix and nothing else yet.
    #[must_use]
    pub fn new() -> (r: Self)
        ensures
            r.wf(),
            r@ == seq![0u8, 0u8, 0u8, 0u8],
    {
        let mut buf: Vec<u8> = Vec::with_capacity(64);
        append_u32_le(&mut buf, 0);
        assert(buf@ =~= seq![0u8, 0u8, 0u8, 0u8]);
        ResponseBuilder { buf }
    }

    /// Writes a nil value.
    pub fn nil(&mut self)
        requires
            old(self).wf(),
        ensures
            final(self).wf(),
            final(self)@ == old(self)@ + nil_bytes(),
    {
        self.buf.push(0);
        assert(self.buf@ =~= old(self)@ + nil_bytes());
    }

    /// Writes an error value with `code` and the bytes of `msg`.
    pub fn error(&mut self, code: ErrorCode, msg: &str)
        requires
            old(self).wf(),
        ensures
            final(self).wf(),
            final(self)@ == old(self)@ + error_bytes(code, msg.spec_bytes()),
    {
        self.buf.push(1);
        append_u32_le(&mut self.buf, code.value());
        let msg_bytes = msg.as_bytes();
        append_u32_le(&mut self.buf, msg_bytes.len() as u32);
        append_bytes(&mut self.buf, msg_bytes);
        assert(self.buf@ =~= old(self)@ + error_bytes(code, msg.spec_bytes()));
    }

    /// Writes a string value.
    pub fn str(&mut self, val: &[u8])
        requires
            old(self).wf(),
        ensures
            final(self).wf(),
            final(self)@ == old(self)@ + str_bytes(val@),
    {
        self.buf.push(2);
        append_u32_le(&mut self.buf, val.len() as u32);
        append_bytes(&mut self.buf, val);
        assert(self.buf@ =~= old(self)@ + str_bytes(val@));
    }

    /// Writes an integer value.
    pub fn integer(&mut self, val: i64)
        requires
            old(self).wf(),
        ensures
            final(self).wf(),
            final(self)@ == old(self)@ + int_bytes(val),
    {
        self.buf.push(3);
        append_u64_le(&mut self.buf, val as u64);
        assert(self.buf@ =~= old(self)@ + int_bytes(val));
    }

    /// Writes a double value given the bits of the `f64` (`f64::to_bits`),
    /// which are its little-endian bytes on the wire.
    pub fn double_bits(&mut self, bits: u64)
        requires
            old(self).wf(),
        ensures
            final(self).wf(),
            final(self)@ == old(self)@ + double_bytes(bits),
    {
        self.buf.push(4);
        append_u64_le(&mut self.buf, bits);
        assert(self.buf@ =~= old(self)@ + double_bytes(bits));
    }

    /// Starts an array value of `count` items, which follow.
    pub fn array_header(&mut self, count: u32)
        requires
            old(self).wf(),
        ensures
            final(self).wf(),
            final(self)@ == old(self)@ + seq![5u8] + u32_le(count),
    {
        self.buf.push(5);
        append_u32_le(&mut self.buf, count);
        assert(self.buf@ =~= old(self)@ + seq![5u8] + u32_le(count));
    }

    /// Starts an array value; its items are written through the returned builder.
    pub fn array_start(&mut self) -> (a: ArrayBuilder)
        requires
            old(self).wf(),
        ensures
            a.wf(),
            a.bytes() == old(self)@ + seq![5u8, 0u8, 0u8, 0u8, 0u8],
            a.slot() == old(self)@.len() + 1,
            a.items() == 0,
            *final(self) == *final(a.target()),
    {
        self.buf.push(5);
        let count_pos = self.buf.len();
        append_u32_le(&mut self.buf, 0);
        assert(self.buf@ =~= old(self)@ + seq![5u8, 0u8, 0u8, 0u8, 0u8]);
        ArrayBuilder { builder: self, count_pos, count: 0 }
    }

    /// Fills in the length prefix (the number of bytes after it) and returns
    /// the packet.
    pub fn finish(self) -> (packet: Vec<u8>)
        requires
            self.wf(),
        ensures
            packet@ == u32_le((self@.len() - 4) as u32) + self@.subrange(4, self@.len() as int),
    {
        let mut buf = self.buf;
        let total_len = (buf.len() - 4) as u32;
        write_u32_le_at(&mut buf, 0, total_len);
        assert(buf@ =~= u32_le((self@.len() - 4) as u32) + self@.subrange(4, self@.len() as int));
        buf
    }
}

impl Default for ResponseBuilder {
    fn default() -> (r: Self)
        ensures
            r.wf(),
            r@ == seq![0u8, 0u8, 0u8, 0u8],
    {
        Self::new()
    }
}

/// Writes the items of an array value and then its item count.
pub struct ArrayBuilder<'a> {
    builder: &'a mut ResponseBuilder,
    count_pos: usize,
    count: u32,
}

impl<'a> ArrayBuilder<'a> {
    /// The count slot lies inside the bytes written so far.
    pub closed spec fn wf(&self) -> bool {
        &&& self.builder.wf()
        &&& self.count_pos + 4 <= self.builder@.len()
    }

    /// The bytes written so far to the response.
    pub closed spec fn bytes(&self) -> Seq<u8> {
        self.builder@
    }

    /// Where the item count goes.
    pub closed spec fn slot(&self) -> int {
        self.count_pos as int
    }

    /// The number of items written.
    pub closed spec fn items(&self) -> u32 {
        self.count
    }

    /// The borrowed response that receives the bytes.
    pub closed spec fn target(&self) -> &'a mut ResponseBuilder {
        self.builder
    }

    /// Writes a string item.
    pub fn item_str(&mut self, val: &[u8])
        requires
            old(self).wf(),
            old(self).items() < u32::MAX,
        ensures
            final(self).wf(),
            final(self).bytes() == old(self).bytes() + str_bytes(val@),
            final(self).slot() == old(self).slot(),
            final(self).items() == old(self).items() + 1,
            *final(final(self).target()) == *final(old(self).target()),
    {
        self.builder.str(val);
        self.count = self.count + 1;
    }

    /// Writes a double item given the bits of the `f64`.
    pub fn item_double_bits(&mut self, bits: u64)
        requires
            old(self).wf(),
            old(self).items() < u32::MAX,
        ensures
            final(self).wf(),
            final(self).bytes() == old(self).bytes() + double_bytes(bits),
            final(self).slot() == old(self).slot(),
            final(self).items() == old(self).items() + 1,
            *final(final(self).target()) == *final(old(self).target()),
    {
        self.builder.double_bits(bits);
        self.count = self.count + 1;
    }

    /// Writes the item count into its slot.
    pub fn finish(self)
        requires
            self.wf(),
        ensures
            final(self.target()).wf(),
            final(self.target())@ == self.bytes().subrange(0, self.slot()) + u32_le(self.items())
                + self.bytes().subrange(self.slot() + 4, self.bytes().len() as int),
    {
        let count = self.count;
        let pos = self.count_pos;
        write_u32_le_at(&mut self.builder.buf, pos, count);
    }
}

/// The writes that hashing the byte string `data` through `Hash` adds to a
/// hasher whose writes so far are `writes`. What they are (a length prefix
/// in the platform's word size and byte order, then the bytes) is the
/// standard library's and is not spelled out here; within one build the
/// same bytes give the same writes.
pub uninterp spec fn slice_hash_writes(writes: Seq<Seq<u8>>, data: Seq<u8>) -> Seq<Seq<u8>>;

/// `<[u8] as Hash>::hash`: feeds `data` to `hasher`. The contract names the
/// writes it makes and says nothing more of them.
#[verifier::external_body]
fn hash_slice(data: &[u8], hasher: &mut DefaultHasher)
    ensures
        final(hasher)@ == slice_hash_writes(old(hasher)@, data@),
{
    data.hash(hasher)
}

/// The value a fresh `DefaultHasher` gives for a byte slice hashed through
/// `Hash`.
pub open spec fn default_hash_of(data: Seq<u8>) -> u64 {
    DefaultHasher::spec_finish(slice_hash_writes(Seq::empty(), data))
}

/// Hashes bytes with the standard library's `DefaultHasher`, whose keys are
/// fixed, so equal byte strings hash alike.
pub fn hash_bytes(data: &[u8]) -> (h: u64)
    ensures
        h == default_hash_of(data@),
{
    let mut hasher = DefaultHasher::new();
    hash_slice(data, &mut hasher);
    hasher.finish()
}

} // verus!
