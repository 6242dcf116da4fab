//! What the server does with a connection's bytes: requests that have fully
//! arrived are routed to the storage engine in order and dropped from the
//! receive buffer, their replies queued on the send buffer. Sorted-set
//! commands, whose scores are floating point, sockets and the event loop
//! are the caller's.

use crate::protocol::{
    arg_views, error_bytes, parse_request, request_frame, u32_le, Command, ErrorCode, Frame,
    ResponseBuilder,
};
use crate::storage::{
    del_body, deleted, expiry_time, get_reply, pexpire_body, pexpired, set_body, set_done,
    zadd_body, zadded, zquery_body, zrem_body, zremoved, zscore_body, StorageEngine,
};
use bytes::{Buf, BytesMut};
use vstd::prelude::*;
use vstd::string::StringSliceAdditionalSpecFns;

verus! {

/// Capacity reserved up front for a connection's receive buffer.
pub const READ_BUF_SIZE: usize = 4096;

#[verifier::external_type_specification]
#[verifier::external_body]
pub struct ExBytesMut(BytesMut);

/// The bytes a buffer holds.
pub uninterp spec fn bytes_of(b: BytesMut) -> Seq<u8>;

/// `BytesMut::new`: an empty buffer.
#[verifier::external_body]
fn buf_new() -> (b: BytesMut)
    ensures
        bytes_of(b) == Seq::<u8>::empty(),
{
    BytesMut::new()
}

/// `BytesMut::with_capacity`: an empty buffer with room for `capacity`
/// bytes. The allocation fails beyond `isize::MAX` bytes.
#[verifier::external_body]
fn buf_with_capacity(capacity: usize) -> (b: BytesMut)
    requires
        capacity <= isize::MAX,
    ensures
        bytes_of(b) == Seq::<u8>::empty(),
{
    BytesMut::with_capacity(capacity)
}

/// `BytesMut::extend_from_slice`: appends `data`. It grows the buffer
/// first, which fails when the size overflows; the bound asked here keeps
/// the held bytes and `data` within `isize::MAX`, and says nothing of the
/// room the buffer keeps for bytes already consumed at its front.
#[verifier::external_body]
fn buf_extend(b: &mut BytesMut, data: &[u8])
    requires
        bytes_of(*old(b)).len() + data@.len() <= isize::MAX,
    ensures
        bytes_of(*final(b)) == bytes_of(*old(b)) + data@,
{
    b.extend_from_slice(data)
}

/// `Buf::advance` on a `BytesMut`: drops the first `cnt` bytes; it panics
/// when `cnt` is more than the buffer holds.
#[verifier::external_body]
fn buf_advance(b: &mut BytesMut, cnt: usize)
    requires
        cnt <= bytes_of(*old(b)).len(),
    ensures
        bytes_of(*final(b)) == bytes_of(*old(b)).skip(cnt as int),
{
    b.advance(cnt)
}

/// `BytesMut` as a slice, through `Deref`: the bytes it holds.
#[verifier::external_body]
fn buf_bytes(b: &BytesMut) -> (s: &[u8])
    ensures
        s@ == bytes_of(*b),
{
    b
}

/// `BytesMut::is_empty`: whether the buffer holds no byte.
#[verifier::external_body]
fn buf_is_empty(b: &BytesMut) -> (r: bool)
    ensures
        r == (bytes_of(*b).len() == 0),
{
    b.is_empty()
}

/// `GET`.
pub open spec fn name_get() -> Seq<u8> {
    seq![71u8, 69u8, 84u8]
}

/// `SET`.
pub open spec fn name_set() -> Seq<u8> {
    seq![83u8, 69u8, 84u8]
}

/// `DEL`.
pub open spec fn name_del() -> Seq<u8> {
    seq![68u8, 69u8, 76u8]
}

/// `PEXPIRE`.
pub open spec fn name_pexpire() -> Seq<u8> {
    seq![80u8, 69u8, 88u8, 80u8, 73u8, 82u8, 69u8]
}

/// `ZADD`, `ZREM`, `ZSCORE` and `ZQUERY`: the sorted-set commands.
pub open spec fn is_sorted_set_name(n: Seq<u8>) -> bool {
    ||| n == name_zadd()
    ||| n == name_zrem()
    ||| n == name_zscore()
    ||| n == name_zquery()
}

/// A request for a sorted-set command.
pub open spec fn is_sorted_set_command(args: Seq<Seq<u8>>) -> bool {
    args.len() > 0 && is_sorted_set_name(args[0])
}

/// `ZADD`.
pub open spec fn name_zadd() -> Seq<u8> {
    seq![90u8, 65u8, 68u8, 68u8]
}

/// `ZREM`.
pub open spec fn name_zrem() -> Seq<u8> {
    seq![90u8, 82u8, 69u8, 77u8]
}

/// `ZSCORE`.
pub open spec fn name_zscore() -> Seq<u8> {
    seq![90u8, 83u8, 67u8, 79u8, 82u8, 69u8]
}

/// `ZQUERY`.
pub open spec fn name_zquery() -> Seq<u8> {
    seq![90u8, 81u8, 85u8, 69u8, 82u8, 89u8]
}

/// The number of arguments, the name included, that a sorted-set command
/// takes: ZADD key score member, ZREM key member, ZSCORE key member,
/// ZQUERY key score offset limit.
pub open spec fn sorted_set_arity(n: Seq<u8>) -> int {
    if n == name_zadd() {
        4
    } else if n == name_zquery() {
        5
    } else {
        3
    }
}

/// What answering the sorted-set request `args` does to the engine, and the
/// reply, where `score` is the score key the caller read from the score
/// argument (of ZADD and ZQUERY), `None` when it is no number: the command
/// goes to the engine; a request for another command, with the wrong number
/// of arguments, or with a score or count that is no number, is answered
/// with an error and changes nothing.
#[verifier::opaque]
pub open spec fn zhandled(
    before: StorageEngine,
    after: StorageEngine,
    args: Seq<Seq<u8>>,
    score: Option<u64>,
    reply: Seq<u8>,
) -> bool {
    if !is_sorted_set_command(args) {
        after == before && reply == packet(
            error_bytes(ErrorCode::Unknown, "unknown command".spec_bytes()),
        )
    } else if args.len() != sorted_set_arity(args[0]) {
        after == before && reply == packet(
            error_bytes(ErrorCode::ArgError, "wrong number of arguments".spec_bytes()),
        )
    } else if args[0] == name_zrem() {
        zremoved(before, after, args[1], args[2]) && reply == packet(zrem_body(before, args[1], args[2]))
    } else if args[0] == name_zscore() {
        after == before && reply == packet(zscore_body(before.entries(), args[1], args[2]))
    } else {
        match score {
            None => after == before && reply == packet(
                error_bytes(ErrorCode::ArgError, "expect float".spec_bytes()),
            ),
            Some(s) => if args[0] == name_zadd() {
                zadded(before, after, args[1], s, args[3]) && reply == packet(
                    zadd_body(before, args[1], s, args[3]),
                )
            } else {
                match (int_arg(args[3]), int_arg(args[4])) {
                    (Some(o), Some(l)) => after == before && reply == packet(
                        zquery_body(before.entries(), args[1], s, o, l),
                    ),
                    _ => after == before && reply == packet(
                        error_bytes(ErrorCode::ArgError, "expect int".spec_bytes()),
                    ),
                }
            },
        }
    }
}

/// The number of arguments, the name included, that the string and expiry
/// commands take.
pub open spec fn arity(n: Seq<u8>) -> int {
    if n == name_get() || n == name_del() {
        2
    } else if n == name_set() || n == name_pexpire() {
        3
    } else {
        0
    }
}

/// The value of a string of decimal digits.
pub open spec fn digits_value(d: Seq<u8>) -> int
    decreases d.len(),
{
    if d.len() == 0 {
        0
    } else {
        digits_value(d.drop_last()) * 10 + (d.last() - 48)
    }
}

/// Every byte is an ASCII digit.
pub open spec fn all_digits(d: Seq<u8>) -> bool {
    forall|i: int| 0 <= i < d.len() ==> 48 <= #[trigger] d[i] <= 57
}

/// The integer an argument spells in decimal, after an optional minus sign,
/// when it spells one that fits in an `i64`.
pub open spec fn int_arg(b: Seq<u8>) -> Option<i64> {
    let neg = b.len() > 0 && b[0] == 45;
    let d = if neg {
        b.skip(1)
    } else {
        b
    };
    let v = if neg {
        -digits_value(d)
    } else {
        digits_value(d)
    };
    if d.len() > 0 && all_digits(d) && i64::MIN <= v <= i64::MAX {
        Some(v as i64)
    } else {
        None
    }
}

/// A string of decimal digits reads as its value, and after a minus sign as
/// the negated value, whenever that value fits in an `i64`.
pub proof fn lemma_int_arg_sign(d: Seq<u8>)
    requires
        d.len() > 0,
        all_digits(d),
        digits_value(d) <= i64::MAX,
    ensures
        int_arg(d) == Some(digits_value(d) as i64),
        int_arg(seq![45u8] + d) == Some((-digits_value(d)) as i64),
{
    lemma_digits_grow(d, 0);
    assert(48 <= d[0] <= 57);
    assert((seq![45u8] + d).skip(1) =~= d);
}

/// One more digit: a single digit reads as its value, and a digit appended
/// to a string of digits multiplies its value by ten and adds the digit's,
/// whenever the result fits in an `i64`.
pub proof fn lemma_int_arg_digit(d: Seq<u8>, c: u8)
    requires
        48 <= c <= 57,
        all_digits(d),
        d.len() == 0 || int_arg(d) is Some,
        d.len() == 0 || int_arg(d)->0 * 10 + (c - 48) <= i64::MAX,
    ensures
        d.len() == 0 ==> int_arg(seq![c]) == Some((c - 48) as i64),
        d.len() > 0 ==> int_arg(d.push(c)) == Some((int_arg(d)->0 * 10 + (c - 48)) as i64),
{
    let e = d.push(c);
    assert(e.drop_last() =~= d);
    assert(all_digits(e)) by {
        assert forall|i: int| 0 <= i < e.len() implies 48 <= #[trigger] e[i] <= 57 by {
            if i < d.len() {
                assert(e[i] == d[i]);
            }
        }
    }
    if d.len() == 0 {
        assert(digits_value(d) == 0);
        assert(digits_value(e) == c - 48);
        assert(e[0] == c);
        assert(e =~= seq![c]);
    } else {
        assert(48 <= d[0] <= 57);
        assert(e[0] == d[0]);
        lemma_digits_grow(d, 0);
    }
}

/// A reply packet: the body's length, then the body.
pub open spec fn packet(body: Seq<u8>) -> Seq<u8> {
    u32_le(body.len() as u32) + body
}

/// A reply packet reads back as the body's length, a little-endian `u32`,
/// then the body.
pub proof fn lemma_packet_read(body: Seq<u8>)
    requires
        body.len() <= u32::MAX,
    ensures
        packet(body).len() == 4 + body.len(),
        crate::protocol::le_u32_at(packet(body), 0) == body.len(),
        packet(body).subrange(4, 4 + body.len() as int) == body,
{
    let p = packet(body);
    assert(p.subrange(0, 4) =~= u32_le(body.len() as u32));
    crate::protocol::lemma_u32_le_read(body.len() as u32, p, 0);
    assert(p.subrange(4, 4 + body.len() as int) =~= body);
}

/// What answering the request `args` at `now_us` does to the engine, and
/// the reply: GET, SET, DEL and PEXPIRE go to the engine; a request for no
/// known command, or with the wrong number of arguments, or a time that is
/// no integer or lies beyond the clock's range, is answered with an error
/// and changes nothing.
#[verifier::opaque]
pub open spec fn handled(
    before: StorageEngine,
    after: StorageEngine,
    args: Seq<Seq<u8>>,
    now_us: u64,
    reply: Seq<u8>,
) -> bool {
    if args.len() == 0 || arity(args[0]) == 0 {
        after == before && reply == packet(
            error_bytes(ErrorCode::Unknown, "unknown command".spec_bytes()),
        )
    } else if args.len() != arity(args[0]) {
        after == before && reply == packet(
            error_bytes(ErrorCode::ArgError, "wrong number of arguments".spec_bytes()),
        )
    } else if args[0] == name_get() {
        after == before && reply == packet(get_reply(before.entries(), args[1]))
    } else if args[0] == name_set() {
        &&& exists|v: Vec<u8>| v@ == args[2] && #[trigger] set_done(before, after, args[1], v)
        &&& reply == packet(set_body(before, args[1]))
    } else if args[0] == name_del() {
        deleted(before, after, args[1]) && reply == packet(del_body(before, args[1]))
    } else {
        match int_arg(args[2]) {
            None => after == before && reply == packet(
                error_bytes(ErrorCode::ArgError, "expect int".spec_bytes()),
            ),
            Some(t) => if 0 <= t && before.entries().contains_key(args[1]) && expiry_time(now_us, t)
                > u64::MAX {
                after == before && reply == packet(
                    error_bytes(ErrorCode::ArgError, "expire time out of range".spec_bytes()),
                )
            } else {
                pexpired(before, after, args[1], t, now_us) && reply == packet(
                    pexpire_body(before, args[1], t),
                )
            },
        }
    }
}

/// PEXPIRE through the command line: a time of nonzero digits after a minus
/// sign drops the key's expiry time, and digits alone, on a key with an
/// entry, set its expiry time that many milliseconds after `now_us` when
/// that moment fits the clock; both reply 1.
pub proof fn lemma_pexpire_command(
    e0: StorageEngine,
    e1: StorageEngine,
    k: Seq<u8>,
    d: Seq<u8>,
    now_us: u64,
    r: Seq<u8>,
)
    requires
        d.len() > 0,
        all_digits(d),
        digits_value(d) <= i64::MAX,
    ensures
        handled(e0, e1, seq![name_pexpire(), k, seq![45u8] + d], now_us, r) && digits_value(d) > 0
            ==> e1.expiry_of(k) is None && r == packet(crate::protocol::int_bytes(1)),
        handled(e0, e1, seq![name_pexpire(), k, d], now_us, r) && e0.entries().contains_key(k)
            && now_us + digits_value(d) * 1000 <= u64::MAX ==> e1.expiry_of(k) == Some(
            (now_us + digits_value(d) * 1000) as u64,
        ) && r == packet(crate::protocol::int_bytes(1)),
{
    reveal(handled);
    lemma_int_arg_sign(d);
    lemma_digits_grow(d, 0);
    let n = seq![45u8] + d;
    let a1 = seq![name_pexpire(), k, n];
    let a2 = seq![name_pexpire(), k, d];
    assert(a1[0] == name_pexpire() && arity(a1[0]) == 3 && a1[1] == k && a1[2] == n);
    assert(a2[0] == name_pexpire() && arity(a2[0]) == 3 && a2[1] == k && a2[2] == d);
    assert(name_pexpire() != name_get() && name_pexpire() != name_set() && name_pexpire() != name_del());
    let t = digits_value(d) as i64;
    assert(t == digits_value(d));
    assert(crate::storage::expiry_time(now_us, t) == now_us + digits_value(d) * 1000);
}

/// A read gives back what a write wrote, through the commands: after SET
/// stores `v` under `k` (where no sorted set is stored), GET on `k` replies
/// with `v`; after DEL of `k`, GET on `k` replies nil.
pub proof fn lemma_get_after_set_command(
    e0: StorageEngine,
    e1: StorageEngine,
    e2: StorageEngine,
    k: Seq<u8>,
    v: Seq<u8>,
    t1: u64,
    t2: u64,
    r1: Seq<u8>,
    r2: Seq<u8>,
)
    requires
        !crate::storage::set_refused(e0.entries(), k),
        handled(e0, e1, seq![name_set(), k, v], t1, r1),
    ensures
        r1 == packet(crate::protocol::nil_bytes()),
        handled(e1, e2, seq![name_get(), k], t2, r2) ==> r2 == packet(crate::protocol::str_bytes(v)),
        handled(e1, e2, seq![name_del(), k], t2, r2) ==> get_reply(e2.entries(), k)
            == crate::protocol::nil_bytes(),
{
    reveal(handled);
    let a1 = seq![name_set(), k, v];
    assert(a1[0] == name_set() && arity(a1[0]) == 3 && a1[1] == k && a1[2] == v);
    let a2 = seq![name_get(), k];
    assert(a2[0] == name_get() && arity(a2[0]) == 2 && a2[1] == k);
    assert(name_get() != name_set());
    let a3 = seq![name_del(), k];
    assert(a3[0] == name_del() && arity(a3[0]) == 2 && a3[1] == k);
    assert(name_del() != name_set() && name_del() != name_get());
    if handled(e1, e2, a3, t2, r2) {
        assert(!crate::storage::contents(e2.entries()).contains_key(k));
    }
}

/// Whether `arg` holds the bytes of `name`.
fn arg_is(arg: &[u8], name: &[u8]) -> (r: bool)
    ensures
        r == (arg@ == name@),
{
    if arg.len() != name.len() {
        return false;
    }
    let mut i: usize = 0;
    while i < arg.len()
        invariant
            i <= arg.len(),
            arg.len() == name.len(),
            forall|j: int| 0 <= j < i ==> arg@[j] == name@[j],
        decreases arg.len() - i,
    {
        if arg[i] != name[i] {
            return false;
        }
        i += 1;
    }
    assert(arg@ =~= name@);
    true
}

/// The value of a prefix of a digit string is at most that of the string,
/// and no value is negative.
proof fn lemma_digits_grow(d: Seq<u8>, k: int)
    requires
        all_digits(d),
        0 <= k <= d.len(),
    ensures
        0 <= digits_value(d.take(k)) <= digits_value(d),
    decreases d.len(),
{
    if k < d.len() {
        lemma_digits_grow(d.drop_last(), k);
        assert(d.drop_last().take(k) =~= d.take(k));
        lemma_digits_grow(d.drop_last(), d.len() - 1);
        assert(d.drop_last().take(d.len() - 1) =~= d.drop_last());
    } else {
        assert(d.take(k) =~= d);
        if d.len() > 0 {
            lemma_digits_grow(d.drop_last(), d.len() - 1);
            assert(d.drop_last().take(d.len() - 1) =~= d.drop_last());
        }
    }
}

/// Reads an integer argument: decimal digits after an optional minus sign.
fn parse_int(b: &[u8]) -> (r: Option<i64>)
    ensures
        r == int_arg(b@),
{
    let neg = b.len() > 0 && b[0] == 45;
    let start: usize = if neg {
        1
    } else {
        0
    };
    let ghost d = b@.skip(start as int);
    proof {
        if !neg {
            assert(d =~= b@);
        }
    }
    if b.len() <= start {
        return None;
    }
    let limit: u128 = if neg {
        9223372036854775808
    } else {
        9223372036854775807
    };
    let mut acc: u128 = 0;
    let mut i: usize = start;
    while i < b.len()
        invariant
            start <= i <= b.len(),
            d == b@.skip(start as int),
            all_digits(d.take(i - start)),
            acc == digits_value(d.take(i - start)),
            acc <= limit,
            neg == (b@.len() > 0 && b@[0] == 45),
            start == (if neg { 1usize } else { 0usize }),
            !neg ==> d == b@,
            limit == (if neg { 9223372036854775808u128 } else { 9223372036854775807u128 }),
        decreases b.len() - i,
    {
        let c = b[i];
        if c < 48 || c > 57 {
            proof {
                assert(d[i - start] == c);
                assert(!(48 <= d[i - start] <= 57));
                assert(!all_digits(d));
            }
            return None;
        }
        let next = acc * 10 + (c - 48) as u128;
        proof {
            let t = d.take(i - start + 1);
            assert(t.drop_last() =~= d.take(i - start));
            assert(t.last() == c);
            assert(all_digits(t));
            assert(digits_value(t) == next);
        }
        if next > limit {
            proof {
                let t = d.take(i - start + 1);
                if all_digits(d) {
                    lemma_digits_grow(d, i - start + 1);
                    assert(digits_value(d) > limit);
                }
            }
            return None;
        }
        acc = next;
        i += 1;
    }
    proof {
        assert(d.take(i - start) =~= d);
        assert(all_digits(d));
        assert(acc == digits_value(d));
    }
    if neg {
        if acc == 9223372036854775808 {
            Some(i64::MIN)
        } else {
            Some(-(acc as i64))
        }
    } else {
        Some(acc as i64)
    }
}

/// A reply packet holding the error `code` with message `msg`.
fn error_packet(code: ErrorCode, msg: &str) -> (r: Vec<u8>)
    ensures
        r@ == packet(error_bytes(code, msg.spec_bytes())),
{
    let mut response = ResponseBuilder::new();
    response.error(code, msg);
    proof {
        assert(response@.subrange(4, response@.len() as int) =~= error_bytes(code, msg.spec_bytes()));
    }
    response.finish()
}

/// Answers one request at `now_us`: GET, SET, DEL and PEXPIRE go to the
/// engine, whose reply is returned as a packet; the sorted-set commands are
/// left to the caller, and give `None` with the engine unchanged.
pub fn process_command(engine: &mut StorageEngine, cmd: &Command, now_us: u64) -> (r: Option<
    Vec<u8>,
>)
    requires
        old(engine).wf(),
    ensures
        final(engine).wf(),
        r is None <==> is_sorted_set_command(arg_views(cmd.args@)),
        r is None ==> *final(engine) == *old(engine),
        r matches Some(p) ==> handled(*old(engine), *final(engine), arg_views(cmd.args@), now_us, p@),
{
    reveal(handled);
    let ghost args = arg_views(cmd.args@);
    let n = cmd.args.len();
    if n == 0 {
        return Some(error_packet(ErrorCode::Unknown, "unknown command"));
    }
    let name = cmd.args[0];
    assert(name@ == args[0]);
    if arg_is(name, &[90u8, 65, 68, 68]) || arg_is(name, &[90u8, 82, 69, 77]) || arg_is(
        name,
        &[90u8, 83, 67, 79, 82, 69],
    ) || arg_is(name, &[90u8, 81, 85, 69, 82, 89]) {
        return None;
    }
    let is_get = arg_is(name, &[71u8, 69, 84]);
    let is_set = arg_is(name, &[83u8, 69, 84]);
    let is_del = arg_is(name, &[68u8, 69, 76]);
    let is_pexpire = arg_is(name, &[80u8, 69, 88, 80, 73, 82, 69]);
    if !(is_get || is_set || is_del || is_pexpire) {
        return Some(error_packet(ErrorCode::Unknown, "unknown command"));
    }
    let want: usize = if is_get || is_del {
        2
    } else {
        3
    };
    if n != want {
        return Some(error_packet(ErrorCode::ArgError, "wrong number of arguments"));
    }
    let key = cmd.args[1];
    assert(key@ == args[1]);
    let mut response = ResponseBuilder::new();
    if is_get {
        engine.get(key, &mut response);
        proof {
            assert(response@.subrange(4, response@.len() as int) =~= get_reply(old(engine).entries(), args[1]));
        }
    } else if is_set {
        let value = cmd.args[2];
        assert(value@ == args[2]);
        let v = vstd::slice::slice_to_vec(value);
        let ghost gv = v;
        engine.set(vstd::slice::slice_to_vec(key), v, &mut response);
        assert(set_done(*old(engine), *engine, args[1], gv));
        proof {
            assert(response@.subrange(4, response@.len() as int) =~= set_body(*old(engine), args[1]));
        }
    } else if is_del {
        engine.del(key, &mut response);
        proof {
            assert(response@.subrange(4, response@.len() as int) =~= del_body(*old(engine), args[1]));
        }
    } else {
        let t = cmd.args[2];
        assert(t@ == args[2]);
        match parse_int(t) {
            None => {
                return Some(error_packet(ErrorCode::ArgError, "expect int"));
            },
            Some(ttl_ms) => {
                if ttl_ms >= 0 && engine.contains_key(key) {
                    let ms = ttl_ms as u64;
                    if ms > 18446744073709551 || now_us > u64::MAX - ms * 1000 {
                        return Some(error_packet(ErrorCode::ArgError, "expire time out of range"));
                    }
                }
                engine.pexpire(key, ttl_ms, now_us, &mut response);
                proof {
                    assert(response@.subrange(4, response@.len() as int) =~= pexpire_body(*old(engine), args[1], ttl_ms));
                }
            },
        }
    }
    Some(response.finish())
}

/// Answers one sorted-set request, given the score key the caller read from
/// its score argument (`None` when that is no number): ZADD, ZREM, ZSCORE
/// and ZQUERY go to the engine, whose reply is returned as a packet.
pub fn sorted_set_command(engine: &mut StorageEngine, cmd: &Command, score: Option<u64>) -> (r: Vec<u8>)
    requires
        old(engine).wf(),
    ensures
        final(engine).wf(),
        zhandled(*old(engine), *final(engine), arg_views(cmd.args@), score, r@),
{
    reveal(zhandled);
    let ghost args = arg_views(cmd.args@);
    let n = cmd.args.len();
    if n == 0 {
        return error_packet(ErrorCode::Unknown, "unknown command");
    }
    let name = cmd.args[0];
    assert(name@ == args[0]);
    let is_zadd = arg_is(name, &[90u8, 65, 68, 68]);
    let is_zrem = arg_is(name, &[90u8, 82, 69, 77]);
    let is_zscore = arg_is(name, &[90u8, 83, 67, 79, 82, 69]);
    let is_zquery = arg_is(name, &[90u8, 81, 85, 69, 82, 89]);
    if !(is_zadd || is_zrem || is_zscore || is_zquery) {
        return error_packet(ErrorCode::Unknown, "unknown command");
    }
    let want: usize = if is_zadd {
        4
    } else if is_zquery {
        5
    } else {
        3
    };
    if n != want {
        return error_packet(ErrorCode::ArgError, "wrong number of arguments");
    }
    let key = cmd.args[1];
    assert(key@ == args[1]);
    let mut response = ResponseBuilder::new();
    if is_zrem {
        let member = cmd.args[2];
        assert(member@ == args[2]);
        engine.zrem(key, member, &mut response);
        proof {
            assert(response@.subrange(4, response@.len() as int) =~= zrem_body(*old(engine), args[1], args[2]));
        }
    } else if is_zscore {
        let member = cmd.args[2];
        assert(member@ == args[2]);
        engine.zscore(key, member, &mut response);
        proof {
            assert(response@.subrange(4, response@.len() as int) =~= zscore_body(old(engine).entries(), args[1], args[2]));
        }
    } else {
        let s = match score {
            Some(s) => s,
            None => {
                return error_packet(ErrorCode::ArgError, "expect float");
            },
        };
        if is_zadd {
            let member = cmd.args[3];
            assert(member@ == args[3]);
            engine.zadd(vstd::slice::slice_to_vec(key), s, vstd::slice::slice_to_vec(member), &mut response);
            proof {
                assert(response@.subrange(4, response@.len() as int) =~= zadd_body(*old(engine), args[1], s, args[3]));
            }
        } else {
            let o = cmd.args[3];
            let l = cmd.args[4];
            assert(o@ == args[3] && l@ == args[4]);
            let (offset, limit) = match (parse_int(o), parse_int(l)) {
                (Some(offset), Some(limit)) => (offset, limit),
                _ => {
                    return error_packet(ErrorCode::ArgError, "expect int");
                },
            };
            engine.zquery(key, s, offset, limit, &mut response);
            proof {
                assert(response@.subrange(4, response@.len() as int) =~= zquery_body(old(engine).entries(), args[1], s, offset, limit));
            }
        }
    }
    response.finish()
}

/// The complete requests at the front of `b` that the engine answers, each
/// with the bytes it takes; they stop at a request that has not fully
/// arrived, is malformed, or is a sorted-set command.
pub open spec fn requests(b: Seq<u8>) -> Seq<(Seq<Seq<u8>>, nat)>
    decreases b.len(),
{
    match request_frame(b) {
        Frame::Complete(args, n) => if 0 < n <= b.len() && !is_sorted_set_command(args) {
            seq![(args, n)] + requests(b.skip(n as int))
        } else {
            Seq::empty()
        },
        _ => Seq::empty(),
    }
}

/// A sorted-set command has fully arrived at the front of `b`.
pub open spec fn at_sorted_set(b: Seq<u8>) -> bool {
    match request_frame(b) {
        Frame::Complete(args, n) => 0 < n <= b.len() && is_sorted_set_command(args),
        _ => false,
    }
}

/// The bytes some requests take.
pub open spec fn taken(rs: Seq<(Seq<Seq<u8>>, nat)>) -> int
    decreases rs.len(),
{
    if rs.len() == 0 {
        0
    } else {
        taken(rs.drop_last()) + rs.last().1
    }
}

/// Some replies one after the other.
pub open spec fn joined(rs: Seq<Seq<u8>>) -> Seq<u8>
    decreases rs.len(),
{
    if rs.len() == 0 {
        Seq::empty()
    } else {
        joined(rs.drop_last()) + rs.last()
    }
}

/// The requests `done` were answered in order at `now_us`: from each state
/// of the engine to the next, with the reply beside it.
pub open spec fn answered(
    done: Seq<(Seq<Seq<u8>>, nat)>,
    states: Seq<StorageEngine>,
    replies: Seq<Seq<u8>>,
    now_us: u64,
) -> bool {
    &&& states.len() == done.len() + 1
    &&& replies.len() == done.len()
    &&& forall|i: int| 0 <= i < done.len() ==> #[trigger] handled(states[i], states[i + 1], done[i].0, now_us, replies[i])
}

/// The requests in `a` come first in `a` followed by more bytes; the rest
/// are those of what is left of `a` followed by those bytes.
pub proof fn lemma_requests_concat(a: Seq<u8>, b: Seq<u8>)
    ensures
        0 <= taken(requests(a)) <= a.len(),
        requests(a + b) == requests(a) + requests(a.skip(taken(requests(a))) + b),
    decreases a.len(),
{
    match request_frame(a) {
        Frame::Complete(args, n) => {
            if 0 < n <= a.len() && !is_sorted_set_command(args) {
                crate::protocol::lemma_frame_prefix(a, b);
                let rest = a.skip(n as int);
                assert((a + b).skip(n as int) =~= rest + b);
                lemma_requests_concat(rest, b);
                lemma_taken_front(args, n, requests(rest));
                assert(rest.skip(taken(requests(rest))) =~= a.skip(taken(requests(a))));
                assert(requests(a + b) =~= requests(a) + requests(a.skip(taken(requests(a))) + b));
            } else {
                crate::protocol::lemma_frame_prefix(a, b);
                assert(a.skip(0) =~= a);
                if 0 < n <= a.len() {
                    assert(requests(a + b) =~= Seq::<(Seq<Seq<u8>>, nat)>::empty());
                    assert(requests(a.skip(0) + b) =~= Seq::<(Seq<Seq<u8>>, nat)>::empty());
                }
            }
        },
        _ => {
            assert(a.skip(0) =~= a);
            assert(requests(a) + requests(a + b) =~= requests(a + b));
        },
    }
}

/// The bytes of a request followed by more requests.
proof fn lemma_taken_front(args: Seq<Seq<u8>>, n: nat, rs: Seq<(Seq<Seq<u8>>, nat)>)
    ensures
        taken(seq![(args, n)] + rs) == n + taken(rs),
        taken(rs) >= 0,
    decreases rs.len(),
{
    let s = seq![(args, n)] + rs;
    reveal_with_fuel(taken, 2);
    if rs.len() > 0 {
        lemma_taken_front(args, n, rs.drop_last());
        assert(s.drop_last() =~= seq![(args, n)] + rs.drop_last());
        assert(s.last() == rs.last());
    } else {
        assert(s.drop_last() =~= Seq::<(Seq<Seq<u8>>, nat)>::empty());
        assert(s.last() == (args, n));
    }
}

/// Receiving bytes in two pieces finds the same requests, and leaves the
/// same bytes waiting, as receiving them at once: how the stream is cut
/// into reads does not matter.
pub proof fn lemma_received_in_pieces(pending: Seq<u8>, x: Seq<u8>, y: Seq<u8>)
    ensures
        ({
            let first = requests(pending + x);
            let left = (pending + x).skip(taken(first));
            let second = requests(left + y);
            let whole = requests(pending + x + y);
            &&& first + second == whole
            &&& (left + y).skip(taken(second)) == (pending + x + y).skip(taken(whole))
        }),
{
    let a = pending + x;
    lemma_requests_concat(a, y);
    let first = requests(a);
    let left = a.skip(taken(first));
    let second = requests(left + y);
    lemma_requests_concat(left + y, Seq::empty());
    lemma_taken_concat(first, second);
    assert((a + y).skip(taken(first)) =~= left + y);
    assert((left + y).skip(taken(second)) =~= (a + y).skip(taken(first) + taken(second)));
}

/// The bytes of two runs of requests add up.
proof fn lemma_taken_concat(r: Seq<(Seq<Seq<u8>>, nat)>, s: Seq<(Seq<Seq<u8>>, nat)>)
    ensures
        taken(r + s) == taken(r) + taken(s),
    decreases s.len(),
{
    if s.len() > 0 {
        lemma_taken_concat(r, s.drop_last());
        assert((r + s).drop_last() =~= r + s.drop_last());
    } else {
        assert(r + s =~= r);
    }
}

/// One more request answered: the run of answers grows by it, its bytes
/// and its reply.
proof fn lemma_answered_push(
    done: Seq<(Seq<Seq<u8>>, nat)>,
    states: Seq<StorageEngine>,
    replies: Seq<Seq<u8>>,
    now_us: u64,
    args: Seq<Seq<u8>>,
    n: nat,
    after: StorageEngine,
    reply: Seq<u8>,
)
    requires
        answered(done, states, replies, now_us),
        handled(states.last(), after, args, now_us, reply),
    ensures
        answered(done.push((args, n)), states.push(after), replies.push(reply), now_us),
        taken(done.push((args, n))) == taken(done) + n,
        joined(replies.push(reply)) == joined(replies) + reply,
{
    let d2 = done.push((args, n));
    let s2 = states.push(after);
    let r2 = replies.push(reply);
    assert forall|i: int| 0 <= i < d2.len() implies #[trigger] handled(s2[i], s2[i + 1], d2[i].0, now_us, r2[i]) by {
        if i < done.len() {
            assert(handled(states[i], states[i + 1], done[i].0, now_us, replies[i]));
        }
    }
    assert(d2.drop_last() =~= done);
    assert(r2.drop_last() =~= replies);
}

/// Replies joined in two runs are the two runs joined.
pub proof fn lemma_joined_concat(a: Seq<Seq<u8>>, b: Seq<Seq<u8>>)
    ensures
        joined(a + b) == joined(a) + joined(b),
    decreases b.len(),
{
    if b.len() == 0 {
        assert(a + b =~= a);
        assert(joined(a) + joined(b) =~= joined(a));
    } else {
        lemma_joined_concat(a, b.drop_last());
        assert((a + b).drop_last() =~= a + b.drop_last());
        assert((a + b).last() == b.last());
        assert(joined(a + b) =~= joined(a) + joined(b));
    }
}

/// How a call of [`Connection::process_buffer`] ended.
#[derive(Debug, Clone, Copy, PartialEq, Eq, Structural)]
pub enum Served {
    /// No complete request is left for the engine.
    Waiting,
    /// A sorted-set command waits at the front of the receive buffer.
    SortedSet,
    /// A reply did not fit in the send buffer and was dropped.
    Full,
}

/// A client connection's receive and send buffers.
pub struct Connection {
    read_buf: BytesMut,
    write_buf: BytesMut,
    sent: Ghost<Seq<u8>>,
    log: Ghost<Seq<Seq<u8>>>,
}

impl Connection {
    /// The bytes received and not yet consumed by a request.
    pub closed spec fn pending(&self) -> Seq<u8> {
        bytes_of(self.read_buf)
    }

    /// The bytes queued to be sent.
    pub closed spec fn outgoing(&self) -> Seq<u8> {
        bytes_of(self.write_buf)
    }

    /// The bytes the socket has taken so far.
    pub closed spec fn sent(&self) -> Seq<u8> {
        self.sent@
    }

    /// The replies queued so far, in order.
    pub closed spec fn replied(&self) -> Seq<Seq<u8>> {
        self.log@
    }

    /// The bytes taken by the socket, then those waiting, are the replies
    /// queued, one after the other.
    pub open spec fn in_order(&self) -> bool {
        self.sent() + self.outgoing() == joined(self.replied())
    }

    /// What the socket took is the start of the replies, in order.
    pub proof fn lemma_sent_prefix(&self)
        requires
            self.in_order(),
        ensures
            self.sent().len() <= joined(self.replied()).len(),
            self.sent() == joined(self.replied()).take(self.sent().len() as int),
    {
        assert(self.sent() =~= (self.sent() + self.outgoing()).take(self.sent().len() as int));
    }

    /// A connection with empty buffers.
    pub fn new() -> (c: Self)
        ensures
            c.pending() == Seq::<u8>::empty(),
            c.outgoing() == Seq::<u8>::empty(),
            c.sent() == Seq::<u8>::empty(),
            c.replied() == Seq::<Seq<u8>>::empty(),
            c.in_order(),
    {
        Connection {
            read_buf: buf_with_capacity(READ_BUF_SIZE),
            write_buf: buf_new(),
            sent: Ghost(Seq::empty()),
            log: Ghost(Seq::empty()),
        }
    }

    /// Answers the complete requests at the front of the receive buffer, in
    /// order, through the engine: each is dropped from the receive buffer
    /// and its reply queued. Stops at a request that has not fully arrived
    /// or is malformed, whose bytes stay, at a sorted-set command, left at
    /// the front for the caller, or after a request whose reply would not
    /// fit in the send buffer, which is dropped.
    #[verifier::rlimit(100)]
    #[verifier::spinoff_prover]
    pub fn process_buffer(&mut self, engine: &mut StorageEngine, now_us: u64) -> (r: Served)
        requires
            old(engine).wf(),
            old(self).outgoing().len() <= isize::MAX,
        ensures
            final(engine).wf(),
            final(self).outgoing().len() <= isize::MAX,
            exists|done: Seq<(Seq<Seq<u8>>, nat)>, states: Seq<StorageEngine>, replies: Seq<Seq<u8>>|
                #[trigger] answered(done, states, replies, now_us) && states[0] == *old(engine)
                    && states.last() == *final(engine)
                    && requests(old(self).pending()).take(done.len() as int) == done
                    && final(self).pending() == old(self).pending().skip(taken(done))
                    && final(self).replied() == old(self).replied() + replies
                    && if r is Full {
                    &&& done.len() > 0
                    &&& final(self).outgoing() == old(self).outgoing() + joined(replies.drop_last())
                    &&& old(self).outgoing().len() + joined(replies).len() > isize::MAX
                } else {
                    &&& final(self).outgoing() == old(self).outgoing() + joined(replies)
                    &&& requests(old(self).pending()) == done
                },
            r is SortedSet ==> at_sorted_set(final(self).pending()),
            r is Waiting ==> !at_sorted_set(final(self).pending()) && requests(final(self).pending()).len() == 0,
            final(self).sent() == old(self).sent(),
            r !is Full && old(self).in_order() ==> final(self).in_order(),
    {
        let ghost p0 = bytes_of(self.read_buf);
        let ghost o0 = bytes_of(self.write_buf);
        let ghost mut done: Seq<(Seq<Seq<u8>>, nat)> = Seq::empty();
        let ghost mut states: Seq<StorageEngine> = seq![*engine];
        let ghost mut replies: Seq<Seq<u8>> = Seq::empty();
        proof {
            assert(p0.skip(0) =~= p0);
            assert(done + requests(p0) =~= requests(p0));
        }
        loop
            invariant
                engine.wf(),
                answered(done, states, replies, now_us),
                states[0] == *old(engine),
                states.last() == *engine,
                requests(p0) == done + requests(bytes_of(self.read_buf)),
                bytes_of(self.read_buf) == p0.skip(taken(done)),
                bytes_of(self.write_buf) == o0 + joined(replies),
                bytes_of(self.write_buf).len() <= isize::MAX,
                0 <= taken(done) <= p0.len(),
                p0 == old(self).pending(),
                o0 == old(self).outgoing(),
                self.sent == old(self).sent,
                self.log == old(self).log,
            decreases bytes_of(self.read_buf).len(),
        {
            let ghost p = bytes_of(self.read_buf);
            let parsed = parse_request(buf_bytes(&self.read_buf));
            let (cmd, n) = match parsed {
                Ok(Some(found)) => found,
                _ => {
                    proof {
                        assert(requests(p) =~= Seq::<(Seq<Seq<u8>>, nat)>::empty());
                        assert(!at_sorted_set(p));
                        assert(requests(p0) =~= done);
                        assert(requests(p0).take(done.len() as int) =~= done);
                    }
                    self.log = Ghost(self.log@ + replies);
                    proof {
                        lemma_joined_concat(old(self).log@, replies);
                        if old(self).in_order() {
                            assert(self.sent() + self.outgoing() =~= joined(self.replied()));
                        }
                    }
                    return Served::Waiting;
                },
            };
            let ghost args = arg_views(cmd.args@);
            let reply = match process_command(engine, &cmd, now_us) {
                Some(reply) => reply,
                None => {
                    proof {
                        assert(requests(p) =~= Seq::<(Seq<Seq<u8>>, nat)>::empty());
                        assert(requests(p0) =~= done);
                        assert(requests(p0).take(done.len() as int) =~= done);
                    }
                    self.log = Ghost(self.log@ + replies);
                    proof {
                        lemma_joined_concat(old(self).log@, replies);
                        if old(self).in_order() {
                            assert(self.sent() + self.outgoing() =~= joined(self.replied()));
                        }
                    }
                    return Served::SortedSet;
                },
            };
            let ghost prev = replies;
            proof {
                assert(requests(p) == seq![(args, n as nat)] + requests(p.skip(n as int)));
                lemma_answered_push(done, states, replies, now_us, args, n as nat, *engine, reply@);
                assert(requests(p0) =~= done.push((args, n as nat)) + requests(p.skip(n as int)));
                assert(p.skip(n as int) =~= p0.skip(taken(done) + n));
                done = done.push((args, n as nat));
                states = states.push(*engine);
                replies = replies.push(reply@);
            }
            let out_len = buf_bytes(&self.write_buf).len();
            buf_advance(&mut self.read_buf, n);
            if reply.len() > isize::MAX as usize - out_len {
                proof {
                    assert(replies.drop_last() =~= prev);
                    assert(requests(p0).take(done.len() as int) =~= done);
                    assert(self.outgoing() == old(self).outgoing() + joined(replies.drop_last()));
                    assert(old(self).outgoing().len() + joined(replies).len() > isize::MAX);
                    assert(self.pending() == old(self).pending().skip(taken(done)));
                }
                self.log = Ghost(self.log@ + replies);
                return Served::Full;
            }
            buf_extend(&mut self.write_buf, reply.as_slice());
        }
    }

    /// Takes `data` just read from the socket onto the receive buffer.
    /// Returns `false`, and changes nothing, when the buffer would grow past
    /// `isize::MAX` bytes, where growing a buffer fails.
    pub fn received(&mut self, data: &[u8]) -> (ok: bool)
        ensures
            ok == (old(self).pending().len() + data@.len() <= isize::MAX),
            ok ==> final(self).pending() == old(self).pending() + data@,
            !ok ==> final(self).pending() == old(self).pending(),
            final(self).outgoing() == old(self).outgoing(),
            final(self).sent() == old(self).sent(),
            final(self).replied() == old(self).replied(),
    {
        let room: usize = isize::MAX as usize;
        let held = buf_bytes(&self.read_buf).len();
        if held > room || data.len() > room - held {
            return false;
        }
        buf_extend(&mut self.read_buf, data);
        true
    }

    /// The request at the front of the receive buffer, with the bytes it
    /// takes, once it has fully arrived and is well formed.
    pub fn next_request(&self) -> (r: Option<(Command<'_>, usize)>)
        ensures
            r is Some <==> request_frame(self.pending()) is Complete,
            r matches Some((c, n)) ==> request_frame(self.pending()) matches Frame::Complete(args, m)
                && arg_views(c.args@) == args && n == m && n <= self.pending().len(),
    {
        match parse_request(buf_bytes(&self.read_buf)) {
            Ok(Some((cmd, n))) => Some((cmd, n)),
            _ => None,
        }
    }

    /// Queues `reply` and drops the first `n` received bytes: the answer to
    /// a request the caller served. Returns `false`, and changes nothing,
    /// when fewer than `n` bytes are held or the send buffer would grow
    /// past `isize::MAX` bytes.
    pub fn answer(&mut self, reply: &[u8], n: usize) -> (ok: bool)
        ensures
            ok == (n <= old(self).pending().len() && old(self).outgoing().len() + reply@.len()
                <= isize::MAX),
            ok ==> final(self).outgoing() == old(self).outgoing() + reply@ && final(self).pending()
                == old(self).pending().skip(n as int),
            !ok ==> final(self).outgoing() == old(self).outgoing() && final(self).pending() == old(
                self,
            ).pending(),
            final(self).sent() == old(self).sent(),
            final(self).replied() == if ok {
                old(self).replied().push(reply@)
            } else {
                old(self).replied()
            },
            old(self).in_order() ==> final(self).in_order(),
    {
        let room: usize = isize::MAX as usize;
        let held = buf_bytes(&self.read_buf).len();
        let queued = buf_bytes(&self.write_buf).len();
        if n > held || queued > room || reply.len() > room - queued {
            return false;
        }
        buf_extend(&mut self.write_buf, reply);
        buf_advance(&mut self.read_buf, n);
        self.log = Ghost(self.log@.push(reply@));
        proof {
            assert(self.log@.drop_last() =~= old(self).log@);
            if old(self).in_order() {
                assert(self.sent() + self.outgoing() =~= joined(self.replied()));
            }
        }
        true
    }

    /// Whether replies wait to be sent.
    pub fn has_output(&self) -> (r: bool)
        ensures
            r == (self.outgoing().len() > 0),
    {
        !buf_is_empty(&self.write_buf)
    }

    /// The bytes waiting to be sent.
    pub fn output(&self) -> (s: &[u8])
        ensures
            s@ == self.outgoing(),
    {
        buf_bytes(&self.write_buf)
    }

    /// Drops the first `n` queued bytes, which the socket took.
    pub fn written(&mut self, n: usize)
        requires
            n <= old(self).outgoing().len(),
        ensures
            final(self).outgoing() == old(self).outgoing().skip(n as int),
            final(self).pending() == old(self).pending(),
            final(self).sent() == old(self).sent() + old(self).outgoing().take(n as int),
            final(self).replied() == old(self).replied(),
            old(self).in_order() ==> final(self).in_order(),
    {
        let ghost taken_now = bytes_of(self.write_buf).take(n as int);
        buf_advance(&mut self.write_buf, n);
        self.sent = Ghost(self.sent@ + taken_now);
        proof {
            assert(old(self).outgoing() =~= taken_now + self.outgoing());
            assert(self.sent@ + self.outgoing() =~= old(self).sent@ + old(self).outgoing());
        }
    }
}

} // verus!
