//! The in-memory key space and the commands that act on it.
use vstd::prelude::*;
use vstd::map::*;
use super::resp::{Command, arg_views, all_digits, digits_value};
use super::reply::{RespReply, decimal_int, push_decimal_int};

verus! {

/// A stored value, as a value.
pub enum ValueModel {
    Str(Seq<u8>),
    List(Seq<Seq<u8>>),
}

/// A stored value.
#[derive(Debug, PartialEq, Eq)]
enum RedisValue {
    String(Vec<u8>),
    List(Vec<Vec<u8>>),
}

spec fn value_view(v: RedisValue) -> ValueModel {
    match v {
        RedisValue::String(s) => ValueModel::Str(s@),
        RedisValue::List(l) => ValueModel::List(arg_views(l@)),
    }
}

#[derive(Debug)]
struct Entry {
    key: Vec<u8>,
    value: RedisValue,
}

/// The map an association list stands for; later entries win.
pub open spec fn assoc_map(es: Seq<(Seq<u8>, ValueModel)>) -> Map<Seq<u8>, ValueModel>
    decreases es.len(),
{
    if es.len() == 0 {
        Map::empty()
    } else {
        assoc_map(es.drop_last()).insert(es.last().0, es.last().1)
    }
}

/// No key occurs twice.
pub open spec fn unique_keys(es: Seq<(Seq<u8>, ValueModel)>) -> bool {
    forall|i: int, j: int| 0 <= i < j < es.len() ==> (#[trigger] es[i]).0 != (#[trigger] es[j]).0
}

proof fn lemma_assoc_absent(es: Seq<(Seq<u8>, ValueModel)>, k: Seq<u8>)
    requires
        forall|i: int| 0 <= i < es.len() ==> (#[trigger] es[i]).0 != k,
    ensures
        !assoc_map(es).contains_key(k),
    decreases es.len(),
{
    if es.len() > 0 {
        let d = es.drop_last();
        assert forall|i: int| 0 <= i < d.len() implies (#[trigger] d[i]).0 != k by {
            assert(d[i] == es[i]);
        }
        lemma_assoc_absent(d, k);
    }
}

proof fn lemma_assoc_get(es: Seq<(Seq<u8>, ValueModel)>, i: int)
    requires
        unique_keys(es),
        0 <= i < es.len(),
    ensures
        assoc_map(es).contains_key(es[i].0),
        assoc_map(es)[es[i].0] == es[i].1,
    decreases es.len(),
{
    if i < es.len() - 1 {
        let d = es.drop_last();
        assert(unique_keys(d)) by {
            assert forall|a: int, b: int| 0 <= a < b < d.len() implies (#[trigger] d[a]).0 != (#[trigger] d[b]).0 by {
                assert(d[a] == es[a] && d[b] == es[b]);
            }
        }
        assert(d[i] == es[i]);
        lemma_assoc_get(d, i);
        assert(es[i].0 != es[es.len() - 1].0);
    }
}

proof fn lemma_assoc_remove(es: Seq<(Seq<u8>, ValueModel)>, i: int)
    requires
        unique_keys(es),
        0 <= i < es.len(),
    ensures
        assoc_map(es.remove(i)) == assoc_map(es).remove(es[i].0),
        unique_keys(es.remove(i)),
    decreases es.len(),
{
    let k = es[i].0;
    let d = es.drop_last();
    assert(unique_keys(d)) by {
        assert forall|a: int, b: int| 0 <= a < b < d.len() implies (#[trigger] d[a]).0 != (#[trigger] d[b]).0 by {
            assert(d[a] == es[a] && d[b] == es[b]);
        }
    }
    let r = es.remove(i);
    assert(unique_keys(r)) by {
        assert forall|a: int, b: int| 0 <= a < b < r.len() implies (#[trigger] r[a]).0 != (#[trigger] r[b]).0 by {
            let a2 = if a < i { a } else { a + 1 };
            let b2 = if b < i { b } else { b + 1 };
            assert(r[a] == es[a2] && r[b] == es[b2]);
        }
    }
    if i == es.len() - 1 {
        assert(r =~= d);
        assert forall|j: int| 0 <= j < d.len() implies (#[trigger] d[j]).0 != k by {
            assert(d[j] == es[j]);
        }
        lemma_assoc_absent(d, k);
        assert(assoc_map(r) =~= assoc_map(es).remove(k));
    } else {
        lemma_assoc_remove(d, i);
        assert(r.drop_last() =~= d.remove(i));
        assert(r.last() == es.last());
        assert(es.last().0 != k);
        assert(assoc_map(r) =~= assoc_map(es).remove(k));
    }
}

/// The model of the stored entries.
spec fn entry_models(es: Seq<Entry>) -> Seq<(Seq<u8>, ValueModel)> {
    es.map_values(|e: Entry| (e.key@, value_view(e.value)))
}

/// An in-memory key space of strings and lists.
#[derive(Debug)]
pub struct RedisMiniDb {
    entries: Vec<Entry>,
}

impl RedisMiniDb {
    #[verifier::type_invariant]
    spec fn wf(self) -> bool {
        unique_keys(entry_models(self.entries@))
    }
}

impl View for RedisMiniDb {
    type V = Map<Seq<u8>, ValueModel>;

    closed spec fn view(&self) -> Map<Seq<u8>, ValueModel> {
        assoc_map(entry_models(self.entries@))
    }
}

/// A reply, as a value; arrays here hold bulk strings.
pub enum ReplyModel {
    Simple(Seq<char>),
    Bulk(Seq<u8>),
    Null,
    Int(int),
    BulkArray(Seq<Seq<u8>>),
    Error(Seq<char>),
}

/// `r` is a bulk string holding `b`.
pub open spec fn bulk_is(r: RespReply, b: Seq<u8>) -> bool {
    r matches RespReply::BulkString(v) && v@ == b
}

/// `r` is the reply `m` describes.
pub open spec fn reply_is(r: RespReply, m: ReplyModel) -> bool {
    match m {
        ReplyModel::Simple(s) => r matches RespReply::SimpleString(x) && x@ == s,
        ReplyModel::Bulk(b) => r matches RespReply::BulkString(v) && v@ == b,
        ReplyModel::Null => r is NullBulkString,
        ReplyModel::Int(i) => r matches RespReply::Integer(x) && x as int == i,
        ReplyModel::BulkArray(bs) => r matches RespReply::Array(vs) && vs@.len() == bs.len()
            && forall|i: int| 0 <= i < bs.len() ==> bulk_is(#[trigger] vs@[i], bs[i]),
        ReplyModel::Error(s) => r matches RespReply::Error(x) && x@ == s,
    }
}

/// ASCII lowercase of a byte.
pub open spec fn lower(b: u8) -> u8 {
    if 65 <= b <= 90 { (b + 32) as u8 } else { b }
}

/// Equal up to ASCII case.
pub open spec fn eq_ignore_case(a: Seq<u8>, b: Seq<u8>) -> bool {
    a.len() == b.len() && forall|i: int| 0 <= i < a.len() ==> lower(#[trigger] a[i]) == lower(b[i])
}

fn lower_byte(b: u8) -> (r: u8)
    ensures
        r == lower(b),
{
    if 65 <= b && b <= 90 { b + 32 } else { b }
}

/// Compares two byte strings ignoring ASCII case.
pub fn eq_ignore_ascii_case(a: &[u8], b: &[u8]) -> (r: bool)
    ensures
        r == eq_ignore_case(a@, b@),
{
    if a.len() != b.len() {
        return false;
    }
    let mut i: usize = 0;
    while i < a.len()
        invariant
            a@.len() == b@.len(),
            i <= a@.len(),
            forall|k: int| 0 <= k < i ==> lower(#[trigger] a@[k]) == lower(b@[k]),
        decreases a@.len() - i,
    {
        if lower_byte(a[i]) != lower_byte(b[i]) {
            return false;
        }
        i = i + 1;
    }
    true
}

/// Compares two byte strings.
fn bytes_eq(a: &[u8], b: &[u8]) -> (r: bool)
    ensures
        r == (a@ == b@),
{
    if a.len() != b.len() {
        return false;
    }
    let mut i: usize = 0;
    while i < a.len()
        invariant
            a@.len() == b@.len(),
            i <= a@.len(),
            forall|k: int| 0 <= k < i ==> a@[k] == b@[k],
        decreases a@.len() - i,
    {
        if a[i] != b[i] {
            return false;
        }
        i = i + 1;
    }
    assert(a@ =~= b@);
    true
}

/// A decimal `i64`, with an optional sign, as `str::parse::<i64>` reads it.
pub open spec fn parse_i64(b: Seq<u8>) -> Option<int> {
    if b.len() == 0 {
        None
    } else {
        let neg = b[0] == 45;
        let digits = if b[0] == 45 || b[0] == 43 { b.drop_first() } else { b };
        if digits.len() == 0 || !all_digits(digits) {
            None
        } else {
            let v = if neg { -digits_value(digits) } else { digits_value(digits) };
            if i64::MIN <= v <= i64::MAX { Some(v) } else { None }
        }
    }
}

proof fn lemma_digits_prefix_le(b: Seq<u8>, k: int)
    requires
        all_digits(b),
        0 <= k <= b.len(),
    ensures
        0 <= digits_value(b.subrange(0, k)) <= digits_value(b),
    decreases b.len() - k,
{
    if k < b.len() {
        lemma_digits_prefix_le(b, k + 1);
        assert(b.subrange(0, k + 1).drop_last() =~= b.subrange(0, k));
        lemma_nonneg(b.subrange(0, k));
    } else {
        assert(b.subrange(0, k) =~= b);
        lemma_nonneg(b);
    }
}

proof fn lemma_nonneg(b: Seq<u8>)
    requires
        all_digits(b),
    ensures
        digits_value(b) >= 0,
    decreases b.len(),
{
    if b.len() > 0 {
        assert(all_digits(b.drop_last()));
        lemma_nonneg(b.drop_last());
    }
}

/// Reads a decimal `i64`.
pub fn parse_integer(value: &[u8]) -> (r: Option<i64>)
    ensures
        match r {
            Some(v) => parse_i64(value@) == Some(v as int),
            None => parse_i64(value@) is None,
        },
{
    if value.len() == 0 {
        return None;
    }
    let neg = value[0] == 45;
    let start: usize = if value[0] == 45 || value[0] == 43 { 1 } else { 0 };
    let ghost digits = if value@[0] == 45 || value@[0] == 43 { value@.drop_first() } else { value@ };
    assert(digits =~= value@.subrange(start as int, value@.len() as int));
    if start >= value.len() {
        return None;
    }
    let mut mag: u64 = 0;
    let mut i = start;
    while i < value.len()
        invariant
            start <= i <= value@.len(),
            value@.len() > 0,
            start < value@.len(),
            digits == (if value@[0] == 45 || value@[0] == 43 { value@.drop_first() } else { value@ }),
            digits == value@.subrange(start as int, value@.len() as int),
            all_digits(value@.subrange(start as int, i as int)),
            mag == digits_value(value@.subrange(start as int, i as int)),
        decreases value@.len() - i,
    {
        let b = value[i];
        assert(value@.subrange(start as int, i + 1).drop_last() =~= value@.subrange(start as int, i as int));
        assert(value@.subrange(start as int, i as int) =~= digits.subrange(0, i - start));
        assert(value@.subrange(start as int, i + 1) =~= digits.subrange(0, i + 1 - start));
        if b < 48 || b > 57 {
            assert(!all_digits(digits)) by {
                assert(digits[i - start] == b);
            }
            return None;
        }
        let next = match mag.checked_mul(10) {
            Some(m) => m.checked_add((b - 48) as u64),
            None => None,
        };
        match next {
            Some(m) => mag = m,
            None => {
                proof {
                    if all_digits(digits) {
                        lemma_digits_prefix_le(digits, i + 1 - start);
                    }
                }
                return None;
            },
        }
        i = i + 1;
    }
    assert(value@.subrange(start as int, value@.len() as int) =~= digits);
    if neg {
        if mag > 0x8000_0000_0000_0000 {
            return None;
        }
        Some((0i128 - mag as i128) as i64)
    } else {
        if mag > 0x7fff_ffff_ffff_ffff {
            return None;
        }
        Some(mag as i64)
    }
}

/// The start and end (inclusive) of `LRANGE start stop` on a list of
/// `len` items, counting negative indices from the end.
pub open spec fn normalize_range_spec(len: int, start: int, stop: int) -> Option<(int, int)> {
    if len == 0 {
        None
    } else {
        let s0 = if start < 0 { len + start } else { start };
        let e0 = if stop < 0 { len + stop } else { stop };
        let s = if s0 < 0 { 0 } else { s0 };
        if e0 < 0 || s >= len || s > e0 {
            None
        } else {
            Some((s, if e0 >= len { len - 1 } else { e0 }))
        }
    }
}

/// Clamps an `LRANGE` window to the list.
pub fn normalize_range(len: usize, start: i64, stop: i64) -> (r: Option<(usize, usize)>)
    ensures
        match r {
            Some((a, b)) => normalize_range_spec(len as int, start as int, stop as int) == Some((a as int, b as int)),
            None => normalize_range_spec(len as int, start as int, stop as int) is None,
        },
{
    if len == 0 {
        return None;
    }
    let l = len as i128;
    let mut s: i128 = if start < 0 { l + start as i128 } else { start as i128 };
    let mut e: i128 = if stop < 0 { l + stop as i128 } else { stop as i128 };
    if s < 0 {
        s = 0;
    }
    if e < 0 || s >= l || s > e {
        return None;
    }
    if e >= l {
        e = l - 1;
    }
    Some((s as usize, e as usize))
}

/// The reply for a value of the wrong kind.
pub open spec fn wrong_type_error() -> ReplyModel {
    ReplyModel::Error("WRONGTYPE Operation against a key holding the wrong kind of value"@)
}

/// The reply for a value that is not a 64-bit integer.
pub open spec fn integer_error() -> ReplyModel {
    ReplyModel::Error("ERR value is not an integer or out of range"@)
}

/// The characters `String::from_utf8_lossy` makes of bytes: invalid
/// sequences become U+FFFD.
pub uninterp spec fn utf8_lossy(b: Seq<u8>) -> Seq<char>;

/// Calls `String::from_utf8_lossy`. Trusted: the result is `utf8_lossy` of
/// the bytes, and valid UTF-8 is decoded as it is.
#[verifier::external_body]
fn lossy_string(bytes: &[u8]) -> (r: String)
    ensures
        r@ == utf8_lossy(bytes@),
        vstd::utf8::valid_utf8(bytes@) ==> r@ == vstd::utf8::decode_utf8(bytes@),
{
    String::from_utf8_lossy(bytes).into_owned()
}

/// The reply for an unknown command.
pub open spec fn unknown_command_error(name: Seq<u8>) -> ReplyModel {
    ReplyModel::Error(vstd::utf8::decode_utf8(
        vstd::utf8::encode_utf8("ERR unknown command '"@) + vstd::utf8::encode_utf8(utf8_lossy(name)) + vstd::utf8::encode_utf8("'"@),
    ))
}

/// The key space after deleting the first `n` keys, and how many existed.
pub open spec fn del_keys(m: Map<Seq<u8>, ValueModel>, keys: Seq<Seq<u8>>, n: int) -> (Map<Seq<u8>, ValueModel>, int)
    decreases n,
{
    if n <= 0 {
        (m, 0)
    } else {
        let (m2, c) = del_keys(m, keys, n - 1);
        if m2.contains_key(keys[n - 1]) { (m2.remove(keys[n - 1]), c + 1) } else { (m2, c) }
    }
}

/// How many of the first `n` keys exist, repeats counted again.
pub open spec fn count_existing(m: Map<Seq<u8>, ValueModel>, keys: Seq<Seq<u8>>, n: int) -> int
    decreases n,
{
    if n <= 0 { 0 } else { count_existing(m, keys, n - 1) + if m.contains_key(keys[n - 1]) { 1int } else { 0int } }
}

/// Adding `delta` to the integer stored at `key`, absent counting as 0.
pub open spec fn increment(m: Map<Seq<u8>, ValueModel>, key: Seq<u8>, delta: int) -> (Map<Seq<u8>, ValueModel>, ReplyModel) {
    let cur: Option<int> = if m.contains_key(key) {
        match m[key] {
            ValueModel::Str(v) => parse_i64(v),
            ValueModel::List(_) => None,
        }
    } else {
        Some(0)
    };
    if m.contains_key(key) && m[key] is List {
        (m, wrong_type_error())
    } else {
        match cur {
            None => (m, integer_error()),
            Some(c) => if i64::MIN <= c + delta <= i64::MAX {
                (m.insert(key, ValueModel::Str(decimal_int(c + delta))), ReplyModel::Int(c + delta))
            } else {
                (m, ReplyModel::Error("ERR increment or decrement would overflow"@))
            },
        }
    }
}

/// A length as an `i64` reply; lengths beyond `i64::MAX` cannot occur in
/// memory and are held at `i64::MAX`.
pub open spec fn clamp_i64(n: int) -> int {
    if n > i64::MAX { i64::MAX as int } else { n }
}

/// The list at `key` with `vals` pushed on the left (each in turn, so in
/// reverse) or on the right.
pub open spec fn pushed(l: Seq<Seq<u8>>, vals: Seq<Seq<u8>>, left: bool) -> Seq<Seq<u8>> {
    if left { vals.reverse() + l } else { l + vals }
}

/// What a command does to the key space and what it replies.
pub open spec fn execute_spec(m: Map<Seq<u8>, ValueModel>, args: Seq<Seq<u8>>) -> (Map<Seq<u8>, ValueModel>, ReplyModel) {
    if args.len() == 0 {
        (m, ReplyModel::Error("ERR unknown command ''"@))
    } else {
        let name = args[0];
        let rest = args.drop_first();
        if eq_ignore_case(name, seq![80u8, 73u8, 78u8, 71u8]) {
            if rest.len() == 0 {
                (m, ReplyModel::Simple("PONG"@))
            } else if rest.len() == 1 {
                (m, ReplyModel::Bulk(rest[0]))
            } else {
                (m, ReplyModel::Error("ERR wrong number of arguments for 'ping' command"@))
            }
        } else if eq_ignore_case(name, seq![69u8, 67u8, 72u8, 79u8]) {
            if rest.len() == 1 { (m, ReplyModel::Bulk(rest[0])) } else { (m, ReplyModel::Error("ERR wrong number of arguments for 'echo' command"@)) }
        } else if eq_ignore_case(name, seq![83u8, 69u8, 84u8]) {
            if rest.len() != 2 {
                (m, ReplyModel::Error("ERR wrong number of arguments for 'set' command"@))
            } else if m.contains_key(rest[0]) && m[rest[0]] is List {
                (m, wrong_type_error())
            } else {
                (m.insert(rest[0], ValueModel::Str(rest[1])), ReplyModel::Simple("OK"@))
            }
        } else if eq_ignore_case(name, seq![71u8, 69u8, 84u8]) {
            if rest.len() != 1 {
                (m, ReplyModel::Error("ERR wrong number of arguments for 'get' command"@))
            } else if !m.contains_key(rest[0]) {
                (m, ReplyModel::Null)
            } else {
                match m[rest[0]] {
                    ValueModel::Str(v) => (m, ReplyModel::Bulk(v)),
                    ValueModel::List(_) => (m, wrong_type_error()),
                }
            }
        } else if eq_ignore_case(name, seq![68u8, 69u8, 76u8]) {
            if rest.len() == 0 {
                (m, ReplyModel::Error("ERR wrong number of arguments for 'del' command"@))
            } else {
                let (m2, c) = del_keys(m, rest, rest.len() as int);
                (m2, ReplyModel::Int(clamp_i64(c)))
            }
        } else if eq_ignore_case(name, seq![69u8, 88u8, 73u8, 83u8, 84u8, 83u8]) {
            if rest.len() == 0 {
                (m, ReplyModel::Error("ERR wrong number of arguments for 'exists' command"@))
            } else {
                (m, ReplyModel::Int(clamp_i64(count_existing(m, rest, rest.len() as int))))
            }
        } else if eq_ignore_case(name, seq![73u8, 78u8, 67u8, 82u8]) {
            if rest.len() != 1 { (m, ReplyModel::Error("ERR wrong number of arguments for 'incr' command"@)) } else { increment(m, rest[0], 1) }
        } else if eq_ignore_case(name, seq![68u8, 69u8, 67u8, 82u8]) {
            if rest.len() != 1 { (m, ReplyModel::Error("ERR wrong number of arguments for 'decr' command"@)) } else { increment(m, rest[0], -1) }
        } else if eq_ignore_case(name, seq![73u8, 78u8, 67u8, 82u8, 66u8, 89u8]) {
            if rest.len() != 2 {
                (m, ReplyModel::Error("ERR wrong number of arguments for 'incrby' command"@))
            } else {
                match parse_i64(rest[1]) {
                    None => (m, integer_error()),
                    Some(d) => increment(m, rest[0], d),
                }
            }
        } else if eq_ignore_case(name, seq![76u8, 80u8, 85u8, 83u8, 72u8]) || eq_ignore_case(name, seq![82u8, 80u8, 85u8, 83u8, 72u8]) {
            let left = eq_ignore_case(name, seq![76u8, 80u8, 85u8, 83u8, 72u8]);
            if rest.len() < 2 {
                (m, ReplyModel::Error(if left { "ERR wrong number of arguments for 'lpush' command"@ } else { "ERR wrong number of arguments for 'rpush' command"@ }))
            } else {
                let key = rest[0];
                let vals = rest.drop_first();
                if m.contains_key(key) && m[key] is Str {
                    (m, wrong_type_error())
                } else {
                    let old = if m.contains_key(key) { m[key]->List_0 } else { Seq::empty() };
                    let l = pushed(old, vals, left);
                    (m.insert(key, ValueModel::List(l)), ReplyModel::Int(clamp_i64(l.len() as int)))
                }
            }
        } else if eq_ignore_case(name, seq![76u8, 80u8, 79u8, 80u8]) || eq_ignore_case(name, seq![82u8, 80u8, 79u8, 80u8]) {
            let left = eq_ignore_case(name, seq![76u8, 80u8, 79u8, 80u8]);
            if rest.len() != 1 {
                (m, ReplyModel::Error(if left { "ERR wrong number of arguments for 'lpop' command"@ } else { "ERR wrong number of arguments for 'rpop' command"@ }))
            } else if !m.contains_key(rest[0]) {
                (m, ReplyModel::Null)
            } else {
                match m[rest[0]] {
                    ValueModel::Str(_) => (m, wrong_type_error()),
                    ValueModel::List(l) => if l.len() == 0 {
                        (m, ReplyModel::Null)
                    } else if left {
                        (m.insert(rest[0], ValueModel::List(l.drop_first())), ReplyModel::Bulk(l[0]))
                    } else {
                        (m.insert(rest[0], ValueModel::List(l.drop_last())), ReplyModel::Bulk(l.last()))
                    },
                }
            }
        } else if eq_ignore_case(name, seq![76u8, 82u8, 65u8, 78u8, 71u8, 69u8]) {
            if rest.len() != 3 {
                (m, ReplyModel::Error("ERR wrong number of arguments for 'lrange' command"@))
            } else {
                match (parse_i64(rest[1]), parse_i64(rest[2])) {
                    (None, _) => (m, integer_error()),
                    (Some(_), None) => (m, integer_error()),
                    (Some(s), Some(e)) => if !m.contains_key(rest[0]) {
                        (m, ReplyModel::BulkArray(Seq::empty()))
                    } else {
                        match m[rest[0]] {
                            ValueModel::Str(_) => (m, wrong_type_error()),
                            ValueModel::List(l) => match normalize_range_spec(l.len() as int, s, e) {
                                None => (m, ReplyModel::BulkArray(Seq::empty())),
                                Some((a, b)) => (m, ReplyModel::BulkArray(l.subrange(a, b + 1))),
                            },
                        }
                    },
                }
            }
        } else {
            (m, unknown_command_error(name))
        }
    }
}

/// Names that differ in length, or in some byte beyond case, are different
/// commands.
proof fn lemma_names_differ(a: Seq<u8>, b: Seq<u8>, i: int)
    requires
        a.len() != b.len() || (0 <= i < a.len() && i < b.len() && lower(a[i]) != lower(b[i])),
    ensures
        !eq_ignore_case(a, b),
{
}

/// A value written with SET is the one GET reads back, and reading changes
/// nothing; a key that holds a list refuses the write instead.
pub proof fn law_get_reads_back_set(m: Map<Seq<u8>, ValueModel>, key: Seq<u8>, value: Seq<u8>)
    ensures
        ({
            let (m1, r1) = execute_spec(m, seq![seq![83u8, 69u8, 84u8], key, value]);
            let (m2, r2) = execute_spec(m1, seq![seq![71u8, 69u8, 84u8], key]);
            if m.contains_key(key) && m[key] is List {
                m1 == m && r1 == wrong_type_error()
            } else {
                &&& r1 == ReplyModel::Simple("OK"@)
                &&& m1 == m.insert(key, ValueModel::Str(value))
                &&& r2 == ReplyModel::Bulk(value)
                &&& m2 == m1
            }
        }),
{
    let set = seq![83u8, 69u8, 84u8];
    let get = seq![71u8, 69u8, 84u8];
    let a1 = seq![set, key, value];
    let a2 = seq![get, key];
    assert(a1[0] == set && a1.drop_first() =~= seq![key, value]);
    assert(a2[0] == get && a2.drop_first() =~= seq![key]);
    lemma_names_differ(set, seq![80u8, 73u8, 78u8, 71u8], 0);
    lemma_names_differ(set, seq![69u8, 67u8, 72u8, 79u8], 0);
    assert(eq_ignore_case(set, set));
    lemma_names_differ(get, seq![80u8, 73u8, 78u8, 71u8], 0);
    lemma_names_differ(get, seq![69u8, 67u8, 72u8, 79u8], 0);
    lemma_names_differ(get, set, 0);
    assert(eq_ignore_case(get, get));
}

/// A command that is answered with an error leaves the key space as it
/// was.
pub proof fn law_error_leaves_key_space(m: Map<Seq<u8>, ValueModel>, args: Seq<Seq<u8>>)
    ensures
        execute_spec(m, args).1 is Error ==> execute_spec(m, args).0 == m,
{
}

/// After DEL, the key is gone: GET finds nothing.
pub proof fn law_del_removes(m: Map<Seq<u8>, ValueModel>, key: Seq<u8>)
    ensures
        ({
            let (m1, r1) = execute_spec(m, seq![seq![68u8, 69u8, 76u8], key]);
            let (m2, r2) = execute_spec(m1, seq![seq![71u8, 69u8, 84u8], key]);
            &&& !m1.contains_key(key)
            &&& r1 == ReplyModel::Int(if m.contains_key(key) { 1int } else { 0int })
            &&& r2 == ReplyModel::Null
        }),
{
    let del = seq![68u8, 69u8, 76u8];
    let get = seq![71u8, 69u8, 84u8];
    let a1 = seq![del, key];
    let a2 = seq![get, key];
    assert(a1[0] == del && a1.drop_first() =~= seq![key]);
    assert(a2[0] == get && a2.drop_first() =~= seq![key]);
    lemma_names_differ(del, seq![80u8, 73u8, 78u8, 71u8], 0);
    lemma_names_differ(del, seq![69u8, 67u8, 72u8, 79u8], 0);
    lemma_names_differ(del, seq![83u8, 69u8, 84u8], 0);
    lemma_names_differ(del, seq![71u8, 69u8, 84u8], 0);
    assert(eq_ignore_case(del, del));
    lemma_names_differ(get, seq![80u8, 73u8, 78u8, 71u8], 0);
    lemma_names_differ(get, seq![69u8, 67u8, 72u8, 79u8], 0);
    lemma_names_differ(get, seq![83u8, 69u8, 84u8], 0);
    assert(eq_ignore_case(get, get));
    reveal_with_fuel(del_keys, 2);
}

/// An `LRANGE` index as a position in a list of `len` items: a negative
/// index counts from the end.
pub open spec fn list_position(len: int, index: int) -> int {
    if index < 0 { len + index } else { index }
}

/// Whether `i` lies from `lo` through `hi`.
pub open spec fn within(lo: int, i: int, hi: int) -> bool {
    lo <= i <= hi
}

/// The window of `LRANGE start stop` on a list of `len` items holds exactly
/// the positions of the list that lie from `start` through `stop`: a window
/// that reaches past either end is cut at that end, and one that meets no
/// position is empty.
pub proof fn law_range_window(len: int, start: int, stop: int)
    requires
        0 <= len,
    ensures
        ({
            let s = list_position(len, start);
            let e = list_position(len, stop);
            match normalize_range_spec(len, start, stop) {
                Some((a, b)) => {
                    &&& 0 <= a <= b < len
                    &&& forall|i: int| 0 <= i < len ==> (#[trigger] within(s, i, e) <==> within(a, i, b))
                },
                None => forall|i: int| 0 <= i < len ==> !#[trigger] within(s, i, e),
            }
        }),
{
}

/// `LRANGE key start stop` on a list replies with the items at the positions
/// from `start` through `stop`, in list order, and changes nothing.
pub proof fn law_lrange_items(
    m: Map<Seq<u8>, ValueModel>,
    key: Seq<u8>,
    start_arg: Seq<u8>,
    stop_arg: Seq<u8>,
    start: int,
    stop: int,
)
    requires
        m.contains_key(key),
        m[key] is List,
        parse_i64(start_arg) == Some(start),
        parse_i64(stop_arg) == Some(stop),
    ensures
        ({
            let l = m[key]->List_0;
            let n = l.len() as int;
            let s = list_position(n, start);
            let e = list_position(n, stop);
            let lo = if s < 0 { 0 } else { s };
            let (m1, r) = execute_spec(m, seq![seq![76u8, 82u8, 65u8, 78u8, 71u8, 69u8], key, start_arg, stop_arg]);
            &&& m1 == m
            &&& r is BulkArray
            &&& r->BulkArray_0.len() > 0 ==> lo + r->BulkArray_0.len() <= n
            &&& forall|j: int| 0 <= j < r->BulkArray_0.len() ==> #[trigger] r->BulkArray_0[j] == l[lo + j]
            &&& forall|i: int| 0 <= i < n ==> (#[trigger] within(s, i, e) <==> within(lo, i, lo + r->BulkArray_0.len() - 1))
        }),
{
    let lrange = seq![76u8, 82u8, 65u8, 78u8, 71u8, 69u8];
    let args = seq![lrange, key, start_arg, stop_arg];
    assert(args[0] == lrange && args.drop_first() =~= seq![key, start_arg, stop_arg]);
    lemma_names_differ(lrange, seq![80u8, 73u8, 78u8, 71u8], 0);
    lemma_names_differ(lrange, seq![69u8, 67u8, 72u8, 79u8], 0);
    lemma_names_differ(lrange, seq![83u8, 69u8, 84u8], 0);
    lemma_names_differ(lrange, seq![71u8, 69u8, 84u8], 0);
    lemma_names_differ(lrange, seq![68u8, 69u8, 76u8], 0);
    lemma_names_differ(lrange, seq![69u8, 88u8, 73u8, 83u8, 84u8, 83u8], 0);
    lemma_names_differ(lrange, seq![73u8, 78u8, 67u8, 82u8], 0);
    lemma_names_differ(lrange, seq![68u8, 69u8, 67u8, 82u8], 0);
    lemma_names_differ(lrange, seq![73u8, 78u8, 67u8, 82u8, 66u8, 89u8], 0);
    lemma_names_differ(lrange, seq![76u8, 80u8, 85u8, 83u8, 72u8], 0);
    lemma_names_differ(lrange, seq![82u8, 80u8, 85u8, 83u8, 72u8], 0);
    lemma_names_differ(lrange, seq![76u8, 80u8, 79u8, 80u8], 0);
    lemma_names_differ(lrange, seq![82u8, 80u8, 79u8, 80u8], 0);
    assert(eq_ignore_case(lrange, lrange));
    let l = m[key]->List_0;
    let n = l.len() as int;
    law_range_window(n, start, stop);
    let r = execute_spec(m, args).1;
    match normalize_range_spec(n, start, stop) {
        Some((a, b)) => {
            assert(r == ReplyModel::BulkArray(l.subrange(a, b + 1)));
            let s = list_position(n, start);
            assert(within(s, a, list_position(n, stop)));
            assert(a == if s < 0 { 0 } else { s }) by {
                if s < 0 {
                    assert(within(s, 0, list_position(n, stop)));
                } else if s < a {
                    assert(within(s, s, list_position(n, stop)));
                }
            }
        },
        None => {
            assert(r == ReplyModel::BulkArray(Seq::empty()));
        },
    }
}

proof fn lemma_models_push(es: Seq<Entry>, e: Entry)
    ensures
        entry_models(es.push(e)) == entry_models(es).push((e.key@, value_view(e.value))),
{
    assert(entry_models(es.push(e)) =~= entry_models(es).push((e.key@, value_view(e.value))));
}

proof fn lemma_models_remove(es: Seq<Entry>, i: int)
    requires
        0 <= i < es.len(),
    ensures
        entry_models(es.remove(i)) == entry_models(es).remove(i),
{
    assert(entry_models(es.remove(i)) =~= entry_models(es).remove(i));
}

/// The position of the entry for `key`.
fn find(es: &Vec<Entry>, key: &[u8]) -> (r: Option<usize>)
    ensures
        match r {
            Some(i) => i < es@.len() && es@[i as int].key@ == key@,
            None => forall|i: int| 0 <= i < es@.len() ==> (#[trigger] es@[i]).key@ != key@,
        },
{
    let mut i: usize = 0;
    while i < es.len()
        invariant
            i <= es@.len(),
            forall|k: int| 0 <= k < i ==> (#[trigger] es@[k]).key@ != key@,
        decreases es@.len() - i,
    {
        if bytes_eq(es[i].key.as_slice(), key) {
            return Some(i);
        }
        i = i + 1;
    }
    None
}

/// What the map says about a key, from a lookup.
proof fn lemma_find_map(es: Seq<Entry>, key: Seq<u8>, r: Option<usize>)
    requires
        unique_keys(entry_models(es)),
        match r {
            Some(i) => i < es.len() && es[i as int].key@ == key,
            None => forall|i: int| 0 <= i < es.len() ==> (#[trigger] es[i]).key@ != key,
        },
    ensures
        match r {
            Some(i) => assoc_map(entry_models(es)).contains_key(key) && assoc_map(entry_models(es))[key] == value_view(es[i as int].value),
            None => !assoc_map(entry_models(es)).contains_key(key),
        },
{
    let ms = entry_models(es);
    match r {
        Some(i) => {
            lemma_assoc_get(ms, i as int);
        },
        None => {
            assert forall|j: int| 0 <= j < ms.len() implies (#[trigger] ms[j]).0 != key by {
                assert(ms[j].0 == es[j].key@);
            }
            lemma_assoc_absent(ms, key);
        },
    }
}

/// Takes the entry for `key` out.
fn take_entry(es: &mut Vec<Entry>, key: &[u8]) -> (r: Option<RedisValue>)
    requires
        unique_keys(entry_models(old(es)@)),
    ensures
        unique_keys(entry_models(final(es)@)),
        forall|i: int| 0 <= i < final(es)@.len() ==> (#[trigger] final(es)@[i]).key@ != key@,
        assoc_map(entry_models(final(es)@)) == assoc_map(entry_models(old(es)@)).remove(key@),
        match r {
            Some(v) => assoc_map(entry_models(old(es)@)).contains_key(key@) && assoc_map(entry_models(old(es)@))[key@] == value_view(v),
            None => !assoc_map(entry_models(old(es)@)).contains_key(key@),
        },
{
    let f = find(es, key);
    proof {
        lemma_find_map(es@, key@, f);
    }
    match f {
        None => {
            assert(assoc_map(entry_models(es@)) =~= assoc_map(entry_models(es@)).remove(key@));
            None
        },
        Some(i) => {
            let ghost before = es@;
            proof {
                lemma_models_remove(before, i as int);
                lemma_assoc_remove(entry_models(before), i as int);
            }
            let e = es.remove(i);
            proof {
                assert forall|j: int| 0 <= j < es@.len() implies (#[trigger] es@[j]).key@ != key@ by {
                    let j2 = if j < i { j } else { j + 1 };
                    assert(es@[j] == before[j2]);
                    assert(entry_models(before)[j2].0 != entry_models(before)[i as int].0);
                }
            }
            Some(e.value)
        },
    }
}

/// Stores `value` at `key`, replacing what was there.
fn put_entry(es: &mut Vec<Entry>, key: Vec<u8>, value: RedisValue)
    requires
        unique_keys(entry_models(old(es)@)),
    ensures
        unique_keys(entry_models(final(es)@)),
        assoc_map(entry_models(final(es)@)) == assoc_map(entry_models(old(es)@)).insert(key@, value_view(value)),
{
    let _ = take_entry(es, key.as_slice());
    let ghost mid = es@;
    let ghost kv = key@;
    let ghost vv = value_view(value);
    es.push(Entry { key, value });
    proof {
        lemma_models_push(mid, es@.last());
        assert(entry_models(es@) == entry_models(mid).push((kv, vv)));
        assert(unique_keys(entry_models(es@))) by {
            let ms = entry_models(es@);
            assert forall|a: int, b: int| 0 <= a < b < ms.len() implies (#[trigger] ms[a]).0 != (#[trigger] ms[b]).0 by {
                if b == ms.len() - 1 {
                    assert(ms[a].0 == mid[a].key@);
                } else {
                    assert(ms[a] == entry_models(mid)[a] && ms[b] == entry_models(mid)[b]);
                }
            }
        }
        assert(entry_models(es@).drop_last() =~= entry_models(mid));
        assert(entry_models(es@).last() == (kv, vv));
        assert(assoc_map(entry_models(es@)) =~= assoc_map(entry_models(mid)).insert(kv, vv));
        assert(assoc_map(entry_models(mid)).insert(kv, vv) =~= assoc_map(entry_models(old(es)@)).remove(kv).insert(kv, vv));
        assert(assoc_map(entry_models(old(es)@)).remove(kv).insert(kv, vv) =~= assoc_map(entry_models(old(es)@)).insert(kv, vv));
    }
}

fn error_reply(msg: &str) -> (r: RespReply)
    ensures
        reply_is(r, ReplyModel::Error(msg@)),
{
    RespReply::Error(msg.to_owned())
}

fn wrong_type() -> (r: RespReply)
    ensures
        reply_is(r, wrong_type_error()),
{
    error_reply("WRONGTYPE Operation against a key holding the wrong kind of value")
}

fn not_integer() -> (r: RespReply)
    ensures
        reply_is(r, integer_error()),
{
    error_reply("ERR value is not an integer or out of range")
}

fn unknown_command(name: &[u8]) -> (r: RespReply)
    ensures
        reply_is(r, unknown_command_error(name@)),
{
    let lossy = lossy_string(name);
    let mut bytes: Vec<u8> = Vec::new();
    crate::octets::extend_bytes(&mut bytes, "ERR unknown command '".as_bytes());
    crate::octets::extend_bytes(&mut bytes, lossy.as_str().as_bytes());
    crate::octets::extend_bytes(&mut bytes, "'".as_bytes());
    proof {
        let a = vstd::utf8::encode_utf8("ERR unknown command '"@);
        let b = vstd::utf8::encode_utf8(utf8_lossy(name@));
        let c = vstd::utf8::encode_utf8("'"@);
        vstd::utf8::encode_utf8_valid_utf8("ERR unknown command '"@);
        vstd::utf8::encode_utf8_valid_utf8(utf8_lossy(name@));
        vstd::utf8::encode_utf8_valid_utf8("'"@);
        vstd::utf8::valid_utf8_concat(a, b);
        vstd::utf8::valid_utf8_concat(a + b, c);
    }
    match crate::png::metadata::utf8_string(bytes.as_slice()) {
        Some(s) => RespReply::Error(s),
        None => RespReply::Error(lossy),
    }
}

/// The stored value as a model, when present.
fn value_model_str(v: &RedisValue) -> (r: bool)
    ensures
        r == (value_view(*v) is Str),
{
    match v {
        RedisValue::String(_) => true,
        RedisValue::List(_) => false,
    }
}

impl RedisMiniDb {
    /// An empty key space.
    pub fn new() -> (r: Self)
        ensures
            r@ == Map::<Seq<u8>, ValueModel>::empty(),
    {
        let r = RedisMiniDb { entries: Vec::new() };
        assert(entry_models(r.entries@) =~= Seq::<(Seq<u8>, ValueModel)>::empty());
        r
    }

    fn take_entries(&mut self) -> (r: Vec<Entry>)
        ensures
            unique_keys(entry_models(r@)),
            assoc_map(entry_models(r@)) == old(self)@,
    {
        proof {
            use_type_invariant(&*self);
        }
        let mut es: Vec<Entry> = Vec::new();
        std::mem::swap(&mut es, &mut self.entries);
        es
    }

    /// Runs a command against the key space and returns its reply.
    pub fn execute(&mut self, command: Command) -> (r: RespReply)
        ensures
            final(self)@ == execute_spec(old(self)@, arg_views(command.args@)).0,
            reply_is(r, execute_spec(old(self)@, arg_views(command.args@)).1),
    {
        let ghost m = self@;
        let mut es = self.take_entries();
        let r = run(&mut es, command.args);
        self.entries = es;
        r
    }
}

/// The key space of an entry list.
spec fn mapped(es: Seq<Entry>) -> Map<Seq<u8>, ValueModel> {
    assoc_map(entry_models(es))
}

fn copy_bytes(v: &Vec<u8>) -> (r: Vec<u8>)
    ensures
        r@ == v@,
{
    vstd::slice::slice_to_vec(v.as_slice())
}

fn cmd_set(es: &mut Vec<Entry>, rest: Vec<Vec<u8>>) -> (r: RespReply)
    requires
        unique_keys(entry_models(old(es)@)),
        rest@.len() == 2,
    ensures
        unique_keys(entry_models(final(es)@)),
        ({
            let m = mapped(old(es)@);
            let a = arg_views(rest@);
            if m.contains_key(a[0]) && m[a[0]] is List {
                mapped(final(es)@) == m && reply_is(r, wrong_type_error())
            } else {
                mapped(final(es)@) == m.insert(a[0], ValueModel::Str(a[1])) && reply_is(r, ReplyModel::Simple("OK"@))
            }
        }),
{
    let mut rest = rest;
    let key = rest.remove(0);
    let value = rest.remove(0);
    let f = find(es, key.as_slice());
    proof {
        lemma_find_map(es@, key@, f);
    }
    if let Some(i) = f {
        if !value_model_str(&es[i].value) {
            return wrong_type();
        }
    }
    put_entry(es, key, RedisValue::String(value));
    RespReply::SimpleString("OK")
}

fn cmd_get(es: &Vec<Entry>, key: &Vec<u8>) -> (r: RespReply)
    requires
        unique_keys(entry_models(es@)),
    ensures
        ({
            let m = mapped(es@);
            if !m.contains_key(key@) {
                reply_is(r, ReplyModel::Null)
            } else {
                match m[key@] {
                    ValueModel::Str(v) => reply_is(r, ReplyModel::Bulk(v)),
                    ValueModel::List(_) => reply_is(r, wrong_type_error()),
                }
            }
        }),
{
    let f = find(es, key.as_slice());
    proof {
        lemma_find_map(es@, key@, f);
    }
    match f {
        None => RespReply::NullBulkString,
        Some(i) => match &es[i].value {
            RedisValue::String(v) => RespReply::BulkString(copy_bytes(v)),
            RedisValue::List(_) => wrong_type(),
        },
    }
}

fn cmd_del(es: &mut Vec<Entry>, keys: &Vec<Vec<u8>>) -> (r: RespReply)
    requires
        unique_keys(entry_models(old(es)@)),
        keys@.len() > 0,
    ensures
        unique_keys(entry_models(final(es)@)),
        mapped(final(es)@) == del_keys(mapped(old(es)@), arg_views(keys@), keys@.len() as int).0,
        reply_is(r, ReplyModel::Int(clamp_i64(del_keys(mapped(old(es)@), arg_views(keys@), keys@.len() as int).1))),
{
    let ghost m0 = mapped(es@);
    let mut deleted: usize = 0;
    let mut i: usize = 0;
    while i < keys.len()
        invariant
            i <= keys@.len(),
            unique_keys(entry_models(es@)),
            (mapped(es@), deleted as int) == del_keys(m0, arg_views(keys@), i as int),
            0 <= deleted <= i,
        decreases keys@.len() - i,
    {
        let t = take_entry(es, keys[i].as_slice());
        if t.is_some() {
            deleted = deleted + 1;
        } else {
            assert(mapped(es@) =~= del_keys(m0, arg_views(keys@), i as int).0.remove(keys@[i as int]@));
        }
        i = i + 1;
    }
    clamp_reply(deleted)
}

fn cmd_exists(es: &Vec<Entry>, keys: &Vec<Vec<u8>>) -> (r: RespReply)
    requires
        unique_keys(entry_models(es@)),
    ensures
        reply_is(r, ReplyModel::Int(clamp_i64(count_existing(mapped(es@), arg_views(keys@), keys@.len() as int)))),
{
    let mut count: usize = 0;
    let mut i: usize = 0;
    while i < keys.len()
        invariant
            i <= keys@.len(),
            unique_keys(entry_models(es@)),
            count as int == count_existing(mapped(es@), arg_views(keys@), i as int),
            0 <= count <= i,
        decreases keys@.len() - i,
    {
        let f = find(es, keys[i].as_slice());
        proof {
            lemma_find_map(es@, keys@[i as int]@, f);
        }
        if f.is_some() {
            count = count + 1;
        }
        i = i + 1;
    }
    clamp_reply(count)
}

fn clamp_reply(n: usize) -> (r: RespReply)
    ensures
        reply_is(r, ReplyModel::Int(clamp_i64(n as int))),
{
    if n as u64 > 0x7fff_ffff_ffff_ffffu64 {
        RespReply::Integer(0x7fff_ffff_ffff_ffff)
    } else {
        RespReply::Integer(n as i64)
    }
}

#[verifier::spinoff_prover]
#[verifier::rlimit(40)]
fn push_all(list: &mut Vec<Vec<u8>>, vals: &Vec<Vec<u8>>, left: bool)
    ensures
        arg_views(final(list)@) == pushed(arg_views(old(list)@), arg_views(vals@), left),
{
    let ghost old_l = arg_views(list@);
    let ghost vs = arg_views(vals@);
    let n = vals.len();
    let mut j: usize = 0;
    while j < n
        invariant
            n == vals@.len(),
            vs == arg_views(vals@),
            j <= n,
            arg_views(list@) == pushed(old_l, vs.subrange(0, j as int), left),
        decreases n - j,
    {
        let v = copy_bytes(&vals[j]);
        let ghost before = list@;
        if left {
            list.insert(0, v);
            proof {
                let p = vs.subrange(0, j + 1);
                assert(arg_views(list@) =~= seq![v@] + arg_views(before));
                assert(p.reverse() =~= seq![vs[j as int]] + vs.subrange(0, j as int).reverse());
            }
        } else {
            list.push(v);
            proof {
                assert(arg_views(list@) =~= arg_views(before).push(v@));
                assert(vs.subrange(0, j + 1) =~= vs.subrange(0, j as int).push(vs[j as int]));
            }
        }
        j = j + 1;
    }
    assert(vs.subrange(0, n as int) =~= vs);
}

fn decimal_bytes(v: i64) -> (r: Vec<u8>)
    ensures
        r@ == decimal_int(v as int),
{
    let mut out: Vec<u8> = Vec::new();
    push_decimal_int(&mut out, v);
    assert(out@ =~= decimal_int(v as int));
    out
}

fn cmd_increment(es: &mut Vec<Entry>, key: Vec<u8>, delta: i64) -> (r: RespReply)
    requires
        unique_keys(entry_models(old(es)@)),
    ensures
        unique_keys(entry_models(final(es)@)),
        mapped(final(es)@) == increment(mapped(old(es)@), key@, delta as int).0,
        reply_is(r, increment(mapped(old(es)@), key@, delta as int).1),
{
    let f = find(es, key.as_slice());
    proof {
        lemma_find_map(es@, key@, f);
    }
    let current: i64 = match f {
        None => 0,
        Some(i) => match &es[i].value {
            RedisValue::String(v) => match parse_integer(v.as_slice()) {
                Some(c) => c,
                None => return not_integer(),
            },
            RedisValue::List(_) => return wrong_type(),
        },
    };
    match current.checked_add(delta) {
        Some(next) => {
            let bytes = decimal_bytes(next);
            put_entry(es, key, RedisValue::String(bytes));
            RespReply::Integer(next)
        },
        None => error_reply("ERR increment or decrement would overflow"),
    }
}

fn cmd_push(es: &mut Vec<Entry>, rest: Vec<Vec<u8>>, left: bool) -> (r: RespReply)
    requires
        unique_keys(entry_models(old(es)@)),
        rest@.len() >= 2,
    ensures
        unique_keys(entry_models(final(es)@)),
        ({
            let m = mapped(old(es)@);
            let a = arg_views(rest@);
            let key = a[0];
            let vals = a.drop_first();
            if m.contains_key(key) && m[key] is Str {
                mapped(final(es)@) == m && reply_is(r, wrong_type_error())
            } else {
                let old_l = if m.contains_key(key) { m[key]->List_0 } else { Seq::empty() };
                let l = pushed(old_l, vals, left);
                mapped(final(es)@) == m.insert(key, ValueModel::List(l)) && reply_is(r, ReplyModel::Int(clamp_i64(l.len() as int)))
            }
        }),
{
    let ghost m = mapped(es@);
    let ghost a = arg_views(rest@);
    let mut rest = rest;
    let key = rest.remove(0);
    assert(arg_views(rest@) =~= a.drop_first());
    let f = find(es, key.as_slice());
    proof {
        lemma_find_map(es@, key@, f);
    }
    if let Some(i) = f {
        if value_model_str(&es[i].value) {
            return wrong_type();
        }
    }
    let taken = take_entry(es, key.as_slice());
    let mut list: Vec<Vec<u8>> = match taken {
        Some(RedisValue::List(l)) => l,
        _ => Vec::new(),
    };
    let ghost old_l = arg_views(list@);
    let ghost vals = arg_views(rest@);
    assert(old_l == (if m.contains_key(key@) { m[key@]->List_0 } else { Seq::<Seq<u8>>::empty() }));
    push_all(&mut list, &rest, left);
    let len = list.len();
    put_entry(es, key, RedisValue::List(list));
    assert(mapped(es@) =~= m.remove(key@).insert(key@, ValueModel::List(pushed(old_l, vals, left))));
    assert(m.remove(key@).insert(key@, ValueModel::List(pushed(old_l, vals, left))) =~= m.insert(key@, ValueModel::List(pushed(old_l, vals, left))));
    if len as u64 > 0x7fff_ffff_ffff_ffffu64 {
        return RespReply::Integer(0x7fff_ffff_ffff_ffff);
    }
    RespReply::Integer(len as i64)
}

fn cmd_pop(es: &mut Vec<Entry>, key: Vec<u8>, left: bool) -> (r: RespReply)
    requires
        unique_keys(entry_models(old(es)@)),
    ensures
        unique_keys(entry_models(final(es)@)),
        ({
            let m = mapped(old(es)@);
            if !m.contains_key(key@) {
                mapped(final(es)@) == m && reply_is(r, ReplyModel::Null)
            } else {
                match m[key@] {
                    ValueModel::Str(_) => mapped(final(es)@) == m && reply_is(r, wrong_type_error()),
                    ValueModel::List(l) => if l.len() == 0 {
                        mapped(final(es)@) == m && reply_is(r, ReplyModel::Null)
                    } else if left {
                        mapped(final(es)@) == m.insert(key@, ValueModel::List(l.drop_first())) && reply_is(r, ReplyModel::Bulk(l[0]))
                    } else {
                        mapped(final(es)@) == m.insert(key@, ValueModel::List(l.drop_last())) && reply_is(r, ReplyModel::Bulk(l.last()))
                    },
                }
            }
        }),
{
    let ghost m = mapped(es@);
    let f = find(es, key.as_slice());
    proof {
        lemma_find_map(es@, key@, f);
    }
    let i = match f {
        None => return RespReply::NullBulkString,
        Some(i) => i,
    };
    let ghost lv = value_view(es@[i as int].value);
    let empty = match &es[i].value {
        RedisValue::String(_) => return wrong_type(),
        RedisValue::List(l) => l.len() == 0,
    };
    if empty {
        return RespReply::NullBulkString;
    }
    assert(lv is List && lv->List_0.len() > 0);
    let taken = take_entry(es, key.as_slice());
    assert(taken is Some && value_view(taken->Some_0) == lv);
    let mut list = match taken {
        Some(RedisValue::List(l)) => l,
        _ => Vec::new(),
    };
    let ghost l0 = arg_views(list@);
    let item = if left { list.remove(0) } else { list.pop().unwrap() };
    proof {
        if left {
            assert(arg_views(list@) =~= l0.drop_first());
        } else {
            assert(arg_views(list@) =~= l0.drop_last());
        }
    }
    let ghost nl = arg_views(list@);
    put_entry(es, key, RedisValue::List(list));
    assert(mapped(es@) =~= m.remove(key@).insert(key@, ValueModel::List(nl)));
    assert(m.remove(key@).insert(key@, ValueModel::List(nl)) =~= m.insert(key@, ValueModel::List(nl)));
    RespReply::BulkString(item)
}

fn cmd_lrange(es: &Vec<Entry>, key: &Vec<u8>, start: i64, stop: i64) -> (r: RespReply)
    requires
        unique_keys(entry_models(es@)),
    ensures
        ({
            let m = mapped(es@);
            if !m.contains_key(key@) {
                reply_is(r, ReplyModel::BulkArray(Seq::empty()))
            } else {
                match m[key@] {
                    ValueModel::Str(_) => reply_is(r, wrong_type_error()),
                    ValueModel::List(l) => match normalize_range_spec(l.len() as int, start as int, stop as int) {
                        None => reply_is(r, ReplyModel::BulkArray(Seq::empty())),
                        Some((a, b)) => reply_is(r, ReplyModel::BulkArray(l.subrange(a, b + 1))),
                    },
                }
            }
        }),
{
    let f = find(es, key.as_slice());
    proof {
        lemma_find_map(es@, key@, f);
    }
    let i = match f {
        None => return RespReply::Array(Vec::new()),
        Some(i) => i,
    };
    match &es[i].value {
        RedisValue::String(_) => wrong_type(),
        RedisValue::List(l) => match normalize_range(l.len(), start, stop) {
            None => RespReply::Array(Vec::new()),
            Some((a, b)) => {
                let ll = l.len();
                let ghost lv = arg_views(l@);
                let ghost target = lv.subrange(a as int, b + 1);
                let mut out: Vec<RespReply> = Vec::new();
                let mut j = a;
                while j <= b
                    invariant
                        a <= j <= b + 1,
                        b < ll,
                        ll == l@.len(),
                        lv == arg_views(l@),
                        target == lv.subrange(a as int, b + 1),
                        out@.len() == j - a,
                        forall|k: int| 0 <= k < out@.len() ==> bulk_is(#[trigger] out@[k], target[k]),
                    decreases b + 1 - j,
                {
                    out.push(RespReply::BulkString(copy_bytes(&l[j])));
                    j = j + 1;
                }
                RespReply::Array(out)
            },
        },
    }
}

/// Runs a command against an entry list.
fn run(es: &mut Vec<Entry>, args: Vec<Vec<u8>>) -> (r: RespReply)
    requires
        unique_keys(entry_models(old(es)@)),
    ensures
        unique_keys(entry_models(final(es)@)),
        mapped(final(es)@) == execute_spec(mapped(old(es)@), arg_views(args@)).0,
        reply_is(r, execute_spec(mapped(old(es)@), arg_views(args@)).1),
{
    let ghost a = arg_views(args@);
    if args.len() == 0 {
        return error_reply("ERR unknown command ''");
    }
    let mut rest = args;
    let name = rest.remove(0);
    assert(arg_views(rest@) =~= a.drop_first());
    assert(name@ == a[0]);
    let n = rest.len();
    if eq_ignore_ascii_case(name.as_slice(), [80u8, 73, 78, 71].as_slice()) {
        assert([80u8, 73, 78, 71]@ == seq![80u8, 73u8, 78u8, 71u8]);
        if n == 0 {
            RespReply::SimpleString("PONG")
        } else if n == 1 {
            RespReply::BulkString(rest.remove(0))
        } else {
            error_reply("ERR wrong number of arguments for 'ping' command")
        }
    } else if eq_ignore_ascii_case(name.as_slice(), [69u8, 67, 72, 79].as_slice()) {
        assert([69u8, 67, 72, 79]@ == seq![69u8, 67u8, 72u8, 79u8]);
        if n == 1 {
            RespReply::BulkString(rest.remove(0))
        } else {
            error_reply("ERR wrong number of arguments for 'echo' command")
        }
    } else {
        assert(a =~= seq![name@] + arg_views(rest@));
        run_rest(es, name, rest)
    }
}

fn lit_eq(name: &Vec<u8>, lit: &[u8]) -> (r: bool)
    ensures
        r == eq_ignore_case(name@, lit@),
{
    eq_ignore_ascii_case(name.as_slice(), lit)
}

/// Runs a command other than PING and ECHO.
fn run_rest(es: &mut Vec<Entry>, name: Vec<u8>, rest: Vec<Vec<u8>>) -> (r: RespReply)
    requires
        unique_keys(entry_models(old(es)@)),
        !eq_ignore_case(name@, seq![80u8, 73u8, 78u8, 71u8]),
        !eq_ignore_case(name@, seq![69u8, 67u8, 72u8, 79u8]),
    ensures
        unique_keys(entry_models(final(es)@)),
        mapped(final(es)@) == execute_spec(mapped(old(es)@), seq![name@] + arg_views(rest@)).0,
        reply_is(r, execute_spec(mapped(old(es)@), seq![name@] + arg_views(rest@)).1),
{
    let ghost a = seq![name@] + arg_views(rest@);
    assert(a.drop_first() =~= arg_views(rest@));
    assert(a[0] == name@);
    let n = rest.len();
    let mut rest = rest;
    if lit_eq(&name, [83u8, 69, 84].as_slice()) {
        assert([83u8, 69, 84]@ == seq![83u8, 69u8, 84u8]);
        if n != 2 {
            return error_reply("ERR wrong number of arguments for 'set' command");
        }
        return cmd_set(es, rest);
    }
    if lit_eq(&name, [71u8, 69, 84].as_slice()) {
        assert([71u8, 69, 84]@ == seq![71u8, 69u8, 84u8]);
        if n != 1 {
            return error_reply("ERR wrong number of arguments for 'get' command");
        }
        return cmd_get(es, &rest[0]);
    }
    if lit_eq(&name, [68u8, 69, 76].as_slice()) {
        assert([68u8, 69, 76]@ == seq![68u8, 69u8, 76u8]);
        if n == 0 {
            return error_reply("ERR wrong number of arguments for 'del' command");
        }
        return cmd_del(es, &rest);
    }
    if lit_eq(&name, [69u8, 88, 73, 83, 84, 83].as_slice()) {
        assert([69u8, 88, 73, 83, 84, 83]@ == seq![69u8, 88u8, 73u8, 83u8, 84u8, 83u8]);
        if n == 0 {
            return error_reply("ERR wrong number of arguments for 'exists' command");
        }
        return cmd_exists(es, &rest);
    }
    run_counters(es, name, rest)
}

/// Runs INCR, DECR, INCRBY and the list commands.
fn run_counters(es: &mut Vec<Entry>, name: Vec<u8>, rest: Vec<Vec<u8>>) -> (r: RespReply)
    requires
        unique_keys(entry_models(old(es)@)),
        !eq_ignore_case(name@, seq![80u8, 73u8, 78u8, 71u8]),
        !eq_ignore_case(name@, seq![69u8, 67u8, 72u8, 79u8]),
        !eq_ignore_case(name@, seq![83u8, 69u8, 84u8]),
        !eq_ignore_case(name@, seq![71u8, 69u8, 84u8]),
        !eq_ignore_case(name@, seq![68u8, 69u8, 76u8]),
        !eq_ignore_case(name@, seq![69u8, 88u8, 73u8, 83u8, 84u8, 83u8]),
    ensures
        unique_keys(entry_models(final(es)@)),
        mapped(final(es)@) == execute_spec(mapped(old(es)@), seq![name@] + arg_views(rest@)).0,
        reply_is(r, execute_spec(mapped(old(es)@), seq![name@] + arg_views(rest@)).1),
{
    let ghost a = seq![name@] + arg_views(rest@);
    assert(a.drop_first() =~= arg_views(rest@));
    assert(a[0] == name@);
    let n = rest.len();
    let mut rest = rest;
    if lit_eq(&name, [73u8, 78, 67, 82].as_slice()) {
        assert([73u8, 78, 67, 82]@ == seq![73u8, 78u8, 67u8, 82u8]);
        if n != 1 {
            return error_reply("ERR wrong number of arguments for 'incr' command");
        }
        let key = rest.remove(0);
        return cmd_increment(es, key, 1);
    }
    if lit_eq(&name, [68u8, 69, 67, 82].as_slice()) {
        assert([68u8, 69, 67, 82]@ == seq![68u8, 69u8, 67u8, 82u8]);
        if n != 1 {
            return error_reply("ERR wrong number of arguments for 'decr' command");
        }
        let key = rest.remove(0);
        return cmd_increment(es, key, -1);
    }
    if lit_eq(&name, [73u8, 78, 67, 82, 66, 89].as_slice()) {
        assert([73u8, 78, 67, 82, 66, 89]@ == seq![73u8, 78u8, 67u8, 82u8, 66u8, 89u8]);
        if n != 2 {
            return error_reply("ERR wrong number of arguments for 'incrby' command");
        }
        let delta = match parse_integer(rest[1].as_slice()) {
            Some(d) => d,
            None => return not_integer(),
        };
        let key = rest.remove(0);
        return cmd_increment(es, key, delta);
    }
    run_lists(es, name, rest)
}

/// Runs the list commands, or answers that the command is unknown.
fn run_lists(es: &mut Vec<Entry>, name: Vec<u8>, rest: Vec<Vec<u8>>) -> (r: RespReply)
    requires
        unique_keys(entry_models(old(es)@)),
        !eq_ignore_case(name@, seq![80u8, 73u8, 78u8, 71u8]),
        !eq_ignore_case(name@, seq![69u8, 67u8, 72u8, 79u8]),
        !eq_ignore_case(name@, seq![83u8, 69u8, 84u8]),
        !eq_ignore_case(name@, seq![71u8, 69u8, 84u8]),
        !eq_ignore_case(name@, seq![68u8, 69u8, 76u8]),
        !eq_ignore_case(name@, seq![69u8, 88u8, 73u8, 83u8, 84u8, 83u8]),
        !eq_ignore_case(name@, seq![73u8, 78u8, 67u8, 82u8]),
        !eq_ignore_case(name@, seq![68u8, 69u8, 67u8, 82u8]),
        !eq_ignore_case(name@, seq![73u8, 78u8, 67u8, 82u8, 66u8, 89u8]),
    ensures
        unique_keys(entry_models(final(es)@)),
        mapped(final(es)@) == execute_spec(mapped(old(es)@), seq![name@] + arg_views(rest@)).0,
        reply_is(r, execute_spec(mapped(old(es)@), seq![name@] + arg_views(rest@)).1),
{
    let ghost a = seq![name@] + arg_views(rest@);
    assert(a.drop_first() =~= arg_views(rest@));
    assert(a[0] == name@);
    let n = rest.len();
    let mut rest = rest;
    let lpush = lit_eq(&name, [76u8, 80, 85, 83, 72].as_slice());
    let rpush = lit_eq(&name, [82u8, 80, 85, 83, 72].as_slice());
    assert([76u8, 80, 85, 83, 72]@ == seq![76u8, 80u8, 85u8, 83u8, 72u8]);
    assert([82u8, 80, 85, 83, 72]@ == seq![82u8, 80u8, 85u8, 83u8, 72u8]);
    if lpush || rpush {
        if n < 2 {
            if lpush {
                return error_reply("ERR wrong number of arguments for 'lpush' command");
            } else {
                return error_reply("ERR wrong number of arguments for 'rpush' command");
            }
        }
        return cmd_push(es, rest, lpush);
    }
    let lpop = lit_eq(&name, [76u8, 80, 79, 80].as_slice());
    let rpop = lit_eq(&name, [82u8, 80, 79, 80].as_slice());
    assert([76u8, 80, 79, 80]@ == seq![76u8, 80u8, 79u8, 80u8]);
    assert([82u8, 80, 79, 80]@ == seq![82u8, 80u8, 79u8, 80u8]);
    if lpop || rpop {
        if n != 1 {
            if lpop {
                return error_reply("ERR wrong number of arguments for 'lpop' command");
            } else {
                return error_reply("ERR wrong number of arguments for 'rpop' command");
            }
        }
        let key = rest.remove(0);
        return cmd_pop(es, key, lpop);
    }
    if lit_eq(&name, [76u8, 82, 65, 78, 71, 69].as_slice()) {
        assert([76u8, 82, 65, 78, 71, 69]@ == seq![76u8, 82u8, 65u8, 78u8, 71u8, 69u8]);
        if n != 3 {
            return error_reply("ERR wrong number of arguments for 'lrange' command");
        }
        let start = match parse_integer(rest[1].as_slice()) {
            Some(v) => v,
            None => return not_integer(),
        };
        let stop = match parse_integer(rest[2].as_slice()) {
            Some(v) => v,
            None => return not_integer(),
        };
        return cmd_lrange(es, &rest[0], start, stop);
    }
    unknown_command(name.as_slice())
}

} // verus!
