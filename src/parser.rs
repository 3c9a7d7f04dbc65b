//! The clock exchange: handshake triples found in a stream of packets, and the
//! linear map from device time to host time built from the best of them.
use vstd::prelude::*;
use crate::number::Decimal;
use chrono::{NaiveDateTime, TimeZone};
use crate::packet::{DataPacket, same_header};
use crate::text::{fixed_point_text, fixed_point_to_text, int_text, pow10, pow10_u128, lemma_pow10_pos, lemma_pow10_mono};
use crate::number::{decimal_of, decimal_text, parse_decimal};
use crate::record::{Csv, rows_to_records, rows_view};
use csv::StringRecord;
use crate::types::DataType;

verus! {

/// Version of this decoder, recorded in every `TimeSyncMap`.
pub const PARSER_VERSION: &'static str = "0.1.0";

/// Fewest handshake packets (requests, replies and acknowledgements together)
/// from which triples are looked for.
pub const MIN_SYNCS_REQUIRED: usize = 3;

/// One clock exchange: the device asked for the host time (`RD`), received it
/// (`TL`) and acknowledged it (`AK`).
#[derive(Clone, Debug, PartialEq)]
pub struct TimeSync {
    /// Device time when the request was sent.
    pub rd: Decimal,
    /// Device time when the reply was received.
    pub ts_received: Decimal,
    /// Host time at which the reply was sent, as `%Y-%m-%d_%H-%M-%S-<fraction>`.
    pub ts_sent: String,
    /// Device time when the acknowledgement was sent.
    pub ak: Decimal,
    /// Device nanoseconds from request to reply.
    pub round_trip: i128,
}

/// Why no clock map could be built.
#[derive(Clone, Copy, Debug, PartialEq, Eq, Structural)]
pub enum SyncError {
    /// No packet was decoded, so the device time span is undefined.
    NoPackets,
    /// Fewer than `MIN_SYNCS_REQUIRED` handshake packets.
    NotEnoughSyncData,
    /// No two quartiles have a candidate triple.
    CannotGenerate,
    /// The two chosen triples were received at the same device time.
    DegenerateAnchors,
    /// A host time text could not be read, or is out of range.
    InvalidTimestamp,
}

/// A device time in whole nanoseconds (rounded down): the decimal counts milliseconds.
pub open spec fn device_ns(d: Decimal) -> int {
    (d.mantissa as int * 1_000_000) / (pow10(d.scale as nat) as int)
}

/// Device nanoseconds of a device time in milliseconds, rounded down.
pub fn device_ns_of(d: Decimal) -> (r: i128)
    ensures
        r as int == device_ns(d),
        -10_000_000_000_000_000_000_000_000 <= r <= 10_000_000_000_000_000_000_000_000,
{
    proof {
        lemma_pow10_pos(d.scale as nat);
        lemma_div_within(d.mantissa as int * 1_000_000, pow10(d.scale as nat) as int);
    }
    let x: i128 = d.mantissa as i128 * 1_000_000;
    proof {
        lemma_pow10_pos(d.scale as nat);
    }
    if d.scale <= 38 {
        proof {
            lemma_pow10_mono(d.scale as nat, 38);
            crate::text::lemma_pow10_38();
        }
        let p = pow10_u128(d.scale) as i128;
        floor_div(x, p)
    } else {
        proof {
            lemma_pow10_mono(38, d.scale as nat);
            crate::text::lemma_pow10_38();
        }
        if x >= 0 {
            proof {
                vstd::arithmetic::div_mod::lemma_basic_div(x as int, pow10(d.scale as nat) as int);
            }
            0
        } else {
            proof {
                lemma_div_small_negative(x as int, pow10(d.scale as nat) as int);
            }
            -1
        }
    }
}

fn floor_div(x: i128, p: i128) -> (r: i128)
    requires
        p > 0,
    ensures
        r as int == x as int / p as int,
{
    match x.checked_div_euclid(p) {
        Some(q) => q,
        None => {
            proof {
                lemma_div_within(x as int, p as int);
            }
            0
        },
    }
}

proof fn lemma_div_small_negative(x: int, d: int)
    requires
        -d <= x < 0,
    ensures
        x / d == -1,
{
    vstd::arithmetic::div_mod::lemma_fundamental_div_mod(x, d);
    let q = x / d;
    let r = x % d;
    assert(0 <= r < d);
    assert(q == -1) by (nonlinear_arith)
        requires
            x == d * q + r,
            0 <= r < d,
            -d <= x < 0,
    ;
}

/// Dividing by a positive number stays between zero and the dividend.
proof fn lemma_div_within(x: int, d: int)
    requires
        d > 0,
    ensures
        x >= 0 ==> 0 <= x / d <= x,
        x < 0 ==> x <= x / d < 0,
{
    vstd::arithmetic::div_mod::lemma_fundamental_div_mod(x, d);
    let q = x / d;
    let r = x % d;
    assert(0 <= r < d);
    assert(x >= 0 ==> 0 <= q <= x) by (nonlinear_arith)
        requires
            x == d * q + r,
            0 <= r < d,
    ;
    assert(x < 0 ==> x <= q < 0) by (nonlinear_arith)
        requires
            x == d * q + r,
            0 <= r < d,
    ;
}

pub open spec fn is_sync_packet<E>(r: Result<DataPacket, E>) -> bool {
    match r {
        Ok(p) => match p.data_type {
            DataType::RD(_) | DataType::TL(_) | DataType::AK(_) => true,
            _ => false,
        },
        Err(_) => false,
    }
}

/// The decoded request, reply and acknowledgement packets, in order.
pub open spec fn sync_packets<E>(ps: Seq<Result<DataPacket, E>>) -> Seq<DataPacket>
    decreases ps.len(),
{
    if ps.len() == 0 {
        Seq::empty()
    } else if is_sync_packet(ps.last()) {
        sync_packets(ps.drop_last()).push(ps.last()->Ok_0)
    } else {
        sync_packets(ps.drop_last())
    }
}

/// The triple that three consecutive handshake packets form, if they are a
/// request, a reply and an acknowledgement in that order.
pub open spec fn window_triple(a: DataPacket, b: DataPacket, c: DataPacket) -> Option<TimeSync> {
    match (a.data_type, b.data_type, c.data_type) {
        (DataType::RD(_), DataType::TL(t), DataType::AK(_)) => Some(TimeSync {
            rd: a.emotibit_timestamp,
            ts_received: b.emotibit_timestamp,
            ts_sent: t,
            ak: c.emotibit_timestamp,
            round_trip: (device_ns(b.emotibit_timestamp) - device_ns(a.emotibit_timestamp)) as i128,
        }),
        _ => None,
    }
}

/// The triples of every window of three consecutive packets of `s`, in order.
pub open spec fn triples(s: Seq<DataPacket>) -> Seq<TimeSync>
    decreases s.len(),
{
    if s.len() < 3 {
        Seq::empty()
    } else {
        let prev = triples(s.drop_last());
        match window_triple(s[s.len() - 3], s[s.len() - 2], s[s.len() - 1]) {
            Some(t) => prev.push(t),
            None => prev,
        }
    }
}

fn is_sync<E>(r: &Result<DataPacket, E>) -> (b: bool)
    ensures
        b == is_sync_packet(*r),
{
    match r {
        Ok(p) => match &p.data_type {
            DataType::RD(_) | DataType::TL(_) | DataType::AK(_) => true,
            _ => false,
        },
        Err(_) => false,
    }
}

pub open spec fn packets_at<E>(ps: Seq<Result<DataPacket, E>>, idx: Seq<usize>) -> Seq<DataPacket> {
    idx.map_values(|k: usize| ps[k as int]->Ok_0)
}

/// Finds every request, reply and acknowledgement that follow one another
/// among the handshake packets, and makes a `TimeSync` of each.
pub fn find_syncs<E>(packets: &[Result<DataPacket, E>]) -> (r: Result<Vec<TimeSync>, SyncError>)
    ensures
        sync_packets(packets@).len() < MIN_SYNCS_REQUIRED ==> r == Err::<Vec<TimeSync>, SyncError>(SyncError::NotEnoughSyncData),
        sync_packets(packets@).len() >= MIN_SYNCS_REQUIRED ==> (r matches Ok(v) && v@ == triples(sync_packets(packets@))),
{
    let ghost ps = packets@;
    let mut idx: Vec<usize> = Vec::new();
    let mut i: usize = 0;
    while i < packets.len()
        invariant
            i <= ps.len(),
            ps == packets@,
            sync_packets(ps.subrange(0, i as int)) == packets_at(ps, idx@),
            forall|k: int| 0 <= k < idx@.len() ==> #[trigger] idx@[k] < i && is_sync_packet(ps[idx@[k] as int]),
        decreases ps.len() - i,
    {
        let ghost pre = ps.subrange(0, i as int + 1);
        assert(pre.drop_last() =~= ps.subrange(0, i as int));
        assert(pre.last() == ps[i as int]);
        if is_sync(&packets[i]) {
            let ghost before = idx@;
            idx.push(i);
            assert(packets_at(ps, idx@) =~= packets_at(ps, before).push(ps[i as int]->Ok_0));
        }
        i = i + 1;
    }
    assert(ps.subrange(0, ps.len() as int) =~= ps);
    let ghost s = sync_packets(ps);
    if idx.len() < MIN_SYNCS_REQUIRED {
        return Err(SyncError::NotEnoughSyncData);
    }
    let mut out: Vec<TimeSync> = Vec::new();
    let mut j: usize = 0;
    assert(triples(s.subrange(0, 2)) =~= Seq::<TimeSync>::empty());
    let windows = idx.len() - 2;
    while j < windows
        invariant
            windows == idx@.len() - 2,
            j + 2 <= idx@.len(),
            idx@.len() == s.len(),
            s == packets_at(ps, idx@),
            ps == packets@,
            forall|k: int| 0 <= k < idx@.len() ==> #[trigger] idx@[k] < ps.len() && is_sync_packet(ps[idx@[k] as int]),
            out@ == triples(s.subrange(0, j + 2)),
        decreases idx@.len() - j,
    {
        let ghost pre = s.subrange(0, j + 3);
        assert(pre.drop_last() =~= s.subrange(0, j + 2));
        assert(pre[j as int] == s[j as int] && pre[j + 1] == s[j + 1] && pre[j + 2] == s[j + 2]);
        let len = idx.len();
        assert(j + 2 < len);
        let ia = idx[j];
        let ib = idx[j + 1];
        let ic = idx[j + 2];
        assert(idx@[j as int] < ps.len() && idx@[j + 1] < ps.len() && idx@[j + 2] < ps.len());
        match (&packets[ia], &packets[ib], &packets[ic]) {
            (Ok(a), Ok(b), Ok(c)) => {
                assert(s[j as int] == *a && s[j + 1] == *b && s[j + 2] == *c);
                match (&a.data_type, &b.data_type, &c.data_type) {
                    (DataType::RD(_), DataType::TL(t), DataType::AK(_)) => {
                        let ta = device_ns_of(a.emotibit_timestamp);
                        let tb = device_ns_of(b.emotibit_timestamp);
                        out.push(TimeSync {
                            rd: a.emotibit_timestamp,
                            ts_received: b.emotibit_timestamp,
                            ts_sent: t.clone(),
                            ak: c.emotibit_timestamp,
                            round_trip: tb - ta,
                        });
                    },
                    _ => {},
                }
            },
            _ => {
                assert(false);
            },
        }
        j = j + 1;
    }
    assert(s.subrange(0, s.len() as int) =~= s);
    Ok(out)
}

/// Layout of the date and time before the fraction in a host time text.
pub const SENT_TIME_FORMAT: &'static str = "%Y-%m-%d_%H-%M-%S";

/// The date and time that chrono reads from `s` laid out as `format`, in
/// seconds since the Unix epoch as if it were UTC, or `None` if it does not read.
pub uninterp spec fn civil_seconds(s: Seq<char>, format: Seq<char>) -> Option<int>;

/// Relies on `chrono::NaiveDateTime::parse_from_str` and `and_utc().timestamp()`:
/// the date and time read from the text and the layout alone, in seconds.
#[verifier::external_body]
fn parse_civil_seconds(s: &str, format: &str) -> (r: Option<i64>)
    ensures
        r is Some == civil_seconds(s@, format@) is Some,
        r matches Some(x) ==> civil_seconds(s@, format@) == Some(x as int),
{
    NaiveDateTime::parse_from_str(s, format).ok().map(|d| d.and_utc().timestamp())
}

/// Relies on `chrono::DateTime::from_timestamp`, `Local::from_local_datetime`
/// and `DateTime::timestamp`: the seconds since the Unix epoch of the date and
/// time `naive` (given as if it were UTC) on the machine's local clock, when it
/// names exactly one instant. Which one depends on the machine's time zone;
/// chrono keeps every offset strictly within one day (`FixedOffset::east_opt`).
#[verifier::external_body]
fn local_epoch_seconds(naive: i64) -> (r: Option<i64>)
    ensures
        r matches Some(c) ==> -86_400 < naive - c < 86_400,
{
    let civil = match chrono::DateTime::from_timestamp(naive, 0) {
        Some(d) => d.naive_utc(),
        None => return None,
    };
    match chrono::Local.from_local_datetime(&civil) {
        chrono::LocalResult::Single(d) => Some(d.timestamp()),
        chrono::LocalResult::Ambiguous(_, _) => None,
        chrono::LocalResult::None => None,
    }
}

/// Index of the last `-` in `t`, or -1.
pub open spec fn last_dash(t: Seq<char>) -> int
    decreases t.len(),
{
    if t.len() == 0 {
        -1
    } else if t.last() == '-' {
        t.len() - 1
    } else {
        last_dash(t.drop_last())
    }
}

proof fn lemma_last_dash_bounds(t: Seq<char>)
    ensures
        -1 <= last_dash(t) < t.len(),
    decreases t.len(),
{
    if t.len() > 0 {
        lemma_last_dash_bounds(t.drop_last());
    }
}

/// A host time text split at its last `-`: the date and time before it, the
/// fraction after it.
pub open spec fn sent_time_parts(t: Seq<char>) -> Option<(Seq<char>, Seq<char>)> {
    let i = last_dash(t);
    if i < 0 {
        None
    } else {
        Some((t.subrange(0, i), t.subrange(i + 1, t.len() as int)))
    }
}

/// Nanoseconds of a fraction of a second written as `tail`: its value divided by
/// ten to the power of its length (`1234` is 0.1234 s), rounded down.
pub open spec fn fraction_ns(tail: Seq<char>) -> Option<int> {
    match decimal_of(tail) {
        Some(d) => if d.mantissa >= 0 {
            Some((d.mantissa as int * 1_000_000_000) / (pow10((d.scale + tail.len()) as nat) as int))
        } else {
            None
        },
        None => None,
    }
}

/// The host time text can be read: it has a `-`, the date and time before the
/// last one reads in `SENT_TIME_FORMAT`, and the fraction after it is a number.
pub open spec fn sent_time_well_formed(t: Seq<char>) -> bool {
    match sent_time_parts(t) {
        Some((head, tail)) => civil_seconds(head, SENT_TIME_FORMAT@) is Some && fraction_ns(tail) is Some,
        None => false,
    }
}

/// Host nanoseconds at which a reply was received: the time sent, `epoch`
/// seconds plus the fraction of the text `t`, plus half the round trip `rt`
/// (device nanoseconds) for the way back; `None` if the fraction cannot be
/// read or the result does not fit in 64 bits.
pub open spec fn host_anchor(epoch: int, t: Seq<char>, rt: int) -> Option<int> {
    match sent_time_parts(t) {
        Some((_, tail)) => match fraction_ns(tail) {
            Some(f) => {
                let v = epoch * 1_000_000_000 + f + rt / 2;
                if i64::MIN <= v <= i64::MAX { Some(v) } else { None }
            },
            None => None,
        },
        None => None,
    }
}

/// The date and time before the last `-` of a host time text, in seconds as if UTC.
pub open spec fn sent_time_civil(t: Seq<char>) -> Option<int> {
    match sent_time_parts(t) {
        Some((head, _)) => civil_seconds(head, SENT_TIME_FORMAT@),
        None => None,
    }
}

/// `tl` is the host anchor of the text `t` and round trip `rt` for an epoch
/// second `c` that lies within one day of the date and time written in `t`:
/// the machine's time zone decides where exactly.
pub open spec fn anchored(t: Seq<char>, rt: int, tl: int) -> bool {
    exists|c: i64| #![trigger host_anchor(c as int, t, rt)]
        sent_time_civil(t) matches Some(n) && -86_400 < n - c < 86_400 && host_anchor(c as int, t, rt) == Some(tl)
}

fn last_dash_index(t: &str) -> (r: Option<usize>)
    ensures
        match r {
            Some(i) => i as int == last_dash(t@),
            None => last_dash(t@) < 0,
        },
{
    let n = t.unicode_len();
    let mut found: Option<usize> = None;
    let mut i: usize = 0;
    while i < n
        invariant
            i <= n,
            n == t@.len(),
            match found {
                Some(k) => k as int == last_dash(t@.subrange(0, i as int)),
                None => last_dash(t@.subrange(0, i as int)) < 0,
            },
        decreases n - i,
    {
        let ghost pre = t@.subrange(0, i as int + 1);
        assert(pre.drop_last() =~= t@.subrange(0, i as int));
        if t.get_char(i) == '-' {
            found = Some(i);
        }
        i = i + 1;
    }
    assert(t@.subrange(0, n as int) =~= t@);
    found
}

/// Nanoseconds of the fraction of a second written as `tail`.
fn fraction_ns_of(tail: &str) -> (r: Option<i128>)
    ensures
        match fraction_ns(tail@) {
            Some(f) => r == Some(f as i128) && 0 <= f <= 10_000_000_000_000_000_000_000_000_000,
            None => r is None,
        },
{
    let n = tail.unicode_len();
    match parse_decimal(tail) {
        None => None,
        Some(d) => {
            if d.mantissa < 0 {
                return None;
            }
            let x = d.mantissa as u128 * 1_000_000_000;
            if n > 27 || d.scale as usize + n > 27 {
                proof {
                    let k = (d.scale + n) as nat;
                    lemma_pow10_mono(28, k);
                    crate::text::lemma_pow10_add(10, 18);
                    crate::text::lemma_pow10_38();
                    lemma_pow10_mono(28, 38);
                    lemma_pow10_10_18();
                    vstd::arithmetic::div_mod::lemma_basic_div(x as int, pow10(k) as int);
                }
                return Some(0);
            }
            let total = (d.scale as usize + n) as u32;
            let p = pow10_u128(total);
            proof {
                lemma_pow10_pos(total as nat);
                vstd::arithmetic::div_mod::lemma_div_is_ordered_by_denominator(x as int, 1, p as int);
            }
            Some((x / p) as i128)
        },
    }
}

proof fn lemma_pow10_10_18()
    ensures
        pow10(10) == 10_000_000_000nat,
        pow10(18) == 1_000_000_000_000_000_000nat,
{
    reveal_with_fuel(pow10, 19);
}

/// Host nanoseconds at which the reply of `sync` was received, given the
/// seconds since the Unix epoch of the date and time in its text.
pub fn host_time_from(epoch_seconds: i64, sync: &TimeSync) -> (r: Option<i64>)
    requires
        -100_000_000_000_000_000_000_000_000 <= sync.round_trip <= 100_000_000_000_000_000_000_000_000,
    ensures
        match host_anchor(epoch_seconds as int, sync.ts_sent@, sync.round_trip as int) {
            Some(v) => r == Some(v as i64),
            None => r is None,
        },
{
    let t = sync.ts_sent.as_str();
    let n = t.unicode_len();
    let pos = match last_dash_index(t) {
        Some(p) => p,
        None => return None,
    };
    proof {
        lemma_last_dash_bounds(t@);
    }
    let tail = t.substring_char(pos + 1, n);
    let f = match fraction_ns_of(tail) {
        Some(f) => f,
        None => return None,
    };
    let v: i128 = epoch_seconds as i128 * 1_000_000_000 + f + floor_div(sync.round_trip, 2);
    proof {
        lemma_div_within(sync.round_trip as int, 2);
    }
    if v < -0x8000_0000_0000_0000 || v > 0x7fff_ffff_ffff_ffff {
        return None;
    }
    Some(v as i64)
}

/// The host time text of `sync` reads as a date and time and a fraction, and
/// the host time then fits: host and device nanoseconds at which its reply was
/// received.
pub fn get_tl_te(sync: &TimeSync) -> (r: Result<(i64, i128), SyncError>)
    requires
        -100_000_000_000_000_000_000_000_000 <= sync.round_trip <= 100_000_000_000_000_000_000_000_000,
    ensures
        !sent_time_well_formed(sync.ts_sent@) ==> r == Err::<(i64, i128), SyncError>(SyncError::InvalidTimestamp),
        match r {
            Ok((tl, te)) => te as int == device_ns(sync.ts_received) && sent_time_well_formed(sync.ts_sent@)
                && anchored(sync.ts_sent@, sync.round_trip as int, tl as int),
            Err(e) => e == SyncError::InvalidTimestamp,
        },
{
    let t = sync.ts_sent.as_str();
    let n = t.unicode_len();
    let pos = match last_dash_index(t) {
        Some(p) => p,
        None => return Err(SyncError::InvalidTimestamp),
    };
    proof {
        lemma_last_dash_bounds(t@);
    }
    let head = t.substring_char(0, pos);
    let tail = t.substring_char(pos + 1, n);
    let civil = match parse_civil_seconds(head, SENT_TIME_FORMAT) {
        Some(c) => c,
        None => return Err(SyncError::InvalidTimestamp),
    };
    if fraction_ns_of(tail).is_none() {
        return Err(SyncError::InvalidTimestamp);
    }
    let c = match local_epoch_seconds(civil) {
        Some(c) => c,
        None => return Err(SyncError::InvalidTimestamp),
    };
    match host_time_from(c, sync) {
        Some(tl) => Ok((tl, device_ns_of(sync.ts_received))),
        None => Err(SyncError::InvalidTimestamp),
    }
}

/// The clock map: device times `te0`, `te1` and host times `tl0`, `tl1` of two
/// chosen replies, between which other device times are projected linearly.
#[derive(Clone, Debug, PartialEq)]
pub struct TimeSyncMap {
    /// Device nanoseconds of the first anchor.
    pub te0: i128,
    /// Device nanoseconds of the second anchor.
    pub te1: i128,
    /// Host nanoseconds since the Unix epoch of the first anchor.
    pub tl0: i64,
    /// Host nanoseconds since the Unix epoch of the second anchor.
    pub tl1: i64,
    /// Number of handshake triples found.
    pub syncs_received: usize,
    /// Earliest device time of a decoded packet, in nanoseconds.
    pub emotibit_start_time: i128,
    /// Latest device time of a decoded packet, in nanoseconds.
    pub emotibit_end_time: i128,
    /// Version of the decoder that built the map.
    pub parse_version: String,
}

/// Relies on `num::integer::div_ceil`: the quotient rounded up.
#[verifier::external_body]
fn div_ceil(x: usize, y: usize) -> (r: usize)
    requires
        y > 0,
    ensures
        r as int == (x as int + y as int - 1) / y as int,
{
    num::integer::div_ceil(x, y)
}

/// Size of each quartile of `n` triples: a quarter, rounded up.
pub open spec fn quartile_size(n: nat) -> nat {
    ((n + 3) / 4) as nat
}

/// Index, in `s[lo..hi]`, of the first triple with the shortest round trip.
pub open spec fn best_in(s: Seq<TimeSync>, lo: int, hi: int) -> int
    decreases hi - lo,
{
    if hi - lo <= 1 {
        lo
    } else {
        let b = best_in(s, lo, hi - 1);
        if s[hi - 1].round_trip < s[b].round_trip { hi - 1 } else { b }
    }
}

/// The candidate of quartile `q` of `s`: its first triple with the shortest
/// round trip, or `None` when the quartile is empty.
pub open spec fn quartile_best(s: Seq<TimeSync>, q: int) -> Option<int> {
    let c = quartile_size(s.len());
    let lo = q * c;
    if c == 0 || lo >= s.len() {
        None
    } else {
        let hi = if lo + c < s.len() { lo + c } else { s.len() as int };
        Some(best_in(s, lo, hi))
    }
}

/// The two triples that anchor the map: the candidates of the first pair of
/// quartiles, in the order (0, 3), (1, 3), (1, 2), (0, 1), (2, 3), that both have one.
pub open spec fn anchor_pair(s: Seq<TimeSync>) -> Option<(int, int)> {
    let q0 = quartile_best(s, 0);
    let q1 = quartile_best(s, 1);
    let q2 = quartile_best(s, 2);
    let q3 = quartile_best(s, 3);
    if q0 is Some && q3 is Some {
        Some((q0->Some_0, q3->Some_0))
    } else if q1 is Some && q3 is Some {
        Some((q1->Some_0, q3->Some_0))
    } else if q1 is Some && q2 is Some {
        Some((q1->Some_0, q2->Some_0))
    } else if q0 is Some && q1 is Some {
        Some((q0->Some_0, q1->Some_0))
    } else if q2 is Some && q3 is Some {
        Some((q2->Some_0, q3->Some_0))
    } else {
        None
    }
}

proof fn lemma_best_in_range(s: Seq<TimeSync>, lo: int, hi: int)
    requires
        lo < hi,
    ensures
        lo <= best_in(s, lo, hi) < hi,
    decreases hi - lo,
{
    if hi - lo > 1 {
        lemma_best_in_range(s, lo, hi - 1);
    }
}

fn best_index(s: &Vec<TimeSync>, lo: usize, hi: usize) -> (r: usize)
    requires
        lo < hi <= s@.len(),
    ensures
        r as int == best_in(s@, lo as int, hi as int),
{
    let mut b = lo;
    let mut k = lo + 1;
    while k < hi
        invariant
            lo < k <= hi <= s@.len(),
            b as int == best_in(s@, lo as int, k as int),
        decreases hi - k,
    {
        proof {
            lemma_best_in_range(s@, lo as int, k as int);
        }
        if s[k].round_trip < s[b].round_trip {
            b = k;
        }
        k = k + 1;
    }
    b
}

fn quartile_candidate(s: &Vec<TimeSync>, c: usize, q: usize) -> (r: Option<usize>)
    requires
        c as int == quartile_size(s@.len()),
        q < 4,
    ensures
        match quartile_best(s@, q as int) {
            Some(i) => r == Some(i as usize) && 0 <= i < s@.len(),
            None => r is None,
        },
{
    if c == 0 {
        return None;
    }
    let n = s.len();
    if q > n / c {
        proof {
            vstd::arithmetic::div_mod::lemma_fundamental_div_mod(n as int, c as int);
            assert(q * c >= n) by (nonlinear_arith)
                requires
                    q >= n / c + 1,
                    n == c * (n / c) + n % c,
                    n % c < c,
                    c > 0,
            ;
        }
        return None;
    }
    proof {
        vstd::arithmetic::div_mod::lemma_fundamental_div_mod(n as int, c as int);
        assert(q * c <= n) by (nonlinear_arith)
            requires
                q <= n / c,
                n == c * (n / c) + n % c,
                n % c >= 0,
                c > 0,
        ;
    }
    let lo = q * c;
    if lo >= n {
        return None;
    }
    let hi = if c < n - lo { lo + c } else { n };
    proof {
        lemma_best_in_range(s@, lo as int, hi as int);
    }
    Some(best_index(s, lo, hi))
}

/// Device times, in nanoseconds, of the packets that were decoded, in order.
pub open spec fn decoded_times<E>(ps: Seq<Result<DataPacket, E>>) -> Seq<int>
    decreases ps.len(),
{
    if ps.len() == 0 {
        Seq::empty()
    } else {
        match ps.last() {
            Ok(p) => decoded_times(ps.drop_last()).push(device_ns(p.emotibit_timestamp)),
            Err(_) => decoded_times(ps.drop_last()),
        }
    }
}

pub open spec fn seq_min(s: Seq<int>) -> int
    decreases s.len(),
{
    if s.len() <= 1 {
        s[0]
    } else {
        let m = seq_min(s.drop_last());
        if s.last() < m { s.last() } else { m }
    }
}

pub open spec fn seq_max(s: Seq<int>) -> int
    decreases s.len(),
{
    if s.len() <= 1 {
        s[0]
    } else {
        let m = seq_max(s.drop_last());
        if s.last() > m { s.last() } else { m }
    }
}

/// What building the map from the triples `s` of the packets `ps` gives, once
/// there are packets and enough handshake packets.
pub open spec fn sync_map_outcome<E>(
    ps: Seq<Result<DataPacket, E>>,
    s: Seq<TimeSync>,
    r: Result<TimeSyncMap, SyncError>,
) -> bool {
    match anchor_pair(s) {
        None => r == Err::<TimeSyncMap, SyncError>(SyncError::CannotGenerate),
        Some((i, j)) => if device_ns(s[i].ts_received) == device_ns(s[j].ts_received) {
            r == Err::<TimeSyncMap, SyncError>(SyncError::DegenerateAnchors)
        } else if !(sent_time_well_formed(s[i].ts_sent@) && sent_time_well_formed(s[j].ts_sent@)) {
            r == Err::<TimeSyncMap, SyncError>(SyncError::InvalidTimestamp)
        } else {
            match r {
                Ok(m) => {
                    &&& m.te0 == device_ns(s[i].ts_received)
                    &&& m.te1 == device_ns(s[j].ts_received)
                    &&& anchored(s[i].ts_sent@, s[i].round_trip as int, m.tl0 as int)
                    &&& anchored(s[j].ts_sent@, s[j].round_trip as int, m.tl1 as int)
                    &&& m.syncs_received == s.len()
                    &&& m.emotibit_start_time == seq_min(decoded_times(ps))
                    &&& m.emotibit_end_time == seq_max(decoded_times(ps))
                    &&& m.parse_version@ == PARSER_VERSION@
                },
                Err(e) => e == SyncError::InvalidTimestamp,
            }
        },
    }
}

proof fn lemma_device_ns_bound(d: Decimal)
    ensures
        -10_000_000_000_000_000_000_000_000 <= device_ns(d) <= 10_000_000_000_000_000_000_000_000,
{
    lemma_pow10_pos(d.scale as nat);
    lemma_div_within(d.mantissa as int * 1_000_000, pow10(d.scale as nat) as int);
}

proof fn lemma_triples_bounded(s: Seq<DataPacket>)
    ensures
        forall|k: int| 0 <= k < triples(s).len() ==>
            -100_000_000_000_000_000_000_000_000 <= #[trigger] triples(s)[k].round_trip <= 100_000_000_000_000_000_000_000_000,
    decreases s.len(),
{
    if s.len() >= 3 {
        lemma_triples_bounded(s.drop_last());
        lemma_device_ns_bound(s[s.len() - 2].emotibit_timestamp);
        lemma_device_ns_bound(s[s.len() - 3].emotibit_timestamp);
        let prev = triples(s.drop_last());
        match window_triple(s[s.len() - 3], s[s.len() - 2], s[s.len() - 1]) {
            Some(t) => {
                assert(triples(s) == prev.push(t));
                assert forall|k: int| 0 <= k < triples(s).len() implies
                    -100_000_000_000_000_000_000_000_000 <= #[trigger] triples(s)[k].round_trip <= 100_000_000_000_000_000_000_000_000 by {
                    if k < prev.len() {
                        assert(triples(s)[k] == prev[k]);
                    }
                }
            },
            None => {
                assert(triples(s) == prev);
            },
        }
    }
}

/// Index of the candidate of quartile `q` (0 to 3) of the triples: the first
/// with the shortest round trip, or `None` when the quartile is empty.
pub fn quartile_best_index(syncs: &Vec<TimeSync>, q: usize) -> (r: Option<usize>)
    requires
        q < 4,
    ensures
        match quartile_best(syncs@, q as int) {
            Some(i) => r == Some(i as usize) && 0 <= i < syncs@.len(),
            None => r is None,
        },
{
    let c = div_ceil(syncs.len(), 4);
    quartile_candidate(syncs, c, q)
}

/// Indices of the two triples that anchor the map, as `anchor_pair` chooses them.
pub fn select_anchors(syncs: &Vec<TimeSync>) -> (r: Option<(usize, usize)>)
    ensures
        match anchor_pair(syncs@) {
            Some((i, j)) => r == Some((i as usize, j as usize)) && 0 <= i < syncs@.len() && 0 <= j < syncs@.len(),
            None => r is None,
        },
{
    let q0 = quartile_best_index(syncs, 0);
    let q1 = quartile_best_index(syncs, 1);
    let q2 = quartile_best_index(syncs, 2);
    let q3 = quartile_best_index(syncs, 3);
    match (q0, q1, q2, q3) {
        (Some(x), _, _, Some(y)) => Some((x, y)),
        (_, Some(x), _, Some(y)) => Some((x, y)),
        (_, Some(x), Some(y), _) => Some((x, y)),
        (Some(x), Some(y), _, _) => Some((x, y)),
        (_, _, Some(x), Some(y)) => Some((x, y)),
        _ => None,
    }
}

/// Earliest and latest device time of the decoded packets.
fn device_span<E>(packets: &[Result<DataPacket, E>]) -> (r: Option<(i128, i128)>)
    ensures
        match r {
            Some((lo, hi)) => decoded_times(packets@).len() > 0 && lo == seq_min(decoded_times(packets@))
                && hi == seq_max(decoded_times(packets@)),
            None => decoded_times(packets@).len() == 0,
        },
{
    let ghost ps = packets@;
    let mut span: Option<(i128, i128)> = None;
    let mut i: usize = 0;
    while i < packets.len()
        invariant
            i <= ps.len(),
            ps == packets@,
            match span {
                Some((lo, hi)) => decoded_times(ps.subrange(0, i as int)).len() > 0
                    && lo == seq_min(decoded_times(ps.subrange(0, i as int)))
                    && hi == seq_max(decoded_times(ps.subrange(0, i as int))),
                None => decoded_times(ps.subrange(0, i as int)).len() == 0,
            },
        decreases ps.len() - i,
    {
        let ghost pre = ps.subrange(0, i as int + 1);
        assert(pre.drop_last() =~= ps.subrange(0, i as int));
        assert(pre.last() == ps[i as int]);
        if let Ok(p) = &packets[i] {
            let t = device_ns_of(p.emotibit_timestamp);
            let ghost before = decoded_times(ps.subrange(0, i as int));
            assert(decoded_times(pre) == before.push(t as int));
            assert(before.push(t as int).drop_last() =~= before);
            span = match span {
                None => Some((t, t)),
                Some((lo, hi)) => Some((if t < lo { t } else { lo }, if t > hi { t } else { hi })),
            };
        }
        i = i + 1;
    }
    assert(ps.subrange(0, ps.len() as int) =~= ps);
    span
}

/// Builds the clock map from a decoded stream: the span of device times, the
/// handshake triples, the best triple of each quartile, and the two anchors
/// chosen among them.
pub fn generate_sync_map<E>(packets: &[Result<DataPacket, E>]) -> (r: Result<TimeSyncMap, SyncError>)
    ensures
        decoded_times(packets@).len() == 0 ==> r == Err::<TimeSyncMap, SyncError>(SyncError::NoPackets),
        decoded_times(packets@).len() > 0 && sync_packets(packets@).len() < MIN_SYNCS_REQUIRED
            ==> r == Err::<TimeSyncMap, SyncError>(SyncError::NotEnoughSyncData),
        decoded_times(packets@).len() > 0 && sync_packets(packets@).len() >= MIN_SYNCS_REQUIRED
            ==> sync_map_outcome(packets@, triples(sync_packets(packets@)), r),
        r matches Ok(m) ==> m.te0 != m.te1,
{
    let (start, end) = match device_span(packets) {
        Some(span) => span,
        None => return Err(SyncError::NoPackets),
    };
    let syncs = match find_syncs(packets) {
        Ok(v) => v,
        Err(e) => return Err(e),
    };
    let ghost s = syncs@;
    proof {
        lemma_triples_bounded(sync_packets(packets@));
    }
    let n = syncs.len();
    let (i, j) = match select_anchors(&syncs) {
        Some(p) => p,
        None => return Err(SyncError::CannotGenerate),
    };
    let te0 = device_ns_of(syncs[i].ts_received);
    let te1 = device_ns_of(syncs[j].ts_received);
    if te0 == te1 {
        return Err(SyncError::DegenerateAnchors);
    }
    let tl0 = match get_tl_te(&syncs[i]) {
        Ok((tl, _)) => tl,
        Err(e) => return Err(e),
    };
    let tl1 = match get_tl_te(&syncs[j]) {
        Ok((tl, _)) => tl,
        Err(e) => return Err(e),
    };
    Ok(TimeSyncMap {
        te0,
        te1,
        tl0,
        tl1,
        syncs_received: n,
        emotibit_start_time: start,
        emotibit_end_time: end,
        parse_version: PARSER_VERSION.to_owned(),
    })
}

/// The window of `s` that starts at `k`.
pub open spec fn window_at(s: Seq<DataPacket>, k: int) -> Option<TimeSync> {
    window_triple(s[k], s[k + 1], s[k + 2])
}

proof fn lemma_triples_none(s: Seq<DataPacket>)
    requires
        forall|j: int| 0 <= j && j + 3 <= s.len() ==> #[trigger] window_at(s, j) is None,
    ensures
        triples(s) == Seq::<TimeSync>::empty(),
    decreases s.len(),
{
    if s.len() >= 3 {
        let d = s.drop_last();
        assert forall|j: int| 0 <= j && j + 3 <= d.len() implies #[trigger] window_at(d, j) is None by {
            assert(window_at(d, j) == window_at(s, j));
        }
        lemma_triples_none(d);
        assert(window_at(s, s.len() - 3) is None);
    }
}

/// A stream whose handshake packets hold exactly one request, reply and
/// acknowledgement in a row gives exactly one triple, whose round trip is the
/// reply's device time less the request's.
pub proof fn lemma_single_window<E>(ps: Seq<Result<DataPacket, E>>, k: int)
    requires
        0 <= k && k + 3 <= sync_packets(ps).len(),
        window_at(sync_packets(ps), k) is Some,
        forall|j: int| 0 <= j && j + 3 <= sync_packets(ps).len() && j != k
            ==> #[trigger] window_at(sync_packets(ps), j) is None,
    ensures
        triples(sync_packets(ps)).len() == 1,
        triples(sync_packets(ps))[0].round_trip
            == device_ns(sync_packets(ps)[k + 1].emotibit_timestamp) - device_ns(sync_packets(ps)[k].emotibit_timestamp),
{
    let s = sync_packets(ps);
    lemma_single_window_seq(s, k);
    lemma_device_ns_bound(s[k + 1].emotibit_timestamp);
    lemma_device_ns_bound(s[k].emotibit_timestamp);
}

proof fn lemma_single_window_seq(s: Seq<DataPacket>, k: int)
    requires
        0 <= k && k + 3 <= s.len(),
        window_at(s, k) is Some,
        forall|j: int| 0 <= j && j + 3 <= s.len() && j != k ==> #[trigger] window_at(s, j) is None,
    ensures
        triples(s) == seq![window_at(s, k)->Some_0],
    decreases s.len(),
{
    let d = s.drop_last();
    if k + 3 == s.len() {
        assert forall|j: int| 0 <= j && j + 3 <= d.len() implies #[trigger] window_at(d, j) is None by {
            assert(window_at(d, j) == window_at(s, j));
        }
        lemma_triples_none(d);
        assert(triples(s) =~= seq![window_at(s, k)->Some_0]);
    } else {
        assert forall|j: int| 0 <= j && j + 3 <= d.len() && j != k implies #[trigger] window_at(d, j) is None by {
            assert(window_at(d, j) == window_at(s, j));
        }
        assert(window_at(d, k) == window_at(s, k));
        lemma_single_window_seq(d, k);
        assert(window_at(s, s.len() - 3) is None);
    }
}

/// `a / b` rounded down, for `b` of either sign.
pub open spec fn floor_div_spec(a: int, b: int) -> int {
    if b > 0 { a / b } else { (-a) / (-b) }
}

/// Host nanoseconds that the map gives to the device time `t` (nanoseconds):
/// `tl0 + (tl1 - tl0) * (t - te0) / (te1 - te0)`, rounded down.
pub open spec fn projected_ns(m: TimeSyncMap, t: int) -> int {
    m.tl0 + floor_div_spec((m.tl1 - m.tl0) * (t - m.te0), m.te1 - m.te0)
}

/// The map can project the device time `t`: its anchors differ, the product of
/// the two spans fits in 128 bits and the host time in 64.
pub open spec fn projectable(m: TimeSyncMap, t: int) -> bool {
    &&& m.te0 != m.te1
    &&& -0x7fff_ffff_ffff_ffff_ffff_ffff_ffff_ffff <= t - m.te0 <= 0x7fff_ffff_ffff_ffff_ffff_ffff_ffff_ffff
    &&& -0x7fff_ffff_ffff_ffff_ffff_ffff_ffff_ffff <= m.te1 - m.te0 <= 0x7fff_ffff_ffff_ffff_ffff_ffff_ffff_ffff
    &&& -0x7fff_ffff_ffff_ffff_ffff_ffff_ffff_ffff <= (m.tl1 - m.tl0) * (t - m.te0) <= 0x7fff_ffff_ffff_ffff_ffff_ffff_ffff_ffff
    &&& i64::MIN <= projected_ns(m, t) <= i64::MAX
}

/// Host nanoseconds for the device time `t`, or `None` where the map cannot project it.
pub fn project(m: &TimeSyncMap, t: i128) -> (r: Option<i64>)
    ensures
        match r {
            Some(h) => projectable(*m, t as int) && h as int == projected_ns(*m, t as int),
            None => !projectable(*m, t as int),
        },
{
    if m.te0 == m.te1 {
        return None;
    }
    let dt = match t.checked_sub(m.te0) {
        Some(x) => x,
        None => return None,
    };
    let de = match m.te1.checked_sub(m.te0) {
        Some(x) => x,
        None => return None,
    };
    if dt == i128::MIN || de == i128::MIN {
        return None;
    }
    let dh = m.tl1 as i128 - m.tl0 as i128;
    let num = match dh.checked_mul(dt) {
        Some(x) => x,
        None => return None,
    };
    if num == i128::MIN {
        return None;
    }
    let (a, b) = if de > 0 { (num, de) } else { (-num, -de) };
    let q = floor_div(a, b);
    proof {
        lemma_div_within(a as int, b as int);
    }
    let h = match (m.tl0 as i128).checked_add(q) {
        Some(x) => x,
        None => return None,
    };
    if h < -0x8000_0000_0000_0000 || h > 0x7fff_ffff_ffff_ffff {
        return None;
    }
    Some(h as i64)
}

/// Projecting the device time halfway between the anchors gives the host time
/// halfway between them, rounded down when the host anchors are an odd number
/// of nanoseconds apart.
pub proof fn lemma_midpoint_projection(m: TimeSyncMap, t: int)
    requires
        m.te0 != m.te1,
        2 * t == m.te0 + m.te1,
    ensures
        projected_ns(m, t) == m.tl0 + (m.tl1 - m.tl0) / 2,
        (m.tl1 - m.tl0) % 2 == 0 ==> 2 * projected_ns(m, t) == m.tl0 + m.tl1,
{
    let h = m.tl1 - m.tl0;
    let d = t - m.te0;
    let de = m.te1 - m.te0;
    assert(de == 2 * d);
    let e = if de > 0 { d } else { -d };
    let x = if de > 0 { h * d } else { -(h * d) };
    assert(x == h * e) by (nonlinear_arith)
        requires
            e == (if de > 0 { d } else { -d }),
            x == (if de > 0 { h * d } else { -(h * d) }),
    ;
    assert(e > 0);
    vstd::arithmetic::div_mod::lemma_fundamental_div_mod(h, 2);
    let q = h / 2;
    let r = h % 2;
    assert(x == q * (2 * e) + r * e) by (nonlinear_arith)
        requires
            x == h * e,
            h == 2 * q + r,
    ;
    assert(0 <= r * e < 2 * e) by (nonlinear_arith)
        requires
            0 <= r < 2,
            e > 0,
    ;
    vstd::arithmetic::div_mod::lemma_fundamental_div_mod_converse(x, 2 * e, q, r * e);
    assert(floor_div_spec(h * d, de) == x / (2 * e));
}

impl DataPacket {
    /// The packet with its host time set from `map` by linear interpolation.
    pub fn inject_host_timestamp(self, map: &TimeSyncMap) -> (r: DataPacket)
        requires
            projectable(*map, device_ns(self.emotibit_timestamp)),
        ensures
            r.host_timestamp == Some(projected_ns(*map, device_ns(self.emotibit_timestamp)) as i64),
            same_header(r, self),
            r.data_type == self.data_type,
            2 * device_ns(self.emotibit_timestamp) == map.te0 + map.te1
                ==> r.host_timestamp == Some((map.tl0 + (map.tl1 - map.tl0) / 2) as i64),
            2 * device_ns(self.emotibit_timestamp) == map.te0 + map.te1 && (map.tl1 - map.tl0) % 2 == 0
                ==> 2 * (r.host_timestamp->Some_0 as int) == map.tl0 + map.tl1,
    {
        let t = device_ns_of(self.emotibit_timestamp);
        proof {
            if 2 * device_ns(self.emotibit_timestamp) == map.te0 + map.te1 {
                lemma_midpoint_projection(*map, device_ns(self.emotibit_timestamp));
            }
        }
        let h = match project(map, t) {
            Some(h) => h,
            None => 0,
        };
        DataPacket {
            host_timestamp: Some(h),
            emotibit_timestamp: self.emotibit_timestamp,
            packet_id: self.packet_id,
            data_points: self.data_points,
            version: self.version,
            reliability: self.reliability,
            data_type: self.data_type,
        }
    }

    /// The packet with its host time set from `map`, or the packet unchanged in
    /// `Err` where the map cannot project its device time.
    pub fn try_inject_host_timestamp(self, map: &TimeSyncMap) -> (r: Result<DataPacket, DataPacket>)
        ensures
            projectable(*map, device_ns(self.emotibit_timestamp)) ==> (r matches Ok(p)
                && p.host_timestamp == Some(projected_ns(*map, device_ns(self.emotibit_timestamp)) as i64)
                && same_header(p, self) && p.data_type == self.data_type),
            !projectable(*map, device_ns(self.emotibit_timestamp)) ==> r == Err::<DataPacket, DataPacket>(self),
    {
        let t = device_ns_of(self.emotibit_timestamp);
        match project(map, t) {
            Some(_) => Ok(self.inject_host_timestamp(map)),
            None => Err(self),
        }
    }
}

impl TimeSync {
    /// The fields that the triple is written as: the three device times as
    /// written, the host time text, and the round trip in milliseconds.
    pub open spec fn row_spec(self) -> Seq<Seq<char>> {
        seq![
            decimal_text(self.rd),
            decimal_text(self.ts_received),
            self.ts_sent@,
            decimal_text(self.ak),
            fixed_point_text(self.round_trip as int, 6),
        ]
    }

    pub fn row(&self) -> (r: Vec<String>)
        ensures
            crate::text::views(r@) == self.row_spec(),
    {
        let r = vec![
            self.rd.to_text(),
            self.ts_received.to_text(),
            self.ts_sent.clone(),
            self.ak.to_text(),
            fixed_point_to_text(self.round_trip, 6),
        ];
        assert(crate::text::views(r@) =~= self.row_spec());
        r
    }
}

impl Csv for TimeSync {
    open spec fn csv_rows(&self) -> Seq<Seq<Seq<char>>> {
        seq![self.row_spec()]
    }

    fn csv(&self) -> (r: Vec<StringRecord>) {
        let rows = vec![self.row()];
        assert(rows_view(rows@) =~= seq![self.row_spec()]);
        rows_to_records(&rows)
    }
}

impl TimeSyncMap {
    /// The fields that the map is written as: the device anchors and the time
    /// span in milliseconds, the host anchors in seconds, the number of triples
    /// and the decoder version.
    pub open spec fn row_spec(self) -> Seq<Seq<char>> {
        seq![
            fixed_point_text(self.te0 as int, 6),
            fixed_point_text(self.te1 as int, 6),
            fixed_point_text(self.tl0 as int, 9),
            fixed_point_text(self.tl1 as int, 9),
            int_text(self.syncs_received as int),
            fixed_point_text(self.emotibit_start_time as int, 6),
            fixed_point_text(self.emotibit_end_time as int, 6),
            self.parse_version@,
        ]
    }

    pub fn row(&self) -> (r: Vec<String>)
        ensures
            crate::text::views(r@) == self.row_spec(),
    {
        let r = vec![
            fixed_point_to_text(self.te0, 6),
            fixed_point_to_text(self.te1, 6),
            fixed_point_to_text(self.tl0 as i128, 9),
            fixed_point_to_text(self.tl1 as i128, 9),
            fixed_point_to_text(self.syncs_received as i128, 0),
            fixed_point_to_text(self.emotibit_start_time, 6),
            fixed_point_to_text(self.emotibit_end_time, 6),
            self.parse_version.clone(),
        ];
        assert(crate::text::views(r@) =~= self.row_spec());
        r
    }
}

impl Csv for TimeSyncMap {
    open spec fn csv_rows(&self) -> Seq<Seq<Seq<char>>> {
        seq![self.row_spec()]
    }

    fn csv(&self) -> (r: Vec<StringRecord>) {
        let rows = vec![self.row()];
        assert(rows_view(rows@) =~= seq![self.row_spec()]);
        rows_to_records(&rows)
    }
}

} // verus!
