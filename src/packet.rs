//! Decoding of one record into a `DataPacket`, the refinement of host
//! messages, and the rows that a packet is written out as.
use vstd::prelude::*;
use csv::StringRecord;
use crate::number::{Decimal, decimal_of, decimal_text, parse_decimal, lemma_decimal_text_round_trip};
use crate::record::{Csv, comma_joined, join_from, record_fields, record_to_fields, rows_to_records, rows_view};
use crate::text::{
    int_in_range, int_text, int_to_text, parse_int_in_range, scaled_text, scaled_to_string,
    split_commas, comma_fields, text_eq, views, trimmed, lemma_trimmed_unchanged,
    lemma_int_text_round_trip, lemma_scaled_text_ends,
};
use crate::types::{
    DataType, DecodeError, PayloadKind, get_data_type, payload_decoded, payload_text, tag_text, tag_kind,
    decimals_fit, unsigned_fit, signed_fit, decimal_texts, u32_texts, i32_texts,
};

verus! {

/// Fields of a record before its payload: device time, packet number, number
/// of data points, type tag, protocol version and reliability.
pub const HEADER_FIELDS: usize = 6;

/// One decoded EmotiBit record.
#[derive(Clone, Debug, PartialEq)]
pub struct DataPacket {
    /// Host time of the packet in nanoseconds since the Unix epoch, once projected.
    pub host_timestamp: Option<i64>,
    /// Milliseconds since the EmotiBit started, as written in the record.
    pub emotibit_timestamp: Decimal,
    /// Packet count since the EmotiBit started.
    pub packet_id: u32,
    /// Number of data points that the device says the payload holds.
    pub data_points: u8,
    /// Version of the packet protocol.
    pub version: u8,
    /// Data reliability score out of 100.
    pub reliability: u8,
    /// Type of data and its payload.
    pub data_type: DataType,
}

/// The header fields of `f` can all be read.
pub open spec fn header_ok(f: Seq<Seq<char>>) -> bool {
    &&& f.len() >= HEADER_FIELDS
    &&& decimal_of(f[0]) is Some
    &&& int_in_range(f[1], false, 0, u32::MAX as int) is Some
    &&& int_in_range(f[2], false, 0, u8::MAX as int) is Some
    &&& int_in_range(f[4], false, 0, u8::MAX as int) is Some
    &&& int_in_range(f[5], false, 0, u8::MAX as int) is Some
}

/// The header of `p` is what the fields `f` say.
pub open spec fn header_fits(p: DataPacket, f: Seq<Seq<char>>) -> bool {
    &&& f.len() >= HEADER_FIELDS
    &&& decimal_of(f[0]) == Some(p.emotibit_timestamp)
    &&& int_in_range(f[1], false, 0, u32::MAX as int) == Some(p.packet_id as int)
    &&& int_in_range(f[2], false, 0, u8::MAX as int) == Some(p.data_points as int)
    &&& int_in_range(f[4], false, 0, u8::MAX as int) == Some(p.version as int)
    &&& int_in_range(f[5], false, 0, u8::MAX as int) == Some(p.reliability as int)
}

/// `r` is what reading the record `f` gives, before host messages are refined.
pub open spec fn record_parsed(f: Seq<Seq<char>>, r: Result<DataPacket, DecodeError>) -> bool {
    if f.len() < HEADER_FIELDS {
        r == Err::<DataPacket, DecodeError>(DecodeError::MissingColumn)
    } else if !header_ok(f) {
        r == Err::<DataPacket, DecodeError>(DecodeError::InvalidNumber)
    } else {
        match r {
            Ok(p) => header_fits(p, f) && p.host_timestamp is None
                && payload_decoded(f[3], f.skip(HEADER_FIELDS as int), Ok(p.data_type)),
            Err(e) => payload_decoded(f[3], f.skip(HEADER_FIELDS as int), Err(e)),
        }
    }
}

pub open spec fn same_header(p: DataPacket, x: DataPacket) -> bool {
    &&& p.emotibit_timestamp == x.emotibit_timestamp
    &&& p.packet_id == x.packet_id
    &&& p.data_points == x.data_points
    &&& p.version == x.version
    &&& p.reliability == x.reliability
}

pub open spec fn is_lc_lm(dt: DataType, a: Decimal, b: Decimal) -> bool {
    match dt {
        DataType::TxLcLm(v) => v@ == seq![a, b],
        _ => false,
    }
}

pub open spec fn is_tl_lc(dt: DataType, s: Seq<char>, b: Decimal) -> bool {
    match dt {
        DataType::TxTlLc(t, x) => t@ == s && x == b,
        _ => false,
    }
}

/// `r` is the refinement of a host message with the payload `d` (at least four
/// entries: sub-tag, value, sub-tag, value), where `header` says what the
/// header of the refined packet must be.
pub open spec fn tx_outcome(
    d: Seq<Seq<char>>,
    header: spec_fn(DataPacket) -> bool,
    r: Result<DataPacket, DecodeError>,
) -> bool {
    if d[0] == "LC"@ && d[2] == "LM"@ {
        match (decimal_of(d[1]), decimal_of(d[3])) {
            (Some(a), Some(b)) => match r {
                Ok(p) => header(p) && p.host_timestamp is None && is_lc_lm(p.data_type, a, b),
                Err(_) => false,
            },
            _ => r == Err::<DataPacket, DecodeError>(DecodeError::InvalidNumber),
        }
    } else if d[0] == "TL"@ && d[2] == "LC"@ {
        match decimal_of(d[3]) {
            Some(b) => match r {
                Ok(p) => header(p) && p.host_timestamp is None && is_tl_lc(p.data_type, d[1], b),
                Err(_) => false,
            },
            None => r == Err::<DataPacket, DecodeError>(DecodeError::InvalidNumber),
        }
    } else {
        r == Err::<DataPacket, DecodeError>(DecodeError::InvalidData)
    }
}

/// `r` is `x` with a host message of four or more entries refined.
pub open spec fn tx_refined(x: DataPacket, r: Result<DataPacket, DecodeError>) -> bool {
    match x.data_type {
        DataType::TX(d) => if d@.len() >= 4 {
            tx_outcome(views(d@), |p: DataPacket| same_header(p, x), r)
        } else {
            r == Ok::<DataPacket, DecodeError>(x)
        },
        _ => r == Ok::<DataPacket, DecodeError>(x),
    }
}

/// `r` is what decoding the record `f` gives: read, and a host message with four
/// or more payload entries refined.
pub open spec fn record_decoded(f: Seq<Seq<char>>, r: Result<DataPacket, DecodeError>) -> bool {
    if header_ok(f) && f[3] == "TX"@ && f.len() >= HEADER_FIELDS + 4 {
        tx_outcome(f.skip(HEADER_FIELDS as int), |p: DataPacket| header_fits(p, f), r)
    } else {
        record_parsed(f, r)
    }
}

fn parse_u8(s: &str) -> (r: Option<u8>)
    ensures
        match int_in_range(s@, false, 0, u8::MAX as int) {
            Some(v) => r == Some(v as u8),
            None => r is None,
        },
{
    match parse_int_in_range(s, false, 0, 0xff) {
        Some(v) => Some(v as u8),
        None => None,
    }
}

impl DataPacket {
    /// Reads a record given as its fields; host messages are left as they are.
    pub fn from_fields(fields: &Vec<String>) -> (r: Result<DataPacket, DecodeError>)
        ensures
            record_parsed(views(fields@), r),
    {
        if fields.len() < HEADER_FIELDS {
            return Err(DecodeError::MissingColumn);
        }
        let ghost f = views(fields@);
        assert(f[0] == fields@[0]@ && f[1] == fields@[1]@ && f[2] == fields@[2]@);
        assert(f[3] == fields@[3]@ && f[4] == fields@[4]@ && f[5] == fields@[5]@);
        let timestamp = parse_decimal(fields[0].as_str());
        let packet_id = parse_int_in_range(fields[1].as_str(), false, 0, 0xffff_ffff);
        let data_points = parse_u8(fields[2].as_str());
        let version = parse_u8(fields[4].as_str());
        let reliability = parse_u8(fields[5].as_str());
        match (timestamp, packet_id, data_points, version, reliability) {
            (Some(t), Some(id), Some(n), Some(v), Some(rel)) => {
                match get_data_type(fields, HEADER_FIELDS, fields[3].as_str()) {
                    Ok(data_type) => Ok(DataPacket {
                        host_timestamp: None,
                        emotibit_timestamp: t,
                        packet_id: id as u32,
                        data_points: n,
                        version: v,
                        reliability: rel,
                        data_type,
                    }),
                    Err(e) => Err(e),
                }
            },
            _ => Err(DecodeError::InvalidNumber),
        }
    }

    /// Reads a csv record; host messages are left as they are.
    pub fn try_from_record(r: &StringRecord) -> (res: Result<DataPacket, DecodeError>)
        ensures
            record_parsed(record_fields(*r), res),
    {
        let fields = record_to_fields(r);
        DataPacket::from_fields(&fields)
    }

    /// Reads one line of comma-separated fields; host messages are left as they are.
    pub fn try_from_text(line: &str) -> (r: Result<DataPacket, DecodeError>)
        ensures
            record_parsed(comma_fields(line@), r),
    {
        let fields = split_commas(line);
        DataPacket::from_fields(&fields)
    }
}

/// Refines a host message of four or more entries, whose sub-tags at entries
/// one and three say how: `LC`,`LM` gives two numbers, `TL`,`LC` a text and a
/// number, any other pair is rejected. Every other packet is returned as it is.
pub fn split_tx_or_as_is(x: DataPacket) -> (r: Result<DataPacket, DecodeError>)
    ensures
        tx_refined(x, r),
{
    let refined = match &x.data_type {
        DataType::TX(data) => {
            if data.len() < 4 {
                None
            } else {
                let ghost d = views(data@);
                assert(d[0] == data@[0]@ && d[1] == data@[1]@ && d[2] == data@[2]@ && d[3] == data@[3]@);
                let tag1 = data[0].as_str();
                let tag2 = data[2].as_str();
                if text_eq(tag1, "LC") && text_eq(tag2, "LM") {
                    match (parse_decimal(data[1].as_str()), parse_decimal(data[3].as_str())) {
                        (Some(a), Some(b)) => Some(Ok(DataType::TxLcLm(vec![a, b]))),
                        _ => Some(Err(DecodeError::InvalidNumber)),
                    }
                } else if text_eq(tag1, "TL") && text_eq(tag2, "LC") {
                    match parse_decimal(data[3].as_str()) {
                        Some(b) => Some(Ok(DataType::TxTlLc(data[1].clone(), b))),
                        None => Some(Err(DecodeError::InvalidNumber)),
                    }
                } else {
                    Some(Err(DecodeError::InvalidData))
                }
            }
        },
        _ => None,
    };
    match refined {
        None => Ok(x),
        Some(Err(e)) => Err(e),
        Some(Ok(data_type)) => Ok(DataPacket {
            host_timestamp: None,
            emotibit_timestamp: x.emotibit_timestamp,
            packet_id: x.packet_id,
            data_points: x.data_points,
            version: x.version,
            reliability: x.reliability,
            data_type,
        }),
    }
}

/// Decodes one record given as its fields: reads it, then refines a host message.
pub fn decode_packet(fields: &Vec<String>) -> (r: Result<DataPacket, DecodeError>)
    ensures
        record_decoded(views(fields@), r),
{
    match DataPacket::from_fields(fields) {
        Ok(p) => {
            let ghost f = views(fields@);
            proof {
                if header_ok(f) && f[3] == "TX"@ && f.len() >= HEADER_FIELDS + 4 {
                    lemma_tx_fields(f, p);
                }
            }
            let r = split_tx_or_as_is(p);
            proof {
                if !(header_ok(f) && f[3] == "TX"@ && f.len() >= HEADER_FIELDS + 4) {
                    lemma_not_refined(f, p, r);
                } else {
                    let h1 = |q: DataPacket| same_header(q, p);
                    let h2 = |q: DataPacket| header_fits(q, f);
                    lemma_tx_outcome_header(f.skip(HEADER_FIELDS as int), h1, h2, r);
                }
            }
            r
        },
        Err(e) => {
            proof {
                crate::types::reveal_tags();
            }
            Err(e)
        },
    }
}

proof fn lemma_tx_outcome_header(
    d: Seq<Seq<char>>,
    h1: spec_fn(DataPacket) -> bool,
    h2: spec_fn(DataPacket) -> bool,
    r: Result<DataPacket, DecodeError>,
)
    requires
        tx_outcome(d, h1, r),
        forall|q: DataPacket| #[trigger] h1(q) ==> h2(q),
    ensures
        tx_outcome(d, h2, r),
{
}

/// A record read with type tag `TX` holds its payload fields as they are.
proof fn lemma_tx_fields(f: Seq<Seq<char>>, p: DataPacket)
    requires
        header_ok(f),
        f[3] == "TX"@,
        header_fits(p, f),
        payload_decoded(f[3], f.skip(HEADER_FIELDS as int), Ok(p.data_type)),
    ensures
        p.data_type matches DataType::TX(d) && views(d@) == f.skip(HEADER_FIELDS as int),
{
    crate::types::reveal_tags();
}

proof fn lemma_not_refined(f: Seq<Seq<char>>, p: DataPacket, r: Result<DataPacket, DecodeError>)
    requires
        record_parsed(f, Ok(p)),
        tx_refined(p, r),
        !(header_ok(f) && f[3] == "TX"@ && f.len() >= HEADER_FIELDS + 4),
    ensures
        r == Ok::<DataPacket, DecodeError>(p),
{
    crate::types::reveal_tags();
}

/// A record that could not be decoded, and why.
#[derive(Clone, Debug, PartialEq)]
pub struct RecordError {
    pub error: DecodeError,
    /// The fields of the record.
    pub record: Vec<String>,
}

/// `r` is what decoding the record `f` gives, with the record kept beside an error.
pub open spec fn record_result(f: Seq<Seq<char>>, r: Result<DataPacket, RecordError>) -> bool {
    match r {
        Ok(p) => record_decoded(f, Ok(p)),
        Err(e) => record_decoded(f, Err(e.error)) && views(e.record@) == f,
    }
}

fn copy_fields(v: &Vec<String>) -> (r: Vec<String>)
    ensures
        views(r@) == views(v@),
{
    let mut out: Vec<String> = Vec::new();
    let mut i: usize = 0;
    while i < v.len()
        invariant
            i <= v@.len(),
            out@.len() == i,
            views(out@) == views(v@).subrange(0, i as int),
        decreases v@.len() - i,
    {
        out.push(v[i].clone());
        assert(views(out@) =~= views(v@).subrange(0, i + 1));
        i = i + 1;
    }
    assert(views(v@).subrange(0, v@.len() as int) =~= views(v@));
    out
}

/// Decodes every record, in order: one result per record, each error with its record.
pub fn decode_records(records: &Vec<Vec<String>>) -> (r: Vec<Result<DataPacket, RecordError>>)
    ensures
        r@.len() == records@.len(),
        forall|i: int| 0 <= i < records@.len() ==> record_result(views(#[trigger] records@[i]@), r@[i]),
{
    let mut out: Vec<Result<DataPacket, RecordError>> = Vec::new();
    let mut i: usize = 0;
    while i < records.len()
        invariant
            i <= records@.len(),
            out@.len() == i,
            forall|j: int| 0 <= j < i ==> record_result(views(#[trigger] records@[j]@), out@[j]),
        decreases records@.len() - i,
    {
        let res = match decode_packet(&records[i]) {
            Ok(p) => Ok(p),
            Err(error) => Err(RecordError { error, record: copy_fields(&records[i]) }),
        };
        out.push(res);
        i = i + 1;
    }
    out
}

/// How a host time is written: seconds since the Unix epoch with nine decimals,
/// or `NaN` when there is none.
pub open spec fn host_time_text(h: Option<i64>) -> Seq<char> {
    match h {
        Some(n) => scaled_text(n < 0, (if n < 0 { -n } else { n as int }) as nat, 9),
        None => "NaN"@,
    }
}

/// The first two entries of `v`, or all of them when there are fewer.
pub open spec fn first_two(v: Seq<Seq<char>>) -> Seq<Seq<char>> {
    if v.len() >= 2 { v.subrange(0, 2) } else { v }
}

/// The payload entries that each get a row: the values one by one, or, for a
/// refined host message, its first two values joined with a comma.
pub open spec fn row_items(dt: DataType) -> Seq<Seq<char>> {
    match dt {
        DataType::TxLcLm(_) | DataType::TxTlLc(_, _) => seq![comma_joined(first_two(payload_text(dt)))],
        _ => payload_text(dt),
    }
}

/// The row of `p` for one payload entry.
pub open spec fn packet_row(p: DataPacket, item: Seq<char>) -> Seq<Seq<char>> {
    seq![
        host_time_text(p.host_timestamp),
        decimal_text(p.emotibit_timestamp),
        int_text(p.packet_id as int),
        int_text(p.data_points as int),
        tag_text(p.data_type),
        int_text(p.version as int),
        int_text(p.reliability as int),
        item,
    ]
}

/// The rows that a packet is written as: one per payload entry.
pub open spec fn packet_rows(p: DataPacket) -> Seq<Seq<Seq<char>>> {
    row_items(p.data_type).map_values(|item: Seq<char>| packet_row(p, item))
}

fn host_time_to_text(h: Option<i64>) -> (r: String)
    ensures
        r@ == host_time_text(h),
{
    match h {
        Some(n) => {
            let m = n as i128;
            let mag: u128 = if m < 0 { (-m) as u128 } else { m as u128 };
            scaled_to_string(m < 0, mag, 9)
        },
        None => "NaN".to_owned(),
    }
}

/// The payload entries of `dt` that each get a row.
fn parse_data_type(data_type: &DataType, payload: Vec<String>) -> (r: Vec<String>)
    requires
        views(payload@) == payload_text(*data_type),
    ensures
        views(r@) == row_items(*data_type),
{
    match data_type {
        DataType::TxLcLm(_) | DataType::TxTlLc(_, _) => {
            let pair = if payload.len() >= 2 {
                let two = vec![payload[0].clone(), payload[1].clone()];
                assert(views(two@) =~= views(payload@).subrange(0, 2));
                two
            } else {
                payload
            };
            let joined = join_from(&pair, 0);
            assert(views(pair@).skip(0) =~= views(pair@));
            let r = vec![joined];
            assert(views(r@) =~= seq![joined@]);
            r
        },
        _ => payload,
    }
}

impl DataPacket {
    /// The rows of text fields that the packet is written as.
    pub fn rows(&self) -> (r: Vec<Vec<String>>)
        ensures
            rows_view(r@) == packet_rows(*self),
    {
        let items = parse_data_type(&self.data_type, self.data_type.payload());
        let mut out: Vec<Vec<String>> = Vec::new();
        let mut i: usize = 0;
        let ghost want = packet_rows(*self);
        while i < items.len()
            invariant
                i <= items@.len(),
                views(items@) == row_items(self.data_type),
                want == packet_rows(*self),
                out@.len() == i,
                rows_view(out@) == want.subrange(0, i as int),
            decreases items@.len() - i,
        {
            let mut row: Vec<String> = Vec::new();
            row.push(host_time_to_text(self.host_timestamp));
            row.push(self.emotibit_timestamp.to_text());
            row.push(int_to_text(self.packet_id as i64));
            row.push(int_to_text(self.data_points as i64));
            row.push(self.data_type.as_str().to_owned());
            row.push(int_to_text(self.version as i64));
            row.push(int_to_text(self.reliability as i64));
            row.push(items[i].clone());
            assert(views(row@) =~= packet_row(*self, views(items@)[i as int]));
            let ghost before = out@;
            out.push(row);
            assert forall|j: int| 0 <= j < i + 1 implies rows_view(out@)[j] == want.subrange(0, i + 1)[j] by {
                if j < i {
                    assert(rows_view(out@)[j] == rows_view(before)[j]);
                }
            }
            assert(rows_view(out@) =~= want.subrange(0, i + 1));
            i = i + 1;
        }
        assert(want.subrange(0, items@.len() as int) =~= want);
        out
    }
}

impl Csv for DataPacket {
    open spec fn csv_rows(&self) -> Seq<Seq<Seq<char>>> {
        packet_rows(*self)
    }

    fn csv(&self) -> (r: Vec<StringRecord>) {
        rows_to_records(&self.rows())
    }
}

/// `a` and `b` read as the same number of kind `k`.
pub open spec fn same_number(k: PayloadKind, a: Seq<char>, b: Seq<char>) -> bool {
    match k {
        PayloadKind::Decimals => decimal_of(trimmed(a)) == decimal_of(trimmed(b)),
        PayloadKind::Unsigned => int_in_range(trimmed(a), false, 0, u32::MAX as int)
            == int_in_range(trimmed(b), false, 0, u32::MAX as int),
        PayloadKind::Signed => int_in_range(trimmed(a), true, i32::MIN as int, i32::MAX as int)
            == int_in_range(trimmed(b), true, i32::MIN as int, i32::MAX as int),
        PayloadKind::Texts | PayloadKind::Joined => a == b,
    }
}

pub open spec fn is_numeric(k: PayloadKind) -> bool {
    k is Decimals || k is Unsigned || k is Signed
}

proof fn lemma_decimals_round_trip(v: Seq<Decimal>, rest: Seq<Seq<char>>)
    requires
        decimals_fit(v, rest),
    ensures
        decimal_texts(v).len() == rest.len(),
        forall|i: int| 0 <= i < rest.len()
            ==> same_number(PayloadKind::Decimals, #[trigger] decimal_texts(v)[i], rest[i]),
{
    assert forall|i: int| 0 <= i < rest.len()
        implies same_number(PayloadKind::Decimals, #[trigger] decimal_texts(v)[i], rest[i]) by {
        let d = v[i];
        assert(decimal_of(trimmed(rest[i])) == Some(d));
        assert(d.wf());
        let m = d.mantissa;
        lemma_scaled_text_ends(m < 0, (if m < 0 { -m } else { m as int }) as nat, d.scale as nat);
        lemma_trimmed_unchanged(decimal_text(d));
        lemma_decimal_text_round_trip(d);
    }
}

proof fn lemma_unsigned_round_trip(v: Seq<u32>, rest: Seq<Seq<char>>)
    requires
        unsigned_fit(v, rest),
    ensures
        u32_texts(v).len() == rest.len(),
        forall|i: int| 0 <= i < rest.len()
            ==> same_number(PayloadKind::Unsigned, #[trigger] u32_texts(v)[i], rest[i]),
{
    assert forall|i: int| 0 <= i < rest.len()
        implies same_number(PayloadKind::Unsigned, #[trigger] u32_texts(v)[i], rest[i]) by {
        let x = v[i] as int;
        lemma_scaled_text_ends(false, x as nat, 0);
        lemma_trimmed_unchanged(int_text(x));
        lemma_int_text_round_trip(x, false, 0, u32::MAX as int);
    }
}

proof fn lemma_signed_round_trip(v: Seq<i32>, rest: Seq<Seq<char>>)
    requires
        signed_fit(v, rest),
    ensures
        i32_texts(v).len() == rest.len(),
        forall|i: int| 0 <= i < rest.len()
            ==> same_number(PayloadKind::Signed, #[trigger] i32_texts(v)[i], rest[i]),
{
    assert forall|i: int| 0 <= i < rest.len()
        implies same_number(PayloadKind::Signed, #[trigger] i32_texts(v)[i], rest[i]) by {
        let x = v[i] as int;
        lemma_scaled_text_ends(x < 0, (if x < 0 { -x } else { x }) as nat, 0);
        lemma_trimmed_unchanged(int_text(x));
        lemma_int_text_round_trip(x, true, i32::MIN as int, i32::MAX as int);
    }
}

/// Decoding a record with a numeric payload and writing the packet out as rows
/// gives one row per payload field, whose last field reads back as the same
/// number as the payload field that it came from.
pub proof fn lemma_numeric_payload_round_trip(f: Seq<Seq<char>>, p: DataPacket)
    requires
        record_parsed(f, Ok(p)),
        tag_kind(f[3]) matches Some(k) && is_numeric(k),
    ensures
        packet_rows(p).len() == f.len() - HEADER_FIELDS,
        forall|i: int| 0 <= i < packet_rows(p).len() ==> same_number(
            tag_kind(f[3])->Some_0,
            #[trigger] packet_rows(p)[i][7],
            f[HEADER_FIELDS + i],
        ),
{
    let rest = f.skip(HEADER_FIELDS as int);
    crate::types::reveal_tags();
    match p.data_type {
        DataType::EA(v) => lemma_decimals_round_trip(v@, rest),
        DataType::EL(v) => lemma_decimals_round_trip(v@, rest),
        DataType::ER(v) => lemma_decimals_round_trip(v@, rest),
        DataType::PI(v) => lemma_unsigned_round_trip(v@, rest),
        DataType::PR(v) => lemma_unsigned_round_trip(v@, rest),
        DataType::PG(v) => lemma_unsigned_round_trip(v@, rest),
        DataType::T0(v) => lemma_decimals_round_trip(v@, rest),
        DataType::T1(v) => lemma_decimals_round_trip(v@, rest),
        DataType::TH(v) => lemma_decimals_round_trip(v@, rest),
        DataType::AX(v) => lemma_decimals_round_trip(v@, rest),
        DataType::AY(v) => lemma_decimals_round_trip(v@, rest),
        DataType::AZ(v) => lemma_decimals_round_trip(v@, rest),
        DataType::GX(v) => lemma_decimals_round_trip(v@, rest),
        DataType::GY(v) => lemma_decimals_round_trip(v@, rest),
        DataType::GZ(v) => lemma_decimals_round_trip(v@, rest),
        DataType::MX(v) => lemma_signed_round_trip(v@, rest),
        DataType::MY(v) => lemma_signed_round_trip(v@, rest),
        DataType::MZ(v) => lemma_signed_round_trip(v@, rest),
        DataType::BV(v) => lemma_decimals_round_trip(v@, rest),
        DataType::BATLV(v) => lemma_unsigned_round_trip(v@, rest),
        DataType::AK(_) => {},
        DataType::RD(_) => {},
        DataType::TL(_) => {},
        DataType::TX(_) => {},
        DataType::TxTlLc(_, _) => {},
        DataType::TxLcLm(_) => {},
        DataType::EM(_) => {},
        DataType::HR(v) => lemma_signed_round_trip(v@, rest),
        DataType::BI(v) => lemma_signed_round_trip(v@, rest),
        DataType::SA(v) => lemma_decimals_round_trip(v@, rest),
        DataType::SF(v) => lemma_decimals_round_trip(v@, rest),
        DataType::SR(v) => lemma_decimals_round_trip(v@, rest),
        DataType::UN(_) => {},
        DataType::LM(_) => {},
        DataType::RB(_) => {},
    }
    assert(row_items(p.data_type) == payload_text(p.data_type));
    assert forall|i: int| 0 <= i < packet_rows(p).len() implies same_number(
        tag_kind(f[3])->Some_0,
        #[trigger] packet_rows(p)[i][7],
        f[HEADER_FIELDS + i],
    ) by {
        assert(packet_rows(p)[i] == packet_row(p, row_items(p.data_type)[i]));
        assert(rest[i] == f[HEADER_FIELDS + i]);
    }
}

} // verus!
