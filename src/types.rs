//! Packets, their payloads, and the reading of a payload from text fields.
use vstd::prelude::*;
use crate::number::{Decimal, decimal_of, decimal_text, parse_decimal, lemma_decimal_text_round_trip};
use crate::record::{comma_joined, join_from};
use crate::text::{
    int_in_range, int_text, int_to_text, parse_int_in_range, text_eq, trim, trimmed, views,
    lemma_int_text_round_trip,
};

verus! {

/// How the payload fields of a record are read.
pub enum PayloadKind {
    /// Each field, trimmed, is a decimal number.
    Decimals,
    /// Each field, trimmed, is an unsigned 32-bit integer.
    Unsigned,
    /// Each field, trimmed, is a signed 32-bit integer.
    Signed,
    /// Each field is kept as it is.
    Texts,
    /// The fields are joined into one text with commas.
    Joined,
}

/// Why a record could not be decoded.
#[derive(Clone, Debug, PartialEq)]
pub enum DecodeError {
    /// The record has fewer than the six header fields.
    MissingColumn,
    /// A field that must hold a number does not.
    InvalidNumber,
    /// The type tag is not one that the decoder knows; it is carried here.
    UnknownType(String),
    /// A host message names a pair of sub-tags that is not recognised.
    InvalidData,
}

pub open spec fn decimals_fit(v: Seq<Decimal>, rest: Seq<Seq<char>>) -> bool {
    v.len() == rest.len() && forall|i: int| 0 <= i < rest.len() ==> decimal_of(trimmed(#[trigger] rest[i])) == Some(v[i])
}

pub open spec fn unsigned_fit(v: Seq<u32>, rest: Seq<Seq<char>>) -> bool {
    v.len() == rest.len() && forall|i: int| 0 <= i < rest.len()
        ==> int_in_range(trimmed(#[trigger] rest[i]), false, 0, u32::MAX as int) == Some(v[i] as int)
}

pub open spec fn signed_fit(v: Seq<i32>, rest: Seq<Seq<char>>) -> bool {
    v.len() == rest.len() && forall|i: int| 0 <= i < rest.len()
        ==> int_in_range(trimmed(#[trigger] rest[i]), true, i32::MIN as int, i32::MAX as int) == Some(v[i] as int)
}

/// Every field in `rest` can be read as `k` asks.
pub open spec fn fields_parse(k: PayloadKind, rest: Seq<Seq<char>>) -> bool {
    match k {
        PayloadKind::Decimals => forall|i: int| 0 <= i < rest.len() ==> decimal_of(trimmed(#[trigger] rest[i])) is Some,
        PayloadKind::Unsigned => forall|i: int| 0 <= i < rest.len()
            ==> int_in_range(trimmed(#[trigger] rest[i]), false, 0, u32::MAX as int) is Some,
        PayloadKind::Signed => forall|i: int| 0 <= i < rest.len()
            ==> int_in_range(trimmed(#[trigger] rest[i]), true, i32::MIN as int, i32::MAX as int) is Some,
        PayloadKind::Texts | PayloadKind::Joined => true,
    }
}

/// The fields of a record from index `from` on (none when it has fewer).
pub open spec fn payload_fields(f: Seq<Seq<char>>, from: int) -> Seq<Seq<char>> {
    if from <= f.len() { f.skip(from) } else { Seq::empty() }
}

/// `r` is what reading the payload fields `rest` under type tag `tag` gives.
pub open spec fn payload_decoded(tag: Seq<char>, rest: Seq<Seq<char>>, r: Result<DataType, DecodeError>) -> bool {
    match tag_kind(tag) {
        None => match r {
            Err(DecodeError::UnknownType(t)) => t@ == tag,
            _ => false,
        },
        Some(k) => if fields_parse(k, rest) {
            match r {
                Ok(dt) => tag_text(dt) == tag && payload_fits(dt, rest),
                Err(_) => false,
            }
        } else {
            r == Err::<DataType, DecodeError>(DecodeError::InvalidNumber)
        },
    }
}

fn parse_decimals(fields: &Vec<String>, from: usize) -> (r: Option<Vec<Decimal>>)
    requires
        from <= fields@.len(),
    ensures
        match r {
            Some(v) => decimals_fit(v@, views(fields@).skip(from as int)),
            None => !fields_parse(PayloadKind::Decimals, views(fields@).skip(from as int)),
        },
{
    let ghost rest = views(fields@).skip(from as int);
    let mut v: Vec<Decimal> = Vec::new();
    let mut i: usize = from;
    while i < fields.len()
        invariant
            from <= i <= fields@.len(),
            rest == views(fields@).skip(from as int),
            v@.len() == i - from,
            forall|j: int| 0 <= j < i - from ==> decimal_of(trimmed(#[trigger] rest[j])) == Some(v@[j]),
        decreases fields@.len() - i,
    {
        assert(rest[i - from] == fields@[i as int]@);
        match parse_decimal(trim(fields[i].as_str())) {
            Some(d) => v.push(d),
            None => return None,
        }
        i = i + 1;
    }
    Some(v)
}

fn parse_unsigned(fields: &Vec<String>, from: usize) -> (r: Option<Vec<u32>>)
    requires
        from <= fields@.len(),
    ensures
        match r {
            Some(v) => unsigned_fit(v@, views(fields@).skip(from as int)),
            None => !fields_parse(PayloadKind::Unsigned, views(fields@).skip(from as int)),
        },
{
    let ghost rest = views(fields@).skip(from as int);
    let mut v: Vec<u32> = Vec::new();
    let mut i: usize = from;
    while i < fields.len()
        invariant
            from <= i <= fields@.len(),
            rest == views(fields@).skip(from as int),
            v@.len() == i - from,
            forall|j: int| 0 <= j < i - from
                ==> int_in_range(trimmed(#[trigger] rest[j]), false, 0, u32::MAX as int) == Some(v@[j] as int),
        decreases fields@.len() - i,
    {
        assert(rest[i - from] == fields@[i as int]@);
        match parse_int_in_range(trim(fields[i].as_str()), false, 0, 0xffff_ffff) {
            Some(x) => v.push(x as u32),
            None => return None,
        }
        i = i + 1;
    }
    Some(v)
}

fn parse_signed(fields: &Vec<String>, from: usize) -> (r: Option<Vec<i32>>)
    requires
        from <= fields@.len(),
    ensures
        match r {
            Some(v) => signed_fit(v@, views(fields@).skip(from as int)),
            None => !fields_parse(PayloadKind::Signed, views(fields@).skip(from as int)),
        },
{
    let ghost rest = views(fields@).skip(from as int);
    let mut v: Vec<i32> = Vec::new();
    let mut i: usize = from;
    while i < fields.len()
        invariant
            from <= i <= fields@.len(),
            rest == views(fields@).skip(from as int),
            v@.len() == i - from,
            forall|j: int| 0 <= j < i - from
                ==> int_in_range(trimmed(#[trigger] rest[j]), true, i32::MIN as int, i32::MAX as int) == Some(v@[j] as int),
        decreases fields@.len() - i,
    {
        assert(rest[i - from] == fields@[i as int]@);
        match parse_int_in_range(trim(fields[i].as_str()), true, -0x8000_0000, 0x7fff_ffff) {
            Some(x) => v.push(x as i32),
            None => return None,
        }
        i = i + 1;
    }
    Some(v)
}

fn texts_from(fields: &Vec<String>, from: usize) -> (r: Vec<String>)
    requires
        from <= fields@.len(),
    ensures
        views(r@) == views(fields@).skip(from as int),
{
    let mut v: Vec<String> = Vec::new();
    let mut i: usize = from;
    while i < fields.len()
        invariant
            from <= i <= fields@.len(),
            views(v@) == views(fields@).subrange(from as int, i as int),
            v@.len() == i - from,
        decreases fields@.len() - i,
    {
        v.push(fields[i].clone());
        assert(views(v@) =~= views(fields@).subrange(from as int, i + 1));
        i = i + 1;
    }
    assert(views(fields@).subrange(from as int, fields@.len() as int) =~= views(fields@).skip(from as int));
    v
}

pub open spec fn decimal_texts(v: Seq<Decimal>) -> Seq<Seq<char>> {
    v.map_values(|x: Decimal| decimal_text(x))
}

pub open spec fn u32_texts(v: Seq<u32>) -> Seq<Seq<char>> {
    v.map_values(|x: u32| int_text(x as int))
}

pub open spec fn i32_texts(v: Seq<i32>) -> Seq<Seq<char>> {
    v.map_values(|x: i32| int_text(x as int))
}

pub open spec fn decimals_read_back(v: Seq<Decimal>) -> bool {
    forall|i: int| 0 <= i < v.len() ==> decimal_of(#[trigger] decimal_texts(v)[i]) == Some(v[i])
}

pub open spec fn u32s_read_back(v: Seq<u32>) -> bool {
    forall|i: int| 0 <= i < v.len() ==> int_in_range(#[trigger] u32_texts(v)[i], false, 0, u32::MAX as int) == Some(v[i] as int)
}

pub open spec fn i32s_read_back(v: Seq<i32>) -> bool {
    forall|i: int| 0 <= i < v.len()
        ==> int_in_range(#[trigger] i32_texts(v)[i], true, i32::MIN as int, i32::MAX as int) == Some(v[i] as int)
}

proof fn lemma_decimals_read_back(v: Seq<Decimal>)
    requires
        forall|i: int| 0 <= i < v.len() ==> (#[trigger] v[i]).wf(),
    ensures
        decimals_read_back(v),
{
    assert forall|i: int| 0 <= i < v.len() implies decimal_of(#[trigger] decimal_texts(v)[i]) == Some(v[i]) by {
        lemma_decimal_text_round_trip(v[i]);
    }
}

proof fn lemma_u32s_read_back(v: Seq<u32>)
    ensures
        u32s_read_back(v),
{
    assert forall|i: int| 0 <= i < v.len()
        implies int_in_range(#[trigger] u32_texts(v)[i], false, 0, u32::MAX as int) == Some(v[i] as int) by {
        lemma_int_text_round_trip(v[i] as int, false, 0, u32::MAX as int);
    }
}

proof fn lemma_i32s_read_back(v: Seq<i32>)
    ensures
        i32s_read_back(v),
{
    assert forall|i: int| 0 <= i < v.len()
        implies int_in_range(#[trigger] i32_texts(v)[i], true, i32::MIN as int, i32::MAX as int) == Some(v[i] as int) by {
        lemma_int_text_round_trip(v[i] as int, true, i32::MIN as int, i32::MAX as int);
    }
}

fn decimals_text(v: &Vec<Decimal>) -> (r: Vec<String>)
    ensures
        views(r@) == decimal_texts(v@),
{
    let mut out: Vec<String> = Vec::new();
    let mut i: usize = 0;
    while i < v.len()
        invariant
            i <= v@.len(),
            views(out@) == decimal_texts(v@.subrange(0, i as int)),
            out@.len() == i,
        decreases v@.len() - i,
    {
        let t = v[i].to_text();
        let ghost before = out@;
        out.push(t);
        assert forall|j: int| 0 <= j < i + 1 implies views(out@)[j] == decimal_texts(v@.subrange(0, i + 1))[j] by {
            if j < i {
                assert(views(out@)[j] == views(before)[j]);
            }
        }
        assert(views(out@) =~= decimal_texts(v@.subrange(0, i + 1)));
        i = i + 1;
    }
    assert(v@.subrange(0, v@.len() as int) =~= v@);
    out
}

fn unsigned_text(v: &Vec<u32>) -> (r: Vec<String>)
    ensures
        views(r@) == u32_texts(v@),
{
    let mut out: Vec<String> = Vec::new();
    let mut i: usize = 0;
    while i < v.len()
        invariant
            i <= v@.len(),
            views(out@) == u32_texts(v@.subrange(0, i as int)),
            out@.len() == i,
        decreases v@.len() - i,
    {
        let t = int_to_text(v[i] as i64);
        let ghost before = out@;
        out.push(t);
        assert forall|j: int| 0 <= j < i + 1 implies views(out@)[j] == u32_texts(v@.subrange(0, i + 1))[j] by {
            if j < i {
                assert(views(out@)[j] == views(before)[j]);
            }
        }
        assert(views(out@) =~= u32_texts(v@.subrange(0, i + 1)));
        i = i + 1;
    }
    assert(v@.subrange(0, v@.len() as int) =~= v@);
    out
}

fn signed_text(v: &Vec<i32>) -> (r: Vec<String>)
    ensures
        views(r@) == i32_texts(v@),
{
    let mut out: Vec<String> = Vec::new();
    let mut i: usize = 0;
    while i < v.len()
        invariant
            i <= v@.len(),
            views(out@) == i32_texts(v@.subrange(0, i as int)),
            out@.len() == i,
        decreases v@.len() - i,
    {
        let t = int_to_text(v[i] as i64);
        let ghost before = out@;
        out.push(t);
        assert forall|j: int| 0 <= j < i + 1 implies views(out@)[j] == i32_texts(v@.subrange(0, i + 1))[j] by {
            if j < i {
                assert(views(out@)[j] == views(before)[j]);
            }
        }
        assert(views(out@) =~= i32_texts(v@.subrange(0, i + 1)));
        i = i + 1;
    }
    assert(v@.subrange(0, v@.len() as int) =~= v@);
    out
}

/// The kind of data that a packet carries, with its payload.
#[derive(Clone, Debug, PartialEq)]
pub enum DataType {
    /// EDA- Electrodermal Activity
    EA(Vec<Decimal>),
    /// EDL- Electrodermal Level
    EL(Vec<Decimal>),
    /// EDR- Electrodermal Response (EmotiBit V4+ combines ER into EA signal)
    ER(Vec<Decimal>),
    /// PPG Infrared
    PI(Vec<u32>),
    /// PPG Red
    PR(Vec<u32>),
    /// PPG Green
    PG(Vec<u32>),
    /// Temperature 0
    T0(Vec<Decimal>),
    /// Temperature 1
    T1(Vec<Decimal>),
    /// Temperature via Medical-grade Thermopile (only on EmotiBit MD)
    TH(Vec<Decimal>),
    /// Accelerometer X
    AX(Vec<Decimal>),
    /// Accelerometer Y
    AY(Vec<Decimal>),
    /// Accelerometer Z
    AZ(Vec<Decimal>),
    /// Gyroscope X
    GX(Vec<Decimal>),
    /// Gyroscope Y
    GY(Vec<Decimal>),
    /// Gyroscope Z
    GZ(Vec<Decimal>),
    /// Magnetometer X
    MX(Vec<i32>),
    /// Magnetometer Y
    MY(Vec<i32>),
    /// Magnetometer Z
    MZ(Vec<i32>),
    /// Battery Voltage
    BV(Vec<Decimal>),
    /// Battery Percentage Remaining (B%)
    BATLV(Vec<u32>),
    /// Acknowledgement of a clock exchange
    AK(Vec<String>),
    /// Request Data, TypeTag in Payload
    RD(Vec<String>),
    /// Host time, sent in reply to a clock exchange request
    TL(String),
    /// Message from the host
    TX(Vec<String>),
    /// Host message carrying a host time and an LSL clock value
    TxTlLc(String, Decimal),
    /// Host message carrying an LSL clock value and an LSL marker value
    TxLcLm(Vec<Decimal>),
    /// Error message
    EM(Vec<String>),
    /// Heart Rate
    HR(Vec<i32>),
    /// Heart Inter-beat Interval
    BI(Vec<i32>),
    /// Skin Conductance Response (SCR) Amplitude
    SA(Vec<Decimal>),
    /// Skin Conductance Response (SCR) Frequency
    SF(Vec<Decimal>),
    /// Skin Conductance Response (SCR) Rise Time
    SR(Vec<Decimal>),
    /// User Note
    UN(Vec<String>),
    /// LSL Marker/message
    LM(String),
    /// Record begin (Include timestamp in Data)
    RB(String),
}

/// How the payload of a record with type tag `tag` is read, or `None` for a tag
/// that is not recognised.
pub open spec fn tag_kind(tag: Seq<char>) -> Option<PayloadKind> {
    if tag == "RB"@ {
        Some(PayloadKind::Joined)
    } else if tag == "AK"@ {
        Some(PayloadKind::Texts)
    } else if tag == "EA"@ {
        Some(PayloadKind::Decimals)
    } else if tag == "EL"@ {
        Some(PayloadKind::Decimals)
    } else if tag == "ER"@ {
        Some(PayloadKind::Decimals)
    } else if tag == "PI"@ {
        Some(PayloadKind::Unsigned)
    } else if tag == "PR"@ {
        Some(PayloadKind::Unsigned)
    } else if tag == "PG"@ {
        Some(PayloadKind::Unsigned)
    } else if tag == "T0"@ {
        Some(PayloadKind::Decimals)
    } else if tag == "T1"@ {
        Some(PayloadKind::Decimals)
    } else if tag == "TH"@ {
        Some(PayloadKind::Decimals)
    } else if tag == "AX"@ {
        Some(PayloadKind::Decimals)
    } else if tag == "AY"@ {
        Some(PayloadKind::Decimals)
    } else if tag == "AZ"@ {
        Some(PayloadKind::Decimals)
    } else if tag == "GX"@ {
        Some(PayloadKind::Decimals)
    } else if tag == "GY"@ {
        Some(PayloadKind::Decimals)
    } else if tag == "GZ"@ {
        Some(PayloadKind::Decimals)
    } else if tag == "MX"@ {
        Some(PayloadKind::Signed)
    } else if tag == "MY"@ {
        Some(PayloadKind::Signed)
    } else if tag == "MZ"@ {
        Some(PayloadKind::Signed)
    } else if tag == "BI"@ {
        Some(PayloadKind::Signed)
    } else if tag == "SA"@ {
        Some(PayloadKind::Decimals)
    } else if tag == "SF"@ {
        Some(PayloadKind::Decimals)
    } else if tag == "SR"@ {
        Some(PayloadKind::Decimals)
    } else if tag == "BV"@ {
        Some(PayloadKind::Decimals)
    } else if tag == "HR"@ {
        Some(PayloadKind::Signed)
    } else if tag == "B%"@ {
        Some(PayloadKind::Unsigned)
    } else if tag == "RD"@ {
        Some(PayloadKind::Texts)
    } else if tag == "UN"@ {
        Some(PayloadKind::Texts)
    } else if tag == "EM"@ {
        Some(PayloadKind::Texts)
    } else if tag == "TL"@ {
        Some(PayloadKind::Joined)
    } else if tag == "TX"@ {
        Some(PayloadKind::Texts)
    } else if tag == "LM"@ {
        Some(PayloadKind::Joined)
    } else {
        None
    }
}

/// The type tag that a payload is written with.
pub open spec fn tag_text(dt: DataType) -> Seq<char> {
    match dt {
        DataType::EA(_) => "EA"@,
        DataType::EL(_) => "EL"@,
        DataType::ER(_) => "ER"@,
        DataType::PI(_) => "PI"@,
        DataType::PR(_) => "PR"@,
        DataType::PG(_) => "PG"@,
        DataType::T0(_) => "T0"@,
        DataType::T1(_) => "T1"@,
        DataType::TH(_) => "TH"@,
        DataType::AX(_) => "AX"@,
        DataType::AY(_) => "AY"@,
        DataType::AZ(_) => "AZ"@,
        DataType::GX(_) => "GX"@,
        DataType::GY(_) => "GY"@,
        DataType::GZ(_) => "GZ"@,
        DataType::MX(_) => "MX"@,
        DataType::MY(_) => "MY"@,
        DataType::MZ(_) => "MZ"@,
        DataType::BV(_) => "BV"@,
        DataType::BATLV(_) => "B%"@,
        DataType::AK(_) => "AK"@,
        DataType::RD(_) => "RD"@,
        DataType::TL(_) => "TL"@,
        DataType::TX(_) => "TX"@,
        DataType::TxTlLc(_, _) => "TX_TL_LC"@,
        DataType::TxLcLm(_) => "TX_LC_LM"@,
        DataType::EM(_) => "EM"@,
        DataType::HR(_) => "HR"@,
        DataType::BI(_) => "BI"@,
        DataType::SA(_) => "SA"@,
        DataType::SF(_) => "SF"@,
        DataType::SR(_) => "SR"@,
        DataType::UN(_) => "UN"@,
        DataType::LM(_) => "LM"@,
        DataType::RB(_) => "RB"@,
    }
}

/// `dt` holds what the payload fields `rest` say, read as its kind asks.
pub open spec fn payload_fits(dt: DataType, rest: Seq<Seq<char>>) -> bool {
    match dt {
        DataType::EA(v) => decimals_fit(v@, rest),
        DataType::EL(v) => decimals_fit(v@, rest),
        DataType::ER(v) => decimals_fit(v@, rest),
        DataType::PI(v) => unsigned_fit(v@, rest),
        DataType::PR(v) => unsigned_fit(v@, rest),
        DataType::PG(v) => unsigned_fit(v@, rest),
        DataType::T0(v) => decimals_fit(v@, rest),
        DataType::T1(v) => decimals_fit(v@, rest),
        DataType::TH(v) => decimals_fit(v@, rest),
        DataType::AX(v) => decimals_fit(v@, rest),
        DataType::AY(v) => decimals_fit(v@, rest),
        DataType::AZ(v) => decimals_fit(v@, rest),
        DataType::GX(v) => decimals_fit(v@, rest),
        DataType::GY(v) => decimals_fit(v@, rest),
        DataType::GZ(v) => decimals_fit(v@, rest),
        DataType::MX(v) => signed_fit(v@, rest),
        DataType::MY(v) => signed_fit(v@, rest),
        DataType::MZ(v) => signed_fit(v@, rest),
        DataType::BV(v) => decimals_fit(v@, rest),
        DataType::BATLV(v) => unsigned_fit(v@, rest),
        DataType::AK(v) => views(v@) == rest,
        DataType::RD(v) => views(v@) == rest,
        DataType::TL(v) => v@ == comma_joined(rest),
        DataType::TX(v) => views(v@) == rest,
        DataType::TxTlLc(_, _) => false,
        DataType::TxLcLm(_) => false,
        DataType::EM(v) => views(v@) == rest,
        DataType::HR(v) => signed_fit(v@, rest),
        DataType::BI(v) => signed_fit(v@, rest),
        DataType::SA(v) => decimals_fit(v@, rest),
        DataType::SF(v) => decimals_fit(v@, rest),
        DataType::SR(v) => decimals_fit(v@, rest),
        DataType::UN(v) => views(v@) == rest,
        DataType::LM(v) => v@ == comma_joined(rest),
        DataType::RB(v) => v@ == comma_joined(rest),
    }
}

/// The payload as text, one entry per value.
pub open spec fn payload_text(dt: DataType) -> Seq<Seq<char>> {
    match dt {
        DataType::EA(v) => decimal_texts(v@),
        DataType::EL(v) => decimal_texts(v@),
        DataType::ER(v) => decimal_texts(v@),
        DataType::PI(v) => u32_texts(v@),
        DataType::PR(v) => u32_texts(v@),
        DataType::PG(v) => u32_texts(v@),
        DataType::T0(v) => decimal_texts(v@),
        DataType::T1(v) => decimal_texts(v@),
        DataType::TH(v) => decimal_texts(v@),
        DataType::AX(v) => decimal_texts(v@),
        DataType::AY(v) => decimal_texts(v@),
        DataType::AZ(v) => decimal_texts(v@),
        DataType::GX(v) => decimal_texts(v@),
        DataType::GY(v) => decimal_texts(v@),
        DataType::GZ(v) => decimal_texts(v@),
        DataType::MX(v) => i32_texts(v@),
        DataType::MY(v) => i32_texts(v@),
        DataType::MZ(v) => i32_texts(v@),
        DataType::BV(v) => decimal_texts(v@),
        DataType::BATLV(v) => u32_texts(v@),
        DataType::AK(v) => views(v@),
        DataType::RD(v) => views(v@),
        DataType::TL(v) => seq![v@],
        DataType::TX(v) => views(v@),
        DataType::TxTlLc(s, x) => seq![s@, decimal_text(x)],
        DataType::TxLcLm(v) => decimal_texts(v@),
        DataType::EM(v) => views(v@),
        DataType::HR(v) => i32_texts(v@),
        DataType::BI(v) => i32_texts(v@),
        DataType::SA(v) => decimal_texts(v@),
        DataType::SF(v) => decimal_texts(v@),
        DataType::SR(v) => decimal_texts(v@),
        DataType::UN(v) => views(v@),
        DataType::LM(v) => seq![v@],
        DataType::RB(v) => seq![v@],
    }
}

impl DataType {
    /// The type tag of this payload.
    pub fn as_str(&self) -> (r: &'static str)
        ensures
            r@ == tag_text(*self),
    {
        match self {
            DataType::EA(_) => "EA",
            DataType::EL(_) => "EL",
            DataType::ER(_) => "ER",
            DataType::PI(_) => "PI",
            DataType::PR(_) => "PR",
            DataType::PG(_) => "PG",
            DataType::T0(_) => "T0",
            DataType::T1(_) => "T1",
            DataType::TH(_) => "TH",
            DataType::AX(_) => "AX",
            DataType::AY(_) => "AY",
            DataType::AZ(_) => "AZ",
            DataType::GX(_) => "GX",
            DataType::GY(_) => "GY",
            DataType::GZ(_) => "GZ",
            DataType::MX(_) => "MX",
            DataType::MY(_) => "MY",
            DataType::MZ(_) => "MZ",
            DataType::BV(_) => "BV",
            DataType::BATLV(_) => "B%",
            DataType::AK(_) => "AK",
            DataType::RD(_) => "RD",
            DataType::TL(_) => "TL",
            DataType::TX(_) => "TX",
            DataType::TxTlLc(_, _) => "TX_TL_LC",
            DataType::TxLcLm(_) => "TX_LC_LM",
            DataType::EM(_) => "EM",
            DataType::HR(_) => "HR",
            DataType::BI(_) => "BI",
            DataType::SA(_) => "SA",
            DataType::SF(_) => "SF",
            DataType::SR(_) => "SR",
            DataType::UN(_) => "UN",
            DataType::LM(_) => "LM",
            DataType::RB(_) => "RB",
        }
    }

    /// The payload as text, one entry per value.
    pub fn payload(&self) -> (r: Vec<String>)
        ensures
            views(r@) == payload_text(*self),
    {
        match self {
            DataType::EA(v) => decimals_text(v),
            DataType::EL(v) => decimals_text(v),
            DataType::ER(v) => decimals_text(v),
            DataType::PI(v) => unsigned_text(v),
            DataType::PR(v) => unsigned_text(v),
            DataType::PG(v) => unsigned_text(v),
            DataType::T0(v) => decimals_text(v),
            DataType::T1(v) => decimals_text(v),
            DataType::TH(v) => decimals_text(v),
            DataType::AX(v) => decimals_text(v),
            DataType::AY(v) => decimals_text(v),
            DataType::AZ(v) => decimals_text(v),
            DataType::GX(v) => decimals_text(v),
            DataType::GY(v) => decimals_text(v),
            DataType::GZ(v) => decimals_text(v),
            DataType::MX(v) => signed_text(v),
            DataType::MY(v) => signed_text(v),
            DataType::MZ(v) => signed_text(v),
            DataType::BV(v) => decimals_text(v),
            DataType::BATLV(v) => unsigned_text(v),
            DataType::AK(v) => v.clone(),
            DataType::RD(v) => v.clone(),
            DataType::TL(v) => vec![v.clone()],
            DataType::TX(v) => v.clone(),
            DataType::TxTlLc(s, x) => vec![s.clone(), x.to_text()],
            DataType::TxLcLm(v) => decimals_text(v),
            DataType::EM(v) => v.clone(),
            DataType::HR(v) => signed_text(v),
            DataType::BI(v) => signed_text(v),
            DataType::SA(v) => decimals_text(v),
            DataType::SF(v) => decimals_text(v),
            DataType::SR(v) => decimals_text(v),
            DataType::UN(v) => v.clone(),
            DataType::LM(v) => vec![v.clone()],
            DataType::RB(v) => vec![v.clone()],
        }
    }
}

/// Reads the payload `fields[offset..]` of a record whose type tag is `tag`.
pub fn get_data_type(fields: &Vec<String>, offset: usize, tag: &str) -> (r: Result<DataType, DecodeError>)
    ensures
        payload_decoded(tag@, payload_fields(views(fields@), offset as int), r),
{
    let from = if offset > fields.len() { fields.len() } else { offset };
    assert(payload_fields(views(fields@), offset as int) =~= views(fields@).skip(from as int));
    if text_eq(tag, "RB") {
        Ok(DataType::RB(join_from(fields, from)))
    } else if text_eq(tag, "AK") {
        Ok(DataType::AK(texts_from(fields, from)))
    } else if text_eq(tag, "EA") {
        match parse_decimals(fields, from) {
            Some(v) => Ok(DataType::EA(v)),
            None => Err(DecodeError::InvalidNumber),
        }
    } else if text_eq(tag, "EL") {
        match parse_decimals(fields, from) {
            Some(v) => Ok(DataType::EL(v)),
            None => Err(DecodeError::InvalidNumber),
        }
    } else if text_eq(tag, "ER") {
        match parse_decimals(fields, from) {
            Some(v) => Ok(DataType::ER(v)),
            None => Err(DecodeError::InvalidNumber),
        }
    } else if text_eq(tag, "PI") {
        match parse_unsigned(fields, from) {
            Some(v) => Ok(DataType::PI(v)),
            None => Err(DecodeError::InvalidNumber),
        }
    } else if text_eq(tag, "PR") {
        match parse_unsigned(fields, from) {
            Some(v) => Ok(DataType::PR(v)),
            None => Err(DecodeError::InvalidNumber),
        }
    } else if text_eq(tag, "PG") {
        match parse_unsigned(fields, from) {
            Some(v) => Ok(DataType::PG(v)),
            None => Err(DecodeError::InvalidNumber),
        }
    } else if text_eq(tag, "T0") {
        match parse_decimals(fields, from) {
            Some(v) => Ok(DataType::T0(v)),
            None => Err(DecodeError::InvalidNumber),
        }
    } else if text_eq(tag, "T1") {
        match parse_decimals(fields, from) {
            Some(v) => Ok(DataType::T1(v)),
            None => Err(DecodeError::InvalidNumber),
        }
    } else if text_eq(tag, "TH") {
        match parse_decimals(fields, from) {
            Some(v) => Ok(DataType::TH(v)),
            None => Err(DecodeError::InvalidNumber),
        }
    } else if text_eq(tag, "AX") {
        match parse_decimals(fields, from) {
            Some(v) => Ok(DataType::AX(v)),
            None => Err(DecodeError::InvalidNumber),
        }
    } else if text_eq(tag, "AY") {
        match parse_decimals(fields, from) {
            Some(v) => Ok(DataType::AY(v)),
            None => Err(DecodeError::InvalidNumber),
        }
    } else if text_eq(tag, "AZ") {
        match parse_decimals(fields, from) {
            Some(v) => Ok(DataType::AZ(v)),
            None => Err(DecodeError::InvalidNumber),
        }
    } else if text_eq(tag, "GX") {
        match parse_decimals(fields, from) {
            Some(v) => Ok(DataType::GX(v)),
            None => Err(DecodeError::InvalidNumber),
        }
    } else if text_eq(tag, "GY") {
        match parse_decimals(fields, from) {
            Some(v) => Ok(DataType::GY(v)),
            None => Err(DecodeError::InvalidNumber),
        }
    } else if text_eq(tag, "GZ") {
        match parse_decimals(fields, from) {
            Some(v) => Ok(DataType::GZ(v)),
            None => Err(DecodeError::InvalidNumber),
        }
    } else if text_eq(tag, "MX") {
        match parse_signed(fields, from) {
            Some(v) => Ok(DataType::MX(v)),
            None => Err(DecodeError::InvalidNumber),
        }
    } else if text_eq(tag, "MY") {
        match parse_signed(fields, from) {
            Some(v) => Ok(DataType::MY(v)),
            None => Err(DecodeError::InvalidNumber),
        }
    } else if text_eq(tag, "MZ") {
        match parse_signed(fields, from) {
            Some(v) => Ok(DataType::MZ(v)),
            None => Err(DecodeError::InvalidNumber),
        }
    } else if text_eq(tag, "BI") {
        match parse_signed(fields, from) {
            Some(v) => Ok(DataType::BI(v)),
            None => Err(DecodeError::InvalidNumber),
        }
    } else if text_eq(tag, "SA") {
        match parse_decimals(fields, from) {
            Some(v) => Ok(DataType::SA(v)),
            None => Err(DecodeError::InvalidNumber),
        }
    } else if text_eq(tag, "SF") {
        match parse_decimals(fields, from) {
            Some(v) => Ok(DataType::SF(v)),
            None => Err(DecodeError::InvalidNumber),
        }
    } else if text_eq(tag, "SR") {
        match parse_decimals(fields, from) {
            Some(v) => Ok(DataType::SR(v)),
            None => Err(DecodeError::InvalidNumber),
        }
    } else if text_eq(tag, "BV") {
        match parse_decimals(fields, from) {
            Some(v) => Ok(DataType::BV(v)),
            None => Err(DecodeError::InvalidNumber),
        }
    } else if text_eq(tag, "HR") {
        match parse_signed(fields, from) {
            Some(v) => Ok(DataType::HR(v)),
            None => Err(DecodeError::InvalidNumber),
        }
    } else if text_eq(tag, "B%") {
        match parse_unsigned(fields, from) {
            Some(v) => Ok(DataType::BATLV(v)),
            None => Err(DecodeError::InvalidNumber),
        }
    } else if text_eq(tag, "RD") {
        Ok(DataType::RD(texts_from(fields, from)))
    } else if text_eq(tag, "UN") {
        Ok(DataType::UN(texts_from(fields, from)))
    } else if text_eq(tag, "EM") {
        Ok(DataType::EM(texts_from(fields, from)))
    } else if text_eq(tag, "TL") {
        Ok(DataType::TL(join_from(fields, from)))
    } else if text_eq(tag, "TX") {
        Ok(DataType::TX(texts_from(fields, from)))
    } else if text_eq(tag, "LM") {
        Ok(DataType::LM(join_from(fields, from)))
    } else {
        Err(DecodeError::UnknownType(tag.to_owned()))
    }
}

/// Every decimal of the payload keeps at most `MAX_SCALE` digits after the point.
pub open spec fn payload_wf(dt: DataType) -> bool {
    match dt {
        DataType::EA(v) => forall|i: int| 0 <= i < v@.len() ==> (#[trigger] v@[i]).wf(),
        DataType::EL(v) => forall|i: int| 0 <= i < v@.len() ==> (#[trigger] v@[i]).wf(),
        DataType::ER(v) => forall|i: int| 0 <= i < v@.len() ==> (#[trigger] v@[i]).wf(),
        DataType::PI(v) => true,
        DataType::PR(v) => true,
        DataType::PG(v) => true,
        DataType::T0(v) => forall|i: int| 0 <= i < v@.len() ==> (#[trigger] v@[i]).wf(),
        DataType::T1(v) => forall|i: int| 0 <= i < v@.len() ==> (#[trigger] v@[i]).wf(),
        DataType::TH(v) => forall|i: int| 0 <= i < v@.len() ==> (#[trigger] v@[i]).wf(),
        DataType::AX(v) => forall|i: int| 0 <= i < v@.len() ==> (#[trigger] v@[i]).wf(),
        DataType::AY(v) => forall|i: int| 0 <= i < v@.len() ==> (#[trigger] v@[i]).wf(),
        DataType::AZ(v) => forall|i: int| 0 <= i < v@.len() ==> (#[trigger] v@[i]).wf(),
        DataType::GX(v) => forall|i: int| 0 <= i < v@.len() ==> (#[trigger] v@[i]).wf(),
        DataType::GY(v) => forall|i: int| 0 <= i < v@.len() ==> (#[trigger] v@[i]).wf(),
        DataType::GZ(v) => forall|i: int| 0 <= i < v@.len() ==> (#[trigger] v@[i]).wf(),
        DataType::MX(v) => true,
        DataType::MY(v) => true,
        DataType::MZ(v) => true,
        DataType::BV(v) => forall|i: int| 0 <= i < v@.len() ==> (#[trigger] v@[i]).wf(),
        DataType::BATLV(v) => true,
        DataType::AK(_) => true,
        DataType::RD(_) => true,
        DataType::TL(_) => true,
        DataType::TX(_) => true,
        DataType::TxTlLc(_, x) => x.wf(),
        DataType::TxLcLm(v) => forall|i: int| 0 <= i < v@.len() ==> (#[trigger] v@[i]).wf(),
        DataType::EM(_) => true,
        DataType::HR(v) => true,
        DataType::BI(v) => true,
        DataType::SA(v) => forall|i: int| 0 <= i < v@.len() ==> (#[trigger] v@[i]).wf(),
        DataType::SF(v) => forall|i: int| 0 <= i < v@.len() ==> (#[trigger] v@[i]).wf(),
        DataType::SR(v) => forall|i: int| 0 <= i < v@.len() ==> (#[trigger] v@[i]).wf(),
        DataType::UN(_) => true,
        DataType::LM(_) => true,
        DataType::RB(_) => true,
    }
}

/// Each number of the payload, written as `payload` writes it, reads back as itself.
pub open spec fn payload_reads_back(dt: DataType) -> bool {
    match dt {
        DataType::EA(v) => decimals_read_back(v@),
        DataType::EL(v) => decimals_read_back(v@),
        DataType::ER(v) => decimals_read_back(v@),
        DataType::PI(v) => u32s_read_back(v@),
        DataType::PR(v) => u32s_read_back(v@),
        DataType::PG(v) => u32s_read_back(v@),
        DataType::T0(v) => decimals_read_back(v@),
        DataType::T1(v) => decimals_read_back(v@),
        DataType::TH(v) => decimals_read_back(v@),
        DataType::AX(v) => decimals_read_back(v@),
        DataType::AY(v) => decimals_read_back(v@),
        DataType::AZ(v) => decimals_read_back(v@),
        DataType::GX(v) => decimals_read_back(v@),
        DataType::GY(v) => decimals_read_back(v@),
        DataType::GZ(v) => decimals_read_back(v@),
        DataType::MX(v) => i32s_read_back(v@),
        DataType::MY(v) => i32s_read_back(v@),
        DataType::MZ(v) => i32s_read_back(v@),
        DataType::BV(v) => decimals_read_back(v@),
        DataType::BATLV(v) => u32s_read_back(v@),
        DataType::AK(_) => true,
        DataType::RD(_) => true,
        DataType::TL(_) => true,
        DataType::TX(_) => true,
        DataType::TxTlLc(_, x) => decimal_of(decimal_text(x)) == Some(x),
        DataType::TxLcLm(v) => decimals_read_back(v@),
        DataType::EM(_) => true,
        DataType::HR(v) => i32s_read_back(v@),
        DataType::BI(v) => i32s_read_back(v@),
        DataType::SA(v) => decimals_read_back(v@),
        DataType::SF(v) => decimals_read_back(v@),
        DataType::SR(v) => decimals_read_back(v@),
        DataType::UN(_) => true,
        DataType::LM(_) => true,
        DataType::RB(_) => true,
    }
}

/// Every number that a payload holds reads back from its text as the same number.
pub proof fn lemma_payload_reads_back(dt: DataType)
    requires
        payload_wf(dt),
    ensures
        payload_reads_back(dt),
{
    match dt {
        DataType::EA(v) => lemma_decimals_read_back(v@),
        DataType::EL(v) => lemma_decimals_read_back(v@),
        DataType::ER(v) => lemma_decimals_read_back(v@),
        DataType::PI(v) => lemma_u32s_read_back(v@),
        DataType::PR(v) => lemma_u32s_read_back(v@),
        DataType::PG(v) => lemma_u32s_read_back(v@),
        DataType::T0(v) => lemma_decimals_read_back(v@),
        DataType::T1(v) => lemma_decimals_read_back(v@),
        DataType::TH(v) => lemma_decimals_read_back(v@),
        DataType::AX(v) => lemma_decimals_read_back(v@),
        DataType::AY(v) => lemma_decimals_read_back(v@),
        DataType::AZ(v) => lemma_decimals_read_back(v@),
        DataType::GX(v) => lemma_decimals_read_back(v@),
        DataType::GY(v) => lemma_decimals_read_back(v@),
        DataType::GZ(v) => lemma_decimals_read_back(v@),
        DataType::MX(v) => lemma_i32s_read_back(v@),
        DataType::MY(v) => lemma_i32s_read_back(v@),
        DataType::MZ(v) => lemma_i32s_read_back(v@),
        DataType::BV(v) => lemma_decimals_read_back(v@),
        DataType::BATLV(v) => lemma_u32s_read_back(v@),
        DataType::AK(_) => {},
        DataType::RD(_) => {},
        DataType::TL(_) => {},
        DataType::TX(_) => {},
        DataType::TxTlLc(_, x) => lemma_decimal_text_round_trip(x),
        DataType::TxLcLm(v) => lemma_decimals_read_back(v@),
        DataType::EM(_) => {},
        DataType::HR(v) => lemma_i32s_read_back(v@),
        DataType::BI(v) => lemma_i32s_read_back(v@),
        DataType::SA(v) => lemma_decimals_read_back(v@),
        DataType::SF(v) => lemma_decimals_read_back(v@),
        DataType::SR(v) => lemma_decimals_read_back(v@),
        DataType::UN(_) => {},
        DataType::LM(_) => {},
        DataType::RB(_) => {},
    }
}

/// What the type tags hold, character by character.
pub proof fn reveal_tags()
    ensures
        "EA"@ == seq!['E', 'A'],
        "EL"@ == seq!['E', 'L'],
        "ER"@ == seq!['E', 'R'],
        "PI"@ == seq!['P', 'I'],
        "PR"@ == seq!['P', 'R'],
        "PG"@ == seq!['P', 'G'],
        "T0"@ == seq!['T', '0'],
        "T1"@ == seq!['T', '1'],
        "TH"@ == seq!['T', 'H'],
        "AX"@ == seq!['A', 'X'],
        "AY"@ == seq!['A', 'Y'],
        "AZ"@ == seq!['A', 'Z'],
        "GX"@ == seq!['G', 'X'],
        "GY"@ == seq!['G', 'Y'],
        "GZ"@ == seq!['G', 'Z'],
        "MX"@ == seq!['M', 'X'],
        "MY"@ == seq!['M', 'Y'],
        "MZ"@ == seq!['M', 'Z'],
        "BV"@ == seq!['B', 'V'],
        "B%"@ == seq!['B', '%'],
        "AK"@ == seq!['A', 'K'],
        "RD"@ == seq!['R', 'D'],
        "TL"@ == seq!['T', 'L'],
        "TX"@ == seq!['T', 'X'],
        "TX_TL_LC"@ == seq!['T', 'X', '_', 'T', 'L', '_', 'L', 'C'],
        "TX_LC_LM"@ == seq!['T', 'X', '_', 'L', 'C', '_', 'L', 'M'],
        "EM"@ == seq!['E', 'M'],
        "HR"@ == seq!['H', 'R'],
        "BI"@ == seq!['B', 'I'],
        "SA"@ == seq!['S', 'A'],
        "SF"@ == seq!['S', 'F'],
        "SR"@ == seq!['S', 'R'],
        "UN"@ == seq!['U', 'N'],
        "LM"@ == seq!['L', 'M'],
        "RB"@ == seq!['R', 'B'],
        "LC"@ == seq!['L', 'C'],
{
    reveal_strlit("EA");
    reveal_strlit("EL");
    reveal_strlit("ER");
    reveal_strlit("PI");
    reveal_strlit("PR");
    reveal_strlit("PG");
    reveal_strlit("T0");
    reveal_strlit("T1");
    reveal_strlit("TH");
    reveal_strlit("AX");
    reveal_strlit("AY");
    reveal_strlit("AZ");
    reveal_strlit("GX");
    reveal_strlit("GY");
    reveal_strlit("GZ");
    reveal_strlit("MX");
    reveal_strlit("MY");
    reveal_strlit("MZ");
    reveal_strlit("BV");
    reveal_strlit("B%");
    reveal_strlit("AK");
    reveal_strlit("RD");
    reveal_strlit("TL");
    reveal_strlit("TX");
    reveal_strlit("TX_TL_LC");
    reveal_strlit("TX_LC_LM");
    reveal_strlit("EM");
    reveal_strlit("HR");
    reveal_strlit("BI");
    reveal_strlit("SA");
    reveal_strlit("SF");
    reveal_strlit("SR");
    reveal_strlit("UN");
    reveal_strlit("LM");
    reveal_strlit("RB");
    reveal_strlit("LC");
}

} // verus!
