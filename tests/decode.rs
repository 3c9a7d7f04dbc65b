use emotibit_data::number::{parse_decimal, Decimal};
use emotibit_data::packet::{decode_packet, decode_records, split_tx_or_as_is, RecordError};
use emotibit_data::record::{fields_to_record, record_to_fields};
use emotibit_data::types::get_data_type;
use emotibit_data::{Csv, DataPacket, DataType, DecodeError};

fn fields(line: &str) -> Vec<String> {
    line.split(',').map(|s| s.to_string()).collect()
}

fn dec(mantissa: i64, scale: u32) -> Decimal {
    Decimal { mantissa, scale }
}

#[test]
fn string_to_data() {
    let input = "1126349,49106,10,PI,1,100,156593,156471,156372,156300,156205,156136,156130,156103,156051,156103";
    let packet: DataPacket = DataPacket::try_from_text(input).unwrap();
    assert_eq!(packet.packet_id, 49106);
    assert_eq!(packet.data_points, 10);
}

#[test]
fn header_fields_are_read() {
    let p = DataPacket::try_from_text("1126349.5,7,3,HR,1,100,61,-62,63").unwrap();
    assert_eq!(p.host_timestamp, None);
    assert_eq!(p.emotibit_timestamp, dec(11263495, 1));
    assert_eq!(p.packet_id, 7);
    assert_eq!(p.data_points, 3);
    assert_eq!(p.version, 1);
    assert_eq!(p.reliability, 100);
    assert_eq!(p.data_type, DataType::HR(vec![61, -62, 63]));
}

#[test]
fn decimal_payload_is_trimmed_and_exact() {
    let p = DataPacket::try_from_text("10,1,3,EA,1,100, 0.5,1.250 ,-3").unwrap();
    assert_eq!(p.data_type, DataType::EA(vec![dec(5, 1), dec(1250, 3), dec(-3, 0)]));
}

#[test]
fn numeric_payload_round_trips_through_rows() {
    let p = DataPacket::try_from_text("10,1,3,EA,1,100, 0.5,1.250 ,-3").unwrap();
    let rows = p.rows();
    assert_eq!(rows.len(), 3);
    let originals = ["0.5", "1.250", "-3"];
    for (row, original) in rows.iter().zip(originals.iter()) {
        assert_eq!(row.len(), 8);
        assert_eq!(parse_decimal(row[7].as_str()), parse_decimal(original));
    }
    let q = DataPacket::try_from_text("10,1,2,PI,1,100,+17,4294967295").unwrap();
    let rows = q.rows();
    assert_eq!(rows[0][7], "17");
    assert_eq!(rows[1][7], "4294967295");
}

#[test]
fn packet_rows_start_with_header() {
    let p = DataPacket::try_from_text("1126349,49106,2,PG,1,100,5,6").unwrap();
    let rows = p.rows();
    assert_eq!(rows.len(), 2);
    assert_eq!(rows[0], vec!["NaN", "1126349", "49106", "2", "PG", "1", "100", "5"]);
    assert_eq!(rows[1][7], "6");
    let records = p.csv();
    assert_eq!(records.len(), 2);
    assert_eq!(record_to_fields(&records[1]), vec!["NaN", "1126349", "49106", "2", "PG", "1", "100", "6"]);
}

#[test]
fn battery_tag_and_text_payloads() {
    let p = DataPacket::try_from_text("1,2,1,B%,1,100,87").unwrap();
    assert_eq!(p.data_type, DataType::BATLV(vec![87]));
    assert_eq!(p.data_type.as_str(), "B%");
    let u = DataPacket::try_from_text("1,2,2,UN,1,100,hello, world").unwrap();
    assert_eq!(u.data_type, DataType::UN(vec!["hello".to_string(), " world".to_string()]));
    let empty = DataPacket::try_from_text("1,2,0,RD,1,100").unwrap();
    assert_eq!(empty.data_type, DataType::RD(vec![]));
}

#[test]
fn joined_payload_keeps_commas() {
    let p = DataPacket::try_from_text("1,2,3,RB,1,100,2023-05-01,10:00,file.csv").unwrap();
    assert_eq!(p.data_type, DataType::RB("2023-05-01,10:00,file.csv".to_string()));
    assert_eq!(p.data_type.payload(), vec!["2023-05-01,10:00,file.csv".to_string()]);
    let lm = DataPacket::try_from_text("1,2,0,LM,1,100").unwrap();
    assert_eq!(lm.data_type, DataType::LM(String::new()));
}

#[test]
fn missing_column_is_rejected() {
    assert_eq!(DataPacket::try_from_text("1,2,3,EA,1"), Err(DecodeError::MissingColumn));
    assert_eq!(DataPacket::from_fields(&vec![]), Err(DecodeError::MissingColumn));
}

#[test]
fn bad_numbers_are_rejected() {
    assert_eq!(DataPacket::try_from_text("x,2,3,EA,1,100,1"), Err(DecodeError::InvalidNumber));
    assert_eq!(DataPacket::try_from_text("1,2,256,EA,1,100,1"), Err(DecodeError::InvalidNumber));
    assert_eq!(DataPacket::try_from_text("1,2,3,EA,1,100,1,abc"), Err(DecodeError::InvalidNumber));
    assert_eq!(DataPacket::try_from_text("1,2,3,PI,1,100,-1"), Err(DecodeError::InvalidNumber));
    assert_eq!(DataPacket::try_from_text("1,2,3,PI,1,100,4294967296"), Err(DecodeError::InvalidNumber));
    assert_eq!(DataPacket::try_from_text("1,2,3,MX,1,100,2147483648"), Err(DecodeError::InvalidNumber));
    assert_eq!(DataPacket::try_from_text("1,2,3,AX,1,100,1..2"), Err(DecodeError::InvalidNumber));
}

#[test]
fn unknown_tag_is_carried() {
    assert_eq!(
        DataPacket::try_from_text("1,2,3,ZZ,1,100,1"),
        Err(DecodeError::UnknownType("ZZ".to_string()))
    );
}

#[test]
fn record_and_text_decode_alike() {
    let line = "1126349,49106,3,MZ,1,100,-4,5,6";
    let record = fields_to_record(&fields(line));
    assert_eq!(record_to_fields(&record), fields(line));
    assert_eq!(DataPacket::try_from_record(&record), DataPacket::try_from_text(line));
    assert_eq!(record.csv().len(), 1);
}

#[test]
fn tx_lc_lm_is_refined() {
    let p = decode_packet(&fields("5,6,4,TX,1,100,LC,1.5,LM,2")).unwrap();
    assert_eq!(p.data_type, DataType::TxLcLm(vec![dec(15, 1), dec(2, 0)]));
    assert_eq!(p.data_type.as_str(), "TX_LC_LM");
    assert_eq!(p.host_timestamp, None);
    assert_eq!(p.packet_id, 6);
    assert_eq!(p.rows()[0][7], "1.5,2");
}

#[test]
fn tx_tl_lc_is_refined() {
    let p = decode_packet(&fields("5,6,4,TX,1,100,TL,2023-05-01_10-00-00-1234,LC,3.25")).unwrap();
    assert_eq!(
        p.data_type,
        DataType::TxTlLc("2023-05-01_10-00-00-1234".to_string(), dec(325, 2))
    );
    assert_eq!(p.rows()[0][7], "2023-05-01_10-00-00-1234,3.25");
}

#[test]
fn tx_other_pair_is_rejected() {
    assert_eq!(decode_packet(&fields("5,6,4,TX,1,100,LM,1,LC,2")), Err(DecodeError::InvalidData));
    assert_eq!(decode_packet(&fields("5,6,4,TX,1,100,LC,x,LM,2")), Err(DecodeError::InvalidNumber));
}

#[test]
fn short_tx_is_kept() {
    let p = decode_packet(&fields("5,6,3,TX,1,100,LC,1.5,LM")).unwrap();
    assert_eq!(
        p.data_type,
        DataType::TX(vec!["LC".to_string(), "1.5".to_string(), "LM".to_string()])
    );
    let q = DataPacket::try_from_text("5,6,3,TX,1,100,LC,1.5,LM").unwrap();
    assert_eq!(split_tx_or_as_is(q.clone()), Ok(q));
}

#[test]
fn records_decode_one_by_one() {
    let records = vec![
        fields("1,1,1,HR,1,100,70"),
        fields("bad"),
        fields("5,6,4,TX,1,100,XX,1,YY,2"),
        fields("2,2,1,HR,1,100,71"),
    ];
    let out = decode_records(&records);
    assert_eq!(out.len(), 4);
    assert_eq!(out[0].as_ref().unwrap().data_type, DataType::HR(vec![70]));
    assert_eq!(
        out[1],
        Err(RecordError { error: DecodeError::MissingColumn, record: vec!["bad".to_string()] })
    );
    assert_eq!(out[2].as_ref().unwrap_err().error, DecodeError::InvalidData);
    assert_eq!(out[2].as_ref().unwrap_err().record, fields("5,6,4,TX,1,100,XX,1,YY,2"));
    assert_eq!(out[3].as_ref().unwrap().data_type, DataType::HR(vec![71]));
}

#[test]
fn decimal_text_is_exact() {
    assert_eq!(dec(-5, 3).to_text(), "-0.005");
    assert_eq!(dec(150, 2).to_text(), "1.50");
    assert_eq!(dec(42, 0).to_text(), "42");
    assert_eq!(dec(i64::MIN, 0).to_text(), "-9223372036854775808");
    assert_eq!(parse_decimal(".5"), Some(dec(5, 1)));
    assert_eq!(parse_decimal("+7."), Some(dec(7, 0)));
    assert_eq!(parse_decimal("."), None);
    assert_eq!(parse_decimal("9223372036854775808"), None);
}

#[test]
fn refined_row_writes_first_two_values() {
    let p = DataPacket {
        host_timestamp: None,
        emotibit_timestamp: dec(5, 0),
        packet_id: 6,
        data_points: 3,
        version: 1,
        reliability: 100,
        data_type: DataType::TxLcLm(vec![dec(15, 1), dec(2, 0), dec(9, 0)]),
    };
    let rows = p.rows();
    assert_eq!(rows.len(), 1);
    assert_eq!(rows[0][7], "1.5,2");
}

#[test]
fn payload_values_read_back() {
    let ea = DataType::EA(vec![dec(-5, 3), dec(1250, 3), dec(7, 0)]);
    let texts = ea.payload();
    assert_eq!(texts, vec!["-0.005", "1.250", "7"]);
    for (t, d) in texts.iter().zip([dec(-5, 3), dec(1250, 3), dec(7, 0)].iter()) {
        assert_eq!(parse_decimal(t), Some(*d));
    }
    let mx = DataType::MX(vec![i32::MIN, 0, i32::MAX]);
    let texts = mx.payload();
    assert_eq!(texts, vec!["-2147483648", "0", "2147483647"]);
    for (t, v) in texts.iter().zip([i32::MIN, 0, i32::MAX].iter()) {
        assert_eq!(t.parse::<i32>().unwrap(), *v);
    }
    let pi = DataType::PI(vec![u32::MAX]);
    assert_eq!(pi.payload()[0].parse::<u32>().unwrap(), u32::MAX);
}

#[test]
fn payload_offset_past_the_end_is_empty() {
    assert_eq!(get_data_type(&fields("1,2"), 6, "HR"), Ok(DataType::HR(vec![])));
}

#[test]
fn exponent_form_is_read() {
    assert_eq!(parse_decimal("1e-5"), Some(dec(1, 5)));
    assert_eq!(parse_decimal("1.5E3"), Some(dec(1500, 0)));
    assert_eq!(parse_decimal("-2.5e+1"), Some(dec(-25, 0)));
    assert_eq!(parse_decimal("1.25e1"), Some(dec(125, 1)));
    assert_eq!(parse_decimal("0e30"), Some(dec(0, 0)));
    assert_eq!(parse_decimal("1e19"), None);
    assert_eq!(parse_decimal("1e-19"), None);
    assert_eq!(parse_decimal("1e"), None);
    assert_eq!(parse_decimal("e5"), None);
    assert_eq!(parse_decimal("1e2e3"), None);
    let p = DataPacket::try_from_text("10,1,1,EA,1,100, 1e-5 ").unwrap();
    assert_eq!(p.data_type, DataType::EA(vec![dec(1, 5)]));
    assert_eq!(p.rows()[0][7], "0.00001");
}
