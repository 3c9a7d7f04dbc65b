use chrono::{NaiveDate, TimeZone};
use emotibit_data::number::Decimal;
use emotibit_data::packet::{decode_packet, decode_records};
use emotibit_data::parser::{
    device_ns_of, find_syncs, generate_sync_map, get_tl_te, host_time_from, quartile_best_index,
    select_anchors, PARSER_VERSION,
};
use emotibit_data::record::record_to_fields;
use emotibit_data::{Csv, DataPacket, DataType, DecodeError, SyncError, TimeSync, TimeSyncMap};

fn packet(line: &str) -> Result<DataPacket, DecodeError> {
    let fields: Vec<String> = line.split(',').map(|s| s.to_string()).collect();
    decode_packet(&fields)
}

fn dec(mantissa: i64, scale: u32) -> Decimal {
    Decimal { mantissa, scale }
}

fn local_epoch(y: i32, mo: u32, d: u32, h: u32, mi: u32, s: u32) -> i64 {
    let naive = NaiveDate::from_ymd_opt(y, mo, d).unwrap().and_hms_opt(h, mi, s).unwrap();
    chrono::Local.from_local_datetime(&naive).unwrap().timestamp()
}

fn sync_with(rt_ms: i64, received_ms: i64, sent: &str) -> TimeSync {
    TimeSync {
        rd: dec(received_ms - rt_ms, 0),
        ts_received: dec(received_ms, 0),
        ts_sent: sent.to_string(),
        ak: dec(received_ms + 1, 0),
        round_trip: rt_ms as i128 * 1_000_000,
    }
}

#[test]
fn one_window_gives_one_triple() {
    let packets = vec![
        packet("1000,1,1,HR,1,100,70"),
        packet("1010,2,1,RD,1,100,TL"),
        packet("1030.5,3,1,TL,1,100,2023-05-01_10-00-00-1234"),
        packet("1031,4,1,AK,1,100,TL"),
        packet("x"),
    ];
    let syncs = find_syncs(&packets).unwrap();
    assert_eq!(syncs.len(), 1);
    assert_eq!(syncs[0].rd, dec(1010, 0));
    assert_eq!(syncs[0].ts_received, dec(10305, 1));
    assert_eq!(syncs[0].ak, dec(1031, 0));
    assert_eq!(syncs[0].ts_sent, "2023-05-01_10-00-00-1234");
    assert_eq!(syncs[0].round_trip, 20_500_000);
    let rows = syncs[0].csv();
    assert_eq!(
        record_to_fields(&rows[0]),
        vec!["1010", "1030.5", "2023-05-01_10-00-00-1234", "1031", "20.500000"]
    );
}

#[test]
fn misordered_windows_are_skipped() {
    let packets = vec![
        packet("1,1,1,TL,1,100,2023-05-01_10-00-00-1"),
        packet("2,2,1,RD,1,100,TL"),
        packet("3,3,1,AK,1,100,TL"),
        packet("4,4,1,RD,1,100,TL"),
    ];
    assert_eq!(find_syncs(&packets).unwrap(), vec![]);
}

#[test]
fn too_few_sync_packets() {
    let packets = vec![
        packet("1,1,1,RD,1,100,TL"),
        packet("2,2,1,HR,1,100,60"),
        packet("3,3,1,TL,1,100,2023-05-01_10-00-00-1"),
    ];
    assert_eq!(find_syncs(&packets), Err(SyncError::NotEnoughSyncData));
    assert_eq!(generate_sync_map(&packets), Err(SyncError::NotEnoughSyncData));
}

#[test]
fn no_packets_no_map() {
    let packets = vec![packet("bad"), packet("1,2,3")];
    assert_eq!(generate_sync_map(&packets), Err(SyncError::NoPackets));
    assert_eq!(generate_sync_map::<DecodeError>(&[]), Err(SyncError::NoPackets));
}

#[test]
fn quartile_minimums_and_anchor_pair() {
    let syncs: Vec<TimeSync> = [1, 5, 2, 6, 3, 7, 4, 8]
        .iter()
        .enumerate()
        .map(|(k, rt)| sync_with(*rt, 1000 * (k as i64 + 1), "2023-05-01_10-00-00-1"))
        .collect();
    let best: Vec<Option<usize>> = (0..4).map(|q| quartile_best_index(&syncs, q)).collect();
    assert_eq!(best, vec![Some(0), Some(2), Some(4), Some(6)]);
    let minimums: Vec<i128> = best.iter().map(|i| syncs[i.unwrap()].round_trip / 1_000_000).collect();
    assert_eq!(minimums, vec![1, 2, 3, 4]);
    assert_eq!(select_anchors(&syncs), Some((0, 6)));
}

#[test]
fn quartile_ties_keep_the_first() {
    let syncs: Vec<TimeSync> = [3, 3, 3, 3]
        .iter()
        .enumerate()
        .map(|(k, rt)| sync_with(*rt, 1000 * (k as i64 + 1), "2023-05-01_10-00-00-1"))
        .collect();
    assert_eq!(quartile_best_index(&syncs, 0), Some(0));
    assert_eq!(select_anchors(&syncs), Some((0, 3)));
}

#[test]
fn anchor_pair_falls_back() {
    let five: Vec<TimeSync> = (0..5).map(|k| sync_with(2, 1000 * (k + 1), "2023-05-01_10-00-00-1")).collect();
    assert_eq!(quartile_best_index(&five, 3), None);
    assert_eq!(select_anchors(&five), Some((2, 4)));
    let two: Vec<TimeSync> = (0..2).map(|k| sync_with(2, 1000 * (k + 1), "2023-05-01_10-00-00-1")).collect();
    assert_eq!(select_anchors(&two), Some((0, 1)));
    let one = vec![sync_with(2, 1000, "2023-05-01_10-00-00-1")];
    assert_eq!(select_anchors(&one), None);
    assert_eq!(select_anchors(&vec![]), None);
}

#[test]
fn host_anchor_from_text() {
    let epoch = local_epoch(2023, 5, 1, 10, 0, 0);
    let sync = sync_with(20, 5000, "2023-05-01_10-00-00-1234");
    let expected = epoch * 1_000_000_000 + 123_400_000 + 10_000_000;
    assert_eq!(host_time_from(epoch, &sync), Some(expected));
    assert_eq!(get_tl_te(&sync), Ok((expected, 5_000_000_000)));
    let long = sync_with(20, 5000, "2023-05-01_10-00-00-1234567890123");
    assert_eq!(host_time_from(epoch, &long), Some(epoch * 1_000_000_000 + 123_456_789 + 10_000_000));
}

#[test]
fn host_anchor_text_errors() {
    let underscore = sync_with(20, 5000, "2023-05-01_10-00-00_1234");
    assert_eq!(get_tl_te(&underscore), Err(SyncError::InvalidTimestamp));
    let no_dash = sync_with(20, 5000, "20230501");
    assert_eq!(get_tl_te(&no_dash), Err(SyncError::InvalidTimestamp));
    assert_eq!(host_time_from(0, &no_dash), None);
    let bad_date = sync_with(20, 5000, "2023-13-01_10-00-00-1234");
    assert_eq!(get_tl_te(&bad_date), Err(SyncError::InvalidTimestamp));
}

fn handshake(t: i64, id: u32, sent: &str, rt: i64) -> Vec<Result<DataPacket, DecodeError>> {
    vec![
        packet(&format!("{},{},1,RD,1,100,TL", t - rt, id)),
        packet(&format!("{},{},1,TL,1,100,{}", t, id + 1, sent)),
        packet(&format!("{},{},1,AK,1,100,TL", t + 1, id + 2)),
    ]
}

#[test]
fn sync_map_is_built() {
    let mut packets = vec![packet("500,1,1,HR,1,100,70")];
    packets.extend(handshake(1000, 2, "2023-05-01_10-00-00-5", 20));
    packets.extend(handshake(61000, 5, "2023-05-01_10-01-00-5", 40));
    packets.push(packet("70000,9,1,HR,1,100,71"));
    let map = generate_sync_map(&packets).unwrap();
    let epoch0 = local_epoch(2023, 5, 1, 10, 0, 0);
    let epoch1 = local_epoch(2023, 5, 1, 10, 1, 0);
    assert_eq!(map.te0, 1_000_000_000);
    assert_eq!(map.te1, 61_000_000_000);
    assert_eq!(map.tl0, epoch0 * 1_000_000_000 + 500_000_000 + 10_000_000);
    assert_eq!(map.tl1, epoch1 * 1_000_000_000 + 500_000_000 + 20_000_000);
    assert_eq!(map.syncs_received, 2);
    assert_eq!(map.emotibit_start_time, 500_000_000);
    assert_eq!(map.emotibit_end_time, 70_000_000_000);
    assert_eq!(map.parse_version, PARSER_VERSION);
    assert_eq!(map.csv().len(), 1);
}

#[test]
fn identical_anchors_are_rejected() {
    let mut packets = handshake(1000, 2, "2023-05-01_10-00-00-5", 20);
    packets.extend(handshake(1000, 5, "2023-05-01_10-01-00-5", 40));
    assert_eq!(generate_sync_map(&packets), Err(SyncError::DegenerateAnchors));
}

#[test]
fn one_triple_cannot_make_a_map() {
    let packets = handshake(1000, 2, "2023-05-01_10-00-00-5", 20);
    assert_eq!(generate_sync_map(&packets), Err(SyncError::CannotGenerate));
}

#[test]
fn bad_sent_time_fails_the_map() {
    let mut packets = handshake(1000, 2, "garbage", 20);
    packets.extend(handshake(61000, 5, "2023-05-01_10-01-00-5", 40));
    assert_eq!(generate_sync_map(&packets), Err(SyncError::InvalidTimestamp));
}

fn map_with(te0: i128, te1: i128, tl0: i64, tl1: i64) -> TimeSyncMap {
    TimeSyncMap {
        te0,
        te1,
        tl0,
        tl1,
        syncs_received: 2,
        emotibit_start_time: 0,
        emotibit_end_time: 0,
        parse_version: PARSER_VERSION.to_string(),
    }
}

#[test]
fn midpoint_projects_to_midpoint() {
    let map = map_with(1_000_000_000, 3_000_000_000, 10_000_000_000, 14_000_000_000);
    let p = packet("2000,1,1,HR,1,100,70").unwrap();
    let q = p.inject_host_timestamp(&map);
    assert_eq!(q.host_timestamp, Some(12_000_000_000));
    assert_eq!(q.packet_id, 1);
    assert_eq!(q.data_type, DataType::HR(vec![70]));
    assert_eq!(q.rows()[0][0], "12.000000000");
}

#[test]
fn projection_extrapolates_and_rounds_down() {
    let map = map_with(1_000_000_000, 3_000_000_000, 10_000_000_000, 14_000_000_001);
    let before = packet("0,1,1,HR,1,100,70").unwrap().inject_host_timestamp(&map);
    assert_eq!(before.host_timestamp, Some(7_999_999_999));
    let odd = packet("2000,1,1,HR,1,100,70").unwrap().inject_host_timestamp(&map);
    assert_eq!(odd.host_timestamp, Some(12_000_000_000));
    assert_eq!(device_ns_of(dec(-1, 7)), -1);
}

#[test]
fn degenerate_map_does_not_project() {
    let map = map_with(1_000_000_000, 1_000_000_000, 10_000_000_000, 14_000_000_000);
    let p = packet("2000,1,1,HR,1,100,70").unwrap();
    assert_eq!(p.clone().try_inject_host_timestamp(&map), Err(p));
    let good = map_with(1_000_000_000, 3_000_000_000, 10_000_000_000, 14_000_000_000);
    let p = packet("3000,1,1,HR,1,100,70").unwrap();
    assert_eq!(p.try_inject_host_timestamp(&good).unwrap().host_timestamp, Some(14_000_000_000));
}

#[test]
fn sync_map_from_decoded_records() {
    let lines = [
        "500,1,1,HR,1,100,70",
        "980,2,1,RD,1,100,TL",
        "1000,3,1,TL,1,100,2023-05-01_10-00-00-5",
        "1001,4,1,AK,1,100,TL",
        "oops",
        "60960,5,1,RD,1,100,TL",
        "61000,6,1,TL,1,100,2023-05-01_10-01-00-5",
        "61001,7,1,AK,1,100,TL",
    ];
    let records: Vec<Vec<String>> = lines
        .iter()
        .map(|l| l.split(',').map(|s| s.to_string()).collect())
        .collect();
    let decoded = decode_records(&records);
    assert_eq!(find_syncs(&decoded).unwrap().len(), 2);
    let map = generate_sync_map(&decoded).unwrap();
    assert_eq!(map.te1, 61_000_000_000);
    assert_eq!(map.emotibit_start_time, 500_000_000);
}
