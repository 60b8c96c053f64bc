use wstf::codec::{
    append_buffer, decode, encode_buffer, get_max_ts_sorted, get_size, range, read_meta_from_buf,
    read_one_batch, write_batches, Metadata, CodecError,
};
use wstf::update::Update;

static SYMBOL: &str = "BTC_USDT";

fn up(ts: u64, seq: u32, is_trade: bool, is_bid: bool, price: f32, size: f32) -> Update {
    Update {
        ts,
        seq,
        is_trade,
        is_bid,
        price_bits: price.to_bits(),
        size_bits: size.to_bits(),
    }
}

fn sort_updates(ts: &mut Vec<Update>) {
    ts.sort_by_key(|u| (u.ts, u.seq));
}

fn sample_data() -> Vec<Update> {
    let mut ts = vec![
        up(100, 113, false, false, 5100.01, 1.14564564645),
        up(101, 113, false, false, 5100.01, 2.14564564645),
        up(1000000, 113, true, false, 5100.01, 1.123465),
    ];
    sort_updates(&mut ts);
    ts
}

fn sample_data_one_item() -> Vec<Update> {
    vec![up(100, 113, false, false, 5100.01, 1.14564564645)]
}

fn sample_data_append() -> Vec<Update> {
    let mut ts = vec![
        up(2, 113, false, false, 5100.01, 1.14564564645),
        up(20000001, 113, false, false, 5100.01, 1.14564564645),
        up(20000000, 113, false, false, 5100.01, 1.14564564645),
    ];
    sort_updates(&mut ts);
    ts
}

fn before() -> (Vec<Update>, Vec<u8>) {
    let ts = sample_data();
    let buf = encode_buffer(SYMBOL, &ts).unwrap();
    (ts, buf)
}

#[test]
fn should_format_metadata_properly() {
    let meta = Metadata {
        symbol: SYMBOL.to_owned(),
        nums: 1,
        max_ts: 1,
        min_ts: 1,
    };

    assert_eq!(
        format!(
            r#"{{"symbol":{},"nums":{},"max_ts":{},"min_ts":{}}}"#,
            meta.symbol, meta.nums, meta.max_ts, meta.min_ts,
        ),
        r#"{"symbol":BTC_USDT,"nums":1,"max_ts":1,"min_ts":1}"#
    );
}

#[test]
fn should_encode_decode_one_item() {
    let ts = sample_data_one_item();
    let buf = encode_buffer(SYMBOL, &ts).unwrap();
    let decoded_updates = decode(&buf, None).unwrap();
    assert_eq!(decoded_updates, ts);
}

#[test]
fn should_encode_and_decode_file() {
    let (ts, buf) = before();
    let decoded_updates = decode(&buf, None).unwrap();
    assert_eq!(decoded_updates, ts);
}

#[test]
fn encode_three_updates_metadata() {
    let (ts, buf) = before();
    let decoded = decode(&buf, None).unwrap();
    assert_eq!(decoded, ts);
    let meta = read_meta_from_buf(&buf).unwrap();
    assert_eq!(meta.nums, 3);
    assert_eq!(meta.min_ts, 100);
    assert_eq!(meta.max_ts, 1000000);
    assert_eq!(meta.symbol, "BTC_USDT");
}

#[test]
fn should_return_the_correct_range() {
    let ups = (1..50)
        .map(|i| up(i * 1000 as u64, i as u32, false, false, 0., 0.))
        .collect::<Vec<Update>>();
    let buf = encode_buffer("BTC_USDT", &ups).unwrap();

    let should_be = (10..21)
        .map(|i| up(i * 1000 as u64, i as u32, false, false, 0., 0.))
        .collect::<Vec<Update>>();
    assert_eq!(should_be, range(&buf, 10000, 20000).unwrap());
}

#[test]
fn should_return_the_correct_range_2() {
    let ups = (1..1000)
        .map(|i| up(i * 1000 as u64, i as u32 % 500 * 500, false, false, 0., 0.))
        .collect::<Vec<Update>>();
    let buf = encode_buffer("BTC_USDT", &ups).unwrap();

    assert_eq!(
        (1..999)
            .map(|i| up(i * 1000 as u64, i as u32 % 500 * 500, false, false, 0., 0.))
            .collect::<Vec<Update>>(),
        range(&buf, 1000, 999000).unwrap()
    );
}

#[test]
fn range_inverted_window_is_empty() {
    let (_ts, buf) = before();
    assert_eq!(range(&buf, 20, 10).unwrap(), vec![]);
}

#[test]
fn should_return_correct_symbol() {
    let (_ts, buf) = before();
    let meta = read_meta_from_buf(&buf).unwrap();
    assert_eq!(meta.symbol, SYMBOL);
}

#[test]
fn should_return_first_record() {
    let (vs, buf) = before();
    let (batch, _) = read_one_batch(&buf, 80).unwrap();
    assert_eq!(vs[0], batch[0]);
}

#[test]
fn should_return_correct_num_of_items() {
    let (vs, buf) = before();
    let len = get_size(&buf).unwrap();
    assert_eq!(vs.len() as u64, len);
}

#[test]
fn should_return_max_ts() {
    let (vs, buf) = before();
    let meta = read_meta_from_buf(&buf).unwrap();
    assert_eq!(meta.max_ts, get_max_ts_sorted(&vs));
}

#[test]
fn should_append_filtered_data() {
    let (old_data, buf) = before();
    let old_max_ts = get_max_ts_sorted(&old_data);
    let append_data: Vec<Update> = sample_data_append()
        .into_iter()
        .filter(|u| u.ts >= old_max_ts)
        .collect();
    let new_size = append_data.len() + old_data.len();

    let buf2 = append_buffer(&buf, &append_data).unwrap();

    let meta = read_meta_from_buf(&buf2).unwrap();
    assert_eq!(meta.max_ts, get_max_ts_sorted(&append_data));
    assert_eq!(new_size as u64, meta.nums);

    let mut all_the_data = sample_data();
    all_the_data.extend(append_data);
    sort_updates(&mut all_the_data);
    let decoded = decode(&buf2, None).unwrap();
    assert_eq!(all_the_data, decoded);
}

#[test]
fn append_of_no_later_records_changes_nothing() {
    let (ts, buf) = before();
    let buf2 = append_buffer(&buf, &ts).unwrap();
    assert_eq!(buf, buf2);
}

#[test]
fn should_write_to_bytes() {
    let u = up(0, 0, false, false, 0., 0.);
    let bytes = write_batches(&vec![u]);
    assert_eq!(
        vec![1, 0, 0, 0, 0, 0, 0, 0, 0, 0, 0, 0, 0, 0, 1, 0, 0, 0, 0, 0, 0, 0, 0, 0, 0, 0, 0],
        bytes
    );
}

#[test]
fn empty_input_encodes_to_nothing() {
    let buf = encode_buffer(SYMBOL, &vec![]).unwrap();
    assert!(buf.is_empty());
}

#[test]
fn oversized_symbol_is_refused() {
    let ts = sample_data_one_item();
    let r = encode_buffer("ABCDEFGHIJKLMNOPQRSTU", &ts);
    assert_eq!(r, Err(CodecError::SymbolTooLong));
}

#[test]
fn bad_magic_is_refused() {
    let ts = sample_data();
    let mut buf = encode_buffer(SYMBOL, &ts).unwrap();
    buf[0] = 0x58;
    assert_eq!(decode(&buf, None), Err(CodecError::BadMagic));
    assert_eq!(get_size(&buf), Err(CodecError::BadMagic));
    assert_eq!(append_buffer(&buf, &ts), Err(CodecError::BadMagic));
}

#[test]
fn truncated_batch_is_refused() {
    let ts = sample_data();
    let mut buf = encode_buffer(SYMBOL, &ts).unwrap();
    buf.truncate(buf.len() - 1);
    assert_eq!(decode(&buf, None), Err(CodecError::Truncated));
}

#[test]
fn unknown_flag_bits_are_refused() {
    let ts = sample_data_one_item();
    let mut buf = encode_buffer(SYMBOL, &ts).unwrap();
    // the first record's flag byte sits 3 bytes into the first record
    buf[80 + 15 + 3] = 0x80;
    assert_eq!(decode(&buf, None), Err(CodecError::BadRecord));
}

#[test]
fn decode_with_limit_reads_batch_prefix() {
    // timestamps far apart force one batch per record
    let ups: Vec<Update> = (1..6)
        .map(|i| up(i * 100_000, i as u32, false, true, 1.0, 2.0))
        .collect();
    let buf = encode_buffer(SYMBOL, &ups).unwrap();
    let two = decode(&buf, Some(2)).unwrap();
    assert_eq!(two, ups[0..2].to_vec());
    let zero = decode(&buf, Some(0)).unwrap();
    assert!(zero.is_empty());
    let all = decode(&buf, Some(99)).unwrap();
    assert_eq!(all, ups);
}

#[test]
fn batcher_rolls_over_on_sequence_jump() {
    // sequence deltas of 500 exceed the 0xf bound, so each record gets
    // its own batch: 1 marker + 14 header bytes + 12 record bytes each
    let ups: Vec<Update> = (1..4).map(|i| up(1000, i * 500, false, false, 1.0, 1.0)).collect();
    let body = write_batches(&ups);
    assert_eq!(body.len(), 3 * (15 + 12));
    let buf = encode_buffer(SYMBOL, &ups).unwrap();
    assert_eq!(decode(&buf, None).unwrap(), ups);
}

#[test]
fn overflowing_record_count_is_refused() {
    let ts = sample_data();
    let mut buf = encode_buffer(SYMBOL, &ts).unwrap();
    // pretend the file already holds u64::MAX records
    for i in 25..33 {
        buf[i] = 0xFF;
    }
    let later = vec![up(2000000, 1, false, false, 1.0, 1.0)];
    assert_eq!(append_buffer(&buf, &later), Err(CodecError::Oversize));
}

#[test]
fn non_ascii_symbol_is_refused() {
    let ts = sample_data();
    let mut buf = encode_buffer(SYMBOL, &ts).unwrap();
    buf[5] = 0xFF;
    assert_eq!(
        read_meta_from_buf(&buf).map(|m| m.symbol),
        Err(CodecError::BadSymbol)
    );
}

#[test]
fn select_files_orders_by_min_ts() {
    let m = |symbol: &str, min_ts: u64, max_ts: u64| Metadata {
        symbol: symbol.to_owned(),
        nums: 1,
        min_ts,
        max_ts,
    };
    let metas = vec![
        m("btc_usdt_spot", 500, 900),
        m("eth_usdt_spot", 100, 200),
        m("btc_usdt_spot", 100, 400),
        m("btc_usdt_spot", 2000, 3000),
    ];
    let order = wstf::codec::select_files_in_range(&metas, &"btc_usdt_spot".to_owned(), 150, 1000);
    assert_eq!(order, vec![2, 0]);
}

#[test]
fn range_reaches_the_final_batch() {
    // one record, one batch: the scan decides for the last batch even
    // though no next header follows it
    let ups = vec![up(100, 1, false, true, 1.0, 2.0)];
    let buf = encode_buffer(SYMBOL, &ups).unwrap();
    assert_eq!(range(&buf, 0, 200).unwrap(), ups);
    assert_eq!(range(&buf, 201, u64::MAX).unwrap(), vec![]);
    let mut both = range(&buf, 0, 200).unwrap();
    both.extend(range(&buf, 201, u64::MAX).unwrap());
    assert_eq!(both, decode(&buf, None).unwrap());

    // several batches, with the window covering only the last one
    let ups3: Vec<Update> = (1..4)
        .map(|i| up(i * 100_000, i as u32, false, false, 0., 0.))
        .collect();
    let buf3 = encode_buffer(SYMBOL, &ups3).unwrap();
    assert_eq!(range(&buf3, 250_000, 400_000).unwrap(), vec![ups3[2]]);
}
