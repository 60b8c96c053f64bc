use wstf::codec::{decode, encode_buffer, read_meta_from_buf};
use wstf::merge::combine_updates;
use wstf::update::Update;

fn up(ts: u64, seq: u32, price: f32) -> Update {
    Update {
        ts,
        seq,
        is_trade: false,
        is_bid: true,
        price_bits: price.to_bits(),
        size_bits: (ts as f32).to_bits(),
    }
}

#[test]
fn merging_two_overlapping_files() {
    // the leading file covers 1000..=1010, the trailing one 1008..=1012;
    // both hold the records (1010, 7) and (1010, 8) at the boundary
    let first: Vec<Update> = vec![
        up(1000, 0, 1000.),
        up(1004, 1, 1004.),
        up(1007, 2, 1007.),
        up(1009, 5, 1009.),
        up(1010, 7, 1010.),
        up(1010, 8, 1011.),
    ];
    let second: Vec<Update> = vec![
        up(1008, 4, 1008.),
        up(1010, 8, 1011.),
        up(1010, 7, 1010.),
        up(1010, 9, 1012.),
        up(1011, 10, 1011.),
        up(1012, 11, 1012.),
    ];

    let first_buf = encode_buffer("test_a_b", &{
        let mut f = first.clone();
        f.sort_by_key(|u| (u.ts, u.seq));
        f
    })
    .unwrap();
    let second_buf = encode_buffer("test_a_b", &{
        let mut s = second.clone();
        s.sort_by_key(|u| (u.ts, u.seq));
        s
    })
    .unwrap();

    let meta_first = read_meta_from_buf(&first_buf).unwrap();
    let meta_second = read_meta_from_buf(&second_buf).unwrap();
    assert_eq!(meta_first.symbol, meta_second.symbol);

    let merged = combine_updates(
        &decode(&first_buf, None).unwrap(),
        &decode(&second_buf, None).unwrap(),
        meta_first.min_ts,
        meta_first.max_ts,
        meta_second.min_ts,
    )
    .unwrap();

    let ts_seq: Vec<(u64, u32)> = merged.iter().map(|u| (u.ts, u.seq)).collect();
    assert_eq!(
        ts_seq,
        vec![
            (1000, 0),
            (1004, 1),
            (1007, 2),
            (1009, 5),
            (1010, 7),
            (1010, 8),
            (1010, 9),
            (1011, 10),
            (1012, 11),
        ]
    );

    // the merged stream encodes and decodes like any other
    let merged_buf = encode_buffer(&meta_first.symbol, &merged).unwrap();
    assert_eq!(decode(&merged_buf, None).unwrap(), merged);
}

#[test]
fn files_with_a_gap_are_refused() {
    let first = vec![up(100, 0, 1.)];
    let second = vec![up(500, 1, 2.)];
    assert!(combine_updates(&first, &second, 100, 100, 500).is_err());
}
