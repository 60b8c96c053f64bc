use wstf::storage::{classify_response, is_raw_get, str_contains, CxnPool, Error};
use wstf::symbol::{AssetType, Symbol};

#[test]
fn should_parse_symbol_from_str_ok() {
    let symbol_str = "bt_usdt_btc";
    let sym = Symbol::from_str(symbol_str).unwrap();
    assert_eq!("bt", sym.exchange);
    assert_eq!("usdt", sym.currency);
    assert_eq!("btc", sym.asset);
}

#[test]
fn symbol_with_wrong_arity_is_refused() {
    assert!(Symbol::from_str("btc_usdt").is_err());
    assert!(Symbol::from_str("a_b_c_d").is_err());
    assert!(Symbol::from_str("").is_err());
}

#[test]
fn asset_type_text() {
    assert_eq!(AssetType::default(), AssetType::SPOT);
    assert_eq!(AssetType::SPOT.as_text(), "spot");
}

#[test]
fn raw_get_commands() {
    assert!(is_raw_get("GET btc_usdt FROM 0 TO 100\n"));
    assert!(!is_raw_get("GET btc_usdt AS JSON\n"));
    assert!(!is_raw_get("GET btc_usdt AS CSV\n"));
    assert!(!is_raw_get("CREATE db\n"));
    assert!(!is_raw_get("GE"));
}

#[test]
fn contains_finds_substrings() {
    assert!(str_contains("hello world", "lo w"));
    assert!(!str_contains("hello world", "low"));
    assert!(str_contains("abc", ""));
}

#[test]
fn successful_response_is_returned() {
    let r = classify_response(true, "all good".to_string());
    assert_eq!(r.unwrap(), "all good");
}

#[test]
fn missing_db_is_named() {
    let r = classify_response(false, "ERR: DB orders not found".to_string());
    match r {
        Err(Error::DBNotFoundError(db)) => assert_eq!(db, "orders"),
        other => panic!("expected DBNotFoundError, got {:?}", other),
    }
}

#[test]
fn other_failures_are_server_errors() {
    let r = classify_response(false, "something broke".to_string());
    match r {
        Err(Error::ServerError(m)) => assert_eq!(m, "something broke"),
        other => panic!("expected ServerError, got {:?}", other),
    }
}

#[test]
fn error_messages() {
    assert_eq!(Error::ConnectionError.message(), "ConnectionError");
    assert_eq!(
        Error::DBNotFoundError("orders".to_string()).message(),
        "DBNotFoundError: orders"
    );
    assert_eq!(
        Error::ServerError("boom".to_string()).message(),
        "Error: boom"
    );
}

#[test]
fn pool_workers_rotate_and_grow() {
    let mut pool: CxnPool<u64> = CxnPool::new(2, 8);
    let (a, grew_a) = pool.take_worker();
    assert_eq!((a, grew_a), (0, false));
    let (b, grew_b) = pool.take_worker();
    assert_eq!((b, grew_b), (1, false));
    // contention: no free worker, the pool grows
    let (c, grew_c) = pool.take_worker();
    assert_eq!((c, grew_c), (2, true));
    pool.release_worker(a);
    pool.release_worker(c);
    let (d, grew_d) = pool.take_worker();
    assert_eq!((d, grew_d), (0, false));
}

#[test]
fn pool_buffers_and_retries_inserts() {
    let mut pool: CxnPool<u64> = CxnPool::new(1, 4);
    assert_eq!(pool.pop_buffered(), None);
    pool.buffer_insert(10);
    pool.buffer_insert(20);
    assert_eq!(pool.pop_buffered(), Some(20));
    assert_eq!(pool.pop_buffered(), Some(10));
    assert_eq!(pool.pop_buffered(), None);
}
