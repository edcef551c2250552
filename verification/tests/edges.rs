use raftvec::address::{normalize, parse_peers, parse_replicas};
use raftvec::cli::{
    batches, invalid_line, is_blank, query_of, record_line, single_record, ArgumentError, Query,
    BATCH_SIZE,
};
use raftvec::log::LogId;
use raftvec::message::Code;
use raftvec::metrics::{replication_lags, LeaderWatch};
use raftvec::network::{
    classify, undecodable, unencodable, CallFault, Connections, RpcFailure,
};

fn strings(list: &[&str]) -> Vec<String> {
    list.iter().map(|s| s.to_string()).collect()
}

#[test]
fn addresses_get_a_scheme_once() {
    assert_eq!(normalize("127.0.0.1:1"), "http://127.0.0.1:1");
    assert_eq!(normalize("http://a"), "http://a");
    assert_eq!(normalize("https://a"), "https://a");
    assert_eq!(normalize("HTTP://a"), "http://HTTP://a");
    assert_eq!(normalize(""), "http://");
    assert_eq!(normalize(&normalize("x")), normalize("x"));
}

#[test]
fn peers_are_read_by_id() {
    let members = parse_peers(&strings(&["1=a:1", "2=http://b=c", "1=z", "+3=y"])).unwrap();
    let list: Vec<(u64, String)> = members.into_iter().collect();
    assert_eq!(
        list,
        vec![
            (1, "http://z".to_string()),
            (2, "http://b=c".to_string()),
            (3, "http://y".to_string())
        ]
    );
    assert!(parse_peers(&[]).unwrap().is_empty());
}

#[test]
fn bad_peers_are_named() {
    let err = parse_peers(&strings(&["1=a", "nope", "x=1"])).unwrap_err();
    assert_eq!(err.message(), "peer 'nope' must be in id=addr form");
    for bad in ["x=1", "=1", "-1=a", " 1=a", "18446744073709551616=a", "+=a"] {
        let err = parse_peers(&strings(&[bad])).unwrap_err();
        assert_eq!(err.message(), format!("bad peer id in '{bad}'"));
    }
    let members = parse_peers(&strings(&["18446744073709551615=a"])).unwrap();
    assert_eq!(members[&u64::MAX], "http://a");
}

#[test]
fn replica_lists_are_split_at_commas() {
    assert_eq!(
        parse_replicas("a:1,https://b,,c"),
        strings(&["http://a:1", "https://b", "http://", "http://c"])
    );
    assert_eq!(parse_replicas(""), strings(&["http://"]));
}

#[test]
fn records_are_cut_into_batches() {
    assert!(batches(Vec::<u8>::new()).is_empty());
    for n in [1usize, 999, 1000, 1001, 2000, 2500] {
        let all: Vec<usize> = (0..n).collect();
        let cut = batches(all.clone());
        let want: Vec<Vec<usize>> = all.chunks(BATCH_SIZE).map(|c| c.to_vec()).collect();
        assert_eq!(cut, want);
    }
}

#[test]
fn single_records_need_an_id_and_an_embedding() {
    assert_eq!(single_record(None, None).unwrap_err(), ArgumentError::NoId);
    assert_eq!(single_record(Some(1), None).unwrap_err(), ArgumentError::NoEmbedding);
    let record = single_record(Some(1), Some(vec![5])).unwrap();
    assert_eq!((record.id, record.embedding, record.metadata.len()), (1, vec![5], 0));
    assert_eq!(ArgumentError::NoId.message(), "--id is required when not using --file");
    assert_eq!(
        ArgumentError::NoEmbedding.message(),
        "--embedding is required when not using --file"
    );
}

#[test]
fn searches_need_exactly_one_query() {
    assert_eq!(query_of(Some("a".to_string()), None), Ok(Query::Text("a".to_string())));
    assert_eq!(query_of(None, Some(vec![1])), Ok(Query::Vector(vec![1])));
    assert_eq!(query_of(None, None), Err(ArgumentError::Query));
    assert_eq!(query_of(Some("a".to_string()), Some(vec![1])), Err(ArgumentError::Query));
    assert_eq!(
        ArgumentError::Query.message(),
        "pass exactly one of --query or --query-vector"
    );
}

#[test]
fn blank_lines_hold_white_space_only() {
    for line in ["", " ", "\t\r\n", "\u{a0}\u{3000}\u{2003}", "x", " x ", "\u{200b}", "{}"] {
        assert_eq!(is_blank(line), line.trim().is_empty(), "{line:?}");
    }
    for code in 0..0x11_0000u32 {
        if let Some(c) = char::from_u32(code) {
            let mut buffer = [0u8; 4];
            assert_eq!(is_blank(c.encode_utf8(&mut buffer)), c.is_whitespace(), "{code:x}");
        }
    }
}

#[test]
fn elections_are_counted_on_change() {
    let mut watch = LeaderWatch { last_leader: None };
    assert!(watch.observe(Some(1)));
    assert!(!watch.observe(Some(1)));
    assert!(!watch.observe(None));
    assert!(watch.observe(Some(1)));
    assert!(watch.observe(Some(2)));
}

#[test]
fn lags_are_counted_from_the_leaders_log() {
    let at = |index: u64| Some(LogId { term: 1, node_id: 1, index });
    let followers = vec![(2u64, at(7)), (3, None), (4, at(12))];
    assert_eq!(
        replication_lags(Some(10), Some(followers.clone())),
        vec![(2, 3), (3, 10), (4, 0)]
    );
    assert!(replication_lags(None, Some(followers)).is_empty());
    assert!(replication_lags(Some(10), None).is_empty());
}

#[test]
fn failed_calls_are_classified() {
    assert_eq!(classify(CallFault::Encode), RpcFailure::Network);
    assert_eq!(classify(CallFault::Connect), RpcFailure::Unreachable);
    assert_eq!(classify(CallFault::Rpc(Code::Unavailable)), RpcFailure::Unreachable);
    assert_eq!(classify(CallFault::Rpc(Code::Internal)), RpcFailure::Network);
    assert_eq!(classify(CallFault::Decode), RpcFailure::Network);
    assert_eq!(classify(CallFault::Remote), RpcFailure::RemoteError);
    let status = undecodable("short");
    assert_eq!(status.code, Code::InvalidArgument);
    assert_eq!(status.message, "bad Raft message payload: short");
    assert_eq!(unencodable("long").code, Code::Internal);
    assert_eq!(unencodable("long").message, "long");
}

#[test]
fn lines_are_numbered_from_one() {
    assert_eq!(record_line(0, "{}"), Some(1));
    assert_eq!(record_line(6, " \t"), None);
    assert_eq!(record_line(7, " x"), Some(8));
    assert_eq!(invalid_line("a/b.jsonl", 12), "a/b.jsonl:12: invalid JSON record");
}

#[test]
fn connections_are_kept_for_reuse() {
    let mut connections: Connections<&str> = Connections::new();
    assert_eq!(connections.get(1), None);
    connections.keep(1, "one");
    connections.keep(2, "two");
    connections.keep(1, "again");
    assert_eq!(connections.get(1), Some(&"again"));
    assert_eq!(connections.get(2), Some(&"two"));
}
