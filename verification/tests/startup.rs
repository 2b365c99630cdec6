use stream_delimit::startup::{offset_policy, split_hosts, StartOffset};

#[test]
fn offset_policy_follows_flag() {
    assert_eq!(offset_policy(true), StartOffset::Earliest);
    assert_eq!(offset_policy(false), StartOffset::Latest);
    assert_ne!(offset_policy(true), offset_policy(false));
}

#[test]
fn splits_address_list_on_commas() {
    let hosts = split_hosts(&b"host1:9092,host2:9093".to_vec());
    assert_eq!(hosts, vec![b"host1:9092".to_vec(), b"host2:9093".to_vec()]);
}

#[test]
fn single_address_is_kept_whole() {
    let hosts = split_hosts(&b"solo:9092".to_vec());
    assert_eq!(hosts, vec![b"solo:9092".to_vec()]);
}

#[test]
fn empty_list_gives_one_empty_endpoint() {
    let hosts = split_hosts(&Vec::new());
    assert_eq!(hosts, vec![Vec::<u8>::new()]);
}

#[test]
fn separators_open_new_endpoints() {
    assert_eq!(
        split_hosts(&b"a,".to_vec()),
        vec![b"a".to_vec(), Vec::new()]
    );
    assert_eq!(split_hosts(&b",".to_vec()), vec![Vec::new(), Vec::new()]);
    assert_eq!(
        split_hosts(&b"a,,b".to_vec()),
        vec![b"a".to_vec(), Vec::new(), b"b".to_vec()]
    );
}
