//! The command line, and a configuration that changes.

use es_server::args::Args;
use es_server::config::{Config, FileRead, Probes, TlsFiles};
use es_server::order::{difference, distinct, holds, sort};
use es_server::server::{GrpcService, listeners};
use es_server::watcher::{hot_config, plan_config_change};

fn words(line: &[&str]) -> Vec<String> {
    line.iter().map(|w| w.to_string()).collect()
}

fn probes() -> Probes {
    let unread = || FileRead::Failed("missing".to_string());
    Probes {
        internal_listen: None,
        tls_files: TlsFiles { cert: unread(), key: unread(), ca: unread() },
    }
}

#[test]
fn args_clap_parse_defaults() {
    let args = Args::try_parse_from(&words(&["eventstored"])).expect("no arguments");
    assert_eq!(args.config, "config.toml");
    assert_eq!(args.node_id, None);
    assert_eq!(args.listen, None);
}

#[test]
fn args_clap_parse_overrides() {
    let args = Args::try_parse_from(&words(&[
        "eventstored",
        "--config",
        "c.toml",
        "--node-id",
        "9",
        "--listen",
        "127.0.0.1:9999",
    ]))
    .expect("overrides");
    assert_eq!(args.config, "c.toml");
    assert_eq!(args.node_id, Some(9));
    assert_eq!(args.listen, Some("127.0.0.1:9999".to_string()));
}

#[test]
fn args_short_form_and_refusals() {
    let args = Args::try_parse_from(&words(&["eventstored", "-c", "x.json"])).expect("short");
    assert_eq!(args.config, "x.json");
    let refusal = |line: &[&str]| Args::try_parse_from(&words(line)).expect_err("refused");
    assert!(refusal(&["eventstored", "--node-id", "many"]).is_error);
    assert!(refusal(&["eventstored", "--unknown"]).is_error);
    let help = refusal(&["eventstored", "--help"]);
    assert!(!help.is_error);
    assert!(help.text.contains("--node-id"));
}

#[test]
fn diff_added_and_removed() {
    let desired = vec![0, 1, 2, 4];
    let current = vec![0, 1, 3];
    let change = plan_config_change(&desired, &current);
    assert_eq!(change.added, [2, 4]);
    assert_eq!(change.removed, [3]);
    assert_eq!(difference(&desired, &current), [2, 4]);
    assert_eq!(difference(&current, &desired), [3]);
}

#[test]
fn a_shard_that_was_not_created_keeps_the_old_topology() {
    let mut change = plan_config_change(&vec![0, 1], &vec![0]);
    assert!(change.may_reload());
    assert!(change.is_to_be_created(1, &vec![0]));
    assert!(!change.is_to_be_created(1, &vec![0, 1]));
    change.note(true);
    assert!(change.may_reload());
    change.note(false);
    change.note(true);
    assert!(!change.may_reload());
}

#[test]
fn a_hot_configuration_keeps_the_node() {
    let mut config = Config::default();
    config.node.id = 5;
    let accepted = hot_config(config, 1, &probes()).expect("valid for node 1");
    assert_eq!(accepted.node.id, 1);
    let mut bad = Config::default();
    bad.placement.nodes.clear();
    assert!(hot_config(bad, 1, &probes()).is_err());
}

#[test]
fn numbers_are_sorted_and_made_distinct() {
    assert_eq!(sort(&vec![3, 1, 2, 1]), [1, 1, 2, 3]);
    assert_eq!(distinct(&vec![3, 1, 2, 1]), [1, 2, 3]);
    assert!(holds(&vec![3, 1], 1));
    assert!(!holds(&vec![3, 1], 2));
}

#[test]
fn each_listener_offers_its_own_services() {
    let mut config = Config::default();
    config.node.listen_addr = "0.0.0.0:1".to_string();
    config.node.internal_listen_addr = None;
    let public = [GrpcService::AggregateStore, GrpcService::RaftRpc, GrpcService::RaftAdmin];
    let one = listeners(&config);
    assert_eq!(one.len(), 1);
    assert_eq!((one[0].address.as_str(), one[0].tls), ("0.0.0.0:1", false));
    assert_eq!(one[0].services, public);
    config.node.internal_listen_addr = Some("0.0.0.0:2".to_string());
    let two = listeners(&config);
    assert_eq!(two.len(), 2);
    assert_eq!(two[0].services, public);
    assert_eq!(two[1].address, "0.0.0.0:2");
    assert_eq!(two[1].services, [GrpcService::AggregateStoreInternal]);
}
