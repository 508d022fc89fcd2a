use raur::api::{info_query_params, rpc_step, RpcStep};
use raur::cli::split_forwarded;
use raur::gpg::{all_keys_resolved, keys_to_fetch};
use raur::interactive::{parse_error_action, parse_yes_no, ErrorAction, SearchResult};
use raur::lock::{lock_decision, LockAction};
use raur::pacman::Package;

#[test]
fn lock_corrupt_content_is_stale() {
    assert_eq!(lock_decision("garbage", 1, None), LockAction::RemoveStale);
    assert_eq!(lock_decision("", 1, None), LockAction::RemoveStale);
}

#[test]
fn lock_dead_pid_is_stale() {
    assert_eq!(lock_decision("12345", 1, None), LockAction::RemoveStale);
}

#[test]
fn lock_own_pid_is_stale() {
    assert_eq!(lock_decision(" 42 ", 42, Some("ax")), LockAction::RemoveStale);
}

#[test]
fn lock_live_instance_keeps_lock() {
    assert_eq!(lock_decision("77", 42, Some("ax")), LockAction::OtherRunning);
}

#[test]
fn lock_recycled_pid_is_stale() {
    assert_eq!(lock_decision("77", 42, Some("firefox")), LockAction::RemoveStale);
}

#[test]
fn rpc_retries_rate_limit_with_backoff() {
    assert_eq!(rpc_step(429, 0), RpcStep::RetryAfter(1));
    assert_eq!(rpc_step(429, 1), RpcStep::RetryAfter(2));
    assert_eq!(rpc_step(429, 2), RpcStep::RetryAfter(4));
    assert_eq!(rpc_step(429, 3), RpcStep::Fail);
}

#[test]
fn rpc_succeeds_and_fails_at_once() {
    assert_eq!(rpc_step(200, 0), RpcStep::Proceed);
    assert_eq!(rpc_step(204, 2), RpcStep::Proceed);
    assert_eq!(rpc_step(500, 0), RpcStep::Fail);
    assert_eq!(rpc_step(404, 0), RpcStep::Fail);
}

#[test]
fn empty_info_query_needs_no_call() {
    assert!(info_query_params(&Vec::new()).is_none());
}

#[test]
fn info_query_repeats_arg_key() {
    let ps = info_query_params(&vec!["a".to_string(), "b".to_string()]).unwrap();
    assert_eq!(ps.len(), 2);
    assert_eq!(ps[0], ("arg[]".to_string(), "a".to_string()));
    assert_eq!(ps[1], ("arg[]".to_string(), "b".to_string()));
}

#[test]
fn forwarded_flags_split_off_and_set_no_confirm() {
    let args = vec![
        "yay".to_string(),
        "--noconfirm".to_string(),
        "-y".to_string(),
        "vim".to_string(),
    ];
    let (pkgs, fwd, nc) = split_forwarded(&args);
    assert_eq!(pkgs, vec!["yay".to_string(), "vim".to_string()]);
    assert_eq!(fwd, vec!["--noconfirm".to_string(), "-y".to_string()]);
    assert!(nc);
    let (_, _, nc2) = split_forwarded(&vec!["-y".to_string()]);
    assert!(!nc2);
}

#[test]
fn yes_no_defaults_to_yes_on_empty() {
    assert!(parse_yes_no("", false));
    assert!(parse_yes_no("  \t", false));
    assert!(parse_yes_no("y", false));
    assert!(parse_yes_no("YES", false));
    assert!(!parse_yes_no("n", false));
    assert!(!parse_yes_no("yess", false));
}

#[test]
fn yes_no_is_no_without_terminal() {
    assert!(!parse_yes_no("", true));
    assert!(!parse_yes_no("y", true));
}

#[test]
fn error_menu_reads_actions() {
    assert_eq!(parse_error_action("r", true, false), ErrorAction::Retry);
    assert_eq!(parse_error_action("r", false, false), ErrorAction::Abort);
    assert_eq!(parse_error_action(" s ", true, false), ErrorAction::Skip);
    assert_eq!(parse_error_action("anything", true, false), ErrorAction::Abort);
    assert_eq!(parse_error_action("r", true, true), ErrorAction::Abort);
}

#[test]
fn search_result_names_both_sides() {
    let repo = SearchResult::Repo(Package {
        repo: "core".to_string(),
        name: "git".to_string(),
        version: "1".to_string(),
        description: "d".to_string(),
        installed: false,
    });
    assert_eq!(repo.name(), "git");
    let aur = SearchResult::Aur(raur::api::AurPackage {
        name: "yay".to_string(),
        version: "1".to_string(),
        _maintainer: None,
        description: None,
        num_votes: Some(3),
    });
    assert_eq!(aur.name(), "yay");
}

#[test]
fn missing_keys_are_fetched_and_reported() {
    let keys = vec!["K1".to_string(), "K2".to_string(), "K3".to_string()];
    let present = vec![true, false, true];
    assert_eq!(keys_to_fetch(&keys, &present), vec!["K2".to_string()]);
    assert!(all_keys_resolved(&vec![true, true]));
    assert!(!all_keys_resolved(&vec![true, false]));
}
