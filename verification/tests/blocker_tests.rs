use focus_core::app_blocker::{AppBlocker, AttemptEntry, BlockedApp};
use focus_core::matcher::{
    find_process_by_name, is_process_match, should_force_kill, ProcessInfo,
};

fn proc_info(pid: u32, comm: &str, cmdline: &str, exe_path: &str) -> ProcessInfo {
    ProcessInfo {
        pid,
        comm: comm.to_string(),
        cmdline: cmdline.to_string(),
        exe_path: exe_path.to_string(),
    }
}

fn chrome_app() -> BlockedApp {
    BlockedApp { name: "Chrome".to_string(), executable: "chrome".to_string() }
}

fn count_of(entries: &Vec<AttemptEntry>, name: &str) -> Option<u32> {
    for e in entries {
        if e.name == name {
            return Some(e.count);
        }
    }
    None
}

#[test]
fn matches_by_command_name_case_insensitively() {
    let p = proc_info(10, "chrome\n", "", "");
    assert!(is_process_match(&p, "Chrome"));
}

#[test]
fn matches_by_command_line_substring() {
    let p = proc_info(11, "sh", "/usr/bin/env\0google-chrome\0--flag", "");
    assert!(is_process_match(&p, "chrome"));
}

#[test]
fn matches_by_executable_basename() {
    let p = proc_info(12, "wrapper", "", "/opt/google/chrome");
    assert!(is_process_match(&p, "CHROME"));
}

#[test]
fn rejects_unrelated_process() {
    let p = proc_info(13, "bash", "bash\0-c\0sleep 5", "/usr/bin/bash");
    assert!(!is_process_match(&p, "chrome"));
}

#[test]
fn finds_all_matching_pids_in_order() {
    let procs = vec![
        proc_info(5, "chrome", "", ""),
        proc_info(9, "bash", "", ""),
        proc_info(7, "chrome", "", ""),
    ];
    assert_eq!(find_process_by_name(&procs, "chrome"), vec![5, 7]);
}

#[test]
fn force_kill_follows_the_two_phase_protocol() {
    // the forced signal goes exactly to processes that outlived the grace
    // period; one that already exited is left alone and counts as success
    assert!(should_force_kill(true));
    assert!(!should_force_kill(false));
}

#[test]
fn detected_app_is_counted_and_terminated_within_one_tick() {
    let mut blocker = AppBlocker::new();
    blocker.start_blocking(vec![chrome_app()]).unwrap();
    let procs = vec![proc_info(42, "chrome", "", "/opt/google/chrome")];
    let actions = blocker.tick(&procs);
    assert_eq!(actions.len(), 1);
    assert_eq!(actions[0].app_name, "Chrome");
    assert_eq!(actions[0].pids, vec![42]);
    let attempts = blocker.get_block_attempts();
    assert!(count_of(&attempts, "Chrome").unwrap() >= 1);
}

#[test]
fn attempts_count_once_per_tick_not_per_process() {
    let mut blocker = AppBlocker::new();
    blocker.start_blocking(vec![chrome_app()]).unwrap();
    let procs = vec![proc_info(1, "chrome", "", ""), proc_info(2, "chrome", "", "")];
    let actions = blocker.tick(&procs);
    assert_eq!(actions[0].pids, vec![1, 2]);
    assert_eq!(count_of(&blocker.get_block_attempts(), "Chrome"), Some(1));
    blocker.tick(&procs);
    assert_eq!(count_of(&blocker.get_block_attempts(), "Chrome"), Some(2));
}

#[test]
fn tick_without_matches_counts_nothing() {
    let mut blocker = AppBlocker::new();
    blocker.start_blocking(vec![chrome_app()]).unwrap();
    let actions = blocker.tick(&vec![proc_info(3, "bash", "", "")]);
    assert!(actions.is_empty());
    assert_eq!(count_of(&blocker.get_block_attempts(), "Chrome"), None);
}

#[test]
fn start_while_running_is_a_conflict_and_changes_nothing() {
    let mut blocker = AppBlocker::new();
    blocker.start_blocking(vec![chrome_app()]).unwrap();
    let procs = vec![proc_info(42, "chrome", "", "")];
    blocker.tick(&procs);
    let err = blocker
        .start_blocking(vec![BlockedApp {
            name: "Slack".to_string(),
            executable: "slack".to_string(),
        }])
        .unwrap_err();
    assert_eq!(err, "App blocker is already running");
    // the counters were not reset
    assert_eq!(count_of(&blocker.get_block_attempts(), "Chrome"), Some(1));
    // the app list was not replaced: the old executable still matches
    let actions = blocker.tick(&procs);
    assert_eq!(actions.len(), 1);
    assert_eq!(actions[0].app_name, "Chrome");
}

#[test]
fn stop_clears_apps_and_counters() {
    let mut blocker = AppBlocker::new();
    blocker.start_blocking(vec![chrome_app()]).unwrap();
    blocker.tick(&vec![proc_info(42, "chrome", "", "")]);
    blocker.stop_blocking().unwrap();
    assert!(blocker.get_block_attempts().is_empty());
    assert!(!blocker.is_running());
}

#[test]
fn stop_then_start_begins_attempts_at_zero() {
    let mut blocker = AppBlocker::new();
    blocker.start_blocking(vec![chrome_app()]).unwrap();
    blocker.tick(&vec![proc_info(42, "chrome", "", "")]);
    blocker.stop_blocking().unwrap();
    let fresh = vec![BlockedApp { name: "Slack".to_string(), executable: "slack".to_string() }];
    blocker.start_blocking(fresh).unwrap();
    let attempts = blocker.get_block_attempts();
    assert!(attempts.is_empty());
    assert_eq!(count_of(&attempts, "Slack"), None);
    assert_eq!(count_of(&attempts, "Chrome"), None);
}
