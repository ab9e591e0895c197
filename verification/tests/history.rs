use mcfly_history::command::{Command, Ratio};
use mcfly_history::history::{is_ignored_command, AppendError, History};

fn row(id: i64, cmd: &str, session: &str, when_run: i64, exit_code: i32, dir: &str) -> Command {
    Command {
        id,
        cmd: cmd.to_string(),
        cmd_tpl: cmd.to_string(),
        session_id: session.to_string(),
        when_run: Some(when_run),
        exit_code: Some(exit_code),
        dir: Some(dir.to_string()),
        ..Command::default()
    }
}

fn with_template(mut c: Command, tpl: &str) -> Command {
    c.cmd_tpl = tpl.to_string();
    c
}

fn history(rows: Vec<Command>) -> History {
    History::load(rows).expect("a well-formed log")
}

fn texts(rows: &[Command]) -> Vec<String> {
    rows.iter().map(|c| c.cmd.clone()).collect()
}

fn ids(rows: &[Command]) -> Vec<i64> {
    rows.iter().map(|c| c.id).collect()
}

fn s(text: &str) -> String {
    text.to_string()
}

fn ratio(num: u128, den: u128) -> Ratio {
    Ratio { num, den }
}

#[test]
fn load_takes_a_log_with_growing_ids() {
    let h = History::load(vec![row(1, "a", "s", 1, 0, "/"), row(2, "b", "s", 2, 0, "/"), row(7, "c", "s", 3, 0, "/")]);
    assert!(h.is_some());
    let h = h.unwrap();
    assert_eq!(ids(&h.log), vec![1, 2, 7]);
    assert!(h.view.is_empty());
    assert!(History::load(Vec::new()).is_some());
}

#[test]
fn load_refuses_ids_that_do_not_grow() {
    assert!(History::load(vec![row(2, "a", "s", 1, 0, "/"), row(1, "b", "s", 2, 0, "/")]).is_none());
    assert!(History::load(vec![row(1, "a", "s", 1, 0, "/"), row(1, "b", "s", 2, 0, "/")]).is_none());
}

#[test]
fn load_refuses_a_row_without_time_or_exit_code() {
    let mut c = row(1, "a", "s", 1, 0, "/");
    c.when_run = None;
    assert!(History::load(vec![c]).is_none());
    let mut c = row(1, "a", "s", 1, 0, "/");
    c.exit_code = None;
    assert!(History::load(vec![c]).is_none());
}

#[test]
fn should_add_follows_the_filter() {
    let h = history(vec![row(1, "echo hi", "s", 1, 0, "/")]);
    assert!(!h.should_add(&s("")));
    assert!(!h.should_add(&s(" ls -la")));
    assert!(!h.should_add(&s("ls")));
    assert!(!h.should_add(&s("#mcfly:foo")));
    assert!(!h.should_add(&s("echo hi")));
    assert!(h.should_add(&s("echo bye")));
}

#[test]
fn should_add_refuses_each_ignored_command() {
    let h = history(Vec::new());
    for cmd in ["pwd", "ls", "cd", "cd ..", "clear", "history", "mcfly search"] {
        assert!(!h.should_add(&s(cmd)), "{}", cmd);
        assert!(is_ignored_command(cmd));
    }
    assert!(h.should_add(&s("ls -la")));
    assert!(h.should_add(&s("cd /tmp")));
    assert!(h.should_add(&s("PWD")));
    assert!(!is_ignored_command("pwd "));
}

#[test]
fn should_add_looks_at_the_newest_row_only() {
    let h = history(vec![row(1, "make", "s", 1, 0, "/"), row(2, "make test", "s", 2, 0, "/")]);
    assert!(h.should_add(&s("make")));
    assert!(!h.should_add(&s("make test")));
    let other = history(vec![row(1, "make", "other", 1, 0, "/")]);
    assert!(!other.should_add(&s("make")));
    assert!(history(Vec::new()).should_add(&s("make")));
}

#[test]
fn should_add_takes_a_mark_or_space_inside() {
    let h = history(Vec::new());
    assert!(h.should_add(&s("echo #mcfly:")));
    assert!(h.should_add(&s("a b")));
    assert!(!h.should_add(&s(" ")));
    assert!(h.should_add(&s("#mcfly")));
}

#[test]
fn add_appends_under_the_next_id() {
    let mut h = history(Vec::new());
    assert_eq!(h.add(&s("git status"), &s("git status"), &s("s1"), &s("/a"), &Some(100), &Some(0)), Ok(()));
    assert_eq!(h.add(&s("git commit -m x"), &s("git commit"), &s("s1"), &s("/b"), &Some(101), &Some(1)), Ok(()));
    assert_eq!(h.log.len(), 2);
    assert_eq!(h.log[0].id, 1);
    assert_eq!(h.log[1].id, 2);
    assert_eq!(h.log[1].cmd, "git commit -m x");
    assert_eq!(h.log[1].cmd_tpl, "git commit");
    assert_eq!(h.log[1].session_id, "s1");
    assert_eq!(h.log[1].when_run, Some(101));
    assert_eq!(h.log[1].exit_code, Some(1));
    assert_eq!(h.log[1].dir, Some(s("/b")));
    assert_eq!(h.log[1].rank, 0);
    assert_eq!(h.log[1].occurrences_factor, ratio(0, 1));
}

#[test]
fn add_follows_the_newest_id() {
    let mut h = history(vec![row(5, "a", "s", 1, 0, "/"), row(9, "b", "s", 2, 0, "/")]);
    assert_eq!(h.add(&s("c"), &s("c"), &s("s"), &s("/"), &Some(3), &Some(0)), Ok(()));
    assert_eq!(ids(&h.log), vec![5, 9, 10]);
}

#[test]
fn add_refuses_a_command_without_time() {
    let mut h = history(vec![row(1, "a", "s", 1, 0, "/")]);
    assert_eq!(h.add(&s("b"), &s("b"), &s("s"), &s("/"), &None, &Some(0)), Err(AppendError::MissingTime));
    assert_eq!(h.add(&s("b"), &s("b"), &s("s"), &s("/"), &None, &None), Err(AppendError::MissingTime));
    assert_eq!(ids(&h.log), vec![1]);
}

#[test]
fn add_refuses_a_command_without_exit_code() {
    let mut h = history(vec![row(1, "a", "s", 1, 0, "/")]);
    assert_eq!(h.add(&s("b"), &s("b"), &s("s"), &s("/"), &Some(2), &None), Err(AppendError::MissingExitCode));
    assert_eq!(ids(&h.log), vec![1]);
}

#[test]
fn add_refuses_when_the_ids_are_used_up() {
    let mut h = history(vec![row(i64::MAX, "a", "s", 1, 0, "/")]);
    assert_eq!(h.add(&s("b"), &s("b"), &s("s"), &s("/"), &Some(2), &Some(0)), Err(AppendError::LogFull));
    assert_eq!(h.log.len(), 1);
}

#[test]
fn add_leaves_the_view_alone() {
    let mut h = history(vec![row(1, "x", "s", 1, 0, "/"), row(2, "make", "s", 2, 0, "/")]);
    h.build_cache_table(&s("/"), &None, None, Some(100), 100);
    let before = texts(&h.view);
    assert_eq!(h.add(&s("ls -l"), &s("ls"), &s("s"), &s("/"), &Some(3), &Some(0)), Ok(()));
    assert_eq!(texts(&h.view), before);
}

fn five() -> History {
    history(vec![
        row(1, "a", "s1", 1, 0, "/"),
        row(2, "b", "s2", 2, 0, "/"),
        row(3, "c", "s1", 3, 0, "/"),
        row(4, "d", "s2", 4, 0, "/"),
        row(5, "e", "s1", 5, 0, "/"),
    ])
}

#[test]
fn commands_come_newest_first() {
    let h = five();
    assert_eq!(texts(&h.commands(&None, 10, 0)), vec!["e", "d", "c", "b", "a"]);
    assert_eq!(texts(&h.commands(&None, 2, 0)), vec!["e", "d"]);
    assert_eq!(texts(&h.commands(&None, 2, 1)), vec!["d", "c"]);
    assert_eq!(texts(&h.commands(&None, 2, 4)), vec!["a"]);
    assert_eq!(texts(&h.commands(&None, 2, 5)), Vec::<String>::new());
    assert_eq!(texts(&h.commands(&None, 0, 0)), Vec::<String>::new());
}

#[test]
fn commands_keep_to_the_session() {
    let h = five();
    assert_eq!(texts(&h.commands(&Some(s("s1")), 10, 0)), vec!["e", "c", "a"]);
    assert_eq!(texts(&h.commands(&Some(s("s1")), 1, 1)), vec!["c"]);
    assert_eq!(texts(&h.commands(&Some(s("s2")), 10, 0)), vec!["d", "b"]);
    assert_eq!(texts(&h.commands(&Some(s("s3")), 10, 0)), Vec::<String>::new());
}

#[test]
fn commands_with_a_negative_number_are_not_limited() {
    let h = five();
    assert_eq!(texts(&h.commands(&None, -1, 0)), vec!["e", "d", "c", "b", "a"]);
    assert_eq!(texts(&h.commands(&None, -1, 3)), vec!["b", "a"]);
}

#[test]
fn commands_hand_out_records_without_a_score() {
    let mut h = history(vec![row(1, "x", "s", 1, 0, "/"), row(2, "make", "s", 2, 0, "/a")]);
    h.build_cache_table(&s("/a"), &None, None, Some(100), 100);
    let rows = h.commands(&None, 1, 0);
    assert_eq!(rows.len(), 1);
    assert_eq!(rows[0], row(2, "make", "s", 2, 0, "/a"));
}

#[test]
fn last_command_is_the_newest_row() {
    let h = five();
    assert_eq!(h.last_command(&None).map(|c| c.cmd), Some(s("e")));
    assert_eq!(h.last_command(&Some(s("s2"))).map(|c| c.cmd), Some(s("d")));
    assert_eq!(h.last_command(&Some(s("s3"))), None);
    assert_eq!(history(Vec::new()).last_command(&None), None);
}

#[test]
fn last_command_templates_follow_commands() {
    let h = history(vec![
        with_template(row(1, "git add a", "s1", 1, 0, "/"), "git add"),
        with_template(row(2, "ls -l", "s2", 2, 0, "/"), "ls"),
        with_template(row(3, "git push", "s1", 3, 0, "/"), "git push"),
    ]);
    assert_eq!(h.last_command_templates(&None, 3, 0), vec!["git push", "ls", "git add"]);
    assert_eq!(h.last_command_templates(&Some(s("s1")), 3, 0), vec!["git push", "git add"]);
    assert_eq!(h.last_command_templates(&None, 1, 1), vec!["ls"]);
}

#[test]
fn template_window_takes_the_session_when_it_has_three() {
    let h = five();
    assert_eq!(h.template_window(&Some(s("s1"))), vec!["e", "c", "a"]);
}

#[test]
fn template_window_falls_back_to_the_whole_log() {
    let h = five();
    assert_eq!(h.template_window(&Some(s("s2"))), vec!["e", "d", "c"]);
    assert_eq!(h.template_window(&None), vec!["e", "d", "c"]);
}

#[test]
fn template_window_is_filled_up_with_empty_texts() {
    let h = history(vec![row(1, "a", "s1", 1, 0, "/"), row(2, "b", "s1", 2, 0, "/")]);
    assert_eq!(h.template_window(&Some(s("s1"))), vec!["b", "a", ""]);
    assert_eq!(history(Vec::new()).template_window(&None), vec!["", "", ""]);
}

#[test]
fn view_of_a_single_command_log() {
    let mut h = history(vec![row(1, "make", "s", 100, 0, "/a")]);
    h.build_cache_table(&s("/a"), &None, None, Some(1000), 1000);
    assert!(h.view.is_empty());
    assert_eq!(h.add(&s("make"), &s("make"), &s("s"), &s("/a"), &Some(100), &Some(0)), Ok(()));
    h.build_cache_table(&s("/a"), &None, None, Some(1000), 1000);
    assert_eq!(h.view.len(), 1);
    let v = &h.view[0];
    assert_eq!(v.id, 2);
    assert_eq!(v.cmd, "make");
    assert_eq!(v.occurrences_factor, ratio(1, 2));
    assert!(v.occurrences_factor.num > 0);
    assert_eq!(v.age_factor, ratio(0, 3600));
    assert_eq!(v.exit_factor, ratio(1, 1));
    assert_eq!(v.dir_factor, ratio(1, 2));
}

#[test]
fn view_of_an_empty_log_is_empty() {
    let mut h = history(Vec::new());
    h.build_cache_table(&s("/a"), &None, None, None, 1000);
    assert!(h.view.is_empty());
    assert!(h.find_matches(&s(""), None).is_empty());
}

#[test]
fn directory_affinity() {
    let mut h = history(vec![
        row(1, "x", "s", 100, 0, "/z"),
        row(2, "make", "s", 200, 0, "/a"),
        row(3, "make", "s", 300, 0, "/b"),
    ]);
    h.build_cache_table(&s("/a"), &None, None, Some(1000), 1000);
    assert_eq!(h.view.len(), 1);
    let v = &h.view[0];
    assert_eq!(v.cmd, "make");
    assert_eq!(v.dir_factor, ratio(1, 2));
    assert_eq!(v.dir_factor.num as f64 / v.dir_factor.den as f64, 0.5);
}

#[test]
fn every_factor_of_a_small_log() {
    let mut h = history(vec![
        row(1, "x", "s", 100, 0, "/z"),
        row(2, "make", "s", 200, 0, "/a"),
        row(3, "make", "s", 300, 0, "/b"),
    ]);
    h.build_cache_table(&s("/a"), &None, None, Some(1000), 1000);
    let v = &h.view[0];
    assert_eq!(v.id, 3);
    assert_eq!(v.session_id, "s");
    assert_eq!(v.when_run, Some(300));
    assert_eq!(v.exit_code, Some(0));
    assert_eq!(v.dir, Some(s("/b")));
    assert_eq!(v.rank, 0);
    assert_eq!(v.age_factor, ratio(100, 200));
    assert_eq!(v.exit_factor, ratio(2, 2));
    assert_eq!(v.recent_failure_factor, ratio(0, 1));
    assert_eq!(v.dir_factor, ratio(1, 2));
    assert_eq!(v.overlap_factor, ratio(3, 6));
    assert_eq!(v.immediate_overlap_factor, ratio(1, 2));
    assert_eq!(v.occurrences_factor, ratio(2, 2));
}

#[test]
fn recent_failure() {
    let now: i64 = 10_000;
    let mut h = history(vec![row(1, "x", "s", 1, 0, "/"), row(2, "deploy", "s", now - 30, 1, "/")]);
    h.build_cache_table(&s("/"), &None, None, Some(now + 1), now);
    assert_eq!(h.view[0].cmd, "deploy");
    assert_eq!(h.view[0].recent_failure_factor, ratio(1, 1));
    assert_eq!(h.view[0].exit_factor, ratio(0, 1));

    let mut h = history(vec![row(1, "x", "s", 1, 0, "/"), row(2, "deploy", "s", now - 300, 1, "/")]);
    h.build_cache_table(&s("/"), &None, None, Some(now + 1), now);
    assert_eq!(h.view[0].recent_failure_factor, ratio(0, 1));
}

#[test]
fn recent_failure_needs_exit_code_one_and_two_minutes() {
    let now: i64 = 10_000;
    let mut h = history(vec![
        row(1, "x", "s", 1, 0, "/"),
        row(2, "a", "s", now - 30, 2, "/"),
        row(3, "b", "s", now - 120, 1, "/"),
        row(4, "c", "s", now - 119, 1, "/"),
        row(5, "d", "s", now - 10, 0, "/"),
    ]);
    h.build_cache_table(&s("/"), &None, None, Some(now + 1), now);
    assert_eq!(texts(&h.view), vec!["d", "c", "b", "a"]);
    assert_eq!(h.view[0].recent_failure_factor, ratio(0, 1));
    assert_eq!(h.view[1].recent_failure_factor, ratio(1, 1));
    assert_eq!(h.view[2].recent_failure_factor, ratio(0, 1));
    assert_eq!(h.view[3].recent_failure_factor, ratio(0, 1));
}

#[test]
fn immediate_overlap() {
    let mut h = history(vec![
        with_template(row(1, "a", "old", 1, 0, "/"), "A"),
        with_template(row(2, "a", "old", 2, 0, "/"), "A"),
        with_template(row(3, "b", "old", 3, 0, "/"), "B"),
        with_template(row(4, "c", "cur", 4, 0, "/"), "C"),
        with_template(row(5, "c", "cur", 5, 0, "/"), "C"),
        with_template(row(6, "a2", "cur", 6, 0, "/"), "A"),
    ]);
    assert_eq!(h.template_window(&Some(s("cur"))), vec!["A", "C", "C"]);
    h.build_cache_table(&s("/"), &Some(s("cur")), None, Some(100), 100);
    assert_eq!(texts(&h.view), vec!["a2", "c", "b", "a"]);
    let b = &h.view[2];
    assert_eq!(b.immediate_overlap_factor, ratio(1, 2));
    assert_eq!(b.overlap_factor, ratio(1, 6));
    let c = &h.view[1];
    assert_eq!(c.immediate_overlap_factor, ratio(0, 2));
    assert_eq!(c.overlap_factor, ratio(3, 6));
    let a = &h.view[3];
    assert_eq!(a.immediate_overlap_factor, ratio(1, 2));
    assert_eq!(a.overlap_factor, ratio(1, 6));
}

#[test]
fn overlap_looks_at_ids_not_at_places() {
    let mut h = history(vec![
        with_template(row(1, "a", "s", 1, 0, "/"), "T"),
        with_template(row(10, "b", "s", 2, 0, "/"), "T"),
        with_template(row(11, "c", "s", 3, 0, "/"), "U"),
        with_template(row(15, "d", "s", 4, 0, "/"), "T"),
    ]);
    assert_eq!(h.template_window(&None), vec!["T", "U", "T"]);
    h.build_cache_table(&s("/"), &None, None, Some(100), 100);
    assert_eq!(texts(&h.view), vec!["d", "c", "b"]);
    assert_eq!(h.view[0].overlap_factor, ratio(0, 3));
    assert_eq!(h.view[0].immediate_overlap_factor, ratio(0, 1));
    assert_eq!(h.view[1].overlap_factor, ratio(1, 3));
    assert_eq!(h.view[1].immediate_overlap_factor, ratio(1, 1));
    assert_eq!(h.view[2].overlap_factor, ratio(0, 3));
    assert_eq!(h.view[2].immediate_overlap_factor, ratio(0, 1));
}

#[test]
fn age_is_measured_over_the_whole_log() {
    let mut h = history(vec![
        row(1, "x", "s", 1000, 0, "/"),
        row(2, "old", "s", 1500, 0, "/"),
        row(3, "new", "s", 2000, 0, "/"),
        row(4, "old", "s", 1800, 0, "/"),
    ]);
    h.build_cache_table(&s("/"), &None, None, Some(5000), 5000);
    assert_eq!(texts(&h.view), vec!["old", "new"]);
    assert_eq!(h.view[0].age_factor, ratio(500, 1000));
    assert_eq!(h.view[1].age_factor, ratio(0, 1000));
}

#[test]
fn time_window_is_open_at_both_ends() {
    let mut h = history(vec![
        row(1, "x", "s", 150, 0, "/"),
        row(2, "a", "s", 100, 0, "/"),
        row(3, "b", "s", 150, 0, "/"),
        row(4, "c", "s", 200, 0, "/"),
        row(5, "b", "s", 300, 0, "/"),
    ]);
    h.build_cache_table(&s("/"), &None, Some(100), Some(200), 1000);
    assert_eq!(texts(&h.view), vec!["b"]);
    assert_eq!(h.view[0].id, 3);
    assert_eq!(h.view[0].occurrences_factor, ratio(1, 2));
    assert_eq!(h.view[0].age_factor, ratio(150, 200));
}

#[test]
fn time_window_defaults_to_zero_and_now() {
    let mut h = history(vec![
        row(1, "x", "s", 5, 0, "/"),
        row(2, "early", "s", 0, 0, "/"),
        row(3, "fine", "s", 50, 0, "/"),
        row(4, "late", "s", 100, 0, "/"),
        row(5, "before", "s", -5, 0, "/"),
    ]);
    h.build_cache_table(&s("/"), &None, None, None, 100);
    assert_eq!(texts(&h.view), vec!["fine"]);
}

#[test]
fn view_has_one_row_for_each_text() {
    let mut h = history(vec![
        row(1, "x", "s", 1, 0, "/"),
        row(2, "a", "s", 2, 0, "/"),
        row(3, "b", "s", 3, 0, "/"),
        row(4, "a", "s", 4, 1, "/"),
        row(5, "x", "s", 5, 0, "/"),
        row(6, "b", "s", 6, 0, "/"),
        row(7, "a", "s", 7, 0, "/"),
    ]);
    h.build_cache_table(&s("/"), &None, None, Some(100), 1000);
    assert_eq!(texts(&h.view), vec!["a", "b", "x"]);
    assert_eq!(ids(&h.view), vec![7, 6, 5]);
    assert_eq!(h.view[0].occurrences_factor, ratio(3, 3));
    assert_eq!(h.view[0].exit_factor, ratio(2, 3));
    assert_eq!(h.view[1].occurrences_factor, ratio(2, 3));
    assert_eq!(h.view[2].occurrences_factor, ratio(1, 3));
}

#[test]
fn bounded_factors_stay_in_their_bounds() {
    let mut h = history(vec![
        row(1, "x", "s", 900, 0, "/"),
        row(2, "a", "s", -200, 1, "/"),
        row(3, "b", "s", 995, 1, "/"),
        row(4, "a", "s", 400, 0, "/"),
    ]);
    h.build_cache_table(&s("/"), &None, Some(-1000), Some(2000), 1000);
    assert_eq!(h.view.len(), 2);
    for v in &h.view {
        assert!(v.age_factor.den > 0 && v.age_factor.num <= v.age_factor.den);
        assert!(v.exit_factor.den > 0 && v.exit_factor.num <= v.exit_factor.den);
        assert!(v.recent_failure_factor.den == 1 && v.recent_failure_factor.num <= 1);
    }
    assert_eq!(h.view[0].age_factor, ratio(1195, 1195));
    assert_eq!(h.view[1].recent_failure_factor, ratio(1, 1));
}

#[test]
fn rebuilding_twice_gives_the_same_view() {
    let mut h = five();
    h.build_cache_table(&s("/"), &Some(s("s1")), None, Some(100), 100);
    let first = h.view.clone();
    h.build_cache_table(&s("/"), &Some(s("s1")), None, Some(100), 100);
    assert_eq!(h.view, first);
    assert_eq!(ids(&h.log), vec![1, 2, 3, 4, 5]);
}

#[test]
fn appended_command_has_a_row_after_the_rebuild() {
    let mut h = history(vec![row(1, "x", "s", 1, 0, "/")]);
    assert_eq!(h.add(&s("cargo build"), &s("cargo build"), &s("s"), &s("/p"), &Some(50), &Some(0)), Ok(()));
    h.build_cache_table(&s("/p"), &Some(s("s")), None, Some(100), 100);
    assert!(h.view.iter().any(|v| v.cmd == "cargo build"));
    assert_eq!(h.view[0].id, 2);
}

fn key(rank: f64) -> i64 {
    let bits = rank.to_bits() as i64;
    if bits < 0 {
        bits ^ i64::MAX
    } else {
        bits
    }
}

#[test]
fn rank_ordering() {
    let mut h = history(vec![
        row(1, "x", "s", 1, 0, "/z"),
        row(2, "make", "s", 2, 0, "/a"),
        row(3, "make", "s", 3, 0, "/b"),
        row(4, "ls", "s", 4, 0, "/c"),
    ]);
    h.build_cache_table(&s("/a"), &None, None, Some(100), 100);
    assert_eq!(texts(&h.view), vec!["ls", "make"]);
    let ranks: Vec<i64> = h.view.iter().map(|v| key(0.0 + 1.0 * (v.dir_factor.num as f64 / v.dir_factor.den as f64))).collect();
    assert!(h.set_ranks(&ranks));
    assert_eq!(texts(&h.find_matches(&s(""), Some(10))), vec!["make", "ls"]);
}

fn ranked(ranks: Vec<i64>) -> History {
    let mut h = history(vec![
        row(1, "x", "s", 1, 0, "/"),
        row(2, "git status", "s", 2, 0, "/"),
        row(3, "git push", "s", 3, 0, "/"),
        row(4, "make", "s", 4, 0, "/"),
        row(5, "git pull", "s", 5, 0, "/"),
    ]);
    h.build_cache_table(&s("/"), &None, None, Some(100), 100);
    assert_eq!(texts(&h.view), vec!["git pull", "make", "git push", "git status"]);
    assert!(h.set_ranks(&ranks));
    h
}

#[test]
fn find_matches_orders_by_rank() {
    let h = ranked(vec![10, 40, 30, 20]);
    assert_eq!(texts(&h.find_matches(&s(""), None)), vec!["make", "git push", "git status", "git pull"]);
    assert_eq!(texts(&h.find_matches(&s("git"), None)), vec!["git push", "git status", "git pull"]);
    assert_eq!(texts(&h.find_matches(&s("pu"), None)), vec!["git push", "git pull"]);
    assert_eq!(texts(&h.find_matches(&s("svn"), None)), Vec::<String>::new());
    let found = h.find_matches(&s("make"), None);
    assert_eq!(found.len(), 1);
    assert_eq!(found[0], h.view[1]);
}

#[test]
fn find_matches_keeps_to_the_limit() {
    let h = ranked(vec![10, 40, 30, 20]);
    assert_eq!(texts(&h.find_matches(&s("git"), Some(2))), vec!["git push", "git status"]);
    assert_eq!(texts(&h.find_matches(&s("git"), Some(1))), vec!["git push"]);
    assert_eq!(texts(&h.find_matches(&s("git"), Some(0))), Vec::<String>::new());
    assert_eq!(texts(&h.find_matches(&s("git"), Some(3))), vec!["git push", "git status", "git pull"]);
}

#[test]
fn find_matches_breaks_ties_by_the_larger_id() {
    let h = ranked(vec![7, 7, 7, 7]);
    assert_eq!(ids(&h.find_matches(&s(""), None)), vec![5, 4, 3, 2]);
    let h = ranked(vec![-1, 7, -1, 7]);
    assert_eq!(ids(&h.find_matches(&s(""), None)), vec![4, 2, 5, 3]);
}

#[test]
fn find_matches_hands_out_ten_by_default() {
    let mut rows = vec![row(1, "x", "s", 1, 0, "/")];
    for i in 0..12 {
        rows.push(row(2 + i, &format!("cmd {}", i), "s", 2 + i, 0, "/"));
    }
    let mut h = history(rows);
    h.build_cache_table(&s("/"), &None, None, Some(100), 100);
    assert_eq!(h.view.len(), 12);
    let found = h.find_matches(&s("cmd"), None);
    assert_eq!(found.len(), 10);
    assert_eq!(ids(&found), vec![13, 12, 11, 10, 9, 8, 7, 6, 5, 4]);
    assert_eq!(h.find_matches(&s("cmd"), Some(12)).len(), 12);
}

#[test]
fn find_matches_tells_upper_from_lower_case() {
    let h = ranked(vec![1, 2, 3, 4]);
    assert!(h.find_matches(&s("GIT"), None).is_empty());
    assert_eq!(h.find_matches(&s("git"), None).len(), 3);
}

#[test]
fn set_ranks_needs_one_rank_for_each_row() {
    let mut h = ranked(vec![1, 2, 3, 4]);
    assert!(!h.set_ranks(&vec![9, 9, 9]));
    assert!(!h.set_ranks(&vec![9, 9, 9, 9, 9]));
    assert_eq!(h.view.iter().map(|v| v.rank).collect::<Vec<i64>>(), vec![1, 2, 3, 4]);
    assert!(h.set_ranks(&vec![4, 3, 2, 1]));
    assert_eq!(h.view.iter().map(|v| v.rank).collect::<Vec<i64>>(), vec![4, 3, 2, 1]);
    assert_eq!(texts(&h.view), vec!["git pull", "make", "git push", "git status"]);
    assert_eq!(h.view[0].occurrences_factor, ratio(1, 1));
}

#[test]
fn command_is_shown_by_its_text() {
    let c = row(3, "git log", "s", 1, 0, "/");
    assert_eq!(c.to_string(), "git log");
    assert_eq!(String::from(c), "git log");
}

#[test]
fn command_default_is_empty() {
    let c = Command::default();
    assert_eq!(c.id, 0);
    assert_eq!(c.cmd, "");
    assert_eq!(c.when_run, None);
    assert_eq!(c.exit_code, None);
    assert_eq!(c.dir, None);
    assert_eq!(c.rank, 0);
    assert_eq!(c.age_factor, ratio(0, 1));
}

#[test]
fn command_clone_and_record() {
    let mut c = row(3, "git log", "s", 1, 0, "/");
    c.rank = 5;
    c.dir_factor = ratio(1, 4);
    assert_eq!(c.clone(), c);
    assert_eq!(c.record_of(), row(3, "git log", "s", 1, 0, "/"));
    assert_eq!(Ratio::zero(), ratio(0, 1));
}

#[test]
fn import_keeps_what_is_not_ignored() {
    let lines = vec![
        (s("git status"), s("git status")),
        (s("ls"), s("ls")),
        (s("cd .."), s("cd")),
        (s("make -j4"), s("make")),
        (s("mcfly search"), s("mcfly search")),
        (s("ls -l"), s("ls")),
    ];
    let h = History::from_bash_history(&lines, 1234);
    assert_eq!(texts(&h.log), vec!["git status", "make -j4", "ls -l"]);
    assert_eq!(ids(&h.log), vec![1, 2, 3]);
    assert!(h.view.is_empty());
    let r = &h.log[1];
    assert_eq!(r.cmd_tpl, "make");
    assert_eq!(r.session_id, "IMPORTED");
    assert_eq!(r.when_run, Some(1234));
    assert_eq!(r.exit_code, Some(0));
    assert_eq!(r.dir, None);
    assert_eq!(r.rank, 0);
}

#[test]
fn import_of_nothing_is_an_empty_log() {
    let h = History::from_bash_history(&Vec::new(), 5);
    assert!(h.log.is_empty());
    let h = History::from_bash_history(&vec![(s("pwd"), s("pwd"))], 5);
    assert!(h.log.is_empty());
}
