use kanso::diag::Span;
use kanso::eval::{chain_word, deferral_key, origin_at, slice_range, Rng, Site, ThunkStats, Word};

#[test]
fn an_err_records_where_it_was_raised() {
    let site = Site { prefix: "main at spec.kso".to_string(), hako: "me/app".to_string() };
    let raised = origin_at(&Some(site), Span::at(4, 9));
    assert_eq!(raised.at.as_deref(), Some("main at spec.kso:4"));
    assert_eq!(raised.hako.as_deref(), Some("me/app"));
    let bare = origin_at(&None, Span::at(4, 9));
    assert!(bare.at.is_none() && bare.hako.is_none());
}

#[test]
fn chain_words_are_three() {
    assert_eq!(chain_word("bind"), Some(Word::Bind));
    assert_eq!(chain_word("rescue"), Some(Word::Rescue));
    assert_eq!(chain_word("annotate"), Some(Word::Annotate));
    assert_eq!(chain_word("map"), None);
}

#[test]
fn a_slice_is_one_based_and_inclusive() {
    assert_eq!(slice_range(5, 2, 4), Some((1, 4)));
    assert_eq!(slice_range(5, 1, 5), Some((0, 5)));
    assert_eq!(slice_range(5, 0, 3), None);
    assert_eq!(slice_range(5, 4, 3), None);
    assert_eq!(slice_range(5, 2, 6), None);
}

#[test]
fn deferral_keys_are_odd() {
    assert_eq!(deferral_key(0), 1);
    assert_eq!(deferral_key(20), 41);
}

#[test]
fn thunk_stats_render_one_per_line() {
    let stats = ThunkStats { allocs: 3, forces: 2, evals: 10 };
    assert_eq!(stats.render(), "thunk_allocs=3\nthunk_forces=2\nthunk_evals=10\n");
    assert_eq!(ThunkStats::default().render(), "thunk_allocs=0\nthunk_forces=0\nthunk_evals=0\n");
}

#[test]
fn the_generator_is_splitmix() {
    let mut r = Rng::from_seed(0);
    assert_eq!(r.below(100), 35);
    assert_eq!(r.0, 0x9e37_79b9_7f4a_7c15);
    assert_eq!(r.below(100), 0);
    let mut r = Rng::from_seed(42);
    assert_eq!(r.below(6), 1);
    let mut r = Rng::from_seed(7);
    assert_eq!(r.below(0), 0);
    assert_eq!(r.0, 7);
}

use kanso::eval::ScriptedExecutor;

#[test]
fn a_scripted_run_writes_down_what_it_asked() {
    let mut ex = ScriptedExecutor::with_rng(Rng::from_seed(7));
    ex.print("a");
    ex.print("b \"quoted\"\n");
    ex.write("w");
    ex.write_err("e");
    assert_eq!(ex.env("HOME"), None);
    assert!(!ex.path_exists("x.kso"));
    assert_eq!(ex.now(), 0);
    assert_eq!(ex.list_dir("d"), Ok(vec![]));
    assert_eq!(ex.run("git", &["ls-remote".to_string(), "a b".to_string()]), Ok((0, String::new(), String::new())));
    assert_eq!(ex.make_dir("out"), Ok(()));
    assert_eq!(ex.write_file("out/a.txt", "hi"), Ok(()));
    assert_eq!(
        ex.transcript,
        vec![
            "print \"a\"",
            "print \"b \\\"quoted\\\"\\n\"",
            "write \"w\"",
            "write_err \"e\"",
            "env \"HOME\"",
            "exists \"x.kso\"",
            "now",
            "list_dir \"d\"",
            "run \"git\" [\"ls-remote\", \"a b\"]",
            "make_dir \"out\"",
            "write_file \"out/a.txt\" \"hi\"",
        ]
    );
}

#[test]
fn a_scripted_file_is_read_back_and_the_last_entry_decides() {
    let mut ex = ScriptedExecutor::with_rng(Rng::from_seed(1));
    ex.files = vec![("a".to_string(), "one".to_string()), ("a".to_string(), "two".to_string())];
    ex.script_args = vec!["x".to_string()];
    ex.script_stdin = "in".to_string();
    assert_eq!(ex.read_file("a"), Ok(Some("two".to_string())));
    assert_eq!(ex.read_file("b"), Ok(None));
    assert_eq!(ex.args(), vec!["x".to_string()]);
    assert_eq!(ex.stdin(), Ok("in".to_string()));
    assert_eq!(ex.transcript, vec!["read_file \"a\"", "read_file \"b\""]);
    assert_eq!(ex.run("true", &[]), Ok((0, String::new(), String::new())));
    assert_eq!(ex.transcript[2], "run \"true\" []");
}
