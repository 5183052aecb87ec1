use croner::loader::{load_config, ConfigCache, FileStamp};
use croner::models::Fanout;

fn stamp(modified: u128, size: usize) -> FileStamp {
    FileStamp { modified, size: size as u64 }
}

#[test]
fn loads_basic_jobs_with_int_and_list_fanout() {
    let text = r#"
[job:index_articles]
schedule = */15 * * * *
command = python index.py
fanout = 4

[job:daily_etl]
schedule = 0 2 * * *
command = python etl.py
fanout[] = --source=internal --mode=full
fanout[] = --source=external --mode=delta

[job:ping]
schedule = * * * * *
command = python ping.py
"#;

    let jobs = load_config(text.as_bytes()).expect("should parse");
    assert_eq!(jobs.len(), 3);

    assert_eq!(jobs[0].id, "index_articles");
    match jobs[0].fanout {
        Fanout::Int(4) => {}
        _ => panic!("expected Fanout::Int(4)"),
    }

    match jobs[1].fanout {
        Fanout::List(ref v) => {
            assert_eq!(v.len(), 2, "expected two fanout entries");
            assert!(v
                .iter()
                .any(|args| { args.iter().any(|a| a.contains("--source=internal")) }));
            assert!(v
                .iter()
                .any(|args| { args.iter().any(|a| a.contains("--source=external")) }));
        }
        _ => panic!("expected Fanout::List"),
    }

    match jobs[2].fanout {
        Fanout::Single => {}
        _ => panic!("expected a single run"),
    }
}

#[test]
fn ignores_comments_blank_lines_and_handles_crlf() {
    let content = "[job:a]\r\n \
                   # comment\r\n\
                   schedule = * * * * *\r\n\
                   command = echo \"hi\"\r\n";

    let jobs = load_config(content.as_bytes()).expect("parse");
    assert_eq!(jobs.len(), 1);
    assert_eq!(jobs[0].id, "a");
    assert!(matches!(jobs[0].fanout, Fanout::Single));
}

#[test]
fn handles_utf8_bom() {
    let bom = [0xEFu8, 0xBB, 0xBF];
    let body = br#"[job:x]
schedule = * * * * *
command = echo hi
"#;
    let mut data = Vec::new();
    data.extend_from_slice(&bom);
    data.extend_from_slice(body);

    let jobs = load_config(&data).expect("parse with BOM");
    assert_eq!(jobs.len(), 1);
    assert_eq!(jobs[0].id, "x");
}

#[test]
fn error_on_unknown_key() {
    let text = r#"
[job:a]
schedule = * * * * *
command = echo hi
wat = huh
"#;

    let err = load_config(text.as_bytes()).unwrap_err();
    assert!(err.to_lowercase().contains("unknown key"));
    assert_eq!(err, "line 5: unknown key wat");
}

#[test]
fn error_on_duplicate_key() {
    let text = r#"
[job:a]
schedule = * * * * *
schedule = * * * * *
command = echo hi
"#;

    let err = load_config(text.as_bytes()).unwrap_err();
    assert!(err.to_lowercase().contains("duplicate `schedule`"));
    assert_eq!(err, "line 4: duplicate `schedule`");
}

#[test]
fn error_on_missing_required_fields() {
    let text = r#"
[job:a]
command = echo hi
"#;

    let err = load_config(text.as_bytes()).unwrap_err();
    assert!(err.to_lowercase().contains("missing schedule"));
    assert_eq!(err, "line 2: job 'a': missing schedule");

    let text = r#"
[job:a]
schedule = * * * * *
"#;
    let err = load_config(text.as_bytes()).unwrap_err();
    assert!(err.to_lowercase().contains("missing command"));
    assert_eq!(err, "line 2: job 'a': missing command");
}

#[test]
fn error_on_duplicate_fanout_key() {
    let text = r#"
[job:a]
schedule = * * * * *
command = echo hi
fanout = 2
fanout = ["--x"]
"#;
    let err = load_config(text.as_bytes()).unwrap_err();
    assert!(err.to_lowercase().contains("duplicate `fanout`"));
    assert_eq!(err, "line 6: duplicate `fanout`");
}

#[test]
fn error_on_fanout_non_int() {
    let text = r#"
[job:a]
schedule = * * * * *
command = echo hi
fanout = nope
"#;
    let err = load_config(text.as_bytes()).unwrap_err();
    assert!(err.to_lowercase().contains("fanout must be an integer"));
    assert_eq!(err, "line 5: fanout must be an integer");
}

#[test]
fn error_on_duplicate_ids() {
    let text = r#"
[job:a]
schedule = * * * * *
command = echo hi

[job:a]
schedule = * * * * *
command = echo hi
"#;

    let err = load_config(text.as_bytes()).unwrap_err();
    assert!(err.to_lowercase().contains("duplicate job id"));
    assert_eq!(err, "duplicate job id 'a'");
}

#[test]
fn cache_reload_if_changed_behaves_atomically() {
    let first = r#"
[job:a]
schedule = * * * * *
command = echo hi
"#;

    let mut cache = ConfigCache::new();

    let changed = cache
        .reload_if_changed(stamp(1, first.len()), first.as_bytes())
        .expect("reload");
    assert!(changed);
    assert_eq!(cache.jobs.len(), 1);
    assert_eq!(cache.jobs[0].id, "a");

    let changed = cache
        .reload_if_changed(stamp(1, first.len()), first.as_bytes())
        .expect("reload unchanged");
    assert!(!changed);
    assert_eq!(cache.jobs.len(), 1);

    let broken = r#"
[job:a]
schedule = * * * * *
# missing command
"#;
    let res = cache.reload_if_changed(stamp(2, broken.len()), broken.as_bytes());
    assert!(res.is_err(), "should error on invalid config");
    assert_eq!(cache.jobs.len(), 1);
    assert_eq!(cache.jobs[0].id, "a");

    let fixed = r#"
[job:b]
schedule = * * * * *
command = echo bye
"#;
    let changed = cache
        .reload_if_changed(stamp(3, fixed.len()), fixed.as_bytes())
        .expect("reload fixed");
    assert!(changed);
    assert_eq!(cache.jobs.len(), 1);
    assert_eq!(cache.jobs[0].id, "b");
}

#[test]
fn failed_reload_keeps_the_old_stamp() {
    let good = "[job:a]\nschedule = * * * * *\ncommand = echo hi\n";
    let mut cache = ConfigCache::new();
    assert!(!cache.is_current(&stamp(1, good.len())));
    assert_eq!(cache.reload_if_changed(stamp(1, good.len()), good.as_bytes()), Ok(true));
    assert!(cache.is_current(&stamp(1, good.len())));

    let bad = "[job:a]\n";
    assert!(cache.reload_if_changed(stamp(2, bad.len()), bad.as_bytes()).is_err());
    assert!(cache.is_current(&stamp(1, good.len())));
    assert!(!cache.is_current(&stamp(2, bad.len())));

    assert!(cache.reload_if_changed(stamp(2, bad.len()), bad.as_bytes()).is_err());
    assert_eq!(cache.jobs.len(), 1);
}

#[test]
fn unchanged_stamp_skips_even_different_data() {
    let good = "[job:a]\nschedule = * * * * *\ncommand = echo hi\n";
    let other = "[job:b]\nschedule = * * * * *\ncommand = echo hi\n";
    let mut cache = ConfigCache::new();
    assert_eq!(cache.reload_if_changed(stamp(7, 50), good.as_bytes()), Ok(true));
    assert_eq!(cache.reload_if_changed(stamp(7, 50), other.as_bytes()), Ok(false));
    assert_eq!(cache.jobs[0].id, "a");
    assert_eq!(cache.reload_if_changed(stamp(7, 51), other.as_bytes()), Ok(true));
    assert_eq!(cache.jobs[0].id, "b");
    assert_eq!(cache.reload_if_changed(stamp(8, 51), good.as_bytes()), Ok(true));
    assert_eq!(cache.jobs[0].id, "a");
}

#[test]
fn empty_file_declares_no_jobs() {
    assert_eq!(load_config(b"").unwrap().len(), 0);
    assert_eq!(load_config(b"\n\n# nothing\n   \n").unwrap().len(), 0);
    assert_eq!(load_config(&[0xEF, 0xBB, 0xBF]).unwrap().len(), 0);
}

#[test]
fn file_must_be_utf8() {
    assert_eq!(
        load_config(&[b'[', b'j', 0xff]).unwrap_err(),
        "config is not valid UTF-8"
    );
}

#[test]
fn line_errors_carry_their_line_number() {
    assert_eq!(
        load_config(b"\n\nnonsense\n").unwrap_err(),
        "line 3: expected `key = value`"
    );
    assert_eq!(
        load_config(b"# c\nschedule = * * * * *\n").unwrap_err(),
        "line 2: key outside of [job:<id>] section"
    );
    assert_eq!(
        load_config(b"[job:a]\ncommand = x\ncommand = y\n").unwrap_err(),
        "line 3: duplicate `command`"
    );
    assert_eq!(
        load_config(b"[job:a]\ncommand =\n").unwrap_err(),
        "line 2: command cannot be empty"
    );
    assert_eq!(
        load_config(b"[job:a]\ncommand = # only a comment\n").unwrap_err(),
        "line 2: command cannot be empty"
    );
    assert_eq!(
        load_config(b"[job:a]\nfanout[] = -x\nfanout = 3\n").unwrap_err(),
        "line 3: `fanout` conflicts with `fanout[]`"
    );
    assert_eq!(
        load_config(b"[job:a]\nfanout = 3\nfanout[] = -x\n").unwrap_err(),
        "line 3: `fanout[]` conflicts with `fanout`"
    );
    assert_eq!(
        load_config(b"[job:a]\nfanout[] =\n").unwrap_err(),
        "line 2: fanout[] value cannot be empty"
    );
    assert_eq!(
        load_config(b"[job:a]\nfanout = -1\n").unwrap_err(),
        "line 2: fanout must be an integer"
    );
    assert_eq!(
        load_config(b"[job:a]\nfanout = 99999999999999999999999999\n").unwrap_err(),
        "line 2: fanout must be an integer"
    );
    assert_eq!(
        load_config(b"[job:a]\nSchedule = * * * * *\n").unwrap_err(),
        "line 2: unknown key Schedule"
    );
    assert_eq!(
        load_config(b"[job:a]\n = 1\n").unwrap_err(),
        "line 2: unknown key "
    );
}

#[test]
fn malformed_headers_are_not_sections() {
    assert_eq!(
        load_config(b"[job:]\n").unwrap_err(),
        "line 1: expected `key = value`"
    );
    assert_eq!(
        load_config(b"[job:   ]\n").unwrap_err(),
        "line 1: expected `key = value`"
    );
    assert_eq!(
        load_config(b"[job:a\n").unwrap_err(),
        "line 1: expected `key = value`"
    );
    assert_eq!(
        load_config(b"[Job:a]\n").unwrap_err(),
        "line 1: expected `key = value`"
    );
    assert_eq!(
        load_config(b"[job:a=b]\n").unwrap_err(),
        "line 1: job 'a=b': missing schedule"
    );
}

#[test]
fn id_of_only_unicode_whitespace_is_empty() {
    assert_eq!(
        load_config("\n[job:\u{a0}]\n".as_bytes()).unwrap_err(),
        "line 2: empty job id"
    );
    let jobs =
        load_config("[job: \u{2003}x y\u{a0} ]\nschedule=* * * * *\ncommand=c".as_bytes()).unwrap();
    assert_eq!(jobs[0].id, "x y");
}

#[test]
fn section_errors_name_the_job_and_its_first_line() {
    assert_eq!(
        load_config(b"\n[job:a]\ncommand = x\nschedule = 61 * * * *\n").unwrap_err(),
        "line 2: job 'a': invalid schedule: Invalid value: 61"
    );
    assert_eq!(
        load_config(b"[job:a]\nschedule = * * * *\ncommand = x\n[job:b]\n").unwrap_err(),
        "line 1: job 'a': invalid schedule: Expected 5 fields in cron expression, got: 4"
    );
    assert_eq!(
        load_config(b"[job:ok]\nschedule=* * * * *\ncommand=x\n\n\n[job:b]\ncommand = x\n")
            .unwrap_err(),
        "line 6: job 'b': missing schedule"
    );
}

#[test]
fn commands_that_do_not_tokenize_fail_the_load() {
    assert_eq!(
        load_config(b"[job:a]\nschedule = * * * * *\ncommand = echo 'oops\n").unwrap_err(),
        "line 1: job 'a': invalid command: unclosed quote"
    );
    assert_eq!(
        load_config(b"[job:a]\nschedule = * * * * *\ncommand = echo \\\n").unwrap_err(),
        "line 1: job 'a': invalid command: dangling backslash at end of input"
    );
    assert_eq!(
        load_config(b"[job:a]\nschedule = * * * * *\ncommand = x\nfanout[] = ok\nfanout[] = \"no\n")
            .unwrap_err(),
        "line 1: job 'a': invalid fanout[] entry: unclosed quote"
    );
}

#[test]
fn hash_starts_a_comment_even_inside_quotes() {
    let jobs = load_config(b"[job:a] # first\nschedule = * * * * * # s\ncommand = echo a#b\n")
        .unwrap();
    assert_eq!(jobs[0].base_cmd, vec!["echo", "a"]);
    assert_eq!(
        load_config(b"[job:a]\nschedule = * * * * *\ncommand = echo 'a # b'\n").unwrap_err(),
        "line 1: job 'a': invalid command: unclosed quote"
    );
}

#[test]
fn list_fanout_appends_each_entry_to_the_base_command() {
    let jobs = load_config(
        b"[job:etl]\nschedule = 0 2 * * *\ncommand = python 'etl job.py'\n\
          fanout[] = --source=internal --mode=full\nfanout[] = '--source=ext ernal'\n",
    )
    .unwrap();
    assert_eq!(jobs[0].base_cmd, vec!["python", "etl job.py"]);
    match &jobs[0].fanout {
        Fanout::List(v) => {
            assert_eq!(
                v,
                &vec![
                    vec!["python", "etl job.py", "--source=internal", "--mode=full"],
                    vec!["python", "etl job.py", "--source=ext ernal"],
                ]
            );
        }
        _ => panic!("expected a list"),
    }
    assert_eq!(jobs[0].schedule.minute, 1);
    assert_eq!(jobs[0].schedule.hour, 4);
    assert_eq!(jobs[0].schedule.weekday, 0x7f);
}

#[test]
fn values_keep_inner_equals_signs_and_lose_outer_blanks() {
    let jobs =
        load_config(b"  [job: spaced id ]  \n\tschedule\t=\t* * * * *  \n command = a=b c \n")
            .unwrap();
    assert_eq!(jobs[0].id, "spaced id");
    assert_eq!(jobs[0].base_cmd, vec!["a=b", "c"]);
}

#[test]
fn last_line_needs_no_line_feed() {
    let jobs = load_config(b"[job:a]\nschedule = * * * * *\ncommand = x\r").unwrap();
    assert_eq!(jobs[0].base_cmd, vec!["x"]);
    let jobs = load_config(b"[job:a]\nschedule = * * * * *\ncommand = x\nfanout = +7").unwrap();
    assert!(matches!(jobs[0].fanout, Fanout::Int(7)));
}

#[test]
fn three_jobs_keep_their_order_and_distinct_ids() {
    let text = "[job:c]\nschedule=* * * * *\ncommand=1\n[job:a]\nschedule=* * * * *\ncommand=2\n\
                [job:b]\nschedule=* * * * *\ncommand=3\n";
    let jobs = load_config(text.as_bytes()).unwrap();
    let ids: Vec<&str> = jobs.iter().map(|j| j.id.as_str()).collect();
    assert_eq!(ids, vec!["c", "a", "b"]);
    let text = format!("{}[job: c ]\nschedule=* * * * *\ncommand=4\n", text);
    assert_eq!(load_config(text.as_bytes()).unwrap_err(), "duplicate job id 'c'");
}
