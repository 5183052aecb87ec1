use croner::models::{Fanout, JobSpec};
use croner::parser::CronParser;

fn job(id: &str, fanout: Fanout) -> JobSpec {
    JobSpec {
        id: id.to_string(),
        schedule: CronParser::new().parse("* * * * *").unwrap(),
        base_cmd: vec!["python".to_string(), "run.py".to_string()],
        fanout,
    }
}

#[test]
fn count_fanout_expands_to_numbered_instances() {
    let instances = job("index", Fanout::Int(4)).expand();
    assert_eq!(instances.len(), 4);
    let ids: Vec<&str> = instances.iter().map(|i| i.id.as_str()).collect();
    assert_eq!(ids, vec!["index-0", "index-1", "index-2", "index-3"]);
    for instance in &instances {
        assert_eq!(instance.command, vec!["python", "run.py"]);
    }
}

#[test]
fn list_fanout_expands_to_one_instance_per_entry() {
    let base = vec!["python".to_string(), "run.py".to_string()];
    let extras = vec!["--a 1".to_string(), "'--b 2'".to_string()];
    let list = JobSpec::build_fanout_list_from_strings(&base, &extras);
    let instances = job("etl", Fanout::List(list)).expand();
    assert_eq!(instances.len(), 2);
    assert_eq!(instances[0].id, "etl-0");
    assert_eq!(instances[0].command, vec!["python", "run.py", "--a", "1"]);
    assert_eq!(instances[1].id, "etl-1");
    assert_eq!(instances[1].command, vec!["python", "run.py", "--b 2"]);
}

#[test]
fn no_fanout_expands_to_the_job_itself() {
    let instances = job("ping", Fanout::Single).expand();
    assert_eq!(instances.len(), 1);
    assert_eq!(instances[0].id, "ping");
    assert_eq!(instances[0].command, vec!["python", "run.py"]);
}

#[test]
fn zero_count_and_empty_list_expand_to_nothing() {
    assert_eq!(job("a", Fanout::Int(0)).expand().len(), 0);
    assert_eq!(job("a", Fanout::List(Vec::new())).expand().len(), 0);
}

#[test]
fn instance_numbers_are_decimal() {
    let instances = job("j", Fanout::Int(12)).expand();
    assert_eq!(instances[9].id, "j-9");
    assert_eq!(instances[10].id, "j-10");
    assert_eq!(instances[11].id, "j-11");
}

#[test]
fn extras_that_do_not_tokenize_add_nothing() {
    let base = vec!["run".to_string()];
    let extras = vec!["'open".to_string(), "ok".to_string(), "trail\\".to_string()];
    let list = JobSpec::build_fanout_list_from_strings(&base, &extras);
    assert_eq!(list, vec![vec!["run"], vec!["run", "ok"], vec!["run"]]);
    assert_eq!(
        JobSpec::build_fanout_list_from_strings(&base, &[]),
        Vec::<Vec<String>>::new()
    );
}
