use todoclist::codec::{decode, encode};
use todoclist::command::{execute, match_id, run, CmdError, Command, IdError, Outcome, Report};
use todoclist::model::{List, Task};
use todoclist::timestamp;

fn written(o: &Outcome) -> String {
    o.write.clone().expect("a write")
}

fn listing(o: &Outcome) -> Vec<(usize, String, u64)> {
    match &o.report {
        Report::Listing(v) => v.iter().map(|e| (e.id, e.task.name.clone(), e.task.creation)).collect(),
        r => panic!("not a listing: {:?}", r),
    }
}

fn add(file: &str, name: &str, now: u64) -> String {
    let o = run(&Command::Add(name.to_string()), Some(file), false, now);
    written(&o)
}

#[test]
fn init_then_list_is_empty() {
    let o = run(&Command::Init, None, false, 1);
    assert!(matches!(o.report, Report::Initialized));
    assert!(o.initialized);
    let file = written(&o);
    let l = run(&Command::List, Some(&file), false, 2);
    assert!(l.write.is_none());
    assert!(listing(&l).is_empty());
}

#[test]
fn init_twice_already_exists() {
    let file = written(&run(&Command::Init, None, false, 1));
    let o = run(&Command::Init, Some(&file), false, 2);
    assert!(matches!(o.report, Report::Failed(CmdError::AlreadyExists)));
    assert!(o.write.is_none());
}

#[test]
fn add_then_list_one_entry() {
    let file = written(&run(&Command::Init, None, false, 1));
    let o = run(&Command::Add("buy milk".to_string()), Some(&file), false, 1700000000);
    assert!(matches!(o.report, Report::Added(1)));
    let file = written(&o);
    let l = run(&Command::List, Some(&file), false, 1700000100);
    assert_eq!(listing(&l), vec![(1, "buy milk".to_string(), 1700000000)]);
}

#[test]
fn complete_one_task() {
    let file = add(&written(&run(&Command::Init, None, false, 1)), "t", 10);
    let o = run(&Command::Complete("1".to_string()), Some(&file), false, 20);
    assert!(matches!(o.report, Report::Completed(1)));
    let file = written(&o);
    assert_eq!(decode(&file).unwrap().tasks[0].completed, Some(20));
    assert!(listing(&run(&Command::List, Some(&file), false, 21)).is_empty());
    let again = run(&Command::Complete("1".to_string()), Some(&file), false, 30);
    assert!(matches!(again.report, Report::Completed(1)));
    assert_eq!(decode(&written(&again)).unwrap().tasks[0].completed, Some(30));
}

#[test]
fn delete_one_task_then_not_found() {
    let file = add(&written(&run(&Command::Init, None, false, 1)), "t", 10);
    let o = run(&Command::Delete("1".to_string()), Some(&file), false, 20);
    match &o.report {
        Report::Deleted(1, name) => assert_eq!(name, "t"),
        r => panic!("{:?}", r),
    }
    let file = written(&o);
    assert_eq!(decode(&file).unwrap().tasks.len(), 0);
    let c = run(&Command::Complete("1".to_string()), Some(&file), false, 30);
    assert!(matches!(c.report, Report::Failed(CmdError::NotFound(1))));
    assert!(c.write.is_none());
    let d = run(&Command::Delete("1".to_string()), Some(&file), false, 30);
    assert!(matches!(d.report, Report::Failed(CmdError::NotFound(1))));
    assert!(d.write.is_none());
}

#[test]
fn invalid_ids_write_nothing() {
    let file = add(&encode(&List::new()), "t", 10);
    for cmd in [
        Command::Complete("0".to_string()),
        Command::Complete("abc".to_string()),
        Command::Delete("0".to_string()),
    ] {
        let o = run(&cmd, Some(&file), false, 20);
        assert!(matches!(o.report, Report::Failed(CmdError::InvalidId(_))));
        assert!(o.write.is_none());
    }
    let o = run(&Command::Complete("0".to_string()), Some(&file), false, 20);
    assert!(matches!(o.report, Report::Failed(CmdError::InvalidId(IdError::Zero))));
    let o = run(&Command::Complete("abc".to_string()), None, true, 20);
    assert!(matches!(o.report, Report::Failed(CmdError::InvalidId(IdError::NotNumeric))));
    assert!(o.write.is_none());
}

#[test]
fn ids_keep_positions_after_completion() {
    let mut file = encode(&List::new());
    for (k, name) in ["a", "b", "c", "d"].iter().enumerate() {
        let o = run(&Command::Add(name.to_string()), Some(&file), false, k as u64);
        match o.report {
            Report::Added(id) => assert_eq!(id, k + 1),
            r => panic!("{:?}", r),
        }
        file = written(&o);
    }
    let names: Vec<(usize, String)> = listing(&run(&Command::List, Some(&file), false, 9))
        .into_iter()
        .map(|(i, n, _)| (i, n))
        .collect();
    assert_eq!(names, vec![(1, "a".to_string()), (2, "b".to_string()), (3, "c".to_string()), (4, "d".to_string())]);
    file = written(&run(&Command::Complete("2".to_string()), Some(&file), false, 10));
    let ids: Vec<usize> = listing(&run(&Command::List, Some(&file), false, 11)).into_iter().map(|e| e.0).collect();
    assert_eq!(ids, vec![1, 3, 4]);
}

#[test]
fn missing_file_without_auto_init() {
    let o = run(&Command::List, None, false, 1);
    assert!(matches!(o.report, Report::Failed(CmdError::NotInitialized)));
    assert!(o.write.is_none());
    assert!(!o.initialized);
}

#[test]
fn missing_file_with_auto_init() {
    let o = run(&Command::Add("x".to_string()), None, true, 5);
    assert!(o.initialized);
    assert!(matches!(o.report, Report::Added(1)));
    let l = decode(&written(&o)).unwrap();
    assert_eq!(l.tasks.len(), 1);
    let o = run(&Command::List, None, true, 5);
    assert_eq!(written(&o), "{\"tasks\":[]}");
    let o = run(&Command::Complete("1".to_string()), None, true, 5);
    assert!(matches!(o.report, Report::Failed(CmdError::NotFound(1))));
    assert_eq!(written(&o), "{\"tasks\":[]}");
}

#[test]
fn malformed_file_is_parse_error() {
    let o = run(&Command::List, Some("{\"tasks\":"), true, 1);
    assert!(matches!(o.report, Report::Failed(CmdError::Parse)));
    assert!(o.write.is_none());
}

#[test]
fn delete_out_of_range_not_found() {
    let file = add(&encode(&List::new()), "t", 1);
    let o = run(&Command::Delete("5".to_string()), Some(&file), false, 2);
    assert!(matches!(o.report, Report::Failed(CmdError::NotFound(5))));
    assert!(o.write.is_none());
}

#[test]
fn match_id_cases() {
    assert_eq!(match_id("1"), Ok(0));
    assert_eq!(match_id("42"), Ok(41));
    assert_eq!(match_id("+3"), Ok(2));
    assert_eq!(match_id("007"), Ok(6));
    assert_eq!(match_id("0"), Err(IdError::Zero));
    assert_eq!(match_id("abc"), Err(IdError::NotNumeric));
    assert_eq!(match_id(""), Err(IdError::NotNumeric));
    assert_eq!(match_id("+"), Err(IdError::NotNumeric));
    assert_eq!(match_id("-1"), Err(IdError::NotNumeric));
    assert_eq!(match_id("1 "), Err(IdError::NotNumeric));
    assert_eq!(match_id("99999999999999999999999999"), Err(IdError::NotNumeric));
    assert_eq!(match_id(&usize::MAX.to_string()), Ok(usize::MAX - 1));
}

#[test]
fn match_id_agrees_with_std() {
    for s in ["1", "+1", "0", "12a", "", "18446744073709551615", "18446744073709551616", " 1"] {
        let ours = match_id(s).ok().map(|i| i + 1);
        let std_value = s.parse::<usize>().ok().filter(|v| *v > 0);
        assert_eq!(ours, std_value, "{:?}", s);
    }
}

#[test]
fn task_new_is_open() {
    let t = Task::new("n".to_string(), 9);
    assert_eq!(t.name, "n");
    assert_eq!(t.creation, 9);
    assert!(t.author.is_none());
    assert!(t.completed.is_none());
}

#[test]
fn list_complete_and_delete() {
    let mut l = List::new();
    l.add_task(Task::new("a".to_string(), 1));
    l.add_task(Task::new("b".to_string(), 2));
    assert!(l.complete(1, 50));
    assert!(!l.complete(2, 50));
    assert_eq!(l.tasks[1].completed, Some(50));
    assert_eq!(l.pending().len(), 1);
    assert_eq!(l.delete(0).map(|t| t.name), Some("a".to_string()));
    assert!(l.delete(1).is_none());
    assert_eq!(l.tasks.len(), 1);
}

#[test]
fn clock_is_after_epoch() {
    assert!(timestamp() > 1_000_000_000);
    let o = execute(&Command::Add("x".to_string()), None, true);
    let l = decode(&written(&o)).unwrap();
    assert!(l.tasks[0].creation > 1_000_000_000);
}

#[test]
fn zero_completion_counts_as_completed() {
    let file = "{\"tasks\":[{\"name\":\"a\",\"creation\":1,\"completed\":0},{\"name\":\"b\",\"creation\":2}]}";
    let ids: Vec<usize> = listing(&run(&Command::List, Some(file), false, 3)).into_iter().map(|e| e.0).collect();
    assert_eq!(ids, vec![2]);
}
