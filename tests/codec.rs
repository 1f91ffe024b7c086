use todoclist::codec::{decode, encode, ParseError};
use todoclist::model::{List, Task};
use todoclist::text::{chars_of, string_of};

fn task(name: &str, author: Option<&str>, creation: u64, completed: Option<u64>) -> Task {
    Task {
        name: name.to_string(),
        author: author.map(|a| a.to_string()),
        creation,
        completed,
    }
}

fn same(a: &List, b: &List) -> bool {
    a.tasks.len() == b.tasks.len()
        && a.tasks.iter().zip(b.tasks.iter()).all(|(x, y)| {
            x.name == y.name && x.author == y.author && x.creation == y.creation && x.completed == y.completed
        })
}

#[test]
fn empty_list_text() {
    assert_eq!(encode(&List::new()), "{\"tasks\":[]}");
}

#[test]
fn one_task_text() {
    let mut l = List::new();
    l.add_task(task("buy milk", None, 1700000000, None));
    assert_eq!(encode(&l), "{\"tasks\":[{\"name\":\"buy milk\",\"creation\":1700000000}]}");
}

#[test]
fn optional_fields_text() {
    let mut l = List::new();
    l.add_task(task("a", Some("bob"), 0, Some(42)));
    l.add_task(task("b", None, 7, None));
    assert_eq!(
        encode(&l),
        "{\"tasks\":[{\"name\":\"a\",\"author\":\"bob\",\"creation\":0,\"completed\":42},{\"name\":\"b\",\"creation\":7}]}"
    );
}

#[test]
fn escapes_text() {
    let mut l = List::new();
    l.add_task(task("say \"hi\"\\\n\u{1}", None, 1, None));
    assert_eq!(
        encode(&l),
        "{\"tasks\":[{\"name\":\"say \\\"hi\\\"\\\\\\n\\u0001\",\"creation\":1}]}"
    );
}

#[test]
fn strings_escaped_as_serde_json_does() {
    let mut name = String::new();
    for code in 0u32..128 {
        name.push(char::from_u32(code).unwrap());
    }
    name.push_str("é✓");
    let mut l = List::new();
    l.add_task(task(&name, None, 3, None));
    let expected = format!("{{\"tasks\":[{{\"name\":{},\"creation\":3}}]}}", serde_json::to_string(&name).unwrap());
    assert_eq!(encode(&l), expected);
    assert_eq!(decode(&expected).unwrap().tasks[0].name, name);
}

#[test]
fn short_escapes_only_in_short_form() {
    assert!(decode("{\"tasks\":[{\"name\":\"\\t\\b\\f\\r\",\"creation\":1}]}").is_ok());
    assert_eq!(decode("{\"tasks\":[{\"name\":\"\\u0009\",\"creation\":1}]}").err(), Some(ParseError));
}

#[test]
fn round_trip_empty() {
    let l = List::new();
    let back = decode(&encode(&l)).unwrap();
    assert!(same(&l, &back));
}

#[test]
fn round_trip_many() {
    let mut l = List::new();
    l.add_task(task("buy milk", None, 1700000000, None));
    l.add_task(task("ünïcödé ✓ \"q\" \\ \t", Some("ann \"x\""), u64::MAX, Some(u64::MAX)));
    l.add_task(task("", None, 0, Some(0)));
    l.add_task(task("x", Some(""), 10, None));
    let text = encode(&l);
    let back = decode(&text).unwrap();
    assert!(same(&l, &back));
    assert_eq!(encode(&back), text);
}

#[test]
fn encoded_text_is_json() {
    let mut l = List::new();
    l.add_task(task("say \"hi\"\n", Some("me"), 12, Some(34)));
    l.add_task(task("second", None, 56, None));
    let v: serde_json::Value = serde_json::from_str(&encode(&l)).unwrap();
    let tasks = v["tasks"].as_array().unwrap();
    assert_eq!(tasks.len(), 2);
    assert_eq!(tasks[0]["name"].as_str(), Some("say \"hi\"\n"));
    assert_eq!(tasks[0]["author"].as_str(), Some("me"));
    assert_eq!(tasks[0]["creation"].as_u64(), Some(12));
    assert_eq!(tasks[0]["completed"].as_u64(), Some(34));
    assert!(tasks[1].get("author").is_none());
    assert!(tasks[1].get("completed").is_none());
}

#[test]
fn decode_reads_fields() {
    let l = decode("{\"tasks\":[{\"name\":\"a\\u001fb\",\"author\":\"z\",\"creation\":5,\"completed\":6}]}").unwrap();
    assert_eq!(l.tasks.len(), 1);
    assert_eq!(l.tasks[0].name, "a\u{1f}b");
    assert_eq!(l.tasks[0].author.as_deref(), Some("z"));
    assert_eq!(l.tasks[0].creation, 5);
    assert_eq!(l.tasks[0].completed, Some(6));
}

#[test]
fn decode_rejects_malformed() {
    for text in [
        "",
        "not json",
        "{\"tasks\":[}",
        "{\"tasks\":[]} ",
        "{\"tasks\":[{\"name\":\"a\",\"creation\":01}]}",
        "{\"tasks\":[{\"name\":\"a\",\"creation\":18446744073709551616}]}",
        "{\"tasks\":[{\"name\":\"a\"}]}",
        "{\"tasks\":[{\"name\":\"a\",\"creation\":1},]}",
        "{\"tasks\":[{\"name\":\"a\nb\",\"creation\":1}]}",
    ] {
        assert_eq!(decode(text).err(), Some(ParseError), "{:?}", text);
    }
}

#[test]
fn largest_timestamp_is_read() {
    let l = decode("{\"tasks\":[{\"name\":\"a\",\"creation\":18446744073709551615}]}").unwrap();
    assert_eq!(l.tasks[0].creation, u64::MAX);
}

#[test]
fn string_of_keeps_characters() {
    assert_eq!(string_of(&vec!['a', 'é', '"']), "aé\"");
    assert_eq!(chars_of("hé"), vec!['h', 'é']);
}
