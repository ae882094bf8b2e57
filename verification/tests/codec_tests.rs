use project_tracker::codec::{decode, encode};
use project_tracker::model::{Collection, Project, Task};

fn sample() -> Collection {
    Collection {
        projects: vec![
            Project {
                name: b"Alpha".to_vec(),
                tasks: vec![
                    Task { id: 1, description: b"write spec".to_vec(), completed: true },
                    Task { id: 2, description: b"ship it".to_vec(), completed: false },
                ],
            },
            Project { name: b"Beta".to_vec(), tasks: vec![] },
        ],
    }
}

#[test]
fn empty_input_decodes_to_the_empty_collection() {
    let c = decode(&Vec::new()).unwrap();
    assert!(c.projects.is_empty());
}

#[test]
fn round_trip_of_the_empty_collection() {
    let c = Collection::new();
    let bytes = encode(&c);
    assert_eq!(decode(&bytes).unwrap(), c);
}

#[test]
fn round_trip_of_a_plain_collection() {
    let c = sample();
    let bytes = encode(&c);
    assert_eq!(decode(&bytes).unwrap(), c);
}

#[test]
fn round_trip_keeps_quotes_backslashes_controls_and_unicode() {
    let mut desc = b"say \"hi\" \\ path".to_vec();
    desc.push(0x0A);
    desc.push(0x09);
    desc.push(0x01);
    desc.extend_from_slice("caf\u{e9} \u{2713}".as_bytes());
    let c = Collection {
        projects: vec![Project {
            name: b"weird \"name\"".to_vec(),
            tasks: vec![Task { id: 42, description: desc, completed: false }],
        }],
    };
    let bytes = encode(&c);
    assert_eq!(decode(&bytes).unwrap(), c);
}

#[test]
fn encode_writes_the_indented_document() {
    let c = Collection {
        projects: vec![Project { name: b"A".to_vec(), tasks: vec![] }],
    };
    let text = String::from_utf8(encode(&c)).unwrap();
    assert_eq!(text, "[\n  {\n    \"name\": \"A\",\n    \"tasks\": []\n  }\n]");
}

#[test]
fn encode_of_the_empty_collection_is_an_empty_array() {
    let text = String::from_utf8(encode(&Collection::new())).unwrap();
    assert_eq!(text, "[]");
}

#[test]
fn encode_writes_a_full_task_object() {
    let c = Collection {
        projects: vec![Project {
            name: b"A".to_vec(),
            tasks: vec![Task { id: 10, description: b"x".to_vec(), completed: true }],
        }],
    };
    let text = String::from_utf8(encode(&c)).unwrap();
    let expected = "[\n  {\n    \"name\": \"A\",\n    \"tasks\": [\n      {\n        \"id\": 10,\n        \"description\": \"x\",\n        \"completed\": true\n      }\n    ]\n  }\n]";
    assert_eq!(text, expected);
}

#[test]
fn decode_accepts_compact_documents() {
    let bytes = b"[{\"name\":\"A\",\"tasks\":[{\"id\":3,\"description\":\"x\",\"completed\":true}]}]".to_vec();
    let c = decode(&bytes).unwrap();
    assert_eq!(c.projects.len(), 1);
    assert_eq!(c.projects[0].name, b"A".to_vec());
    assert_eq!(c.projects[0].tasks[0].id, 3);
    assert!(c.projects[0].tasks[0].completed);
}

#[test]
fn decode_accepts_short_escapes_and_unicode_escapes_alike() {
    let bytes =
        b"[{\"name\":\"A\",\"tasks\":[{\"id\":1,\"description\":\"a\\nb\\u000ac\\u00e9\",\"completed\":false}]}]"
        .to_vec();
    let c = decode(&bytes).unwrap();
    let desc = &c.projects[0].tasks[0].description;
    let mut expected = b"a".to_vec();
    expected.push(0x0A);
    expected.push(b'b');
    expected.push(0x0A);
    expected.push(b'c');
    expected.extend_from_slice("\u{e9}".as_bytes());
    assert_eq!(desc, &expected);
}

#[test]
fn encode_escapes_quotes_backslashes_and_controls() {
    let desc = vec![b'"', b'\\', 0x0A, 0x1F];
    let c = Collection {
        projects: vec![Project {
            name: b"A".to_vec(),
            tasks: vec![Task { id: 1, description: desc, completed: false }],
        }],
    };
    let text = String::from_utf8(encode(&c)).unwrap();
    assert!(text.contains("\"description\": \"\\\"\\\\\\u000a\\u001f\""));
}

#[test]
fn decode_accepts_a_bare_empty_array() {
    let c = decode(&b"[]".to_vec()).unwrap();
    assert!(c.projects.is_empty());
    let c2 = decode(&b" [ ] ".to_vec()).unwrap();
    assert!(c2.projects.is_empty());
}

#[test]
fn decode_rejects_malformed_documents() {
    let cases: Vec<&[u8]> = vec![
        b"[",
        b"x",
        b"{}",
        b"[{}]",
        b"[] extra",
        b"   ",
        b"[{\"name\":\"A\"}]",
        b"[{\"tasks\":[],\"name\":\"A\"}]",
        b"[{\"name\":\"A\",\"tasks\":[{\"id\":1,\"description\":\"x\"}]}]",
        b"[{\"name\":\"A\",\"tasks\":[{\"id\":4294967296,\"description\":\"x\",\"completed\":true}]}]",
        b"[{\"name\":\"A\",\"tasks\":[]},]",
        b"[{\"name\":\"A\",\"tasks\":[]}",
        b"[{\"name\":\"A\",\"tasks\":[]}]]",
        b"[{\"name\":\"A\",\"tasks\":[{\"id\":1,\"description\":\"\\q\",\"completed\":true}]}]",
        b"[{\"name\":\"A\",\"tasks\":[{\"id\":1,\"description\":\"\\ud800\",\"completed\":true}]}]",
    ];
    for case in cases {
        assert!(decode(&case.to_vec()).is_err(), "accepted: {:?}", case);
    }
    let mut raw_control = b"[{\"name\":\"A".to_vec();
    raw_control.push(0x01);
    raw_control.extend_from_slice(b"\",\"tasks\":[]}]");
    assert!(decode(&raw_control).is_err());
}

#[test]
fn decode_accepts_the_largest_id() {
    let bytes =
        b"[{\"name\":\"A\",\"tasks\":[{\"id\":4294967295,\"description\":\"x\",\"completed\":false}]}]"
        .to_vec();
    let c = decode(&bytes).unwrap();
    assert_eq!(c.projects[0].tasks[0].id, u32::MAX);
}

#[test]
fn encode_output_is_json_other_tools_can_read() {
    let bytes = encode(&sample());
    let value: serde_json::Value = serde_json::from_slice(&bytes).unwrap();
    let arr = value.as_array().unwrap();
    assert_eq!(arr.len(), 2);
    assert_eq!(arr[0]["name"], serde_json::Value::String("Alpha".to_string()));
    let tasks = arr[0]["tasks"].as_array().unwrap();
    assert_eq!(tasks.len(), 2);
    assert_eq!(tasks[0]["id"].as_u64().unwrap(), 1);
    assert_eq!(tasks[0]["description"].as_str().unwrap(), "write spec");
    assert_eq!(tasks[0]["completed"].as_bool().unwrap(), true);
    assert_eq!(arr[1]["tasks"].as_array().unwrap().len(), 0);
}

#[test]
fn decode_reads_documents_other_tools_wrote() {
    // The exact pretty-printed layout earlier versions of the tool stored,
    // with two-space indentation and a short string escape.
    let pretty = "[\n  {\n    \"name\": \"from before\",\n    \"tasks\": [\n      {\n        \"id\": 1,\n        \"description\": \"line\\nbreak\",\n        \"completed\": false\n      }\n    ]\n  }\n]";
    assert!(serde_json::from_str::<serde_json::Value>(pretty).is_ok());
    let c = decode(&pretty.as_bytes().to_vec()).unwrap();
    assert_eq!(c.projects[0].name, b"from before".to_vec());
    let desc = &c.projects[0].tasks[0].description;
    assert_eq!(desc, &b"line\nbreak".to_vec());
}
