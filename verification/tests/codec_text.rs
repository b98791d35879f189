use scheduler::codec::{EventModel, InputError, ScheduleModel};
use scheduler::Event;

fn bytes(s: &str) -> Vec<u8> {
    s.as_bytes().to_vec()
}

fn decode(s: &str) -> Result<EventModel, InputError> {
    EventModel::from_field(&bytes(s))
}

fn model(name: &str, leader: Option<&str>, len: usize) -> EventModel {
    EventModel {
        name: bytes(name),
        leader: leader.map(bytes),
        len,
    }
}

#[test]
fn decodes_the_four_field_shapes() {
    assert_eq!(decode("hello").unwrap(), model("hello", None, 1));
    assert_eq!(decode("hello:alice").unwrap(), model("hello", Some("alice"), 1));
    assert_eq!(decode("hello[4]").unwrap(), model("hello", None, 4));
    assert_eq!(
        decode("hello:alice[3]").unwrap(),
        model("hello", Some("alice"), 3)
    );
}

#[test]
fn trims_whitespace_around_the_parts() {
    assert_eq!(
        decode("  hello : alice [ 3 ]").unwrap(),
        model("hello", Some("alice"), 3)
    );
    assert_eq!(decode(" hi there ").unwrap(), model("hi there", None, 1));
    // A field only counts as carrying a length when it ends in the bracket.
    assert_eq!(
        decode("hello : alice [ 3 ] ").unwrap(),
        model("hello", Some("alice [ 3 ]"), 1)
    );
}

#[test]
fn reports_each_malformed_field() {
    assert_eq!(decode(""), Err(InputError::EmptyEvent));
    assert_eq!(decode(":alice"), Err(InputError::MissingName));
    assert_eq!(decode("hello:"), Err(InputError::MissingLeader));
    assert_eq!(decode("hello]"), Err(InputError::MissingLen));
    assert_eq!(decode("hello[x]"), Err(InputError::BadLen));
    assert_eq!(decode("hello[]"), Err(InputError::BadLen));
    assert_eq!(decode("hello[0]"), Err(InputError::BadLen));
    assert_eq!(decode("   "), Err(InputError::MissingName));
    assert_eq!(decode(" : [2]"), Err(InputError::MissingName));
}

#[test]
fn encode_is_the_inverse_of_decode() {
    for text in ["hello:alice[3]", "hello", "a:b", "long name:the leader[12]"] {
        let m = decode(text).unwrap();
        assert_eq!(m.encode_field(), bytes(text), "round trip of {text:?}");
    }
    // A length of one is left implicit when re-encoding.
    let m = decode("hello[1]").unwrap();
    assert_eq!(m.encode_field(), bytes("hello"));
}

#[test]
fn leader_may_hold_colons() {
    let m = decode("a:b:c").unwrap();
    assert_eq!(m, model("a", Some("b:c"), 1));
    assert_eq!(m.encode_field(), bytes("a:b:c"));
}

#[test]
fn records_decode_row_by_row() {
    let recs = vec![
        vec![bytes("a:x"), bytes("b:y[2]")],
        vec![bytes("c")],
    ];
    let m = ScheduleModel::from_records(&recs).unwrap();
    assert_eq!(m.0.len(), 2);
    assert_eq!(m.0[0], vec![model("a", Some("x"), 1), model("b", Some("y"), 2)]);
    assert_eq!(m.0[1], vec![model("c", None, 1)]);
    assert_eq!(m.to_records(), recs);
}

#[test]
fn first_bad_field_decides_the_error() {
    let recs = vec![vec![bytes("a:x"), bytes("hello:")], vec![bytes("[3]")]];
    assert_eq!(ScheduleModel::from_records(&recs), Err(InputError::MissingLeader));
}

#[test]
fn csv_round_trip() {
    let text = bytes("a:x,b:y[2]\nc,d:z\n");
    let m = ScheduleModel::deserialize_csv(&text).unwrap();
    assert_eq!(m.0.len(), 2);
    assert_eq!(m.0[0][1], model("b", Some("y"), 2));
    let out = m.serialize_csv();
    assert_eq!(out, text);
    let again = ScheduleModel::deserialize_csv(&out).unwrap();
    assert_eq!(again, m);
}

#[test]
fn grid_round_trips_through_events() {
    let text = bytes("a:x[2],b\nc:y,d:x\n");
    let m = ScheduleModel::deserialize_csv(&text).unwrap();
    let scheme: Vec<Vec<Event>> = m.to_scheme();
    assert_eq!(scheme[0][0].len, 2);
    assert_eq!(scheme[0][1].leader_id, None);
    assert_eq!(scheme[1][1].leader_name, Some(bytes("x")));
    let back = ScheduleModel::of_scheme(&scheme);
    assert_eq!(back.serialize_csv(), text);
}

#[test]
fn rows_may_have_different_lengths() {
    let text = bytes("a:x,b:y,c:z
d
");
    let m = ScheduleModel::deserialize_csv(&text).unwrap();
    assert_eq!(m.0[0].len(), 3);
    assert_eq!(m.0[1].len(), 1);
    assert_eq!(m.serialize_csv(), text);
}

#[test]
fn plus_prefixed_length_is_accepted() {
    assert_eq!(decode("a[+3]").unwrap(), model("a", None, 3));
    assert_eq!(decode("a[++3]"), Err(InputError::BadLen));
}
