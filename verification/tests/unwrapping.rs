use std::io::Read;

use ivf_fraud::json_array::JsonArrayUnwrapper;

struct Unwrapper<R: Read> {
    inner: R,
    state: JsonArrayUnwrapper,
}

impl<R: Read> Unwrapper<R> {
    fn new(inner: R) -> Self {
        Self { inner, state: JsonArrayUnwrapper::new() }
    }
}

impl<R: Read> Read for Unwrapper<R> {
    fn read(&mut self, buf: &mut [u8]) -> std::io::Result<usize> {
        if self.state.is_finished(buf.len()) {
            return Ok(0);
        }
        loop {
            let n = self.inner.read(buf)?;
            if let Some(out) = self.state.absorb(buf, n) {
                return Ok(out);
            }
        }
    }
}

fn unwrap_in_chunks(input: &[u8], size: usize) -> (Vec<u8>, JsonArrayUnwrapper) {
    let mut state = JsonArrayUnwrapper::new();
    let mut out = Vec::new();
    for chunk in input.chunks(size) {
        if state.is_finished(size) {
            break;
        }
        let mut buf = chunk.to_vec();
        if let Some(k) = state.absorb(&mut buf, chunk.len()) {
            out.extend_from_slice(&buf[..k]);
        }
    }
    (out, state)
}

#[test]
fn unwrapper_strips_outer_brackets_and_emits_objects() {
    let input = br#"[{"a":1},{"b":2}]"#;
    let mut unwrapper = Unwrapper::new(input.as_slice());
    let mut out = Vec::new();
    unwrapper.read_to_end(&mut out).unwrap();
    let s = std::str::from_utf8(&out).unwrap().trim().to_string();
    // Should contain both objects separated by a space, no outer brackets.
    assert!(s.contains(r#"{"a":1}"#), "got: {s}");
    assert!(s.contains(r#"{"b":2}"#), "got: {s}");
    assert!(!s.starts_with('['), "should not start with [, got: {s}");
}

#[test]
fn unwrapper_preserves_commas_inside_arrays_in_objects() {
    // The "vector" field is an array: its commas must NOT be replaced.
    let input = br#"[{"vector":[1,2,3],"label":"ok"}]"#;
    let mut unwrapper = Unwrapper::new(input.as_slice());
    let mut out = Vec::new();
    unwrapper.read_to_end(&mut out).unwrap();
    let s = std::str::from_utf8(&out).unwrap();
    assert!(s.contains("[1,2,3]"), "nested array commas must be preserved, got: {s}");
}

#[test]
fn unwrapper_single_element_array() {
    let input = br#"[{"x":42}]"#;
    let mut unwrapper = Unwrapper::new(input.as_slice());
    let mut out = Vec::new();
    unwrapper.read_to_end(&mut out).unwrap();
    let parsed: serde_json::Value = serde_json::from_slice(&out).unwrap();
    assert_eq!(parsed["x"], 42);
}

#[test]
fn unwrapper_multiple_elements_parseable_as_stream() {
    let input = br#"[{"vector":[0.1,0.2,0.3,0.4,0.5,0.6,0.7,0.8,0.9,1.0,0.0,0.0,0.0,0.0],"label":"legit"},{"vector":[0.0,0.0,0.0,0.0,0.0,0.0,0.0,0.0,0.0,0.0,0.0,0.0,0.0,0.0],"label":"fraud"}]"#;
    let unwrapper = Unwrapper::new(input.as_slice());
    let records: Vec<serde_json::Value> = serde_json::Deserializer::from_reader(unwrapper)
        .into_iter::<serde_json::Value>()
        .collect::<Result<_, _>>()
        .unwrap();
    assert_eq!(records.len(), 2);
    assert_eq!(records[0]["label"], "legit");
    assert_eq!(records[1]["label"], "fraud");
}

#[test]
fn unwrapper_gives_the_same_whatever_the_chunks() {
    let input = b"junk [{\"a\":[1,{\"b\":2}],\"c\":3}, 4 ,[5,6]] tail, [7]";
    let expected = b"{\"a\":[1,{\"b\":2}],\"c\":3}  4  [5,6]";
    for size in 1..=input.len() {
        let (out, state) = unwrap_in_chunks(input, size);
        assert_eq!(out, expected, "chunks of {size}");
        assert!(state.done);
    }
}

#[test]
fn unwrapper_leaves_objects_with_brackets_in_strings_alone() {
    let mut unwrapper = Unwrapper::new(br#"[{"a":"}","b":1}]"#.as_slice());
    let mut out = Vec::new();
    unwrapper.read_to_end(&mut out).unwrap();
    assert_eq!(out, br#"{"a":"}","b":1}"#);
}

#[test]
fn unwrapper_passes_strings_through() {
    let input = br#"[{"a":"}],{[\"\\","b":"x\\"},"top, \"]\" level",["]",2] , "\\"], "tail" ]"#;
    let expected = br#"{"a":"}],{[\"\\","b":"x\\"} "top, \"]\" level" ["]",2]   "\\""#;
    for size in 1..=input.len() {
        let (out, state) = unwrap_in_chunks(input, size);
        assert_eq!(out, expected, "chunks of {size}");
        assert!(state.done && !state.in_string && !state.escaped);
    }
    let mut unwrapper = Unwrapper::new(input.as_slice());
    let mut out = Vec::new();
    unwrapper.read_to_end(&mut out).unwrap();
    let values: Vec<serde_json::Value> = serde_json::Deserializer::from_slice(&out)
        .into_iter::<serde_json::Value>()
        .collect::<Result<_, _>>()
        .unwrap();
    assert_eq!(values.len(), 4);
    assert_eq!(values[0]["a"], "}],{[\"\\");
    assert_eq!(values[1], "top, \"]\" level");
}

#[test]
fn unwrapper_remembers_an_escape_across_chunks() {
    let mut state = JsonArrayUnwrapper::new();
    let mut buf = *b"[\"a\\";
    assert_eq!(state.absorb(&mut buf, 4), Some(3));
    assert_eq!((state.in_string, state.escaped), (true, true));
    let mut buf = *b"\",]";
    assert_eq!(state.absorb(&mut buf, 3), Some(3));
    assert_eq!(&buf, b"\",]");
    assert_eq!((state.in_string, state.escaped, state.done), (true, false, false));
}

#[test]
fn unwrapper_rewrites_in_place_and_leaves_the_rest() {
    let mut state = JsonArrayUnwrapper::new();
    let mut buf = *b" [1,2]zzXX";
    assert_eq!(state.absorb(&mut buf, 8), Some(3));
    assert_eq!(&buf[..3], b"1 2");
    assert_eq!(&buf[8..], b"XX");
    assert!(state.is_finished(10));
}

#[test]
fn unwrapper_asks_for_more_until_there_is_output() {
    let mut state = JsonArrayUnwrapper::new();
    let mut buf = *b"  [";
    assert_eq!(state.absorb(&mut buf, 3), None);
    assert_eq!((state.started, state.depth, state.done), (true, 0, false));
    let mut buf = *b"{";
    assert_eq!(state.absorb(&mut buf, 1), Some(1));
    assert_eq!(state.depth, 1);
    // the input ends inside the array
    assert_eq!(state.absorb(&mut buf, 0), Some(0));
    assert!(state.done);
}

#[test]
fn unwrapper_ends_with_the_array_even_without_output() {
    let mut state = JsonArrayUnwrapper::new();
    let mut buf = *b"[]";
    assert_eq!(state.absorb(&mut buf, 2), Some(0));
    assert!(state.done);
    assert!(!JsonArrayUnwrapper::new().is_finished(1));
    assert!(JsonArrayUnwrapper::new().is_finished(0));
}
