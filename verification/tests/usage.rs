use llm_conduit::observe::TokenUsage;
use llm_conduit::usage::{
    completeness, extract_effort, extract_request_usage, find, merge_effort, merge_usage, non_empty,
    trim, Candidates, RequestUsage, UsageScanner, MAX_PENDING,
};

const CHAT_BODY: &str = r#"{
    "model": "llama-3.1-8b-instruct",
    "messages": [{"role": "user", "content": "Hello!"}],
    "reasoning_effort": "high"
}"#;

fn scan(chunks: &[&[u8]]) -> Option<TokenUsage> {
    let mut scanner = UsageScanner::new();
    let mut usage = None;
    for chunk in chunks {
        scanner.push(chunk, &mut usage);
    }
    usage
}

#[test]
fn extracts_reasoning_effort() {
    assert_eq!(
        extract_effort(CHAT_BODY.as_bytes()).as_deref(),
        Some("high")
    );
    // Any of the known spellings, and the object form.
    assert_eq!(
        extract_effort(br#"{"reasoning":{"effort":"low"}}"#).as_deref(),
        Some("low")
    );
    assert_eq!(
        extract_effort(br#"{"thinking":{"type":"enabled"}}"#).as_deref(),
        Some("enabled")
    );
    assert_eq!(
        extract_effort(br#"{"messages":[],"thinking":"medium"}"#).as_deref(),
        Some("medium")
    );
}

#[test]
fn reasoning_effort_wins_over_thinking() {
    let body = br#"{"thinking":"low","reasoning_effort":"high"}"#;
    assert_eq!(extract_effort(body).as_deref(), Some("high"));
    let body = br#"{"reasoning_effort":"high","thinking":"low"}"#;
    assert_eq!(extract_effort(body).as_deref(), Some("high"));
}

#[test]
fn effort_is_absent_for_bodies_that_do_not_carry_one() {
    assert!(extract_effort(b"").is_none());
    assert!(extract_effort(b"not json").is_none());
    assert!(extract_effort(br#"{"model":"m","messages":[]}"#).is_none());
    assert!(extract_effort(br#"{"reasoning_effort":null}"#).is_none());
    assert!(extract_effort(br#"{"reasoning_effort":"  "}"#).is_none());
    assert!(extract_effort(br#"{"reasoning_effort":{}}"#).is_none());
}

#[test]
fn effort_is_read_without_materializing_large_fields() {
    let big = "x".repeat(2_000_000);
    let body = format!(
        r#"{{"messages":[{{"role":"user","content":"{big}"}}],"reasoning_effort":"minimal"}}"#
    );
    assert_eq!(extract_effort(body.as_bytes()).as_deref(), Some("minimal"));
}

#[test]
fn extracts_the_request_token_budget() {
    let usage = extract_request_usage(
        br#"{"model":"m","messages":[],"max_tokens":512,"n":3}"#.as_slice(),
    );
    assert_eq!(usage.max_tokens, Some(512));
    assert_eq!(usage.choices, Some(3));

    let usage = extract_request_usage(br#"{"max_completion_tokens":1024}"#.as_slice());
    assert_eq!(usage.max_tokens, Some(1024));
    assert_eq!(usage.choices, None);

    assert_eq!(extract_request_usage(b""), RequestUsage::default());
}

#[test]
fn reads_usage_from_a_single_json_response() {
    let body = br#"{"id":"1","choices":[{"message":{"content":"hi"}}],"usage":{"prompt_tokens":12,"completion_tokens":34,"total_tokens":46,"completion_tokens_details":{"reasoning_tokens":20},"prompt_tokens_details":{"cached_tokens":4}}}"#;
    let usage = scan(&[body]).unwrap();
    assert_eq!(usage.prompt_tokens, Some(12));
    assert_eq!(usage.completion_tokens, Some(34));
    assert_eq!(usage.total_tokens, Some(46));
    assert_eq!(usage.reasoning_tokens, Some(20));
    assert_eq!(usage.cached_tokens, Some(4));
}

#[test]
fn reads_usage_from_streamed_chunks() {
    let usage = scan(&[
        b"data: {\"choices\":[{\"delta\":{\"content\":\"hi\"}}]}\n\n",
        b"data: {\"choices\":[{\"delta\":{}}]}\n\n",
        b"data: {\"choices\":[],\"usage\":{\"prompt_tokens\":12,\"completion_tokens\":34,\"total_tokens\":46}}\n\n",
        b"data: [DONE]\n\n",
    ]).unwrap();
    assert_eq!(usage.total_tokens, Some(46));
}

#[test]
fn survives_chunk_boundaries_inside_the_usage_object() {
    let usage = scan(&[
        b"data: {\"choices\":[],\"usage\":{\"prompt",
        b"_tokens\":7,\"completion_tokens\":9}}\n\n",
    ])
    .unwrap();
    assert_eq!(usage.prompt_tokens, Some(7));
    assert_eq!(usage.completion_tokens, Some(9));
    assert_eq!(usage.total_tokens, Some(16));
}

#[test]
fn a_body_split_at_the_object_boundary_is_still_read() {
    let usage = scan(&[b"{\"choices\":[]", b",\"usage\":{\"total_tokens\":5}}"]);
    assert_eq!(usage.unwrap().total_tokens, Some(5));
}

#[test]
fn a_frame_without_usage_does_not_disturb_the_scanner() {
    let usage = scan(&[
        b"data: {\"choices\":[{\"delta\":{\"content\":\"hi\"}}]}\n\n",
        b"not json at all",
        b"{\"usage\":{\"total_tokens\":3}}",
    ]);
    assert_eq!(usage.unwrap().total_tokens, Some(3));
}

#[test]
fn keeps_the_most_complete_usage_of_a_stream() {
    let usage = scan(&[
        b"data: {\"usage\":{\"prompt_tokens\":1}}\n\n",
        b"data: {\"usage\":{\"prompt_tokens\":1,\"completion_tokens\":2,\"total_tokens\":3}}\n\n",
    ]).unwrap();
    assert_eq!(usage.total_tokens, Some(3));
}

#[test]
fn reads_usage_from_an_event_batched_into_one_frame() {
    // An upstream may write several SSE events in a single body chunk; the usage is in
    // the middle one, so a scanner that only looked at the last `data:` would miss it.
    let frame: &[u8] = b"data: {\"choices\":[{\"delta\":{\"content\":\"hi\"}}]}\n\n\
                          data: {\"choices\":[],\"usage\":{\"total_tokens\":46}}\n\n\
                          data: [DONE]\n\n";
    let usage = scan(&[frame]);
    assert_eq!(usage.unwrap().total_tokens, Some(46));
}

#[test]
fn keeps_the_last_usage_of_a_batched_frame() {
    let frame: &[u8] = b"data: {\"usage\":{\"total_tokens\":1}}\n\n\
                          data: {\"usage\":{\"total_tokens\":2}}\n\n";
    assert_eq!(scan(&[frame]).unwrap().total_tokens, Some(2));
}

#[test]
fn reads_usage_split_across_two_batched_frames() {
    // The first frame ends in the middle of an event, the second one starts with the rest
    // of it and only then opens a new event.
    let usage = scan(&[
        b"data: {\"choices\":[{\"delta\":{\"content\":\"hi\"}}]}\n\ndata: {\"usage\":{\"prompt",
        b"_tokens\":7}}\n\ndata: [DONE]\n\n",
    ]);
    assert_eq!(usage.unwrap().prompt_tokens, Some(7));
}

#[test]
fn a_buffered_body_reaches_the_scanner_in_any_number_of_frames() {
    // No SSE markers at all: the body is one object and the frames are just TCP splits.
    let usage = scan(&[
        b"{\"id\":\"1\",\"cho",
        b"ices\":[],\"usa",
        b"ge\":{\"total_tokens\":8}}",
    ]);
    assert_eq!(usage.unwrap().total_tokens, Some(8));
}

#[test]
fn an_event_whose_usage_arrives_only_in_the_next_frame_is_read() {
    // The whole `usage` object lands in the second frame, one byte into the event.
    let usage = scan(&[
        b"data: {\"choices\":[{\"delta\":{}}],\"usage\"",
        b":{\"total_tokens\":9}}\n\n",
    ]);
    assert_eq!(usage.unwrap().total_tokens, Some(9));
}

#[test]
fn reads_usage_before_a_truncated_event() {
    // A trailing, incomplete event must not hide the usage of the event before it.
    let usage = scan(&[
        b"data: {\"usage\":{\"total_tokens\":5}}\n\ndata: {\"choices\":[{\"delta\"",
        b":{\"content\":\"tail\"}}]}\n\n",
    ]);
    assert_eq!(usage.unwrap().total_tokens, Some(5));
}

#[test]
fn a_huge_non_usage_body_is_not_buffered() {
    // A `{` that never closes into a usable object must not grow the buffer forever.
    let mut scanner = UsageScanner::new();
    let mut usage = None;
    let filler = vec![b'x'; 1024 * 1024];
    for _ in 0..64 {
        scanner.push(b"{", &mut usage);
        scanner.push(&filler, &mut usage);
    }
    assert!(usage.is_none());
    assert!(scanner.pending().len() <= MAX_PENDING);
}

fn counters(prompt: Option<u64>, completion: Option<u64>, total: Option<u64>) -> TokenUsage {
    TokenUsage {
        prompt_tokens: prompt,
        completion_tokens: completion,
        total_tokens: total,
        reasoning_tokens: None,
        cached_tokens: None,
    }
}

#[test]
fn a_later_usage_replaces_one_that_is_not_more_complete() {
    let mut usage = None;
    merge_usage(&mut usage, None);
    assert_eq!(usage, None);
    merge_usage(&mut usage, Some(counters(Some(1), Some(2), None)));
    assert_eq!(usage, Some(counters(Some(1), Some(2), None)));
    merge_usage(&mut usage, Some(counters(Some(9), None, None)));
    assert_eq!(usage, Some(counters(Some(1), Some(2), None)));
    merge_usage(&mut usage, Some(counters(None, Some(3), Some(4))));
    assert_eq!(usage, Some(counters(None, Some(3), Some(4))));
    merge_usage(&mut usage, None);
    assert_eq!(completeness(&usage.unwrap()), 2);
}

#[test]
fn a_stream_never_loses_counters() {
    let usage = scan(&[
        b"data: {\"usage\":{\"prompt_tokens\":1,\"completion_tokens\":2,\"total_tokens\":3}}\n\n",
        b"data: {\"usage\":{\"prompt_tokens\":5}}\n\n",
        b"data: {\"usage\":null}\n\n",
    ]);
    assert_eq!(usage, Some(counters(Some(1), Some(2), Some(3))));
}

#[test]
fn the_total_is_the_sum_unless_it_is_given() {
    let usage = scan(&[br#"{"usage":{"prompt_tokens":3,"completion_tokens":4}}"#]);
    assert_eq!(usage, Some(counters(Some(3), Some(4), Some(7))));
    let usage = scan(&[br#"{"usage":{"prompt_tokens":3,"completion_tokens":4,"total_tokens":9}}"#]);
    assert_eq!(usage, Some(counters(Some(3), Some(4), Some(9))));
    let usage = scan(&[br#"{"usage":{"prompt_tokens":3,"completion_tokens":null}}"#]);
    assert_eq!(usage, Some(counters(Some(3), None, None)));
}

#[test]
fn an_unusable_usage_is_ignored() {
    for body in [
        &br#"{"usage":{"prompt_tokens":-1}}"#[..],
        br#"{"usage":{"prompt_tokens":1.5}}"#,
        br#"{"usage":{"prompt_tokens":"1"}}"#,
        br#"{"usage":{"prompt_tokens":1,"prompt_tokens":2}}"#,
        br#"{"usage":{"prompt_tokens_details":null}}"#,
        br#"{"usage":7}"#,
        br#"{"usage":{"prompt_tokens":1}} trailing"#,
        br#"{"usage":null}"#,
        br#"{"usage":nul}"#,
    ] {
        assert_eq!(scan(&[body]), None, "{}", String::from_utf8_lossy(body));
    }
}

#[test]
fn unknown_usage_fields_are_skipped() {
    let usage = scan(&[
        br#"{"usage":{"x":[{"y":1}],"prompt_tokens":2,"prompt_tokens_details":{"z":[],"cached_tokens":1}}}"#,
    ])
    .unwrap();
    assert_eq!(usage.prompt_tokens, Some(2));
    assert_eq!(usage.cached_tokens, Some(1));
    assert_eq!(usage.reasoning_tokens, None);
}

#[test]
fn the_last_usage_field_of_a_body_counts() {
    let usage = scan(&[br#"{"usage":{"total_tokens":1},"usage":{"total_tokens":2}}"#]);
    assert_eq!(usage.unwrap().total_tokens, Some(2));
    assert_eq!(scan(&[br#"{"usage":{"total_tokens":1},"usage":null}"#]), None);
}

#[test]
fn splitting_a_body_does_not_change_what_is_read() {
    let body: &[u8] = br#"{"id":"1","choices":[],"usage":{"prompt_tokens":7,"completion_tokens":9}}"#;
    let whole = scan(&[body]);
    assert_eq!(whole.unwrap().total_tokens, Some(16));
    for at in 1..body.len() {
        assert_eq!(scan(&[&body[..at], &body[at..]]), whole, "split at {at}");
    }
}

#[test]
fn splitting_an_event_does_not_change_what_is_read() {
    let event: &[u8] = b"data: {\"usage\":{\"prompt_tokens\":7,\"completion_tokens\":9}}";
    let whole = scan(&[event]);
    assert_eq!(whole.unwrap().total_tokens, Some(16));
    for at in 1..event.len() {
        assert_eq!(scan(&[&event[..at], &event[at..]]), whole, "split at {at}");
    }
}

#[test]
fn a_cut_marker_is_completed_by_the_next_frame() {
    let mut scanner = UsageScanner::new();
    let mut usage = None;
    scanner.push(b"da", &mut usage);
    assert_eq!(usage, None);
    scanner.push(b"ta: {\"usage\":{\"total_tokens\":5}}\n\n", &mut usage);
    assert_eq!(usage.unwrap().total_tokens, Some(5));
    // One byte at a time.
    let event: &[u8] = b"data: {\"usage\":{\"total_tokens\":5}}\n\n";
    let bytes: Vec<&[u8]> = event.chunks(1).collect();
    assert_eq!(scan(&bytes).unwrap().total_tokens, Some(5));
}

#[test]
fn bytes_that_continue_no_marker_leave_the_next_frame_alone() {
    let body: &[u8] = br#"{"usage":{"total_tokens":3}}"#;
    for noise in ["d", "da", "dat", "data", "x d", ": ping\n\ndata", "[DONE]\nda", "not json"] {
        let usage = scan(&[noise.as_bytes(), body]).unwrap();
        assert_eq!(usage.total_tokens, Some(3), "{noise:?}");
        let event = [b"data: ", body, b"\n\n"].concat();
        let usage = scan(&[noise.as_bytes(), &event]).unwrap();
        assert_eq!(usage.total_tokens, Some(3), "{noise:?}");
    }
    // The same where the start of a marker comes in two frames and is not completed.
    assert_eq!(scan(&[b"d", b"a", body]).unwrap().total_tokens, Some(3));
    // What ends in something else than an object is no object.
    assert_eq!(scan(&[br#"{"usage":{"total_tokens":3}}d"#]), None);
    assert_eq!(scan(&[br#"{"usage":{"total_tokens":3}}d"#, b"x"]), None);
    // A string may end a frame in the same bytes.
    let usage = scan(&[br#"{"text":"my d"#, br#"ata: x","usage":{"total_tokens":3}}"#]);
    assert_eq!(usage.unwrap().total_tokens, Some(3));
}

#[test]
fn a_payload_may_come_in_the_frame_after_its_marker() {
    let rest: &[u8] = b"{\"usage\":{\"total_tokens\":3}}\n\ndata: [DONE]\n\n";
    for marker in ["data:", "data: ", "data:  ", "data: [x]\n\ndata: "] {
        assert_eq!(scan(&[marker.as_bytes(), rest]).unwrap().total_tokens, Some(3), "{marker:?}");
        let frames = [marker.as_bytes(), b" ", rest];
        assert_eq!(scan(&frames).unwrap().total_tokens, Some(3), "{marker:?}");
    }
    // What is in front of a marker is not read otherwise.
    assert_eq!(scan(&[b"data: x\n", rest]), None);
    assert_eq!(scan(&[b"data: \n", rest]), None);
    assert_eq!(scan(&[rest]), None);
    // An event behind it is still read, whatever stands in front.
    let event: &[u8] = b"data: {\"usage\":{\"total_tokens\":4}}\n\n";
    for front in ["", "x ", "{\"a", "\n"] {
        let frame = [front.as_bytes(), event].concat();
        assert_eq!(scan(&[b"data: ", &frame]).unwrap().total_tokens, Some(4), "{front:?}");
    }
}

#[test]
fn splitting_a_stream_does_not_change_what_is_read() {
    let stream: &[u8] = b"data: {\"id\":\"d\",\"usage\":null}\n\n\
        data: {\"usage\":{\"prompt_tokens\":7,\"completion_tokens\":9}}\r\n\r\n\
        data: [DONE]\n\n";
    let whole = scan(&[stream]);
    assert_eq!(whole.unwrap().total_tokens, Some(16));
    for at in 1..stream.len() {
        assert_eq!(scan(&[&stream[..at], &stream[at..]]), whole, "split at {at}");
        for to in at + 1..stream.len() {
            let frames = [&stream[..at], &stream[at..to], &stream[to..]];
            assert_eq!(scan(&frames), whole, "split at {at} and {to}");
        }
    }
}

#[test]
fn white_space_at_a_cut_is_dropped() {
    let first = b"data: {\"usage\":{\"total_tokens\": 5 ";
    assert_eq!(scan(&[first, b" }}\n\n"]).unwrap().total_tokens, Some(5));
    let mut scanner = UsageScanner::new();
    scanner.push(first, &mut None);
    assert_eq!(scanner.pending(), b"{\"usage\":{\"total_tokens\": 5");
}

#[test]
fn a_usage_array_gives_the_fields_in_order() {
    let usage = scan(&[br#"{"usage":[1,2,3]}"#]);
    assert_eq!(usage, Some(counters(Some(1), Some(2), Some(3))));
    let usage = scan(&[br#"{"usage":[1,2,null]}"#]);
    assert_eq!(usage, Some(counters(Some(1), Some(2), Some(3))));
    let usage = scan(&[br#"{"usage":[ 1 , 2 , 3 , [4,5] , {"reasoning_tokens":6} ] }"#]).unwrap();
    assert_eq!(usage.cached_tokens, Some(4));
    assert_eq!(usage.reasoning_tokens, Some(6));
    let usage = scan(&[br#"{"usage":{"total_tokens":1,"prompt_tokens_details":[null,8]}}"#]).unwrap();
    assert_eq!((usage.cached_tokens, usage.total_tokens), (None, Some(1)));
    // An array that is cut off is kept.
    let body: &[u8] = br#"{"usage":[10,20,30,[40,50],[60,70]]}"#;
    let whole = scan(&[body]);
    assert_eq!(whole.unwrap().reasoning_tokens, Some(70));
    for at in 1..body.len() {
        assert_eq!(scan(&[&body[..at], &body[at..]]), whole, "split at {at}");
    }
    for body in [
        &br#"{"usage":[]}"#[..],
        br#"{"usage":[1,2]}"#,
        br#"{"usage":[1,2,3,]}"#,
        br#"{"usage":[1,2,3,null]}"#,
        br#"{"usage":[1,2,3,[4]]}"#,
        br#"{"usage":[1,2,3,[4,5,6]]}"#,
        br#"{"usage":[1,2,3,[4,5],[6,7],8]}"#,
        br#"{"usage":[1,2,3,[4,5],[6,7],]}"#,
        br#"{"usage":[1,2 3]}"#,
        br#"{"usage":[,1,2,3]}"#,
    ] {
        assert_eq!(scan(&[body]), None, "{}", String::from_utf8_lossy(body));
    }
}

#[test]
fn candidates_come_off_the_front() {
    let frame: &[u8] = b"rest\ndata:  a b \n\ndata: c";
    let mut candidates = Candidates::new(frame, true);
    let mut count = 0;
    loop {
        let before = candidates.rest;
        match candidates.next() {
            Some(candidate) => {
                let used = before.len() - candidates.rest.len();
                assert!(used > 0);
                assert_eq!(candidates.rest, &before[used..]);
                assert!(candidate.is_empty() || find(&before[..used], candidate).is_some());
                count += 1;
            }
            None => break,
        }
    }
    assert!(candidates.next().is_none() && candidates.rest.is_empty());
    assert_eq!(count, 3);
    assert!(count <= frame.len());
}

#[test]
fn batching_events_does_not_change_what_is_read() {
    let first: &[u8] = b"data: {\"usage\":{\"prompt_tokens\":1}}\n";
    let second: &[u8] = b"data: {\"usage\":{\"total_tokens\":2}}\n\n";
    let mut both = first.to_vec();
    both.extend_from_slice(second);
    assert_eq!(scan(&[&both]), scan(&[first, second]));
    assert_eq!(scan(&[&both]).unwrap().total_tokens, Some(2));
}

#[test]
fn candidates_are_cut_at_markers() {
    let cases: [(&str, bool, &[&str]); 8] = [
        ("", false, &[]),
        ("", true, &[]),
        (" body ", false, &["body"]),
        (" rest ", true, &[" rest "]),
        ("rest\ndata: x\n", true, &["rest\n", "x", ""]),
        ("data: x\n", true, &["x", ""]),
        ("skipped data:  a \r\n\ndata:b", false, &["a", "b"]),
        ("data:", false, &[""]),
    ];
    for (frame, open, expected) in cases {
        let mut candidates = Candidates::new(frame.as_bytes(), open);
        let mut found = Vec::new();
        while let Some(candidate) = candidates.next() {
            found.push(String::from_utf8(candidate.to_vec()).unwrap());
        }
        assert_eq!(found, expected, "{frame:?} {open}");
    }
}

#[test]
fn find_gives_the_first_place() {
    assert_eq!(find(b"abcabc", b"bc"), Some(1));
    assert_eq!(find(b"abc", b"abc"), Some(0));
    assert_eq!(find(b"ab", b"abc"), None);
    assert_eq!(find(b"abc", b""), None);
    assert_eq!(find(b"abc", b"x"), None);
}

#[test]
fn trim_removes_ascii_white_space_only() {
    assert_eq!(trim(b" \t\r\n\x0cx y\x0b "), b"x y\x0b");
    assert_eq!(trim(b" \n "), b"");
}

#[test]
fn the_buffer_is_dropped_just_over_the_limit() {
    let mut scanner = UsageScanner::new();
    let mut usage = None;
    let mut body = b"{\"a\":\"".to_vec();
    body.resize(MAX_PENDING, b'x');
    scanner.push(&body, &mut usage);
    assert_eq!(scanner.pending().len(), MAX_PENDING);
    scanner.push(b"x", &mut usage);
    assert_eq!(scanner.pending().len(), 0);
}

#[test]
fn the_effort_that_is_there_stays() {
    let mut effort = None;
    merge_effort(&mut effort, None);
    assert_eq!(effort, None);
    merge_effort(&mut effort, Some("low".to_string()));
    merge_effort(&mut effort, Some("high".to_string()));
    merge_effort(&mut effort, None);
    assert_eq!(effort.as_deref(), Some("low"));
}

#[test]
fn the_effort_does_not_depend_on_the_order_of_fields() {
    let fields = [
        r#""thinking_effort":"d""#,
        r#""reasoning":{"effort":"c"}"#,
        r#""thinking":{"type":"b"}"#,
    ];
    for order in [[0, 1, 2], [0, 2, 1], [1, 0, 2], [1, 2, 0], [2, 0, 1], [2, 1, 0]] {
        let body = format!("{{{},{},{}}}", fields[order[0]], fields[order[1]], fields[order[2]]);
        assert_eq!(extract_effort(body.as_bytes()).as_deref(), Some("b"), "{body}");
    }
    // An unusable value leaves the field to the next name, and the first usable one counts.
    let body = br#"{"thinking":null,"reasoning":"  x ","reasoning":"y"}"#;
    assert_eq!(extract_effort(body).as_deref(), Some("x"));
    // `type` hides `effort`, even when it is no text.
    assert_eq!(extract_effort(br#"{"thinking":{"type":1,"effort":"x"}}"#), None);
}

#[test]
fn efforts_are_trimmed() {
    assert_eq!(non_empty("  a b \u{a0}").as_deref(), Some("a b"));
    assert_eq!(non_empty(" \u{3000} "), None);
    assert_eq!(non_empty(""), None);
}

#[test]
fn the_first_budget_and_the_last_choice_count_are_read() {
    let usage = extract_request_usage(
        br#"{"max_output_tokens":"x","max_completion_tokens":5,"max_tokens":6,"n":1,"n":2}"#,
    );
    assert_eq!(usage.max_tokens, Some(5));
    assert_eq!(usage.choices, Some(2));
    let usage = extract_request_usage(br#"{"n":2,"n":-1,"max_tokens":1.5}"#);
    assert_eq!(usage, RequestUsage::default());
    assert_eq!(extract_request_usage(br#"{"n":2"#), RequestUsage::default());
}

#[test]
fn the_buffers_stay_within_one_limit() {
    let mut scanner = UsageScanner::new();
    let mut usage = None;
    let mut body = b"{\"a\":\"".to_vec();
    body.resize(MAX_PENDING, b'x');
    scanner.push(&body, &mut usage);
    // The object is broken off, and what follows may be the start of a marker.
    scanner.push(b"\nda", &mut usage);
    assert_eq!(scanner.pending().len(), 0);
    scanner.push(b"t", &mut usage);
    assert!(scanner.pending().len() < 4);
    scanner.push(b"a: {\"usage\":{\"total_tokens\":3}}\n\n", &mut usage);
    assert_eq!(scanner.pending().len(), 0);
    assert_eq!(usage.unwrap().total_tokens, Some(3));
}

#[test]
fn a_split_event_may_end_in_front_of_others() {
    let event: &[u8] = b"data: {\"usage\":{\"total_tokens\":3}}";
    for at in 7..event.len() {
        let rest = [&event[at..], b"\n\ndata: {\"x\":1}\n\ndata: [DONE]\n\n"].concat();
        assert_eq!(scan(&[&event[..at], &rest]).unwrap().total_tokens, Some(3), "split at {at}");
        for to in at..event.len() {
            let rest = [&event[to..], b"\n\ndata: [DONE]\n\n"].concat();
            let frames = [&event[..at], &event[at..to], &rest];
            assert_eq!(scan(&frames).unwrap().total_tokens, Some(3), "split at {at} and {to}");
        }
    }
}
