use tau_core::provider::stream::{decode_frames, fold_accepted, split_frame, stream_payloads};
use tau_core::provider::wire::{clamp_max_output, prompt_token_estimate};
use tau_core::provider::{
    FunctionCallInput, FunctionCallOutputInput, InputEntry, InputMessage, ReasoningEffort, ResponseRequest, ToolKind,
    ToolSpec,
};
use tau_core::provider::{
    apply_frame, endpoint_url, fold_event, retry_delay_secs, CallOutput, Frame, FunctionCall, InputImagePart,
    OutputItem, ProviderError, ReasoningBlock, SseParser, StoredOutput, TurnEvent, TurnResult, TurnSink,
};

/// The usage a completion frame reports, as the tests write it.
#[derive(Debug, Clone, PartialEq, Default)]
struct Usage {
    input_tokens: u64,
    output_tokens: u64,
    total_tokens: u64,
}

/// A sink that keeps every event.
struct Keep;

impl TurnSink<Usage> for Keep {
    fn event(&mut self, _: TurnEvent<Usage>) -> bool {
        true
    }
}

/// A sink that records what it saw and refuses after `limit` events.
struct Cut {
    seen: Vec<TurnEvent<Usage>>,
    limit: usize,
}

impl TurnSink<Usage> for Cut {
    fn event(&mut self, event: TurnEvent<Usage>) -> bool {
        if self.seen.len() >= self.limit {
            return false;
        }
        self.seen.push(event);
        true
    }
}

fn text_delta(delta: &str) -> Frame<Usage> {
    Frame::OutputTextDelta { delta: Some(delta.to_owned()), reasoning_text: None, reasoning_details: None }
}

fn sse(event: &str) -> String {
    format!("data: {event}\n\n")
}

#[test]
fn endpoint_url_trims_trailing_slash() {
    assert_eq!(endpoint_url("http://x/v1/", "models"), "http://x/v1/models");
    assert_eq!(endpoint_url("http://x/v1", "models"), "http://x/v1/models");
}

#[test]
fn endpoint_url_trims_every_trailing_slash() {
    assert_eq!(endpoint_url("http://x/v1///", "responses"), "http://x/v1/responses");
}

#[test]
fn sse_parses_data_events_and_joins_multiline_data() {
    let mut p = SseParser::new();
    let events = p.feed(sse(r#"{"type":"response.created"}"#).as_bytes()).unwrap();
    assert_eq!(events.len(), 1);
    let events = p.feed(b"data: part1\ndata: part2\n\ndata: [DONE]\n\n").unwrap();
    assert_eq!(events, vec!["part1\npart2".to_string(), "[DONE]".to_string()]);
    assert!(p.terminated);
}

#[test]
fn sse_skips_comment_lines() {
    let mut p = SseParser::new();
    let events = p.feed(b": OPENROUTER PROCESSING\n\n").unwrap();
    assert!(events.is_empty());
    let events = p
        .feed(sse(r#"{"type":"response.output_text.delta","delta":"x"}"#).as_bytes())
        .unwrap();
    assert_eq!(events.len(), 1);
}

#[test]
fn sse_buffers_utf8_split_across_chunks() {
    let mut p = SseParser::new();
    let full = sse(r#"{"type":"response.output_text.delta","delta":"éé✓"}"#);
    let cut = full.len() - 12;
    let events = p.feed(&full.as_bytes()[..cut]).unwrap();
    assert!(events.is_empty());
    let events = p.feed(&full.as_bytes()[cut..]).unwrap();
    assert_eq!(events.len(), 1);
    assert!(events[0].contains("éé✓"));
}

#[test]
fn sse_done_sets_terminated() {
    let mut p = SseParser::new();
    assert!(!p.terminated);
    p.feed(sse("[DONE]").as_bytes()).unwrap();
    assert!(p.terminated);
}

#[test]
fn sse_keeps_a_split_event_across_chunks() {
    let mut p = SseParser::new();
    assert!(p.feed(b"data: a\r\n").unwrap().is_empty());
    assert!(p.feed(b"data:b\r").unwrap().is_empty());
    assert_eq!(p.feed(b"\n\r\n").unwrap(), vec!["a\nb".to_string()]);
    assert!(!p.terminated);
}

#[test]
fn sse_ignores_other_fields_and_empty_events() {
    let mut p = SseParser::new();
    assert!(p.feed(b"event: x\nid: 3\nretry: 5\n\n\n").unwrap().is_empty());
    assert_eq!(p.feed(b"data:  two spaces\n\n").unwrap(), vec![" two spaces".to_string()]);
}

#[test]
fn sse_rejects_a_line_that_is_not_utf8() {
    let mut p = SseParser::new();
    match p.feed(b"data: \xff\xfe\n\n") {
        Err(ProviderError::MalformedStream(_)) => {},
        other => panic!("expected a malformed stream, got {other:?}"),
    }
    assert!(!p.terminated);
}

#[test]
fn chunk_boundaries_do_not_change_the_decoded_events() {
    let body = "data: {\"type\":\"response.created\"}\n\n: keep-alive comment\n\ndata: thought éé✓\n\ndata: part1\ndata: part2\n\ndata: [DONE]\n\n";
    let bytes = body.as_bytes();
    let mut reference = SseParser::new();
    let expected = reference.feed(bytes).unwrap();
    assert_eq!(expected.len(), 4);
    for chunk in 1..40 {
        let mut chunked = SseParser::new();
        let mut out = Vec::new();
        let mut pos = 0usize;
        while pos < bytes.len() {
            let end = (pos + chunk).min(bytes.len());
            out.extend(chunked.feed(&bytes[pos..end]).unwrap());
            pos = end;
        }
        assert_eq!(out, expected);
        assert_eq!(chunked.terminated, reference.terminated);
    }
}

#[test]
fn decode_stream_extracts_function_calls_and_reasoning_dialect() {
    let frames = vec![
        // response.output_item.added and response.function_call_arguments.delta
        Frame::Other,
        Frame::Other,
        Frame::OutputItemDone {
            item: OutputItem::FunctionCall {
                id: "i1".into(),
                call_id: "c1".into(),
                name: "bash".into(),
                arguments: r#"{"command": "ls"}"#.into(),
            },
        },
        Frame::ReasoningTextDelta { delta: Some("thinking".into()) },
        text_delta("done"),
        Frame::Completed { usage: Some(Usage { input_tokens: 2, output_tokens: 3, total_tokens: 5 }) },
    ];
    let (events, calls) = decode_frames(frames);
    assert_eq!(
        events,
        vec![
            TurnEvent::Reasoning("thinking".into()),
            TurnEvent::Text("done".into()),
            TurnEvent::Completed(Usage { input_tokens: 2, output_tokens: 3, total_tokens: 5 }),
        ]
    );
    assert_eq!(calls.len(), 1);
    assert_eq!(calls[0].0, 0);
    assert_eq!(calls[0].1.name, "bash");
    assert_eq!(calls[0].1.call_id, "c1");
    assert_eq!(calls[0].1.arguments, r#"{"command": "ls"}"#);
}

#[test]
fn reasoning_dialects_normalize_into_one_field() {
    // The `reasoning`, `reasoning_content` and `thinking` members all
    // decode into the one reasoning field of a text delta.
    for _field in ["reasoning", "reasoning_content", "thinking"] {
        let frame = Frame::OutputTextDelta {
            delta: Some("answer".into()),
            reasoning_text: Some("thought".into()),
            reasoning_details: None,
        };
        let mut result: TurnResult<Usage> = TurnResult::default();
        assert!(apply_frame(&mut Keep, &mut result, frame));
        assert_eq!(result.text, "answer");
        assert_eq!(result.reasoning, "thought");
    }
    let frame = Frame::OutputTextDelta {
        delta: Some("answer".into()),
        reasoning_text: None,
        reasoning_details: Some(vec![
            ReasoningBlock { text: Some("thought-a".into()) },
            ReasoningBlock { text: Some("thought-b".into()) },
        ]),
    };
    let mut result: TurnResult<Usage> = TurnResult::default();
    apply_frame(&mut Keep, &mut result, frame);
    assert_eq!(result.reasoning, "thought-athought-b");
}

#[test]
fn a_refusing_sink_keeps_the_events_before_the_refusal() {
    let mut sink = Cut { seen: Vec::new(), limit: 1 };
    let mut result: TurnResult<Usage> = TurnResult::default();
    let frame = Frame::OutputTextDelta {
        delta: Some("kept".into()),
        reasoning_text: Some("dropped".into()),
        reasoning_details: None,
    };
    assert!(!apply_frame(&mut sink, &mut result, frame));
    assert_eq!(result.text, "kept");
    assert_eq!(result.reasoning, "");
    assert_eq!(sink.seen, vec![TurnEvent::Text("kept".into())]);
    assert!(!result.nothing_received());
}

#[test]
fn completion_errors_and_calls_are_recorded() {
    let mut result: TurnResult<Usage> = TurnResult::default();
    assert!(result.nothing_received());
    assert!(apply_frame(&mut Keep, &mut result, Frame::Error { message: None }));
    assert!(apply_frame(&mut Keep, &mut result, Frame::Error { message: Some("overloaded".into()) }));
    assert_eq!(result.mid_stream_errors, vec!["mid-stream provider error".to_owned(), "overloaded".to_owned()]);
    assert!(apply_frame(&mut Keep, &mut result, Frame::Completed { usage: None }));
    assert!(result.completed);
    assert_eq!(result.usage, None);
    assert!(apply_frame(&mut Keep, &mut result, Frame::OutputItemDone { item: OutputItem::Other }));
    assert!(result.calls.is_empty());
    assert!(result.nothing_received());
    // A refusal of the usage event still records the completion.
    let mut cut = Cut { seen: Vec::new(), limit: 0 };
    let mut r2: TurnResult<Usage> = TurnResult::default();
    let usage = Usage { input_tokens: 1, output_tokens: 1, total_tokens: 2 };
    assert!(!apply_frame(&mut cut, &mut r2, Frame::Completed { usage: Some(usage) }));
    assert!(r2.completed);
    assert_eq!(r2.usage, None);
}

#[test]
fn fold_event_accumulates_text_reasoning_and_usage() {
    let mut result: TurnResult<Usage> = TurnResult::default();
    fold_event(&TurnEvent::Text("a".into()), &mut result);
    fold_event(&TurnEvent::Text("b".into()), &mut result);
    fold_event(&TurnEvent::Reasoning("r".into()), &mut result);
    let usage = Usage { input_tokens: 1, output_tokens: 2, total_tokens: 3 };
    fold_event(&TurnEvent::Completed(usage.clone()), &mut result);
    assert_eq!(result.text, "ab");
    assert_eq!(result.reasoning, "r");
    assert_eq!(result.usage, Some(usage));
}

#[test]
fn stream_payloads_stop_at_done() {
    let body = format!("{}{}{}", sse("one"), sse("[DONE]"), sse("after"));
    assert_eq!(stream_payloads(body.as_bytes()).unwrap(), vec!["one".to_owned()]);
    let body = format!("{}{}", sse("one"), sse("two"));
    assert_eq!(stream_payloads(body.as_bytes()).unwrap(), vec!["one".to_owned(), "two".to_owned()]);
    assert!(matches!(stream_payloads(b"data: \xff\n\n"), Err(ProviderError::MalformedStream(_))));
}

#[test]
fn retries_back_off_on_transport_and_server_failures_only() {
    let transport = ProviderError::Request { connect_or_timeout: true, message: "refused".into() };
    assert_eq!(retry_delay_secs(&transport, 0, 3), Some(1));
    assert_eq!(retry_delay_secs(&transport, 2, 3), Some(4));
    assert_eq!(retry_delay_secs(&transport, 3, 3), None);
    assert_eq!(retry_delay_secs(&ProviderError::IdleTimeout, 9, 20), Some(64));
    let busy = ProviderError::Status { status: 503, body: String::new() };
    assert_eq!(retry_delay_secs(&busy, 1, 2), Some(2));
    let bad = ProviderError::Status { status: 400, body: "no".into() };
    assert_eq!(retry_delay_secs(&bad, 0, 5), None);
    // 599 lies outside the retried range.
    let edge = ProviderError::Status { status: 599, body: String::new() };
    assert_eq!(retry_delay_secs(&edge, 0, 5), None);
    let other = ProviderError::Request { connect_or_timeout: false, message: "tls".into() };
    assert_eq!(retry_delay_secs(&other, 0, 5), None);
    assert_eq!(retry_delay_secs(&ProviderError::MalformedStream("x".into()), 0, 5), None);
}

#[test]
fn provider_errors_read_as_messages() {
    assert_eq!(ProviderError::Status { status: 503, body: "busy".into() }.message(), "provider returned 503: busy");
    assert_eq!(
        ProviderError::IdleTimeout.message(),
        "provider stream went idle (no data for the idle timeout)"
    );
    assert_eq!(ProviderError::MalformedStream("bad".into()).message(), "malformed stream: bad");
    assert_eq!(
        ProviderError::Request { connect_or_timeout: true, message: "refused".into() }.message(),
        "provider request failed: refused"
    );
}

#[test]
fn call_output_from_payload_maps_the_stored_shapes() {
    let block = StoredOutput::Object {
        kind: Some("image".into()),
        media_type: Some("image/png".into()),
        data_base64: Some("AAAA".into()),
    };
    assert_eq!(
        CallOutput::from_payload(&block),
        Some(CallOutput::Image(vec![InputImagePart {
            kind: "input_image",
            image_url: "data:image/png;base64,AAAA".into(),
        }]))
    );
    assert_eq!(CallOutput::from_payload(&StoredOutput::Text("plain".into())), Some(CallOutput::Text("plain".into())));
    let other = StoredOutput::Object { kind: None, media_type: None, data_base64: None };
    assert_eq!(CallOutput::from_payload(&other), None);
    assert_eq!(CallOutput::from_payload(&StoredOutput::Other), None);
    // Absent members read as empty.
    let bare = StoredOutput::Object { kind: Some("image".into()), media_type: None, data_base64: None };
    assert_eq!(
        CallOutput::from_payload(&bare),
        Some(CallOutput::Image(vec![InputImagePart { kind: "input_image", image_url: "data:;base64,".into() }]))
    );
}

#[test]
fn function_calls_compare_by_their_fields() {
    let c = FunctionCall { id: "i".into(), call_id: "c".into(), name: "n".into(), arguments: "{}".into() };
    assert_eq!(c.clone(), c);
}

#[test]
fn the_output_cap_is_clamped_to_the_window() {
    assert_eq!(clamp_max_output(4096, Some(8192), 1000), 4096);
    assert_eq!(clamp_max_output(8000, Some(8192), 1000), 7192);
    // A prompt that fills the window, or no declared window: the cap stands.
    assert_eq!(clamp_max_output(4096, Some(1000), 1000), 4096);
    assert_eq!(clamp_max_output(4096, None, 1_000_000), 4096);
}

#[test]
fn the_prompt_estimate_counts_every_part() {
    let input = vec![
        InputEntry::Message(InputMessage { role: "user".into(), content: "abcd".into() }),
        InputEntry::Call(FunctionCallInput {
            kind: "function_call",
            id: "i".into(),
            call_id: "c".into(),
            name: "bash".into(),
            arguments: "12345678".into(),
        }),
        InputEntry::CallOutput(FunctionCallOutputInput {
            kind: "function_call_output",
            call_id: "c".into(),
            output: CallOutput::Text("x".repeat(12)),
        }),
        InputEntry::CallOutput(FunctionCallOutputInput {
            kind: "function_call_output",
            call_id: "d".into(),
            output: CallOutput::Image(vec![InputImagePart { kind: "input_image", image_url: "data:".repeat(40) }]),
        }),
    ];
    assert_eq!(prompt_token_estimate("abcdefgh", &input, Some("[{}]")), 2 + 1 + 2 + 3 + 1);
    assert_eq!(prompt_token_estimate("abcdefgh", &input, None), 2 + 1 + 2 + 3);
    assert_eq!(prompt_token_estimate("", &[], None), 0);
}

#[test]
fn a_request_carries_its_tools_and_limits() {
    let request = ResponseRequest::new(
        "m",
        Some("sys"),
        vec![InputEntry::Message(InputMessage { role: "user".into(), content: "hi".into() })],
    )
    .with_tools(vec![ToolSpec {
        kind: ToolKind::Function,
        name: "bash".into(),
        description: "run".into(),
        parameters: serde_json::Value::Null,
    }])
    .with_max_output_tokens(128)
    .with_reasoning(ReasoningEffort::Low);
    assert!(request.stream());
    assert_eq!(request.model(), "m");
    assert_eq!(request.instructions(), Some("sys"));
    assert_eq!(request.tools().len(), 1);
    assert_eq!(request.tools()[0].name, "bash");
    assert_eq!(request.max_output_tokens(), Some(128));
    assert_eq!(request.reasoning(), Some(ReasoningEffort::Low));
    assert_eq!(request.input().len(), 1);
    let bare = ResponseRequest::new("m", None, Vec::new());
    assert_eq!(bare.instructions(), None);
    assert!(bare.tools().is_empty());
    assert_eq!(bare.max_output_tokens(), None);
    assert_eq!(bare.reasoning(), None);
}

#[test]
fn a_frame_hands_its_events_in_order_and_folds_the_accepted_ones() {
    let frame: Frame<Usage> = Frame::OutputTextDelta {
        delta: Some("answer".into()),
        reasoning_text: Some("thought".into()),
        reasoning_details: None,
    };
    let mut result: TurnResult<Usage> = TurnResult::default();
    let events = split_frame(frame, &mut result);
    assert_eq!(events, vec![TurnEvent::Text("answer".into()), TurnEvent::Reasoning("thought".into())]);
    let mut all = TurnResult::default();
    assert!(fold_accepted(&mut all, events.clone(), &[true, true]));
    assert_eq!((all.text.as_str(), all.reasoning.as_str()), ("answer", "thought"));
    let mut cut = TurnResult::default();
    assert!(!fold_accepted(&mut cut, events.clone(), &[true, false]));
    assert_eq!((cut.text.as_str(), cut.reasoning.as_str()), ("answer", ""));
    let mut unanswered = TurnResult::default();
    assert!(!fold_accepted(&mut unanswered, events, &[true]));
    assert_eq!(unanswered.text, "answer");
}
