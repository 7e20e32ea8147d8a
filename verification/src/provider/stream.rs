//! Folding a response stream: the decoded frames of one streamed turn
//! become stream-delta events for a sink and an accumulated turn result
//! (text, reasoning, usage, completion, function calls, mid-stream
//! errors); and the retry decision for a failed attempt. The usage the
//! server reports is carried through as it came (`U`).

use crate::text::string_of;
use vstd::prelude::*;

verus! {

/// One function call the model made.
#[derive(Debug, Clone, PartialEq, Eq)]
pub struct FunctionCall {
    pub id: String,
    pub call_id: String,
    pub name: String,
    pub arguments: String,
}

pub struct CallView {
    pub id: Seq<char>,
    pub call_id: Seq<char>,
    pub name: Seq<char>,
    pub arguments: Seq<char>,
}

impl View for FunctionCall {
    type V = CallView;

    open spec fn view(&self) -> CallView {
        CallView { id: self.id@, call_id: self.call_id@, name: self.name@, arguments: self.arguments@ }
    }
}

pub open spec fn call_views(cs: Seq<FunctionCall>) -> Seq<CallView> {
    cs.map_values(|c: FunctionCall| c@)
}

fn copy_call(c: &FunctionCall) -> (r: FunctionCall)
    ensures
        r@ == c@,
{
    FunctionCall { id: c.id.clone(), call_id: c.call_id.clone(), name: c.name.clone(), arguments: c.arguments.clone() }
}

/// One stream delta, or the usage at completion. The sink decides whether
/// the stream may go on.
#[derive(Debug, Clone, PartialEq)]
pub enum TurnEvent<U> {
    Text(String),
    Reasoning(String),
    Completed(U),
}

pub enum EventView<U> {
    Text(Seq<char>),
    Reasoning(Seq<char>),
    Completed(U),
}

impl<U> View for TurnEvent<U> {
    type V = EventView<U>;

    open spec fn view(&self) -> EventView<U> {
        match self {
            TurnEvent::Text(t) => EventView::Text(t@),
            TurnEvent::Reasoning(t) => EventView::Reasoning(t@),
            TurnEvent::Completed(u) => EventView::Completed(*u),
        }
    }
}

pub open spec fn event_views<U>(es: Seq<TurnEvent<U>>) -> Seq<EventView<U>> {
    es.map_values(|e: TurnEvent<U>| e@)
}

/// The assembled result of one turn.
#[derive(Debug)]
pub struct TurnResult<U> {
    pub text: String,
    pub reasoning: String,
    pub usage: Option<U>,
    /// The completion frame arrived; a kill or an early end leaves this
    /// false and the partial stands.
    pub completed: bool,
    pub calls: Vec<FunctionCall>,
    /// Mid-stream provider error frames, in arrival order.
    pub mid_stream_errors: Vec<String>,
}

impl<U> TurnResult<U> {
    /// Nothing arrived yet: no text, no reasoning, no function call (a
    /// failure now fails the attempt; after this a partial stands).
    pub fn nothing_received(&self) -> (r: bool)
        ensures
            r == (self.text@.len() == 0 && self.reasoning@.len() == 0 && self.calls@.len() == 0),
    {
        crate::text::chars_of(self.text.as_str()).len() == 0 && crate::text::chars_of(self.reasoning.as_str()).len() == 0
            && self.calls.len() == 0
    }
}

pub struct TurnState<U> {
    pub text: Seq<char>,
    pub reasoning: Seq<char>,
    pub usage: Option<U>,
    pub completed: bool,
    pub calls: Seq<CallView>,
    pub errors: Seq<Seq<char>>,
}

pub open spec fn string_views(v: Seq<String>) -> Seq<Seq<char>> {
    v.map_values(|s: String| s@)
}

impl<U> View for TurnResult<U> {
    type V = TurnState<U>;

    open spec fn view(&self) -> TurnState<U> {
        TurnState {
            text: self.text@,
            reasoning: self.reasoning@,
            usage: self.usage,
            completed: self.completed,
            calls: call_views(self.calls@),
            errors: string_views(self.mid_stream_errors@),
        }
    }
}

impl<U> Default for TurnResult<U> {
    fn default() -> (r: Self)
        ensures
            r@ == (TurnState::<U> {
                text: Seq::empty(),
                reasoning: Seq::empty(),
                usage: None,
                completed: false,
                calls: Seq::empty(),
                errors: Seq::empty(),
            }),
    {
        let r = TurnResult {
            text: String::new(),
            reasoning: String::new(),
            usage: None,
            completed: false,
            calls: Vec::new(),
            mid_stream_errors: Vec::new(),
        };
        assert(r@.calls =~= Seq::<CallView>::empty());
        assert(r@.errors =~= Seq::<Seq<char>>::empty());
        r
    }
}

/// A streaming sink: it sees each event and answers whether the stream
/// may go on (`false` kills it; the partial result then stands).
pub trait TurnSink<U> {
    fn event(&mut self, event: TurnEvent<U>) -> bool;
}

/// The result with one event folded in.
pub open spec fn fold_view<U>(st: TurnState<U>, e: EventView<U>) -> TurnState<U> {
    match e {
        EventView::Text(t) => TurnState { text: st.text + t, ..st },
        EventView::Reasoning(t) => TurnState { reasoning: st.reasoning + t, ..st },
        EventView::Completed(u) => TurnState { usage: Some(u), ..st },
    }
}

/// The result with the events folded in, in order.
pub open spec fn fold_all<U>(st: TurnState<U>, es: Seq<EventView<U>>) -> TurnState<U>
    decreases es.len(),
{
    if es.len() == 0 {
        st
    } else {
        fold_view(fold_all(st, es.drop_last()), es.last())
    }
}

/// Fold one event into the result: text and reasoning append, the usage
/// is a clone of the event's.
pub fn fold_event<U: Clone>(event: &TurnEvent<U>, result: &mut TurnResult<U>)
    ensures
        match *event {
            TurnEvent::Completed(u) => {
                &&& final(result).usage matches Some(v) && cloned(u, v)
                &&& final(result)@ == (TurnState { usage: final(result).usage, ..old(result)@ })
            },
            _ => final(result)@ == fold_view(old(result)@, event@),
        },
{
    match event {
        TurnEvent::Text(t) => result.text.append(t.as_str()),
        TurnEvent::Reasoning(t) => result.reasoning.append(t.as_str()),
        TurnEvent::Completed(u) => result.usage = Some(u.clone()),
    }
}

/// Fold one event, moved in: the usage is the event's own.
fn fold_owned<U>(event: TurnEvent<U>, result: &mut TurnResult<U>)
    ensures
        final(result)@ == fold_view(old(result)@, event@),
{
    match event {
        TurnEvent::Text(t) => result.text.append(t.as_str()),
        TurnEvent::Reasoning(t) => result.reasoning.append(t.as_str()),
        TurnEvent::Completed(u) => result.usage = Some(u),
    }
}

/// A copy of the event for the sink: the same kind of event with the same
/// text, or a clone of the usage.
fn copy_event<U: Clone>(e: &TurnEvent<U>) -> (r: TurnEvent<U>)
    ensures
        match *e {
            TurnEvent::Text(t) => r matches TurnEvent::Text(s) && s@ == t@,
            TurnEvent::Reasoning(t) => r matches TurnEvent::Reasoning(s) && s@ == t@,
            TurnEvent::Completed(u) => r matches TurnEvent::Completed(v) && cloned(u, v),
        },
{
    match e {
        TurnEvent::Text(t) => TurnEvent::Text(t.clone()),
        TurnEvent::Reasoning(t) => TurnEvent::Reasoning(t.clone()),
        TurnEvent::Completed(u) => TurnEvent::Completed(u.clone()),
    }
}

/// One reasoning-detail block of a text delta.
#[derive(Debug)]
pub struct ReasoningBlock {
    pub text: Option<String>,
}

/// A completed output item: a function call, or anything else.
#[derive(Debug)]
pub enum OutputItem {
    FunctionCall { id: String, call_id: String, name: String, arguments: String },
    Other,
}

/// One decoded stream frame.
#[derive(Debug)]
pub enum Frame<U> {
    /// The response completed, with the usage when it reported one.
    Completed { usage: Option<U> },
    /// A text delta, with the reasoning dialects some servers fold in.
    OutputTextDelta { delta: Option<String>, reasoning_text: Option<String>, reasoning_details: Option<Vec<ReasoningBlock>> },
    /// The native reasoning-summary delta.
    ReasoningDelta { delta: Option<String> },
    /// A mid-stream provider error: recorded, never fatal.
    Error { message: Option<String> },
    /// A completed output item: the carrier of a function call.
    OutputItemDone { item: OutputItem },
    /// Another server's reasoning-delta dialect.
    ReasoningTextDelta { delta: Option<String> },
    Created,
    InProgress,
    Other,
}

pub open spec fn text_events<U>(t: Option<String>) -> Seq<EventView<U>> {
    match t {
        Some(s) => seq![EventView::Text(s@)],
        None => Seq::empty(),
    }
}

pub open spec fn reasoning_events<U>(t: Option<String>) -> Seq<EventView<U>> {
    match t {
        Some(s) => seq![EventView::Reasoning(s@)],
        None => Seq::empty(),
    }
}

pub open spec fn block_events<U>(bs: Seq<ReasoningBlock>) -> Seq<EventView<U>>
    decreases bs.len(),
{
    if bs.len() == 0 {
        Seq::empty()
    } else {
        block_events(bs.drop_last()) + reasoning_events(bs.last().text)
    }
}

/// The events a frame sends to the sink, in order.
pub open spec fn frame_events<U>(f: Frame<U>) -> Seq<EventView<U>> {
    match f {
        Frame::Completed { usage } => match usage {
            Some(u) => seq![EventView::Completed(u)],
            None => Seq::empty(),
        },
        Frame::OutputTextDelta { delta, reasoning_text, reasoning_details } => text_events(delta) + reasoning_events(
            reasoning_text,
        ) + match reasoning_details {
            Some(bs) => block_events(bs@),
            None => Seq::empty(),
        },
        Frame::ReasoningDelta { delta } => reasoning_events(delta),
        Frame::ReasoningTextDelta { delta } => reasoning_events(delta),
        _ => Seq::empty(),
    }
}

/// The message an error frame records.
pub open spec fn error_message(m: Option<String>) -> Seq<char> {
    match m {
        Some(s) => s@,
        None => "mid-stream provider error"@,
    }
}

/// What a frame records outside its events: completion, a function call,
/// an error.
pub open spec fn frame_effect<U>(st: TurnState<U>, f: Frame<U>) -> TurnState<U> {
    match f {
        Frame::Completed { .. } => TurnState { completed: true, ..st },
        Frame::OutputItemDone { item } => match item {
            OutputItem::FunctionCall { id, call_id, name, arguments } => TurnState {
                calls: st.calls.push(CallView { id: id@, call_id: call_id@, name: name@, arguments: arguments@ }),
                ..st
            },
            OutputItem::Other => st,
        },
        Frame::Error { message } => TurnState { errors: st.errors.push(error_message(message)), ..st },
        _ => st,
    }
}

/// The events a frame hands to the sink, in order, with what the frame
/// records outside them (completion, function calls, mid-stream errors)
/// written into the result.
pub fn split_frame<U>(frame: Frame<U>, result: &mut TurnResult<U>) -> (r: Vec<TurnEvent<U>>)
    ensures
        final(result)@ == frame_effect(old(result)@, frame),
        event_views(r@) == frame_events(frame),
{
    let ghost f = frame;
    let mut out: Vec<TurnEvent<U>> = Vec::new();
    match frame {
        Frame::Completed { usage } => {
            result.completed = true;
            match usage {
                Some(u) => out.push(TurnEvent::Completed(u)),
                None => {},
            }
        },
        Frame::OutputTextDelta { delta, reasoning_text, reasoning_details } => {
            match delta {
                Some(t) => out.push(TurnEvent::Text(t)),
                None => {},
            }
            match reasoning_text {
                Some(t) => out.push(TurnEvent::Reasoning(t)),
                None => {},
            }
            let ghost head = event_views(out@);
            match reasoning_details {
                Some(bs) => {
                    let ghost bv = bs@;
                    let n = bs.len();
                    let mut i: usize = 0;
                    let mut blocks = bs;
                    while blocks.len() > 0
                        invariant
                            blocks@.len() + i == bv.len(),
                            bv.len() == n,
                            blocks@ == bv.skip(i as int),
                            event_views(out@) == head + block_events::<U>(bv.take(i as int)),
                        decreases blocks@.len(),
                    {
                        assert(blocks@[0] == bv[i as int]);
                        let b = blocks.remove(0);
                        assert(bv.take(i + 1).drop_last() =~= bv.take(i as int));
                        match b.text {
                            Some(t) => {
                                let ghost before = out@;
                                out.push(TurnEvent::Reasoning(t));
                                assert(event_views(out@) =~= event_views(before).push(out@.last()@));
                            },
                            None => {},
                        }
                        assert(event_views(out@) =~= head + block_events::<U>(bv.take(i + 1)));
                        i = i + 1;
                        assert(blocks@ =~= bv.skip(i as int));
                    }
                    assert(bv.take(i as int) =~= bv);
                },
                None => {},
            }
        },
        Frame::ReasoningDelta { delta } => match delta {
            Some(t) => out.push(TurnEvent::Reasoning(t)),
            None => {},
        },
        Frame::ReasoningTextDelta { delta } => match delta {
            Some(t) => out.push(TurnEvent::Reasoning(t)),
            None => {},
        },
        Frame::OutputItemDone { item } => match item {
            OutputItem::FunctionCall { id, call_id, name, arguments } => {
                let ghost before = result.calls@;
                result.calls.push(FunctionCall { id, call_id, name, arguments });
                assert(call_views(result.calls@) =~= call_views(before).push(result.calls@.last()@));
            },
            OutputItem::Other => {},
        },
        Frame::Error { message } => {
            let m = match message {
                Some(m) => m,
                None => String::from_str("mid-stream provider error"),
            };
            let ghost before = result.mid_stream_errors@;
            result.mid_stream_errors.push(m);
            assert(string_views(result.mid_stream_errors@) =~= string_views(before).push(
                result.mid_stream_errors@.last()@,
            ));
        },
        Frame::Created => {},
        Frame::InProgress => {},
        Frame::Other => {},
    }
    assert(event_views(out@) =~= frame_events(f));
    out
}

/// How many events the sink's answers accept: the answers up to the first
/// refusal (all of them when none refuses), at most `n`.
pub open spec fn accepted_count(answers: Seq<bool>, n: int) -> int
    decreases answers.len(),
{
    if answers.len() == 0 || n <= 0 {
        0
    } else if !answers[0] {
        0
    } else {
        1 + accepted_count(answers.drop_first(), n - 1)
    }
}

/// The sink's answers to `n` events offered in order until the first
/// refusal: every answer but the last accepts, and the run stops short of
/// `n` only at a refusal.
pub open spec fn answer_run(answers: Seq<bool>, n: int) -> bool {
    &&& answers.len() <= n
    &&& forall|j: int| 0 <= j < answers.len() - 1 ==> #[trigger] answers[j]
    &&& answers.len() < n ==> answers.len() > 0 && !answers.last()
}

/// Fold the events a sink accepted: given the sink's answers to the events
/// in order, each event up to the first refusal is folded into the result,
/// and the rest are dropped. `true` exactly when every event was accepted
/// (an event without an answer is not).
pub fn fold_accepted<U>(result: &mut TurnResult<U>, events: Vec<TurnEvent<U>>, answers: &[bool]) -> (r: bool)
    ensures
        ({
            let es = event_views(events@);
            let k = accepted_count(answers@, es.len() as int);
            &&& final(result)@ == fold_all(old(result)@, es.take(k))
            &&& r == (k == es.len())
        }),
{
    let ghost es = event_views(events@);
    let ghost st = result@;
    let n = events.len();
    let mut rest = events;
    let mut i: usize = 0;
    assert(es.take(0) =~= Seq::<EventView<U>>::empty());
    assert(answers@.skip(0) =~= answers@);
    while i < n && i < answers.len() && answers[i]
        invariant
            rest@.len() + i == es.len(),
            es.len() == n,
            i <= n,
            i <= answers@.len(),
            event_views(rest@) == es.skip(i as int),
            result@ == fold_all(st, es.take(i as int)),
            accepted_count(answers@, es.len() as int) == i + accepted_count(answers@.skip(i as int), es.len() - i),
        decreases n - i,
    {
        let ghost before = rest@;
        assert(event_views(before)[0] == es[i as int]);
        let e = rest.remove(0);
        assert(e@ == es[i as int]);
        assert forall|j: int| 0 <= j < rest@.len() implies #[trigger] event_views(rest@)[j] == es.skip(i + 1)[j] by {
            assert(rest@[j] == before[j + 1]);
            assert(event_views(before)[j + 1] == es.skip(i as int)[j + 1]);
        }
        assert(event_views(rest@) =~= es.skip(i + 1));
        fold_owned(e, result);
        assert(es.take(i + 1).drop_last() =~= es.take(i as int));
        assert(answers@.skip(i as int).drop_first() =~= answers@.skip(i + 1));
        i = i + 1;
    }
    proof {
        let a = answers@.skip(i as int);
        if i < n && i < answers@.len() {
            assert(a[0] == answers@[i as int]);
        } else if i < n {
            assert(a.len() == 0);
        }
        assert(accepted_count(a, es.len() - i) == 0);
    }
    i == n
}

/// Consume one decoded frame: record what it records (`split_frame`),
/// then hand its events to the sink in order, each a copy, until the sink
/// refuses one; the events the sink accepted are folded in
/// (`fold_accepted`), later ones dropped. `false` when the sink refused
/// one (the stream is to be killed; the partial result stands). What the
/// sink answers is the sink's own: the result is stated for every run of
/// answers, ending at the first refusal.
pub fn apply_frame<U: Clone, S: TurnSink<U>>(sink: &mut S, result: &mut TurnResult<U>, frame: Frame<U>) -> (r: bool)
    ensures
        exists|answers: Seq<bool>|
            #![trigger answer_run(answers, frame_events(frame).len() as int)]
            {
                let st = frame_effect(old(result)@, frame);
                let es = frame_events(frame);
                let k = accepted_count(answers, es.len() as int);
                &&& answer_run(answers, es.len() as int)
                &&& final(result)@ == fold_all(st, es.take(k))
                &&& r == (k == es.len())
            },
{
    let ghost f = frame;
    let events = split_frame(frame, result);
    let ghost es = event_views(events@);
    let mut answers: Vec<bool> = Vec::new();
    let mut i: usize = 0;
    let mut going = true;
    while going && i < events.len()
        invariant
            i <= events@.len(),
            es == event_views(events@),
            answers@.len() == i || (answers@.len() == i + 1 && !going),
            forall|j: int| 0 <= j < i ==> #[trigger] answers@[j],
            !going ==> answers@.len() == i + 1 && !answers@[i as int] && i < events@.len(),
            going ==> answers@.len() == i,
        decreases events@.len() - i + (if going { 1int } else { 0int }),
    {
        let copy = copy_event(&events[i]);
        let a = sink.event(copy);
        answers.push(a);
        if a {
            i = i + 1;
        } else {
            going = false;
        }
    }
    let ghost ans = answers@;
    proof {
        lemma_accepted_count_bound(ans, es.len() as int);
        if going {
            lemma_accepted_all(ans, es.len() as int);
        } else {
            lemma_accepted_stop(ans, i as int, es.len() as int);
        }
        assert(answer_run(ans, es.len() as int));
    }
    fold_accepted(result, events, &answers)
}

proof fn lemma_accepted_count_bound(answers: Seq<bool>, n: int)
    ensures
        0 <= accepted_count(answers, n),
        n >= 0 ==> accepted_count(answers, n) <= n,
        accepted_count(answers, n) <= answers.len(),
    decreases answers.len(),
{
    if answers.len() > 0 && n > 0 && answers[0] {
        lemma_accepted_count_bound(answers.drop_first(), n - 1);
    }
}

proof fn lemma_accepted_all(answers: Seq<bool>, n: int)
    requires
        answers.len() == n,
        forall|j: int| 0 <= j < n ==> #[trigger] answers[j],
    ensures
        accepted_count(answers, n) == n,
    decreases answers.len(),
{
    if n > 0 {
        assert forall|j: int| 0 <= j < n - 1 implies #[trigger] answers.drop_first()[j] by {
            assert(answers.drop_first()[j] == answers[j + 1]);
        }
        lemma_accepted_all(answers.drop_first(), n - 1);
    }
}

proof fn lemma_accepted_stop(answers: Seq<bool>, i: int, n: int)
    requires
        0 <= i < n,
        answers.len() == i + 1,
        forall|j: int| 0 <= j < i ==> #[trigger] answers[j],
        !answers[i],
    ensures
        accepted_count(answers, n) == i,
    decreases i,
{
    if i > 0 {
        assert forall|j: int| 0 <= j < i - 1 implies #[trigger] answers.drop_first()[j] by {
            assert(answers.drop_first()[j] == answers[j + 1]);
        }
        lemma_accepted_stop(answers.drop_first(), i - 1, n - 1);
    }
}

/// What a delta carries: its text, or nothing when the frame had none.
pub open spec fn delta_chars(delta: Option<String>) -> Seq<char> {
    match delta {
        Some(d) => d@,
        None => Seq::empty(),
    }
}

/// A reasoning delta, in the native dialect or in the other servers' one,
/// is reasoning: every event it hands the sink is a reasoning event, and
/// once they are folded in, the result's reasoning has grown by the delta
/// while its text and everything else are as they were. Only an
/// output-text delta adds to the text; it hands the sink text events and
/// leaves the reasoning alone.
pub proof fn lemma_reasoning_delta_is_not_text<U>(st: TurnState<U>, delta: Option<String>, native: bool)
    ensures
        ({
            let f = if native {
                Frame::<U>::ReasoningDelta { delta }
            } else {
                Frame::<U>::ReasoningTextDelta { delta }
            };
            let es = frame_events(f);
            &&& forall|i: int| 0 <= i < es.len() ==> (#[trigger] es[i]) is Reasoning
            &&& fold_all(frame_effect(st, f), es) == (TurnState {
                reasoning: st.reasoning + delta_chars(delta),
                ..st
            })
        }),
        ({
            let f = Frame::<U>::OutputTextDelta { delta, reasoning_text: None, reasoning_details: None };
            let es = frame_events(f);
            &&& forall|i: int| 0 <= i < es.len() ==> (#[trigger] es[i]) is Text
            &&& fold_all(frame_effect(st, f), es) == (TurnState { text: st.text + delta_chars(delta), ..st })
        }),
{
    let r = frame_events(if native {
        Frame::<U>::ReasoningDelta { delta }
    } else {
        Frame::<U>::ReasoningTextDelta { delta }
    });
    let t = frame_events(Frame::<U>::OutputTextDelta { delta, reasoning_text: None, reasoning_details: None });
    assert(t =~= text_events::<U>(delta));
    reveal_with_fuel(fold_all, 2);
    match delta {
        Some(d) => {
            assert(r.drop_last() =~= Seq::<EventView<U>>::empty());
            assert(t.drop_last() =~= Seq::<EventView<U>>::empty());
        },
        None => {
            assert(st.reasoning + delta_chars(delta) =~= st.reasoning);
            assert(st.text + delta_chars(delta) =~= st.text);
        },
    }
}

/// The answer text a frame carries: an output-text delta's text, else none.
pub open spec fn answer_text_of<U>(f: Frame<U>) -> Seq<char> {
    match f {
        Frame::OutputTextDelta { delta, .. } => delta_chars(delta),
        _ => Seq::empty(),
    }
}

proof fn lemma_fold_all_concat<U>(st: TurnState<U>, a: Seq<EventView<U>>, b: Seq<EventView<U>>)
    ensures
        fold_all(st, a + b) == fold_all(fold_all(st, a), b),
    decreases b.len(),
{
    if b.len() == 0 {
        assert(a + b =~= a);
    } else {
        assert((a + b).drop_last() =~= a + b.drop_last());
        assert((a + b).last() == b.last());
        lemma_fold_all_concat(st, a, b.drop_last());
    }
}

proof fn lemma_block_events_reasoning<U>(bs: Seq<ReasoningBlock>)
    ensures
        forall|i: int| 0 <= i < block_events::<U>(bs).len() ==> (#[trigger] block_events::<U>(bs)[i]) is Reasoning,
    decreases bs.len(),
{
    if bs.len() > 0 {
        lemma_block_events_reasoning::<U>(bs.drop_last());
        let prev = block_events::<U>(bs.drop_last());
        let r = reasoning_events::<U>(bs.last().text);
        assert forall|i: int| 0 <= i < block_events::<U>(bs).len() implies (#[trigger] block_events::<U>(
            bs,
        )[i]) is Reasoning by {
            if i < prev.len() {
                assert(block_events::<U>(bs)[i] == prev[i]);
            } else {
                assert(block_events::<U>(bs)[i] == r[i - prev.len()]);
            }
        }
    }
}

proof fn lemma_reasoning_keeps_text<U>(st: TurnState<U>, es: Seq<EventView<U>>)
    requires
        forall|i: int| 0 <= i < es.len() ==> (#[trigger] es[i]) is Reasoning,
    ensures
        fold_all(st, es).text == st.text,
    decreases es.len(),
{
    if es.len() > 0 {
        assert(es.last() is Reasoning);
        assert forall|i: int| 0 <= i < es.drop_last().len() implies (#[trigger] es.drop_last()[i]) is Reasoning by {
            assert(es.drop_last()[i] == es[i]);
        }
        lemma_reasoning_keeps_text(st, es.drop_last());
    }
}

/// Only an output-text delta adds to the answer text: whatever frame
/// arrives, once its events are folded in, the result's text is the text
/// before followed by the frame's output-text delta, and by nothing else
/// (reasoning of any dialect, usage, completion, calls and errors leave
/// the text as it was).
pub proof fn lemma_only_text_deltas_add_text<U>(st: TurnState<U>, f: Frame<U>)
    ensures
        fold_all(frame_effect(st, f), frame_events(f)).text == st.text + answer_text_of(f),
{
    let s0 = frame_effect(st, f);
    assert(s0.text == st.text);
    reveal_with_fuel(fold_all, 2);
    match f {
        Frame::OutputTextDelta { delta, reasoning_text, reasoning_details } => {
            let t = text_events::<U>(delta);
            let r = reasoning_events::<U>(reasoning_text);
            let b = match reasoning_details {
                Some(bs) => block_events::<U>(bs@),
                None => Seq::empty(),
            };
            assert(frame_events(f) == t + r + b);
            lemma_fold_all_concat(s0, t + r, b);
            lemma_fold_all_concat(s0, t, r);
            let s1 = fold_all(s0, t);
            match delta {
                Some(d) => {
                    assert(t.drop_last() =~= Seq::<EventView<U>>::empty());
                },
                None => {
                    assert(st.text + answer_text_of(f) =~= st.text);
                },
            }
            assert(s1.text == st.text + answer_text_of(f));
            lemma_reasoning_keeps_text(s1, r);
            match reasoning_details {
                Some(bs) => lemma_block_events_reasoning::<U>(bs@),
                None => {},
            }
            lemma_reasoning_keeps_text(fold_all(s1, r), b);
        },
        Frame::ReasoningDelta { delta } => {
            lemma_reasoning_delta_is_not_text(st, delta, true);
            assert(st.text + answer_text_of(f) =~= st.text);
        },
        Frame::ReasoningTextDelta { delta } => {
            lemma_reasoning_delta_is_not_text(st, delta, false);
            assert(st.text + answer_text_of(f) =~= st.text);
        },
        Frame::Completed { usage } => {
            assert(st.text + answer_text_of(f) =~= st.text);
            match usage {
                Some(u) => {
                    assert(frame_events(f).drop_last() =~= Seq::<EventView<U>>::empty());
                },
                None => {},
            }
        },
        _ => {
            assert(st.text + answer_text_of(f) =~= st.text);
        },
    }
}

/// A mid-stream error frame is recorded, never fatal: it hands the sink no
/// event (so the stream goes on), and the result gains the error's message
/// (or the stock one when the frame has none) after the earlier errors,
/// with everything else as it was.
pub proof fn lemma_error_frame_recorded_not_fatal<U>(st: TurnState<U>, message: Option<String>)
    ensures
        frame_events(Frame::<U>::Error { message }).len() == 0,
        fold_all(frame_effect(st, Frame::<U>::Error { message }), frame_events(Frame::<U>::Error { message }))
            == (TurnState {
            errors: st.errors.push(
                match message {
                    Some(m) => m@,
                    None => "mid-stream provider error"@,
                },
            ),
            ..st
        }),
{
}

/// The events of the frames, in order.
pub open spec fn all_events<U>(fs: Seq<Frame<U>>) -> Seq<EventView<U>>
    decreases fs.len(),
{
    if fs.len() == 0 {
        Seq::empty()
    } else {
        all_events(fs.drop_last()) + frame_events(fs.last())
    }
}

/// The function calls of the frames, each with the number of events
/// before it.
pub open spec fn all_calls<U>(fs: Seq<Frame<U>>) -> Seq<(int, CallView)>
    decreases fs.len(),
{
    if fs.len() == 0 {
        Seq::empty()
    } else {
        let prev = all_calls(fs.drop_last());
        match fs.last() {
            Frame::OutputItemDone { item: OutputItem::FunctionCall { id, call_id, name, arguments } } => prev.push(
                (all_events(fs).len() as int, CallView { id: id@, call_id: call_id@, name: name@, arguments: arguments@ }),
            ),
            _ => prev,
        }
    }
}

pub open spec fn placed_calls(cs: Seq<(usize, FunctionCall)>) -> Seq<(int, CallView)> {
    cs.map_values(|c: (usize, FunctionCall)| (c.0 as int, c.1@))
}

/// Decode a stream's frames into the event sequence a sink that accepts
/// everything would see, and each function call with the event position
/// it completed at.
pub fn decode_frames<U>(frames: Vec<Frame<U>>) -> (r: (Vec<TurnEvent<U>>, Vec<(usize, FunctionCall)>))
    ensures
        event_views(r.0@) == all_events(frames@),
        placed_calls(r.1@) == all_calls(frames@),
{
    let ghost fs = frames@;
    let n = frames.len();
    let mut result: TurnResult<U> = TurnResult::default();
    let mut events: Vec<TurnEvent<U>> = Vec::new();
    let mut calls: Vec<(usize, FunctionCall)> = Vec::new();
    let mut rest = frames;
    let mut i: usize = 0;
    while rest.len() > 0
        invariant
            rest@.len() + i == fs.len(),
            fs.len() == n,
            rest@ == fs.skip(i as int),
            event_views(events@) == all_events(fs.take(i as int)),
            placed_calls(calls@) == all_calls(fs.take(i as int)),
        decreases rest@.len(),
    {
        assert(rest@[0] == fs[i as int]);
        let f = rest.remove(0);
        let ghost fg = f;
        assert(rest@ =~= fs.skip(i + 1));
        assert(fs.take(i + 1).drop_last() =~= fs.take(i as int));
        assert(fs.take(i + 1).last() == fg);
        let seen = result.calls.len();
        let ghost before = events@;
        let ghost rbefore = result@;
        let mut evs = split_frame(f, &mut result);
        events.append(&mut evs);
        assert(event_views(events@) =~= event_views(before) + frame_events(fg));
        assert(all_events(fs.take(i + 1)) == all_events(fs.take(i as int)) + frame_events(fg));
        assert(rbefore.calls.len() == seen);
        let ghost is_call = fg matches Frame::OutputItemDone { item: OutputItem::FunctionCall { .. } };
        assert(is_call ==> result@.calls.len() == seen + 1);
        assert(!is_call ==> result@.calls.len() == seen);
        assert(events@.len() == all_events(fs.take(i + 1)).len());
        if result.calls.len() > seen {
            let last = copy_call(&result.calls[result.calls.len() - 1]);
            let ghost cbefore = calls@;
            calls.push((events.len(), last));
            assert(placed_calls(calls@) =~= placed_calls(cbefore).push((events@.len() as int, last@)));
            proof {
                match fg {
                    Frame::OutputItemDone { item: OutputItem::FunctionCall { id, call_id, name, arguments } } => {
                        assert(result@ == frame_effect(rbefore, fg));
                        assert(result@.calls == rbefore.calls.push(CallView { id: id@, call_id: call_id@, name: name@, arguments: arguments@ }));
                        assert(call_views(result.calls@)[result.calls@.len() - 1] == result.calls@[result.calls@.len() - 1]@);
                        assert(last@ == CallView { id: id@, call_id: call_id@, name: name@, arguments: arguments@ });
                    },
                    _ => {},
                }
            }
        }
        i = i + 1;
    }
    assert(fs.take(i as int) =~= fs);
    (events, calls)
}

/// The payloads before the first `[DONE]`.
pub open spec fn before_done(ps: Seq<Seq<char>>) -> Seq<Seq<char>>
    decreases ps.len(),
{
    if ps.len() == 0 || ps[0] == crate::provider::done_marker() {
        Seq::empty()
    } else {
        seq![ps[0]] + before_done(ps.drop_first())
    }
}

proof fn lemma_before_done_step(ps: Seq<Seq<char>>, i: int)
    requires
        0 <= i < ps.len(),
        forall|j: int| 0 <= j < i ==> ps[j] != crate::provider::done_marker(),
        ps[i] != crate::provider::done_marker(),
    ensures
        before_done(ps) == ps.take(i + 1) + before_done(ps.skip(i + 1)),
    decreases i,
{
    if i > 0 {
        lemma_before_done_step(ps.drop_first(), i - 1);
        assert(ps.drop_first().take(i) =~= ps.take(i + 1).drop_first());
        assert(ps.drop_first().skip(i) =~= ps.skip(i + 1));
        assert(ps.take(i + 1) =~= seq![ps[0]] + ps.take(i + 1).drop_first());
    } else {
        assert(ps.take(1) =~= seq![ps[0]]);
        assert(ps.skip(1) =~= ps.drop_first());
    }
}

/// The payloads of a whole stream body up to its `[DONE]` marker, or the
/// error of a line that is not UTF-8.
pub fn stream_payloads(body: &[u8]) -> (r: Result<Vec<String>, crate::provider::ProviderError>)
    ensures
        ({
            let fresh = crate::provider::SseState { buf: Seq::empty(), data: Seq::empty(), terminated: false };
            match (r, crate::provider::feed_spec(fresh, body@).1) {
                (Ok(v), Some(o)) => crate::provider::string_views(v@) == before_done(o),
                (Err(crate::provider::ProviderError::MalformedStream(_)), None) => true,
                _ => false,
            }
        }),
{
    let mut parser = crate::provider::SseParser::new();
    let payloads = match parser.feed(body) {
        Ok(p) => p,
        Err(e) => {
            return Err(e);
        },
    };
    let ghost ps = crate::provider::string_views(payloads@);
    let ghost fresh = crate::provider::SseState { buf: Seq::empty(), data: Seq::empty(), terminated: false };
    assert(crate::provider::feed_spec(fresh, body@).1 == Some(ps));
    let done = String::from_str("[DONE]");
    let mut out: Vec<String> = Vec::new();
    let mut i: usize = 0;
    while i < payloads.len()
        invariant
            i <= payloads@.len(),
            ps == crate::provider::string_views(payloads@),
            crate::provider::feed_spec(fresh, body@).1 == Some(ps),
            fresh == (crate::provider::SseState { buf: Seq::empty(), data: Seq::empty(), terminated: false }),
            done@ == crate::provider::done_marker(),
            forall|j: int| 0 <= j < i ==> ps[j] != crate::provider::done_marker(),
            crate::provider::string_views(out@) == ps.take(i as int),
        decreases payloads@.len() - i,
    {
        assert(ps[i as int] == payloads@[i as int]@);
        if crate::text::chars_eq(&crate::text::chars_of(payloads[i].as_str()), &crate::text::chars_of(done.as_str())) {
            proof {
                assert(ps.skip(i as int)[0] == crate::provider::done_marker());
                if i > 0 {
                    lemma_before_done_step(ps, i - 1);
                    assert(ps.take(i as int) =~= ps.take(i - 1 + 1));
                }
                assert(before_done(ps.skip(i as int)) == Seq::<Seq<char>>::empty());
            }
            assert(crate::provider::string_views(out@) == before_done(ps));
            return Ok(out);
        }
        let ghost before = out@;
        out.push(payloads[i].clone());
        assert(crate::provider::string_views(out@) =~= crate::provider::string_views(before).push(ps[i as int]));
        assert(ps.take(i + 1) =~= ps.take(i as int).push(ps[i as int]));
        i = i + 1;
    }
    proof {
        if payloads@.len() > 0 {
            lemma_before_done_step(ps, payloads@.len() - 1);
            assert(ps.skip(payloads@.len() as int) =~= Seq::<Seq<char>>::empty());
        }
        assert(ps.take(payloads@.len() as int) =~= ps);
    }
    Ok(out)
}

} // verus!
