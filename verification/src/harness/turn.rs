//! The post-turn reconciliation: from the entries a turn appended, the
//! queued sends it delivered, the model calls it made and which of them
//! completed, the notices the session's observers get (stream ends, tool
//! runs, compactions), the usage that stays on the session, and whether
//! the task list changed. The session file is the record; this derives
//! what it implies.

use crate::text::{append_str, chars_of, string_of};
use vstd::prelude::*;

verus! {

/// The token usage a model call reported.
#[derive(Debug, Clone, Copy, PartialEq, Eq)]
pub struct TurnUsage {
    pub input_tokens: u64,
    pub output_tokens: u64,
    pub total_tokens: u64,
    pub cached_prompt_tokens: u64,
}

/// What a turn's entry is, for the reconciliation.
#[derive(Debug, Clone, Copy, PartialEq, Eq)]
pub enum TurnKind {
    User,
    Assistant,
    Tool,
    Task,
    Other,
}

/// An entry a turn appended, as the reconciliation reads it: a user
/// entry's text; an assistant entry's interrupted flag and usage; a tool
/// entry's call id, tool name and output; and for any entry, the first
/// entry a compaction kept.
#[derive(Debug)]
pub struct TurnEntry<O> {
    pub id: String,
    pub kind: TurnKind,
    pub text: Option<String>,
    pub interrupted: bool,
    pub usage: Option<TurnUsage>,
    pub tool_call_id: String,
    pub name: String,
    pub output: Option<O>,
    pub first_kept: Option<String>,
}

pub struct TurnEntryView<O> {
    pub id: Seq<char>,
    pub kind: TurnKind,
    pub text: Option<Seq<char>>,
    pub interrupted: bool,
    pub usage: Option<TurnUsage>,
    pub tool_call_id: Seq<char>,
    pub name: Seq<char>,
    pub output: Option<O>,
    pub first_kept: Option<Seq<char>>,
}

pub open spec fn opt_view(o: Option<String>) -> Option<Seq<char>> {
    match o {
        Some(s) => Some(s@),
        None => None,
    }
}

impl<O> View for TurnEntry<O> {
    type V = TurnEntryView<O>;

    open spec fn view(&self) -> TurnEntryView<O> {
        TurnEntryView {
            id: self.id@,
            kind: self.kind,
            text: opt_view(self.text),
            interrupted: self.interrupted,
            usage: self.usage,
            tool_call_id: self.tool_call_id@,
            name: self.name@,
            output: self.output,
            first_kept: opt_view(self.first_kept),
        }
    }
}

/// A notice the reconciliation derives.
#[derive(Debug)]
pub enum TurnNotice<O> {
    /// A model call ended without its completion frame: the partial
    /// stands, interrupted or not, with the usage it reported.
    StreamEnd { call_id: String, interrupted: bool, usage: Option<TurnUsage> },
    /// A tool ran within the model call.
    ToolStart { call_id: String, tool_call_id: String, name: String },
    /// A tool's result (`None` when the entry carried no output).
    ToolEnd { call_id: String, tool_call_id: String, name: String, output: Option<O> },
    /// A compaction entry, and the first entry it kept.
    Compaction { entry: String, first_kept: String },
}

pub enum NoticeView<O> {
    StreamEnd(Seq<char>, bool, Option<TurnUsage>),
    ToolStart(Seq<char>, Seq<char>, Seq<char>),
    ToolEnd(Seq<char>, Seq<char>, Seq<char>, Option<O>),
    Compaction(Seq<char>, Seq<char>),
}

impl<O> View for TurnNotice<O> {
    type V = NoticeView<O>;

    open spec fn view(&self) -> NoticeView<O> {
        match self {
            TurnNotice::StreamEnd { call_id, interrupted, usage } => NoticeView::StreamEnd(call_id@, *interrupted, *usage),
            TurnNotice::ToolStart { call_id, tool_call_id, name } => NoticeView::ToolStart(
                call_id@,
                tool_call_id@,
                name@,
            ),
            TurnNotice::ToolEnd { call_id, tool_call_id, name, output } => NoticeView::ToolEnd(
                call_id@,
                tool_call_id@,
                name@,
                *output,
            ),
            TurnNotice::Compaction { entry, first_kept } => NoticeView::Compaction(entry@, first_kept@),
        }
    }
}

/// What a turn implies: the positions of the queued sends that stay
/// queued (in order), the notices, the session's usage after the turn,
/// and whether a task entry was appended.
#[derive(Debug)]
pub struct Reconciled<O> {
    pub kept: Vec<usize>,
    pub notices: Vec<TurnNotice<O>>,
    pub usage: Option<TurnUsage>,
    pub task_touched: bool,
}

/// The reconciliation's state after some entries.
pub struct ReconState<O> {
    pub kept: Seq<int>,
    pub notices: Seq<NoticeView<O>>,
    pub usage: Option<TurnUsage>,
    pub task: bool,
    pub assistants: int,
}

/// The first position in `kept`, from `i` on, of a queued send with the
/// text `t`.
pub open spec fn first_queued(kept: Seq<int>, queue: Seq<Seq<char>>, t: Seq<char>, i: int) -> Option<int>
    decreases kept.len() - i,
{
    if i < 0 || i >= kept.len() {
        None
    } else if 0 <= kept[i] < queue.len() && queue[kept[i]] == t {
        Some(i)
    } else {
        first_queued(kept, queue, t, i + 1)
    }
}

/// The model call at `i`, if the turn made one.
pub open spec fn call_at(calls: Seq<Seq<char>>, i: int) -> Option<Seq<char>> {
    if 0 <= i < calls.len() {
        Some(calls[i])
    } else {
        None
    }
}

/// One entry folded in: a user entry takes its send off the queue (the
/// first queued send with its text); the `n`-th assistant entry belongs
/// to the `n`-th call, whose end is noticed when the call did not
/// complete, and its usage becomes the session's; a tool entry belongs to
/// the latest assistant entry's call (the first call before any) and is
/// noticed as a start and an end; a task entry marks the task list
/// changed. A compaction is noticed after the entry's own notices.
pub open spec fn recon_step<O>(
    st: ReconState<O>,
    e: TurnEntryView<O>,
    queue: Seq<Seq<char>>,
    calls: Seq<Seq<char>>,
    completed: Seq<bool>,
) -> ReconState<O> {
    let st1 = match e.kind {
        TurnKind::User => match e.text {
            Some(t) => match first_queued(st.kept, queue, t, 0) {
                Some(p) => ReconState { kept: st.kept.remove(p), ..st },
                None => st,
            },
            None => st,
        },
        TurnKind::Assistant => {
            let a = st.assistants;
            let done = 0 <= a < completed.len() && completed[a];
            let notices = match call_at(calls, a) {
                Some(c) => if !done {
                    st.notices.push(NoticeView::StreamEnd(c, e.interrupted, e.usage))
                } else {
                    st.notices
                },
                None => st.notices,
            };
            let usage = if e.usage is Some {
                e.usage
            } else {
                st.usage
            };
            ReconState { notices, usage, assistants: a + 1, ..st }
        },
        TurnKind::Tool => {
            let idx = if st.assistants == 0 {
                0
            } else {
                st.assistants - 1
            };
            let c = match call_at(calls, idx) {
                Some(c) => c,
                None => Seq::empty(),
            };
            ReconState {
                notices: st.notices.push(NoticeView::ToolStart(c, e.tool_call_id, e.name)).push(
                    NoticeView::ToolEnd(c, e.tool_call_id, e.name, e.output),
                ),
                ..st
            }
        },
        TurnKind::Task => ReconState { task: true, ..st },
        TurnKind::Other => st,
    };
    match e.first_kept {
        Some(f) => ReconState { notices: st1.notices.push(NoticeView::Compaction(e.id, f)), ..st1 },
        None => st1,
    }
}

/// The entries folded in, in order.
pub open spec fn recon_fold<O>(
    st: ReconState<O>,
    es: Seq<TurnEntryView<O>>,
    queue: Seq<Seq<char>>,
    calls: Seq<Seq<char>>,
    completed: Seq<bool>,
) -> ReconState<O>
    decreases es.len(),
{
    if es.len() == 0 {
        st
    } else {
        recon_step(recon_fold(st, es.drop_last(), queue, calls, completed), es.last(), queue, calls, completed)
    }
}

/// The interrupted ends of the calls from `from` on that produced no
/// entry.
pub open spec fn trailing_ends<O>(calls: Seq<Seq<char>>, from: int) -> Seq<NoticeView<O>>
    decreases calls.len() - from,
{
    if from < 0 || from >= calls.len() {
        Seq::empty()
    } else {
        seq![NoticeView::StreamEnd(calls[from], true, None)] + trailing_ends(calls, from + 1)
    }
}

pub open spec fn initial<O>(n: nat) -> ReconState<O> {
    ReconState {
        kept: Seq::new(n, |i: int| i),
        notices: Seq::empty(),
        usage: None,
        task: false,
        assistants: 0,
    }
}

pub open spec fn str_views(v: Seq<String>) -> Seq<Seq<char>> {
    v.map_values(|s: String| s@)
}

pub open spec fn entry_views<O>(v: Seq<TurnEntry<O>>) -> Seq<TurnEntryView<O>> {
    v.map_values(|e: TurnEntry<O>| e@)
}

pub open spec fn notice_views<O>(v: Seq<TurnNotice<O>>) -> Seq<NoticeView<O>> {
    v.map_values(|n: TurnNotice<O>| n@)
}

/// The reconciliation of a turn: the entries it appended, in order; the
/// texts of the sends queued when it ran; the calls it made, in order,
/// and which of them completed (a call past the end of `completed` did
/// not). The calls that produced no assistant entry end interrupted,
/// after the entries' notices. The session keeps the usage it had when no
/// entry reported one.
pub fn reconcile_turn<O>(
    entries: Vec<TurnEntry<O>>,
    queue: &[String],
    calls: &[String],
    completed: &[bool],
    usage: Option<TurnUsage>,
) -> (r: Reconciled<O>)
    ensures
        ({
            let st = recon_fold(
                ReconState { usage, ..initial::<O>(queue@.len()) },
                entry_views(entries@),
                str_views(queue@),
                str_views(calls@),
                completed@,
            );
            &&& r.kept@.map_values(|i: usize| i as int) == st.kept
            &&& notice_views(r.notices@) == st.notices + trailing_ends::<O>(str_views(calls@), st.assistants)
            &&& r.usage == st.usage
            &&& r.task_touched == st.task
        }),
{
    let ghost es = entry_views(entries@);
    let ghost qv = str_views(queue@);
    let ghost cv = str_views(calls@);
    let ghost st0 = ReconState { usage, ..initial::<O>(queue@.len()) };
    let mut kept: Vec<usize> = Vec::new();
    let mut q: usize = 0;
    while q < queue.len()
        invariant
            q <= queue@.len(),
            kept@.len() == q,
            forall|j: int| 0 <= j < q ==> #[trigger] kept@[j] == j,
        decreases queue@.len() - q,
    {
        kept.push(q);
        q = q + 1;
    }
    assert(kept@.map_values(|i: usize| i as int) =~= st0.kept);
    let mut notices: Vec<TurnNotice<O>> = Vec::new();
    let mut cur_usage = usage;
    let mut task = false;
    let mut assistants: usize = 0;
    let total = entries.len();
    let mut rest = entries;
    let mut n: usize = 0;
    assert(es.take(0) =~= Seq::<TurnEntryView<O>>::empty());
    assert(notice_views(notices@) =~= Seq::<NoticeView<O>>::empty());
    while rest.len() > 0
        invariant
            n + rest@.len() == total,
            es.len() == total,
            entry_views(rest@) == es.skip(n as int),
            qv == str_views(queue@),
            cv == str_views(calls@),
            assistants <= n,
            ({
                let st = recon_fold(st0, es.take(n as int), qv, cv, completed@);
                &&& kept@.map_values(|i: usize| i as int) == st.kept
                &&& notice_views(notices@) == st.notices
                &&& cur_usage == st.usage
                &&& task == st.task
                &&& assistants == st.assistants
            }),
            forall|j: int| 0 <= j < kept@.len() ==> #[trigger] kept@[j] < queue@.len(),
        decreases rest@.len(),
    {
        let ghost prev = recon_fold(st0, es.take(n as int), qv, cv, completed@);
        let ghost old_rest = rest@;
        let e = rest.remove(0);
        assert(entry_views(old_rest)[0] == old_rest[0]@);
        assert(e@ == es[n as int]);
        assert forall|j: int| 0 <= j < rest@.len() implies #[trigger] entry_views(rest@)[j] == es.skip(n + 1)[j] by {
            assert(rest@[j] == old_rest[j + 1]);
            assert(entry_views(old_rest)[j + 1] == old_rest[j + 1]@);
            assert(es.skip(n as int)[j + 1] == es.skip(n + 1)[j]);
        }
        assert(entry_views(rest@) =~= es.skip(n + 1));
        assert(es.take(n + 1).drop_last() =~= es.take(n as int));
        assert(es.take(n + 1).last() == es[n as int]);
        let ghost stepped = recon_step(prev, es[n as int], qv, cv, completed@);
        let TurnEntry { id, kind, text, interrupted, usage: e_usage, tool_call_id, name, output, first_kept } = e;
        match kind {
            TurnKind::User => {
                match text {
                    Some(t) => {
                        let tv = crate::text::chars_of(t.as_str());
                        let mut p: usize = 0;
                        let mut found = false;
                        while p < kept.len() && !found
                            invariant
                                p <= kept@.len(),
                                qv == str_views(queue@),
                                forall|j: int| 0 <= j < kept@.len() ==> #[trigger] kept@[j] < queue@.len(),
                                !found ==> first_queued(kept@.map_values(|i: usize| i as int), qv, tv@, 0)
                                    == first_queued(kept@.map_values(|i: usize| i as int), qv, tv@, p as int),
                                found ==> first_queued(kept@.map_values(|i: usize| i as int), qv, tv@, 0) == Some(
                                    p as int,
                                ),
                                found ==> p < kept@.len(),
                            decreases kept@.len() - p + (if found { 0int } else { 1int }),
                        {
                            let at = kept[p];
                            assert(kept@.map_values(|i: usize| i as int)[p as int] == at as int);
                            if crate::text::chars_eq(&crate::text::chars_of(queue[at].as_str()), &tv) {
                                found = true;
                            } else {
                                p = p + 1;
                            }
                        }
                        if found {
                            let ghost kv = kept@.map_values(|i: usize| i as int);
                            kept.remove(p);
                            assert(kept@.map_values(|i: usize| i as int) =~= kv.remove(p as int));
                        }
                    },
                    None => {},
                }
            },
            TurnKind::Assistant => {
                let done = assistants < completed.len() && completed[assistants];
                if assistants < calls.len() && !done {
                    let c = calls[assistants].clone();
                    notices.push(TurnNotice::StreamEnd { call_id: c, interrupted, usage: e_usage });
                }
                if e_usage.is_some() {
                    cur_usage = e_usage;
                }
                assistants = assistants + 1;
            },
            TurnKind::Tool => {
                let idx = if assistants == 0 {
                    0
                } else {
                    assistants - 1
                };
                let c = if idx < calls.len() {
                    calls[idx].clone()
                } else {
                    String::new()
                };
                notices.push(
                    TurnNotice::ToolStart { call_id: c.clone(), tool_call_id: tool_call_id.clone(), name: name.clone() },
                );
                notices.push(TurnNotice::ToolEnd { call_id: c, tool_call_id, name, output });
            },
            TurnKind::Task => {
                task = true;
            },
            TurnKind::Other => {},
        }
        match first_kept {
            Some(f) => {
                notices.push(TurnNotice::Compaction { entry: id, first_kept: f });
            },
            None => {},
        }
        assert(notice_views(notices@) =~= stepped.notices);
        assert(kept@.map_values(|i: usize| i as int) =~= stepped.kept);
        n = n + 1;
    }
    assert(es.take(n as int) =~= es);
    let ghost fin = recon_fold(st0, es, qv, cv, completed@);
    let ghost base = notice_views(notices@);
    let mut i = assistants;
    while i < calls.len()
        invariant
            assistants <= i <= calls@.len() || (i == assistants && assistants > calls@.len()),
            cv == str_views(calls@),
            notice_views(notices@) + trailing_ends::<O>(cv, i as int) == base + trailing_ends::<O>(cv, assistants as int),
        decreases calls@.len() - i,
    {
        let ghost before = notice_views(notices@);
        notices.push(TurnNotice::StreamEnd { call_id: calls[i].clone(), interrupted: true, usage: None });
        assert(notice_views(notices@) =~= before.push(NoticeView::StreamEnd(cv[i as int], true, None)));
        assert(trailing_ends::<O>(cv, i as int) == seq![NoticeView::<O>::StreamEnd(cv[i as int], true, None)]
            + trailing_ends::<O>(cv, i + 1));
        assert(before + trailing_ends::<O>(cv, i as int) =~= notice_views(notices@) + trailing_ends::<O>(cv, i + 1));
        i = i + 1;
    }
    assert(trailing_ends::<O>(cv, i as int) =~= Seq::<NoticeView<O>>::empty());
    assert(notice_views(notices@) =~= base + trailing_ends::<O>(cv, assistants as int));
    Reconciled { kept, notices, usage: cur_usage, task_touched: task }
}

/// The calls a list of notices ends, in order.
pub open spec fn end_ids<O>(ns: Seq<NoticeView<O>>) -> Seq<Seq<char>>
    decreases ns.len(),
{
    if ns.len() == 0 {
        Seq::empty()
    } else {
        let p = end_ids(ns.drop_last());
        match ns.last() {
            NoticeView::StreamEnd(c, _, _) => p.push(c),
            _ => p,
        }
    }
}

/// Of the first `n` calls, those to end: a call with no assistant entry
/// (at or past position `entries`), or one that did not complete.
pub open spec fn unfinished_calls(calls: Seq<Seq<char>>, completed: Seq<bool>, entries: int, n: int) -> Seq<Seq<char>>
    decreases n,
{
    if n <= 0 {
        Seq::empty()
    } else {
        let p = unfinished_calls(calls, completed, entries, n - 1);
        let i = n - 1;
        if i < calls.len() && (i >= entries || !(i < completed.len() && completed[i])) {
            p.push(calls[i])
        } else {
            p
        }
    }
}

proof fn lemma_end_ids_concat<O>(x: Seq<NoticeView<O>>, y: Seq<NoticeView<O>>)
    ensures
        end_ids(x + y) == end_ids(x) + end_ids(y),
    decreases y.len(),
{
    if y.len() == 0 {
        assert(x + y =~= x);
        assert(end_ids(y) =~= Seq::<Seq<char>>::empty());
        assert(end_ids(x) + end_ids(y) =~= end_ids(x));
    } else {
        lemma_end_ids_concat(x, y.drop_last());
        assert((x + y).drop_last() =~= x + y.drop_last());
        assert((x + y).last() == y.last());
        match y.last() {
            NoticeView::StreamEnd(c, _, _) => {
                assert(end_ids(x) + end_ids(y.drop_last()).push(c) =~= (end_ids(x) + end_ids(y.drop_last())).push(c));
            },
            _ => {},
        }
    }
}

proof fn lemma_trailing_end_ids<O>(calls: Seq<Seq<char>>, from: int)
    requires
        0 <= from,
    ensures
        end_ids(trailing_ends::<O>(calls, from)) == (if from < calls.len() {
            calls.subrange(from, calls.len() as int)
        } else {
            Seq::empty()
        }),
    decreases calls.len() - from,
{
    if from < calls.len() {
        lemma_trailing_end_ids::<O>(calls, from + 1);
        let head = seq![NoticeView::<O>::StreamEnd(calls[from], true, None)];
        lemma_end_ids_concat(head, trailing_ends::<O>(calls, from + 1));
        assert(head.drop_last() =~= Seq::<NoticeView<O>>::empty());
        assert(end_ids(head.drop_last()) =~= Seq::<Seq<char>>::empty());
        assert(head.last() == NoticeView::<O>::StreamEnd(calls[from], true, None));
        assert(end_ids(head) =~= seq![calls[from]]);
        if from + 1 < calls.len() {
            assert(seq![calls[from]] + calls.subrange(from + 1, calls.len() as int) =~= calls.subrange(from, calls.len() as int));
        } else {
            assert(seq![calls[from]] + Seq::<Seq<char>>::empty() =~= calls.subrange(from, calls.len() as int));
        }
    } else {
        assert(end_ids(trailing_ends::<O>(calls, from)) =~= Seq::<Seq<char>>::empty());
    }
}

proof fn lemma_fold_ends<O>(
    st0: ReconState<O>,
    es: Seq<TurnEntryView<O>>,
    queue: Seq<Seq<char>>,
    calls: Seq<Seq<char>>,
    completed: Seq<bool>,
)
    requires
        st0.assistants == 0,
        st0.notices.len() == 0,
    ensures
        ({
            let st = recon_fold(st0, es, queue, calls, completed);
            &&& st.assistants >= 0
            &&& end_ids(st.notices) == unfinished_calls(calls, completed, st.assistants, st.assistants)
        }),
    decreases es.len(),
{
    if es.len() == 0 {
        assert(end_ids(st0.notices) =~= Seq::<Seq<char>>::empty());
    } else {
        lemma_fold_ends(st0, es.drop_last(), queue, calls, completed);
        let prev = recon_fold(st0, es.drop_last(), queue, calls, completed);
        let e = es.last();
        let a = prev.assistants;
        let st1 = match e.kind {
            TurnKind::User => match e.text {
                Some(t) => match first_queued(prev.kept, queue, t, 0) {
                    Some(p) => ReconState { kept: prev.kept.remove(p), ..prev },
                    None => prev,
                },
                None => prev,
            },
            TurnKind::Assistant => {
                let done = 0 <= a < completed.len() && completed[a];
                let notices = match call_at(calls, a) {
                    Some(c) => if !done {
                        prev.notices.push(NoticeView::StreamEnd(c, e.interrupted, e.usage))
                    } else {
                        prev.notices
                    },
                    None => prev.notices,
                };
                let usage = if e.usage is Some {
                    e.usage
                } else {
                    prev.usage
                };
                ReconState { notices, usage, assistants: a + 1, ..prev }
            },
            TurnKind::Tool => {
                let idx = if a == 0 {
                    0
                } else {
                    a - 1
                };
                let c = match call_at(calls, idx) {
                    Some(c) => c,
                    None => Seq::empty(),
                };
                ReconState {
                    notices: prev.notices.push(NoticeView::ToolStart(c, e.tool_call_id, e.name)).push(
                        NoticeView::ToolEnd(c, e.tool_call_id, e.name, e.output),
                    ),
                    ..prev
                }
            },
            TurnKind::Task => ReconState { task: true, ..prev },
            TurnKind::Other => prev,
        };
        assert(end_ids(st1.notices) == unfinished_calls(calls, completed, st1.assistants, st1.assistants)) by {
            match e.kind {
                TurnKind::Assistant => {
                    assert(unfinished_calls(calls, completed, a + 1, a) == unfinished_calls(calls, completed, a, a)) by {
                        lemma_unfinished_entries(calls, completed, a, a + 1, a);
                    }
                    assert(st1.assistants == a + 1);
                    assert(unfinished_calls(calls, completed, a + 1, a + 1) == (if a < calls.len() && !(a
                        < completed.len() && completed[a]) {
                        unfinished_calls(calls, completed, a + 1, a).push(calls[a])
                    } else {
                        unfinished_calls(calls, completed, a + 1, a)
                    }));
                    if a < calls.len() && !(a < completed.len() && completed[a]) {
                        assert(st1.notices.drop_last() =~= prev.notices);
                        assert(st1.notices.last() == NoticeView::<O>::StreamEnd(calls[a], e.interrupted, e.usage));
                        assert(end_ids(st1.notices) == end_ids(prev.notices).push(calls[a]));
                    } else {
                        assert(st1.notices == prev.notices);
                    }
                },
                TurnKind::Tool => {
                    let n1 = prev.notices.push(st1.notices[prev.notices.len() as int]);
                    assert(st1.notices.drop_last() =~= n1);
                    assert(n1.drop_last() =~= prev.notices);
                    assert(st1.notices.last() matches NoticeView::ToolEnd(..));
                    assert(n1.last() matches NoticeView::ToolStart(..));
                    assert(end_ids(n1) == end_ids(prev.notices));
                    assert(end_ids(st1.notices) == end_ids(n1));
                },
                _ => {},
            }
        }
        let st = recon_step(prev, e, queue, calls, completed);
        assert(st.assistants == st1.assistants);
        match e.first_kept {
            Some(f) => {
                assert(st.notices.drop_last() =~= st1.notices);
            },
            None => {},
        }
    }
}

proof fn lemma_unfinished_entries(calls: Seq<Seq<char>>, completed: Seq<bool>, a: int, b: int, n: int)
    requires
        n <= a,
        n <= b,
    ensures
        unfinished_calls(calls, completed, a, n) == unfinished_calls(calls, completed, b, n),
    decreases n,
{
    if n > 0 {
        lemma_unfinished_entries(calls, completed, a, b, n - 1);
    }
}

proof fn lemma_unfinished_tail(calls: Seq<Seq<char>>, completed: Seq<bool>, a: int, n: int)
    requires
        0 <= a <= n,
    ensures
        unfinished_calls(calls, completed, a, n) == unfinished_calls(calls, completed, a, a) + (if a < calls.len() {
            calls.subrange(a, if n < calls.len() { n } else { calls.len() as int })
        } else {
            Seq::empty()
        }),
    decreases n,
{
    if n > a {
        lemma_unfinished_tail(calls, completed, a, n - 1);
        if n - 1 < calls.len() {
            assert(calls.subrange(a, n - 1).push(calls[n - 1]) =~= calls.subrange(a, n));
            if a == n - 1 {
                assert(calls.subrange(a, a) =~= Seq::<Seq<char>>::empty());
            }
        } else if a < calls.len() {
        }
    } else {
        if a < calls.len() {
            assert(calls.subrange(a, a) =~= Seq::<Seq<char>>::empty());
        }
        assert(unfinished_calls(calls, completed, a, a) + Seq::<Seq<char>>::empty() =~= unfinished_calls(
            calls,
            completed,
            a,
            a,
        ));
    }
}

/// Every call of a turn that did not finish is ended once, and no other:
/// the stream ends noticed are, in call order, the calls that produced no
/// assistant entry and those whose completion frame never came.
pub proof fn lemma_every_unfinished_call_ends<O>(
    entries: Seq<TurnEntryView<O>>,
    queue: Seq<Seq<char>>,
    calls: Seq<Seq<char>>,
    completed: Seq<bool>,
    usage: Option<TurnUsage>,
)
    ensures
        ({
            let st = recon_fold(ReconState { usage, ..initial::<O>(queue.len()) }, entries, queue, calls, completed);
            end_ids(st.notices + trailing_ends::<O>(calls, st.assistants)) == unfinished_calls(
                calls,
                completed,
                st.assistants,
                calls.len() as int,
            )
        }),
{
    let st0 = ReconState { usage, ..initial::<O>(queue.len()) };
    lemma_fold_ends(st0, entries, queue, calls, completed);
    let st = recon_fold(st0, entries, queue, calls, completed);
    let a = st.assistants;
    lemma_end_ids_concat(st.notices, trailing_ends::<O>(calls, a));
    lemma_trailing_end_ids::<O>(calls, a);
    if a <= calls.len() {
        lemma_unfinished_tail(calls, completed, a, calls.len() as int);
        if a == calls.len() {
            assert(unfinished_calls(calls, completed, a, a) + Seq::<Seq<char>>::empty() =~= unfinished_calls(calls, completed, a, a));
        }
    } else {
        lemma_unfinished_past(calls, completed, a, a);
    }
}

proof fn lemma_unfinished_past(calls: Seq<Seq<char>>, completed: Seq<bool>, a: int, n: int)
    requires
        calls.len() <= n,
    ensures
        unfinished_calls(calls, completed, a, n) == unfinished_calls(calls, completed, a, calls.len() as int),
    decreases n,
{
    if n > calls.len() {
        lemma_unfinished_past(calls, completed, a, n - 1);
    }
}

/// Why a started turn does not run: the session file cannot be opened
/// (the error names why; the turn's first send goes back to the queue),
/// or the session was archived while the turn was starting. `None` when
/// the turn runs.
pub fn turn_start_refusal(session: &str, open_error: Option<&str>, archived: bool) -> (r: Option<String>)
    ensures
        match open_error {
            Some(e) => r matches Some(m) && m@ == "session "@ + session@ + " cannot be opened — the send was not run: "@
                + e@,
            None => if archived {
                r matches Some(m) && m@ == "session "@ + session@
                    + " was archived while this turn was starting — the turn was not run"@
            } else {
                r is None
            },
        },
{
    match open_error {
        Some(e) => {
            let mut m = chars_of("session ");
            append_str(&mut m, session);
            append_str(&mut m, " cannot be opened — the send was not run: ");
            append_str(&mut m, e);
            Some(string_of(&m))
        },
        None => {
            if archived {
                let mut m = chars_of("session ");
                append_str(&mut m, session);
                append_str(&mut m, " was archived while this turn was starting — the turn was not run");
                Some(string_of(&m))
            } else {
                None
            }
        },
    }
}

/// What a send does to its session: with no turn in flight it starts one
/// (the send is the turn, never queued); during a turn it is queued for
/// the turn to take up, unless it is a forced send, which the running
/// turn takes at once.
#[derive(Debug, Clone, Copy, PartialEq, Eq)]
pub enum SendOutcome {
    StartTurn,
    Queue,
    Absorb,
}

pub fn send_outcome(turn_in_flight: bool, forced: bool) -> (r: SendOutcome)
    ensures
        r == (if !turn_in_flight {
            SendOutcome::StartTurn
        } else if forced {
            SendOutcome::Absorb
        } else {
            SendOutcome::Queue
        }),
{
    if !turn_in_flight {
        SendOutcome::StartTurn
    } else if forced {
        SendOutcome::Absorb
    } else {
        SendOutcome::Queue
    }
}

} // verus!
