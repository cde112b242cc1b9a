//! Was a history of reads and writes linearizable?
//!
//! A history lists operations on keys, each with the moments at which it was
//! called and at which it returned. It is linearizable if on every key the
//! operations can be put in an order that keeps to time, an operation that had
//! returned before another was called standing first, and in which every read
//! gives what was last written.

use vstd::prelude::*;
use vstd::string::*;

use crate::bytes::{copy_bytes, same_bytes};
use crate::kv::types::{self, compare_bytes, copy_value, Side};
use crate::text::{self, push_decimal, push_hex};

verus! {

#[derive(Clone, Debug, PartialEq, Eq)]
pub enum Op {
    Put { key: Vec<u8>, val: Vec<u8> },
    Get { key: Vec<u8> },
}

#[derive(Clone, Debug, PartialEq, Eq)]
pub enum Ret {
    PutOk,
    GetVal(Option<Vec<u8>>),
}

#[derive(Clone, Debug, PartialEq, Eq)]
pub struct Event {
    pub process: u64,
    pub op: Op,
    pub ret: Ret,
    pub invoke: u64,
    pub complete: u64,
}

#[derive(Clone, Debug, PartialEq, Eq)]
pub struct Report {
    pub linearizable: bool,
    pub witness: Option<String>,
}

#[verifier::ext_equal]
pub enum OpView {
    Put { key: Seq<u8>, val: Seq<u8> },
    Get { key: Seq<u8> },
}

#[verifier::ext_equal]
pub enum RetView {
    PutOk,
    GetVal(Option<Seq<u8>>),
}

#[verifier::ext_equal]
pub struct EventView {
    pub process: u64,
    pub op: OpView,
    pub ret: RetView,
    pub invoke: u64,
    pub complete: u64,
}

pub open spec fn value_view(v: Option<Vec<u8>>) -> Option<Seq<u8>> {
    match v {
        Some(bytes) => Some(bytes@),
        None => None,
    }
}

impl View for Event {
    type V = EventView;

    open spec fn view(&self) -> EventView {
        EventView {
            process: self.process,
            op: match self.op {
                Op::Put { key, val } => OpView::Put { key: key@, val: val@ },
                Op::Get { key } => OpView::Get { key: key@ },
            },
            ret: match self.ret {
                Ret::PutOk => RetView::PutOk,
                Ret::GetVal(v) => RetView::GetVal(value_view(v)),
            },
            invoke: self.invoke,
            complete: self.complete,
        }
    }
}

pub open spec fn history_view(s: Seq<Event>) -> Seq<EventView> {
    s.map_values(|e: Event| e@)
}

impl EventView {
    pub open spec fn key(self) -> Seq<u8> {
        match self.op {
            OpView::Put { key, val } => key,
            OpView::Get { key } => key,
        }
    }

    /// The operation was called before it returned.
    pub open spec fn valid(self) -> bool {
        self.invoke < self.complete
    }

    /// What the register holds after the operation, or why the operation
    /// cannot have returned what it did.
    pub open spec fn applied(self, state: Option<Seq<u8>>) -> core::result::Result<
        Option<Seq<u8>>,
        Seq<char>,
    > {
        match (self.op, self.ret) {
            (OpView::Put { key, val }, RetView::PutOk) => Ok(Some(val)),
            (OpView::Put { key, val }, RetView::GetVal(v)) => Err(
                "Put returned "@ + value_text(v) + ", expected PutOk"@,
            ),
            (OpView::Get { key }, RetView::PutOk) => Err("Get returned PutOk, expected GetVal"@),
            (OpView::Get { key }, RetView::GetVal(v)) => if v == state {
                Ok(state)
            } else {
                Err(
                    "Get returned "@ + value_text(v) + ", but the register contains "@
                        + value_text(state),
                )
            },
        }
    }
}

// ---- what linearizable means ----

/// `order` lists the events that are not done, each once.
pub open spec fn lists_the_rest(done: Seq<bool>, order: Seq<int>) -> bool {
    &&& order.no_duplicates()
    &&& forall|i: int| #[trigger] order.contains(i) <==> 0 <= i < done.len() && !done[i]
}

/// Nothing stands behind an operation that was called after it had returned.
pub open spec fn keeps_to_time(events: Seq<EventView>, order: Seq<int>) -> bool {
    forall|a: int, b: int|
        0 <= a < b < order.len() ==> events[#[trigger] order[b]].complete
            >= events[#[trigger] order[a]].invoke
}

/// Run in this order on a register that holds `state`, every operation returns
/// what it did return.
pub open spec fn runs(events: Seq<EventView>, order: Seq<int>, state: Option<Seq<u8>>) -> bool
    decreases order.len(),
{
    order.len() == 0 || match events[order[0]].applied(state) {
        Ok(next) => runs(events, order.skip(1), next),
        Err(_) => false,
    }
}

/// The order explains what is not done yet, from `state` on.
pub open spec fn explains(
    events: Seq<EventView>,
    done: Seq<bool>,
    state: Option<Seq<u8>>,
    order: Seq<int>,
) -> bool {
    lists_the_rest(done, order) && keeps_to_time(events, order) && runs(events, order, state)
}

pub open spec fn nothing_done(n: nat) -> Seq<bool> {
    Seq::new(n, |i: int| false)
}

/// Some order explains the operations on a register that starts empty.
pub open spec fn explicable(events: Seq<EventView>) -> bool {
    exists|order: Seq<int>| explains(events, nothing_done(events.len()), None, order)
}

/// Where the operations on a key stand in a history.
pub open spec fn positions(history: Seq<EventView>, key: Seq<u8>) -> Seq<int>
    decreases history.len(),
{
    if history.len() == 0 {
        Seq::empty()
    } else if history.last().key() == key {
        positions(history.drop_last(), key).push(history.len() - 1)
    } else {
        positions(history.drop_last(), key)
    }
}

/// The operations on a key.
pub open spec fn on_key(history: Seq<EventView>, key: Seq<u8>) -> Seq<EventView> {
    positions(history, key).map_values(|i: int| history[i])
}

/// Every operation was called before it returned, and on every key an order
/// explains them.
pub open spec fn linearizable(history: Seq<EventView>) -> bool {
    &&& forall|i: int| 0 <= i < history.len() ==> (#[trigger] history[i]).valid()
    &&& forall|key: Seq<u8>| explicable(#[trigger] on_key(history, key))
}

// ---- what is said where it is not ----

pub open spec fn value_text(v: Option<Seq<u8>>) -> Seq<char> {
    match v {
        Some(bytes) => "Some("@ + text::hex(bytes) + ")"@,
        None => "None"@,
    }
}

/// Bytes as a list of numbers, without the brackets.
pub open spec fn numbers_text(s: Seq<u8>) -> Seq<char>
    decreases s.len(),
{
    if s.len() == 0 {
        Seq::empty()
    } else if s.len() == 1 {
        text::decimal(s[0] as nat)
    } else {
        numbers_text(s.drop_last()) + ", "@ + text::decimal(s.last() as nat)
    }
}

pub open spec fn ret_text(r: RetView) -> Seq<char> {
    match r {
        RetView::PutOk => "PutOk"@,
        RetView::GetVal(None) => "GetVal(None)"@,
        RetView::GetVal(Some(bytes)) => "GetVal(Some(["@ + numbers_text(bytes) + "]))"@,
    }
}

pub open spec fn times_text(invoke: u64, complete: u64) -> Seq<char> {
    "invoke="@ + text::decimal(invoke as nat) + " complete="@ + text::decimal(complete as nat)
}

pub open spec fn event_text(e: EventView) -> Seq<char> {
    "process "@ + text::decimal(e.process as nat) + match e.op {
        OpView::Put { key, val } => " Put("@ + text::hex(val) + ")"@,
        OpView::Get { key } => " Get"@,
    } + " -> "@ + ret_text(e.ret) + ", invoke="@ + text::decimal(e.invoke as nat) + ", complete="@
        + text::decimal(e.complete as nat)
}

/// The operation at `i` is at fault.
pub open spec fn blame_text(history: Seq<EventView>, key: Seq<u8>, i: int) -> Seq<char> {
    "key "@ + text::hex(key) + " is not linearizable: operation #"@ + text::decimal(i as nat)
        + " ("@ + event_text(history[i]) + ")"@
}

pub open spec fn interval_text(history: Seq<EventView>, i: int) -> Seq<char> {
    blame_text(history, history[i].key(), i) + " has invalid interval "@ + times_text(
        history[i].invoke,
        history[i].complete,
    )
}

pub open spec fn contradiction_text(
    history: Seq<EventView>,
    key: Seq<u8>,
    i: int,
    reason: Seq<char>,
) -> Seq<char> {
    blame_text(history, key, i) + " reached a contradiction: "@ + reason
}

// ---- the search ----

/// Where a search got stuck: how many operations were in order by then, at
/// which operation, and why.
#[verifier::ext_equal]
pub struct FailureView {
    pub depth: nat,
    pub at: int,
    pub reason: Seq<char>,
}

pub ghost enum Verdict {
    Fits,
    Fails(FailureView),
}

/// The first of the events not done that returned earliest, among the first
/// `n`.
pub open spec fn earliest(events: Seq<EventView>, done: Seq<bool>, n: int) -> Option<int>
    decreases n,
{
    if n <= 0 {
        None
    } else {
        let before = earliest(events, done, n - 1);
        if done[n - 1] {
            before
        } else {
            match before {
                Some(i) => if events[n - 1].complete < events[i].complete {
                    Some(n - 1)
                } else {
                    Some(i)
                },
                None => Some(n - 1),
            }
        }
    }
}

/// By when some operation that is not done had returned.
pub open spec fn frontier(events: Seq<EventView>, done: Seq<bool>) -> u64 {
    match earliest(events, done, events.len() as int) {
        Some(i) => events[i].complete,
        None => 0,
    }
}

/// The failure that got furthest, the earlier one of two that got as far.
pub open spec fn deeper(best: Option<FailureView>, f: FailureView) -> FailureView {
    match best {
        Some(b) => if f.depth > b.depth {
            f
        } else {
            b
        },
        None => f,
    }
}

/// Whether what is left can be put in order, with the deepest failure if not.
/// Operations are tried in the order of the history.
pub open spec fn searched(
    events: Seq<EventView>,
    done: Seq<bool>,
    state: Option<Seq<u8>>,
    depth: nat,
) -> Verdict
    decreases events.len() - depth, events.len() + 1,
{
    if depth >= events.len() {
        Verdict::Fits
    } else {
        tried(events, done, state, depth, 0, None)
    }
}

/// The same, with the operations before `i` tried already.
pub open spec fn tried(
    events: Seq<EventView>,
    done: Seq<bool>,
    state: Option<Seq<u8>>,
    depth: nat,
    i: nat,
    best: Option<FailureView>,
) -> Verdict
    decreases events.len() - depth, events.len() - i,
{
    if depth >= events.len() {
        Verdict::Fits
    } else if i >= events.len() {
        match best {
            Some(f) => Verdict::Fails(f),
            None => Verdict::Fails(stuck(events, done, depth)),
        }
    } else if done[i as int] || events[i as int].invoke > frontier(events, done) {
        tried(events, done, state, depth, i + 1, best)
    } else {
        match events[i as int].applied(state) {
            Err(reason) => tried(
                events,
                done,
                state,
                depth,
                i + 1,
                Some(deeper(best, FailureView { depth, at: i as int, reason })),
            ),
            Ok(next) => match searched(events, done.update(i as int, true), next, depth + 1) {
                Verdict::Fits => Verdict::Fits,
                Verdict::Fails(f) => tried(
                    events,
                    done,
                    state,
                    depth,
                    i + 1,
                    Some(deeper(best, f)),
                ),
            },
        }
    }
}

/// Nothing could be tried.
pub open spec fn stuck(events: Seq<EventView>, done: Seq<bool>, depth: nat) -> FailureView {
    FailureView {
        depth,
        at: match earliest(events, done, events.len() as int) {
            Some(i) => i,
            None => 0,
        },
        reason: "no operation is eligible at frontier "@ + text::decimal(
            frontier(events, done) as nat,
        ),
    }
}

/// What the search says of the operations on one key.
pub open spec fn judged(events: Seq<EventView>) -> Verdict {
    searched(events, nothing_done(events.len()), None, 0)
}

/// `key` is the first, by its bytes, on which the search fails.
pub open spec fn first_failing(history: Seq<EventView>, key: Seq<u8>) -> bool {
    &&& judged(on_key(history, key)) is Fails
    &&& forall|k: Seq<u8>|
        types::precedes(k, key) ==> judged(#[trigger] on_key(history, k)) is Fits
}

/// The operation at `i` is the first that did not return after it was called.
pub open spec fn first_invalid(history: Seq<EventView>, i: int) -> bool {
    &&& 0 <= i < history.len()
    &&& !history[i].valid()
    &&& forall|j: int| 0 <= j < i ==> (#[trigger] history[j]).valid()
}

/// The history is not linearizable, and this says why: an operation did not
/// return after it was called, or else, on the first key where no order was
/// found, where the search got furthest.
pub open spec fn tells_why(history: Seq<EventView>, witness: Seq<char>) -> bool {
    if exists|i: int| first_invalid(history, i) {
        exists|i: int|
            #[trigger] first_invalid(history, i) && witness == interval_text(history, i)
    } else {
        exists|key: Seq<u8>| #[trigger]
            first_failing(history, key) && match judged(on_key(history, key)) {
                Verdict::Fails(f) => witness == contradiction_text(
                    history,
                    key,
                    positions(history, key)[f.at],
                    f.reason,
                ),
                Verdict::Fits => false,
            }
    }
}

// ---- laws ----

proof fn earliest_is(events: Seq<EventView>, done: Seq<bool>, n: int)
    requires
        n <= events.len(),
        done.len() == events.len(),
    ensures
        match earliest(events, done, n) {
            Some(i) => 0 <= i < n && !done[i] && forall|j: int|
                0 <= j < n && !#[trigger] done[j] ==> events[i].complete <= events[j].complete,
            None => forall|j: int| 0 <= j < n ==> #[trigger] done[j],
        },
    decreases n,
{
    if n > 0 {
        earliest_is(events, done, n - 1);
    }
}

/// How many are done.
spec fn done_count(done: Seq<bool>) -> nat
    decreases done.len(),
{
    if done.len() == 0 {
        0
    } else {
        done_count(done.drop_last()) + if done.last() {
            1nat
        } else {
            0
        }
    }
}

proof fn done_count_bounds(done: Seq<bool>)
    ensures
        done_count(done) <= done.len(),
        done_count(done) == done.len() <==> forall|i: int| 0 <= i < done.len() ==> done[i],
    decreases done.len(),
{
    if done.len() > 0 {
        let front = done.drop_last();
        done_count_bounds(front);
        if done_count(done) == done.len() {
            assert forall|i: int| 0 <= i < done.len() implies done[i] by {
                if i < front.len() {
                    assert(front[i]);
                }
            }
        }
        if forall|i: int| 0 <= i < done.len() ==> done[i] {
            assert forall|i: int| 0 <= i < front.len() implies front[i] by {
                assert(done[i]);
            }
            assert(done[done.len() - 1]);
        }
    }
}

proof fn done_count_step(done: Seq<bool>, i: int)
    requires
        0 <= i < done.len(),
        !done[i],
    ensures
        done_count(done.update(i, true)) == done_count(done) + 1,
    decreases done.len(),
{
    if i == done.len() - 1 {
        assert(done.update(i, true).drop_last() =~= done.drop_last());
    } else {
        assert(done.update(i, true).drop_last() =~= done.drop_last().update(i, true));
        done_count_step(done.drop_last(), i);
    }
}

proof fn nothing_done_counts(n: nat)
    ensures
        done_count(nothing_done(n)) == 0,
    decreases n,
{
    if n > 0 {
        assert(nothing_done(n).drop_last() =~= nothing_done((n - 1) as nat));
        nothing_done_counts((n - 1) as nat);
    }
}

/// An order found behind the operation at `i` is one with it.
proof fn explained_with(
    events: Seq<EventView>,
    done: Seq<bool>,
    state: Option<Seq<u8>>,
    i: int,
    next: Option<Seq<u8>>,
    rest: Seq<int>,
)
    requires
        done.len() == events.len(),
        0 <= i < events.len(),
        !done[i],
        events[i].invoke <= frontier(events, done),
        events[i].applied(state) == Ok::<Option<Seq<u8>>, Seq<char>>(next),
        explains(events, done.update(i, true), next, rest),
    ensures
        explains(events, done, state, seq![i] + rest),
{
    let order = seq![i] + rest;
    let after = done.update(i, true);
    earliest_is(events, done, events.len() as int);
    assert(!rest.contains(i));
    assert(lists_the_rest(done, order)) by {
        assert forall|a: int, b: int|
            0 <= a < order.len() && 0 <= b < order.len() && a != b implies order[a] != order[b] by {
            if a > 0 {
                assert(rest.contains(rest[a - 1]));
            }
            if b > 0 {
                assert(rest.contains(rest[b - 1]));
            }
        }
        assert forall|j: int| #[trigger] order.contains(j) <==> 0 <= j < done.len()
            && !done[j] by {
            if order.contains(j) {
                let a = choose|a: int| 0 <= a < order.len() && order[a] == j;
                if a > 0 {
                    assert(rest[a - 1] == j);
                    assert(rest.contains(j));
                }
            }
            if 0 <= j < done.len() && !done[j] {
                if j == i {
                    assert(order[0] == j);
                } else {
                    assert(rest.contains(j));
                    let a = choose|a: int| 0 <= a < rest.len() && rest[a] == j;
                    assert(order[a + 1] == j);
                }
            }
        }
    }
    assert(keeps_to_time(events, order)) by {
        assert forall|a: int, b: int| 0 <= a < b < order.len() implies events[
        #[trigger] order[b]].complete >= events[#[trigger] order[a]].invoke by {
            assert(rest[b - 1] == order[b]);
            assert(rest.contains(rest[b - 1]));
            if a == 0 {
                assert(!done[order[b]]);
            } else {
                assert(rest[a - 1] == order[a]);
            }
        }
    }
    assert(order.skip(1) =~= rest);
}

proof fn search_is_sound(
    events: Seq<EventView>,
    done: Seq<bool>,
    state: Option<Seq<u8>>,
    depth: nat,
)
    requires
        done.len() == events.len(),
        done_count(done) == depth,
        searched(events, done, state, depth) is Fits,
    ensures
        exists|order: Seq<int>| explains(events, done, state, order),
    decreases events.len() - depth, events.len() + 1,
{
    done_count_bounds(done);
    if depth >= events.len() {
        assert(explains(events, done, state, Seq::empty()));
    } else {
        tries_are_sound(events, done, state, depth, 0, None);
    }
}

proof fn tries_are_sound(
    events: Seq<EventView>,
    done: Seq<bool>,
    state: Option<Seq<u8>>,
    depth: nat,
    i: nat,
    best: Option<FailureView>,
)
    requires
        done.len() == events.len(),
        done_count(done) == depth,
        depth < events.len(),
        tried(events, done, state, depth, i, best) is Fits,
    ensures
        exists|order: Seq<int>| explains(events, done, state, order),
    decreases events.len() - depth, events.len() - i,
{
    if i >= events.len() {
    } else if done[i as int] || events[i as int].invoke > frontier(events, done) {
        tries_are_sound(events, done, state, depth, i + 1, best);
    } else {
        match events[i as int].applied(state) {
            Err(reason) => {
                let f = FailureView { depth, at: i as int, reason };
                tries_are_sound(events, done, state, depth, i + 1, Some(deeper(best, f)));
            },
            Ok(next) => {
                let after = done.update(i as int, true);
                match searched(events, after, next, depth + 1) {
                    Verdict::Fits => {
                        done_count_step(done, i as int);
                        search_is_sound(events, after, next, depth + 1);
                        let rest = choose|rest: Seq<int>| explains(events, after, next, rest);
                        explained_with(events, done, state, i as int, next, rest);
                    },
                    Verdict::Fails(f) => {
                        tries_are_sound(events, done, state, depth, i + 1, Some(deeper(best, f)));
                    },
                }
            },
        }
    }
}

proof fn search_is_complete(
    events: Seq<EventView>,
    done: Seq<bool>,
    state: Option<Seq<u8>>,
    depth: nat,
    order: Seq<int>,
)
    requires
        done.len() == events.len(),
        done_count(done) == depth,
        explains(events, done, state, order),
        forall|i: int| 0 <= i < events.len() ==> (#[trigger] events[i]).valid(),
    ensures
        searched(events, done, state, depth) is Fits,
    decreases events.len() - depth,
{
    done_count_bounds(done);
    if depth < events.len() {
        let j = choose|j: int| 0 <= j < done.len() && !done[j];
        assert(order.contains(j));
        let first = order[0];
        assert(order.contains(first));
        let rest = order.skip(1);
        let after = done.update(first, true);
        let next = events[first].applied(state)->Ok_0;
        assert forall|k: int| #[trigger] rest.contains(k) <==> 0 <= k < after.len()
            && !after[k] by {
            if rest.contains(k) {
                let a = choose|a: int| 0 <= a < rest.len() && rest[a] == k;
                assert(order[a + 1] == k);
                assert(order.contains(k));
            }
            if 0 <= k < after.len() && !after[k] {
                assert(order.contains(k));
                let a = choose|a: int| 0 <= a < order.len() && order[a] == k;
                assert(rest[a - 1] == k);
            }
        }
        assert forall|a: int, b: int| 0 <= a < b < rest.len() implies events[
        #[trigger] rest[b]].complete >= events[#[trigger] rest[a]].invoke by {
            assert(rest[a] == order[a + 1]);
            assert(rest[b] == order[b + 1]);
        }
        assert(lists_the_rest(after, rest));
        done_count_step(done, first);
        search_is_complete(events, after, next, depth + 1, rest);
        earliest_is(events, done, events.len() as int);
        let soonest = earliest(events, done, events.len() as int)->0;
        assert(order.contains(soonest));
        let a = choose|a: int| 0 <= a < order.len() && order[a] == soonest;
        assert(events[first].valid());
        assert(a > 0 ==> events[order[a]].complete >= events[order[0]].invoke);
        tries_are_complete(events, done, state, depth, 0, None, first as nat);
    }
}

proof fn tries_are_complete(
    events: Seq<EventView>,
    done: Seq<bool>,
    state: Option<Seq<u8>>,
    depth: nat,
    i: nat,
    best: Option<FailureView>,
    first: nat,
)
    requires
        depth < events.len(),
        i <= first < events.len(),
        !done[first as int],
        events[first as int].invoke <= frontier(events, done),
        events[first as int].applied(state) matches Ok(next) && searched(
            events,
            done.update(first as int, true),
            next,
            depth + 1,
        ) is Fits,
    ensures
        tried(events, done, state, depth, i, best) is Fits,
    decreases first - i,
{
    if i < first {
        if done[i as int] || events[i as int].invoke > frontier(events, done) {
            tries_are_complete(events, done, state, depth, i + 1, best, first);
        } else {
            match events[i as int].applied(state) {
                Err(reason) => {
                    let f = FailureView { depth, at: i as int, reason };
                    tries_are_complete(
                        events,
                        done,
                        state,
                        depth,
                        i + 1,
                        Some(deeper(best, f)),
                        first,
                    );
                },
                Ok(next) => {
                    match searched(events, done.update(i as int, true), next, depth + 1) {
                        Verdict::Fits => {},
                        Verdict::Fails(f) => {
                            tries_are_complete(
                                events,
                                done,
                                state,
                                depth,
                                i + 1,
                                Some(deeper(best, f)),
                                first,
                            );
                        },
                    }
                },
            }
        }
    }
}

/// A failed search names one of the operations.
pub(crate) proof fn a_failure_names_an_operation(
    events: Seq<EventView>,
    done: Seq<bool>,
    state: Option<Seq<u8>>,
    depth: nat,
)
    requires
        done.len() == events.len(),
    ensures
        searched(events, done, state, depth) matches Verdict::Fails(f) ==> 0 <= f.at
            < events.len(),
    decreases events.len() - depth, events.len() + 1,
{
    if depth < events.len() {
        a_trial_names_an_operation(events, done, state, depth, 0, None);
    }
}

proof fn a_trial_names_an_operation(
    events: Seq<EventView>,
    done: Seq<bool>,
    state: Option<Seq<u8>>,
    depth: nat,
    i: nat,
    best: Option<FailureView>,
)
    requires
        done.len() == events.len(),
        best matches Some(b) ==> 0 <= b.at < events.len(),
    ensures
        tried(events, done, state, depth, i, best) matches Verdict::Fails(f) ==> 0 <= f.at
            < events.len(),
    decreases events.len() - depth, events.len() - i,
{
    if depth < events.len() {
        if i >= events.len() {
            earliest_is(events, done, events.len() as int);
        } else if done[i as int] || events[i as int].invoke > frontier(events, done) {
            a_trial_names_an_operation(events, done, state, depth, i + 1, best);
        } else {
            match events[i as int].applied(state) {
                Err(reason) => {
                    let f = FailureView { depth, at: i as int, reason };
                    let now = Some(deeper(best, f));
                    a_trial_names_an_operation(events, done, state, depth, i + 1, now);
                },
                Ok(next) => {
                    let more = done.update(i as int, true);
                    a_failure_names_an_operation(events, more, next, depth + 1);
                    if let Verdict::Fails(f) = searched(events, more, next, depth + 1) {
                        let now = Some(deeper(best, f));
                        a_trial_names_an_operation(events, done, state, depth, i + 1, now);
                    }
                },
            }
        }
    }
}

/// The search says that operations fit exactly where an order explains them.
pub proof fn the_search_is_exact(events: Seq<EventView>)
    requires
        forall|i: int| 0 <= i < events.len() ==> (#[trigger] events[i]).valid(),
    ensures
        judged(events) is Fits <==> explicable(events),
{
    let done = nothing_done(events.len());
    nothing_done_counts(events.len());
    if judged(events) is Fits {
        search_is_sound(events, done, None, 0);
    }
    if explicable(events) {
        let order = choose|order: Seq<int>| explains(events, done, None, order);
        search_is_complete(events, done, None, 0, order);
    }
}

pub(crate) proof fn positions_are(history: Seq<EventView>, key: Seq<u8>)
    ensures
        forall|a: int|
            0 <= a < positions(history, key).len() ==> 0 <= (#[trigger] positions(history, key)[a])
                < history.len() && history[positions(history, key)[a]].key() == key,
    decreases history.len(),
{
    if history.len() > 0 {
        positions_are(history.drop_last(), key);
        assert forall|a: int| 0 <= a < positions(history, key).len() implies 0 <= (
        #[trigger] positions(history, key)[a]) < history.len() && history[positions(
            history,
            key,
        )[a]].key() == key by {
            if a < positions(history.drop_last(), key).len() {
                let i = positions(history.drop_last(), key)[a];
                assert(history.drop_last()[i] == history[i]);
            }
        }
    }
}

/// A history is linearizable exactly where every interval is valid and the
/// search fits the operations on every key.
pub proof fn the_judgement_is_exact(history: Seq<EventView>)
    requires
        forall|i: int| 0 <= i < history.len() ==> (#[trigger] history[i]).valid(),
    ensures
        linearizable(history) <==> forall|key: Seq<u8>|
            judged(#[trigger] on_key(history, key)) is Fits,
        forall|key: Seq<u8>|
            judged(#[trigger] on_key(history, key)) is Fits <==> explicable(on_key(history, key)),
{
    assert forall|key: Seq<u8>| judged(#[trigger] on_key(history, key)) is Fits <==> explicable(
        on_key(history, key),
    ) by {
        let events = on_key(history, key);
        positions_are(history, key);
        assert forall|i: int| 0 <= i < events.len() implies (#[trigger] events[i]).valid() by {
            assert(events[i] == history[positions(history, key)[i]]);
        }
        the_search_is_exact(events);
    }
    if linearizable(history) {
        assert forall|key: Seq<u8>| judged(#[trigger] on_key(history, key)) is Fits by {
            assert(explicable(on_key(history, key)));
        }
    }
}

// ---- the checker ----

fn push_value(out: &mut String, v: &Option<Vec<u8>>)
    ensures
        final(out)@ == old(out)@ + value_text(value_view(*v)),
{
    let ghost before = out@;
    match v {
        Some(bytes) => {
            out.append("Some(");
            push_hex(out, bytes.as_slice());
            out.append(")");
        },
        None => {
            out.append("None");
        },
    }
    assert(out@ =~= before + value_text(value_view(*v)));
}

fn push_numbers(out: &mut String, bytes: &Vec<u8>)
    ensures
        final(out)@ == old(out)@ + numbers_text(bytes@),
{
    let ghost before = out@;
    let mut i: usize = 0;
    assert(bytes@.take(0) =~= Seq::empty());
    assert(out@ =~= before + numbers_text(bytes@.take(0)));
    while i < bytes.len()
        invariant
            i <= bytes@.len(),
            out@ == before + numbers_text(bytes@.take(i as int)),
        decreases bytes@.len() - i,
    {
        if i > 0 {
            out.append(", ");
        }
        push_decimal(out, bytes[i] as u64);
        proof {
            let next = bytes@.take(i + 1);
            assert(next.drop_last() =~= bytes@.take(i as int));
            if i == 0 {
                assert(bytes@.take(0) =~= Seq::empty());
            }
            assert(out@ =~= before + numbers_text(next));
        }
        i = i + 1;
    }
    assert(bytes@.take(i as int) =~= bytes@);
}

fn push_ret(out: &mut String, event: &Event)
    ensures
        final(out)@ == old(out)@ + ret_text(event@.ret),
{
    let ghost before = out@;
    match &event.ret {
        Ret::PutOk => {
            out.append("PutOk");
        },
        Ret::GetVal(None) => {
            out.append("GetVal(None)");
        },
        Ret::GetVal(Some(bytes)) => {
            out.append("GetVal(Some([");
            push_numbers(out, bytes);
            out.append("]))");
        },
    }
    assert(out@ =~= before + ret_text(event@.ret));
}

/// Appends what an operation was and did.
fn describe_operation(out: &mut String, event: &Event)
    ensures
        final(out)@ == old(out)@ + event_text(event@),
{
    let ghost before = out@;
    out.append("process ");
    push_decimal(out, event.process);
    let ghost head = out@;
    match &event.op {
        Op::Put { key, val } => {
            out.append(" Put(");
            push_hex(out, val.as_slice());
            out.append(")");
            assert(out@ =~= head + (" Put("@ + text::hex(val@) + ")"@));
        },
        Op::Get { key } => {
            out.append(" Get");
        },
    }
    out.append(" -> ");
    push_ret(out, event);
    out.append(", invoke=");
    push_decimal(out, event.invoke);
    out.append(", complete=");
    push_decimal(out, event.complete);
    assert(out@ =~= before + event_text(event@));
}

/// The text that names the operation at fault.
fn blame(history: &[Event], key: &[u8], i: usize) -> (r: String)
    requires
        i < history@.len(),
    ensures
        r@ == blame_text(history_view(history@), key@, i as int),
{
    let mut out = "key ".to_owned();
    push_hex(&mut out, key);
    out.append(" is not linearizable: operation #");
    push_decimal(&mut out, i as u64);
    out.append(" (");
    describe_operation(&mut out, &history[i]);
    out.append(")");
    assert(history_view(history@)[i as int] == history@[i as int]@);
    assert(out@ =~= blame_text(history_view(history@), key@, i as int));
    out
}

fn operation_key(op: &Op) -> (r: &[u8])
    ensures
        r@ == match *op {
            Op::Put { key, val } => key@,
            Op::Get { key } => key@,
        },
{
    match op {
        Op::Put { key, val } => key.as_slice(),
        Op::Get { key } => key.as_slice(),
    }
}

fn same_value(a: &Option<Vec<u8>>, b: &Option<Vec<u8>>) -> (r: bool)
    ensures
        r == (value_view(*a) == value_view(*b)),
{
    match (a, b) {
        (Some(x), Some(y)) => same_bytes(x.as_slice(), y.as_slice()),
        (None, None) => true,
        _ => false,
    }
}

/// What the register holds after an operation, or why it cannot have returned
/// what it did.
fn apply(event: &Event, state: &Option<Vec<u8>>) -> (r: core::result::Result<
    Option<Vec<u8>>,
    String,
>)
    ensures
        match r {
            Ok(next) => event@.applied(value_view(*state)) == Ok::<Option<Seq<u8>>, Seq<char>>(
                value_view(next),
            ),
            Err(reason) => event@.applied(value_view(*state)) == Err::<
                Option<Seq<u8>>,
                Seq<char>,
            >(reason@),
        },
{
    match (&event.op, &event.ret) {
        (Op::Put { key, val }, Ret::PutOk) => Ok(Some(copy_bytes(val.as_slice()))),
        (Op::Put { key, val }, Ret::GetVal(v)) => {
            let mut reason = "Put returned ".to_owned();
            push_value(&mut reason, v);
            reason.append(", expected PutOk");
            Err(reason)
        },
        (Op::Get { key }, Ret::PutOk) => Err("Get returned PutOk, expected GetVal".to_owned()),
        (Op::Get { key }, Ret::GetVal(v)) => if same_value(v, state) {
            Ok(copy_value(state))
        } else {
            let mut reason = "Get returned ".to_owned();
            push_value(&mut reason, v);
            reason.append(", but the register contains ");
            push_value(&mut reason, state);
            Err(reason)
        },
    }
}

struct Failure {
    depth: usize,
    at: usize,
    reason: String,
}

impl Failure {
    spec fn said(self) -> FailureView {
        FailureView { depth: self.depth as nat, at: self.at as int, reason: self.reason@ }
    }
}

spec fn best_view(best: Option<Failure>) -> Option<FailureView> {
    match best {
        Some(f) => Some(f.said()),
        None => None,
    }
}

/// The events at the given places.
spec fn picked(history: Seq<Event>, at: Seq<usize>) -> Seq<EventView> {
    at.map_values(|i: usize| history[i as int]@)
}

/// Keeps the failure that got furthest.
fn record_deepest(best: Option<Failure>, candidate: Failure) -> (r: Failure)
    ensures
        r.said() == deeper(best_view(best), candidate.said()),
{
    match best {
        Some(current) => if candidate.depth > current.depth {
            candidate
        } else {
            current
        },
        None => candidate,
    }
}

/// The first event not done that returned earliest.
fn find_earliest(history: &[Event], at: &Vec<usize>, done: &Vec<bool>) -> (r: Option<usize>)
    requires
        done@.len() == at@.len(),
        forall|i: int| 0 <= i < at@.len() ==> (#[trigger] at@[i]) < history@.len(),
    ensures
        match r {
            Some(i) => earliest(picked(history@, at@), done@, at@.len() as int) == Some(i as int)
                && i < at@.len(),
            None => earliest(picked(history@, at@), done@, at@.len() as int) is None,
        },
{
    let ghost events = picked(history@, at@);
    let mut found: Option<usize> = None;
    let mut i: usize = 0;
    while i < at.len()
        invariant
            i <= at@.len(),
            done@.len() == at@.len(),
            events == picked(history@, at@),
            forall|i: int| 0 <= i < at@.len() ==> (#[trigger] at@[i]) < history@.len(),
            match found {
                Some(f) => earliest(events, done@, i as int) == Some(f as int) && f < i,
                None => earliest(events, done@, i as int) is None,
            },
        decreases at@.len() - i,
    {
        assert(events[i as int] == history@[at@[i as int] as int]@);
        if !done[i] {
            found = match found {
                Some(f) => {
                    assert(events[f as int] == history@[at@[f as int] as int]@);
                    if history[at[i]].complete < history[at[f]].complete {
                        Some(i)
                    } else {
                        Some(f)
                    }
                },
                None => Some(i),
            };
        }
        i = i + 1;
    }
    found
}

/// Looks for an order of what is left.
fn search(
    history: &[Event],
    at: &Vec<usize>,
    done: &mut Vec<bool>,
    state: &Option<Vec<u8>>,
    depth: usize,
) -> (r: core::result::Result<(), Failure>)
    requires
        old(done)@.len() == at@.len(),
        depth <= at@.len(),
        forall|i: int| 0 <= i < at@.len() ==> (#[trigger] at@[i]) < history@.len(),
    ensures
        final(done)@ == old(done)@,
        match r {
            Ok(_) => searched(
                picked(history@, at@),
                old(done)@,
                value_view(*state),
                depth as nat,
            ) is Fits,
            Err(f) => f.at < at@.len() && searched(
                picked(history@, at@),
                old(done)@,
                value_view(*state),
                depth as nat,
            ) == Verdict::Fails(f.said()),
        },
    decreases at@.len() - depth,
{
    let ghost events = picked(history@, at@);
    let ghost before = done@;
    let ghost held = value_view(*state);
    if depth == at.len() {
        return Ok(());
    }
    let soonest = find_earliest(history, at, done);
    let limit: u64 = match soonest {
        Some(i) => {
            assert(events[i as int] == history@[at@[i as int] as int]@);
            history[at[i]].complete
        },
        None => 0,
    };
    let mut best: Option<Failure> = None;
    let mut i: usize = 0;
    while i < at.len()
        invariant
            i <= at@.len(),
            depth < at@.len(),
            done@ == before,
            before == old(done)@,
            before.len() == at@.len(),
            events == picked(history@, at@),
            held == value_view(*state),
            limit == frontier(events, before),
            forall|i: int| 0 <= i < at@.len() ==> (#[trigger] at@[i]) < history@.len(),
            best matches Some(f) ==> f.at < at@.len(),
            searched(events, before, held, depth as nat) == tried(
                events,
                before,
                held,
                depth as nat,
                i as nat,
                best_view(best),
            ),
        decreases at@.len() - i,
    {
        assert(events[i as int] == history@[at@[i as int] as int]@);
        if !done[i] && history[at[i]].invoke <= limit {
            match apply(&history[at[i]], state) {
                Ok(next) => {
                    done.set(i, true);
                    let result = search(history, at, done, &next, depth + 1);
                    done.set(i, false);
                    assert(done@ =~= before);
                    match result {
                        Ok(_) => return Ok(()),
                        Err(failure) => {
                            best = Some(record_deepest(best, failure));
                        },
                    }
                },
                Err(reason) => {
                    best = Some(record_deepest(best, Failure { depth, at: i, reason }));
                },
            }
        }
        i = i + 1;
    }
    match best {
        Some(failure) => Err(failure),
        None => {
            let mut reason = "no operation is eligible at frontier ".to_owned();
            push_decimal(&mut reason, limit);
            let at: usize = match soonest {
                Some(i) => i,
                None => 0,
            };
            assert(reason@ =~= stuck(events, before, depth as nat).reason);
            Err(Failure { depth, at, reason })
        },
    }
}

/// The places of the operations on one key.
struct Group {
    key: Vec<u8>,
    at: Vec<usize>,
}

spec fn places(at: Seq<usize>) -> Seq<int> {
    at.map_values(|i: usize| i as int)
}

/// Keys in the order of their bytes, each with the places of its operations;
/// no key that occurs is missing.
spec fn grouped(groups: Seq<Group>, history: Seq<EventView>) -> bool {
    &&& forall|a: int, b: int|
        0 <= a < b < groups.len() ==> types::precedes(
            (#[trigger] groups[a]).key@,
            (#[trigger] groups[b]).key@,
        )
    &&& forall|a: int|
        0 <= a < groups.len() ==> places((#[trigger] groups[a]).at@) == positions(
            history,
            groups[a].key@,
        )
    &&& forall|key: Seq<u8>|
        (#[trigger] positions(history, key)).len() > 0 ==> exists|a: int|
            0 <= a < groups.len() && (#[trigger] groups[a]).key@ == key
}

proof fn group_step(history: Seq<EventView>, i: int, key: Seq<u8>)
    requires
        0 <= i < history.len(),
    ensures
        positions(history.take(i + 1), key) == if history[i].key() == key {
            positions(history.take(i), key).push(i)
        } else {
            positions(history.take(i), key)
        },
{
    assert(history.take(i + 1).drop_last() =~= history.take(i));
}

/// Adds the operation at `i` to the group of its key.
fn add_to_group(
    groups: &mut Vec<Group>,
    key: &[u8],
    i: usize,
    Ghost(history): Ghost<Seq<EventView>>,
)
    requires
        i < history.len(),
        history[i as int].key() == key@,
        grouped(old(groups)@, history.take(i as int)),
    ensures
        grouped(final(groups)@, history.take(i + 1)),
{
    let ghost before = groups@;
    let (prior, now) = (Ghost(history.take(i as int)), Ghost(history.take(i + 1)));
    let mut g: usize = 0;
    let mut found: bool = false;
    while g < groups.len() && !found
        invariant
            g <= groups@.len(),
            groups@ == before,
            forall|a: int| 0 <= a < g ==> types::precedes((#[trigger] before[a]).key@, key@),
            found ==> g < groups@.len() && !types::precedes(before[g as int].key@, key@),
        ensures
            g <= groups@.len(),
            g < groups@.len() ==> !types::precedes(before[g as int].key@, key@),
        decreases groups@.len() - g + if found {
            0int
        } else {
            1
        },
    {
        match compare_bytes(groups[g].key.as_slice(), key) {
            Side::Before => {
                g = g + 1;
            },
            _ => {
                proof {
                    types::byte_order_is_total(before[g as int].key@, key@);
                }
                found = true;
            },
        }
    }
    proof {
        assert forall|k: Seq<u8>| #[trigger] positions(now@, k) == if k == key@ {
            positions(prior@, k).push(i as int)
        } else {
            positions(prior@, k)
        } by {
            group_step(history, i as int, k);
        }
    }
    if g < groups.len() && same_bytes(groups[g].key.as_slice(), key) {
        let mut group = groups.remove(g);
        let ghost at = group.at@;
        group.at.push(i);
        groups.insert(g, group);
        proof {
            assert(places(groups@[g as int].at@) =~= places(at).push(i as int));
            assert forall|a: int| 0 <= a < groups@.len() implies places(
                (#[trigger] groups@[a]).at@,
            ) == positions(now@, groups@[a].key@) by {
                assert(groups@[a].key@ == before[a].key@);
                if a != g {
                    if a < g {
                        types::byte_order_is_total(before[a].key@, key@);
                    } else {
                        assert(types::precedes(before[g as int].key@, before[a].key@));
                        types::byte_order_is_total(before[a].key@, key@);
                    }
                    assert(groups@[a] == before[a]);
                }
            }
            assert forall|k: Seq<u8>| (#[trigger] positions(now@, k)).len() > 0 implies exists|
                a: int,
            | 0 <= a < groups@.len() && (#[trigger] groups@[a]).key@ == k by {
                if k == key@ {
                    assert(groups@[g as int].key@ == k);
                } else {
                    assert(positions(prior@, k).len() > 0);
                    let a = choose|a: int| 0 <= a < before.len() && (#[trigger] before[a]).key@
                        == k;
                    assert(groups@[a].key@ == k);
                }
            }
            assert forall|a: int, b: int| 0 <= a < b < groups@.len() implies types::precedes(
                (#[trigger] groups@[a]).key@,
                (#[trigger] groups@[b]).key@,
            ) by {
                assert(groups@[a].key@ == before[a].key@);
                assert(groups@[b].key@ == before[b].key@);
            }
        }
    } else {
        let mut at: Vec<usize> = Vec::new();
        at.push(i);
        groups.insert(g, Group { key: copy_bytes(key), at });
        proof {
            if g < before.len() {
                types::byte_order_is_total(before[g as int].key@, key@);
            }
            assert forall|a: int| 0 <= a < before.len() implies (#[trigger] before[a]).key@
                != key@ by {
                types::byte_order_is_total(before[a].key@, key@);
                if a > g {
                    assert(types::precedes(before[g as int].key@, before[a].key@));
                    types::byte_order_is_transitive(key@, before[g as int].key@, before[a].key@);
                }
            }
            assert(positions(prior@, key@) =~= Seq::empty());
            assert(places(at@) =~= positions(now@, key@));
            assert forall|a: int| 0 <= a < groups@.len() implies places(
                (#[trigger] groups@[a]).at@,
            ) == positions(now@, groups@[a].key@) by {
                if a < g {
                    assert(groups@[a] == before[a]);
                } else if a > g {
                    assert(groups@[a] == before[a - 1]);
                }
            }
            assert forall|k: Seq<u8>| (#[trigger] positions(now@, k)).len() > 0 implies exists|
                a: int,
            | 0 <= a < groups@.len() && (#[trigger] groups@[a]).key@ == k by {
                if k == key@ {
                    assert(groups@[g as int].key@ == k);
                } else {
                    assert(positions(prior@, k).len() > 0);
                    let a = choose|a: int| 0 <= a < before.len() && (#[trigger] before[a]).key@
                        == k;
                    if a < g {
                        assert(groups@[a].key@ == k);
                    } else {
                        assert(groups@[a + 1].key@ == k);
                    }
                }
            }
            assert forall|a: int, b: int| 0 <= a < b < groups@.len() implies types::precedes(
                (#[trigger] groups@[a]).key@,
                (#[trigger] groups@[b]).key@,
            ) by {
                let x = if a < g { a } else { a - 1 };
                let y = if b < g { b } else { b - 1 };
                if a == g {
                    assert(types::precedes(key@, before[g as int].key@));
                    if y > g {
                        assert(types::precedes(before[g as int].key@, before[y].key@));
                        types::byte_order_is_transitive(key@, before[g as int].key@, before[y].key@);
                    }
                } else if b == g {
                    assert(types::precedes(before[x].key@, key@));
                } else {
                    assert(types::precedes(before[x].key@, before[y].key@));
                }
            }
        }
    }
}

/// Whether a history is linearizable, and if not, why.
pub fn check(history: &[Event]) -> (r: Report)
    ensures
        r.linearizable == linearizable(history_view(history@)),
        match r.witness {
            Some(witness) => !r.linearizable && tells_why(history_view(history@), witness@),
            None => r.linearizable,
        },
{
    let ghost all = history_view(history@);
    let mut groups: Vec<Group> = Vec::new();
    let mut i: usize = 0;
    assert(grouped(groups@, all.take(0)));
    while i < history.len()
        invariant
            i <= history@.len(),
            all == history_view(history@),
            forall|j: int| 0 <= j < i ==> (#[trigger] all[j]).valid(),
            grouped(groups@, all.take(i as int)),
        decreases history@.len() - i,
    {
        assert(all[i as int] == history@[i as int]@);
        let key = operation_key(&history[i].op);
        if history[i].invoke >= history[i].complete {
            let mut witness = blame(history, key, i);
            witness.append(" has invalid interval invoke=");
            push_decimal(&mut witness, history[i].invoke);
            witness.append(" complete=");
            push_decimal(&mut witness, history[i].complete);
            proof {
                reveal_strlit(" has invalid interval invoke=");
                reveal_strlit(" has invalid interval ");
                reveal_strlit("invoke=");
                assert(" has invalid interval invoke="@ =~= " has invalid interval "@ + "invoke="@);
                assert(witness@ =~= interval_text(all, i as int));
                assert(first_invalid(all, i as int));
            }
            return Report { linearizable: false, witness: Some(witness) };
        }
        add_to_group(&mut groups, key, i, Ghost(all));
        i = i + 1;
    }
    assert(all.take(i as int) =~= all);
    proof {
        the_judgement_is_exact(all);
    }
    let mut g: usize = 0;
    while g < groups.len()
        invariant
            g <= groups@.len(),
            all == history_view(history@),
            grouped(groups@, all),
            forall|j: int| 0 <= j < all.len() ==> (#[trigger] all[j]).valid(),
            linearizable(all) <==> forall|key: Seq<u8>|
                judged(#[trigger] on_key(all, key)) is Fits,
            forall|a: int|
                0 <= a < g ==> judged(on_key(all, (#[trigger] groups@[a]).key@)) is Fits,
        decreases groups@.len() - g,
    {
        let group = &groups[g];
        let ghost key = group.key@;
        proof {
            positions_are(all, key);
            assert(places(group.at@) == positions(all, key));
            assert forall|a: int| 0 <= a < group.at@.len() implies (#[trigger] group.at@[a])
                < history@.len() by {
                assert(places(group.at@)[a] == group.at@[a]);
            }
            assert(picked(history@, group.at@) =~= on_key(all, key)) by {
                assert forall|a: int| 0 <= a < group.at@.len() implies picked(
                    history@,
                    group.at@,
                )[a] == on_key(all, key)[a] by {
                    assert(places(group.at@)[a] == group.at@[a]);
                }
            }
        }
        let mut done: Vec<bool> = Vec::new();
        let mut n: usize = 0;
        while n < group.at.len()
            invariant
                n <= group.at@.len(),
                done@ == nothing_done(n as nat),
            decreases group.at@.len() - n,
        {
            done.push(false);
            n = n + 1;
            assert(done@ =~= nothing_done(n as nat));
        }
        match search(history, &group.at, &mut done, &None, 0) {
            Ok(_) => {},
            Err(failure) => {
                let at: usize = group.at[failure.at];
                let mut witness = blame(history, group.key.as_slice(), at);
                witness.append(" reached a contradiction: ");
                witness.append(failure.reason.as_str());
                proof {
                    assert(positions(all, key)[failure.at as int] == at);
                    assert forall|k: Seq<u8>| types::precedes(k, key) implies judged(
                        #[trigger] on_key(all, k),
                    ) is Fits by {
                        earlier_fits(groups@, all, g as int, k);
                    }
                    assert(first_failing(all, key));
                }
                return Report { linearizable: false, witness: Some(witness) };
            },
        }
        g = g + 1;
    }
    proof {
        assert forall|k: Seq<u8>| judged(#[trigger] on_key(all, k)) is Fits by {
            if positions(all, k).len() > 0 {
                let a = choose|a: int| 0 <= a < groups@.len() && (#[trigger] groups@[a]).key@ == k;
                assert(judged(on_key(all, groups@[a].key@)) is Fits);
            }
        }
    }
    Report { linearizable: true, witness: None }
}

/// Keys before that of a group have been judged with the groups before it.
proof fn earlier_fits(groups: Seq<Group>, all: Seq<EventView>, g: int, k: Seq<u8>)
    requires
        grouped(groups, all),
        0 <= g < groups.len(),
        types::precedes(k, groups[g].key@),
        forall|a: int| 0 <= a < g ==> judged(on_key(all, (#[trigger] groups[a]).key@)) is Fits,
    ensures
        judged(on_key(all, k)) is Fits,
{
    if positions(all, k).len() > 0 {
        let a = choose|a: int| 0 <= a < groups.len() && (#[trigger] groups[a]).key@ == k;
        types::byte_order_is_total(k, groups[g].key@);
        if a > g {
            assert(types::precedes(groups[g].key@, groups[a].key@));
        }
        assert(judged(on_key(all, groups[a].key@)) is Fits);
    }
}

} // verus!
