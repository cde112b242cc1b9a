//! What it means that a history is linearizable.

use vstd::prelude::*;

use crate::kv::types;
use crate::raft::lincheck::{self, EventView, OpView, RetView};

verus! {

/// The operation is on the key.
pub open spec fn concerns(e: EventView, key: Seq<u8>) -> bool {
    match e.op {
        OpView::Put { key: k, val } => k == key,
        OpView::Get { key: k } => k == key,
    }
}

/// The last value that is put before place `b` of the order is put at place `a`.
pub open spec fn put_last(events: Seq<EventView>, order: Seq<int>, a: int, b: int) -> bool {
    &&& 0 <= a < b
    &&& events[order[a]].op is Put
    &&& forall|c: int| a < c < b ==> !(events[#[trigger] order[c]].op is Put)
}

/// What the operation at place `b` of the order returned is right: a put
/// succeeds, and a get returns the value, byte for byte, of the last put before
/// it, or none if there is none.
pub open spec fn is_right(events: Seq<EventView>, order: Seq<int>, b: int) -> bool {
    match (events[order[b]].op, events[order[b]].ret) {
        (OpView::Put { key, val }, RetView::PutOk) => true,
        (OpView::Get { key }, RetView::GetVal(Some(bytes))) => exists|a: int| #[trigger]
            put_last(events, order, a, b) && events[order[a]].op->val == bytes,
        (OpView::Get { key }, RetView::GetVal(None)) => forall|a: int|
            0 <= a < b ==> !(events[#[trigger] order[a]].op is Put),
        _ => false,
    }
}

/// An order of the operations on a key in which each returned what is right, and
/// none stands before one that had returned before it was called.
pub open spec fn puts_in_order(history: Seq<EventView>, key: Seq<u8>, order: Seq<int>) -> bool {
    &&& order.no_duplicates()
    &&& forall|i: int| #[trigger]
        order.contains(i) <==> 0 <= i < history.len() && concerns(history[i], key)
    &&& forall|a: int, b: int|
        0 <= a < b < order.len() ==> !(history[#[trigger] order[b]].complete
            < history[#[trigger] order[a]].invoke)
    &&& forall|b: int| 0 <= b < order.len() ==> #[trigger] is_right(history, order, b)
}

/// There is such an order.
pub open spec fn can_be_ordered(history: Seq<EventView>, key: Seq<u8>) -> bool {
    exists|order: Seq<int>| #[trigger] puts_in_order(history, key, order)
}

// ---- runs ----

/// What the register holds after the first `n` operations.
spec fn held(events: Seq<EventView>, order: Seq<int>, n: int) -> Option<Seq<u8>>
    decreases n,
{
    if n <= 0 {
        None
    } else {
        match events[order[n - 1]].op {
            OpView::Put { key, val } => Some(val),
            OpView::Get { key } => held(events, order, n - 1),
        }
    }
}

proof fn held_is_put(events: Seq<EventView>, order: Seq<int>, n: int)
    requires
        0 <= n,
    ensures
        held(events, order, n) is None <==> forall|a: int|
            0 <= a < n ==> !(events[#[trigger] order[a]].op is Put),
        forall|a: int| #[trigger]
            put_last(events, order, a, n) ==> held(events, order, n) == Some(
                events[order[a]].op->val,
            ),
        held(events, order, n) is Some ==> exists|a: int| #[trigger] put_last(events, order, a, n),
    decreases n,
{
    if n > 0 {
        held_is_put(events, order, n - 1);
        if events[order[n - 1]].op is Put {
            assert(put_last(events, order, n - 1, n));
            assert forall|a: int| #[trigger] put_last(events, order, a, n) implies held(
                events,
                order,
                n,
            ) == Some(events[order[a]].op->val) by {
                if a < n - 1 {
                    assert(!(events[order[n - 1]].op is Put));
                }
            }
        } else {
            assert forall|a: int| #[trigger] put_last(events, order, a, n) implies held(
                events,
                order,
                n,
            ) == Some(events[order[a]].op->val) by {
                assert(a != n - 1);
                assert(put_last(events, order, a, n - 1));
            }
            if held(events, order, n) is Some {
                let a = choose|a: int| #[trigger] put_last(events, order, a, n - 1);
                assert(put_last(events, order, a, n));
            }
        }
    }
}

/// What an operation returned is right if the register holds what it says.
proof fn right_is_held(events: Seq<EventView>, order: Seq<int>, b: int)
    requires
        0 <= b < order.len(),
    ensures
        is_right(events, order, b) <==> events[order[b]].applied(held(events, order, b)) is Ok,
        events[order[b]].applied(held(events, order, b)) matches Ok(next) ==> next == held(
            events,
            order,
            b + 1,
        ),
{
    held_is_put(events, order, b);
}

proof fn runs_from(events: Seq<EventView>, order: Seq<int>, n: int)
    requires
        0 <= n <= order.len(),
    ensures
        lincheck::runs(events, order.skip(n), held(events, order, n)) <==> forall|b: int|
            n <= b < order.len() ==> #[trigger] is_right(events, order, b),
    decreases order.len() - n,
{
    let rest = order.skip(n);
    if n < order.len() {
        runs_from(events, order, n + 1);
        right_is_held(events, order, n);
        assert(rest[0] == order[n]);
        assert(rest.skip(1) =~= order.skip(n + 1));
        if lincheck::runs(events, rest, held(events, order, n)) {
            assert(is_right(events, order, n));
        }
    }
}

/// Run in an order, every operation returns what it did return exactly if each
/// get returns the value of the last put before it, or none if there is none.
pub proof fn a_run_returns_what_was_put_last(events: Seq<EventView>, order: Seq<int>)
    ensures
        lincheck::runs(events, order, None) <==> forall|b: int|
            0 <= b < order.len() ==> #[trigger] is_right(events, order, b),
{
    runs_from(events, order, 0);
    assert(order.skip(0) =~= order);
}

// ---- histories ----

proof fn places(history: Seq<EventView>, key: Seq<u8>)
    ensures
        ({
            let at = lincheck::positions(history, key);
            &&& at.no_duplicates()
            &&& forall|i: int| #[trigger]
                at.contains(i) <==> 0 <= i < history.len() && concerns(history[i], key)
        }),
    decreases history.len(),
{
    let at = lincheck::positions(history, key);
    if history.len() > 0 {
        let before = history.drop_last();
        places(before, key);
        let was = lincheck::positions(before, key);
        assert forall|i: int| #[trigger] at.contains(i) <==> 0 <= i < history.len() && concerns(
            history[i],
            key,
        ) by {
            if 0 <= i < before.len() {
                assert(before[i] == history[i]);
            }
            if was.contains(i) {
                let k = choose|k: int| 0 <= k < was.len() && was[k] == i;
                assert(at[k] == i);
            }
            if at.contains(i) {
                let k = choose|k: int| 0 <= k < at.len() && at[k] == i;
                if k < was.len() {
                    assert(was[k] == i);
                }
            }
            if i == history.len() - 1 && concerns(history[i], key) {
                assert(at[at.len() - 1] == i);
            }
        }
        assert(at.no_duplicates()) by {
            assert forall|x: int, y: int| 0 <= x < y < at.len() implies at[x] != at[y] by {
                assert(was.contains(was[x]));
                if y < was.len() {
                    assert(was[x] != was[y]);
                }
            }
        }
    }
}

/// The same order, over the places in the history.
proof fn same_order(history: Seq<EventView>, key: Seq<u8>, order: Seq<int>, whole: Seq<int>)
    requires
        ({
            let at = lincheck::positions(history, key);
            &&& whole.len() == order.len()
            &&& forall|b: int|
                0 <= b < order.len() ==> 0 <= #[trigger] order[b] < at.len() && whole[b]
                    == at[order[b]]
        }),
    ensures
        forall|b: int|
            0 <= b < order.len() ==> lincheck::on_key(history, key)[#[trigger] order[b]]
                == history[whole[b]],
        forall|b: int|
            0 <= b < order.len() ==> (#[trigger] is_right(history, whole, b) <==> is_right(
                lincheck::on_key(history, key),
                order,
                b,
            )),
{
    let (at, events) = (lincheck::positions(history, key), lincheck::on_key(history, key));
    assert forall|b: int| 0 <= b < order.len() implies events[#[trigger] order[b]]
        == history[whole[b]] by {
        assert(events[order[b]] == history[at[order[b]]]);
    }
    assert forall|b: int| 0 <= b < order.len() implies (#[trigger] is_right(history, whole, b)
        <==> is_right(events, order, b)) by {
        assert(events[order[b]] == history[whole[b]]);
        assert forall|a: int| put_last(history, whole, a, b) == put_last(events, order, a, b) by {
            if 0 <= a < b {
                assert(events[order[a]] == history[whole[a]]);
            }
            if put_last(history, whole, a, b) {
                assert forall|c: int| a < c < b implies !(events[#[trigger] order[c]].op is Put) by {
                    assert(!(history[whole[c]].op is Put));
                }
            }
            if put_last(events, order, a, b) {
                assert forall|c: int| a < c < b implies !(
                history[#[trigger] whole[c]].op is Put) by {
                    assert(!(events[order[c]].op is Put));
                }
            }
        }
        if is_right(history, whole, b) {
            match history[whole[b]].ret {
                RetView::GetVal(Some(bytes)) => {
                    if history[whole[b]].op is Get {
                        let a = choose|a: int| #[trigger]
                            put_last(history, whole, a, b) && history[whole[a]].op->val == bytes;
                        assert(put_last(events, order, a, b));
                        assert(events[order[a]] == history[whole[a]]);
                    }
                },
                _ => {
                    assert forall|a: int| 0 <= a < b && !(history[whole[a]].op is Put) implies !(
                    events[#[trigger] order[a]].op is Put) by {}
                },
            }
        }
        if is_right(events, order, b) {
            match history[whole[b]].ret {
                RetView::GetVal(Some(bytes)) => {
                    if history[whole[b]].op is Get {
                        let a = choose|a: int| #[trigger]
                            put_last(events, order, a, b) && events[order[a]].op->val == bytes;
                        assert(put_last(history, whole, a, b));
                        assert(events[order[a]] == history[whole[a]]);
                    }
                },
                _ => {
                    assert forall|a: int| 0 <= a < b && !(events[order[a]].op is Put) implies !(
                    history[#[trigger] whole[a]].op is Put) by {}
                },
            }
        }
    }
}

proof fn explained_is_ordered(history: Seq<EventView>, key: Seq<u8>, order: Seq<int>) -> (whole:
    Seq<int>)
    requires
        lincheck::explains(
            lincheck::on_key(history, key),
            lincheck::nothing_done(lincheck::on_key(history, key).len()),
            None,
            order,
        ),
    ensures
        puts_in_order(history, key, whole),
{
    let (at, events) = (lincheck::positions(history, key), lincheck::on_key(history, key));
    places(history, key);
    let whole = Seq::new(order.len(), |b: int| at[order[b]]);
    assert forall|b: int| 0 <= b < order.len() implies 0 <= #[trigger] order[b] < at.len() by {
        assert(order.contains(order[b]));
    }
    same_order(history, key, order, whole);
    a_run_returns_what_was_put_last(events, order);
    assert forall|i: int| #[trigger] whole.contains(i) <==> 0 <= i < history.len() && concerns(
        history[i],
        key,
    ) by {
        if whole.contains(i) {
            let b = choose|b: int| 0 <= b < whole.len() && whole[b] == i;
            assert(at.contains(at[order[b]]));
        }
        if at.contains(i) {
            let k = choose|k: int| 0 <= k < at.len() && at[k] == i;
            assert(order.contains(k));
            let b = choose|b: int| 0 <= b < order.len() && order[b] == k;
            assert(whole[b] == i);
        }
    }
    assert(whole.no_duplicates()) by {
        assert forall|x: int, y: int| 0 <= x < y < whole.len() implies whole[x] != whole[y] by {
            assert(order[x] != order[y]);
        }
    }
    assert forall|b: int| 0 <= b < whole.len() implies #[trigger] is_right(history, whole, b) by {
        assert(is_right(events, order, b));
    }
    assert forall|a: int, b: int| 0 <= a < b < whole.len() implies !(
    history[#[trigger] whole[b]].complete < history[#[trigger] whole[a]].invoke) by {
        assert(events[order[a]] == history[whole[a]]);
        assert(events[order[b]] == history[whole[b]]);
    }
    whole
}

proof fn ordered_is_explained(history: Seq<EventView>, key: Seq<u8>, whole: Seq<int>)
    requires
        puts_in_order(history, key, whole),
    ensures
        lincheck::explicable(lincheck::on_key(history, key)),
{
    let (at, events) = (lincheck::positions(history, key), lincheck::on_key(history, key));
    places(history, key);
    let order = Seq::new(whole.len(), |b: int| at.index_of(whole[b]));
    assert forall|b: int| 0 <= b < order.len() implies 0 <= #[trigger] order[b] < at.len()
        && whole[b] == at[order[b]] by {
        assert(whole.contains(whole[b]));
        assert(at.contains(whole[b]));
    }
    same_order(history, key, order, whole);
    a_run_returns_what_was_put_last(events, order);
    let done = lincheck::nothing_done(events.len());
    assert(lincheck::lists_the_rest(done, order)) by {
        assert forall|x: int, y: int| 0 <= x < y < order.len() implies order[x] != order[y] by {
            assert(whole[x] != whole[y]);
        }
        assert forall|i: int| #[trigger] order.contains(i) <==> 0 <= i < done.len() && !done[i] by {
            if order.contains(i) {
                let b = choose|b: int| 0 <= b < order.len() && order[b] == i;
            }
            if 0 <= i < at.len() {
                assert(at.contains(at[i]));
                assert(whole.contains(at[i]));
                let b = choose|b: int| 0 <= b < whole.len() && whole[b] == at[i];
                assert(at[order[b]] == at[i]);
                assert(order[b] == i);
            }
        }
    }
    assert(lincheck::keeps_to_time(events, order)) by {
        assert forall|a: int, b: int| 0 <= a < b < order.len() implies events[#[trigger] order[b]].complete
            >= events[#[trigger] order[a]].invoke by {
            assert(events[order[a]] == history[whole[a]]);
            assert(events[order[b]] == history[whole[b]]);
            assert(!(history[whole[b]].complete < history[whole[a]].invoke));
        }
    }
    assert forall|b: int| 0 <= b < order.len() implies #[trigger] is_right(events, order, b) by {
        assert(is_right(history, whole, b));
    }
    assert(lincheck::explains(events, done, None, order));
}

proof fn order_and_explanation(history: Seq<EventView>, key: Seq<u8>)
    ensures
        can_be_ordered(history, key) == lincheck::explicable(lincheck::on_key(history, key)),
{
    let events = lincheck::on_key(history, key);
    if lincheck::explicable(events) {
        let order = choose|order: Seq<int>|
            lincheck::explains(events, lincheck::nothing_done(events.len()), None, order);
        let whole = explained_is_ordered(history, key, order);
        assert(puts_in_order(history, key, whole));
    }
    if can_be_ordered(history, key) {
        let order = choose|order: Seq<int>| #[trigger] puts_in_order(history, key, order);
        ordered_is_explained(history, key, order);
    }
}

/// A history is linearizable exactly if every operation was called before it
/// returned, and the operations on each key can be put in an order that no
/// operation stands in before one that had returned when it was called, and in
/// which every get returns, byte for byte, the value of the last put before it,
/// or none if there is none.
pub proof fn what_linearizable_means(history: Seq<EventView>)
    ensures
        lincheck::linearizable(history) <==> {
            &&& forall|i: int|
                0 <= i < history.len() ==> (#[trigger] history[i]).invoke < history[i].complete
            &&& forall|key: Seq<u8>| #[trigger] can_be_ordered(history, key)
        },
{
    assert forall|key: Seq<u8>| #[trigger] can_be_ordered(history, key) == lincheck::explicable(
        lincheck::on_key(history, key),
    ) by {
        order_and_explanation(history, key);
    }
    if lincheck::linearizable(history) {
        assert forall|i: int| 0 <= i < history.len() implies (#[trigger] history[i]).invoke
            < history[i].complete by {
            assert(history[i].valid());
        }
        assert forall|key: Seq<u8>| #[trigger] can_be_ordered(history, key) by {
            assert(lincheck::explicable(lincheck::on_key(history, key)));
        }
    }
    if forall|key: Seq<u8>| #[trigger] can_be_ordered(history, key) {
        assert forall|key: Seq<u8>| lincheck::explicable(
            #[trigger] lincheck::on_key(history, key),
        ) by {
            assert(can_be_ordered(history, key));
        }
    }
}

/// A history in which a get returns a value that no put on its key wrote is not
/// linearizable.
pub proof fn a_value_from_nowhere_is_found_out(history: Seq<EventView>, i: int, value: Seq<u8>)
    requires
        0 <= i < history.len(),
        history[i].op is Get,
        history[i].ret == RetView::GetVal(Some(value)),
        forall|j: int|
            0 <= j < history.len() && concerns(#[trigger] history[j], history[i].op->Get_key)
                && history[j].op is Put ==> history[j].op->val != value,
    ensures
        !lincheck::linearizable(history),
{
    what_linearizable_means(history);
    if lincheck::linearizable(history) {
        let key = history[i].op->Get_key;
        assert(can_be_ordered(history, key));
        let order = choose|order: Seq<int>| #[trigger] puts_in_order(history, key, order);
        assert(order.contains(i));
        let b = choose|b: int| 0 <= b < order.len() && order[b] == i;
        assert(is_right(history, order, b));
        let a = choose|a: int| #[trigger]
            put_last(history, order, a, b) && history[order[a]].op->val == value;
        assert(order.contains(order[a]));
    }
}

/// A history is not linearizable in which a get returns a value, though every put
/// of that value on its key had returned before another put was called that
/// returned before the get was called.
pub proof fn an_overwritten_value_is_found_out(
    history: Seq<EventView>,
    i: int,
    w: int,
    value: Seq<u8>,
)
    requires
        0 <= i < history.len(),
        0 <= w < history.len(),
        history[i].op is Get,
        history[i].ret == RetView::GetVal(Some(value)),
        history[w].op is Put,
        concerns(history[w], history[i].op->Get_key),
        history[w].complete < history[i].invoke,
        history[w].op->val != value,
        forall|j: int|
            0 <= j < history.len() && concerns(#[trigger] history[j], history[i].op->Get_key)
                && history[j].op is Put && history[j].op->val == value ==> history[j].complete
                < history[w].invoke,
    ensures
        !lincheck::linearizable(history),
{
    what_linearizable_means(history);
    if lincheck::linearizable(history) {
        let key = history[i].op->Get_key;
        assert(can_be_ordered(history, key));
        let order = choose|order: Seq<int>| #[trigger] puts_in_order(history, key, order);
        assert(order.contains(i) && order.contains(w));
        let b = choose|b: int| 0 <= b < order.len() && order[b] == i;
        let x = choose|x: int| 0 <= x < order.len() && order[x] == w;
        assert(is_right(history, order, b));
        let a = choose|a: int| #[trigger]
            put_last(history, order, a, b) && history[order[a]].op->val == value;
        assert(order.contains(order[a]));
        assert(history[order[a]].complete < history[w].invoke);
        assert(x < b) by {
            if b < x {
                assert(!(history[order[x]].complete < history[order[b]].invoke));
            }
        }
        assert(a < x) by {
            if x < a {
                assert(!(history[order[a]].complete < history[order[x]].invoke));
            }
        }
        assert(!(history[order[x]].op is Put));
    }
}

/// A history is not linearizable in which a get returns none, though a put on its
/// key had returned before it was called.
pub proof fn a_lost_put_is_found_out(history: Seq<EventView>, i: int, w: int)
    requires
        0 <= i < history.len(),
        0 <= w < history.len(),
        history[i].op is Get,
        history[i].ret == RetView::GetVal(None),
        history[w].op is Put,
        concerns(history[w], history[i].op->Get_key),
        history[w].complete < history[i].invoke,
    ensures
        !lincheck::linearizable(history),
{
    what_linearizable_means(history);
    if lincheck::linearizable(history) {
        let key = history[i].op->Get_key;
        assert(can_be_ordered(history, key));
        let order = choose|order: Seq<int>| #[trigger] puts_in_order(history, key, order);
        assert(order.contains(i) && order.contains(w));
        let b = choose|b: int| 0 <= b < order.len() && order[b] == i;
        let x = choose|x: int| 0 <= x < order.len() && order[x] == w;
        assert(is_right(history, order, b));
        if b < x {
            assert(!(history[order[x]].complete < history[order[b]].invoke));
        } else {
            assert(!(history[order[x]].op is Put));
        }
    }
}

/// The witness begins by naming the operation at `i`: its key, its place in the
/// history, and itself.
pub open spec fn names(history: Seq<EventView>, witness: Seq<char>, i: int) -> bool {
    &&& 0 <= i < history.len()
    &&& lincheck::blame_text(history, history[i].key(), i).is_prefix_of(witness)
}

/// What is said of a history that is not linearizable names one of its
/// operations: the first that returned before it was called, or else one on the
/// first key whose operations cannot be put in order.
pub proof fn a_witness_names_a_culprit(history: Seq<EventView>, witness: Seq<char>)
    requires
        lincheck::tells_why(history, witness),
    ensures
        exists|i: int|
            {
                &&& #[trigger] names(history, witness, i)
                &&& forall|j: int|
                    0 <= j < i && history[i].invoke >= history[i].complete ==> (
                    #[trigger] history[j]).invoke < history[j].complete
                &&& history[i].invoke < history[i].complete ==> {
                    &&& !can_be_ordered(history, history[i].key())
                    &&& forall|k: Seq<u8>|
                        types::precedes(k, history[i].key()) ==> #[trigger] can_be_ordered(
                            history,
                            k,
                        )
                }
            },
{
    if exists|i: int| lincheck::first_invalid(history, i) {
        let i = choose|i: int|
            #[trigger] lincheck::first_invalid(history, i) && witness == lincheck::interval_text(
                history,
                i,
            );
        assert forall|j: int| 0 <= j < i implies (#[trigger] history[j]).invoke
            < history[j].complete by {
            assert(history[j].valid());
        }
        assert(names(history, witness, i));
    } else {
        assert forall|i: int| 0 <= i < history.len() implies (#[trigger] history[i]).valid() by {
            if !history[i].valid() {
                a_first_invalid_exists(history, i);
            }
        }
        lincheck::the_judgement_is_exact(history);
        let key = choose|key: Seq<u8>| #[trigger]
            lincheck::first_failing(history, key) && match lincheck::judged(
                lincheck::on_key(history, key),
            ) {
                lincheck::Verdict::Fails(f) => witness == lincheck::contradiction_text(
                    history,
                    key,
                    lincheck::positions(history, key)[f.at],
                    f.reason,
                ),
                lincheck::Verdict::Fits => false,
            };
        let events = lincheck::on_key(history, key);
        lincheck::a_failure_names_an_operation(
            events,
            lincheck::nothing_done(events.len()),
            None,
            0,
        );
        lincheck::positions_are(history, key);
        let f = lincheck::judged(events)->Fails_0;
        let i = lincheck::positions(history, key)[f.at];
        assert(history[i].key() == key);
        assert forall|k: Seq<u8>| #[trigger] can_be_ordered(history, k) == lincheck::explicable(
            lincheck::on_key(history, k),
        ) by {
            order_and_explanation(history, k);
        }
        assert forall|k: Seq<u8>| types::precedes(k, key) implies #[trigger] can_be_ordered(
            history,
            k,
        ) by {
            assert(lincheck::judged(lincheck::on_key(history, k)) is Fits);
        }
        assert(names(history, witness, i));
    }
}

proof fn a_first_invalid_exists(history: Seq<EventView>, i: int)
    requires
        0 <= i < history.len(),
        !history[i].valid(),
    ensures
        exists|j: int| lincheck::first_invalid(history, j),
    decreases i,
{
    if exists|j: int| 0 <= j < i && !(#[trigger] history[j]).valid() {
        let j = choose|j: int| 0 <= j < i && !(#[trigger] history[j]).valid();
        a_first_invalid_exists(history, j);
    } else {
        assert(lincheck::first_invalid(history, i));
    }
}

} // verus!
