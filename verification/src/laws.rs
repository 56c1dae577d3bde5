//! The engine's guarantees, stated and proved over the abstract trie.
//!
//! Everything here is phrased in terms of the same spec functions that the
//! executable functions' contracts use: `register_from` for what `register`
//! builds, `run` for a sequence of `map_cont` steps, and `resolve` for
//! `map_final`.

use vstd::prelude::*;

use crate::input::Input;
use crate::keys::{Action, KeyMapView, Modifier, StateView};

verus! {

/// Failure is absorbing: however a cursor died, any further sequence of
/// steps leaves it dead, and the terminal step on it yields nothing, for
/// any arguments.
pub proof fn lemma_dead_absorbing(v: KeyMapView, steps: Seq<(Modifier, Action)>, action: Action)
    ensures
        v.run(None, steps) == None::<int>,
        v.resolve(None, action) == None::<Input>,
    decreases steps.len(),
{
    if steps.len() > 0 {
        lemma_dead_absorbing(v, steps.drop_first(), action);
    }
}

/// Registration touches only the state it starts from and the brand-new
/// states it allocates: every other existing state keeps its tables, and
/// the start state changes in exactly one entry.
proof fn lemma_register_from_frame(
    v: KeyMapView,
    from: int,
    prefix: Seq<(Modifier, Action)>,
    terminal: Action,
    input: Input,
)
    requires
        0 <= from < v.states.len(),
    ensures
        ({
            let w = v.register_from(from, prefix, terminal, input);
            &&& w.states.len() == v.states.len() + prefix.len()
            &&& forall|j: int|
                0 <= j < v.states.len() && j != from ==> w.states[j] == v.states[j]
            &&& (prefix.len() == 0 ==> w.states[from] == v.states[from].with_fin(terminal, input))
            &&& (prefix.len() > 0 ==> w.states[from] == v.states[from].with_cont(
                prefix[0].0,
                prefix[0].1,
                v.states.len() as int,
            ))
        }),
    decreases prefix.len(),
{
    if prefix.len() > 0 {
        let fresh = v.states.len() as int;
        let grown = KeyMapView {
            states: v.states.update(
                from,
                v.states[from].with_cont(prefix[0].0, prefix[0].1, fresh),
            ).push(StateView::empty()),
        };
        lemma_register_from_frame(grown, fresh, prefix.drop_first(), terminal, input);
    }
}

/// The heart of the round trip: after registering a chord from some
/// state, running exactly its prefix from that state lands on the state
/// that received the terminal entry, and that state's terminal table
/// holds the registered identifier under the terminal key symbol.
proof fn lemma_register_from_resolves(
    v: KeyMapView,
    from: int,
    prefix: Seq<(Modifier, Action)>,
    terminal: Action,
    input: Input,
)
    requires
        0 <= from < v.states.len(),
    ensures
        ({
            let w = v.register_from(from, prefix, terminal, input);
            let end = if prefix.len() == 0 {
                from
            } else {
                v.states.len() + prefix.len() - 1
            };
            &&& w.states.len() == v.states.len() + prefix.len()
            &&& w.run(Some(from), prefix) == Some(end)
            &&& 0 <= end < w.states.len()
            &&& w.states[end].fin == (if prefix.len() == 0 {
                v.states[from].fin
            } else {
                Map::<Action, Input>::empty()
            }).insert(terminal, input)
        }),
    decreases prefix.len(),
{
    let w = v.register_from(from, prefix, terminal, input);
    if prefix.len() > 0 {
        let m = prefix[0].0;
        let a = prefix[0].1;
        let fresh = v.states.len() as int;
        let grown = KeyMapView {
            states: v.states.update(from, v.states[from].with_cont(m, a, fresh)).push(
                StateView::empty(),
            ),
        };
        lemma_register_from_resolves(grown, fresh, prefix.drop_first(), terminal, input);
        lemma_register_from_frame(grown, fresh, prefix.drop_first(), terminal, input);
        assert(w.states[from] == grown.states[from]);
        assert(grown.states[from].cont(m) == v.states[from].cont(m).insert(a, fresh));
        assert(w.step(Some(from), m, a) == Some(fresh));
        assert(w.run(Some(from), prefix) == w.run(Some(fresh), prefix.drop_first()));
        assert(grown.states[fresh].fin == Map::<Action, Input>::empty());
    }
}

/// Registration keeps the trie well-formed: the root survives and every
/// continuation entry still points strictly forward into the trie.
proof fn lemma_register_from_wf(
    v: KeyMapView,
    from: int,
    prefix: Seq<(Modifier, Action)>,
    terminal: Action,
    input: Input,
)
    requires
        v.wf(),
        0 <= from < v.states.len(),
    ensures
        v.register_from(from, prefix, terminal, input).wf(),
    decreases prefix.len(),
{
    let w = v.register_from(from, prefix, terminal, input);
    if prefix.len() == 0 {
        assert forall|j: int, a: Action|
            0 <= j < w.states.len() && #[trigger] w.states[j].ctrl.contains_key(a) implies j
            < w.states[j].ctrl[a] < w.states.len() by {
            assert(w.states[j].ctrl == v.states[j].ctrl);
            assert(v.states[j].ctrl.contains_key(a));
        }
        assert forall|j: int, a: Action|
            0 <= j < w.states.len() && #[trigger] w.states[j].meta.contains_key(a) implies j
            < w.states[j].meta[a] < w.states.len() by {
            assert(w.states[j].meta == v.states[j].meta);
            assert(v.states[j].meta.contains_key(a));
        }
    } else {
        let m = prefix[0].0;
        let a = prefix[0].1;
        let fresh = v.states.len() as int;
        let grown = KeyMapView {
            states: v.states.update(from, v.states[from].with_cont(m, a, fresh)).push(
                StateView::empty(),
            ),
        };
        assert forall|j: int, b: Action|
            0 <= j < grown.states.len() && #[trigger] grown.states[j].ctrl.contains_key(b) implies j
            < grown.states[j].ctrl[b] < grown.states.len() by {
            if j < v.states.len() && !(j == from && m is C && b == a) {
                assert(v.states[j].ctrl.contains_key(b));
            }
        }
        assert forall|j: int, b: Action|
            0 <= j < grown.states.len() && #[trigger] grown.states[j].meta.contains_key(b) implies j
            < grown.states[j].meta[b] < grown.states.len() by {
            if j < v.states.len() && !(j == from && m is M && b == a) {
                assert(v.states[j].meta.contains_key(b));
            }
        }
        lemma_register_from_wf(grown, fresh, prefix.drop_first(), terminal, input);
    }
}

/// Two tries that agree on every state above the root drive a cursor
/// standing above the root identically, and such a run never comes back
/// down to the root, because continuation entries point strictly forward.
proof fn lemma_run_high(v: KeyMapView, w: KeyMapView, s: int, steps: Seq<(Modifier, Action)>)
    requires
        v.wf(),
        w.states.len() >= v.states.len(),
        forall|j: int| 0 < j < v.states.len() ==> w.states[j] == v.states[j],
        0 < s < v.states.len(),
    ensures
        w.run(Some(s), steps) == v.run(Some(s), steps),
        v.run(Some(s), steps) matches Some(e) ==> 0 < e < v.states.len(),
    decreases steps.len(),
{
    if steps.len() > 0 {
        let m = steps[0].0;
        let a = steps[0].1;
        if v.states[s].cont(m).contains_key(a) {
            let e1 = v.states[s].cont(m)[a];
            if m is C {
                assert(v.states[s].ctrl.contains_key(a));
            } else {
                assert(v.states[s].meta.contains_key(a));
            }
            assert(s < e1 < v.states.len());
            assert(w.step(Some(s), m, a) == Some(e1));
            lemma_run_high(v, w, e1, steps.drop_first());
        } else {
            assert(v.step(Some(s), m, a) == None::<int>);
            assert(w.step(Some(s), m, a) == None::<int>);
            lemma_dead_absorbing(v, steps.drop_first(), a);
            lemma_dead_absorbing(w, steps.drop_first(), a);
        }
    }
}

/// Registering one chord leaves the outcome of any other attempt intact,
/// provided the two do not share a first prefix step, and, when both
/// prefixes are empty, do not share the terminal key symbol.
proof fn lemma_register_preserves_other(
    v: KeyMapView,
    prefix2: Seq<(Modifier, Action)>,
    terminal2: Action,
    input2: Input,
    prefix1: Seq<(Modifier, Action)>,
    terminal1: Action,
)
    requires
        v.wf(),
        !(prefix1.len() > 0 && prefix2.len() > 0 && prefix1[0] == prefix2[0]),
        !(prefix1.len() == 0 && prefix2.len() == 0 && terminal1 == terminal2),
    ensures
        ({
            let w = v.register_from(0, prefix2, terminal2, input2);
            w.resolve(w.run(Some(0), prefix1), terminal1) == v.resolve(
                v.run(Some(0), prefix1),
                terminal1,
            )
        }),
{
    let w = v.register_from(0, prefix2, terminal2, input2);
    lemma_register_from_frame(v, 0, prefix2, terminal2, input2);
    if prefix1.len() == 0 {
        assert(w.states[0].fin.contains_key(terminal1) == v.states[0].fin.contains_key(terminal1));
        assert(w.states[0].fin.contains_key(terminal1) ==> w.states[0].fin[terminal1]
            == v.states[0].fin[terminal1]);
    } else {
        let m = prefix1[0].0;
        let a = prefix1[0].1;
        assert(w.states[0].cont(m).contains_key(a) == v.states[0].cont(m).contains_key(a));
        assert(w.states[0].cont(m).contains_key(a) ==> w.states[0].cont(m)[a] == v.states[0].cont(
            m,
        )[a]);
        if v.states[0].cont(m).contains_key(a) {
            let e1 = v.states[0].cont(m)[a];
            if m is C {
                assert(v.states[0].ctrl.contains_key(a));
            } else {
                assert(v.states[0].meta.contains_key(a));
            }
            assert(0 < e1 < v.states.len());
            assert(v.step(Some(0), m, a) == Some(e1));
            assert(w.step(Some(0), m, a) == Some(e1));
            lemma_run_high(v, w, e1, prefix1.drop_first());
            match v.run(Some(e1), prefix1.drop_first()) {
                Some(e) => {
                    assert(w.states[e] == v.states[e]);
                },
                None => {
                },
            }
        } else {
            assert(v.step(Some(0), m, a) == None::<int>);
            assert(w.step(Some(0), m, a) == None::<int>);
            lemma_dead_absorbing(v, prefix1.drop_first(), a);
            lemma_dead_absorbing(w, prefix1.drop_first(), a);
        }
    }
}

/// Round trip: registering a chord and then feeding exactly its prefix to
/// a fresh cursor, step by step, and finishing with its terminal key
/// symbol yields exactly the registered identifier.
pub proof fn lemma_round_trip(
    v: KeyMapView,
    prefix: Seq<(Modifier, Action)>,
    terminal: Action,
    input: Input,
)
    requires
        v.states.len() >= 1,
    ensures
        ({
            let w = v.register_from(0, prefix, terminal, input);
            w.resolve(w.run(Some(0), prefix), terminal) == Some(input)
        }),
{
    lemma_register_from_resolves(v, 0, prefix, terminal, input);
}

/// Empty prefix: a chord with no prefix steps registers its terminal
/// entry at the root, so a fresh cursor resolves it with no steps at all.
pub proof fn lemma_empty_prefix(v: KeyMapView, terminal: Action, input: Input)
    requires
        v.states.len() >= 1,
    ensures
        ({
            let w = v.register_from(0, Seq::<(Modifier, Action)>::empty(), terminal, input);
            w.resolve(Some(0), terminal) == Some(input)
        }),
{
    lemma_round_trip(v, Seq::<(Modifier, Action)>::empty(), terminal, input);
}

/// Disjoint independence: two chords that do not share a first prefix
/// step (and, when both prefixes are empty, differ in their terminal key
/// symbol) are both resolvable after registering first one, then the
/// other; the requirement is symmetric, so registration order does not
/// matter.
pub proof fn lemma_disjoint_independence(
    v: KeyMapView,
    prefix1: Seq<(Modifier, Action)>,
    terminal1: Action,
    input1: Input,
    prefix2: Seq<(Modifier, Action)>,
    terminal2: Action,
    input2: Input,
)
    requires
        v.wf(),
        !(prefix1.len() > 0 && prefix2.len() > 0 && prefix1[0] == prefix2[0]),
        !(prefix1.len() == 0 && prefix2.len() == 0 && terminal1 == terminal2),
    ensures
        ({
            let v1 = v.register_from(0, prefix1, terminal1, input1);
            let v2 = v1.register_from(0, prefix2, terminal2, input2);
            &&& v2.resolve(v2.run(Some(0), prefix1), terminal1) == Some(input1)
            &&& v2.resolve(v2.run(Some(0), prefix2), terminal2) == Some(input2)
        }),
{
    let v1 = v.register_from(0, prefix1, terminal1, input1);
    lemma_register_from_resolves(v, 0, prefix1, terminal1, input1);
    lemma_register_from_wf(v, 0, prefix1, terminal1, input1);
    lemma_register_preserves_other(v1, prefix2, terminal2, input2, prefix1, terminal1);
    lemma_register_from_resolves(v1, 0, prefix2, terminal2, input2);
}

/// Prefix overwrite, documented rather than fixed: registering a second
/// chord with the same non-empty prefix reallocates the whole prefix
/// path, so the first chord's terminal entry is orphaned and its attempt
/// now resolves to nothing (its terminal differing from the second's).
pub proof fn lemma_prefix_overwrite(
    v: KeyMapView,
    prefix: Seq<(Modifier, Action)>,
    terminal_a: Action,
    input_a: Input,
    terminal_b: Action,
    input_b: Input,
)
    requires
        v.states.len() >= 1,
        prefix.len() > 0,
        terminal_a != terminal_b,
    ensures
        ({
            let v1 = v.register_from(0, prefix, terminal_a, input_a);
            let v2 = v1.register_from(0, prefix, terminal_b, input_b);
            v2.resolve(v2.run(Some(0), prefix), terminal_a) == None::<Input>
        }),
{
    let v1 = v.register_from(0, prefix, terminal_a, input_a);
    lemma_register_from_resolves(v, 0, prefix, terminal_a, input_a);
    lemma_register_from_resolves(v1, 0, prefix, terminal_b, input_b);
}

} // verus!
