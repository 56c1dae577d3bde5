use vstd::prelude::*;

verus! {

/// A modifier key held down together with a key symbol during a
/// non-terminal chord step.
#[derive(Clone, Copy)]
pub enum Modifier {
    C,
    M,
}

/// A key symbol: a printable character or one of a small closed set of
/// special keys.
#[derive(Clone, Copy, PartialEq, Eq, Structural)]
pub enum Action {
    Char(char),
    Tab,
    Esc,
    F(u8),
    Backspace,
    Del,
    Home,
    End,
    Insert,
    PgUp,
    PgDown,
    Up,
    Down,
    Left,
    Right,
}

/// The mathematical contents of an entry list: later entries overwrite
/// earlier ones, so the list folds into a finite map, last write winning.
spec fn map_of<Item>(entries: Seq<(Action, Item)>) -> Map<Action, Item>
    decreases entries.len(),
{
    if entries.len() == 0 {
        Map::empty()
    } else {
        map_of(entries.drop_last()).insert(entries.last().0, entries.last().1)
    }
}

/// A finite transition table from key symbols to values, with unique keys.
///
/// The trie stores two of these per state for continuations (values are
/// state handles) and one for terminal resolution (values are resolved
/// identifiers).
pub struct ActionMap<Item: Copy> {
    entries: Vec<(Action, Item)>,
}

impl<Item: Copy> ActionMap<Item> {
    /// Each key occurs in at most one entry.
    pub closed spec fn wf(self) -> bool {
        forall|i: int, j: int|
            0 <= i < j < self.entries@.len() ==> (#[trigger] self.entries@[i]).0 != (
            #[trigger] self.entries@[j]).0
    }

    pub closed spec fn view(self) -> Map<Action, Item> {
        map_of(self.entries@)
    }

    /// With unique keys, the folded map holds exactly the listed entries.
    proof fn lemma_map_of_entries(entries: Seq<(Action, Item)>)
        requires
            forall|i: int, j: int|
                0 <= i < j < entries.len() ==> (#[trigger] entries[i]).0 != (
                #[trigger] entries[j]).0,
        ensures
            forall|a: Action|
                #[trigger] map_of(entries).contains_key(a) <==> exists|i: int|
                    0 <= i < entries.len() && (#[trigger] entries[i]).0 == a,
            forall|i: int|
                0 <= i < entries.len() ==> map_of(entries)[(#[trigger] entries[i]).0]
                    == entries[i].1,
        decreases entries.len(),
    {
        if entries.len() > 0 {
            let rest = entries.drop_last();
            Self::lemma_map_of_entries(rest);
            assert forall|a: Action| #[trigger] map_of(entries).contains_key(a) implies exists|
                i: int,
            | 0 <= i < entries.len() && (#[trigger] entries[i]).0 == a by {
                if entries.last().0 == a {
                    assert(0 <= entries.len() - 1 < entries.len() && entries[entries.len()
                        - 1].0 == a);
                } else {
                    assert(map_of(rest).contains_key(a));
                    let i = choose|i: int| 0 <= i < rest.len() && (#[trigger] rest[i]).0 == a;
                    assert(rest[i] == entries[i]);
                    assert(0 <= i < entries.len() && entries[i].0 == a);
                }
            }
            assert forall|a: Action|
                (exists|i: int| 0 <= i < entries.len() && (#[trigger] entries[i]).0 == a) implies
                #[trigger] map_of(entries).contains_key(a) by {
                let i = choose|i: int| 0 <= i < entries.len() && (#[trigger] entries[i]).0 == a;
                if i < entries.len() - 1 {
                    assert(rest[i] == entries[i]);
                    assert(map_of(rest).contains_key(a));
                }
            }
            assert forall|i: int| 0 <= i < entries.len() implies map_of(entries)[(
            #[trigger] entries[i]).0] == entries[i].1 by {
                if i < entries.len() - 1 {
                    assert(rest[i] == entries[i]);
                    assert(map_of(rest)[entries[i].0] == entries[i].1);
                    assert(entries[i].0 != entries.last().0);
                }
            }
        }
    }

    /// Looks a key up; returns the stored value, copied, if the key is
    /// present, else nothing.
    pub fn get(&self, key: Action) -> (r: Option<Item>)
        requires
            self.wf(),
        ensures
            r == if self@.contains_key(key) {
                Some(self@[key])
            } else {
                None::<Item>
            },
    {
        proof {
            Self::lemma_map_of_entries(self.entries@);
        }
        let n = self.entries.len();
        let mut i: usize = 0;
        while i < n
            invariant
                i <= n,
                n == self.entries@.len(),
                self.wf(),
                self@ == map_of(self.entries@),
                forall|j: int| 0 <= j < i ==> (#[trigger] self.entries@[j]).0 != key,
                forall|a: Action|
                    #[trigger] map_of(self.entries@).contains_key(a) <==> exists|j: int|
                        0 <= j < self.entries@.len() && (#[trigger] self.entries@[j]).0 == a,
                forall|j: int|
                    0 <= j < self.entries@.len() ==> map_of(self.entries@)[(
                    #[trigger] self.entries@[j]).0] == self.entries@[j].1,
            decreases n - i,
        {
            if self.entries[i].0 == key {
                return Some(self.entries[i].1);
            }
            i += 1;
        }
        None
    }

    /// Stores a value for a key, overwriting any previous value for that
    /// key unconditionally: last write wins.
    pub fn insert(&mut self, key: Action, value: Item)
        requires
            old(self).wf(),
        ensures
            final(self).wf(),
            final(self)@ == old(self)@.insert(key, value),
    {
        let n = self.entries.len();
        let mut i: usize = 0;
        while i < n
            invariant
                i <= n,
                n == self.entries@.len(),
                self.wf(),
                *self == *old(self),
                forall|j: int| 0 <= j < i ==> (#[trigger] self.entries@[j]).0 != key,
            decreases n - i,
        {
            if self.entries[i].0 == key {
                self.entries[i] = (key, value);
                proof {
                    Self::lemma_map_of_overwrite(old(self).entries@, i as int, value);
                }
                return ;
            }
            i += 1;
        }
        self.entries.push((key, value));
        proof {
            assert(self.entries@.drop_last() =~= old(self).entries@);
            assert(final(self)@ == old(self)@.insert(key, value));
        }
    }

    /// Rewriting the one entry that holds a key folds to a plain insert.
    proof fn lemma_map_of_overwrite(entries: Seq<(Action, Item)>, i: int, value: Item)
        requires
            forall|p: int, q: int|
                0 <= p < q < entries.len() ==> (#[trigger] entries[p]).0 != (
                #[trigger] entries[q]).0,
            0 <= i < entries.len(),
        ensures
            map_of(entries.update(i, (entries[i].0, value))) == map_of(entries).insert(
                entries[i].0,
                value,
            ),
        decreases entries.len(),
    {
        let key = entries[i].0;
        let updated = entries.update(i, (key, value));
        if i == entries.len() - 1 {
            assert(updated.drop_last() =~= entries.drop_last());
            assert(map_of(updated) == map_of(entries.drop_last()).insert(key, value));
            assert(map_of(entries).insert(key, value) =~= map_of(entries.drop_last()).insert(
                key,
                value,
            ));
        } else {
            assert(updated.drop_last() =~= entries.drop_last().update(i, (key, value)));
            assert(updated.last() == entries.last());
            assert(entries.drop_last()[i] == entries[i]);
            Self::lemma_map_of_overwrite(entries.drop_last(), i, value);
            assert(key != entries.last().0);
            assert(map_of(entries.drop_last()).insert(key, value).insert(
                entries.last().0,
                entries.last().1,
            ) =~= map_of(entries.drop_last()).insert(entries.last().0, entries.last().1).insert(
                key,
                value,
            ));
        }
    }

    /// Constructs a table with no entries.
    pub fn new() -> (r: ActionMap<Item>)
        ensures
            r.wf(),
            r@ == Map::<Action, Item>::empty(),
    {
        ActionMap { entries: Vec::new() }
    }
}

/// A declarative description of one chord: an ordered sequence of
/// (modifier, key symbol) prefix steps followed by exactly one unmodified
/// terminal key symbol.
pub struct Combination {
    pub modifiers: Vec<(Modifier, Action)>,
    pub final_action: Action,
}

/// The mathematical content of one trie state: a continuation table per
/// modifier and one terminal table. Continuation targets are state indices.
#[verifier::ext_equal]
pub struct StateView {
    pub ctrl: Map<Action, int>,
    pub meta: Map<Action, int>,
    pub fin: Map<Action, crate::input::Input>,
}

impl StateView {
    /// The continuation table that a given modifier selects.
    pub open spec fn cont(self, modifier: Modifier) -> Map<Action, int> {
        match modifier {
            Modifier::C => self.ctrl,
            Modifier::M => self.meta,
        }
    }

    /// A state with all three tables empty, as allocation produces it.
    pub open spec fn empty() -> StateView {
        StateView { ctrl: Map::empty(), meta: Map::empty(), fin: Map::empty() }
    }

    /// This state with one continuation entry added under the given
    /// modifier's table.
    pub open spec fn with_cont(self, modifier: Modifier, action: Action, target: int) -> StateView {
        match modifier {
            Modifier::C => StateView { ctrl: self.ctrl.insert(action, target), ..self },
            Modifier::M => StateView { meta: self.meta.insert(action, target), ..self },
        }
    }

    /// This state with one terminal entry added.
    pub open spec fn with_fin(self, action: Action, input: crate::input::Input) -> StateView {
        StateView { fin: self.fin.insert(action, input), ..self }
    }
}

/// The mathematical content of a whole trie: its states, root at index 0.
#[verifier::ext_equal]
pub struct KeyMapView {
    pub states: Seq<StateView>,
}

impl KeyMapView {
    /// The root exists and every continuation entry points past its own
    /// state to a state inside the trie. Registration only ever wires a
    /// state to states allocated after it, so edges strictly increase.
    pub open spec fn wf(self) -> bool {
        &&& self.states.len() >= 1
        &&& forall|j: int, a: Action|
            0 <= j < self.states.len() && #[trigger] self.states[j].ctrl.contains_key(a) ==> j
                < self.states[j].ctrl[a] < self.states.len()
        &&& forall|j: int, a: Action|
            0 <= j < self.states.len() && #[trigger] self.states[j].meta.contains_key(a) ==> j
                < self.states[j].meta[a] < self.states.len()
    }

    /// What registering a chord does, step by step, starting at `from`:
    /// each prefix step allocates a brand-new empty state and overwrites
    /// the current state's continuation entry to point at it; the terminal
    /// entry lands in the last state reached.
    pub open spec fn register_from(
        self,
        from: int,
        prefix: Seq<(Modifier, Action)>,
        terminal: Action,
        input: crate::input::Input,
    ) -> KeyMapView
        decreases prefix.len(),
    {
        if prefix.len() == 0 {
            KeyMapView { states: self.states.update(from, self.states[from].with_fin(terminal, input)) }
        } else {
            let fresh = self.states.len() as int;
            let grown = KeyMapView {
                states: self.states.update(
                    from,
                    self.states[from].with_cont(prefix[0].0, prefix[0].1, fresh),
                ).push(StateView::empty()),
            };
            grown.register_from(fresh, prefix.drop_first(), terminal, input)
        }
    }

    /// One cursor step: from a live position, follow the continuation
    /// entry for the given step, or die when there is none. A dead
    /// position stays dead.
    pub open spec fn step(self, cur: Option<int>, modifier: Modifier, action: Action) -> Option<
        int,
    > {
        match cur {
            Some(s) => if 0 <= s < self.states.len() && self.states[s].cont(modifier).contains_key(
                action,
            ) {
                Some(self.states[s].cont(modifier)[action])
            } else {
                None
            },
            None => None,
        }
    }

    /// A whole sequence of cursor steps, in order.
    pub open spec fn run(self, cur: Option<int>, steps: Seq<(Modifier, Action)>) -> Option<int>
        decreases steps.len(),
    {
        if steps.len() == 0 {
            cur
        } else {
            self.run(self.step(cur, steps[0].0, steps[0].1), steps.drop_first())
        }
    }

    /// The terminal step: from a live position, the terminal table's entry
    /// for the action, if any; from a dead position, nothing.
    pub open spec fn resolve(self, cur: Option<int>, action: Action) -> Option<
        crate::input::Input,
    > {
        match cur {
            Some(s) => if 0 <= s < self.states.len() && self.states[s].fin.contains_key(action) {
                Some(self.states[s].fin[action])
            } else {
                None
            },
            None => None,
        }
    }
}

/// A handle into the continuation-table arena.
#[derive(Clone, Copy)]
struct ActionMapId(usize);

/// A handle into the terminal-table arena.
#[derive(Clone, Copy)]
struct LeafActionMapId(usize);

/// A handle into the state arena.
#[derive(Clone, Copy, PartialEq, Eq, Structural)]
pub struct KeyStateId(pub usize);

impl Default for KeyStateId {
    /// The root state's handle.
    fn default() -> (r: KeyStateId)
        ensures
            r.0 == 0,
    {
        KeyStateId(0)
    }
}

/// One trie state: handles to its two continuation tables and its
/// terminal table, all owned exclusively by this state.
struct KeyState {
    meta_cont: ActionMapId,
    ctrl_cont: ActionMapId,
    final_cont: LeafActionMapId,
}

/// The trie store: three parallel arenas addressed by small stable
/// handles. State 0 is the root; handles are never removed or reused.
pub struct KeyMap {
    action_maps: Vec<ActionMap<KeyStateId>>,
    leaf_action_maps: Vec<ActionMap<crate::input::Input>>,
    key_states: Vec<KeyState>,
}

/// A continuation table's contents with the state handles read as plain
/// state indices.
spec fn targets_of(m: Map<Action, KeyStateId>) -> Map<Action, int> {
    m.map_values(|id: KeyStateId| id.0 as int)
}

/// Adding one entry to a continuation table commutes with reading the
/// table as an index-valued map.
proof fn lemma_targets_of_insert(m: Map<Action, KeyStateId>, action: Action, id: KeyStateId)
    ensures
        targets_of(m.insert(action, id)) == targets_of(m).insert(action, id.0 as int),
{
    assert(targets_of(m.insert(action, id)) =~= targets_of(m).insert(action, id.0 as int));
}

/// An empty continuation table reads as an empty index-valued map.
proof fn lemma_targets_of_empty()
    ensures
        targets_of(Map::<Action, KeyStateId>::empty()) == Map::<Action, int>::empty(),
{
    assert(targets_of(Map::<Action, KeyStateId>::empty()) =~= Map::<Action, int>::empty());
}

impl KeyMap {
    /// The tables that state `j` owns, read off as one abstract state.
    closed spec fn state_view(self, j: int) -> StateView {
        StateView {
            ctrl: targets_of(self.action_maps@[self.key_states@[j].ctrl_cont.0 as int]@),
            meta: targets_of(self.action_maps@[self.key_states@[j].meta_cont.0 as int]@),
            fin: self.leaf_action_maps@[self.key_states@[j].final_cont.0 as int]@,
        }
    }

    /// Every state owns exactly one control, one meta and one terminal
    /// table, allocated with the state and shared with no other state;
    /// the arenas hold nothing else, each table's keys are unique, and
    /// the abstract trie is well-formed.
    pub closed spec fn wf(self) -> bool {
        &&& self.key_states@.len() >= 1
        &&& self.action_maps@.len() == 2 * self.key_states@.len()
        &&& self.leaf_action_maps@.len() == self.key_states@.len()
        &&& self.key_states@[0].meta_cont.0 == 0
        &&& self.key_states@[0].ctrl_cont.0 == 1
        &&& self.key_states@[0].final_cont.0 == 0
        &&& forall|j: int|
            1 <= j < self.key_states@.len() ==> (#[trigger] self.key_states@[j]).ctrl_cont.0 == 2
                * j && self.key_states@[j].meta_cont.0 == 2 * j + 1
                && self.key_states@[j].final_cont.0 == j
        &&& forall|i: int| 0 <= i < self.action_maps@.len() ==> (#[trigger] self.action_maps@[i]).wf()
        &&& forall|i: int|
            0 <= i < self.leaf_action_maps@.len() ==> (#[trigger] self.leaf_action_maps@[i]).wf()
        &&& self@.wf()
    }
}

impl View for KeyMap {
    type V = KeyMapView;

    closed spec fn view(&self) -> KeyMapView {
        KeyMapView {
            states: Seq::new(self.key_states@.len(), |j: int| self.state_view(j)),
        }
    }
}

impl KeyMap {
    /// Constructs a trie holding only the root state, with all its tables
    /// empty: nothing is registered, so nothing resolves.
    pub fn new() -> (r: KeyMap)
        ensures
            r.wf(),
            r@.states =~= seq![StateView::empty()],
    {
        let mut action_maps: Vec<ActionMap<KeyStateId>> = Vec::new();
        action_maps.push(ActionMap::new());
        action_maps.push(ActionMap::new());
        let mut leaf_action_maps: Vec<ActionMap<crate::input::Input>> = Vec::new();
        leaf_action_maps.push(ActionMap::new());
        let mut key_states: Vec<KeyState> = Vec::new();
        key_states.push(
            KeyState {
                meta_cont: ActionMapId(0),
                ctrl_cont: ActionMapId(1),
                final_cont: LeafActionMapId(0),
            },
        );
        let r = KeyMap { action_maps, leaf_action_maps, key_states };
        proof {
            lemma_targets_of_empty();
            assert(r.state_view(0) =~= StateView::empty());
            assert(r@.states =~= seq![StateView::empty()]);
        }
        r
    }

    /// Allocates a brand-new state with fresh, empty tables and returns
    /// its handle; every existing state is left exactly as it was.
    fn new_state(&mut self) -> (id: KeyStateId)
        requires
            old(self).wf(),
        ensures
            final(self).wf(),
            id.0 == old(self)@.states.len(),
            id.0 < final(self).key_states@.len(),
            final(self)@.states =~= old(self)@.states.push(StateView::empty()),
            final(self).key_states@.len() == old(self).key_states@.len() + 1,
            final(self).action_maps@.len() == old(self).action_maps@.len() + 2,
            final(self).leaf_action_maps@.len() == old(self).leaf_action_maps@.len() + 1,
            forall|k: int|
                0 <= k < old(self).action_maps@.len() ==> final(self).action_maps@[k] == old(
                    self,
                ).action_maps@[k],
            forall|k: int|
                0 <= k < old(self).leaf_action_maps@.len() ==> final(self).leaf_action_maps@[k]
                    == old(self).leaf_action_maps@[k],
            forall|k: int|
                0 <= k < old(self).key_states@.len() ==> final(self).key_states@[k] == old(
                    self,
                ).key_states@[k],
    {
        self.action_maps.push(ActionMap::new());
        self.action_maps.push(ActionMap::new());
        self.leaf_action_maps.push(ActionMap::new());
        let meta_id = self.action_maps.len() - 1;
        let ctrl_id = self.action_maps.len() - 2;
        let leaf_id = self.leaf_action_maps.len() - 1;
        self.key_states.push(
            KeyState {
                meta_cont: ActionMapId(meta_id),
                ctrl_cont: ActionMapId(ctrl_id),
                final_cont: LeafActionMapId(leaf_id),
            },
        );
        let id = KeyStateId(self.key_states.len() - 1);
        proof {
            let n = old(self).key_states@.len() as int;
            lemma_targets_of_empty();
            assert(self.state_view(n) =~= StateView::empty());
            assert forall|j: int| 0 <= j < n implies self.state_view(j) == old(self).state_view(
                j,
            ) by {
                assert(self.key_states@[j] == old(self).key_states@[j]);
            }
            assert(final(self)@.states =~= old(self)@.states.push(StateView::empty()));
            assert(final(self).wf());
        }
        id
    }

    /// Registers one chord: walks the prefix from the root, allocating a
    /// brand-new state per step and overwriting the continuation entry of
    /// the current state — even when a transition for that step already
    /// existed, so a shared non-empty prefix orphans the earlier subtree —
    /// then stores the resolved identifier under the terminal key symbol
    /// of the last state reached.
    pub fn register(&mut self, combination: Combination, input: crate::input::Input)
        requires
            old(self).wf(),
        ensures
            final(self).wf(),
            final(self)@ == old(self)@.register_from(
                0,
                combination.modifiers@,
                combination.final_action,
                input,
            ),
    {
        let ghost goal = old(self)@.register_from(
            0,
            combination.modifiers@,
            combination.final_action,
            input,
        );
        proof {
            assert(combination.modifiers@.skip(0) =~= combination.modifiers@);
        }
        let mut state: KeyStateId = KeyStateId::default();
        let n = combination.modifiers.len();
        let mut i: usize = 0;
        while i < n
            invariant
                i <= n,
                n == combination.modifiers@.len(),
                self.wf(),
                state.0 < self.key_states@.len(),
                goal == self@.register_from(
                    state.0 as int,
                    combination.modifiers@.skip(i as int),
                    combination.final_action,
                    input,
                ),
            decreases n - i,
        {
            let ghost pre = self@;
            let ghost cur = state.0 as int;
            let (modifier, action) = combination.modifiers[i];
            let action_map_id = match modifier {
                Modifier::M => self.key_states[state.0].meta_cont,
                Modifier::C => self.key_states[state.0].ctrl_cont,
            };
            state = self.new_state();
            let ghost mid_c = *self;
            let ghost fresh = pre.states.len() as int;
            let ghost t = action_map_id.0 as int;
            proof {
                assert(mid_c@.states == pre.states.push(StateView::empty()));
                assert(t < self.action_maps@.len());
                assert(self.action_maps@[t].wf());
            }
            self.action_maps[action_map_id.0].insert(action, state);
            proof {
                let grown = KeyMapView {
                    states: pre.states.update(
                        cur,
                        pre.states[cur].with_cont(modifier, action, fresh),
                    ).push(StateView::empty()),
                };
                assert(self.key_states@ == mid_c.key_states@);
                assert(self.leaf_action_maps@ == mid_c.leaf_action_maps@);
                assert(self.action_maps@[t]@ == mid_c.action_maps@[t]@.insert(action, state));
                assert forall|j: int| 0 <= j < self.key_states@.len() implies self.state_view(j)
                    =~= grown.states[j] by {
                    assert(mid_c.state_view(j) == mid_c@.states[j]);
                    if j == cur {
                        lemma_targets_of_insert(mid_c.action_maps@[t]@, action, state);
                        if modifier is C {
                            assert(self.key_states@[j].ctrl_cont.0 == t);
                            assert(self.key_states@[j].meta_cont.0 != t);
                            assert(self.action_maps@[self.key_states@[j].meta_cont.0 as int]
                                == mid_c.action_maps@[self.key_states@[j].meta_cont.0 as int]);
                        } else {
                            assert(self.key_states@[j].meta_cont.0 == t);
                            assert(self.key_states@[j].ctrl_cont.0 != t);
                            assert(self.action_maps@[self.key_states@[j].ctrl_cont.0 as int]
                                == mid_c.action_maps@[self.key_states@[j].ctrl_cont.0 as int]);
                        }
                        assert(mid_c@.states[j] == pre.states[j]);
                    } else {
                        assert(self.key_states@[j].ctrl_cont.0 != t);
                        assert(self.key_states@[j].meta_cont.0 != t);
                        assert(self.action_maps@[self.key_states@[j].ctrl_cont.0 as int]
                            == mid_c.action_maps@[self.key_states@[j].ctrl_cont.0 as int]);
                        assert(self.action_maps@[self.key_states@[j].meta_cont.0 as int]
                            == mid_c.action_maps@[self.key_states@[j].meta_cont.0 as int]);
                        assert(self.state_view(j) == mid_c.state_view(j));
                    }
                }
                assert(self@.states =~= grown.states);
                assert(self@ == grown);
                assert forall|j: int, a: Action|
                    0 <= j < grown.states.len() && #[trigger] grown.states[j].ctrl.contains_key(
                        a,
                    ) implies j < grown.states[j].ctrl[a] < grown.states.len() by {
                    if j < pre.states.len() && !(j == cur && modifier is C && a == action) {
                        assert(pre.states[j].ctrl.contains_key(a));
                    }
                }
                assert forall|j: int, a: Action|
                    0 <= j < grown.states.len() && #[trigger] grown.states[j].meta.contains_key(
                        a,
                    ) implies j < grown.states[j].meta[a] < grown.states.len() by {
                    if j < pre.states.len() && !(j == cur && modifier is M && a == action) {
                        assert(pre.states[j].meta.contains_key(a));
                    }
                }
                assert forall|k: int| 0 <= k < self.action_maps@.len() implies (
                #[trigger] self.action_maps@[k]).wf() by {
                    if k != t {
                        assert(self.action_maps@[k] == mid_c.action_maps@[k]);
                    }
                }
                assert(self.wf());
                let steps = combination.modifiers@.skip(i as int);
                assert(steps[0] == combination.modifiers@[i as int]);
                assert(steps.drop_first() =~= combination.modifiers@.skip(i as int + 1));
                assert(pre.register_from(cur, steps, combination.final_action, input)
                    == grown.register_from(
                    fresh,
                    steps.drop_first(),
                    combination.final_action,
                    input,
                ));
            }
            i += 1;
        }
        let ghost pre_c = *self;
        let ghost pre = self@;
        let ghost cur = state.0 as int;
        let fid = self.key_states[state.0].final_cont;
        proof {
            assert(fid.0 < self.leaf_action_maps@.len());
            assert(self.leaf_action_maps@[fid.0 as int].wf());
        }
        self.leaf_action_maps[fid.0].insert(combination.final_action, input);
        proof {
            let t = fid.0 as int;
            let done = KeyMapView {
                states: pre.states.update(
                    cur,
                    pre.states[cur].with_fin(combination.final_action, input),
                ),
            };
            assert(self.leaf_action_maps@[t]@ == pre_c.leaf_action_maps@[t]@.insert(
                combination.final_action,
                input,
            ));
            assert(self.key_states@ == pre_c.key_states@);
            assert(self.action_maps@ == pre_c.action_maps@);
            assert forall|j: int| 0 <= j < self.key_states@.len() implies self.state_view(j)
                =~= done.states[j] by {
                assert(pre_c.state_view(j) == pre.states[j]);
                if j != cur {
                    assert(self.key_states@[j].final_cont.0 != t);
                    assert(self.leaf_action_maps@[self.key_states@[j].final_cont.0 as int]
                        == pre_c.leaf_action_maps@[self.key_states@[j].final_cont.0 as int]);
                    assert(self.state_view(j) == pre_c.state_view(j));
                }
            }
            assert(self@.states =~= done.states);
            assert(self@ == done);
            assert(combination.modifiers@.skip(n as int) =~= Seq::<(Modifier, Action)>::empty());
            assert(self@ == pre.register_from(
                cur,
                combination.modifiers@.skip(n as int),
                combination.final_action,
                input,
            ));
            assert forall|j: int, a: Action|
                0 <= j < self@.states.len() && #[trigger] self@.states[j].ctrl.contains_key(
                    a,
                ) implies j < self@.states[j].ctrl[a] < self@.states.len() by {
                assert(done.states[j].ctrl == pre.states[j].ctrl);
                assert(pre.states[j].ctrl.contains_key(a));
            }
            assert forall|j: int, a: Action|
                0 <= j < self@.states.len() && #[trigger] self@.states[j].meta.contains_key(
                    a,
                ) implies j < self@.states[j].meta[a] < self@.states.len() by {
                assert(done.states[j].meta == pre.states[j].meta);
                assert(pre.states[j].meta.contains_key(a));
            }
            assert forall|k: int| 0 <= k < self.leaf_action_maps@.len() implies (
            #[trigger] self.leaf_action_maps@[k]).wf() by {
                if k != t {
                    assert(self.leaf_action_maps@[k] == pre_c.leaf_action_maps@[k]);
                }
            }
            assert(self.wf());
        }
    }
}

/// A live traversal handle: the trie it walks and the state it stands at.
pub struct LivingMapping<'map> {
    map: &'map KeyMap,
    state_id: KeyStateId,
}

/// A traversal handle over a trie, in one of two states: positioned at a
/// live trie state, or dead because some step had no transition. Dead is
/// absorbing: no operation leaves it.
pub enum KeyMapping<'map> {
    Alive(LivingMapping<'map>),
    Dead,
}

impl<'map> KeyMapping<'map> {
    /// A live cursor stands inside a well-formed trie; a dead cursor
    /// needs nothing.
    pub closed spec fn wf(self) -> bool {
        match self {
            KeyMapping::Alive(l) => l.map.wf() && l.state_id.0 < l.map.key_states@.len(),
            KeyMapping::Dead => true,
        }
    }

    /// The cursor's position: the index of the state a live cursor stands
    /// at, or nothing when it is dead.
    pub closed spec fn pos(self) -> Option<int> {
        match self {
            KeyMapping::Alive(l) => Some(l.state_id.0 as int),
            KeyMapping::Dead => None,
        }
    }

    /// The trie a live cursor walks.
    pub closed spec fn trie(self) -> KeyMapView {
        match self {
            KeyMapping::Alive(l) => l.map@,
            KeyMapping::Dead => arbitrary(),
        }
    }

    /// One non-terminal step, in place: from a live state, follow the
    /// continuation entry that the modifier's table holds for the key
    /// symbol, or go dead when there is none; a dead cursor stays dead.
    pub fn map_cont(&mut self, modifier: Modifier, action: Action)
        requires
            old(self).wf(),
        ensures
            final(self).wf(),
            final(self).pos() == old(self).trie().step(old(self).pos(), modifier, action),
            final(self).pos() is Some ==> final(self).trie() == old(self).trie(),
    {
        let (mp, sid) = match self {
            KeyMapping::Alive(l) => (l.map, l.state_id),
            KeyMapping::Dead => {
                return ;
            },
        };
        let state = &mp.key_states[sid.0];
        let action_map_id = match modifier {
            Modifier::M => state.meta_cont,
            Modifier::C => state.ctrl_cont,
        };
        match mp.action_maps[action_map_id.0].get(action) {
            Some(new_state_id) => {
                proof {
                    assert(mp@.states[sid.0 as int].cont(modifier) == targets_of(
                        mp.action_maps@[action_map_id.0 as int]@,
                    ));
                    assert(mp@.states[sid.0 as int].cont(modifier)[action] == new_state_id.0 as int);
                    assert(new_state_id.0 < mp.key_states@.len());
                }
                *self = KeyMapping::Alive(LivingMapping { map: mp, state_id: new_state_id });
            },
            None => {
                proof {
                    assert(!mp@.states[sid.0 as int].cont(modifier).contains_key(action));
                }
                *self = KeyMapping::Dead;
            },
        }
    }

    /// The terminal step, consuming the cursor: from a live state, the
    /// resolved identifier its terminal table holds for the key symbol,
    /// if any; from a dead cursor, nothing.
    pub fn map_final(self, action: Action) -> (r: Option<crate::input::Input>)
        requires
            self.wf(),
        ensures
            r == self.trie().resolve(self.pos(), action),
    {
        match self {
            KeyMapping::Alive(l) => {
                let leaf_action_map_id = l.map.key_states[l.state_id.0].final_cont;
                let r = l.map.leaf_action_maps[leaf_action_map_id.0].get(action);
                proof {
                    assert(l.map@.states[l.state_id.0 as int].fin == l.map.leaf_action_maps@[
                        leaf_action_map_id.0 as int]@);
                }
                r
            },
            KeyMapping::Dead => None,
        }
    }
}

impl KeyMap {
    /// Hands out a fresh cursor, positioned live at the root state.
    pub fn map<'map>(&'map self) -> (r: KeyMapping<'map>)
        requires
            self.wf(),
        ensures
            r.wf(),
            r.pos() == Some(0int),
            r.trie() == self@,
    {
        KeyMapping::Alive(LivingMapping { map: &self, state_id: KeyStateId::default() })
    }
}

} // verus!


