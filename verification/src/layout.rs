//! The layout resolver: a state machine mapping debounced key events through
//! a layered keymap to the set of held keycodes.
//!
//! A keymap is a stack of layers, each a grid of [`Action`]s. Layer 0 is the
//! base layer and is always active; a layer-hold key pushes another layer
//! onto the active stack while it is down. A press is resolved by searching
//! the active stack from the innermost (most recently activated) layer
//! outward; the first non-transparent action wins, and a transparent cell
//! falls through to the layer below. Releasing a layer-hold key removes its
//! layer from the stack by identity, wherever it sits.
//!
//! Duplicate claims are ignored rather than double-counted: a press whose
//! keycode is already held, or whose layer is already active, leaves the
//! state unchanged, so every held keycode and every active layer has exactly
//! one owning position.

use crate::debounce::EventKind;
use crate::debounce::KeyEvent;
use vstd::prelude::*;

verus! {

broadcast use vstd::seq_lib::group_seq_properties;

/// The action a layer assigns to a matrix position.
#[derive(Clone, Copy, Debug, PartialEq, Eq, Structural)]
pub enum Action {
    /// Emit this (non-zero) keycode while the key is down.
    Key(u8),
    /// Keep this layer active while the key is down.
    HoldLayer(usize),
    /// Do nothing.
    NoOp,
    /// Fall through to the next active layer below.
    Transparent,
}

/// What the resolver remembers about one matrix position.
#[derive(Clone, Copy, Debug, PartialEq, Eq, Structural)]
pub enum PosState {
    /// The key is up.
    Idle,
    /// The key is down and holds this keycode.
    Pressed(u8),
    /// The key is down and holds this layer active.
    HoldingLayer(usize),
}

/// Mathematical state of the resolver.
pub ghost struct LayoutModel {
    /// The keymap: layer, row, column to action.
    pub layers: Seq<Seq<Seq<Action>>>,
    /// Active layer stack, base layer first, innermost (highest priority)
    /// last.
    pub active: Seq<usize>,
    /// Held keycodes, oldest press first.
    pub held: Seq<u8>,
    /// Per-position state.
    pub pos: Seq<Seq<PosState>>,
}

/// View of one grid of vectors as a sequence of sequences.
pub open spec fn grid_view<T>(g: Seq<Vec<T>>) -> Seq<Seq<T>> {
    g.map_values(|v: Vec<T>| v@)
}

/// View of a vector of layer grids as a sequence of grids.
pub open spec fn stack_view(layers: Seq<Vec<Vec<Action>>>) -> Seq<Seq<Seq<Action>>> {
    layers.map_values(|g: Vec<Vec<Action>>| grid_view(g@))
}

/// A valid action in a keymap of `n_layers` layers: keycodes are non-zero
/// (zero marks an empty report slot) and held layers name an existing
/// non-base layer.
pub open spec fn action_wf(a: Action, n_layers: nat) -> bool {
    match a {
        Action::Key(k) => k != 0,
        Action::HoldLayer(l) => 1 <= l < n_layers,
        Action::NoOp => true,
        Action::Transparent => true,
    }
}

/// A valid keymap for a `rows × cols` matrix: at least the base layer,
/// every layer a full grid, every action valid.
pub open spec fn layers_wf(layers: Seq<Seq<Seq<Action>>>, rows: nat, cols: nat) -> bool {
    &&& layers.len() >= 1
    &&& forall|i: int| 0 <= i < layers.len() ==> (#[trigger] layers[i]).len() == rows
    &&& forall|i: int, r: int|
        0 <= i < layers.len() && 0 <= r < rows ==> (#[trigger] layers[i][r]).len() == cols
    &&& forall|i: int, r: int, c: int|
        0 <= i < layers.len() && 0 <= r < rows && 0 <= c < cols ==> action_wf(
            #[trigger] layers[i][r][c],
            layers.len(),
        )
}

/// A position's claim is backed by the rest of the state: a pressed keycode
/// is held, a held layer is active and is not the base layer.
pub open spec fn pos_state_wf(s: PosState, m: LayoutModel) -> bool {
    match s {
        PosState::Idle => true,
        PosState::Pressed(k) => m.held.contains(k),
        PosState::HoldingLayer(l) => l >= 1 && m.active.contains(l),
    }
}

/// No two positions claim the same keycode or the same layer.
pub open spec fn pos_injective(pos: Seq<Seq<PosState>>, rows: nat, cols: nat) -> bool {
    &&& forall|r1: int, c1: int, r2: int, c2: int|
        0 <= r1 < rows && 0 <= c1 < cols && 0 <= r2 < rows && 0 <= c2 < cols && !(r1 == r2 && c1
            == c2) && (#[trigger] pos[r1][c1]) is Pressed && (#[trigger] pos[r2][c2]) is Pressed
            ==> pos[r1][c1]->Pressed_0 != pos[r2][c2]->Pressed_0
    &&& forall|r1: int, c1: int, r2: int, c2: int|
        0 <= r1 < rows && 0 <= c1 < cols && 0 <= r2 < rows && 0 <= c2 < cols && !(r1 == r2 && c1
            == c2) && (#[trigger] pos[r1][c1]) is HoldingLayer && (#[trigger] pos[r2][c2]) is HoldingLayer
            ==> pos[r1][c1]->HoldingLayer_0 != pos[r2][c2]->HoldingLayer_0
}

/// Well-formed resolver state for a `rows × cols` matrix.
pub open spec fn layout_wf(m: LayoutModel, rows: nat, cols: nat) -> bool {
    &&& layers_wf(m.layers, rows, cols)
    &&& m.active.len() >= 1
    &&& m.active[0] == 0
    &&& m.active.no_duplicates()
    &&& forall|i: int| 0 <= i < m.active.len() ==> (#[trigger] m.active[i]) < m.layers.len()
    &&& m.held.no_duplicates()
    &&& forall|i: int| 0 <= i < m.held.len() ==> (#[trigger] m.held[i]) != 0
    &&& m.pos.len() == rows
    &&& forall|r: int| 0 <= r < rows ==> (#[trigger] m.pos[r]).len() == cols
    &&& forall|r: int, c: int|
        0 <= r < rows && 0 <= c < cols ==> pos_state_wf(#[trigger] m.pos[r][c], m)
    &&& pos_injective(m.pos, rows, cols)
}

/// The action `(r, c)` resolves to under the active stack `active`: the
/// first non-transparent action searching from the innermost layer outward,
/// or `NoOp` when every active layer is transparent there.
pub open spec fn resolve_in(
    layers: Seq<Seq<Seq<Action>>>,
    active: Seq<usize>,
    r: int,
    c: int,
) -> Action
    decreases active.len(),
{
    if active.len() == 0 {
        Action::NoOp
    } else {
        let a = layers[active.last() as int][r][c];
        if a is Transparent {
            resolve_in(layers, active.drop_last(), r, c)
        } else {
            a
        }
    }
}

/// `s` with the first occurrence of `x` removed; `s` unchanged when `x`
/// does not occur.
pub open spec fn remove_first<T>(s: Seq<T>, x: T) -> Seq<T>
    decreases s.len(),
{
    if s.len() == 0 {
        s
    } else if s.first() == x {
        s.drop_first()
    } else {
        seq![s.first()] + remove_first(s.drop_first(), x)
    }
}

/// `pos` with the state of `(r, c)` replaced.
pub open spec fn update_pos(
    pos: Seq<Seq<PosState>>,
    r: int,
    c: int,
    s: PosState,
) -> Seq<Seq<PosState>> {
    pos.update(r, pos[r].update(c, s))
}

/// State after a press at `(r, c)`: the resolved action takes effect unless
/// the position is already engaged or its claim is already taken.
pub open spec fn press_step(m: LayoutModel, r: int, c: int) -> LayoutModel {
    if !(m.pos[r][c] is Idle) {
        m
    } else {
        match resolve_in(m.layers, m.active, r, c) {
            Action::Key(k) => {
                if m.held.contains(k) {
                    m
                } else {
                    LayoutModel {
                        held: m.held.push(k),
                        pos: update_pos(m.pos, r, c, PosState::Pressed(k)),
                        ..m
                    }
                }
            },
            Action::HoldLayer(l) => {
                if m.active.contains(l) {
                    m
                } else {
                    LayoutModel {
                        active: m.active.push(l),
                        pos: update_pos(m.pos, r, c, PosState::HoldingLayer(l)),
                        ..m
                    }
                }
            },
            _ => m,
        }
    }
}

/// State after a release at `(r, c)`: the position's claim is dropped, by
/// identity — a held keycode leaves the held set, a held layer leaves the
/// active stack wherever it sits.
pub open spec fn release_step(m: LayoutModel, r: int, c: int) -> LayoutModel {
    match m.pos[r][c] {
        PosState::Idle => m,
        PosState::Pressed(k) => LayoutModel {
            held: remove_first(m.held, k),
            pos: update_pos(m.pos, r, c, PosState::Idle),
            ..m
        },
        PosState::HoldingLayer(l) => LayoutModel {
            active: remove_first(m.active, l),
            pos: update_pos(m.pos, r, c, PosState::Idle),
            ..m
        },
    }
}

/// State after one key event.
pub open spec fn event_step(m: LayoutModel, e: KeyEvent) -> LayoutModel {
    match e.kind {
        EventKind::Press => press_step(m, e.row as int, e.col as int),
        EventKind::Release => release_step(m, e.row as int, e.col as int),
    }
}

/// `remove_first` drops exactly the first occurrence: what it keeps, in
/// order, and how membership changes on a duplicate-free sequence.
pub proof fn lemma_remove_first_props<T>(s: Seq<T>, x: T)
    requires
        s.no_duplicates(),
    ensures
        !remove_first(s, x).contains(x),
        forall|y: T| y != x ==> remove_first(s, x).contains(y) == s.contains(y),
        remove_first(s, x).no_duplicates(),
        s.contains(x) ==> remove_first(s, x).len() == s.len() - 1,
        !s.contains(x) ==> remove_first(s, x) == s,
        forall|i: int|
            0 <= i < remove_first(s, x).len() ==> s.contains(#[trigger] remove_first(s, x)[i]),
        s.len() > 0 && s[0] != x ==> remove_first(s, x).len() > 0 && remove_first(s, x)[0] == s[0],
    decreases s.len(),
{
    if s.len() == 0 {
        assert(remove_first(s, x) =~= s);
    } else if s.first() == x {
        let rest = s.drop_first();
        assert forall|y: T| y != x implies rest.contains(y) == s.contains(y) by {
            if s.contains(y) {
                let i = choose|i: int| 0 <= i < s.len() && s[i] == y;
                assert(rest[i - 1] == y);
            }
        }
        assert(!rest.contains(x)) by {
            if rest.contains(x) {
                let i = choose|i: int| 0 <= i < rest.len() && rest[i] == x;
                assert(s[i + 1] == s[0]);
            }
        }
        assert forall|i: int| 0 <= i < rest.len() implies s.contains(#[trigger] rest[i]) by {
            assert(rest[i] == s[i + 1]);
        }
    } else {
        let rest = s.drop_first();
        assert(rest.no_duplicates());
        lemma_remove_first_props(rest, x);
        let out = remove_first(s, x);
        assert(out == seq![s.first()] + remove_first(rest, x));
        assert(out[0] == s[0]);
        assert forall|i: int| 0 <= i < out.len() implies s.contains(#[trigger] out[i]) by {
            if i == 0 {
                assert(s[0] == out[0]);
            } else {
                assert(out[i] == remove_first(rest, x)[i - 1]);
                assert(rest.contains(out[i]));
                let j = choose|j: int| 0 <= j < rest.len() && rest[j] == out[i];
                assert(s[j + 1] == out[i]);
            }
        }
        assert(!s.contains(x) ==> !rest.contains(x));
        if !s.contains(x) {
            assert(out =~= s);
        }
        assert(!out.contains(x)) by {
            if out.contains(x) {
                let i = choose|i: int| 0 <= i < out.len() && out[i] == x;
                assert(i != 0);
                assert(remove_first(rest, x)[i - 1] == x);
                assert(remove_first(rest, x).contains(x));
            }
        }
        assert forall|y: T| y != x implies out.contains(y) == s.contains(y) by {
            if out.contains(y) {
                assert(s.contains(y));
            }
            if s.contains(y) {
                let i = choose|i: int| 0 <= i < s.len() && s[i] == y;
                if i == 0 {
                    assert(out[0] == y);
                } else {
                    assert(rest[i - 1] == y);
                    assert(rest.contains(y));
                    assert(remove_first(rest, x).contains(y));
                    let j = choose|j: int|
                        0 <= j < remove_first(rest, x).len() && remove_first(rest, x)[j] == y;
                    assert(out[j + 1] == y);
                }
            }
        }
        assert(out.no_duplicates()) by {
            assert forall|i: int, j: int|
                0 <= i < out.len() && 0 <= j < out.len() && i != j implies out[i] != out[j] by {
                if i != 0 && j != 0 {
                    assert(out[i] == remove_first(rest, x)[i - 1]);
                    assert(out[j] == remove_first(rest, x)[j - 1]);
                } else if i == 0 {
                    assert(out[j] == remove_first(rest, x)[j - 1]);
                    assert(rest.contains(out[j]));
                    let m = choose|m: int| 0 <= m < rest.len() && rest[m] == out[j];
                    assert(s[m + 1] == out[j]);
                    assert(s[0] == out[0]);
                } else {
                    assert(out[i] == remove_first(rest, x)[i - 1]);
                    assert(rest.contains(out[i]));
                    let m = choose|m: int| 0 <= m < rest.len() && rest[m] == out[i];
                    assert(s[m + 1] == out[i]);
                    assert(s[0] == out[j]);
                }
            }
        }
    }
}

/// Removing the element found at the first matching index is the same as
/// `remove_first`.
proof fn lemma_remove_at_first<T>(s: Seq<T>, x: T, i: int)
    requires
        0 <= i < s.len(),
        s[i] == x,
        forall|j: int| 0 <= j < i ==> s[j] != x,
    ensures
        s.remove(i) == remove_first(s, x),
    decreases i,
{
    if i == 0 {
        assert(s.remove(0) =~= s.drop_first());
    } else {
        lemma_remove_at_first(s.drop_first(), x, i - 1);
        assert(s.remove(i) =~= seq![s.first()] + s.drop_first().remove(i - 1));
    }
}

/// A sequence none of whose entries is `x` is unchanged by `remove_first`.
proof fn lemma_remove_first_absent<T>(s: Seq<T>, x: T)
    requires
        forall|j: int| 0 <= j < s.len() ==> s[j] != x,
    ensures
        remove_first(s, x) == s,
    decreases s.len(),
{
    if s.len() > 0 {
        assert(forall|j: int|
            0 <= j < s.drop_first().len() ==> #[trigger] s.drop_first()[j] == s[j + 1]);
        lemma_remove_first_absent(s.drop_first(), x);
        assert(remove_first(s, x) =~= s);
    }
}

/// Resolution always yields a valid, non-transparent action.
pub proof fn lemma_resolve_wf(
    layers: Seq<Seq<Seq<Action>>>,
    active: Seq<usize>,
    rows: nat,
    cols: nat,
    r: int,
    c: int,
)
    requires
        layers_wf(layers, rows, cols),
        forall|i: int| 0 <= i < active.len() ==> (#[trigger] active[i]) < layers.len(),
        0 <= r < rows,
        0 <= c < cols,
    ensures
        action_wf(resolve_in(layers, active, r, c), layers.len()),
        !(resolve_in(layers, active, r, c) is Transparent),
    decreases active.len(),
{
    if active.len() > 0 {
        lemma_resolve_wf(layers, active.drop_last(), rows, cols, r, c);
    }
}

/// Layer transparency: when the innermost active layer is transparent at a
/// position, resolution there is exactly resolution under the stack without
/// that layer — the cell falls through.
pub proof fn lemma_transparent_falls_through(
    layers: Seq<Seq<Seq<Action>>>,
    active: Seq<usize>,
    r: int,
    c: int,
)
    requires
        active.len() >= 1,
        layers[active.last() as int][r][c] is Transparent,
    ensures
        resolve_in(layers, active, r, c) == resolve_in(layers, active.drop_last(), r, c),
{
}

/// One event preserves well-formedness of the resolver state.
pub proof fn lemma_event_step_preserves_wf(m: LayoutModel, rows: nat, cols: nat, e: KeyEvent)
    requires
        layout_wf(m, rows, cols),
        e.row < rows,
        e.col < cols,
    ensures
        layout_wf(event_step(m, e), rows, cols),
        event_step(m, e).layers == m.layers,
{
    let r = e.row as int;
    let c = e.col as int;
    let m2 = event_step(m, e);
    match e.kind {
        EventKind::Press => {
            if m.pos[r][c] is Idle {
                lemma_resolve_wf(m.layers, m.active, rows, cols, r, c);
                match resolve_in(m.layers, m.active, r, c) {
                    Action::Key(k) => {
                        if !m.held.contains(k) {
                            assert forall|r2: int, c2: int|
                                0 <= r2 < rows && 0 <= c2 < cols implies pos_state_wf(
                                #[trigger] m2.pos[r2][c2],
                                m2,
                            ) by {
                                assert(pos_state_wf(m.pos[r2][c2], m));
                                if !(r2 == r && c2 == c) {
                                    assert(m2.pos[r2][c2] == m.pos[r2][c2]);
                                }
                            }
                        }
                    },
                    Action::HoldLayer(l) => {
                        if !m.active.contains(l) {
                            assert(m2.active[0] == 0);
                            assert forall|r2: int, c2: int|
                                0 <= r2 < rows && 0 <= c2 < cols implies pos_state_wf(
                                #[trigger] m2.pos[r2][c2],
                                m2,
                            ) by {
                                assert(pos_state_wf(m.pos[r2][c2], m));
                                if !(r2 == r && c2 == c) {
                                    assert(m2.pos[r2][c2] == m.pos[r2][c2]);
                                }
                            }
                        }
                    },
                    _ => {},
                }
            }
        },
        EventKind::Release => {
            match m.pos[r][c] {
                PosState::Idle => {},
                PosState::Pressed(k) => {
                    lemma_remove_first_props(m.held, k);
                    assert forall|r2: int, c2: int|
                        0 <= r2 < rows && 0 <= c2 < cols implies pos_state_wf(
                        #[trigger] m2.pos[r2][c2],
                        m2,
                    ) by {
                        assert(pos_state_wf(m.pos[r2][c2], m));
                        if !(r2 == r && c2 == c) {
                            assert(m2.pos[r2][c2] == m.pos[r2][c2]);
                            if m.pos[r2][c2] is Pressed {
                                let k2 = m.pos[r2][c2]->Pressed_0;
                                assert(k2 != k);
                            }
                        }
                    }
                },
                PosState::HoldingLayer(l) => {
                    lemma_remove_first_props(m.active, l);
                    assert(m.active[0] == 0 && l != 0);
                    assert(m2.active.len() > 0 && m2.active[0] == 0);
                    assert forall|i: int|
                        0 <= i < m2.active.len() implies (#[trigger] m2.active[i])
                        < m2.layers.len() by {
                        assert(m.active.contains(m2.active[i]));
                        let j = choose|j: int|
                            0 <= j < m.active.len() && m.active[j] == m2.active[i];
                    }
                    assert forall|r2: int, c2: int|
                        0 <= r2 < rows && 0 <= c2 < cols implies pos_state_wf(
                        #[trigger] m2.pos[r2][c2],
                        m2,
                    ) by {
                        assert(pos_state_wf(m.pos[r2][c2], m));
                        if !(r2 == r && c2 == c) {
                            assert(m2.pos[r2][c2] == m.pos[r2][c2]);
                            if m.pos[r2][c2] is HoldingLayer {
                                let l2 = m.pos[r2][c2]->HoldingLayer_0;
                                assert(l2 != l);
                            }
                        }
                    }
                },
            }
        },
    }
}

/// Layer hold/release symmetry, release half: releasing the key that holds
/// layer `l` removes `l` from the active stack — by identity, wherever the
/// stack has it — and touches no other layer's membership.
pub proof fn lemma_layer_release_by_identity(m: LayoutModel, rows: nat, cols: nat, r: int, c: int)
    requires
        layout_wf(m, rows, cols),
        0 <= r < rows,
        0 <= c < cols,
        m.pos[r][c] is HoldingLayer,
    ensures
        !release_step(m, r, c).active.contains(m.pos[r][c]->HoldingLayer_0),
        forall|x: usize|
            x != m.pos[r][c]->HoldingLayer_0 ==> release_step(m, r, c).active.contains(x)
                == m.active.contains(x),
{
    lemma_remove_first_props(m.active, m.pos[r][c]->HoldingLayer_0);
}

/// Layer hold/release symmetry, press half: pressing an idle key that
/// resolves to "hold layer `l`" leaves `l` active.
pub proof fn lemma_layer_hold_activates(m: LayoutModel, rows: nat, cols: nat, r: int, c: int)
    requires
        layout_wf(m, rows, cols),
        0 <= r < rows,
        0 <= c < cols,
        m.pos[r][c] is Idle,
        resolve_in(m.layers, m.active, r, c) is HoldLayer,
    ensures
        press_step(m, r, c).active.contains(resolve_in(m.layers, m.active, r, c)->HoldLayer_0),
{
    let l = resolve_in(m.layers, m.active, r, c)->HoldLayer_0;
    if !m.active.contains(l) {
        assert(press_step(m, r, c).active[m.active.len() as int] == l);
    }
}

/// The layout resolver: keymap, active layer stack, held keycodes and
/// per-position state for a `rows × cols` matrix.
pub struct Layout {
    /// Number of matrix rows.
    pub rows: usize,
    /// Number of matrix columns.
    pub cols: usize,
    /// The keymap: layer, row, column to action.
    pub layers: Vec<Vec<Vec<Action>>>,
    /// Active layer stack, base layer first, innermost last.
    pub active: Vec<usize>,
    /// Held keycodes, oldest press first.
    pub held: Vec<u8>,
    /// Per-position state.
    pub pos: Vec<Vec<PosState>>,
}

impl View for Layout {
    type V = LayoutModel;

    open spec fn view(&self) -> LayoutModel {
        LayoutModel {
            layers: stack_view(self.layers@),
            active: self.active@,
            held: self.held@,
            pos: grid_view(self.pos@),
        }
    }
}

/// Whether the byte vector holds `x`.
fn contains_u8(v: &Vec<u8>, x: u8) -> (r: bool)
    ensures
        r == v@.contains(x),
{
    let mut i: usize = 0;
    while i < v.len()
        invariant
            i <= v@.len(),
            forall|j: int| 0 <= j < i ==> v@[j] != x,
        decreases v@.len() - i,
    {
        if v[i] == x {
            return true;
        }
        i += 1;
    }
    false
}

/// Whether the index vector holds `x`.
fn contains_usize(v: &Vec<usize>, x: usize) -> (r: bool)
    ensures
        r == v@.contains(x),
{
    let mut i: usize = 0;
    while i < v.len()
        invariant
            i <= v@.len(),
            forall|j: int| 0 <= j < i ==> v@[j] != x,
        decreases v@.len() - i,
    {
        if v[i] == x {
            return true;
        }
        i += 1;
    }
    false
}

/// Removes the first occurrence of `x`, if any.
fn remove_first_u8(v: &mut Vec<u8>, x: u8)
    ensures
        final(v)@ == remove_first(old(v)@, x),
{
    let mut i: usize = 0;
    while i < v.len()
        invariant
            i <= v@.len(),
            forall|j: int| 0 <= j < i ==> v@[j] != x,
            v == old(v),
        decreases v@.len() - i,
    {
        if v[i] == x {
            v.remove(i);
            proof {
                lemma_remove_at_first(old(v)@, x, i as int);
            }
            return;
        }
        i += 1;
    }
    proof {
        lemma_remove_first_absent(v@, x);
    }
}

/// Removes the first occurrence of `x`, if any.
fn remove_first_usize(v: &mut Vec<usize>, x: usize)
    ensures
        final(v)@ == remove_first(old(v)@, x),
{
    let mut i: usize = 0;
    while i < v.len()
        invariant
            i <= v@.len(),
            forall|j: int| 0 <= j < i ==> v@[j] != x,
            v == old(v),
        decreases v@.len() - i,
    {
        if v[i] == x {
            v.remove(i);
            proof {
                lemma_remove_at_first(old(v)@, x, i as int);
            }
            return;
        }
        i += 1;
    }
    proof {
        lemma_remove_first_absent(v@, x);
    }
}

impl Layout {
    /// The resolver's grids match its dimensions and the state is
    /// well-formed.
    pub open spec fn wf(self) -> bool {
        layout_wf(self@, self.rows as nat, self.cols as nat)
    }

    /// Checks a keymap: at least one layer, every layer a `rows × cols`
    /// grid, keycodes non-zero, held layers existing and not the base.
    fn check_layers(layers: &Vec<Vec<Vec<Action>>>, rows: usize, cols: usize) -> (ok: bool)
        ensures
            ok == layers_wf(stack_view(layers@), rows as nat, cols as nat),
    {
        let ghost lv = stack_view(layers@);
        if layers.len() == 0 {
            return false;
        }
        let n = layers.len();
        let mut i: usize = 0;
        while i < n
            invariant
                n == layers@.len(),
                lv == stack_view(layers@),
                i <= n,
                forall|a: int| 0 <= a < i ==> (#[trigger] lv[a]).len() == rows,
                forall|a: int, r: int|
                    0 <= a < i && 0 <= r < rows ==> (#[trigger] lv[a][r]).len() == cols,
                forall|a: int, r: int, c: int|
                    0 <= a < i && 0 <= r < rows && 0 <= c < cols ==> action_wf(
                        #[trigger] lv[a][r][c],
                        n as nat,
                    ),
            decreases n - i,
        {
            if layers[i].len() != rows {
                proof {
                    assert(lv[i as int].len() != rows);
                }
                return false;
            }
            let mut r: usize = 0;
            while r < rows
                invariant
                    n == layers@.len(),
                    lv == stack_view(layers@),
                    i < n,
                    r <= rows,
                    lv[i as int].len() == rows,
                    forall|q: int| 0 <= q < r ==> (#[trigger] lv[i as int][q]).len() == cols,
                    forall|q: int, c: int|
                        0 <= q < r && 0 <= c < cols ==> action_wf(
                            #[trigger] lv[i as int][q][c],
                            n as nat,
                        ),
                decreases rows - r,
            {
                if layers[i][r].len() != cols {
                    proof {
                        assert(lv[i as int][r as int].len() != cols);
                    }
                    return false;
                }
                let mut c: usize = 0;
                while c < cols
                    invariant
                        n == layers@.len(),
                        lv == stack_view(layers@),
                        i < n,
                        r < rows,
                        c <= cols,
                        lv[i as int].len() == rows,
                        lv[i as int][r as int].len() == cols,
                        forall|q: int|
                            0 <= q < c ==> action_wf(#[trigger] lv[i as int][r as int][q], n as nat),
                    decreases cols - c,
                {
                    let ok = match layers[i][r][c] {
                        Action::Key(k) => k != 0,
                        Action::HoldLayer(l) => 1 <= l && l < n,
                        Action::NoOp => true,
                        Action::Transparent => true,
                    };
                    if !ok {
                        proof {
                            assert(!action_wf(lv[i as int][r as int][c as int], n as nat));
                        }
                        return false;
                    }
                    c += 1;
                }
                r += 1;
            }
            i += 1;
        }
        true
    }

    /// A fresh resolver for `keymap`, or `None` exactly when the keymap is
    /// not well-formed for a `rows × cols` matrix. The fresh state has only
    /// the base layer active, nothing held and every position idle.
    pub fn new(keymap: Vec<Vec<Vec<Action>>>, rows: usize, cols: usize) -> (res: Option<Layout>)
        ensures
            match res {
                Some(l) => {
                    &&& l.wf()
                    &&& l.rows == rows
                    &&& l.cols == cols
                    &&& l@.layers == stack_view(keymap@)
                    &&& l@.active =~= seq![0usize]
                    &&& l@.held == Seq::<u8>::empty()
                    &&& forall|r: int, c: int|
                        0 <= r < rows && 0 <= c < cols ==> (#[trigger] l@.pos[r][c]) is Idle
                },
                None => !layers_wf(stack_view(keymap@), rows as nat, cols as nat),
            },
    {
        if !Self::check_layers(&keymap, rows, cols) {
            return None;
        }
        let mut pos: Vec<Vec<PosState>> = Vec::new();
        let mut r: usize = 0;
        while r < rows
            invariant
                r <= rows,
                pos@.len() == r,
                forall|a: int| 0 <= a < r ==> (#[trigger] pos@[a])@.len() == cols,
                forall|a: int, b: int|
                    0 <= a < r && 0 <= b < cols ==> (#[trigger] pos@[a]@[b]) is Idle,
            decreases rows - r,
        {
            let mut row: Vec<PosState> = Vec::new();
            let mut c: usize = 0;
            while c < cols
                invariant
                    c <= cols,
                    row@.len() == c,
                    forall|b: int| 0 <= b < c ==> (#[trigger] row@[b]) is Idle,
                decreases cols - c,
            {
                row.push(PosState::Idle);
                c += 1;
            }
            pos.push(row);
            r += 1;
        }
        let mut active: Vec<usize> = Vec::new();
        active.push(0);
        let layout = Layout { rows, cols, layers: keymap, active, held: Vec::new(), pos };
        proof {
            assert(layout@.active =~= seq![0usize]);
        }
        Some(layout)
    }

    /// The action the key at `(row, col)` currently resolves to.
    pub fn resolve(&self, row: usize, col: usize) -> (a: Action)
        requires
            self.wf(),
            row < self.rows,
            col < self.cols,
        ensures
            a == resolve_in(self@.layers, self@.active, row as int, col as int),
    {
        let ghost layers = self@.layers;
        let ghost active = self@.active;
        let mut i: usize = self.active.len();
        proof {
            assert(active.take(i as int) =~= active);
        }
        while i > 0
            invariant
                self.wf(),
                row < self.rows,
                col < self.cols,
                layers == self@.layers,
                active == self@.active,
                i <= active.len(),
                resolve_in(layers, active, row as int, col as int) == resolve_in(
                    layers,
                    active.take(i as int),
                    row as int,
                    col as int,
                ),
            decreases i,
        {
            i -= 1;
            let layer = self.active[i];
            let a = self.layers[layer][row][col];
            proof {
                let pre = active.take(i as int + 1);
                assert(pre.last() == active[i as int]);
                assert(pre.drop_last() =~= active.take(i as int));
                assert(a == layers[active[i as int] as int][row as int][col as int]);
            }
            match a {
                Action::Transparent => {},
                _ => {
                    return a;
                },
            }
        }
        proof {
            assert(active.take(0) =~= Seq::<usize>::empty());
        }
        Action::NoOp
    }

    /// Applies one debounced key event to the resolver state.
    pub fn event(&mut self, e: KeyEvent)
        requires
            old(self).wf(),
            e.row < old(self).rows,
            e.col < old(self).cols,
        ensures
            final(self).wf(),
            final(self).rows == old(self).rows,
            final(self).cols == old(self).cols,
            final(self)@ == event_step(old(self)@, e),
    {
        let r = e.row;
        let c = e.col;
        proof {
            lemma_event_step_preserves_wf(old(self)@, old(self).rows as nat, old(self).cols as nat, e);
            assert(self@.pos[r as int].len() == self.cols);
            assert(self@.pos[r as int][c as int] == self.pos@[r as int]@[c as int]);
        }
        let cur = self.pos[r][c];
        match e.kind {
            EventKind::Press => {
                match cur {
                    PosState::Idle => {
                        let a = self.resolve(r, c);
                        match a {
                            Action::Key(k) => {
                                if !contains_u8(&self.held, k) {
                                    self.held.push(k);
                                    self.pos[r][c] = PosState::Pressed(k);
                                    proof {
                                        assert(self@.pos =~~= event_step(old(self)@, e).pos);
                                    }
                                }
                            },
                            Action::HoldLayer(l) => {
                                if !contains_usize(&self.active, l) {
                                    self.active.push(l);
                                    self.pos[r][c] = PosState::HoldingLayer(l);
                                    proof {
                                        assert(self@.pos =~~= event_step(old(self)@, e).pos);
                                    }
                                }
                            },
                            _ => {},
                        }
                    },
                    _ => {},
                }
            },
            EventKind::Release => {
                match cur {
                    PosState::Pressed(k) => {
                        remove_first_u8(&mut self.held, k);
                        self.pos[r][c] = PosState::Idle;
                        proof {
                            assert(self@.pos =~~= event_step(old(self)@, e).pos);
                        }
                    },
                    PosState::HoldingLayer(l) => {
                        remove_first_usize(&mut self.active, l);
                        self.pos[r][c] = PosState::Idle;
                        proof {
                            assert(self@.pos =~~= event_step(old(self)@, e).pos);
                        }
                    },
                    PosState::Idle => {},
                }
            },
        }
    }

    /// The currently held keycodes, oldest press first. Does not mutate the
    /// state; the report builder consumes the result.
    pub fn keycodes(&self) -> (ks: Vec<u8>)
        ensures
            ks@ == self@.held,
    {
        let mut out: Vec<u8> = Vec::new();
        let mut i: usize = 0;
        while i < self.held.len()
            invariant
                i <= self.held@.len(),
                out@ == self.held@.take(i as int),
            decreases self.held@.len() - i,
        {
            out.push(self.held[i]);
            proof {
                assert(out@ =~= self.held@.take(i as int + 1));
            }
            i += 1;
        }
        proof {
            assert(self.held@.take(self.held@.len() as int) =~= self.held@);
        }
        out
    }
}

} // verus!
