//! Player actions and the one-byte set of pressed actions sent over the wire.
use vstd::prelude::*;

verus! {

#[derive(Debug, Clone, Copy, PartialEq, Eq, Structural)]
pub enum PlayerAction {
    Forward,
    Backward,
    Left,
    Right,
    Boost,
    Shoot,
    Dodge,
    Extra,
}

/// The keyboard key bound to an action (the engine's key code is chosen from it).
#[derive(Debug, Clone, Copy, PartialEq, Eq, Structural)]
pub enum Key {
    KeyW,
    KeyS,
    KeyA,
    KeyD,
    ShiftLeft,
    Space,
    ControlLeft,
    KeyE,
}

/// Position of an action's bit in the action byte.
pub open spec fn action_index(act: PlayerAction) -> u8 {
    match act {
        PlayerAction::Forward => 0,
        PlayerAction::Backward => 1,
        PlayerAction::Left => 2,
        PlayerAction::Right => 3,
        PlayerAction::Boost => 4,
        PlayerAction::Shoot => 5,
        PlayerAction::Dodge => 6,
        PlayerAction::Extra => 7,
    }
}

/// The bit that stands for an action in the action byte.
pub open spec fn action_bit(act: PlayerAction) -> u8 {
    (1u8 << action_index(act)) as u8
}

pub open spec fn key_of(act: PlayerAction) -> Key {
    match act {
        PlayerAction::Forward => Key::KeyW,
        PlayerAction::Backward => Key::KeyS,
        PlayerAction::Left => Key::KeyA,
        PlayerAction::Right => Key::KeyD,
        PlayerAction::Boost => Key::ShiftLeft,
        PlayerAction::Shoot => Key::Space,
        PlayerAction::Dodge => Key::ControlLeft,
        PlayerAction::Extra => Key::KeyE,
    }
}

impl PlayerAction {
    /// Every action, in bit order.
    pub fn all() -> (r: [PlayerAction; 8])
        ensures
            forall|i: int| 0 <= i < 8 ==> action_index(#[trigger] r@[i]) == i,
    {
        [
            PlayerAction::Forward,
            PlayerAction::Backward,
            PlayerAction::Left,
            PlayerAction::Right,
            PlayerAction::Boost,
            PlayerAction::Shoot,
            PlayerAction::Dodge,
            PlayerAction::Extra,
        ]
    }

    pub fn get_key_code(&self) -> (k: Key)
        ensures
            k == key_of(*self),
    {
        match self {
            PlayerAction::Forward => Key::KeyW,
            PlayerAction::Backward => Key::KeyS,
            PlayerAction::Left => Key::KeyA,
            PlayerAction::Right => Key::KeyD,
            PlayerAction::Boost => Key::ShiftLeft,
            PlayerAction::Shoot => Key::Space,
            PlayerAction::Dodge => Key::ControlLeft,
            PlayerAction::Extra => Key::KeyE,
        }
    }
}

/// The unnormalized movement direction of a set of actions: each axis is
/// -1, 0 or +1.
#[derive(Debug, Clone, Copy, PartialEq, Eq, Structural)]
pub struct MoveAxes {
    pub x: i8,
    pub y: i8,
}

/// The set of actions pressed during one frame, one bit per action.
#[derive(Debug, Clone, Copy, PartialEq, Eq, Structural, Default)]
pub struct PlayerActionHolder {
    pub(crate) data: u8,
}

impl View for PlayerActionHolder {
    type V = u8;

    closed spec fn view(&self) -> u8 {
        self.data
    }
}

/// The holder of a raw action byte.
pub closed spec fn holder_of(data: u8) -> PlayerActionHolder {
    PlayerActionHolder { data }
}

/// A holder made from a byte is viewed as that byte.
pub proof fn lemma_holder_of(data: u8)
    ensures
        holder_of(data)@ == data,
{
}

/// Whether the action byte `data` holds `act`.
pub open spec fn holds(data: u8, act: PlayerAction) -> bool {
    data & action_bit(act) != 0
}

pub open spec fn axis(neg: bool, pos: bool) -> int {
    (if pos { 1int } else { 0int }) - (if neg { 1int } else { 0int })
}

proof fn lemma_bit_value(act: PlayerAction)
    ensures
        action_bit(act) == match act {
            PlayerAction::Forward => 0x01u8,
            PlayerAction::Backward => 0x02u8,
            PlayerAction::Left => 0x04u8,
            PlayerAction::Right => 0x08u8,
            PlayerAction::Boost => 0x10u8,
            PlayerAction::Shoot => 0x20u8,
            PlayerAction::Dodge => 0x40u8,
            PlayerAction::Extra => 0x80u8,
        },
{
    assert((1u8 << 0u8) == 0x01u8) by (bit_vector);
    assert((1u8 << 1u8) == 0x02u8) by (bit_vector);
    assert((1u8 << 2u8) == 0x04u8) by (bit_vector);
    assert((1u8 << 3u8) == 0x08u8) by (bit_vector);
    assert((1u8 << 4u8) == 0x10u8) by (bit_vector);
    assert((1u8 << 5u8) == 0x20u8) by (bit_vector);
    assert((1u8 << 6u8) == 0x40u8) by (bit_vector);
    assert((1u8 << 7u8) == 0x80u8) by (bit_vector);
}

impl PlayerActionHolder {
    /// The holder of a raw action byte, as received from the network.
    pub fn from_bits(data: u8) -> (h: Self)
        ensures
            h@ == data,
            h == holder_of(data),
    {
        PlayerActionHolder { data }
    }

    pub fn bits(&self) -> (b: u8)
        ensures
            b == self@,
    {
        self.data
    }

    pub fn get_from_act(act: PlayerAction) -> (b: u8)
        ensures
            b == action_bit(act),
    {
        proof {
            lemma_bit_value(act);
        }
        match act {
            PlayerAction::Forward => 0x01u8,
            PlayerAction::Backward => 0x02u8,
            PlayerAction::Left => 0x04u8,
            PlayerAction::Right => 0x08u8,
            PlayerAction::Boost => 0x10u8,
            PlayerAction::Shoot => 0x20u8,
            PlayerAction::Dodge => 0x40u8,
            PlayerAction::Extra => 0x80u8,
        }
    }

    pub fn clear_acts(&mut self)
        ensures
            final(self)@ == 0,
    {
        self.data = 0u8;
    }

    pub fn add_act(&mut self, act: PlayerAction)
        ensures
            final(self)@ == old(self)@ | action_bit(act),
    {
        self.data = self.data | Self::get_from_act(act);
    }

    pub fn check_act(&self, act: PlayerAction) -> (r: bool)
        ensures
            r == holds(self@, act),
    {
        (self.data & Self::get_from_act(act)) != 0u8
    }

    pub fn has_any_act(&self) -> (r: bool)
        ensures
            r == (self@ != 0),
    {
        self.data != 0u8
    }

    /// The movement direction before normalization: Forward adds +1 and
    /// Backward -1 on y, Left -1 and Right +1 on x.
    pub fn get_move_axes(&self) -> (m: MoveAxes)
        ensures
            m.x == axis(holds(self@, PlayerAction::Left), holds(self@, PlayerAction::Right)),
            m.y == axis(holds(self@, PlayerAction::Backward), holds(self@, PlayerAction::Forward)),
    {
        let mut x: i8 = 0;
        let mut y: i8 = 0;
        if self.check_act(PlayerAction::Forward) {
            y = y + 1;
        }
        if self.check_act(PlayerAction::Backward) {
            y = y - 1;
        }
        if self.check_act(PlayerAction::Left) {
            x = x - 1;
        }
        if self.check_act(PlayerAction::Right) {
            x = x + 1;
        }
        MoveAxes { x, y }
    }

    /// The holder of exactly the given actions (the frame's input, gathered
    /// from a cleared holder).
    pub fn from_actions(acts: &Vec<PlayerAction>) -> (h: Self)
        ensures
            forall|a: PlayerAction| holds(h@, a) <==> acts@.contains(a),
    {
        let mut h = PlayerActionHolder { data: 0 };
        let mut i: usize = 0;
        proof {
            lemma_holds_empty();
        }
        while i < acts.len()
            invariant
                i <= acts@.len(),
                forall|a: PlayerAction| holds(h@, a) <==> acts@.take(i as int).contains(a),
            decreases acts@.len() - i,
        {
            let ghost before = h@;
            h.add_act(acts[i]);
            proof {
                let prev = acts@.take(i as int);
                let next = acts@.take(i + 1);
                assert(next =~= prev.push(acts@[i as int]));
                assert forall|a: PlayerAction| holds(h@, a) <==> next.contains(a) by {
                    lemma_add_then_holds(before, acts@[i as int], a);
                    if next.contains(a) {
                        let k = choose|k: int| 0 <= k < next.len() && next[k] == a;
                        if k < prev.len() {
                            assert(prev[k] == a);
                        }
                    }
                    if prev.contains(a) {
                        let k = choose|k: int| 0 <= k < prev.len() && prev[k] == a;
                        assert(next[k] == a);
                    }
                    if acts@[i as int] == a {
                        assert(next[i as int] == a);
                    }
                }
            }
            i = i + 1;
        }
        assert(acts@.take(i as int) =~= acts@);
        h
    }
}

/// An empty action byte holds no action.
pub proof fn lemma_holds_empty()
    ensures
        forall|a: PlayerAction| !holds(0u8, a),
{
    assert forall|a: PlayerAction| !holds(0u8, a) by {
        let i = action_index(a);
        assert(i < 8);
        assert(i < 8u8 ==> (0u8 & ((1u8 << i) as u8)) == 0u8) by (bit_vector);
    }
}

/// Adding an action makes it held and leaves every other action as it was.
pub proof fn lemma_add_then_holds(data: u8, added: PlayerAction, a: PlayerAction)
    ensures
        holds(data | action_bit(added), a) <==> (added == a || holds(data, a)),
{
    let i = action_index(added);
    let j = action_index(a);
    assert(i < 8 && j < 8);
    assert(i < 8u8 && j < 8u8 ==> ((((data | ((1u8 << i) as u8)) & ((1u8 << j) as u8)) != 0u8)
        <==> (i == j || (data & ((1u8 << j) as u8)) != 0u8))) by (bit_vector);
    assert(i == j ==> added == a);
}

/// Clearing the holder releases every action.
pub proof fn lemma_cleared_holds_nothing(a: PlayerAction)
    ensures
        !holds(0u8, a),
{
    lemma_holds_empty();
}

} // verus!
