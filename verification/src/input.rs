use vstd::prelude::*;

verus! {

/// The keys a player holds in one input message.
#[derive(Default, Debug)]
pub struct KeyState {
    pub left: bool,
    pub right: bool,
    pub rot: bool,
    pub counter_rot: bool,
    pub hard_drop: bool,
    pub fast_drop: bool,
    pub player_id: usize,
    pub player_name: String,
}

} // verus!
