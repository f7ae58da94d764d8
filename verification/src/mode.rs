//! State carried by the interactive modes, and the decisions they make:
//! which configuration is on view, and how arrow-key steps move through the
//! classification buckets and through the bubbles.  Rendering and input
//! dispatch live with the UI collaborator; only the mode logic is here.

use vstd::prelude::*;

verus! {

use crate::state::classification_of;
use crate::state::Classification;
use crate::state::StateData;

/// Index a classification the way the view selector orders them.
pub open spec fn classification_index(c: Classification) -> int {
    match c {
        Classification::Valid => 0,
        Classification::InvalidT1 => 1,
        Classification::InvalidOther => 2,
    }
}

/// One step forward through a one-based cyclic range of `length` entries.
pub open spec fn cycle_forward(position: int, length: int) -> int {
    position % length + 1
}

/// One step backward through a one-based cyclic range of `length` entries.
pub open spec fn cycle_back(position: int, length: int) -> int {
    if position == 1 || position > length {
        length
    } else {
        position - 1
    }
}

/// Mode: free play, splashing vertices by hand.
pub struct Play {
    pub reversible_only: bool,
}

impl Play {
    /// A fresh play mode allows only reversible moves.
    pub fn create() -> (r: Play)
        ensures
            r.reversible_only,
    {
        Play { reversible_only: true }
    }
}

/// Mode: dragging vertices around the canvas.
pub struct Drag {
    pub selected: Option<usize>,
}

impl Drag {
    /// A fresh drag mode holds no selection.
    pub fn create() -> (r: Drag)
        ensures
            r.selected is None,
    {
        Drag { selected: None }
    }
}

/// Mode: editing the graph's structure, with save/load plumbing.
pub struct Blueprint {
    pub selected: Option<usize>,
    pub action_cd: usize,
    pub action: usize,
    pub can_drag: bool,
    pub loading_screen: bool,
    pub load_n: usize,
}

impl Blueprint {
    /// A fresh blueprint mode: nothing selected, no pending action.
    pub fn create() -> (r: Blueprint)
        ensures
            r.selected is None,
            r.action_cd == 0,
            r.action == 0,
            !r.can_drag,
            !r.loading_screen,
            r.load_n == 1,
    {
        Blueprint {
            selected: None,
            action_cd: 0,
            action: 0,
            can_drag: false,
            loading_screen: false,
            load_n: 1,
        }
    }

    /// One frame passes: the action-message countdown drops toward zero.
    pub fn tick(&mut self)
        ensures
            final(self).action_cd == if old(self).action_cd > 0 {
                old(self).action_cd - 1
            } else {
                0
            },
            final(self).selected == old(self).selected,
            final(self).action == old(self).action,
            final(self).can_drag == old(self).can_drag,
            final(self).loading_screen == old(self).loading_screen,
            final(self).load_n == old(self).load_n,
    {
        if self.action_cd > 0 {
            self.action_cd = self.action_cd - 1;
        }
    }
}

/// Mode: browsing the classification buckets of the state space.
pub struct Analyze {
    pub viewing_type: usize,
    pub viewing_length: usize,
    pub viewing: usize,
    pub parsed_analysis: Vec<Vec<u32>>,
}

impl Analyze {
    /// Open the analyze view on the currently loaded configuration: select
    /// its classification bucket and its position there, one-based.
    pub fn create(space: Option<&StateData>, loaded: u128) -> (r: Analyze)
        requires
            space matches Some(d) ==> d.wf() && d.holds_state(loaded),
        ensures
            r.viewing_length == 0,
            r.parsed_analysis@.len() == 0,
            space is None ==> r.viewing_type == 3 && r.viewing == 1,
            space matches Some(d) ==> r.viewing_type == classification_index(
                classification_of(d.adj(), d.base_spec(), loaded as nat),
            ) && r.viewing >= 1 && d.list_seq(
                classification_of(d.adj(), d.base_spec(), loaded as nat),
            )[r.viewing - 1] == loaded,
    {
        match space {
            Some(data) => {
                let found = data.classification_data(loaded);
                let bucket = data.get_list(found.0);
                let bucket_len = bucket.len();
                proof {
                    assert(found.1 < bucket_len);
                }
                let viewing_type: usize = match found.0 {
                    Classification::Valid => 0,
                    Classification::InvalidT1 => 1,
                    Classification::InvalidOther => 2,
                };
                Analyze {
                    viewing_type,
                    viewing_length: 0,
                    viewing: found.1 + 1,
                    parsed_analysis: Vec::new(),
                }
            },
            None => Analyze {
                viewing_type: 3,
                viewing_length: 0,
                viewing: 1,
                parsed_analysis: Vec::new(),
            },
        }
    }

    /// Arrow-key navigation: left/right cycle through the bucket on view,
    /// up/down cycle through the four view selections.
    pub fn step(&mut self, up: bool, down: bool, left: bool, right: bool)
        requires
            old(self).viewing_type <= 3,
            old(self).viewing >= 1,
        ensures
            ({
                let after_right = if old(self).viewing_length != 0 && right {
                    cycle_forward(old(self).viewing as int, old(self).viewing_length as int)
                } else {
                    old(self).viewing as int
                };
                final(self).viewing == if old(self).viewing_length != 0 && left {
                    cycle_back(after_right, old(self).viewing_length as int)
                } else {
                    after_right
                }
            }),
            ({
                let after_up = if up {
                    if old(self).viewing_type == 0 {
                        3int
                    } else {
                        old(self).viewing_type - 1
                    }
                } else {
                    old(self).viewing_type as int
                };
                final(self).viewing_type == if down {
                    (after_up + 1) % 4
                } else {
                    after_up
                }
            }),
            final(self).viewing_length == old(self).viewing_length,
            final(self).parsed_analysis == old(self).parsed_analysis,
    {
        if self.viewing_length != 0 {
            if right {
                self.viewing = self.viewing % self.viewing_length + 1;
            }
            if left {
                self.viewing = if self.viewing == 1 || self.viewing > self.viewing_length {
                    self.viewing_length
                } else {
                    self.viewing - 1
                };
            }
        }
        if up {
            self.viewing_type = if self.viewing_type == 0 {
                3
            } else {
                self.viewing_type - 1
            };
        }
        if down {
            self.viewing_type = (self.viewing_type + 1) % 4;
        }
    }
}

/// Mode: browsing the bubbles of the state space.
pub struct Bubbles {
    pub bubble: usize,
    pub bubble_length: usize,
    pub state: usize,
    pub state_length: usize,
}

impl Bubbles {
    /// Open the bubble view on the currently loaded configuration: select
    /// its bubble and its position inside it, one-based.
    pub fn create(space: Option<&StateData>, loaded: u128) -> (r: Bubbles)
        requires
            space matches Some(d) ==> d.wf() && d.holds_state(loaded),
        ensures
            space is None ==> r.bubble == 1 && r.state == 1 && r.bubble_length == 0
                && r.state_length == 0,
            space matches Some(d) ==> r.bubble_length == d.bubbles_seq().len() && r.bubble >= 1
                && r.state >= 1 && (r.bubble - 1) < d.bubbles_seq().len() && (r.state - 1)
                < d.bubbles_seq()[r.bubble - 1].len() && d.bubbles_seq()[r.bubble - 1][r.state - 1]
                == loaded && r.state_length == d.bubbles_seq()[r.bubble - 1].len(),
    {
        match space {
            Some(data) => {
                let found = data.bubble_data(loaded);
                let count = data.bubble_count();
                let members = data.bubble(found.0);
                let member_count = members.len();
                proof {
                    assert(found.0 < count && found.1 < member_count);
                }
                Bubbles {
                    bubble: found.0 + 1,
                    bubble_length: count,
                    state: found.1 + 1,
                    state_length: members.len(),
                }
            },
            None => Bubbles { bubble: 1, bubble_length: 0, state: 1, state_length: 0 },
        }
    }

    /// Re-center the view on a configuration just moved to, keeping the
    /// count of viewed bubbles.
    pub fn assign_self(&mut self, space: Option<&StateData>, state: u128)
        requires
            space matches Some(d) ==> d.wf() && d.holds_state(state),
        ensures
            final(self).bubble_length == old(self).bubble_length,
            ({
                let me = *final(self);
                &&& (space is None ==> me.bubble == 1 && me.state == 1 && me.state_length == 0)
                &&& (space matches Some(d) ==> me.bubble >= 1 && me.state >= 1 && (me.bubble - 1)
                    < d.bubbles_seq().len() && (me.state - 1) < d.bubbles_seq()[me.bubble - 1].len()
                    && d.bubbles_seq()[me.bubble - 1][me.state - 1] == state && me.state_length
                    == d.bubbles_seq()[me.bubble - 1].len())
            }),
    {
        match space {
            Some(data) => {
                let found = data.bubble_data(state);
                let count = data.bubble_count();
                let members = data.bubble(found.0);
                let member_count = members.len();
                proof {
                    assert(found.0 < count && found.1 < member_count);
                }
                self.bubble = found.0 + 1;
                self.state = found.1 + 1;
                self.state_length = members.len();
            },
            None => {
                self.bubble = 1;
                self.state = 1;
                self.state_length = 0;
            },
        }
    }

    /// Arrow-key navigation: left/right cycle through the bubble on view,
    /// up/down cycle through the bubbles.
    pub fn step(&mut self, up: bool, down: bool, left: bool, right: bool)
        requires
            old(self).state >= 1,
            old(self).bubble >= 1,
        ensures
            ({
                let after_right = if old(self).state_length != 0 && right {
                    cycle_forward(old(self).state as int, old(self).state_length as int)
                } else {
                    old(self).state as int
                };
                final(self).state == if old(self).state_length != 0 && left {
                    cycle_back(after_right, old(self).state_length as int)
                } else {
                    after_right
                }
            }),
            ({
                let after_up = if old(self).bubble_length != 0 && up {
                    cycle_forward(old(self).bubble as int, old(self).bubble_length as int)
                } else {
                    old(self).bubble as int
                };
                final(self).bubble == if old(self).bubble_length != 0 && down {
                    cycle_back(after_up, old(self).bubble_length as int)
                } else {
                    after_up
                }
            }),
            final(self).bubble_length == old(self).bubble_length,
            final(self).state_length == old(self).state_length,
    {
        if self.state_length != 0 {
            if right {
                self.state = self.state % self.state_length + 1;
            }
            if left {
                self.state = if self.state == 1 || self.state > self.state_length {
                    self.state_length
                } else {
                    self.state - 1
                };
            }
        }
        if self.bubble_length != 0 {
            if up {
                self.bubble = self.bubble % self.bubble_length + 1;
            }
            if down {
                self.bubble = if self.bubble == 1 || self.bubble > self.bubble_length {
                    self.bubble_length
                } else {
                    self.bubble - 1
                };
            }
        }
    }
}

} // verus!
