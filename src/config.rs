use vstd::prelude::*;

verus! {

/// Board settings for one session.
#[allow(non_snake_case)]
pub struct Config {
    pub width: i8,
    pub height: i8,
    pub mine_percent: i8,
    pub debugOn: bool,
}

impl Config {
    /// The default setup: an 8 by 8 board with a mine density of 5 percent.
    pub fn new() -> (c: Config)
        ensures
            c.width == 8,
            c.height == 8,
            c.mine_percent == 5,
            !c.debugOn,
    {
        Config { width: 8, height: 8, mine_percent: 5, debugOn: false }
    }
}

} // verus!
