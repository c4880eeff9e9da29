//! The entity records that the evaluators read.

use crate::rational::Num;
use vstd::prelude::*;

verus! {

/// The number of cells of the board; positions are cells `0..CELLS`.
pub const CELLS: usize = 880;

/// The kinds of entity.
#[derive(PartialEq, Eq, Hash, Copy, Clone, Debug)]
pub enum ZombieType {
    Regular,
    DCFast,
    DCSlow,
    Flag,
    Conehead,
    PoleVaulting,
    Buckethead,
    Newspaper,
    ScreenDoor,
    Football,
    Dancing,
    Snorkel,
    Zomboni,
    DolphinRider,
    JackInTheBox,
    Balloon,
    Digger,
    Pogo,
    Ladder,
    Catapult,
    Gargantuar,
    GigaGargantuar,
}

/// How an entity moves. The tables hold the displacement of each frame of
/// one cycle of the entity's animation.
pub enum MovementType {
    Constant,
    Animation(Vec<Num>),
    Regular(Vec<Num>, Vec<Num>),
    DanceCheat,
    Dancing(Vec<Num>),
    Zomboni,
}

/// One record of the entity database.
pub struct ZombieData {
    pub spawn: (i64, i64),
    pub spawn_hugewave: (i64, i64),
    pub movement_type: MovementType,
    pub speed: (Num, Num),
    pub freeze_immune: bool,
    pub chill_immune: bool,
    pub def_x: (i32, i32),
    pub def_y: (i32, i32),
    pub atk: (i32, i32),
    pub hp: i32,
    pub summon_weight_normal: u32,
    pub summon_weight_hugewave: u32,
    pub if_generate_in: (bool, bool),
    pub if_generate_in_wave1to5: (bool, bool),
}

/// Every number of the table is in lowest terms.
pub open spec fn table_wf(table: Seq<Num>) -> bool {
    forall|i: int| 0 <= i < table.len() ==> (#[trigger] table[i]).wf()
}

impl MovementType {
    /// Every number of the variant's tables is in lowest terms.
    pub open spec fn wf(&self) -> bool {
        match self {
            MovementType::Animation(t) => table_wf(t@),
            MovementType::Dancing(t) => table_wf(t@),
            MovementType::Regular(a, b) => table_wf(a@) && table_wf(b@),
            _ => true,
        }
    }
}

impl ZombieData {
    /// The numbers of the record are in lowest terms.
    pub open spec fn wf(&self) -> bool {
        self.speed.0.wf() && self.speed.1.wf() && self.movement_type.wf()
    }

    /// The number of spawn positions.
    pub open spec fn spawn_span(&self) -> int {
        self.spawn.1 - self.spawn.0 + 1
    }
}

} // verus!
