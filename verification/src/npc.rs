//! Data of the wandering NPCs and how their seeds are formed.
use vstd::prelude::*;

verus! {

/// An item that an NPC template carries: a thing (`thing_type == 0`) of
/// definition `thing_def` made of `stuff`, or an esoteric text (`thing_type == 1`).
#[derive(Clone, Debug)]
pub struct DropItemData {
    pub thing_type: i32,
    pub thing_def: String,
    pub stuff: String,
}

/// A resolved NPC template of the wandering-NPC tables.
#[derive(Clone, Debug)]
pub struct JianghuNpcDef {
    pub name: String,
    pub last_name: String,
    pub first_name: String,
    pub title: String,
    pub school: i32,
    pub sex: i32,
    pub gong_level: i32,
    pub carry: Vec<DropItemData>,
}

/// A spell definition and whether it (or an ancestor) names a template.
#[derive(Clone, Debug)]
pub struct SpellDefData {
    pub name: String,
    pub has_template: bool,
}

/// The school number after clamping: negative schools become 999, schools
/// above 998 become 998.
pub open spec fn clamped_school(school: i32) -> int {
    if school < 0 {
        999
    } else if school > 998 {
        998
    } else {
        school as int
    }
}

/// The location seed of NPC `index` of level `rlevel` in `school`:
/// `school * 100000 + rlevel * 10000 + index`, with the school clamped.
pub fn get_jh_npc_local_seed(school: i32, rlevel: i32, index: i32) -> (r: i32)
    requires
        -214748 <= rlevel <= 214748,
        i32::MIN <= clamped_school(school) * 100000 + rlevel * 10000 <= i32::MAX,
        i32::MIN <= clamped_school(school) * 100000 + rlevel * 10000 + index <= i32::MAX,
    ensures
        r == clamped_school(school) * 100000 + rlevel * 10000 + index,
{
    let mut school = school;
    if school < 0 {
        school = 999;
    } else if school > 998 {
        school = 998;
    }
    (school * 100_000) + (rlevel * 10_000) + index
}

} // verus!
