//! The records of the entity database as they are read, and what they
//! hold.

use crate::common::{MovementType, ZombieData};
use crate::fractions::values;
use crate::parse::{
    decimal_to_rational, decimal_value, parse_animation, parse_regular, table_pair_value,
    table_value,
};
use vstd::prelude::*;
use vstd::string::StringSliceAdditionalSpecFns;

verus! {

/// One record of the entity database, with its numbers and tables as
/// text.
pub struct RawZombieData {
    pub name: String,
    pub spawn_l: i64,
    pub spawn_r: i64,
    pub spawn_hugewave_l: i64,
    pub spawn_hugewave_r: i64,
    pub movement_type: String,
    pub movement_args: Option<String>,
    pub speed_l: String,
    pub speed_r: String,
    pub freeze_immune: bool,
    pub chill_immune: bool,
    pub defx_l: i32,
    pub defx_r: i32,
    pub defy_l: i32,
    pub defy_r: i32,
    pub atk_l: i32,
    pub atk_r: i32,
    pub hp: i32,
    pub summon_weight_normal: u32,
    pub summon_weight_hugewave: u32,
    pub on_ground: bool,
    pub in_pool: bool,
    pub in_pool_wave1to5: bool,
}

/// The bytes that write the characters.
pub open spec fn text_bytes(text: Seq<char>) -> Seq<u8> {
    vstd::utf8::encode_utf8(text)
}

/// The bytes of the argument of a movement model, where there is one.
pub open spec fn args_bytes(args: Option<String>) -> Option<Seq<u8>> {
    match args {
        Some(a) => Some(text_bytes(a@)),
        None => None,
    }
}

/// The movement model `m` is what the name `kind` and the argument `args`
/// write.
pub open spec fn movement_written(m: MovementType, kind: Seq<u8>, args: Option<Seq<u8>>) -> bool {
    if kind == "constant".spec_bytes() {
        m is Constant
    } else if kind == "animation".spec_bytes() {
        &&& args matches Some(a)
        &&& m matches MovementType::Animation(t)
        &&& table_value(a) == Some(values(t@))
    } else if kind == "regular".spec_bytes() {
        &&& args matches Some(a)
        &&& m matches MovementType::Regular(t, u)
        &&& table_pair_value(a) == Some((values(t@), values(u@)))
    } else if kind == "dancecheat".spec_bytes() {
        m is DanceCheat
    } else if kind == "dancing".spec_bytes() {
        &&& args matches Some(a)
        &&& m matches MovementType::Dancing(t)
        &&& table_value(a) == Some(values(t@))
    } else {
        kind == "zomboni".spec_bytes() && m is Zomboni
    }
}

/// The name `kind` and the argument `args` write a movement model.
pub open spec fn movement_readable(kind: Seq<u8>, args: Option<Seq<u8>>) -> bool {
    if kind == "constant".spec_bytes() {
        true
    } else if kind == "animation".spec_bytes() {
        args matches Some(a) && table_value(a) is Some
    } else if kind == "regular".spec_bytes() {
        args matches Some(a) && table_pair_value(a) is Some
    } else if kind == "dancecheat".spec_bytes() {
        true
    } else if kind == "dancing".spec_bytes() {
        args matches Some(a) && table_value(a) is Some
    } else {
        kind == "zomboni".spec_bytes()
    }
}

/// Everything in the record that is text can be read.
pub open spec fn record_readable(data: RawZombieData) -> bool {
    &&& movement_readable(text_bytes(data.movement_type@), args_bytes(data.movement_args))
    &&& decimal_value(text_bytes(data.speed_l@)) is Some
    &&& decimal_value(text_bytes(data.speed_r@)) is Some
}

/// The record `z` holds what `data` writes.
pub open spec fn record_written(z: ZombieData, data: RawZombieData) -> bool {
    &&& z.spawn == (data.spawn_l, data.spawn_r)
    &&& z.spawn_hugewave == (data.spawn_hugewave_l, data.spawn_hugewave_r)
    &&& movement_written(
        z.movement_type,
        text_bytes(data.movement_type@),
        args_bytes(data.movement_args),
    )
    &&& decimal_value(text_bytes(data.speed_l@)) == Some(z.speed.0@)
    &&& decimal_value(text_bytes(data.speed_r@)) == Some(z.speed.1@)
    &&& z.freeze_immune == data.freeze_immune
    &&& z.chill_immune == data.chill_immune
    &&& z.def_x == (data.defx_l, data.defx_r)
    &&& z.def_y == (data.defy_l, data.defy_r)
    &&& z.atk == (data.atk_l, data.atk_r)
    &&& z.hp == data.hp
    &&& z.summon_weight_normal == data.summon_weight_normal
    &&& z.summon_weight_hugewave == data.summon_weight_hugewave
    &&& z.if_generate_in == (data.on_ground, data.in_pool)
    &&& z.if_generate_in_wave1to5 == (data.on_ground, data.in_pool_wave1to5)
}

/// Whether the two runs of bytes are the same.
fn bytes_equal(a: &[u8], b: &[u8]) -> (r: bool)
    ensures
        r == (a@ == b@),
{
    if a.len() != b.len() {
        return false;
    }
    let mut i: usize = 0;
    while i < a.len()
        invariant
            a@.len() == b@.len(),
            0 <= i <= a@.len(),
            forall|j: int| 0 <= j < i ==> a@[j] == b@[j],
        decreases a@.len() - i,
    {
        if a[i] != b[i] {
            return false;
        }
        i += 1;
    }
    assert(a@ =~= b@);
    true
}

/// The movement model that the name `kind` and the argument `args` write.
fn read_movement(kind: &str, args: &Option<String>) -> (r: Option<MovementType>)
    ensures
        r is Some <==> movement_readable(kind.spec_bytes(), args_bytes(*args)),
        r matches Some(m) ==> m.wf() && movement_written(
            m,
            kind.spec_bytes(),
            args_bytes(*args),
        ),
{
    let name = kind.as_bytes();
    if bytes_equal(name, "constant".as_bytes()) {
        Some(MovementType::Constant)
    } else if bytes_equal(name, "animation".as_bytes()) {
        match args {
            Some(a) => {
                let table = parse_animation(a.as_str())?;
                Some(MovementType::Animation(table))
            },
            None => None,
        }
    } else if bytes_equal(name, "regular".as_bytes()) {
        match args {
            Some(a) => {
                let tables = parse_regular(a.as_str())?;
                Some(MovementType::Regular(tables.0, tables.1))
            },
            None => None,
        }
    } else if bytes_equal(name, "dancecheat".as_bytes()) {
        Some(MovementType::DanceCheat)
    } else if bytes_equal(name, "dancing".as_bytes()) {
        match args {
            Some(a) => {
                let table = parse_animation(a.as_str())?;
                Some(MovementType::Dancing(table))
            },
            None => None,
        }
    } else if bytes_equal(name, "zomboni".as_bytes()) {
        Some(MovementType::Zomboni)
    } else {
        None
    }
}

/// The record that `data` writes: its movement model by its name, with
/// the tables that the argument gives, and its speeds as numbers. The
/// result is `None` exactly if some text of `data` cannot be read.
pub fn convert_zombie_data(data: RawZombieData) -> (r: Option<ZombieData>)
    ensures
        r is Some <==> record_readable(data),
        r matches Some(z) ==> z.wf() && record_written(z, data),
{
    let movement_type = read_movement(data.movement_type.as_str(), &data.movement_args)?;
    let speed_l = decimal_to_rational(data.speed_l.as_str())?;
    let speed_r = decimal_to_rational(data.speed_r.as_str())?;
    Some(
        ZombieData {
            spawn: (data.spawn_l, data.spawn_r),
            spawn_hugewave: (data.spawn_hugewave_l, data.spawn_hugewave_r),
            movement_type: movement_type,
            speed: (speed_l, speed_r),
            freeze_immune: data.freeze_immune,
            chill_immune: data.chill_immune,
            def_x: (data.defx_l, data.defx_r),
            def_y: (data.defy_l, data.defy_r),
            atk: (data.atk_l, data.atk_r),
            hp: data.hp,
            summon_weight_normal: data.summon_weight_normal,
            summon_weight_hugewave: data.summon_weight_hugewave,
            if_generate_in: (data.on_ground, data.in_pool),
            if_generate_in_wave1to5: (data.on_ground, data.in_pool_wave1to5),
        },
    )
}

} // verus!
