//! What the daemon makes of the compositor's outputs: the monitor an
//! output stands for, and the size its wallpaper surface gets.
use vstd::prelude::*;
use crate::geometry::{Monitor, Rect};

verus! {

/// The monitor an output describes: known once it has a name and a logical
/// size; a missing position counts as the origin.
pub fn monitor_from_output(
    name: Option<String>,
    logical_size: Option<(i32, i32)>,
    logical_position: Option<(i32, i32)>,
) -> (r: Option<Monitor>)
    ensures
        r is Some <==> name is Some && logical_size is Some,
        r matches Some(m) ==> {
            &&& m.name@ == name->0@
            &&& m.logical.w == (logical_size->0).0 && m.logical.h == (logical_size->0).1
            &&& match logical_position {
                Some(p) => m.logical.x == p.0 && m.logical.y == p.1,
                None => m.logical.x == 0 && m.logical.y == 0,
            }
        },
{
    let name = match name {
        Some(n) => n,
        None => {
            return None;
        },
    };
    let (w, h) = match logical_size {
        Some(s) => s,
        None => {
            return None;
        },
    };
    let (x, y) = match logical_position {
        Some(p) => p,
        None => (0, 0),
    };
    Some(Monitor { name, logical: Rect { x, y, w, h } })
}

/// The size of a monitor's wallpaper surface on its first configure: the
/// size the compositor asks for when both sides are non-zero, else the
/// monitor's logical size when it is known, else none yet.
pub fn surface_size(new_size: (u32, u32), known: Option<Rect>) -> (r: Option<(i32, i32)>)
    ensures
        new_size.0 > 0 && new_size.1 > 0 ==> r == Some((new_size.0 as i32, new_size.1 as i32)),
        !(new_size.0 > 0 && new_size.1 > 0) ==> r == match known {
            Some(k) => Some((k.w, k.h)),
            None => None::<(i32, i32)>,
        },
{
    if new_size.0 > 0 && new_size.1 > 0 {
        Some((new_size.0 as i32, new_size.1 as i32))
    } else {
        match known {
            Some(k) => Some((k.w, k.h)),
            None => None,
        }
    }
}

} // verus!
