//! The coordinate spaces of the drawings and the check that a shape stays in one of them.
//!
//! A shape is placed in one kind of coordinates: `World` (latitude, longitude and altitude, fixed
//! to the ground), `Screen` (canvas pixels from a corner, fixed to the screen, flat shapes and
//! lines only) or `View` (metres right, up and forward of the camera). All positions of one shape
//! use the same kind.
use vstd::prelude::*;

verus! {

/// The corner of the canvas that a `Screen` position counts from.
#[derive(Debug, Clone, Copy, PartialEq, Eq)]
pub enum Corner {
    TopLeft,
    TopRight,
    BottomLeft,
    BottomRight,
    Center,
}

/// The kind of coordinates of a shape.
#[derive(Debug, Clone, Copy, PartialEq, Eq, Structural)]
pub enum Space {
    World,
    View,
    Screen,
}

/// The reason why a shape is refused, if it is: no position at all, positions of different
/// kinds, or a solid placed in screen coordinates; otherwise the kind of its positions.
pub open spec fn validate_spec(spaces: Seq<Space>, solid: bool) -> Result<Space, Seq<char>> {
    if spaces.len() == 0 {
        Err("位置が指定されていない"@)
    } else if exists|i: int| 0 <= i < spaces.len() && #[trigger] spaces[i] != spaces[0] {
        Err("位置の種類(World/Screen/View)が混ざっている"@)
    } else if spaces[0] == Space::Screen && solid {
        Err("3D図形は画面座標(Screen)に置けない(ViewかWorldを使う)"@)
    } else {
        Ok(spaces[0])
    }
}

/// A shape is accepted exactly when it has positions, all of one kind, and is not a solid in
/// screen coordinates; the kind given back is then the kind of every position. If any two
/// positions differ in kind, the shape is refused.
pub proof fn lemma_accepted_has_one_kind(spaces: Seq<Space>, solid: bool)
    ensures
        validate_spec(spaces, solid) matches Ok(x) ==> {
            &&& spaces.len() > 0
            &&& forall|i: int| 0 <= i < spaces.len() ==> #[trigger] spaces[i] == x
            &&& !(x == Space::Screen && solid)
        },
        (exists|i: int, j: int|
            0 <= i < spaces.len() && 0 <= j < spaces.len() && #[trigger] spaces[i]
                != #[trigger] spaces[j]) ==> validate_spec(spaces, solid) is Err,
        (spaces.len() > 0 && (forall|i: int| 0 <= i < spaces.len() ==> #[trigger] spaces[i]
            == spaces[0]) && !(spaces[0] == Space::Screen && solid)) ==> validate_spec(
            spaces,
            solid,
        ) == Ok::<Space, Seq<char>>(spaces[0]),
{
    if exists|i: int, j: int|
        0 <= i < spaces.len() && 0 <= j < spaces.len() && #[trigger] spaces[i]
            != #[trigger] spaces[j] {
        let (i, j) = choose|i: int, j: int|
            0 <= i < spaces.len() && 0 <= j < spaces.len() && #[trigger] spaces[i]
                != #[trigger] spaces[j];
        if spaces[i] == spaces[0] {
            assert(spaces[j] != spaces[0]);
        } else {
            assert(spaces[i] != spaces[0]);
        }
    }
}

/// Checks the kinds of the positions of a shape (`spaces`, in order; `solid` for 3D shapes) and
/// gives their common kind, or the reason for refusing the shape.
pub fn validate_spaces(spaces: &[Space], solid: bool) -> (r: Result<Space, &'static str>)
    ensures
        match validate_spec(spaces@, solid) {
            Ok(s) => r == Ok::<Space, &'static str>(s),
            Err(m) => r matches Err(e) && e@ == m,
        },
{
    if spaces.len() == 0 {
        return Err("位置が指定されていない");
    }
    let space = spaces[0];
    let mut i: usize = 1;
    while i < spaces.len()
        invariant
            1 <= i <= spaces@.len(),
            space == spaces@[0],
            forall|j: int| 0 <= j < i ==> spaces@[j] == space,
        decreases spaces@.len() - i,
    {
        if spaces[i] != space {
            return Err("位置の種類(World/Screen/View)が混ざっている");
        }
        i = i + 1;
    }
    if space == Space::Screen && solid {
        return Err("3D図形は画面座標(Screen)に置けない(ViewかWorldを使う)");
    }
    Ok(space)
}

} // verus!
