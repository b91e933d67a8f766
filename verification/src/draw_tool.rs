//! The kinds of shape that the drawing editor makes, how many clicks each takes, the guidance
//! shown while placing points, the state of the shape being placed, and the list of the shapes
//! made, with their names and the selection. Making the shape from the points, and keeping the
//! shapes themselves, is the caller's (it works in geographic coordinates).
use vstd::prelude::*;
use crate::fetch::{decimal, push_decimal};

verus! {

/// A kind of shape that can be drawn.
#[derive(Debug, Clone, Copy, PartialEq, Eq, Structural)]
pub enum ToolKind {
    Circle,
    Rect,
    Polygon,
    Sector,
    Polyline,
    Sphere,
    Cuboid,
    Cylinder,
    Cone,
}

/// The name of a kind.
pub open spec fn label_spec(kind: ToolKind) -> Seq<char> {
    match kind {
        ToolKind::Circle => "円"@,
        ToolKind::Rect => "矩形"@,
        ToolKind::Polygon => "多角形"@,
        ToolKind::Sector => "扇形"@,
        ToolKind::Polyline => "折れ線"@,
        ToolKind::Sphere => "球"@,
        ToolKind::Cuboid => "直方体"@,
        ToolKind::Cylinder => "円柱"@,
        ToolKind::Cone => "円錐"@,
    }
}

/// The clicks that complete a shape; `None` for polygons and polylines (any number of points).
pub open spec fn fixed_points_spec(kind: ToolKind) -> Option<usize> {
    match kind {
        ToolKind::Sector => Some(3),
        ToolKind::Polygon | ToolKind::Polyline => None,
        _ => Some(2),
    }
}

/// The fewest points with which a polygon or polyline can be finished.
pub open spec fn min_points_spec(kind: ToolKind) -> usize {
    match kind {
        ToolKind::Polygon => 3,
        _ => 2,
    }
}

/// The guidance for the next click after `placed` points.
pub open spec fn hint_spec(kind: ToolKind, placed: usize) -> Seq<char> {
    match kind {
        ToolKind::Circle => if placed == 0 {
            "円の中心をクリック"@
        } else {
            "円周上の点をクリック(中心からの距離が半径)"@
        },
        ToolKind::Rect => if placed == 0 {
            "矩形の1つ目の角をクリック"@
        } else {
            "対角の角をクリック(東西・南北に沿った矩形)"@
        },
        ToolKind::Sector => if placed == 0 {
            "扇形の中心をクリック"@
        } else if placed == 1 {
            "扇の開始側の縁をクリック(半径と開始方位)"@
        } else {
            "扇の終了側の縁をクリック(開始から時計回り)"@
        },
        ToolKind::Polygon => if placed == 0 {
            "頂点を順にクリック(3点以上)"@
        } else {
            "次の頂点をクリック / ダブルクリックかEnterで確定"@
        },
        ToolKind::Polyline => if placed == 0 {
            "折れ線の始点をクリック"@
        } else {
            "次の点をクリック / ダブルクリックかEnterで確定"@
        },
        ToolKind::Sphere => if placed == 0 {
            "球の中心をクリック"@
        } else {
            "球の表面の点をクリック(中心からの距離が半径)"@
        },
        ToolKind::Cuboid => if placed == 0 {
            "直方体の底面の1つ目の角をクリック"@
        } else {
            "底面の対角の角をクリック"@
        },
        ToolKind::Cylinder => if placed == 0 {
            "円柱の底面の中心をクリック"@
        } else {
            "底面の円周上の点をクリック"@
        },
        ToolKind::Cone => if placed == 0 {
            "円錐の底面の中心をクリック"@
        } else {
            "底面の円周上の点をクリック"@
        },
    }
}

impl ToolKind {
    /// Every kind, in the order of the tool bar.
    pub const ALL: [ToolKind; 9] = [
        ToolKind::Circle,
        ToolKind::Rect,
        ToolKind::Polygon,
        ToolKind::Sector,
        ToolKind::Polyline,
        ToolKind::Sphere,
        ToolKind::Cuboid,
        ToolKind::Cylinder,
        ToolKind::Cone,
    ];

    /// The name shown for the kind.
    pub fn label(self) -> (s: &'static str)
        ensures
            s@ == label_spec(self),
    {
        match self {
            ToolKind::Circle => "円",
            ToolKind::Rect => "矩形",
            ToolKind::Polygon => "多角形",
            ToolKind::Sector => "扇形",
            ToolKind::Polyline => "折れ線",
            ToolKind::Sphere => "球",
            ToolKind::Cuboid => "直方体",
            ToolKind::Cylinder => "円柱",
            ToolKind::Cone => "円錐",
        }
    }

    /// The clicks that complete a shape of this kind; `None` for polygons and polylines.
    pub fn fixed_points(self) -> (n: Option<usize>)
        ensures
            n == fixed_points_spec(self),
    {
        match self {
            ToolKind::Sector => Some(3),
            ToolKind::Polygon | ToolKind::Polyline => None,
            _ => Some(2),
        }
    }

    /// The fewest points with which a polygon or polyline can be finished.
    pub fn min_points(self) -> (n: usize)
        ensures
            n == min_points_spec(self),
    {
        match self {
            ToolKind::Polygon => 3,
            _ => 2,
        }
    }

    /// What to click next after `placed` points.
    pub fn hint(self, placed: usize) -> (s: &'static str)
        ensures
            s@ == hint_spec(self, placed),
    {
        match self {
            ToolKind::Circle => if placed == 0 {
                "円の中心をクリック"
            } else {
                "円周上の点をクリック(中心からの距離が半径)"
            },
            ToolKind::Rect => if placed == 0 {
                "矩形の1つ目の角をクリック"
            } else {
                "対角の角をクリック(東西・南北に沿った矩形)"
            },
            ToolKind::Sector => if placed == 0 {
                "扇形の中心をクリック"
            } else if placed == 1 {
                "扇の開始側の縁をクリック(半径と開始方位)"
            } else {
                "扇の終了側の縁をクリック(開始から時計回り)"
            },
            ToolKind::Polygon => if placed == 0 {
                "頂点を順にクリック(3点以上)"
            } else {
                "次の頂点をクリック / ダブルクリックかEnterで確定"
            },
            ToolKind::Polyline => if placed == 0 {
                "折れ線の始点をクリック"
            } else {
                "次の点をクリック / ダブルクリックかEnterで確定"
            },
            ToolKind::Sphere => if placed == 0 {
                "球の中心をクリック"
            } else {
                "球の表面の点をクリック(中心からの距離が半径)"
            },
            ToolKind::Cuboid => if placed == 0 {
                "直方体の底面の1つ目の角をクリック"
            } else {
                "底面の対角の角をクリック"
            },
            ToolKind::Cylinder => if placed == 0 {
                "円柱の底面の中心をクリック"
            } else {
                "底面の円周上の点をクリック"
            },
            ToolKind::Cone => if placed == 0 {
                "円錐の底面の中心をクリック"
            } else {
                "底面の円周上の点をクリック"
            },
        }
    }
}

/// The guidance line of the editor: `"{name}: {hint}"` for the chosen tool after `placed`
/// points, empty when no tool is chosen.
pub fn hint_text(tool: Option<ToolKind>, placed: usize) -> (s: String)
    ensures
        s@ == match tool {
            Some(kind) => label_spec(kind) + ": "@ + hint_spec(kind, placed),
            None => Seq::<char>::empty(),
        },
{
    let mut s = String::new();
    match tool {
        Some(kind) => {
            s.append(kind.label());
            s.append(": ");
            s.append(kind.hint(placed));
        },
        None => {},
    }
    s
}

/// Whether a polygon or polyline with `placed` points can be finished now (the state of the
/// finish button): only for those kinds, and only with at least their minimum of points.
pub fn can_finish(tool: Option<ToolKind>, placed: usize) -> (b: bool)
    ensures
        b == (tool matches Some(kind) && fixed_points_spec(kind) is None && placed
            >= min_points_spec(kind)),
{
    match tool {
        Some(kind) => match kind.fixed_points() {
            None => placed >= kind.min_points(),
            Some(_) => false,
        },
        None => false,
    }
}

/// A shape of a fixed number of clicks completes on the click that answers its last prompt: each
/// of its clicks has a prompt of its own, and no new prompt comes after the last one.
pub proof fn lemma_one_prompt_per_click(kind: ToolKind, n: usize)
    requires
        fixed_points_spec(kind) == Some(n),
    ensures
        n >= 1,
        forall|p: usize, q: usize| p < q < n ==> hint_spec(kind, p) != hint_spec(kind, q),
        forall|p: usize| p >= n - 1 ==> #[trigger] hint_spec(kind, p) == hint_spec(
            kind,
            (n - 1) as usize,
        ),
{
    match kind {
        ToolKind::Circle => {
            reveal_strlit("円の中心をクリック");
            reveal_strlit("円周上の点をクリック(中心からの距離が半径)");
            assert(hint_spec(kind, 0)[1] != hint_spec(kind, 1)[1]);
        },
        ToolKind::Rect => {
            reveal_strlit("矩形の1つ目の角をクリック");
            reveal_strlit("対角の角をクリック(東西・南北に沿った矩形)");
            assert(hint_spec(kind, 0)[1] != hint_spec(kind, 1)[1]);
        },
        ToolKind::Sector => {
            reveal_strlit("扇形の中心をクリック");
            reveal_strlit("扇の開始側の縁をクリック(半径と開始方位)");
            reveal_strlit("扇の終了側の縁をクリック(開始から時計回り)");
            assert(hint_spec(kind, 0)[1] != hint_spec(kind, 1)[1]);
            assert(hint_spec(kind, 0)[1] != hint_spec(kind, 2)[1]);
            assert(hint_spec(kind, 1)[2] != hint_spec(kind, 2)[2]);
        },
        ToolKind::Sphere => {
            reveal_strlit("球の中心をクリック");
            reveal_strlit("球の表面の点をクリック(中心からの距離が半径)");
            assert(hint_spec(kind, 0)[2] != hint_spec(kind, 1)[2]);
        },
        ToolKind::Cuboid => {
            reveal_strlit("直方体の底面の1つ目の角をクリック");
            reveal_strlit("底面の対角の角をクリック");
            assert(hint_spec(kind, 0)[1] != hint_spec(kind, 1)[1]);
        },
        ToolKind::Cylinder => {
            reveal_strlit("円柱の底面の中心をクリック");
            reveal_strlit("底面の円周上の点をクリック");
            assert(hint_spec(kind, 0)[1] != hint_spec(kind, 1)[1]);
        },
        ToolKind::Cone => {
            reveal_strlit("円錐の底面の中心をクリック");
            reveal_strlit("底面の円周上の点をクリック");
            assert(hint_spec(kind, 0)[1] != hint_spec(kind, 1)[1]);
        },
        _ => {},
    }
    assert forall|p: usize, q: usize| p < q < n implies hint_spec(kind, p) != hint_spec(kind, q) by {
        if q == 1 {
            assert(p == 0);
        } else if q == 2 && p == 0 {
        } else if q == 2 {
            assert(p == 1);
        }
    }
}

/// The shape being placed: the chosen tool and the points placed so far (of any type `P`).
pub struct Draft<P> {
    tool: Option<ToolKind>,
    points: Vec<P>,
}

/// What a click led to.
#[derive(Clone, Copy, Debug, PartialEq, Eq)]
pub enum ClickResult {
    /// No tool is chosen, or the click was too close to the last point: nothing changes.
    Ignored,
    /// The point was added.
    Added,
    /// The point was added and completes a shape of a fixed number of points: make it from
    /// `points()`, then call `made` or `rejected`.
    Complete,
}

impl<P: Copy> Draft<P> {
    /// The chosen tool.
    pub closed spec fn tool_spec(&self) -> Option<ToolKind> {
        self.tool
    }

    /// The points placed.
    pub closed spec fn points_spec(&self) -> Seq<P> {
        self.points@
    }

    /// No tool, no point.
    pub fn new() -> (d: Self)
        ensures
            d.tool_spec() is None,
            d.points_spec() == Seq::<P>::empty(),
    {
        Draft { tool: None, points: Vec::new() }
    }

    /// The chosen tool.
    pub fn tool(&self) -> (t: Option<ToolKind>)
        ensures
            t == self.tool_spec(),
    {
        self.tool
    }

    /// The points placed.
    pub fn points(&self) -> (p: &[P])
        ensures
            p@ == self.points_spec(),
    {
        self.points.as_slice()
    }

    /// Drops the tool and the points.
    pub fn cancel(&mut self)
        ensures
            final(self).tool_spec() is None,
            final(self).points_spec() == Seq::<P>::empty(),
    {
        self.tool = None;
        self.points = Vec::new();
    }

    /// Chooses a tool, dropping the points; choosing the chosen tool again drops it.
    pub fn start(&mut self, kind: ToolKind)
        ensures
            final(self).tool_spec() == if old(self).tool_spec() == Some(kind) {
                None
            } else {
                Some(kind)
            },
            final(self).points_spec() == Seq::<P>::empty(),
    {
        let same = match self.tool {
            Some(t) => t == kind,
            None => false,
        };
        if same {
            self.cancel();
            return ;
        }
        self.points = Vec::new();
        self.tool = Some(kind);
    }

    /// Whether a tool is chosen.
    pub fn is_active(&self) -> (b: bool)
        ensures
            b == self.tool_spec() is Some,
    {
        self.tool.is_some()
    }

    /// Whether the cursor has to be followed (a tool is chosen and a point placed).
    pub fn wants_hover(&self) -> (b: bool)
        ensures
            b == (self.tool_spec() is Some && self.points_spec().len() > 0),
    {
        self.tool.is_some() && self.points.len() > 0
    }

    /// The guidance line for the next click.
    pub fn hint(&self) -> (s: String)
        ensures
            s@ == match self.tool_spec() {
                Some(kind) => label_spec(kind) + ": "@ + hint_spec(kind, self.points_spec().len() as usize),
                None => Seq::<char>::empty(),
            },
    {
        hint_text(self.tool, self.points.len())
    }

    /// Whether the polygon or polyline can be finished now.
    pub fn can_finish(&self) -> (b: bool)
        ensures
            b == (self.tool_spec() matches Some(kind) && fixed_points_spec(kind) is None
                && self.points_spec().len() >= min_points_spec(kind)),
    {
        can_finish(self.tool, self.points.len())
    }

    /// A click at `p`; `too_close` tells that it lies too close to the last point to count (the
    /// second click of a double click). The point is added unless no tool is chosen or it is too
    /// close; when it completes a shape of a fixed number of points, that is reported.
    pub fn click(&mut self, p: P, too_close: bool) -> (r: ClickResult)
        ensures
            final(self).tool_spec() == old(self).tool_spec(),
            match old(self).tool_spec() {
                None => r == ClickResult::Ignored && final(self).points_spec() == old(self).points_spec(),
                Some(kind) => if too_close && old(self).points_spec().len() > 0 {
                    r == ClickResult::Ignored && final(self).points_spec() == old(self).points_spec()
                } else {
                    &&& final(self).points_spec() == old(self).points_spec().push(p)
                    &&& (r == ClickResult::Complete) == (fixed_points_spec(kind) == Some(
                        (old(self).points_spec().len() + 1) as usize,
                    ))
                    &&& r != ClickResult::Ignored
                },
            },
    {
        let kind = match self.tool {
            None => return ClickResult::Ignored,
            Some(kind) => kind,
        };
        if too_close && self.points.len() > 0 {
            return ClickResult::Ignored;
        }
        self.points.push(p);
        match kind.fixed_points() {
            Some(n) => if n == self.points.len() {
                ClickResult::Complete
            } else {
                ClickResult::Added
            },
            None => ClickResult::Added,
        }
    }

    /// The shape was made from the points: start over with the same tool.
    pub fn made(&mut self)
        ensures
            final(self).tool_spec() == old(self).tool_spec(),
            final(self).points_spec() == Seq::<P>::empty(),
    {
        self.points = Vec::new();
    }

    /// The shape could not be made (it has no size): the last point is taken back.
    pub fn rejected(&mut self)
        ensures
            final(self).tool_spec() == old(self).tool_spec(),
            final(self).points_spec() == if old(self).points_spec().len() > 0 {
                old(self).points_spec().drop_last()
            } else {
                old(self).points_spec()
            },
    {
        let _ = self.points.pop();
    }

    /// Takes the last point back; with no point, drops the tool.
    pub fn undo(&mut self)
        ensures
            old(self).points_spec().len() > 0 ==> final(self).tool_spec() == old(self).tool_spec()
                && final(self).points_spec() == old(self).points_spec().drop_last(),
            old(self).points_spec().len() == 0 ==> final(self).tool_spec() is None
                && final(self).points_spec() == Seq::<P>::empty(),
    {
        if self.points.len() > 0 {
            let _ = self.points.pop();
        } else {
            self.cancel();
        }
    }
}

/// A shape made in the editor: its id among the drawings and the name shown in the list.
#[derive(Debug, Clone, PartialEq)]
pub struct UserShape {
    pub id: u64,
    pub name: String,
}

/// An entry of the list as values: (id, name).
pub open spec fn entry_of(u: UserShape) -> (u64, Seq<char>) {
    (u.id, u.name@)
}

/// The entries of a list of shapes as values, in order.
pub open spec fn entries_of(s: Seq<UserShape>) -> Seq<(u64, Seq<char>)> {
    Seq::new(s.len(), |i: int| entry_of(s[i]))
}

/// Whether some entry has the id `id`.
pub open spec fn has_id(s: Seq<(u64, Seq<char>)>, id: u64) -> bool {
    exists|i: int| 0 <= i < s.len() && (#[trigger] s[i]).0 == id
}

/// Whether entry `i` is the first with the id `id`.
pub open spec fn is_first(s: Seq<(u64, Seq<char>)>, id: u64, i: int) -> bool {
    &&& 0 <= i < s.len()
    &&& s[i].0 == id
    &&& forall|j: int| 0 <= j < i ==> (#[trigger] s[j]).0 != id
}

/// The entries of `s` without those of the id `id`, in their order.
pub open spec fn without_id(s: Seq<(u64, Seq<char>)>, id: u64) -> Seq<(u64, Seq<char>)>
    decreases s.len(),
{
    if s.len() == 0 {
        s
    } else {
        let rest = without_id(s.drop_last(), id);
        if s.last().0 == id {
            rest
        } else {
            rest.push(s.last())
        }
    }
}

/// The default name of the `serial`-th shape made with the tool `kind`.
pub open spec fn default_name(kind: ToolKind, serial: nat) -> Seq<char> {
    label_spec(kind) + " "@ + decimal(serial)
}

/// The name of a copy of a shape named `name`.
pub open spec fn copy_name(name: Seq<char>) -> Seq<char> {
    name + " のコピー"@
}

/// What `without_id` leaves has no entry of the id, and is no longer than what it was given.
proof fn lemma_without_id(s: Seq<(u64, Seq<char>)>, id: u64)
    ensures
        without_id(s, id).len() <= s.len(),
        forall|i: int|
            0 <= i < without_id(s, id).len() ==> (#[trigger] without_id(s, id)[i]).0 != id,
    decreases s.len(),
{
    if s.len() > 0 {
        lemma_without_id(s.drop_last(), id);
    }
}

/// Removing a shape keeps the other entries in the order they were made: what is left is the
/// subsequence of the entries whose id differs.
pub proof fn lemma_without_id_keeps_order(s: Seq<(u64, Seq<char>)>, id: u64)
    ensures
        without_id(s, id) == s.filter(|e: (u64, Seq<char>)| e.0 != id),
    decreases s.len(),
{
    reveal(Seq::filter);
    if s.len() > 0 {
        lemma_without_id_keeps_order(s.drop_last(), id);
    }
}

/// The shapes made in the editor, in the order they were made, with the one selected and the
/// counter that numbers the default names.
pub struct ShapeList {
    shapes: Vec<UserShape>,
    serial: u32,
    selected: Option<u64>,
}

impl ShapeList {
    /// The entries, in order.
    pub closed spec fn entries(&self) -> Seq<(u64, Seq<char>)> {
        entries_of(self.shapes@)
    }

    /// The counter of default names.
    pub closed spec fn serial_value(&self) -> nat {
        self.serial as nat
    }

    /// The selected shape.
    pub closed spec fn selection(&self) -> Option<u64> {
        self.selected
    }

    /// No shape, nothing selected, the counter at 0.
    pub fn new() -> (r: Self)
        ensures
            r.entries() == Seq::<(u64, Seq<char>)>::empty(),
            r.serial_value() == 0,
            r.selection() is None,
    {
        let r = ShapeList { shapes: Vec::new(), serial: 0, selected: None };
        proof {
            assert(r.entries() =~= Seq::<(u64, Seq<char>)>::empty());
        }
        r
    }

    /// The shapes, in the order they were made.
    pub fn shapes(&self) -> (r: &[UserShape])
        ensures
            entries_of(r@) == self.entries(),
    {
        self.shapes.as_slice()
    }

    /// The counter of default names.
    pub fn serial(&self) -> (n: u32)
        ensures
            n == self.serial_value(),
    {
        self.serial
    }

    /// The selected shape.
    pub fn selected(&self) -> (r: Option<u64>)
        ensures
            r == self.selection(),
    {
        self.selected
    }

    /// Selects `id` (`None` clears the selection).
    pub fn select(&mut self, id: Option<u64>)
        ensures
            final(self).selection() == id,
            final(self).entries() == old(self).entries(),
            final(self).serial_value() == old(self).serial_value(),
    {
        self.selected = id;
    }

    /// Adds a shape at the end of the list; the counter is raised to at least the new length
    /// (taken as a `u32`), so that default names seldom repeat after shapes were restored.
    pub fn add_user_shape(&mut self, id: u64, name: String)
        ensures
            final(self).entries() == old(self).entries().push((id, name@)),
            final(self).serial_value() == vstd::math::max(
                old(self).serial_value() as int,
                ((old(self).entries().len() + 1) as u32) as int,
            ),
            final(self).selection() == old(self).selection(),
    {
        let ghost before = self.shapes@;
        self.shapes.push(UserShape { id, name });
        proof {
            assert(entries_of(self.shapes@) =~= entries_of(before).push((id, name@)));
        }
        let n = #[verifier::truncate] (self.shapes.len() as u32);
        if n > self.serial {
            self.serial = n;
        }
    }

    /// Adds a shape just made with the tool `kind` under its default name (the label and the
    /// next number), and selects it.
    pub fn commit(&mut self, kind: ToolKind, id: u64)
        requires
            old(self).serial_value() < u32::MAX,
        ensures
            final(self).entries() == old(self).entries().push(
                (id, default_name(kind, old(self).serial_value() + 1)),
            ),
            final(self).serial_value() == vstd::math::max(
                old(self).serial_value() + 1 as int,
                ((old(self).entries().len() + 1) as u32) as int,
            ),
            final(self).selection() == Some(id),
    {
        let serial = self.serial + 1;
        self.serial = serial;
        let mut name = String::new();
        name.append(kind.label());
        name.append(" ");
        push_decimal(&mut name, serial as u64);
        self.add_user_shape(id, name);
        self.selected = Some(id);
    }

    /// The index of the first entry of `id`.
    fn find(&self, id: u64) -> (r: Option<usize>)
        ensures
            r matches Some(i) ==> is_first(self.entries(), id, i as int),
            r is None ==> !has_id(self.entries(), id),
    {
        let mut i: usize = 0;
        while i < self.shapes.len()
            invariant
                i <= self.shapes@.len(),
                forall|j: int| 0 <= j < i ==> (#[trigger] self.entries()[j]).0 != id,
            decreases self.shapes@.len() - i,
        {
            if self.shapes[i].id == id {
                return Some(i);
            }
            assert(self.entries()[i as int].0 != id);
            i += 1;
        }
        None
    }

    /// The name of a copy of shape `id`: its name followed by " のコピー"; `None` when the
    /// list has no such shape.
    pub fn duplicate_name(&self, id: u64) -> (r: Option<String>)
        ensures
            r is None <==> !has_id(self.entries(), id),
            forall|i: int|
                is_first(self.entries(), id, i) ==> (r matches Some(n) && n@ == copy_name(
                    self.entries()[i].1,
                )),
    {
        match self.find(id) {
            None => None,
            Some(i) => {
                let mut name = self.shapes[i].name.clone();
                name.append(" のコピー");
                proof {
                    assert forall|j: int| is_first(self.entries(), id, j) implies j == i by {
                        if j < i {
                            assert(self.entries()[j].0 != id);
                        } else if j > i {
                            assert(self.entries()[i as int].0 != id);
                        }
                    }
                }
                Some(name)
            },
        }
    }

    /// Renames the first shape of `id`; nothing when the list has none.
    pub fn rename(&mut self, id: u64, name: String)
        ensures
            !has_id(old(self).entries(), id) ==> final(self).entries() == old(self).entries(),
            forall|i: int|
                is_first(old(self).entries(), id, i) ==> final(self).entries() == old(
                    self,
                ).entries().update(i, (id, name@)),
            final(self).serial_value() == old(self).serial_value(),
            final(self).selection() == old(self).selection(),
    {
        match self.find(id) {
            None => {},
            Some(i) => {
                let ghost before = self.shapes@;
                proof {
                    assert forall|j: int| is_first(entries_of(before), id, j) implies j == i by {
                        if j < i {
                            assert(entries_of(before)[j].0 != id);
                        } else if j > i {
                            assert(entries_of(before)[i as int].0 != id);
                        }
                    }
                }
                self.shapes.set(i, UserShape { id, name });
                proof {
                    assert(entries_of(self.shapes@) =~= entries_of(before).update(
                        i as int,
                        (id, name@),
                    ));
                }
            },
        }
    }

    /// Takes shape `id` off the list (every entry of it); clears the selection if it was
    /// selected. Returns whether the selection was cleared.
    pub fn remove(&mut self, id: u64) -> (deselected: bool)
        ensures
            final(self).entries() == without_id(old(self).entries(), id),
            forall|i: int|
                0 <= i < final(self).entries().len() ==> (#[trigger] final(self).entries()[i]).0
                    != id,
            deselected == (old(self).selection() == Some(id)),
            final(self).selection() == (if deselected {
                None
            } else {
                old(self).selection()
            }),
            final(self).serial_value() == old(self).serial_value(),
    {
        let mut kept: Vec<UserShape> = Vec::new();
        let mut i: usize = 0;
        while i < self.shapes.len()
            invariant
                i <= self.shapes@.len(),
                entries_of(kept@) == without_id(entries_of(self.shapes@).take(i as int), id),
            decreases self.shapes@.len() - i,
        {
            let ghost all = entries_of(self.shapes@);
            let ghost k0 = kept@;
            assert(all.take(i + 1).drop_last() =~= all.take(i as int));
            if self.shapes[i].id != id {
                kept.push(UserShape { id: self.shapes[i].id, name: self.shapes[i].name.clone() });
                assert(entries_of(kept@) =~= entries_of(k0).push(all[i as int]));
            }
            i += 1;
        }
        proof {
            assert(entries_of(self.shapes@).take(self.shapes@.len() as int) =~= entries_of(
                self.shapes@,
            ));
            lemma_without_id(entries_of(self.shapes@), id);
        }
        self.shapes = kept;
        let deselected = match self.selected {
            Some(s) => s == id,
            None => false,
        };
        if deselected {
            self.selected = None;
        }
        deselected
    }

    /// Empties the list and clears the selection; returns the ids that were on the list, in
    /// order (their shapes are to be removed from the drawings).
    pub fn remove_all(&mut self) -> (ids: Vec<u64>)
        ensures
            ids@ == old(self).entries().map_values(|e: (u64, Seq<char>)| e.0),
            final(self).entries() == Seq::<(u64, Seq<char>)>::empty(),
            final(self).selection() is None,
            final(self).serial_value() == old(self).serial_value(),
    {
        let mut ids: Vec<u64> = Vec::new();
        let mut i: usize = 0;
        while i < self.shapes.len()
            invariant
                i <= self.shapes@.len(),
                ids@ == self.entries().take(i as int).map_values(|e: (u64, Seq<char>)| e.0),
            decreases self.shapes@.len() - i,
        {
            ids.push(self.shapes[i].id);
            assert(ids@ =~= self.entries().take(i + 1).map_values(|e: (u64, Seq<char>)| e.0));
            i += 1;
        }
        assert(self.entries().take(self.shapes@.len() as int) =~= self.entries());
        self.shapes = Vec::new();
        self.selected = None;
        proof {
            assert(self.entries() =~= Seq::<(u64, Seq<char>)>::empty());
        }
        ids
    }
}

} // verus!
