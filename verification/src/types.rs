use vstd::prelude::*;
use std::collections::VecDeque;

verus! {

/// The low 21 bits of `x` spread out so that bit `i` lands on bit `3 * i`.
pub open spec fn spread3(x: u64) -> u64 {
    ((x & 0x1) << 0) | ((x & 0x2) << 2) | ((x & 0x4) << 4) | ((x & 0x8) << 6) | ((x & 0x10) << 8) | ((x & 0x20) << 10) | ((x & 0x40) << 12) | ((x & 0x80) << 14) | ((x & 0x100) << 16) | ((x & 0x200) << 18) | ((x & 0x400) << 20) | ((x & 0x800) << 22) | ((x & 0x1000) << 24) | ((x & 0x2000) << 26) | ((x & 0x4000) << 28) | ((x & 0x8000) << 30) | ((x & 0x10000) << 32) | ((x & 0x20000) << 34) | ((x & 0x40000) << 36) | ((x & 0x80000) << 38) | ((x & 0x100000) << 40)
}

/// Spreads the low 21 bits of `x` three bits apart (bit `i` to bit `3 * i`),
/// leaving the bits between them clear: one axis of a Morton code.
pub fn morton_part_1by2(x: u32) -> (r: u64)
    ensures
        r == spread3(x as u64),
        r & !0x1249249249249249u64 == 0,
{
    let xm = x & 0x1f_ffff;
    let mut n = xm as u64;
    let ghost x0 = n;
    n = (n | (n << 32u64)) & 0x1f00000000ffff;
    n = (n | (n << 16u64)) & 0x1f0000ff0000ff;
    n = (n | (n << 8u64)) & 0x100f00f00f00f00f;
    n = (n | (n << 4u64)) & 0x10c30c30c30c30c3;
    n = (n | (n << 2u64)) & 0x1249249249249249;
    assert(x0 < 0x20_0000 && spread3(x0) == spread3(x as u64)) by (bit_vector)
        requires
            x0 == (x & 0x1f_ffff) as u64,
    ;
    let ghost a = (x0 | (x0 << 32u64)) & 0x1f00000000ffff;
    let ghost b = (a | (a << 16u64)) & 0x1f0000ff0000ff;
    let ghost c = (b | (b << 8u64)) & 0x100f00f00f00f00f;
    let ghost d = (c | (c << 4u64)) & 0x10c30c30c30c30c3;
    assert(((d | (d << 2u64)) & 0x1249249249249249) == spread3(x0)) by (bit_vector)
        requires
            x0 < 0x20_0000,
            a == (x0 | (x0 << 32u64)) & 0x1f00000000ffff,
            b == (a | (a << 16u64)) & 0x1f0000ff0000ff,
            c == (b | (b << 8u64)) & 0x100f00f00f00f00f,
            d == (c | (c << 4u64)) & 0x10c30c30c30c30c3,
    ;
    assert(((d | (d << 2u64)) & 0x1249249249249249) & !0x1249249249249249u64 == 0) by (bit_vector);
    n
}

/// Where a coordinate lands on the 21-bit Morton axis: shifted up by `2^20`,
/// clamped at 0.
pub open spec fn morton_axis(v: i32) -> u64 {
    if v + 0x10_0000 < 0 {
        0
    } else {
        (v + 0x10_0000) as u64
    }
}

/// The Morton code of a grid cell: the bits of x, y and z interleaved, x
/// highest.
pub open spec fn morton_code(x: i32, y: i32, z: i32) -> u64 {
    (spread3(morton_axis(x)) << 2u64) | (spread3(morton_axis(y)) << 1u64) | spread3(morton_axis(z))
}

/// The Morton code of the cell `(x, y, z)`, each coordinate offset by `2^20`
/// and clamped at 0, keeping its low 21 bits.
pub fn morton_encode_coords(x: i32, y: i32, z: i32) -> (r: u64)
    requires
        x + 0x10_0000 <= i32::MAX,
        y + 0x10_0000 <= i32::MAX,
        z + 0x10_0000 <= i32::MAX,
    ensures
        r == morton_code(x, y, z),
{
    let ox = x + 0x10_0000;
    let oy = y + 0x10_0000;
    let oz = z + 0x10_0000;
    let ux: u32 = if ox < 0 { 0 } else { ox as u32 };
    let uy: u32 = if oy < 0 { 0 } else { oy as u32 };
    let uz: u32 = if oz < 0 { 0 } else { oz as u32 };
    (morton_part_1by2(ux) << 2u64) | (morton_part_1by2(uy) << 1u64) | morton_part_1by2(uz)
}

/// Within the 21-bit range of each axis, the Morton code tells cells apart:
/// no two distinct cells share a code.
pub proof fn lemma_morton_injective(x1: i32, y1: i32, z1: i32, x2: i32, y2: i32, z2: i32)
    requires
        -0x10_0000 <= x1 < 0x10_0000,
        -0x10_0000 <= y1 < 0x10_0000,
        -0x10_0000 <= z1 < 0x10_0000,
        -0x10_0000 <= x2 < 0x10_0000,
        -0x10_0000 <= y2 < 0x10_0000,
        -0x10_0000 <= z2 < 0x10_0000,
        morton_code(x1, y1, z1) == morton_code(x2, y2, z2),
    ensures
        x1 == x2 && y1 == y2 && z1 == z2,
{
    let (a1, b1, c1) = (morton_axis(x1), morton_axis(y1), morton_axis(z1));
    let (a2, b2, c2) = (morton_axis(x2), morton_axis(y2), morton_axis(z2));
    assert(a1 == a2 && b1 == b2 && c1 == c2) by (bit_vector)
        requires
            a1 < 0x20_0000,
            b1 < 0x20_0000,
            c1 < 0x20_0000,
            a2 < 0x20_0000,
            b2 < 0x20_0000,
            c2 < 0x20_0000,
            (spread3(a1) << 2u64) | (spread3(b1) << 1u64) | spread3(c1)
                == (spread3(a2) << 2u64) | (spread3(b2) << 1u64) | spread3(c2),
    ;
}


/// Spreading keeps order: a larger 21-bit value spreads to a larger pattern.
proof fn lemma_spread3_monotone(a: u64, b: u64)
    requires
        a <= b < 0x20_0000,
    ensures
        spread3(a) <= spread3(b),
{
    assert(spread3(a) <= spread3(b)) by (bit_vector)
        requires
            a <= b,
            b < 0x20_0000,
    ;
}

/// Along each axis, within `2^20` of the origin, the Morton code never
/// decreases as the coordinate grows and the other two stay put.
pub proof fn lemma_morton_monotone(x1: i32, x2: i32, y: i32, z: i32)
    requires
        -0x10_0000 <= x1 <= x2 < 0x10_0000,
        -0x10_0000 <= y < 0x10_0000,
        -0x10_0000 <= z < 0x10_0000,
    ensures
        morton_code(x1, y, z) <= morton_code(x2, y, z),
        morton_code(y, x1, z) <= morton_code(y, x2, z),
        morton_code(y, z, x1) <= morton_code(y, z, x2),
{
    let (a1, a2, b, c) = (morton_axis(x1), morton_axis(x2), morton_axis(y), morton_axis(z));
    lemma_spread3_monotone(a1, a2);
    let (s1, s2, sb, sc) = (spread3(a1), spread3(a2), spread3(b), spread3(c));
    assert(s1 & !0x1249249249249249u64 == 0 && s2 & !0x1249249249249249u64 == 0
        && sb & !0x1249249249249249u64 == 0 && sc & !0x1249249249249249u64 == 0) by (bit_vector)
        requires
            s1 == spread3(a1),
            s2 == spread3(a2),
            sb == spread3(b),
            sc == spread3(c),
    ;
    assert(((s1 << 2u64) | (sb << 1u64) | sc) <= ((s2 << 2u64) | (sb << 1u64) | sc)
        && ((sb << 2u64) | (s1 << 1u64) | sc) <= ((sb << 2u64) | (s2 << 1u64) | sc)
        && ((sb << 2u64) | (sc << 1u64) | s1) <= ((sb << 2u64) | (sc << 1u64) | s2)) by (bit_vector)
        requires
            s1 <= s2,
            s1 & !0x1249249249249249u64 == 0,
            s2 & !0x1249249249249249u64 == 0,
            sb & !0x1249249249249249u64 == 0,
            sc & !0x1249249249249249u64 == 0,
    ;
}

/// The menu or modal that has the input focus.
#[derive(Clone, Copy, PartialEq, Eq, Debug, Structural)]
pub enum ActiveMenu {
    NoMenu,
    Edit,
    Pause,
    ImportParams,
    Voxelizing,
    Controls,
    BgColorModal,
}

/// The editing tools of the editor.
#[derive(Clone, Copy, PartialEq, Eq, Debug, Structural)]
pub enum ToolType {
    Pencil,
    Sphere,
    Cylinder,
    Disc,
    Box,
    Line,
    Paint,
    Replace,
    Cone,
    Pyramid,
    Torus,
    Bucket,
    Select,
}

/// The full label of a tool, with its hotkey.
pub open spec fn tool_label(t: ToolType) -> Seq<char> {
    match t {
        ToolType::Pencil => "PENCIL [V]"@,
        ToolType::Sphere => "SPHERE [O]"@,
        ToolType::Cylinder => "CYLINDER [Y]"@,
        ToolType::Disc => "DISC [U]"@,
        ToolType::Box => "BOX [B]"@,
        ToolType::Line => "LINE/PIPE [L]"@,
        ToolType::Paint => "PAINT [K]"@,
        ToolType::Replace => "REPLACE [G]"@,
        ToolType::Cone => "CONE [J]"@,
        ToolType::Pyramid => "PYRAMID [N]"@,
        ToolType::Torus => "TORUS [T]"@,
        ToolType::Bucket => "BUCKET [I]"@,
        ToolType::Select => "SELECT [S]"@,
    }
}

/// The three-letter tag of a tool.
pub open spec fn tool_tag(t: ToolType) -> Seq<char> {
    match t {
        ToolType::Pencil => "PEN"@,
        ToolType::Sphere => "SPH"@,
        ToolType::Cylinder => "CYL"@,
        ToolType::Disc => "DSC"@,
        ToolType::Box => "BOX"@,
        ToolType::Line => "LIN"@,
        ToolType::Paint => "PNT"@,
        ToolType::Replace => "REP"@,
        ToolType::Cone => "CON"@,
        ToolType::Pyramid => "PYR"@,
        ToolType::Torus => "TOR"@,
        ToolType::Bucket => "BCK"@,
        ToolType::Select => "SEL"@,
    }
}

impl ToolType {
    /// The label of the tool as the toolbar shows it, hotkey in brackets.
    pub fn name(&self) -> (r: &'static str)
        ensures
            r@ == tool_label(*self),
    {
        match self {
            ToolType::Pencil => "PENCIL [V]",
            ToolType::Sphere => "SPHERE [O]",
            ToolType::Cylinder => "CYLINDER [Y]",
            ToolType::Disc => "DISC [U]",
            ToolType::Box => "BOX [B]",
            ToolType::Line => "LINE/PIPE [L]",
            ToolType::Paint => "PAINT [K]",
            ToolType::Replace => "REPLACE [G]",
            ToolType::Cone => "CONE [J]",
            ToolType::Pyramid => "PYRAMID [N]",
            ToolType::Torus => "TORUS [T]",
            ToolType::Bucket => "BUCKET [I]",
            ToolType::Select => "SELECT [S]",
        }
    }

    /// The three-letter tag of the tool shown in the compact HUD.
    pub fn short_name(&self) -> (r: &'static str)
        ensures
            r@ == tool_tag(*self),
            r@.len() == 3,
    {
        match self {
            ToolType::Pencil => {
                proof {
                    reveal_strlit("PEN");
                }
                "PEN"
            },
            ToolType::Sphere => {
                proof {
                    reveal_strlit("SPH");
                }
                "SPH"
            },
            ToolType::Cylinder => {
                proof {
                    reveal_strlit("CYL");
                }
                "CYL"
            },
            ToolType::Disc => {
                proof {
                    reveal_strlit("DSC");
                }
                "DSC"
            },
            ToolType::Box => {
                proof {
                    reveal_strlit("BOX");
                }
                "BOX"
            },
            ToolType::Line => {
                proof {
                    reveal_strlit("LIN");
                }
                "LIN"
            },
            ToolType::Paint => {
                proof {
                    reveal_strlit("PNT");
                }
                "PNT"
            },
            ToolType::Replace => {
                proof {
                    reveal_strlit("REP");
                }
                "REP"
            },
            ToolType::Cone => {
                proof {
                    reveal_strlit("CON");
                }
                "CON"
            },
            ToolType::Pyramid => {
                proof {
                    reveal_strlit("PYR");
                }
                "PYR"
            },
            ToolType::Torus => {
                proof {
                    reveal_strlit("TOR");
                }
                "TOR"
            },
            ToolType::Bucket => {
                proof {
                    reveal_strlit("BCK");
                }
                "BCK"
            },
            ToolType::Select => {
                proof {
                    reveal_strlit("SEL");
                }
                "SEL"
            },
        }
    }
}

/// The axes the transform gizmo can act along.
#[derive(Clone, Copy, PartialEq, Eq, Debug, Structural)]
pub enum TransformAxis {
    X,
    Y,
    Z,
}

/// What the transform gizmo does when dragged.
#[derive(Clone, Copy, PartialEq, Eq, Debug, Structural)]
pub enum GizmoTransformMode {
    All,
    Move,
    Rotate,
    Scale,
}

pub open spec fn gizmo_next(m: GizmoTransformMode) -> GizmoTransformMode {
    match m {
        GizmoTransformMode::All => GizmoTransformMode::Move,
        GizmoTransformMode::Move => GizmoTransformMode::Rotate,
        GizmoTransformMode::Rotate => GizmoTransformMode::Scale,
        GizmoTransformMode::Scale => GizmoTransformMode::All,
    }
}

pub open spec fn gizmo_label(m: GizmoTransformMode) -> Seq<char> {
    match m {
        GizmoTransformMode::All => "ALL (TRANSFORM)"@,
        GizmoTransformMode::Move => "MOVE"@,
        GizmoTransformMode::Rotate => "ROTATE"@,
        GizmoTransformMode::Scale => "SCALE"@,
    }
}

impl GizmoTransformMode {
    /// The mode that follows this one in the cycle All, Move, Rotate, Scale.
    pub fn next(self) -> (r: Self)
        ensures
            r == gizmo_next(self),
    {
        match self {
            GizmoTransformMode::All => GizmoTransformMode::Move,
            GizmoTransformMode::Move => GizmoTransformMode::Rotate,
            GizmoTransformMode::Rotate => GizmoTransformMode::Scale,
            GizmoTransformMode::Scale => GizmoTransformMode::All,
        }
    }

    /// The label the HUD shows for the mode.
    pub fn label(self) -> (r: &'static str)
        ensures
            r@ == gizmo_label(self),
    {
        match self {
            GizmoTransformMode::All => "ALL (TRANSFORM)",
            GizmoTransformMode::Move => "MOVE",
            GizmoTransformMode::Rotate => "ROTATE",
            GizmoTransformMode::Scale => "SCALE",
        }
    }
}

/// Cycling the gizmo mode four times comes back to where it started, and
/// no fewer steps do.
pub proof fn lemma_gizmo_cycle(m: GizmoTransformMode)
    ensures
        gizmo_next(gizmo_next(gizmo_next(gizmo_next(m)))) == m,
        gizmo_next(m) != m,
        gizmo_next(gizmo_next(m)) != m,
        gizmo_next(gizmo_next(gizmo_next(m))) != m,
{
}

/// How the player moves through the world.
#[derive(Clone, Copy, PartialEq, Eq, Debug, Structural)]
pub enum PlayMode {
    Flying,
    Real,
}

/// The terrain a new world is generated with.
#[derive(Clone, Copy, PartialEq, Eq, Debug, Structural)]
pub enum WorldType {
    Empty,
    Flat,
    Hills,
    Mountains,
    FloatingIslands,
}

pub open spec fn world_next(w: WorldType) -> WorldType {
    match w {
        WorldType::Empty => WorldType::Flat,
        WorldType::Flat => WorldType::Hills,
        WorldType::Hills => WorldType::Mountains,
        WorldType::Mountains => WorldType::FloatingIslands,
        WorldType::FloatingIslands => WorldType::Empty,
    }
}

pub open spec fn world_label(w: WorldType) -> Seq<char> {
    match w {
        WorldType::Empty => "EMPTY CANVAS"@,
        WorldType::Flat => "FLAT"@,
        WorldType::Hills => "HILLS"@,
        WorldType::Mountains => "MOUNTAINS"@,
        WorldType::FloatingIslands => "ISLANDS"@,
    }
}

impl WorldType {
    /// The generator that follows this one in the menu's cycle.
    pub fn next(&self) -> (r: Self)
        ensures
            r == world_next(*self),
    {
        match self {
            WorldType::Empty => WorldType::Flat,
            WorldType::Flat => WorldType::Hills,
            WorldType::Hills => WorldType::Mountains,
            WorldType::Mountains => WorldType::FloatingIslands,
            WorldType::FloatingIslands => WorldType::Empty,
        }
    }

    /// The name the menu shows for the generator.
    pub fn name(&self) -> (r: &'static str)
        ensures
            r@ == world_label(*self),
    {
        match self {
            WorldType::Empty => "EMPTY CANVAS",
            WorldType::Flat => "FLAT",
            WorldType::Hills => "HILLS",
            WorldType::Mountains => "MOUNTAINS",
            WorldType::FloatingIslands => "ISLANDS",
        }
    }
}

/// Cycling the world generator five times comes back to where it started,
/// and no fewer steps do: the cycle visits every generator.
pub proof fn lemma_world_cycle(w: WorldType)
    ensures
        world_next(world_next(world_next(world_next(world_next(w))))) == w,
        world_next(w) != w,
        world_next(world_next(w)) != w,
        world_next(world_next(world_next(w))) != w,
        world_next(world_next(world_next(world_next(w)))) != w,
{
}

/// One cell an edit changes, with the material it held and the one it gets,
/// so that the edit can be replayed either way. Positions and edges are in
/// grid units.
#[derive(Clone, Copy, Debug)]
pub struct VoxelDelta {
    pub pos: [i64; 3],
    pub size: i64,
    pub old_material: u16,
    pub new_material: u16,
}

/// A cube written into a generated world after its terrain, in grid units.
#[derive(Clone, Copy, Debug)]
pub struct CubeEdit {
    pub pos: [i64; 3],
    pub size: i64,
    pub material: u16,
}

/// A voxel as the history keeps it: minimum corner, edge and material, in
/// grid units.
pub type VoxelEntry = ([i64; 3], i64, u16);

/// One undoable edit: the voxels of the edited region before it and after it.
pub struct HistoryAction {
    pub removed: Vec<VoxelEntry>,
    pub added: Vec<VoxelEntry>,
}

/// The undo and redo stacks of the editor; the undo stack holds at most
/// `max_history` actions (at least the latest one).
pub struct HistoryManager {
    pub undo_stack: VecDeque<HistoryAction>,
    pub redo_stack: VecDeque<HistoryAction>,
    pub max_history: usize,
}

/// The undo stack after recording `a`: the oldest action is dropped first
/// when the stack is full.
pub open spec fn recorded(undo: Seq<HistoryAction>, max_history: usize, a: HistoryAction) -> Seq<HistoryAction> {
    if undo.len() >= max_history && undo.len() > 0 {
        undo.drop_first().push(a)
    } else {
        undo.push(a)
    }
}

/// An action that changed nothing.
pub open spec fn action_empty(a: HistoryAction) -> bool {
    a.removed@.len() == 0 && a.added@.len() == 0
}

/// An action changed nothing exactly when it removed and added no voxel;
/// recording any other action puts it on top of the undo stack.
pub proof fn lemma_record_keeps_edits(undo: Seq<HistoryAction>, max_history: usize, a: HistoryAction)
    ensures
        action_empty(a) <==> (a.removed@.len() == 0 && a.added@.len() == 0),
        recorded(undo, max_history, a).last() == a,
        recorded(undo, max_history, a).len() > 0,
{
}

/// Undoing moves the latest action from the undo stack to the redo stack.
pub open spec fn undo_step(undo: Seq<HistoryAction>, redo: Seq<HistoryAction>) -> (Seq<HistoryAction>, Seq<HistoryAction>) {
    if undo.len() > 0 {
        (undo.drop_last(), redo.push(undo.last()))
    } else {
        (undo, redo)
    }
}

/// Redoing moves the latest undone action back to the undo stack.
pub open spec fn redo_step(undo: Seq<HistoryAction>, redo: Seq<HistoryAction>) -> (Seq<HistoryAction>, Seq<HistoryAction>) {
    if redo.len() > 0 {
        (undo.push(redo.last()), redo.drop_last())
    } else {
        (undo, redo)
    }
}

impl HistoryManager {
    /// Empty stacks keeping at most `max_history` undoable actions.
    pub fn new(max_history: usize) -> (h: Self)
        ensures
            h.undo_stack@ == Seq::<HistoryAction>::empty(),
            h.redo_stack@ == Seq::<HistoryAction>::empty(),
            h.max_history == max_history,
    {
        HistoryManager {
            undo_stack: VecDeque::with_capacity(max_history),
            redo_stack: VecDeque::new(),
            max_history,
        }
    }

    /// Records an action that changed something: it goes on top of the undo
    /// stack (dropping the oldest when the stack is full) and the redo stack
    /// is cleared. An action that changed nothing is not recorded.
    pub fn record(&mut self, action: HistoryAction)
        ensures
            final(self).max_history == old(self).max_history,
            action_empty(action) ==> final(self).undo_stack@ == old(self).undo_stack@
                && final(self).redo_stack@ == old(self).redo_stack@,
            !action_empty(action) ==> final(self).undo_stack@ == recorded(old(self).undo_stack@,
                old(self).max_history, action) && final(self).redo_stack@ == Seq::<HistoryAction>::empty(),
            old(self).undo_stack@.len() <= (if old(self).max_history > 0 { old(self).max_history as int } else { 1 })
                ==> final(self).undo_stack@.len() <= (if old(self).max_history > 0 { old(self).max_history as int } else { 1 }),
            action.removed@.len() > 0 || action.added@.len() > 0 ==> final(self).undo_stack@.len() > 0
                && final(self).undo_stack@.last() == action && final(self).redo_stack@.len() == 0,
            action.removed@.len() == 0 && action.added@.len() == 0 ==> final(self).undo_stack@ == old(self).undo_stack@
                && final(self).redo_stack@ == old(self).redo_stack@,
    {
        if action.removed.len() == 0 && action.added.len() == 0 {
            return;
        }
        if self.undo_stack.len() >= self.max_history {
            let _ = self.undo_stack.pop_front();
        }
        self.undo_stack.push_back(action);
        self.redo_stack.clear();
    }

    /// Moves the latest action from the undo stack to the redo stack, and
    /// answers whether there was one. The caller reverts it in the world.
    pub fn undo(&mut self) -> (moved: bool)
        ensures
            moved == (old(self).undo_stack@.len() > 0),
            (final(self).undo_stack@, final(self).redo_stack@) == undo_step(old(self).undo_stack@, old(self).redo_stack@),
            final(self).max_history == old(self).max_history,
    {
        match self.undo_stack.pop_back() {
            Some(action) => {
                self.redo_stack.push_back(action);
                true
            },
            None => false,
        }
    }

    /// Moves the latest undone action back to the undo stack, and answers
    /// whether there was one. The caller replays it in the world.
    pub fn redo(&mut self) -> (moved: bool)
        ensures
            moved == (old(self).redo_stack@.len() > 0),
            (final(self).undo_stack@, final(self).redo_stack@) == redo_step(old(self).undo_stack@, old(self).redo_stack@),
            final(self).max_history == old(self).max_history,
    {
        match self.redo_stack.pop_back() {
            Some(action) => {
                self.undo_stack.push_back(action);
                true
            },
            None => false,
        }
    }
}

/// Redoing right after an undo puts both stacks back as they were, and so
/// does undoing right after a redo.
pub proof fn lemma_undo_redo(undo: Seq<HistoryAction>, redo: Seq<HistoryAction>)
    ensures
        undo.len() > 0 ==> ({
            let (u1, r1) = undo_step(undo, redo);
            redo_step(u1, r1) == (undo, redo)
        }),
        redo.len() > 0 ==> ({
            let (u1, r1) = redo_step(undo, redo);
            undo_step(u1, r1) == (undo, redo)
        }),
{
    if undo.len() > 0 {
        assert(undo.drop_last().push(undo.last()) =~= undo);
        assert(redo.push(undo.last()).drop_last() =~= redo);
    }
    if redo.len() > 0 {
        assert(redo.drop_last().push(redo.last()) =~= redo);
        assert(undo.push(redo.last()).drop_last() =~= undo);
    }
}

/// The cap on the voxel estimate of an import.
pub const MAX_ESTIMATED_VOXELS: u64 = 100_000_000;

/// The voxels an import of `grid_h` cells of height is expected to make: ten
/// layers of surface plus a twentieth of the volume, capped at 100 million.
pub open spec fn voxel_estimate(grid_h: int) -> int {
    let raw = grid_h * grid_h * 10 + (grid_h * grid_h * grid_h) / 20;
    if raw < MAX_ESTIMATED_VOXELS { raw } else { MAX_ESTIMATED_VOXELS as int }
}

/// The voxel estimate of an import `grid_h` cells high.
pub fn estimate_voxels(grid_h: u64) -> (est: u64)
    requires
        grid_h * grid_h * grid_h <= u64::MAX,
    ensures
        est == voxel_estimate(grid_h as int),
{
    assert(grid_h * grid_h <= grid_h * grid_h * grid_h || grid_h == 0) by (nonlinear_arith);
    let sq = grid_h * grid_h;
    let cube = sq * grid_h;
    assert(sq <= 0x4000_0000_0000) by (nonlinear_arith)
        requires
            sq == grid_h * grid_h,
            cube == sq * grid_h,
            cube <= u64::MAX,
    ;
    let est_surface = sq * 10;
    let est_interior = cube / 20;
    let est = est_surface + est_interior;
    if est < MAX_ESTIMATED_VOXELS { est } else { MAX_ESTIMATED_VOXELS }
}

/// Whether an import `grid_h` cells high is expected to fit the GPU budget
/// of `max_gpu_nodes` nodes.
pub fn estimate_fits(grid_h: u64, max_gpu_nodes: usize) -> (ok: bool)
    requires
        grid_h * grid_h * grid_h <= u64::MAX,
    ensures
        ok == (voxel_estimate(grid_h as int) <= max_gpu_nodes),
{
    let est = estimate_voxels(grid_h);
    (est as usize) <= max_gpu_nodes
}

} // verus!
