//! The tools that a pointer can be put to: placing balls and selecting ground.
use crate::stream::Point;
use crate::text::same_text;
use crate::vector::{Added, VectorRenderer};
#[allow(unused_imports)]
use crate::vector::{
    grid_indices_of, indexed, instanced, slot_after, BatchKind, VectorView, MARKER_RINGS,
    MARKER_SEGMENTS, SELECT_EDGE_SLOT, SELECT_FILL_SLOT, SELECT_GRID,
};
use vstd::prelude::*;

verus! {

/// The color of the balls.
pub const BALL_COLOR: u32 = 0xff2a_2aff;

/// A ball that was placed: its marker, its radius as the bits of a double, and where
/// it is: longitude, latitude and ground.
#[derive(Copy, Clone, PartialEq, Eq, Debug, Structural)]
pub struct Ball {
    pub marker: usize,
    pub radius: u64,
    pub position: Point,
}

/// A place on the ground that the pointer hits, and the radius that a ball has
/// there, as the bits of a double.
#[derive(Copy, Clone, PartialEq, Eq, Debug, Structural)]
pub struct Hit {
    pub position: Point,
    pub radius: u64,
}

/// Places balls on the ground and drags them.
pub struct PlaceTool {
    pub balls: Vec<Ball>,
    pub active: Option<usize>,
}

/// The frame of a selection: the corner that it starts at, the two directions that
/// it grows in, and the height of its ground as the bits of a double.
#[derive(Copy, Clone, PartialEq, Eq, Debug, Structural)]
pub struct Frame {
    pub anchor: Point,
    pub right: Point,
    pub forward: Point,
    pub height: u64,
}

/// How far a selection reaches in its two directions, as the bits of doubles, and
/// whether that is a meter at the least in each.
#[derive(Copy, Clone, PartialEq, Eq, Debug, Structural)]
pub struct Extent {
    pub u: u64,
    pub v: u64,
    pub shows: bool,
}

/// No extent.
pub open spec fn no_extent() -> Extent {
    Extent { u: 0, v: 0, shows: false }
}

/// Selects a rectangle of ground.
pub struct SelectTool {
    pub frame: Option<Frame>,
    pub extent: Extent,
    pub dragging: bool,
}

/// What a tool changed of what is drawn.
pub enum Change {
    Nothing,
    /// A marker is to be built.
    MarkerAdded(Added),
    /// A marker is to be built anew, with the same uniform.
    MarkerMoved { marker: usize, slot: u32 },
    /// The selection is to be built, with these indices for its inside.
    SelectionShown(Vec<u32>),
    SelectionCleared,
}

impl PlaceTool {
    /// Whether the ball that is dragged is one of those that were placed, and each
    /// has a marker.
    pub open spec fn wf(&self, vectors: VectorView) -> bool {
        &&& vectors.wf()
        &&& self.active matches Some(i) ==> i < self.balls@.len()
        &&& forall|i: int|
            0 <= i < self.balls@.len() ==> (#[trigger] self.balls@[i]).marker
                < vectors.markers.len()
    }

    pub fn new() -> (tool: Self)
        ensures
            tool.balls@.len() == 0,
            tool.active is None,
    {
        PlaceTool { balls: Vec::new(), active: None }
    }

    /// The pointer was pressed at `hit`, if it hits the ground: the first button
    /// places a ball there and drags it. Tells whether the tool takes the press.
    pub fn pointer_down(
        &mut self,
        vectors: &mut VectorRenderer,
        button: i16,
        hit: Option<Hit>,
    ) -> (outcome: (bool, Change))
        requires
            old(self).wf(old(vectors)@),
        ensures
            final(self).wf(final(vectors)@),
            outcome.0 == (button == 0),
            button != 0 || hit is None ==> outcome.1 is Nothing && *final(self) == *old(self)
                && final(vectors)@ == old(vectors)@,
            button == 0 && hit is Some ==> {
                &&& outcome.1 matches Change::MarkerAdded(added)
                &&& added.index == old(vectors)@.markers.len()
                &&& added.slot == old(vectors)@.next_slot
                &&& added.indices@ == grid_indices_of(
                    MARKER_RINGS as nat,
                    MARKER_SEGMENTS as nat,
                )
                &&& final(self).balls@ == old(self).balls@.push(
                    Ball {
                        marker: added.index,
                        radius: hit->0.radius,
                        position: hit->0.position,
                    },
                )
                &&& final(self).active == Some(old(self).balls.len())
                &&& final(vectors)@ == (VectorView {
                    next_slot: slot_after(old(vectors)@.next_slot),
                    markers: old(vectors)@.markers.push(
                        indexed(
                            BatchKind::Polygon { count: 1440 },
                            old(vectors)@.next_slot,
                            273,
                            1440,
                        ),
                    ),
                    ..old(vectors)@
                })
            },
    {
        if button != 0 {
            return (false, Change::Nothing);
        }
        match hit {
            Some(hit) => {
                let added: Added = vectors.add_marker();
                let index: usize = self.balls.len();
                self.balls.push(
                    Ball { marker: added.index, radius: hit.radius, position: hit.position },
                );
                self.active = Some(index);
                (true, Change::MarkerAdded(added))
            },
            None => (true, Change::Nothing),
        }
    }

    /// Whether a ball is being dragged.
    pub fn dragging(&self) -> (yes: bool)
        ensures
            yes == (self.active is Some),
    {
        self.active.is_some()
    }

    /// The pointer moved to `hit`, if it hits the ground: the ball that is dragged
    /// goes there.
    pub fn pointer_move(&mut self, vectors: &VectorRenderer, hit: Option<Hit>) -> (outcome: (
        bool,
        Change,
    ))
        requires
            old(self).wf(vectors@),
        ensures
            final(self).wf(vectors@),
            outcome.0 == (old(self).active is Some),
            final(self).active == old(self).active,
            match (old(self).active, hit) {
                (Some(i), Some(hit)) => {
                    let ball = old(self).balls@[i as int];
                    &&& outcome.1 matches Change::MarkerMoved { marker, slot }
                    &&& marker == ball.marker
                    &&& slot == vectors@.markers[ball.marker as int].slot
                    &&& final(self).balls@ == old(self).balls@.update(
                        i as int,
                        Ball {
                            marker: ball.marker,
                            radius: hit.radius,
                            position: hit.position,
                        },
                    )
                },
                _ => outcome.1 is Nothing && final(self).balls == old(self).balls,
            },
    {
        let index: usize = match self.active {
            Some(index) => index,
            None => {
                return (false, Change::Nothing);
            },
        };
        match hit {
            Some(hit) => {
                let marker: usize = self.balls[index].marker;
                assert(self.balls@[index as int].marker < vectors@.markers.len());
                self.balls.set(
                    index,
                    Ball { marker, radius: hit.radius, position: hit.position },
                );
                match vectors.set_marker(marker) {
                    Some(slot) => (true, Change::MarkerMoved { marker, slot }),
                    None => (true, Change::Nothing),
                }
            },
            None => (true, Change::Nothing),
        }
    }

    /// The pointer was released: no ball is dragged any more.
    pub fn pointer_up(&mut self) -> (taken: bool)
        ensures
            taken == (old(self).active is Some),
            final(self).active is None,
            final(self).balls == old(self).balls,
    {
        let taken: bool = self.active.is_some();
        self.active = None;
        taken
    }

    /// Where the last ball is.
    pub fn position(&self) -> (position: Option<Point>)
        ensures
            position == (if self.balls@.len() > 0 {
                Some(self.balls@.last().position)
            } else {
                None
            }),
    {
        if self.balls.len() > 0 {
            Some(self.balls[self.balls.len() - 1].position)
        } else {
            None
        }
    }

    /// Where the balls are.
    pub fn positions(&self) -> (positions: Vec<Point>)
        ensures
            positions@ == self.balls@.map_values(|b: Ball| b.position),
    {
        let ghost all = self.balls@.map_values(|b: Ball| b.position);
        let mut positions: Vec<Point> = Vec::new();
        let mut i: usize = 0;
        while i < self.balls.len()
            invariant
                i <= self.balls@.len(),
                all == self.balls@.map_values(|b: Ball| b.position),
                positions@ == all.take(i as int),
            decreases self.balls@.len() - i,
        {
            positions.push(self.balls[i].position);
            i = i + 1;
            assert(positions@ =~= all.take(i as int));
        }
        assert(all.take(i as int) =~= all);
        positions
    }

    /// Takes every ball away.
    pub fn detach(&mut self, vectors: &mut VectorRenderer)
        requires
            old(self).wf(old(vectors)@),
        ensures
            final(self).wf(final(vectors)@),
            final(self).balls@.len() == 0,
            final(self).active is None,
            final(vectors)@ == (VectorView { markers: Seq::empty(), ..old(vectors)@ }),
    {
        self.balls = Vec::new();
        self.active = None;
        vectors.clear_markers();
    }
}

/// What is drawn of a selection: it shows where there is a frame that it reaches far
/// enough from.
pub open spec fn selection_drawn(vectors: VectorView, shows: bool) -> VectorView {
    VectorView {
        selection: if shows {
            Some(
                (
                    indexed(BatchKind::Polygon { count: 1536 }, SELECT_FILL_SLOT, 289, 1536),
                    instanced(BatchKind::Dash { count: 48 }, SELECT_EDGE_SLOT, 48),
                ),
            )
        } else {
            None
        },
        ..vectors
    }
}

/// What changes where a selection shows, or does not.
pub open spec fn selection_change(change: Change, shows: bool) -> bool {
    if shows {
        change matches Change::SelectionShown(indices) && indices@ == grid_indices_of(
            SELECT_GRID as nat,
            SELECT_GRID as nat,
        )
    } else {
        change is SelectionCleared
    }
}

impl SelectTool {
    pub fn new() -> (tool: Self)
        ensures
            tool == (SelectTool { frame: None, extent: no_extent(), dragging: false }),
    {
        SelectTool { frame: None, extent: Extent { u: 0, v: 0, shows: false }, dragging: false }
    }

    fn refresh(&self, vectors: &mut VectorRenderer) -> (change: Change)
        requires
            old(vectors)@.wf(),
        ensures
            final(vectors)@.wf(),
            final(vectors)@ == selection_drawn(
                old(vectors)@,
                self.frame is Some && self.extent.shows,
            ),
            selection_change(change, self.frame is Some && self.extent.shows),
    {
        if self.frame.is_none() || !self.extent.shows {
            vectors.clear_selection();
            return Change::SelectionCleared;
        }
        Change::SelectionShown(vectors.set_selection())
    }

    /// The pointer was pressed: the first button starts a selection where it hits
    /// the ground.
    pub fn pointer_down(
        &mut self,
        vectors: &mut VectorRenderer,
        button: i16,
        frame: Option<Frame>,
    ) -> (outcome: (bool, Change))
        requires
            old(vectors)@.wf(),
        ensures
            final(vectors)@.wf(),
            outcome.0 == (button == 0 && frame is Some),
            if outcome.0 {
                &&& *final(self) == (SelectTool { frame, extent: no_extent(), dragging: true })
                &&& final(vectors)@ == selection_drawn(old(vectors)@, false)
                &&& outcome.1 is SelectionCleared
            } else {
                &&& *final(self) == *old(self)
                &&& final(vectors)@ == old(vectors)@
                &&& outcome.1 is Nothing
            },
    {
        if button != 0 || frame.is_none() {
            return (false, Change::Nothing);
        }
        self.frame = frame;
        self.extent = Extent { u: 0, v: 0, shows: false };
        self.dragging = true;
        vectors.clear_selection();
        (true, Change::SelectionCleared)
    }

    /// The pointer moved: a selection that is dragged reaches to where it points, if
    /// it points at the ground.
    pub fn pointer_move(&mut self, vectors: &mut VectorRenderer, extent: Option<Extent>) -> (outcome:
        (bool, Change))
        requires
            old(vectors)@.wf(),
        ensures
            final(vectors)@.wf(),
            outcome.0 == old(self).dragging,
            if old(self).dragging && old(self).frame is Some && extent is Some {
                &&& *final(self) == (SelectTool { extent: extent->0, ..*old(self) })
                &&& final(vectors)@ == selection_drawn(old(vectors)@, extent->0.shows)
                &&& selection_change(outcome.1, extent->0.shows)
            } else {
                &&& *final(self) == *old(self)
                &&& final(vectors)@ == old(vectors)@
                &&& outcome.1 is Nothing
            },
    {
        if !self.dragging {
            return (false, Change::Nothing);
        }
        if self.frame.is_none() {
            return (true, Change::Nothing);
        }
        match extent {
            Some(extent) => {
                self.extent = extent;
                (true, self.refresh(vectors))
            },
            None => (true, Change::Nothing),
        }
    }

    /// The pointer was released: the selection stays as it is.
    pub fn pointer_up(&mut self, vectors: &mut VectorRenderer) -> (outcome: (bool, Change))
        requires
            old(vectors)@.wf(),
        ensures
            final(vectors)@.wf(),
            outcome.0 == old(self).dragging,
            *final(self) == (SelectTool { dragging: false, ..*old(self) }),
            if old(self).dragging {
                let shows = old(self).frame is Some && old(self).extent.shows;
                &&& final(vectors)@ == selection_drawn(old(vectors)@, shows)
                &&& selection_change(outcome.1, shows)
            } else {
                final(vectors)@ == old(vectors)@ && outcome.1 is Nothing
            },
    {
        if !self.dragging {
            return (false, Change::Nothing);
        }
        self.dragging = false;
        (true, self.refresh(vectors))
    }

    /// Gives up the selection.
    pub fn detach(&mut self, vectors: &mut VectorRenderer)
        requires
            old(vectors)@.wf(),
        ensures
            final(vectors)@.wf(),
            *final(self) == (SelectTool { frame: None, extent: no_extent(), dragging: false }),
            final(vectors)@ == selection_drawn(old(vectors)@, false),
    {
        self.frame = None;
        self.extent = Extent { u: 0, v: 0, shows: false };
        self.dragging = false;
        vectors.clear_selection();
    }
}

/// A tool that the pointer is put to.
pub enum Tool {
    Place(PlaceTool),
    Select(SelectTool),
}

/// The tool of a name, if it is one.
pub fn make(name: &str) -> (tool: Option<Tool>)
    ensures
        match tool {
            Some(Tool::Place(t)) => name@ == "place"@ && t.balls@.len() == 0 && t.active is None,
            Some(Tool::Select(t)) => name@ == "select"@ && t == (SelectTool {
                frame: None,
                extent: no_extent(),
                dragging: false,
            }),
            None => name@ != "place"@ && name@ != "select"@,
        },
{
    if same_text(name, "place") {
        Some(Tool::Place(PlaceTool::new()))
    } else if same_text(name, "select") {
        Some(Tool::Select(SelectTool::new()))
    } else {
        None
    }
}

/// A selection that shows is drawn whole: all triangles of its inside between all points of its
/// grid, and all dashes of its four edges. One that does not is not drawn. Nothing else that is
/// drawn changes.
pub proof fn lemma_selection_drawn_whole(vectors: VectorView, shows: bool)
    ensures
        ({
            let after = selection_drawn(vectors, shows);
            let grid = SELECT_GRID as nat;
            &&& after == (VectorView { selection: after.selection, ..vectors })
            &&& !shows ==> after.selection is None
            &&& shows ==> after.selection is Some && ({
                let (fill, edge) = after.selection->0;
                &&& fill.kind matches BatchKind::Polygon { count } && count == grid_indices_of(
                    grid,
                    grid,
                ).len()
                &&& fill.vertices == (grid + 1) * (grid + 1)
                &&& 3 * fill.triangles == grid_indices_of(grid, grid).len()
                &&& edge.kind matches BatchKind::Dash { count } && count == 4
                    * crate::vector::SELECT_EDGE_STEPS
                &&& edge.vertices == 6 * (4 * crate::vector::SELECT_EDGE_STEPS)
                &&& edge.triangles == 2 * (4 * crate::vector::SELECT_EDGE_STEPS)
            })
        }),
{
}

} // verus!
