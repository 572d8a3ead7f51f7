//! The pointer over a canvas: what is a drag, what is a click.

use vstd::prelude::*;

verus! {

/// A step of more than this many pixels, along both axes together, makes a drag.
pub const CLICK_SLOP: i64 = 2;

/// A place on the canvas, in pixels.
#[derive(Debug, Clone, Copy, PartialEq, Eq, Structural)]
pub struct Spot {
    pub x: i32,
    pub y: i32,
}

/// The state of the pointer.
#[derive(Debug, Clone, Copy, PartialEq, Eq, Structural)]
pub struct Pointer {
    /// Where the pointer was last while its button is held.
    pub drag: Option<Spot>,
    /// The pointer has moved noticeably since the button went down.
    pub moved: bool,
}

pub open spec fn distance(a: int, b: int) -> int {
    if a < b {
        b - a
    } else {
        a - b
    }
}

/// The step from one place to the next is large.
pub open spec fn is_large(from: Spot, to: Spot) -> bool {
    distance(from.x as int, to.x as int) + distance(from.y as int, to.y as int) > CLICK_SLOP
}

impl Pointer {
    /// No button held.
    pub open spec fn idle() -> Pointer {
        Pointer { drag: None, moved: false }
    }

    /// After the button went down.
    pub open spec fn pressed(self, at: Spot) -> Pointer {
        Pointer { drag: Some(at), moved: false }
    }

    /// After a move.
    pub open spec fn moving(self, to: Spot) -> Pointer {
        match self.drag {
            Some(from) => Pointer { drag: Some(to), moved: self.moved || is_large(from, to) },
            None => self,
        }
    }

    /// After some moves.
    pub open spec fn dragged(self, moves: Seq<Spot>) -> Pointer
        decreases moves.len(),
    {
        if moves.len() == 0 {
            self
        } else {
            self.dragged(moves.drop_last()).moving(moves.last())
        }
    }

    /// Letting the button go now is a click.
    pub open spec fn would_click(self) -> bool {
        self.drag is Some && !self.moved
    }

    pub fn new() -> (r: Self)
        ensures
            r == Pointer::idle(),
    {
        Pointer { drag: None, moved: false }
    }

    /// The button goes down: a drag may begin.
    pub fn press(&mut self, at: Spot)
        ensures
            *final(self) == old(self).pressed(at),
    {
        self.drag = Some(at);
        self.moved = false;
    }

    /// The pointer moves: how far to pan, where the button is held.
    pub fn move_to(&mut self, to: Spot) -> (r: Option<(i64, i64)>)
        ensures
            *final(self) == old(self).moving(to),
            r == match old(self).drag {
                Some(from) => Some(((to.x - from.x) as i64, (to.y - from.y) as i64)),
                None => None,
            },
    {
        match self.drag {
            Some(from) => {
                let dx: i64 = to.x as i64 - from.x as i64;
                let dy: i64 = to.y as i64 - from.y as i64;
                let ax: i64 = if dx < 0 {
                    -dx
                } else {
                    dx
                };
                let ay: i64 = if dy < 0 {
                    -dy
                } else {
                    dy
                };
                if ax + ay > CLICK_SLOP {
                    self.moved = true;
                }
                self.drag = Some(to);
                Some((dx, dy))
            },
            None => None,
        }
    }

    /// The button is let go: whether that was a click.
    pub fn release(&mut self) -> (r: bool)
        ensures
            r == old(self).would_click(),
            *final(self) == (Pointer { drag: None, ..*old(self) }),
    {
        let click = self.drag.is_some() && !self.moved;
        self.drag = None;
        click
    }
}

impl Default for Pointer {
    fn default() -> (r: Self)
        ensures
            r == Pointer::idle(),
    {
        Pointer::new()
    }
}

/// What happens over the overview map.
#[derive(Debug, Clone, Copy, PartialEq, Eq, Structural)]
pub enum MapEvent {
    Down,
    Move,
    /// The button is let go, or the pointer leaves.
    Up,
}

/// The button is held after the event.
pub open spec fn held_after(held: bool, event: MapEvent) -> bool {
    match event {
        MapEvent::Down => true,
        MapEvent::Move => held,
        MapEvent::Up => false,
    }
}

/// What an event over the overview map does: whether the button is held after it, and
/// whether the view is centered on the pointer.
pub fn map_event(held: bool, event: MapEvent) -> (r: (bool, bool))
    ensures
        r.0 == held_after(held, event),
        r.1 == (event != MapEvent::Up && r.0),
{
    match event {
        MapEvent::Down => (true, true),
        MapEvent::Move => (held, held),
        MapEvent::Up => (false, false),
    }
}

// -- laws -----------------------------------------------------------------------------

/// The places of a drag: where it began and where each move led.
pub open spec fn trail(at: Spot, moves: Seq<Spot>) -> Seq<Spot> {
    seq![at] + moves
}

/// Pressing and letting go is a click exactly when no single step in between was large.
pub proof fn law_click_has_no_large_step(p: Pointer, at: Spot, moves: Seq<Spot>)
    ensures
        p.pressed(at).dragged(moves).drag == Some(trail(at, moves).last()),
        p.pressed(at).dragged(moves).would_click() <==> forall|i: int|
            0 <= i < moves.len() ==> !is_large(trail(at, moves)[i], #[trigger] moves[i]),
    decreases moves.len(),
{
    if moves.len() > 0 {
        let front = moves.drop_last();
        let n = front.len() as int;
        law_click_has_no_large_step(p, at, front);
        assert(trail(at, moves)[n] == trail(at, front).last());
        assert(trail(at, moves).last() == moves[n]);
        assert forall|i: int| 0 <= i < n implies trail(at, moves)[i] == trail(at, front)[i]
            && moves[i] == #[trigger] front[i] by {}
        if p.pressed(at).dragged(moves).would_click() {
            assert forall|i: int| 0 <= i < moves.len() implies !is_large(
                trail(at, moves)[i],
                #[trigger] moves[i],
            ) by {
                if i < n {
                    assert(moves[i] == front[i]);
                }
            }
        } else if p.pressed(at).dragged(front).would_click() {
            assert(is_large(trail(at, moves)[n], moves[n]));
        } else {
            let i = choose|i: int|
                0 <= i < front.len() && is_large(trail(at, front)[i], #[trigger] front[i]);
            assert(is_large(trail(at, moves)[i], moves[i]));
        }
    }
}

/// Without a press nothing is dragged and nothing is clicked.
pub proof fn law_moving_alone_does_nothing(p: Pointer, moves: Seq<Spot>)
    requires
        p.drag is None,
    ensures
        p.dragged(moves) == p,
        !p.dragged(moves).would_click(),
    decreases moves.len(),
{
    if moves.len() > 0 {
        law_moving_alone_does_nothing(p, moves.drop_last());
    }
}

} // verus!
