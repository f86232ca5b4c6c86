use vstd::prelude::*;

verus! {

/// The mouse button a click reports; mirrors the windowing layer's buttons
/// as plain values.
#[derive(Debug, Clone, Copy, PartialEq, Eq, Structural)]
pub enum MouseButton {
    Unknown,
    Left,
    Middle,
    Right,
    X1,
    X2,
}

/// Structure representing the mouse for the game to keep track of the inputs
#[derive(Debug, Clone)]
pub struct Mouse {
    pub clicked: Option<(MouseButton, (i32, i32))>,  // Current clicked button and the window position it was clicked
    pub position: Option<(i32, i32)>,  // Current window position of the mouse, None if the mouse is outside the window
}

impl Mouse {
    /// Create a new Mouse
    pub fn new() -> (r: Self)
        ensures
            r.clicked is None,
            r.position is None,
    {
        Mouse { clicked: None, position: None }
    }

    /// Move the mouse to a new position,
    ///
    /// Return a vector of the mouse movement from last position if the mouse was already in the window
    pub fn move_to(&mut self, pos: (i32, i32)) -> (r: Option<(i32, i32)>)
        requires
            old(self).position matches Some(p) ==> i32::MIN <= p.0 - pos.0 <= i32::MAX
                && i32::MIN <= p.1 - pos.1 <= i32::MAX,
        ensures
            final(self).position == Some(pos),
            final(self).clicked == old(self).clicked,
            r == match old(self).position {
                Some(p) => Some(((p.0 - pos.0) as i32, (p.1 - pos.1) as i32)),
                None => None::<(i32, i32)>,
            },
    {
        let vec = if let Some((x, y)) = self.position {
            Some((x - pos.0, y - pos.1))
        } else {
            None
        };
        self.position = Some(pos);
        vec
    }

    /// Return the clicked button and the position it was clicked
    pub fn get_click(&self) -> (r: Option<(MouseButton, (i32, i32))>)
        ensures
            r == self.clicked,
    {
        self.clicked
    }

    /// Simulate a mouse click
    pub fn click(&mut self, button: MouseButton, pos: (i32, i32))
        ensures
            final(self).clicked == Some((button, pos)),
            final(self).position == Some(pos),
    {
        self.clicked = Some((button, (pos.0, pos.1)));
        self.position = Some((pos.0, pos.1));
    }

    /// Simulate the end of a mouse click
    ///
    /// Return the vector from the click position if the released button is
    /// the one held, clearing the click
    pub fn click_up(&mut self, mouse_button: MouseButton, pos: (i32, i32)) -> (r: Option<
        (i32, i32),
    >)
        requires
            old(self).clicked matches Some(c) ==> i32::MIN <= c.1.0 - pos.0 <= i32::MAX
                && i32::MIN <= c.1.1 - pos.1 <= i32::MAX,
        ensures
            final(self).position == Some(pos),
            match old(self).clicked {
                Some(c) => if c.0 == mouse_button {
                    final(self).clicked is None && r == Some((
                        (c.1.0 - pos.0) as i32,
                        (c.1.1 - pos.1) as i32,
                    ))
                } else {
                    final(self).clicked == old(self).clicked && r is None
                },
                None => final(self).clicked is None && r is None,
            },
    {
        self.position = Some(pos);
        if let Some((btn, (x, y))) = self.clicked {
            if btn == mouse_button {
                self.clicked = None;
                return Some((x - pos.0, y - pos.1));
            }
        }
        None
    }

    /// Reset the mouse informations
    pub fn reset(&mut self)
        ensures
            final(self).clicked is None,
            final(self).position is None,
    {
        *self = Self::new();
    }
}

} // verus!
