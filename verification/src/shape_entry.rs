//! A shape as the user typed it: a name and two lengths as text.

use vstd::prelude::*;
use crate::model::Shape;
use crate::parse::{parse_length, length_of};

verus! {

/// A row of the shape list: its id, its name, and its width and height as
/// typed, in millimetres.
#[derive(Debug)]
pub struct ShapeEntry {
    pub id: usize,
    pub name: String,
    pub w: String,
    pub h: String,
}

impl Clone for ShapeEntry {
    fn clone(&self) -> (r: Self)
        ensures
            r == *self,
    {
        ShapeEntry { id: self.id, name: self.name.clone(), w: self.w.clone(), h: self.h.clone() }
    }
}

impl ShapeEntry {
    /// The shape this row describes, with the given colour, when both
    /// lengths read as positive lengths; a length longer than any board
    /// reads as `TOO_LONG`, and the packers set such a shape aside.
    pub fn to_shape(&self, color_idx: usize) -> (r: Option<Shape>)
        ensures
            r == match (length_of(self.w@), length_of(self.h@)) {
                (Some(w), Some(h)) => Some(Shape { id: self.id, name: self.name, w, h, color_idx }),
                _ => None,
            },
        r matches Some(s) ==> s.sized(),
    {
        let w = match parse_length(self.w.as_str()) {
            Some(v) => v,
            None => return None,
        };
        let h = match parse_length(self.h.as_str()) {
            Some(v) => v,
            None => return None,
        };
        Some(Shape { id: self.id, name: self.name.clone(), w, h, color_idx })
    }
}

} // verus!
