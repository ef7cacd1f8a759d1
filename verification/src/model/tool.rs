//! The tool that the editor has in hand.

use vstd::prelude::*;

verus! {

/// The tool in hand, with the way it is used.
#[derive(Debug, Clone, Copy, PartialEq, Eq, Structural)]
pub enum ToolModel {
    Draw(DrawKind),
    Erase(EraseKind),
    Select(SelectKind),
    Move,
}

/// The ways to draw.
#[derive(Debug, Clone, Copy, PartialEq, Eq, Structural)]
pub enum DrawKind {
    Stroke,
    Line,
    RectangleOutline,
    Fill,
}

/// The ways to erase.
#[derive(Debug, Clone, Copy, PartialEq, Eq, Structural)]
pub enum EraseKind {
    Stroke,
    Line,
    Rectangle,
}

/// The ways to select.
#[derive(Debug, Clone, Copy, PartialEq, Eq, Structural)]
pub enum SelectKind {
    Lasso,
    Rectangle,
}

impl Default for DrawKind {
    fn default() -> (kind: DrawKind)
        ensures
            kind == DrawKind::Stroke,
    {
        DrawKind::Stroke
    }
}

impl Default for EraseKind {
    fn default() -> (kind: EraseKind)
        ensures
            kind == EraseKind::Stroke,
    {
        EraseKind::Stroke
    }
}

impl Default for SelectKind {
    fn default() -> (kind: SelectKind)
        ensures
            kind == SelectKind::Lasso,
    {
        SelectKind::Lasso
    }
}

impl Default for ToolModel {
    /// A new editor draws strokes.
    fn default() -> (tool: ToolModel)
        ensures
            tool == ToolModel::Draw(DrawKind::Stroke),
    {
        ToolModel::Draw(DrawKind::Stroke)
    }
}

impl ToolModel {
    /// Whether the tool puts pixels down.
    pub fn is_draw(&self) -> (b: bool)
        ensures
            b == (*self is Draw),
    {
        match self {
            ToolModel::Draw(_) => true,
            _ => false,
        }
    }

    /// Whether the tool takes pixels away.
    pub fn is_erase(&self) -> (b: bool)
        ensures
            b == (*self is Erase),
    {
        match self {
            ToolModel::Erase(_) => true,
            _ => false,
        }
    }
}

} // verus!
