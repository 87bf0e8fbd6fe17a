//! The named editor panels. Their widget trees are host-surface plumbing and
//! live outside the library; here each panel carries its display name and the
//! row-selection rule the edge table uses through the workspace.
use vstd::prelude::*;

verus! {

/// The node property panel.
pub struct NodeEditor;

impl NodeEditor {
    pub fn name(&self) -> (r: &'static str)
        ensures
            r@ == "Node Editor"@,
    {
        "Node Editor"
    }
}

/// The edge property panel.
pub struct EdgeEditor;

impl EdgeEditor {
    pub fn name(&self) -> (r: &'static str)
        ensures
            r@ == "Edge Editor"@,
    {
        "Edge Editor"
    }
}

/// The edge list table.
pub struct EdgesTable;

impl EdgesTable {
    pub fn name(&self) -> (r: &'static str)
        ensures
            r@ == "Edges Table"@,
    {
        "Edges Table"
    }
}

/// The comment stroke panel: which of the draw and erase tools is active,
/// and the stroke style new strokes take. The two tools are mutually
/// exclusive.
#[derive(Clone, Copy, Debug)]
pub struct CommentsEditor {
    draw_active: bool,
    erase_active: bool,
    stroke: crate::style::StrokeStyle,
}

impl CommentsEditor {
    /// Both tools off, thin black stroke.
    pub fn new() -> (r: CommentsEditor)
        ensures
            !r.draw_mode(),
            !r.erase_mode(),
    {
        CommentsEditor {
            draw_active: false,
            erase_active: false,
            stroke: crate::style::StrokeStyle::thin_black(),
        }
    }

    pub fn name(&self) -> (r: &'static str)
        ensures
            r@ == "Comments Editor"@,
    {
        "Comments Editor"
    }

    pub closed spec fn draw_mode(self) -> bool {
        self.draw_active
    }

    pub closed spec fn erase_mode(self) -> bool {
        self.erase_active
    }

    pub fn draw_mode_active(&self) -> (r: bool)
        ensures
            r == self.draw_mode(),
    {
        self.draw_active
    }

    pub fn erase_mode_active(&self) -> (r: bool)
        ensures
            r == self.erase_mode(),
    {
        self.erase_active
    }

    pub fn selected_stroke(&self) -> (r: crate::style::StrokeStyle)
        ensures
            r == self.spec_stroke(),
    {
        self.stroke
    }

    pub closed spec fn spec_stroke(self) -> crate::style::StrokeStyle {
        self.stroke
    }

    /// Sets the stroke style new strokes will take.
    pub fn set_stroke(&mut self, stroke: crate::style::StrokeStyle)
        ensures
            final(self).spec_stroke() == stroke,
            final(self).draw_mode() == old(self).draw_mode(),
            final(self).erase_mode() == old(self).erase_mode(),
    {
        self.stroke = stroke;
    }

    /// Toggles the draw tool; turning it on turns the erase tool off.
    pub fn toggle_draw(&mut self)
        ensures
            final(self).draw_mode() == !old(self).draw_mode(),
            final(self).draw_mode() ==> !final(self).erase_mode(),
            !final(self).draw_mode() ==> final(self).erase_mode() == old(self).erase_mode(),
            final(self).spec_stroke() == old(self).spec_stroke(),
    {
        self.draw_active = !self.draw_active;
        if self.draw_active && self.erase_active {
            self.erase_active = false;
        }
    }

    /// Toggles the erase tool; turning it on turns the draw tool off.
    pub fn toggle_erase(&mut self)
        ensures
            final(self).erase_mode() == !old(self).erase_mode(),
            final(self).erase_mode() ==> !final(self).draw_mode(),
            !final(self).erase_mode() ==> final(self).draw_mode() == old(self).draw_mode(),
            final(self).spec_stroke() == old(self).spec_stroke(),
    {
        self.erase_active = !self.erase_active;
        if self.draw_active && self.erase_active {
            self.draw_active = false;
        }
    }
}

} // verus!
