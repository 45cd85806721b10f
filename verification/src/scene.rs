//! The scene graph: groups carrying transforms, containing marks or nested
//! groups.  The compiled chart is one `Scene`.

use vstd::prelude::*;

use crate::mark::Mark;
use crate::style::Color;

verus! {

/// A compiled chart: declared size, optional background, and the root group.
pub struct Scene {
    pub width: i64,
    pub height: i64,
    pub background: Option<Color>,
    pub root: Group,
}

impl Scene {
    /// An empty scene of the given size.
    pub fn new(width: i64, height: i64) -> (s: Scene)
        ensures
            s.width == width,
            s.height == height,
            s.background is None,
            s.root.transform == Transform::zero_spec(),
            s.root.clip is None,
            s.root.children@ == Seq::<SceneNode>::empty(),
    {
        Scene { width, height, background: None, root: Group::new() }
    }

    pub fn with_background(self, color: Color) -> (s: Scene)
        ensures
            s.width == self.width,
            s.height == self.height,
            s.background == Some(color),
            s.root == self.root,
    {
        Scene { background: Some(color), ..self }
    }
}

/// An ordered collection of scene nodes under one transform and optional
/// clip rectangle.
pub struct Group {
    pub transform: Transform,
    pub clip: Option<Rect>,
    pub children: Vec<SceneNode>,
}

impl Group {
    /// An empty group with the all-zero transform and no clip.
    pub fn new() -> (g: Group)
        ensures
            g.transform == Transform::zero_spec(),
            g.clip is None,
            g.children@ == Seq::<SceneNode>::empty(),
    {
        Group { transform: Transform::default(), clip: None, children: Vec::new() }
    }

    pub fn with_transform(self, transform: Transform) -> (g: Group)
        ensures
            g.transform == transform,
            g.clip == self.clip,
            g.children == self.children,
    {
        Group { transform, ..self }
    }

    pub fn with_clip(self, clip: Rect) -> (g: Group)
        ensures
            g.transform == self.transform,
            g.clip == Some(clip),
            g.children == self.children,
    {
        Group { clip: Some(clip), ..self }
    }

    pub fn add_child(&mut self, node: SceneNode)
        ensures
            final(self).transform == old(self).transform,
            final(self).clip == old(self).clip,
            final(self).children@ == old(self).children@ + seq![node],
    {
        self.children.push(node);
    }

    pub fn add_mark(&mut self, mark: Mark)
        ensures
            final(self).transform == old(self).transform,
            final(self).clip == old(self).clip,
            final(self).children@ == old(self).children@ + seq![SceneNode::Mark(mark)],
    {
        self.children.push(SceneNode::Mark(mark));
    }

    pub fn add_group(&mut self, group: Group)
        ensures
            final(self).transform == old(self).transform,
            final(self).clip == old(self).clip,
            final(self).children@ == old(self).children@ + seq![
                SceneNode::Group(Box::new(group)),
            ],
    {
        self.children.push(SceneNode::Group(Box::new(group)));
    }
}

/// One child of a group.
pub enum SceneNode {
    Group(Box<Group>),
    Mark(Mark),
}

/// A 2D affine transform: translation, scaling, rotation (in millionths of
/// a pixel or degree).  The all-zero default is deliberately not the
/// identity; `Transform::translate` produces identity scaling.
#[derive(Debug, Clone, Copy, PartialEq, Eq, Structural)]
pub struct Transform {
    pub translate_x: i64,
    pub translate_y: i64,
    pub scale_x: i64,
    pub scale_y: i64,
    pub rotate: i64,
}

impl Transform {
    /// The all-zero transform (the `Default`).
    pub open spec fn zero_spec() -> Transform {
        Transform { translate_x: 0, translate_y: 0, scale_x: 0, scale_y: 0, rotate: 0 }
    }
}

impl Default for Transform {
    fn default() -> (t: Transform)
        ensures
            t == (Transform { translate_x: 0, translate_y: 0, scale_x: 0, scale_y: 0, rotate: 0 }),
    {
        Transform { translate_x: 0, translate_y: 0, scale_x: 0, scale_y: 0, rotate: 0 }
    }
}

impl Transform {
    /// A pure translation (with identity scaling).
    pub fn translate(x: i64, y: i64) -> (t: Transform)
        ensures
            t == (Transform {
                translate_x: x,
                translate_y: y,
                scale_x: crate::num::SCALE,
                scale_y: crate::num::SCALE,
                rotate: 0,
            }),
    {
        Transform {
            translate_x: x,
            translate_y: y,
            scale_x: crate::num::SCALE,
            scale_y: crate::num::SCALE,
            rotate: 0,
        }
    }

    /// Whether the transform moves nothing.
    pub fn is_identity(&self) -> (r: bool)
        ensures
            r == (self.translate_x == 0 && self.translate_y == 0 && self.scale_x
                == crate::num::SCALE && self.scale_y == crate::num::SCALE && self.rotate == 0),
    {
        self.translate_x == 0 && self.translate_y == 0 && self.scale_x == crate::num::SCALE
            && self.scale_y == crate::num::SCALE && self.rotate == 0
    }
}

/// An axis-aligned rectangle in millionths of a pixel.
#[derive(Debug, Clone, Copy, PartialEq, Eq, Structural)]
pub struct Rect {
    pub x: i64,
    pub y: i64,
    pub width: i64,
    pub height: i64,
}

impl Rect {
    pub fn new(x: i64, y: i64, width: i64, height: i64) -> (r: Rect)
        ensures
            r == (Rect { x, y, width, height }),
    {
        Rect { x, y, width, height }
    }
}

/// Padding around the plot area, in millionths of a pixel.
#[derive(Debug, Clone, Copy, PartialEq, Eq, Structural)]
pub struct Padding {
    pub top: i64,
    pub right: i64,
    pub bottom: i64,
    pub left: i64,
}

impl Padding {
    /// The same padding on all four sides.
    pub fn uniform(value: i64) -> (p: Padding)
        ensures
            p == (Padding { top: value, right: value, bottom: value, left: value }),
    {
        Padding { top: value, right: value, bottom: value, left: value }
    }

    pub fn new(top: i64, right: i64, bottom: i64, left: i64) -> (p: Padding)
        ensures
            p == (Padding { top, right, bottom, left }),
    {
        Padding { top, right, bottom, left }
    }
}

} // verus!
