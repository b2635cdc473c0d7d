//! Drawing by method chaining.
//!
//! A [`Draw`] holds a canvas for the time of a drawing. Each of its methods
//! draws one shape and hands the `Draw` back, so that calls can be strung
//! together; when the last of them is done the canvas holds all the shapes,
//! in the order of the calls.

use vstd::prelude::*;
use crate::aa::{aa_steps, plotted_between};
use crate::angle::Dir;
use crate::annulus::annulus_pixels;
use crate::arc::arc_pixels;
use crate::basics::rect;
use crate::canvas::{Canvas, Color};
use crate::circle::circle_pixels;
use crate::pt::Pt;

verus! {

/// A canvas that is being drawn on.
pub struct Draw<'i> {
    pub image: &'i mut Canvas,
}

impl<'i> Draw<'i> {
    /// Takes hold of a canvas.
    pub fn new(image: &'i mut Canvas) -> (d: Draw<'i>)
        ensures
            *d.image == *old(image),
            *final(d.image) == *final(image),
    {
        Draw { image }
    }

    /// Fills the rectangle of the given height and width whose top left
    /// corner is `pt`.
    pub fn rectangle_filled(self, pt: Pt<u32>, height: u32, width: u32, color: Color) -> (d: Draw<
        'i,
    >)
        ensures
            (*d.image)@ == (*old(self.image))@.fill(
                rect(pt.x as int, pt.y as int, pt.x + width - 1, pt.y + height - 1),
                color,
            ),
            *final(d.image) == *final(self.image),
    {
        crate::basics::rectangle_filled(self.image, pt, height, width, color);
        self
    }

    /// Draws the arc of the circle of radius `radius` around `center` from
    /// `start_angle` counter-clockwise to `end_angle`.
    pub fn arc(
        self,
        start_angle: Dir,
        end_angle: Dir,
        radius: i32,
        center: Pt<i32>,
        color: Color,
    ) -> (d: Draw<'i>)
        requires
            radius > 0,
            start_angle.wf(),
            end_angle.wf(),
        ensures
            (*d.image)@ == (*old(self.image))@.fill(
                arc_pixels(start_angle, end_angle, radius as int, center.pair()),
                color,
            ),
            *final(d.image) == *final(self.image),
    {
        crate::arc::arc(self.image, start_angle, end_angle, radius, center, color);
        self
    }

    /// Draws the circle of radius `radius` around `center`.
    pub fn circle(self, radius: i32, center: Pt<i32>, color: Color) -> (d: Draw<'i>)
        requires
            radius > 0,
        ensures
            (*d.image)@ == (*old(self.image))@.fill(
                circle_pixels(radius as int, center.pair()),
                color,
            ),
            *final(d.image) == *final(self.image),
    {
        crate::circle::circle(self.image, radius, center, color);
        self
    }

    /// Fills the slice of the disc of radius `radius` around `center` from
    /// `start_angle` counter-clockwise to `end_angle`.
    pub fn pie_slice_filled(
        self,
        start_angle: Dir,
        end_angle: Dir,
        radius: i32,
        center: Pt<i32>,
        color: Color,
    ) -> (d: Draw<'i>)
        requires
            radius > 0,
            start_angle.wf(),
            end_angle.wf(),
        ensures
            (*d.image)@ == (*old(self.image))@.fill(
                annulus_pixels(start_angle, end_angle, 0, radius as int, center.pair()),
                color,
            ),
            *final(d.image) == *final(self.image),
    {
        crate::annulus::pie_slice_filled(
            self.image,
            start_angle,
            end_angle,
            radius,
            center,
            color,
        );
        self
    }

    /// Fills the annulus between the circles of radius `inner_radius` and
    /// `outer_radius` around `center`, from `start_angle` counter-clockwise
    /// to `end_angle`.
    pub fn annulus(
        self,
        start_angle: Dir,
        end_angle: Dir,
        inner_radius: i32,
        outer_radius: i32,
        center: Pt<i32>,
        color: Color,
    ) -> (d: Draw<'i>)
        requires
            inner_radius >= 0,
            outer_radius >= 0,
            inner_radius + outer_radius > 0,
            start_angle.wf(),
            end_angle.wf(),
        ensures
            (*d.image)@ == (*old(self.image))@.fill(
                annulus_pixels(
                    start_angle,
                    end_angle,
                    inner_radius as int,
                    outer_radius as int,
                    center.pair(),
                ),
                color,
            ),
            *final(d.image) == *final(self.image),
    {
        crate::annulus::annulus(
            self.image,
            start_angle,
            end_angle,
            inner_radius,
            outer_radius,
            center,
            color,
        );
        self
    }

    /// Draws the antialiased arc of the circle of radius `radius` around
    /// `center` from `start_angle` counter-clockwise to `end_angle`.
    pub fn antialiased_arc(
        self,
        start_angle: Dir,
        end_angle: Dir,
        radius: i32,
        center: Pt<i32>,
        color: Color,
    ) -> (d: Draw<'i>)
        requires
            radius > 0,
        ensures
            (*d.image)@ == plotted_between(
                (*old(self.image))@,
                aa_steps(radius as int, center.pair()),
                start_angle,
                end_angle,
                center.pair(),
                color,
            ),
            *final(d.image) == *final(self.image),
    {
        crate::aa::antialiased_arc(self.image, start_angle, end_angle, radius, center, color);
        self
    }
}

/// Takes hold of a canvas, to draw on it by method chaining.
pub fn new<'i>(image: &'i mut Canvas) -> (d: Draw<'i>)
    ensures
        *d.image == *old(image),
        *final(d.image) == *final(image),
{
    Draw { image }
}

} // verus!
