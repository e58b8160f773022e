//! The course of an edit: straighten, work on the colours, retouch, crop. What needs
//! arithmetic in floating point is asked for, step by step; settings that call for
//! nothing ask for nothing.
use vstd::prelude::*;
use crate::edit::{
    crop, crop_from_the_top_keeps_the_rows, fitted, is_crop_of, is_middle_of,
    straighten, EditParams,
};
use crate::float_bits::Float32;
use crate::heal::{HealStamp, RetouchOps};
use crate::raster::{is_cut_of, Image};
use crate::stages::{
    active_stages, color_stages, is_level, needs_straightening, settings_without_change_run_nothing,
    Stage,
};

verus! {

/// The steps of an edit, in order.
#[derive(Clone, Copy, PartialEq, Eq, Structural, Debug)]
pub enum EditStep {
    Straighten,
    Color,
    Retouch,
    Crop,
}

/// What an edit wants done next.
#[derive(Debug)]
pub enum EditAction {
    /// Rotate the image by the angle of this slider.
    Straighten { slider: Float32 },
    /// Run these stages, in order.
    Color { stages: Vec<Stage> },
    /// Apply these healing stamps, in order.
    Retouch { stamps: Vec<HealStamp> },
    /// Nothing: only the crop is left.
    Finish,
}

/// An edit under way.
#[derive(Debug)]
pub struct EditJob {
    pub params: EditParams,
    pub retouch: RetouchOps,
    /// The image as far as it is edited.
    pub img: Image,
    pub step: EditStep,
}

/// The step that follows the colours, where there are `n` stamps.
pub open spec fn after_color(n: nat) -> EditStep {
    if n > 0 {
        EditStep::Retouch
    } else {
        EditStep::Crop
    }
}

/// The step that follows the straightening.
pub open spec fn after_straightening(p: &EditParams, n: nat) -> EditStep {
    if active_stages(p, 12).len() > 0 {
        EditStep::Color
    } else {
        after_color(n)
    }
}

/// The first step of an edit.
pub open spec fn first_step(p: &EditParams, n: nat) -> EditStep {
    if is_level(p) {
        after_straightening(p, n)
    } else {
        EditStep::Straighten
    }
}

/// `out` is what is left of an edited image: its crop, or all of it where there is none.
pub open spec fn is_result(out: &Image, img: &Image, p: &EditParams) -> bool {
    if p.crops() {
        is_crop_of(out, img, p)
    } else {
        out.same_as(img)
    }
}

fn step_after_color(retouch: &RetouchOps) -> (r: EditStep)
    ensures
        r == after_color(retouch.in_order().len()),
{
    if retouch.is_empty() {
        EditStep::Crop
    } else {
        EditStep::Retouch
    }
}

fn step_after_straightening(p: &EditParams, retouch: &RetouchOps) -> (r: EditStep)
    ensures
        r == after_straightening(p, retouch.in_order().len()),
{
    if color_stages(p).len() > 0 {
        EditStep::Color
    } else {
        step_after_color(retouch)
    }
}

impl EditJob {
    /// How many stamps are to be applied.
    pub open spec fn stamps(&self) -> nat {
        self.retouch.in_order().len()
    }

    /// What is to be done next.
    pub fn next_action(&self) -> (r: EditAction)
        ensures
            match self.step {
                EditStep::Straighten => r matches EditAction::Straighten { slider } && slider
                    == self.params.straighten,
                EditStep::Color => r matches EditAction::Color { stages } && stages@
                    == active_stages(&self.params, 12),
                EditStep::Retouch => r matches EditAction::Retouch { stamps } && stamps@
                    == self.retouch.in_order(),
                EditStep::Crop => r is Finish,
            },
    {
        match self.step {
            EditStep::Straighten => EditAction::Straighten { slider: self.params.straighten },
            EditStep::Color => EditAction::Color { stages: color_stages(&self.params) },
            EditStep::Retouch => EditAction::Retouch { stamps: self.retouch.stamps() },
            EditStep::Crop => EditAction::Finish,
        }
    }

    /// Takes the rotated image, and the size of the largest upright rectangle in it
    /// without blank corners, and keeps the middle.
    pub fn straightened(&mut self, rotated: &Image, w: u32, h: u32)
        requires
            old(self).step == EditStep::Straighten,
            rotated.wf(),
            rotated.width > 0,
            rotated.height > 0,
        ensures
            final(self).params == old(self).params,
            final(self).retouch == old(self).retouch,
            final(self).step == after_straightening(&old(self).params, old(self).stamps()),
            is_cut_of(
                &final(self).img,
                rotated,
                (rotated.width - fitted(rotated.width as int, w as int)) / 2,
                (rotated.height - fitted(rotated.height as int, h as int)) / 2,
                fitted(rotated.width as int, w as int),
                fitted(rotated.height as int, h as int),
            ),
            is_middle_of(&final(self).img, rotated, w, h),
    {
        self.img = straighten(rotated, w, h);
        self.step = step_after_straightening(&self.params, &self.retouch);
    }

    /// Takes the image whose colours have been worked on.
    pub fn colored(&mut self, img: Image)
        requires
            old(self).step == EditStep::Color,
            img.wf(),
        ensures
            final(self).params == old(self).params,
            final(self).retouch == old(self).retouch,
            final(self).img == img,
            final(self).step == after_color(old(self).stamps()),
    {
        self.img = img;
        self.step = step_after_color(&self.retouch);
    }

    /// Takes the image that has been retouched.
    pub fn retouched(&mut self, img: Image)
        requires
            old(self).step == EditStep::Retouch,
            img.wf(),
        ensures
            final(self).params == old(self).params,
            final(self).retouch == old(self).retouch,
            final(self).img == img,
            final(self).step == EditStep::Crop,
    {
        self.img = img;
        self.step = EditStep::Crop;
    }

    /// Cuts the user's crop out of the edited image.
    pub fn finish(self) -> (r: Image)
        requires
            self.step == EditStep::Crop,
            self.img.wf(),
        ensures
            is_result(&r, &self.img, &self.params),
    {
        crop(&self.img, &self.params)
    }
}

/// Opens an edit of an image with retouching: straighten, colours, healing, crop.
pub fn render_full(img: Image, p: EditParams, retouch: RetouchOps) -> (r: EditJob)
    requires
        img.wf(),
    ensures
        r.img == img,
        r.params == p,
        r.retouch == retouch,
        r.step == first_step(&p, retouch.in_order().len()),
{
    let step: EditStep = if needs_straightening(&p) {
        EditStep::Straighten
    } else {
        step_after_straightening(&p, &retouch)
    };
    EditJob { params: p, retouch, img, step }
}

/// Opens an edit of an image: straighten, colours, crop. Where the settings change
/// nothing, only to finish is left, which gives the image back.
pub fn auto_edit(img: Image, p: EditParams) -> (r: EditJob)
    requires
        img.wf(),
    ensures
        r.img == img,
        r.params == p,
        r.stamps() == 0,
        r.step == first_step(&p, 0),
        p.changes_nothing() ==> r.step == EditStep::Crop && !p.crops(),
{
    proof {
        if p.changes_nothing() {
            settings_without_change_run_nothing(&p);
        }
    }
    render_full(img, p, RetouchOps::default())
}

/// Settings that change nothing leave the image as it is: an edit with them, and without
/// stamps, is done as soon as it is opened, and what it gives is the image.
pub proof fn settings_without_change_give_the_image_back(
    img: &Image,
    p: &EditParams,
    out: &Image,
)
    requires
        p.changes_nothing(),
        is_result(out, img, p),
    ensures
        first_step(p, 0) == EditStep::Crop,
        out.same_as(img),
{
    settings_without_change_run_nothing(p);
}

/// An edit asks for straightening, for stages and for stamps exactly where the settings
/// call for them, and for each at most once: the steps only go forward.
pub proof fn steps_go_forward(p: &EditParams, n: nat)
    ensures
        first_step(p, n) == EditStep::Straighten <==> !is_level(p),
        after_straightening(p, n) != EditStep::Straighten,
        after_straightening(p, n) == EditStep::Color <==> active_stages(p, 12).len() > 0,
        after_color(n) == EditStep::Retouch <==> n > 0,
        after_color(n) == EditStep::Retouch || after_color(n) == EditStep::Crop,
{
}

/// The steps of an edit by what the settings and the stamps call for: straightening
/// first, then the colours, then the stamps, and the crop last; what is not called for
/// is left out.
pub proof fn steps_by_what_is_called_for(p: &EditParams, n: nat)
    ensures
        p.straighten.bits % 0x8000_0000 >= 0x3dcc_cccc ==> first_step(p, n)
            == EditStep::Straighten,
        p.straighten.bits % 0x8000_0000 < 0x3dcc_cccc ==> first_step(p, n) == after_straightening(
            p,
            n,
        ),
        active_stages(p, 12).len() > 0 ==> after_straightening(p, n) == EditStep::Color,
        active_stages(p, 12).len() == 0 && n > 0 ==> after_straightening(p, n)
            == EditStep::Retouch,
        active_stages(p, 12).len() == 0 && n == 0 ==> after_straightening(p, n) == EditStep::Crop,
        n > 0 ==> after_color(n) == EditStep::Retouch,
        n == 0 ==> after_color(n) == EditStep::Crop,
{
}

/// What an edit gives is its image, or that image's crop where the settings crop: of the
/// same size or smaller, and with a crop from the upper left corner pixel for pixel what
/// the image holds there.
pub proof fn results_are_cut_out_of_the_image(
    out: &Image,
    img: &Image,
    p: &EditParams,
    i: int,
    j: int,
    c: int,
)
    requires
        img.wf(),
        is_result(out, img, p),
        p.crop_x.bits == 0,
        p.crop_y.bits == 0,
        0 <= i < out.width,
        0 <= j < out.height,
        0 <= c < 3,
    ensures
        !p.crops() ==> out.width == img.width && out.height == img.height,
        out.channel(i, j, c) == img.channel(i, j, c),
{
    if p.crops() {
        crop_from_the_top_keeps_the_rows(out, img, p, i, j, c);
    }
}

} // verus!
