//! Which stages of the editor a setting calls for, and in which order they run.
use vstd::prelude::*;
use crate::edit::{is_zero, EditParams};
use crate::float_bits::Float32;

verus! {

/// A stage of the editor that works on colour, tone or detail.
#[derive(Clone, Copy, PartialEq, Eq, Structural, Debug)]
pub enum Stage {
    Denoise,
    AutoWhiteBalance,
    WhiteBalance,
    AutoExposure,
    Exposure,
    AutoContrast,
    Tone,
    SplitTone,
    Color,
    Vignette,
    Clarity,
    Sharpen,
}

/// Whether a hundredth of a slider is zero in 32 bits: the slider is zero, or too
/// small by far to be told from it.
pub open spec fn is_flat(v: Float32) -> bool {
    v.magnitude() <= 50
}

/// Whether a strength does nothing: a hundredth of it is at most zero.
pub open spec fn has_no_strength(v: Float32) -> bool {
    !v.is_nan() && (v.bits >= 0x8000_0000 || is_flat(v))
}

/// Whether a tint does nothing: half a hundredth of its saturation is at most
/// zero.
pub open spec fn has_no_tint(v: Float32) -> bool {
    !v.is_nan() && (v.bits >= 0x8000_0000 || v.magnitude() <= 149)
}

/// Whether a stage changes anything under these settings.
pub open spec fn is_active(p: &EditParams, stage: Stage) -> bool {
    match stage {
        Stage::Denoise => !has_no_strength(p.noise_reduction),
        Stage::AutoWhiteBalance => !has_no_strength(p.auto_white_balance),
        Stage::WhiteBalance => !(is_flat(p.temperature) && is_flat(p.tint)),
        Stage::AutoExposure => !has_no_strength(p.auto_exposure),
        Stage::Exposure => !is_flat(p.exposure),
        Stage::AutoContrast => !has_no_strength(p.auto_contrast),
        Stage::Tone => !(is_flat(p.contrast) && is_flat(p.highlights) && is_flat(p.shadows)
            && is_flat(p.whites) && is_flat(p.blacks)),
        Stage::SplitTone => !(has_no_tint(p.shadow_sat) && has_no_tint(p.highlight_sat)),
        Stage::Color => !(is_flat(p.saturation) && is_flat(p.vibrance)),
        Stage::Vignette => !is_flat(p.vignette_amount),
        Stage::Clarity => !is_flat(p.clarity),
        Stage::Sharpen => !has_no_strength(p.sharpening),
    }
}

/// The stages in the order in which they run: white balance, exposure, tone,
/// colour, and detail last.
pub open spec fn pipeline() -> Seq<Stage> {
    seq![
        Stage::Denoise,
        Stage::AutoWhiteBalance,
        Stage::WhiteBalance,
        Stage::AutoExposure,
        Stage::Exposure,
        Stage::AutoContrast,
        Stage::Tone,
        Stage::SplitTone,
        Stage::Color,
        Stage::Vignette,
        Stage::Clarity,
        Stage::Sharpen,
    ]
}

/// The active ones of the first `n` stages.
pub open spec fn active_stages(p: &EditParams, n: int) -> Seq<Stage>
    decreases n,
{
    if n <= 0 {
        seq![]
    } else if is_active(p, pipeline()[n - 1]) {
        active_stages(p, n - 1).push(pipeline()[n - 1])
    } else {
        active_stages(p, n - 1)
    }
}

fn flat(v: Float32) -> (r: bool)
    ensures
        r == is_flat(v),
{
    v.unsigned() <= 50
}

fn no_strength(v: Float32) -> (r: bool)
    ensures
        r == has_no_strength(v),
{
    !v.nan() && (v.bits >= 0x8000_0000 || flat(v))
}

fn no_tint(v: Float32) -> (r: bool)
    ensures
        r == has_no_tint(v),
{
    !v.nan() && (v.bits >= 0x8000_0000 || v.unsigned() <= 149)
}

fn runs(p: &EditParams, stage: Stage) -> (r: bool)
    ensures
        r == is_active(p, stage),
{
    match stage {
        Stage::Denoise => !no_strength(p.noise_reduction),
        Stage::AutoWhiteBalance => !no_strength(p.auto_white_balance),
        Stage::WhiteBalance => !(flat(p.temperature) && flat(p.tint)),
        Stage::AutoExposure => !no_strength(p.auto_exposure),
        Stage::Exposure => !flat(p.exposure),
        Stage::AutoContrast => !no_strength(p.auto_contrast),
        Stage::Tone => !(flat(p.contrast) && flat(p.highlights) && flat(p.shadows) && flat(
            p.whites,
        ) && flat(p.blacks)),
        Stage::SplitTone => !(no_tint(p.shadow_sat) && no_tint(p.highlight_sat)),
        Stage::Color => !(flat(p.saturation) && flat(p.vibrance)),
        Stage::Vignette => !flat(p.vignette_amount),
        Stage::Clarity => !flat(p.clarity),
        Stage::Sharpen => !no_strength(p.sharpening),
    }
}

/// The stages that these settings call for, in the order in which they run.
pub fn color_stages(p: &EditParams) -> (r: Vec<Stage>)
    ensures
        r@ == active_stages(p, 12),
{
    let all: [Stage; 12] = [
        Stage::Denoise,
        Stage::AutoWhiteBalance,
        Stage::WhiteBalance,
        Stage::AutoExposure,
        Stage::Exposure,
        Stage::AutoContrast,
        Stage::Tone,
        Stage::SplitTone,
        Stage::Color,
        Stage::Vignette,
        Stage::Clarity,
        Stage::Sharpen,
    ];
    assert(all@ =~= pipeline());
    let mut stages: Vec<Stage> = Vec::new();
    let mut n: usize = 0;
    while n < 12
        invariant
            all@ == pipeline(),
            n <= 12,
            stages@ == active_stages(p, n as int),
        decreases 12 - n,
    {
        if runs(p, all[n]) {
            stages.push(all[n]);
        }
        n = n + 1;
    }
    stages
}

/// Whether the angle of the straightening is too small to rotate by: below a
/// hundredth of a degree, where a slider of 100 stands for ten degrees.
pub open spec fn is_level(p: &EditParams) -> bool {
    p.straighten.magnitude() < 0x3dcc_cccc
}

/// Whether the frame has to be straightened.
pub fn needs_straightening(p: &EditParams) -> (r: bool)
    ensures
        r == !is_level(p),
{
    p.straighten.unsigned() >= 0x3dcc_cccc
}

/// Settings that change nothing call for no stage, no straightening and no crop.
pub proof fn settings_without_change_run_nothing(p: &EditParams)
    requires
        p.changes_nothing(),
    ensures
        active_stages(p, 12).len() == 0,
        is_level(p),
        !p.crops(),
{
    let s = p.sliders();
    assert(forall|i: int| 0 <= i < 23 ==> is_zero(#[trigger] s[i]));
    assert(s[0] == p.auto_exposure && s[1] == p.auto_white_balance && s[2] == p.auto_contrast);
    assert(s[3] == p.exposure && s[4] == p.contrast && s[5] == p.highlights && s[6] == p.shadows);
    assert(s[7] == p.whites && s[8] == p.blacks && s[9] == p.saturation && s[10] == p.vibrance);
    assert(s[11] == p.temperature && s[12] == p.tint && s[13] == p.sharpening);
    assert(s[14] == p.straighten && s[15] == p.noise_reduction && s[16] == p.clarity);
    assert(s[17] == p.vignette_amount && s[20] == p.shadow_sat && s[22] == p.highlight_sat);
    reveal_with_fuel(active_stages, 13);
}

/// A stage is among those of a setting exactly where it is active.
pub proof fn active_stages_run(p: &EditParams, n: int, k: int)
    requires
        0 <= k < n <= 12,
    ensures
        active_stages(p, n).contains(pipeline()[k]) <==> is_active(p, pipeline()[k]),
    decreases n,
{
    let before = active_stages(p, n - 1);
    let last = pipeline()[n - 1];
    if k < n - 1 {
        active_stages_run(p, n - 1, k);
        assert(pipeline()[k] != last);
        if before.contains(pipeline()[k]) {
            let i = before.index_of(pipeline()[k]);
            assert(active_stages(p, n)[i] == pipeline()[k]);
        }
    } else if is_active(p, last) {
        assert(active_stages(p, n)[before.len() as int] == last);
    } else {
        lemma_stages_come_from_pipeline(p, n - 1);
    }
}

proof fn lemma_stages_come_from_pipeline(p: &EditParams, n: int)
    requires
        0 <= n <= 12,
    ensures
        forall|i: int|
            0 <= i < active_stages(p, n).len() ==> exists|k: int|
                0 <= k < n && #[trigger] pipeline()[k] == #[trigger] active_stages(p, n)[i],
    decreases n,
{
    if n > 0 {
        lemma_stages_come_from_pipeline(p, n - 1);
        let (before, all) = (active_stages(p, n - 1), active_stages(p, n));
        assert forall|i: int| 0 <= i < all.len() implies exists|k: int|
            0 <= k < n && #[trigger] pipeline()[k] == #[trigger] all[i] by {
            if i < before.len() {
                let k = choose|k: int|
                    0 <= k < n - 1 && #[trigger] pipeline()[k] == #[trigger] before[i];
                assert(pipeline()[k] == all[i]);
            } else {
                assert(pipeline()[n - 1] == all[i]);
            }
        }
    }
}

// ---------------------------------------------------------------------------
// Which sliders call for which stage
// ---------------------------------------------------------------------------

/// The colour stage runs exactly where one of the saturation and the vibrance has a
/// pattern above the smallest of which a hundredth is zero, whatever the other is.
pub proof fn saturation_or_vibrance_calls_for_colour(p: &EditParams)
    ensures
        active_stages(p, 12).contains(Stage::Color) <==> p.saturation.bits % 0x8000_0000 > 50
            || p.vibrance.bits % 0x8000_0000 > 50,
{
    active_stages_run(p, 12, 8);
}

/// The tone stage runs exactly where one of its five sliders is not negligible.
pub proof fn tone_sliders_call_for_tone(p: &EditParams)
    ensures
        active_stages(p, 12).contains(Stage::Tone) <==> p.contrast.bits % 0x8000_0000 > 50
            || p.highlights.bits % 0x8000_0000 > 50 || p.shadows.bits % 0x8000_0000 > 50
            || p.whites.bits % 0x8000_0000 > 50 || p.blacks.bits % 0x8000_0000 > 50,
{
    active_stages_run(p, 12, 6);
}

/// White balance runs exactly where the temperature or the tint is not negligible,
/// and exposure, vignette and clarity each for the one slider of its name.
pub proof fn sliders_call_for_their_stages(p: &EditParams)
    ensures
        active_stages(p, 12).contains(Stage::WhiteBalance) <==> p.temperature.bits % 0x8000_0000
            > 50 || p.tint.bits % 0x8000_0000 > 50,
        active_stages(p, 12).contains(Stage::Exposure) <==> p.exposure.bits % 0x8000_0000 > 50,
        active_stages(p, 12).contains(Stage::Vignette) <==> p.vignette_amount.bits % 0x8000_0000
            > 50,
        active_stages(p, 12).contains(Stage::Clarity) <==> p.clarity.bits % 0x8000_0000 > 50,
{
    active_stages_run(p, 12, 2);
    active_stages_run(p, 12, 4);
    active_stages_run(p, 12, 9);
    active_stages_run(p, 12, 10);
}

/// Noise reduction, sharpening and the automatic stages run exactly for a strength
/// that is above zero by more than the negligible, or that is no number; a negative
/// strength calls for nothing.
pub proof fn strengths_call_for_their_stages(p: &EditParams)
    ensures
        active_stages(p, 12).contains(Stage::Denoise) <==> 50 < p.noise_reduction.bits
            < 0x8000_0000 || p.noise_reduction.bits > 0xff80_0000,
        active_stages(p, 12).contains(Stage::AutoWhiteBalance) <==> 50 < p.auto_white_balance.bits
            < 0x8000_0000 || p.auto_white_balance.bits > 0xff80_0000,
        active_stages(p, 12).contains(Stage::AutoExposure) <==> 50 < p.auto_exposure.bits
            < 0x8000_0000 || p.auto_exposure.bits > 0xff80_0000,
        active_stages(p, 12).contains(Stage::AutoContrast) <==> 50 < p.auto_contrast.bits
            < 0x8000_0000 || p.auto_contrast.bits > 0xff80_0000,
        active_stages(p, 12).contains(Stage::Sharpen) <==> 50 < p.sharpening.bits < 0x8000_0000
            || p.sharpening.bits > 0xff80_0000,
{
    active_stages_run(p, 12, 0);
    active_stages_run(p, 12, 1);
    active_stages_run(p, 12, 3);
    active_stages_run(p, 12, 5);
    active_stages_run(p, 12, 11);
}

/// Split toning runs exactly where the saturation of the shadows or that of the
/// highlights is above zero by more than the negligible, or is no number; the hues
/// alone call for nothing.
pub proof fn tints_call_for_split_toning(p: &EditParams)
    ensures
        active_stages(p, 12).contains(Stage::SplitTone) <==> 149 < p.shadow_sat.bits < 0x8000_0000
            || p.shadow_sat.bits > 0xff80_0000 || 149 < p.highlight_sat.bits < 0x8000_0000
            || p.highlight_sat.bits > 0xff80_0000,
{
    active_stages_run(p, 12, 7);
}

/// When a stage has its turn: noise goes first, then white balance, exposure,
/// contrast, tone and colour, each automatic stage before that of the user, and detail
/// last.
pub open spec fn turn(stage: Stage) -> int {
    match stage {
        Stage::Denoise => 1,
        Stage::AutoWhiteBalance => 2,
        Stage::WhiteBalance => 3,
        Stage::AutoExposure => 4,
        Stage::Exposure => 5,
        Stage::AutoContrast => 6,
        Stage::Tone => 7,
        Stage::SplitTone => 8,
        Stage::Color => 9,
        Stage::Vignette => 10,
        Stage::Clarity => 11,
        Stage::Sharpen => 12,
    }
}

/// Of two stages of a setting, the one that is listed first has its turn first; none is
/// listed twice.
pub proof fn stages_have_their_turns(p: &EditParams, i: int, j: int)
    requires
        0 <= i < j < active_stages(p, 12).len(),
    ensures
        turn(active_stages(p, 12)[i]) < turn(active_stages(p, 12)[j]),
{
    lemma_turns_ascend(p, 12);
}

proof fn lemma_turns_ascend(p: &EditParams, n: int)
    requires
        0 <= n <= 12,
    ensures
        forall|i: int|
            0 <= i < active_stages(p, n).len() ==> turn(#[trigger] active_stages(p, n)[i]) <= n,
        forall|i: int, j: int|
            0 <= i < j < active_stages(p, n).len() ==> turn(#[trigger] active_stages(p, n)[i])
                < turn(#[trigger] active_stages(p, n)[j]),
    decreases n,
{
    if n > 0 {
        lemma_turns_ascend(p, n - 1);
        let (before, all) = (active_stages(p, n - 1), active_stages(p, n));
        let last = pipeline()[n - 1];
        assert(turn(last) == n);
        assert(all == before || all == before.push(last));
        assert forall|i: int| 0 <= i < all.len() implies turn(#[trigger] all[i]) <= n by {
            if i < before.len() {
                assert(all[i] == before[i]);
            } else {
                assert(all[i] == last);
            }
        }
        assert forall|i: int, j: int| 0 <= i < j < all.len() implies turn(#[trigger] all[i]) < turn(
            #[trigger] all[j],
        ) by {
            assert(all[i] == before[i]);
            if j < before.len() {
                assert(all[j] == before[j]);
            } else {
                assert(all[j] == last);
            }
        }
    }
}

/// Settings that agree in the sliders of colour, tone and detail call for the same
/// stages, whatever the crop, the straightening, the hues and the vignette's midpoint.
pub proof fn other_settings_call_for_no_stage(p: &EditParams, q: &EditParams)
    requires
        q == (EditParams {
            straighten: q.straighten,
            crop_x: q.crop_x,
            crop_y: q.crop_y,
            crop_w: q.crop_w,
            crop_h: q.crop_h,
            shadow_hue: q.shadow_hue,
            highlight_hue: q.highlight_hue,
            vignette_midpoint: q.vignette_midpoint,
            ..*p
        }),
    ensures
        active_stages(q, 12) == active_stages(p, 12),
{
    assert forall|stage: Stage| #[trigger] is_active(q, stage) == is_active(p, stage) by {}
    lemma_same_stages(p, q, 12);
}

proof fn lemma_same_stages(p: &EditParams, q: &EditParams, n: int)
    requires
        forall|stage: Stage| #[trigger] is_active(q, stage) == is_active(p, stage),
        0 <= n <= 12,
    ensures
        active_stages(q, n) == active_stages(p, n),
    decreases n,
{
    if n > 0 {
        lemma_same_stages(p, q, n - 1);
        assert(is_active(q, pipeline()[n - 1]) == is_active(p, pipeline()[n - 1]));
    }
}

/// The frame is rotated exactly for an angle of a hundredth of a degree or more, to
/// either side: for sliders whose pattern without its sign is that of 0.1 less one step,
/// or above.
pub proof fn straightening_knows_no_side(p: &EditParams, q: &EditParams)
    requires
        p.straighten.bits % 0x8000_0000 == q.straighten.bits % 0x8000_0000,
    ensures
        is_level(p) == is_level(q),
        is_level(p) <==> p.straighten.bits % 0x8000_0000 < 0x3dcc_cccc,
{
}

} // verus!
