//! Picking the preset to recommend for the detected hardware.
use vstd::prelude::*;
use crate::hardware::{gpus_view, HardwareConfidence, HardwareSnapshot, SGpuInfo};
use crate::presets::{presets_view, Preset, SPreset};
use crate::seq_util::{last_where, lemma_last_where_none, lemma_last_where_some};
use crate::text::{append_all, chars_of, decimal, decimal_vec, string_of};

verus! {

/// A reported amount of VRAM may fall this many percent short of a preset's
/// and still support it.
pub const PRESET_VRAM_TOLERANCE_PERCENT: u32 = 95;

/// The preset the app recommends, and why.
#[derive(Debug, Clone, PartialEq, Eq)]
pub struct PresetRecommendation {
    pub preset_id: String,
    pub gpu_name: String,
    pub detected_vram_mb: u32,
    pub confidence: HardwareConfidence,
    pub reason: String,
}

pub struct SPresetRecommendation {
    pub preset_id: Seq<char>,
    pub gpu_name: Seq<char>,
    pub detected_vram_mb: u32,
    pub confidence: HardwareConfidence,
    pub reason: Seq<char>,
}

impl View for PresetRecommendation {
    type V = SPresetRecommendation;

    open spec fn view(&self) -> SPresetRecommendation {
        SPresetRecommendation {
            preset_id: self.preset_id@,
            gpu_name: self.gpu_name@,
            detected_vram_mb: self.detected_vram_mb,
            confidence: self.confidence,
            reason: self.reason@,
        }
    }
}

/// `x`, or `u32::MAX` when it does not fit (`saturating_mul`'s result).
pub open spec fn sat_u32(x: int) -> int {
    if x > u32::MAX {
        u32::MAX as int
    } else {
        x
    }
}

/// The detected VRAM supports the preset: 100 times the detected MiB reach
/// 95 times the preset's MiB, each product saturating at `u32::MAX`.
pub open spec fn supports(preset_vram_gb: u32, detected_vram_mb: u32) -> bool {
    sat_u32(detected_vram_mb * 100) >= sat_u32(sat_u32(preset_vram_gb * 1024) * PRESET_VRAM_TOLERANCE_PERCENT)
}

/// `a * b`, saturating at `u32::MAX`.
fn saturating_product(a: u32, b: u32) -> (r: u32)
    ensures
        r == sat_u32(a * b),
{
    match a.checked_mul(b) {
        Some(v) => v,
        None => u32::MAX,
    }
}

pub fn preset_is_supported_by_vram(preset: &Preset, detected_vram_mb: u32) -> (b: bool)
    ensures
        b == supports(preset.vram_gb, detected_vram_mb),
{
    let preset_vram_mb = saturating_product(preset.vram_gb, 1024);
    saturating_product(detected_vram_mb, 100) >= saturating_product(preset_vram_mb, PRESET_VRAM_TOLERANCE_PERCENT)
}

/// A GPU counts when its confidence is not low and its VRAM is known.
pub open spec fn counts(g: SGpuInfo) -> bool {
    g.confidence != HardwareConfidence::Low && g.dedicated_vram_mb is Some
}

pub open spec fn vram_of(g: SGpuInfo) -> u32 {
    g.dedicated_vram_mb->Some_0
}

/// The index of a counting GPU with the most VRAM, the last of them on a tie.
pub open spec fn best_gpu_at(gs: Seq<SGpuInfo>) -> spec_fn(int) -> bool {
    |i: int| counts(gs[i]) && forall|j: int| 0 <= j < gs.len() && counts(#[trigger] gs[j]) ==> vram_of(gs[j]) <= vram_of(gs[i])
}

pub open spec fn best_gpu(gs: Seq<SGpuInfo>) -> Option<int> {
    last_where(gs.len() as int, best_gpu_at(gs))
}

/// The index of a supported preset with the most VRAM, the last of them on
/// a tie.
pub open spec fn best_preset_at(ps: Seq<SPreset>, vram_mb: u32) -> spec_fn(int) -> bool {
    |i: int| supports(ps[i].vram_gb, vram_mb) && forall|j: int|
        0 <= j < ps.len() && supports(#[trigger] ps[j].vram_gb, vram_mb) ==> ps[j].vram_gb <= ps[i].vram_gb
}

pub open spec fn best_preset(ps: Seq<SPreset>, vram_mb: u32) -> Option<int> {
    last_where(ps.len() as int, best_preset_at(ps, vram_mb))
}

/// `Detected <whole GiB> GB VRAM on <gpu>. This preset is recommended.`
pub open spec fn reason_text(vram_mb: u32, gpu_name: Seq<char>) -> Seq<char> {
    "Detected "@ + decimal((vram_mb / 1024) as nat) + " GB VRAM on "@ + gpu_name + ". This preset is recommended."@
}

/// The recommendation: the best supported preset for the best counting GPU,
/// if there are both.
pub open spec fn recommendation(ps: Seq<SPreset>, gs: Seq<SGpuInfo>) -> Option<SPresetRecommendation> {
    match best_gpu(gs) {
        None => None,
        Some(g) => match best_preset(ps, vram_of(gs[g])) {
            None => None,
            Some(p) => Some(
                SPresetRecommendation {
                    preset_id: ps[p].id,
                    gpu_name: gs[g].name,
                    detected_vram_mb: vram_of(gs[g]),
                    confidence: gs[g].confidence,
                    reason: reason_text(vram_of(gs[g]), gs[g].name),
                },
            ),
        },
    }
}

fn best_gpu_index(gpus: &Vec<crate::hardware::GpuInfo>) -> (r: Option<usize>)
    ensures
        match r {
            Some(i) => i < gpus.len() && best_gpu(gpus_view(gpus@)) == Some(i as int),
            None => best_gpu(gpus_view(gpus@)) is None,
        },
{
    let ghost gv = gpus_view(gpus@);
    let mut best: Option<usize> = None;
    let mut best_vram: u32 = 0;
    let mut i: usize = 0;
    while i < gpus.len()
        invariant
            i <= gpus.len(),
            gv == gpus_view(gpus@),
            match best {
                None => forall|j: int| 0 <= j < i ==> !counts(#[trigger] gv[j]),
                Some(b) => {
                    &&& b < i
                    &&& counts(gv[b as int])
                    &&& vram_of(gv[b as int]) == best_vram
                    &&& forall|j: int| 0 <= j < i && counts(#[trigger] gv[j]) ==> vram_of(gv[j]) <= best_vram
                    &&& forall|j: int| b < j < i && counts(#[trigger] gv[j]) ==> vram_of(gv[j]) < best_vram
                },
            },
        decreases gpus.len() - i,
    {
        let g = &gpus[i];
        if g.confidence != HardwareConfidence::Low {
            match g.dedicated_vram_mb {
                Some(v) => {
                    if best.is_none() || v >= best_vram {
                        best = Some(i);
                        best_vram = v;
                    }
                },
                None => {},
            }
        }
        assert(gv[i as int] == gpus@[i as int]@);
        i += 1;
    }
    match best {
        None => {
            proof {
                assert forall|j: int| 0 <= j < gv.len() implies !#[trigger] best_gpu_at(gv)(j) by {}
                lemma_last_where_none(gv.len() as int, best_gpu_at(gv));
            }
            None
        },
        Some(b) => {
            proof {
                assert(best_gpu_at(gv)(b as int));
                assert forall|j: int| b < j < gv.len() implies !#[trigger] best_gpu_at(gv)(j) by {
                    if counts(gv[j]) {
                        assert(vram_of(gv[j]) < best_vram);
                        assert(counts(gv[b as int]));
                    }
                }
                lemma_last_where_some(gv.len() as int, best_gpu_at(gv), b as int);
            }
            Some(b)
        },
    }
}

fn best_preset_index(presets: &Vec<Preset>, vram_mb: u32) -> (r: Option<usize>)
    ensures
        match r {
            Some(i) => i < presets.len() && best_preset(presets_view(presets@), vram_mb) == Some(i as int),
            None => best_preset(presets_view(presets@), vram_mb) is None,
        },
{
    let ghost pv = presets_view(presets@);
    let mut best: Option<usize> = None;
    let mut best_gb: u32 = 0;
    let mut i: usize = 0;
    while i < presets.len()
        invariant
            i <= presets.len(),
            pv == presets_view(presets@),
            match best {
                None => forall|j: int| 0 <= j < i ==> !supports(#[trigger] pv[j].vram_gb, vram_mb),
                Some(b) => {
                    &&& b < i
                    &&& supports(pv[b as int].vram_gb, vram_mb)
                    &&& pv[b as int].vram_gb == best_gb
                    &&& forall|j: int| 0 <= j < i && supports(#[trigger] pv[j].vram_gb, vram_mb) ==> pv[j].vram_gb <= best_gb
                    &&& forall|j: int| b < j < i && supports(#[trigger] pv[j].vram_gb, vram_mb) ==> pv[j].vram_gb < best_gb
                },
            },
        decreases presets.len() - i,
    {
        let p = &presets[i];
        assert(pv[i as int] == presets@[i as int]@);
        if preset_is_supported_by_vram(p, vram_mb) {
            if best.is_none() || p.vram_gb >= best_gb {
                best = Some(i);
                best_gb = p.vram_gb;
            }
        }
        i += 1;
    }
    match best {
        None => {
            proof {
                assert forall|j: int| 0 <= j < pv.len() implies !#[trigger] best_preset_at(pv, vram_mb)(j) by {}
                lemma_last_where_none(pv.len() as int, best_preset_at(pv, vram_mb));
            }
            None
        },
        Some(b) => {
            proof {
                assert(best_preset_at(pv, vram_mb)(b as int));
                assert forall|j: int| b < j < pv.len() implies !#[trigger] best_preset_at(pv, vram_mb)(j) by {
                    if supports(pv[j].vram_gb, vram_mb) {
                        assert(pv[j].vram_gb < best_gb);
                        assert(supports(pv[b as int].vram_gb, vram_mb));
                    }
                }
                lemma_last_where_some(pv.len() as int, best_preset_at(pv, vram_mb), b as int);
            }
            Some(b)
        },
    }
}

/// The preset to recommend for the snapshot's hardware, if any.
pub fn recommend_preset_for_hardware(presets: &Vec<Preset>, snapshot: &HardwareSnapshot) -> (r: Option<PresetRecommendation>)
    ensures
        match r {
            Some(rec) => recommendation(presets_view(presets@), gpus_view(snapshot.gpus@)) == Some(rec@),
            None => recommendation(presets_view(presets@), gpus_view(snapshot.gpus@)) is None,
        },
{
    let g = match best_gpu_index(&snapshot.gpus) {
        None => return None,
        Some(g) => g,
    };
    let gpu = &snapshot.gpus[g];
    assert(gpus_view(snapshot.gpus@)[g as int] == gpu@);
    let vram = match gpu.dedicated_vram_mb {
        Some(v) => v,
        None => return None,
    };
    let p = match best_preset_index(presets, vram) {
        None => return None,
        Some(p) => p,
    };
    assert(presets_view(presets@)[p as int] == presets@[p as int]@);
    let mut reason = chars_of("Detected ");
    append_all(&mut reason, &decimal_vec((vram / 1024) as u128));
    append_all(&mut reason, &chars_of(" GB VRAM on "));
    append_all(&mut reason, &crate::text::str_vec(&gpu.name));
    append_all(&mut reason, &chars_of(". This preset is recommended."));
    Some(
        PresetRecommendation {
            preset_id: presets[p].id.clone(),
            gpu_name: gpu.name.clone(),
            detected_vram_mb: vram,
            confidence: gpu.confidence,
            reason: string_of(&reason),
        },
    )
}

// ---------------------------------------------------------------------------
// Why the recommendation is the best one.

proof fn lemma_max_gpu_exists(gs: Seq<SGpuInfo>, n: int)
    requires
        0 <= n <= gs.len(),
        exists|i: int| 0 <= i < n && counts(#[trigger] gs[i]),
    ensures
        exists|m: int|
            0 <= m < n && counts(gs[m]) && forall|j: int| 0 <= j < n && counts(#[trigger] gs[j]) ==> vram_of(gs[j]) <= vram_of(gs[m]),
    decreases n,
{
    if exists|i: int| 0 <= i < n - 1 && counts(#[trigger] gs[i]) {
        lemma_max_gpu_exists(gs, n - 1);
        let m = choose|m: int|
            0 <= m < n - 1 && counts(gs[m]) && forall|j: int| 0 <= j < n - 1 && counts(#[trigger] gs[j]) ==> vram_of(gs[j]) <= vram_of(gs[m]);
        if counts(gs[n - 1]) && vram_of(gs[n - 1]) > vram_of(gs[m]) {
            assert(forall|j: int| 0 <= j < n && counts(#[trigger] gs[j]) ==> vram_of(gs[j]) <= vram_of(gs[n - 1]));
        } else {
            assert(forall|j: int| 0 <= j < n && counts(#[trigger] gs[j]) ==> vram_of(gs[j]) <= vram_of(gs[m]));
        }
    } else {
        assert(counts(gs[n - 1]));
        assert(forall|j: int| 0 <= j < n && counts(#[trigger] gs[j]) ==> vram_of(gs[j]) <= vram_of(gs[n - 1]));
    }
}

proof fn lemma_max_preset_exists(ps: Seq<SPreset>, v: u32, n: int)
    requires
        0 <= n <= ps.len(),
        exists|i: int| 0 <= i < n && supports(#[trigger] ps[i].vram_gb, v),
    ensures
        exists|m: int|
            0 <= m < n && supports(ps[m].vram_gb, v) && forall|j: int|
                0 <= j < n && supports(#[trigger] ps[j].vram_gb, v) ==> ps[j].vram_gb <= ps[m].vram_gb,
    decreases n,
{
    if exists|i: int| 0 <= i < n - 1 && supports(#[trigger] ps[i].vram_gb, v) {
        lemma_max_preset_exists(ps, v, n - 1);
        let m = choose|m: int|
            0 <= m < n - 1 && supports(ps[m].vram_gb, v) && forall|j: int|
                0 <= j < n - 1 && supports(#[trigger] ps[j].vram_gb, v) ==> ps[j].vram_gb <= ps[m].vram_gb;
        if supports(ps[n - 1].vram_gb, v) && ps[n - 1].vram_gb > ps[m].vram_gb {
            assert(forall|j: int| 0 <= j < n && supports(#[trigger] ps[j].vram_gb, v) ==> ps[j].vram_gb <= ps[n - 1].vram_gb);
        } else {
            assert(forall|j: int| 0 <= j < n && supports(#[trigger] ps[j].vram_gb, v) ==> ps[j].vram_gb <= ps[m].vram_gb);
        }
    } else {
        assert(supports(ps[n - 1].vram_gb, v));
        assert(forall|j: int| 0 <= j < n && supports(#[trigger] ps[j].vram_gb, v) ==> ps[j].vram_gb <= ps[n - 1].vram_gb);
    }
}

/// The GPU a recommendation uses is one that counts (not of low confidence,
/// VRAM known) with the most VRAM, and there is one exactly when some GPU
/// counts; the preset is one that VRAM supports with the most VRAM of its
/// own, and there is one exactly when that VRAM supports some preset. So a
/// recommendation never suggests a preset the GPU cannot hold, nor a
/// smaller one than it can.
pub proof fn lemma_recommendation_is_best(ps: Seq<SPreset>, gs: Seq<SGpuInfo>, v: u32)
    ensures
        best_gpu(gs) is None <==> forall|i: int| 0 <= i < gs.len() ==> !counts(#[trigger] gs[i]),
        best_gpu(gs) matches Some(g) ==> 0 <= g < gs.len() && counts(gs[g]) && forall|j: int|
            0 <= j < gs.len() && counts(#[trigger] gs[j]) ==> vram_of(gs[j]) <= vram_of(gs[g]),
        best_preset(ps, v) is None <==> forall|i: int| 0 <= i < ps.len() ==> !supports(#[trigger] ps[i].vram_gb, v),
        best_preset(ps, v) matches Some(p) ==> 0 <= p < ps.len() && supports(ps[p].vram_gb, v) && forall|j: int|
            0 <= j < ps.len() && supports(#[trigger] ps[j].vram_gb, v) ==> ps[j].vram_gb <= ps[p].vram_gb,
{
    crate::seq_util::lemma_last_where_facts(gs.len() as int, best_gpu_at(gs));
    crate::seq_util::lemma_last_where_facts(ps.len() as int, best_preset_at(ps, v));
    if exists|i: int| 0 <= i < gs.len() && counts(#[trigger] gs[i]) {
        lemma_max_gpu_exists(gs, gs.len() as int);
        let m = choose|m: int|
            0 <= m < gs.len() && counts(gs[m]) && forall|j: int|
                0 <= j < gs.len() && counts(#[trigger] gs[j]) ==> vram_of(gs[j]) <= vram_of(gs[m]);
        assert(best_gpu_at(gs)(m));
    }
    if exists|i: int| 0 <= i < ps.len() && supports(#[trigger] ps[i].vram_gb, v) {
        lemma_max_preset_exists(ps, v, ps.len() as int);
        let m = choose|m: int|
            0 <= m < ps.len() && supports(ps[m].vram_gb, v) && forall|j: int|
                0 <= j < ps.len() && supports(#[trigger] ps[j].vram_gb, v) ==> ps[j].vram_gb <= ps[m].vram_gb;
        assert(best_preset_at(ps, v)(m));
    }
}

/// A preset is supported by at least its own size of VRAM: the tolerance
/// only ever lets a GPU hold more, never less.
pub proof fn lemma_own_size_is_supported(preset_vram_gb: u32, detected_vram_mb: u32)
    requires
        detected_vram_mb >= preset_vram_gb * 1024,
    ensures
        supports(preset_vram_gb, detected_vram_mb),
{
    assert(detected_vram_mb * 100 >= preset_vram_gb * 1024 * 95) by (nonlinear_arith)
        requires
            detected_vram_mb >= preset_vram_gb * 1024,
    ;
}


/// What a recommendation is: its GPU is one that counts (not low confidence,
/// VRAM known) with at least as much VRAM as every other counting GPU, and
/// its preset is one that this VRAM supports with the most VRAM among those.
/// There is none exactly when no GPU counts or no preset is supported by the
/// most VRAM a counting GPU has.
pub proof fn lemma_recommendation_facts(ps: Seq<SPreset>, gs: Seq<SGpuInfo>)
    ensures
        match recommendation(ps, gs) {
            Some(r) => {
                &&& exists|g: int|
                    0 <= g < gs.len() && counts(#[trigger] gs[g]) && r.gpu_name == gs[g].name && r.detected_vram_mb
                        == vram_of(gs[g]) && r.confidence == gs[g].confidence
                &&& forall|j: int| 0 <= j < gs.len() && counts(#[trigger] gs[j]) ==> vram_of(gs[j]) <= r.detected_vram_mb
                &&& exists|p: int| 0 <= p < ps.len() && #[trigger] ps[p].id == r.preset_id && supports(ps[p].vram_gb, r.detected_vram_mb)
                    && forall|q: int| 0 <= q < ps.len() && supports(#[trigger] ps[q].vram_gb, r.detected_vram_mb) ==> ps[q].vram_gb
                        <= ps[p].vram_gb
            },
            None => forall|g: int|
                0 <= g < gs.len() && counts(#[trigger] gs[g]) && (forall|j: int|
                    0 <= j < gs.len() && counts(#[trigger] gs[j]) ==> vram_of(gs[j]) <= vram_of(gs[g])) ==> forall|p: int|
                    0 <= p < ps.len() ==> !supports(#[trigger] ps[p].vram_gb, vram_of(gs[g])),
        },
{
    lemma_recommendation_is_best(ps, gs, 0);
    match best_gpu(gs) {
        None => {},
        Some(g) => {
            let v = vram_of(gs[g]);
            lemma_recommendation_is_best(ps, gs, v);
            match best_preset(ps, v) {
                None => {
                    assert forall|g2: int|
                        0 <= g2 < gs.len() && counts(#[trigger] gs[g2]) && (forall|j: int|
                            0 <= j < gs.len() && counts(#[trigger] gs[j]) ==> vram_of(gs[j]) <= vram_of(gs[g2])) implies forall|p: int|
                        0 <= p < ps.len() ==> !supports(#[trigger] ps[p].vram_gb, vram_of(gs[g2])) by {
                        assert(vram_of(gs[g2]) <= v);
                        assert(v <= vram_of(gs[g2]));
                    }
                },
                Some(p) => {
                    let r = recommendation(ps, gs)->Some_0;
                    assert(counts(gs[g]) && r.gpu_name == gs[g].name);
                    assert(ps[p].id == r.preset_id);
                },
            }
        },
    }
}

} // verus!
