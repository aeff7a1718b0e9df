//! The INI texts the optimizer writes: the streaming preset (optionally with
//! a custom pool size) and the opt-in tweak blocks of each managed file.
use vstd::prelude::*;
use crate::installer::{applies_low_fog, InstallOptions};
use crate::seq_util::{
    filter_by, filter_prefix, first_where, last_where, lemma_first_where_none, lemma_first_where_some,
    lemma_last_where_none, lemma_last_where_some,
};
use crate::text::{
    strip_cr, strip_crs, lacks_char, contains_text, ends_with, lemma_join_contains, append_all, chars_of, decimal, decimal_vec, find_char, find_char_vec, join, join_vec,
    lemma_seqs_push, lines, lines_of, seqs, slice_of, starts_with, starts_with_char, starts_with_vec,
    trim, trim_end, trim_end_vec, trim_start, trim_start_vec, trim_vec,
};

verus! {

pub const STREAMING_FIXES_SETTINGS_COMMENT: &'static str = "; Streaming Fixes";

pub const PRESET_COMMENT_PREFIX: &'static str = "; Preset:";

pub const POOL_SIZE_KEY: &'static str = "r.Streaming.PoolSize";

pub const SYSTEM_SETTINGS: &'static str = "SystemSettings";

pub const SYSTEM_SETTINGS_HEADER: &'static str = "[SystemSettings]";

pub const SKIP_INTRO_VIDEOS_GAME_SETTINGS: &'static str = "
; Skip Intro Videos (opt-in)
[/Script/AsyncLoadingScreen.LoadingScreenSettings]
StartupLoadingScreen=(MinimumLoadingScreenDisplayTime=0.000000,bAutoCompleteWhenLoadingCompletes=True,bMoviesAreSkippable=True,bWaitForManualStop=False,bAllowInEarlyStartup=False,bAllowEngineTick=False,PlaybackType=MT_LoadingLoop,MoviePaths=(\"LoopingEngineLoadScreen\"),bShuffle=False,bSetDisplayMovieIndexManually=False,bShowWidgetOverlay=False,bShowLoadingCompleteText=False,bShowLoadingWidget=True,bUseRenderedFrameAsBackground=False,OverrideSyncIntervalForMovies=-1)
";

pub const D3D12_PSO_CACHE_ENGINE_SETTINGS: &'static str = "
; D3D12 PSO Disk Cache (experimental opt-in)
[/Script/D3D12RHI.D3D12Options]
D3D12.PSO.DiskCache=1
D3D12.PSO.DriverOptimizedDiskCache=1
";

pub const RUNTIME_PSO_PRECACHING_ENGINE_SETTINGS: &'static str = "
; Runtime PSO Precaching (experimental opt-in)
[SystemSettings]
r.PSOPrecaching=1
r.AsyncPipelineCompile=1
";

pub const GC_SMOOTHING_ENGINE_SETTINGS: &'static str = "
; GC Smoothing (experimental opt-in)
[SystemSettings]
gc.TimeBetweenPurgingPendingKillObjects=60.0
gc.NumRetriesBeforeForcingGC=5
gc.MinDesiredObjectsPerSubTask=20
gc.AllowParallelGC=1
gc.MultithreadedDestructionEnabled=1
";

pub const DISABLE_VOLUMETRIC_FOG_ENGINE_SETTINGS: &'static str = "
; Disable Volumetric Fog (visual impact opt-in)
[SystemSettings]
r.VolumetricFog=0
";

pub const LOW_VOLUMETRIC_FOG_ENGINE_SETTINGS: &'static str = "
; Low Volumetric Fog (visual impact opt-in)
[SystemSettings]
r.VolumetricFog=1
r.VolumetricFog.GridPixelSize=16
r.VolumetricFog.GridSizeZ=64
r.VolumetricFog.HistoryMissSupersampleCount=4
";

pub const BALANCED_PERFORMANCE_SCALABILITY_SETTINGS: &'static str = "
; Balanced Performance Tweaks (opt-in)
[ShadowQuality@Cine]
r.Shadow.MaxResolution=2048
r.Shadow.MaxCSMResolution=2048
r.Shadow.RadiusThreshold=0.01
r.Shadow.Virtual.MaxPhysicalPages=4096
r.Shadow.Virtual.ResolutionLodBiasDirectional=0
r.Shadow.Virtual.ResolutionLodBiasDirectionalMoving=0
r.Shadow.Virtual.ResolutionLodBiasLocal=1
r.Shadow.Virtual.ResolutionLodBiasLocalMoving=1.0
r.Shadow.Virtual.SMRT.RayCountDirectional=4
r.Shadow.Virtual.SMRT.SamplesPerRayDirectional=4
r.Shadow.Virtual.SMRT.RayCountLocal=8
r.Shadow.Virtual.SMRT.SamplesPerRayLocal=4
r.Shadow.Virtual.Clipmap.WPODisableDistance.LodBias=-1
Gothic.Sky.Light.UpdatePeriod.MinFramesBetween=5

[GlobalIlluminationQuality@Cine]
r.Lumen.TraceMeshSDFs.Allow=1
r.Lumen.ScreenProbeGather.RadianceCache.NumProbesToTraceBudget=300
r.Lumen.ScreenProbeGather.DownsampleFactor=16
r.Lumen.ScreenProbeGather.FullResolutionJitterWidth=1
r.Lumen.TranslucencyVolume.TracingOctahedronResolution=3
r.Lumen.TranslucencyVolume.RadianceCache.ProbeResolution=8
r.Lumen.TranslucencyVolume.RadianceCache.NumProbesToTraceBudget=200

[ReflectionQuality@Cine]
r.SSR.Quality=3
r.Lumen.TranslucencyReflections.FrontLayer.Enable=0

[PostProcessQuality@Cine]
r.DepthOfFieldQuality=2
r.RenderTargetPoolMin=400
r.LensFlareQuality=2
r.Bloom.ScreenPercentage=50.000
r.DOF.Gather.EnableBokehSettings=0
r.DOF.Gather.RingCount=4
r.DOF.Scatter.MaxSpriteRatio=0.1
r.DOF.Recombine.Quality=1
r.DOF.Recombine.EnableBokehSettings=0

[EffectsQuality@Cine]
r.VolumetricFog.GridPixelSize=8
r.VolumetricFog.HistoryMissSupersampleCount=4
r.SSGI.Quality=3
fx.Niagara.QualityLevel=3
r.SkyAtmosphere.AerialPerspectiveLUT.FastApplyOnOpaque=1
r.SkyAtmosphere.AerialPerspectiveLUT.SampleCountMaxPerSlice=4
r.SkyAtmosphere.AerialPerspectiveLUT.DepthResolution=16.0
r.SkyAtmosphere.FastSkyLUT=1
r.SkyAtmosphere.FastSkyLUT.SampleCountMax=128.0
r.SkyAtmosphere.SampleCountMin=4.0
r.SkyAtmosphere.SampleCountMax=128.0
r.SkyAtmosphere.TransmittanceLUT.SampleCount=10.0
r.SkyAtmosphere.MultiScatteringLUT.SampleCount=15.0

[LandscapeQuality@Cine]
r.Nanite.MaxPixelsPerEdge=2
";

pub open spec fn nl() -> Seq<char> {
    seq!['\n']
}

pub open spec fn blank_sep() -> Seq<char> {
    seq!['\n', '\n']
}

fn nl_vec() -> (r: Vec<char>)
    ensures
        r@ == nl(),
{
    let mut r: Vec<char> = Vec::new();
    r.push('\n');
    assert(r@ =~= nl());
    r
}

fn blank_sep_vec() -> (r: Vec<char>)
    ensures
        r@ == blank_sep(),
{
    let mut r: Vec<char> = Vec::new();
    r.push('\n');
    r.push('\n');
    assert(r@ =~= blank_sep());
    r
}

// ---------------------------------------------------------------------------
// Custom pool size.

/// `; Preset: Custom / <pool> MB pool`.
pub open spec fn custom_pool_comment(pool: u32) -> Seq<char> {
    "; Preset: Custom / "@ + decimal(pool as nat) + " MB pool"@
}

/// `r.Streaming.PoolSize=<pool>`.
pub open spec fn pool_line(pool: u32) -> Seq<char> {
    POOL_SIZE_KEY@ + seq!['='] + decimal(pool as nat)
}

/// A non-comment line whose key, before its first `=`, is the streaming pool size.
pub open spec fn is_pool_size_line(line: Seq<char>) -> bool {
    !(starts_with_char(line, ';') || starts_with_char(line, '#')) && match find_char(line, '=') {
        Some(e) => trim(line.take(e)) == POOL_SIZE_KEY@,
        None => false,
    }
}

/// A preset line after the custom pool size is put in: the preset comment
/// and every pool size line are replaced.
pub open spec fn custom_line(line: Seq<char>, pool: u32) -> Seq<char> {
    let t = trim_start(line);
    if starts_with(t, PRESET_COMMENT_PREFIX@) {
        custom_pool_comment(pool)
    } else if is_pool_size_line(t) {
        pool_line(pool)
    } else {
        line
    }
}

pub open spec fn custom_lines(ls: Seq<Seq<char>>, pool: u32) -> Seq<Seq<char>> {
    Seq::new(ls.len(), |i: int| custom_line(ls[i], pool))
}

pub open spec fn has_preset_comment(ls: Seq<Seq<char>>) -> bool {
    exists|i: int| 0 <= i < ls.len() && starts_with(trim_start(#[trigger] ls[i]), PRESET_COMMENT_PREFIX@)
}

/// The line's first non-whitespace character is `[`.
pub open spec fn opens_section(line: Seq<char>) -> bool {
    starts_with_char(trim_start(line), '[')
}

pub open spec fn section_line_at(ls: Seq<Seq<char>>) -> spec_fn(int) -> bool {
    |i: int| opens_section(ls[i])
}

/// The lines of a preset text with custom pool size `p`: its preset
/// comment and pool size lines rewritten, and the custom comment put before
/// the first section when the text had no preset comment.
pub open spec fn custom_pool_lines(content: Seq<char>, p: u32) -> Seq<Seq<char>> {
    let ls = lines(content);
    let mapped = custom_lines(ls, p);
    if has_preset_comment(ls) {
        mapped
    } else {
        let idx = match first_where(mapped.len() as int, section_line_at(mapped)) {
            Some(i) => i,
            None => 0,
        };
        mapped.take(idx).push(custom_pool_comment(p)) + mapped.skip(idx)
    }
}

/// A preset text with a custom pool size: its preset comment and pool size
/// lines rewritten, the custom comment put before the first section when the
/// text had no preset comment, lines joined by `\n`, and a final line feed
/// kept.
pub open spec fn with_custom_pool(content: Seq<char>, pool: Option<u32>) -> Seq<char> {
    match pool {
        None => content,
        Some(p) => {
            let joined = join(custom_pool_lines(content, p), nl());
            if content.len() > 0 && content.last() == '\n' && joined.len() > 0 {
                joined.push('\n')
            } else {
                joined
            }
        },
    }
}

fn custom_pool_comment_vec(pool: u32) -> (r: Vec<char>)
    ensures
        r@ == custom_pool_comment(pool),
{
    let mut r = chars_of("; Preset: Custom / ");
    let d = decimal_vec(pool as u128);
    append_all(&mut r, &d);
    let tail = chars_of(" MB pool");
    append_all(&mut r, &tail);
    r
}

fn pool_line_vec(pool: u32) -> (r: Vec<char>)
    ensures
        r@ == pool_line(pool),
{
    let mut r = chars_of(POOL_SIZE_KEY);
    r.push('=');
    let d = decimal_vec(pool as u128);
    append_all(&mut r, &d);
    assert(r@ =~= pool_line(pool));
    r
}

pub fn is_streaming_pool_size_line(line: &Vec<char>) -> (b: bool)
    ensures
        b == is_pool_size_line(line@),
{
    if line.len() > 0 && (line[0] == ';' || line[0] == '#') {
        return false;
    }
    match find_char_vec(line, '=') {
        Some(e) => {
            let head = slice_of(line, 0, e);
            assert(head@ =~= line@.take(e as int));
            let key = trim_vec(&head);
            crate::ini_doc::vec_eq(&key, &chars_of(POOL_SIZE_KEY))
        },
        None => false,
    }
}

fn custom_line_vec(line: &Vec<char>, pool: u32) -> (r: Vec<char>)
    ensures
        r@ == custom_line(line@, pool),
{
    let t = trim_start_vec(line);
    if starts_with_vec(&t, &chars_of(PRESET_COMMENT_PREFIX)) {
        custom_pool_comment_vec(pool)
    } else if is_streaming_pool_size_line(&t) {
        pool_line_vec(pool)
    } else {
        line.clone()
    }
}

fn opens_section_vec(line: &Vec<char>) -> (b: bool)
    ensures
        b == opens_section(line@),
{
    let t = trim_start_vec(line);
    t.len() > 0 && t[0] == '['
}

/// The first line opening a section, by the predicate `section_line_at`.
fn first_section_line(ls: &Vec<Vec<char>>) -> (r: Option<usize>)
    ensures
        match r {
            Some(i) => first_where(ls@.len() as int, section_line_at(seqs(ls@))) == Some(i as int) && i < ls.len(),
            None => first_where(ls@.len() as int, section_line_at(seqs(ls@))) is None,
        },
{
    let ghost sv = seqs(ls@);
    let mut i: usize = 0;
    while i < ls.len()
        invariant
            i <= ls.len(),
            sv == seqs(ls@),
            forall|j: int| 0 <= j < i ==> !#[trigger] section_line_at(sv)(j),
        decreases ls.len() - i,
    {
        if opens_section_vec(&ls[i]) {
            proof {
                lemma_first_where_some(sv.len() as int, section_line_at(sv), i as int);
            }
            return Some(i);
        }
        i += 1;
    }
    proof {
        lemma_first_where_none(sv.len() as int, section_line_at(sv));
    }
    None
}

/// `ls` with `x` put in before index `idx`.
fn insert_line(ls: &Vec<Vec<char>>, idx: usize, x: Vec<char>) -> (r: Vec<Vec<char>>)
    requires
        idx <= ls.len(),
    ensures
        seqs(r@) == seqs(ls@).take(idx as int).push(x@) + seqs(ls@).skip(idx as int),
{
    let ghost sv = seqs(ls@);
    let mut out: Vec<Vec<char>> = Vec::new();
    let mut i: usize = 0;
    while i < ls.len()
        invariant
            i <= ls.len(),
            idx <= ls.len(),
            sv == seqs(ls@),
            i <= idx ==> seqs(out@) == sv.take(i as int),
            i > idx ==> seqs(out@) == sv.take(idx as int).push(x@) + sv.subrange(idx as int, i as int),
        decreases ls.len() - i,
    {
        if i == idx {
            let c = x.clone();
            proof {
                lemma_seqs_push(out@, c);
            }
            out.push(c);
        }
        let l = ls[i].clone();
        proof {
            lemma_seqs_push(out@, l);
        }
        out.push(l);
        i += 1;
        proof {
            if i <= idx {
                assert(seqs(out@) =~= sv.take(i as int));
            } else {
                assert(seqs(out@) =~= sv.take(idx as int).push(x@) + sv.subrange(idx as int, i as int));
            }
        }
    }
    if idx == ls.len() {
        let c = x.clone();
        proof {
            lemma_seqs_push(out@, c);
        }
        out.push(c);
    }
    proof {
        assert(sv.subrange(idx as int, ls.len() as int) =~= sv.skip(idx as int));
        if idx == ls.len() {
            assert(sv.skip(idx as int) =~= Seq::<Seq<char>>::empty());
            assert(sv.take(idx as int) =~= sv);
        }
        assert(seqs(out@) =~= sv.take(idx as int).push(x@) + sv.skip(idx as int));
    }
    out
}

pub fn streaming_preset_content_with_custom_pool(content: &Vec<char>, pool: Option<u32>) -> (r: Vec<char>)
    ensures
        r@ == with_custom_pool(content@, pool),
{
    let p = match pool {
        None => return content.clone(),
        Some(p) => p,
    };
    let ls = lines_of(content);
    let ghost lv = seqs(ls@);
    let comment = custom_pool_comment_vec(p);
    let mut mapped: Vec<Vec<char>> = Vec::new();
    let mut has = false;
    let mut i: usize = 0;
    while i < ls.len()
        invariant
            i <= ls.len(),
            lv == seqs(ls@),
            mapped.len() == i,
            forall|j: int| 0 <= j < i ==> #[trigger] seqs(mapped@)[j] == custom_line(lv[j], p),
            has == exists|j: int| 0 <= j < i && starts_with(trim_start(#[trigger] lv[j]), PRESET_COMMENT_PREFIX@),
        decreases ls.len() - i,
    {
        let t = trim_start_vec(&ls[i]);
        let sw = starts_with_vec(&t, &chars_of(PRESET_COMMENT_PREFIX));
        assert(sw == starts_with(trim_start(lv[i as int]), PRESET_COMMENT_PREFIX@));
        if sw {
            has = true;
        }
        let m = custom_line_vec(&ls[i], p);
        proof {
            lemma_seqs_push(mapped@, m);
        }
        mapped.push(m);
        i += 1;
    }
    assert(seqs(mapped@) =~= custom_lines(lv, p));
    let ls2 = if has {
        mapped
    } else {
        let idx = match first_section_line(&mapped) {
            Some(i) => i,
            None => 0,
        };
        insert_line(&mapped, idx, comment)
    };
    let mut joined = join_vec(&ls2, &nl_vec());
    if content.len() > 0 && content[content.len() - 1] == '\n' && joined.len() > 0 {
        joined.push('\n');
    }
    joined
}

// ---------------------------------------------------------------------------
// The streaming fixes comment.

/// The preset text with leading whitespace removed and the streaming fixes
/// comment before its first section, unless it is empty or already starts
/// with that comment.
pub open spec fn with_streaming_fixes_comment(content: Seq<char>) -> Seq<char> {
    let c = trim_start(content);
    if c.len() == 0 || starts_with(c, STREAMING_FIXES_SETTINGS_COMMENT@) {
        c
    } else {
        let ls = lines(c);
        match first_where(ls.len() as int, section_line_at(ls)) {
            None => STREAMING_FIXES_SETTINGS_COMMENT@ + nl() + c,
            Some(i) => join(ls.take(i).push(STREAMING_FIXES_SETTINGS_COMMENT@) + ls.skip(i), nl()),
        }
    }
}

pub fn streaming_fixes_ini_content(content: &Vec<char>) -> (r: Vec<char>)
    ensures
        r@ == with_streaming_fixes_comment(content@),
{
    let c = trim_start_vec(content);
    let comment = chars_of(STREAMING_FIXES_SETTINGS_COMMENT);
    if c.len() == 0 || starts_with_vec(&c, &comment) {
        return c;
    }
    let ls = lines_of(&c);
    match first_section_line(&ls) {
        None => {
            let mut r = comment;
            r.push('\n');
            append_all(&mut r, &c);
            assert(r@ =~= STREAMING_FIXES_SETTINGS_COMMENT@ + nl() + c@);
            r
        },
        Some(i) => {
            let with = insert_line(&ls, i, comment);
            join_vec(&with, &nl_vec())
        },
    }
}


// ---------------------------------------------------------------------------
// Opt-in blocks.

pub open spec fn header_like(line: Seq<char>) -> bool {
    starts_with_char(trim(line), '[') && find_char(trim(line), ']') is Some
}

pub open spec fn header_like_at(ls: Seq<Seq<char>>) -> spec_fn(int) -> bool {
    |i: int| header_like(ls[i])
}

/// The name in the last line of `content` that starts with `[` and has a `]`.
pub open spec fn last_section_name(content: Seq<char>) -> Option<Seq<char>> {
    let ls = lines(content);
    match last_where(ls.len() as int, header_like_at(ls)) {
        None => None,
        Some(i) => {
            let t = trim(ls[i]);
            Some(trim(t.subrange(1, find_char(t, ']')->0)))
        },
    }
}

pub open spec fn not_header(ls: Seq<Seq<char>>, header: Seq<char>) -> spec_fn(int) -> bool {
    |i: int| trim(ls[i]) != header
}

/// A settings block without its `header` lines, joined by `\n`.
pub open spec fn without_header(settings: Seq<char>, header: Seq<char>) -> Seq<char> {
    let ls = lines(trim_start(settings));
    join(filter_by(ls, not_header(ls, header)), nl())
}

/// `content` with `settings` added after a blank line; when `content` ends
/// in the `[SystemSettings]` section the block's own header is left out.
pub open spec fn add_engine_block(content: Seq<char>, settings: Seq<char>) -> Seq<char> {
    let c1 = if content.len() == 0 {
        content
    } else {
        content + blank_sep()
    };
    c1 + if last_section_name(c1) == Some(SYSTEM_SETTINGS@) {
        without_header(settings, SYSTEM_SETTINGS_HEADER@)
    } else {
        trim_start(settings)
    }
}

/// `content` with `settings` added after a blank line.
pub open spec fn add_block(content: Seq<char>, settings: Seq<char>) -> Seq<char> {
    (if content.len() == 0 {
        content
    } else {
        content + blank_sep()
    }) + trim_start(settings)
}

/// The Engine.ini text: `content` without trailing whitespace, then the
/// chosen fog, PSO precaching and GC blocks, then the D3D12 PSO cache block.
pub open spec fn engine_with_options(content: Seq<char>, o: InstallOptions) -> Seq<char> {
    let c0 = trim_end(content);
    let c1 = if o.apply_disable_volumetric_fog {
        add_engine_block(c0, DISABLE_VOLUMETRIC_FOG_ENGINE_SETTINGS@)
    } else {
        c0
    };
    let c2 = if applies_low_fog(o) {
        add_engine_block(c1, LOW_VOLUMETRIC_FOG_ENGINE_SETTINGS@)
    } else {
        c1
    };
    let c3 = if o.apply_runtime_pso_precaching {
        add_engine_block(c2, RUNTIME_PSO_PRECACHING_ENGINE_SETTINGS@)
    } else {
        c2
    };
    let c4 = if o.apply_gc_smoothing {
        add_engine_block(c3, GC_SMOOTHING_ENGINE_SETTINGS@)
    } else {
        c3
    };
    if o.apply_d3d12_pso_cache {
        add_block(c4, D3D12_PSO_CACHE_ENGINE_SETTINGS@)
    } else {
        c4
    }
}

/// The Scalability.ini text: `content`, with the balanced performance block
/// added when chosen.
pub open spec fn scalability_with_options(content: Seq<char>, o: InstallOptions) -> Seq<char> {
    if !o.apply_balanced_performance_tweaks {
        content
    } else {
        add_block(trim_end(content), BALANCED_PERFORMANCE_SCALABILITY_SETTINGS@)
    }
}

/// The Game.ini text: the skip-intro block when chosen, else nothing.
pub open spec fn game_with_options(o: InstallOptions) -> Seq<char> {
    if o.apply_skip_intro_videos {
        trim_start(SKIP_INTRO_VIDEOS_GAME_SETTINGS@)
    } else {
        seq![]
    }
}

/// All that the app may write to Engine.ini: the preset and every engine block.
pub open spec fn managed_engine(preset: Seq<char>) -> Seq<char> {
    join(
        seq![
            preset,
            DISABLE_VOLUMETRIC_FOG_ENGINE_SETTINGS@,
            LOW_VOLUMETRIC_FOG_ENGINE_SETTINGS@,
            D3D12_PSO_CACHE_ENGINE_SETTINGS@,
            RUNTIME_PSO_PRECACHING_ENGINE_SETTINGS@,
            GC_SMOOTHING_ENGINE_SETTINGS@,
        ],
        nl(),
    )
}

/// All that the app may write to Scalability.ini.
pub open spec fn managed_scalability(preset: Seq<char>) -> Seq<char> {
    join(seq![preset, BALANCED_PERFORMANCE_SCALABILITY_SETTINGS@], nl())
}

/// All that the app may write to Game.ini.
pub open spec fn managed_game() -> Seq<char> {
    SKIP_INTRO_VIDEOS_GAME_SETTINGS@
}

fn header_like_vec(line: &Vec<char>) -> (r: Option<Vec<char>>)
    ensures
        match r {
            Some(n) => header_like(line@) && n@ == trim(trim(line@).subrange(1, find_char(trim(line@), ']')->0)),
            None => !header_like(line@),
        },
{
    let t = trim_vec(line);
    if !(t.len() > 0 && t[0] == '[') {
        return None;
    }
    match find_char_vec(&t, ']') {
        None => None,
        Some(close) => {
            proof {
                crate::text::lemma_find_char_facts(t@, ']');
            }
            let inner = slice_of(&t, 1, close);
            Some(trim_vec(&inner))
        },
    }
}

fn last_section_name_vec(content: &Vec<char>) -> (r: Option<Vec<char>>)
    ensures
        match r {
            Some(n) => last_section_name(content@) == Some(n@),
            None => last_section_name(content@) is None,
        },
{
    let ls = lines_of(content);
    let ghost lv = seqs(ls@);
    let mut i: usize = ls.len();
    while i > 0
        invariant
            i <= ls.len(),
            lv == seqs(ls@),
            lv == lines(content@),
            forall|j: int| i <= j < ls.len() ==> !#[trigger] header_like_at(lv)(j),
        decreases i,
    {
        match header_like_vec(&ls[i - 1]) {
            Some(n) => {
                proof {
                    lemma_last_where_some(lv.len() as int, header_like_at(lv), i - 1);
                }
                return Some(n);
            },
            None => {},
        }
        i -= 1;
    }
    proof {
        lemma_last_where_none(lv.len() as int, header_like_at(lv));
    }
    None
}

fn settings_without_section_header(settings: &Vec<char>, header: &Vec<char>) -> (r: Vec<char>)
    ensures
        r@ == without_header(settings@, header@),
{
    let t = trim_start_vec(settings);
    let ls = lines_of(&t);
    let ghost lv = seqs(ls@);
    let mut kept: Vec<Vec<char>> = Vec::new();
    let mut i: usize = 0;
    assert(seqs(kept@) =~= Seq::<Seq<char>>::empty());
    while i < ls.len()
        invariant
            i <= ls.len(),
            lv == seqs(ls@),
            seqs(kept@) == filter_prefix(lv, not_header(lv, header@), i as int),
        decreases ls.len() - i,
    {
        let tl = trim_vec(&ls[i]);
        if !crate::ini_doc::vec_eq(&tl, header) {
            let l = ls[i].clone();
            proof {
                lemma_seqs_push(kept@, l);
            }
            kept.push(l);
        }
        i += 1;
    }
    join_vec(&kept, &nl_vec())
}

fn add_engine_block_vec(content: Vec<char>, settings: &Vec<char>) -> (r: Vec<char>)
    ensures
        r@ == add_engine_block(content@, settings@),
{
    let mut c = content;
    if c.len() > 0 {
        append_all(&mut c, &blank_sep_vec());
    }
    let last = last_section_name_vec(&c);
    let is_sys = match &last {
        Some(n) => crate::ini_doc::vec_eq(n, &chars_of(SYSTEM_SETTINGS)),
        None => false,
    };
    let block = if is_sys {
        settings_without_section_header(settings, &chars_of(SYSTEM_SETTINGS_HEADER))
    } else {
        trim_start_vec(settings)
    };
    append_all(&mut c, &block);
    c
}

fn add_block_vec(content: Vec<char>, settings: &Vec<char>) -> (r: Vec<char>)
    ensures
        r@ == add_block(content@, settings@),
{
    let mut c = content;
    if c.len() > 0 {
        append_all(&mut c, &blank_sep_vec());
    }
    append_all(&mut c, &trim_start_vec(settings));
    c
}

pub fn engine_ini_content_with_options(content: &Vec<char>, o: InstallOptions) -> (r: Vec<char>)
    ensures
        r@ == engine_with_options(content@, o),
{
    let mut c = trim_end_vec(content);
    if o.apply_disable_volumetric_fog {
        c = add_engine_block_vec(c, &chars_of(DISABLE_VOLUMETRIC_FOG_ENGINE_SETTINGS));
    }
    if o.applies_low_volumetric_fog() {
        c = add_engine_block_vec(c, &chars_of(LOW_VOLUMETRIC_FOG_ENGINE_SETTINGS));
    }
    if o.apply_runtime_pso_precaching {
        c = add_engine_block_vec(c, &chars_of(RUNTIME_PSO_PRECACHING_ENGINE_SETTINGS));
    }
    if o.apply_gc_smoothing {
        c = add_engine_block_vec(c, &chars_of(GC_SMOOTHING_ENGINE_SETTINGS));
    }
    if o.apply_d3d12_pso_cache {
        c = add_block_vec(c, &chars_of(D3D12_PSO_CACHE_ENGINE_SETTINGS));
    }
    c
}

pub fn scalability_ini_content_with_options(content: &Vec<char>, o: InstallOptions) -> (r: Vec<char>)
    ensures
        r@ == scalability_with_options(content@, o),
{
    if !o.apply_balanced_performance_tweaks {
        return content.clone();
    }
    add_block_vec(trim_end_vec(content), &chars_of(BALANCED_PERFORMANCE_SCALABILITY_SETTINGS))
}

pub fn game_ini_content_with_options(o: InstallOptions) -> (r: Vec<char>)
    ensures
        r@ == game_with_options(o),
{
    if o.apply_skip_intro_videos {
        trim_start_vec(&chars_of(SKIP_INTRO_VIDEOS_GAME_SETTINGS))
    } else {
        let r: Vec<char> = Vec::new();
        assert(r@ =~= Seq::<char>::empty());
        r
    }
}

fn join_lits(parts: Vec<Vec<char>>) -> (r: Vec<char>)
    ensures
        r@ == join(seqs(parts@), nl()),
{
    join_vec(&parts, &nl_vec())
}

pub fn managed_engine_ini_content(preset: &Vec<char>) -> (r: Vec<char>)
    ensures
        r@ == managed_engine(preset@),
{
    let mut parts: Vec<Vec<char>> = Vec::new();
    parts.push(preset.clone());
    parts.push(chars_of(DISABLE_VOLUMETRIC_FOG_ENGINE_SETTINGS));
    parts.push(chars_of(LOW_VOLUMETRIC_FOG_ENGINE_SETTINGS));
    parts.push(chars_of(D3D12_PSO_CACHE_ENGINE_SETTINGS));
    parts.push(chars_of(RUNTIME_PSO_PRECACHING_ENGINE_SETTINGS));
    parts.push(chars_of(GC_SMOOTHING_ENGINE_SETTINGS));
    assert(seqs(parts@) =~= seq![
        preset@,
        DISABLE_VOLUMETRIC_FOG_ENGINE_SETTINGS@,
        LOW_VOLUMETRIC_FOG_ENGINE_SETTINGS@,
        D3D12_PSO_CACHE_ENGINE_SETTINGS@,
        RUNTIME_PSO_PRECACHING_ENGINE_SETTINGS@,
        GC_SMOOTHING_ENGINE_SETTINGS@,
    ]);
    join_lits(parts)
}

pub fn managed_scalability_ini_content(preset: &Vec<char>) -> (r: Vec<char>)
    ensures
        r@ == managed_scalability(preset@),
{
    let mut parts: Vec<Vec<char>> = Vec::new();
    parts.push(preset.clone());
    parts.push(chars_of(BALANCED_PERFORMANCE_SCALABILITY_SETTINGS));
    assert(seqs(parts@) =~= seq![preset@, BALANCED_PERFORMANCE_SCALABILITY_SETTINGS@]);
    join_lits(parts)
}

pub fn managed_game_ini_content() -> (r: Vec<char>)
    ensures
        r@ == managed_game(),
{
    chars_of(SKIP_INTRO_VIDEOS_GAME_SETTINGS)
}


// ---------------------------------------------------------------------------
// The planned files.

/// A config file the optimizer manages.
#[derive(Debug, Clone, Copy, PartialEq, Eq, Structural)]
pub enum ConfigFile {
    Engine,
    Scalability,
    Game,
}

pub open spec fn config_file_name(f: ConfigFile) -> Seq<char> {
    match f {
        ConfigFile::Engine => "Engine.ini"@,
        ConfigFile::Scalability => "Scalability.ini"@,
        ConfigFile::Game => "Game.ini"@,
    }
}

impl ConfigFile {
    pub fn file_name(self) -> (r: &'static str)
        ensures
            r@ == config_file_name(self),
    {
        match self {
            ConfigFile::Engine => "Engine.ini",
            ConfigFile::Scalability => "Scalability.ini",
            ConfigFile::Game => "Game.ini",
        }
    }
}

/// What the app would write to one file, and which options it carries.
pub struct SPlannedFile {
    pub file: ConfigFile,
    pub content: Seq<char>,
    pub managed_content: Seq<char>,
    pub read_only: bool,
    pub applies_balanced_performance_tweaks: bool,
    pub applies_disable_volumetric_fog: bool,
    pub applies_low_volumetric_fog: bool,
    pub applies_d3d12_pso_cache: bool,
    pub applies_runtime_pso_precaching: bool,
    pub applies_gc_smoothing: bool,
    pub skips_intro_videos: bool,
}

pub struct PlannedFile {
    pub file: ConfigFile,
    pub content: Vec<char>,
    pub managed_content: Vec<char>,
    pub read_only: bool,
    pub applies_balanced_performance_tweaks: bool,
    pub applies_disable_volumetric_fog: bool,
    pub applies_low_volumetric_fog: bool,
    pub applies_d3d12_pso_cache: bool,
    pub applies_runtime_pso_precaching: bool,
    pub applies_gc_smoothing: bool,
    pub skips_intro_videos: bool,
}

impl View for PlannedFile {
    type V = SPlannedFile;

    open spec fn view(&self) -> SPlannedFile {
        SPlannedFile {
            file: self.file,
            content: self.content@,
            managed_content: self.managed_content@,
            read_only: self.read_only,
            applies_balanced_performance_tweaks: self.applies_balanced_performance_tweaks,
            applies_disable_volumetric_fog: self.applies_disable_volumetric_fog,
            applies_low_volumetric_fog: self.applies_low_volumetric_fog,
            applies_d3d12_pso_cache: self.applies_d3d12_pso_cache,
            applies_runtime_pso_precaching: self.applies_runtime_pso_precaching,
            applies_gc_smoothing: self.applies_gc_smoothing,
            skips_intro_videos: self.skips_intro_videos,
        }
    }
}

pub open spec fn planned_view(v: Seq<PlannedFile>) -> Seq<SPlannedFile> {
    v.map_values(|f: PlannedFile| f@)
}

/// A preset text as the app writes it: the custom pool size put in, then
/// the streaming fixes comment.
pub open spec fn prepared_preset(content: Seq<char>, o: InstallOptions) -> Seq<char> {
    with_streaming_fixes_comment(with_custom_pool(content, o.custom_pool_mb))
}

pub open spec fn engine_file(engine_preset: Seq<char>, o: InstallOptions) -> SPlannedFile {
    let pe = prepared_preset(engine_preset, o);
    SPlannedFile {
        file: ConfigFile::Engine,
        content: engine_with_options(if o.apply_streaming_fixes { pe } else { seq![] }, o),
        managed_content: managed_engine(pe),
        read_only: o.lock_engine_ini,
        applies_balanced_performance_tweaks: false,
        applies_disable_volumetric_fog: o.apply_disable_volumetric_fog,
        applies_low_volumetric_fog: applies_low_fog(o),
        applies_d3d12_pso_cache: o.apply_d3d12_pso_cache,
        applies_runtime_pso_precaching: o.apply_runtime_pso_precaching,
        applies_gc_smoothing: o.apply_gc_smoothing,
        skips_intro_videos: false,
    }
}

pub open spec fn scalability_file(scalability_preset: Seq<char>, o: InstallOptions) -> SPlannedFile {
    let ps = prepared_preset(scalability_preset, o);
    SPlannedFile {
        file: ConfigFile::Scalability,
        content: scalability_with_options(if o.apply_streaming_fixes { ps } else { seq![] }, o),
        managed_content: managed_scalability(ps),
        read_only: o.lock_scalability_ini,
        applies_balanced_performance_tweaks: o.apply_balanced_performance_tweaks,
        applies_disable_volumetric_fog: false,
        applies_low_volumetric_fog: false,
        applies_d3d12_pso_cache: false,
        applies_runtime_pso_precaching: false,
        applies_gc_smoothing: false,
        skips_intro_videos: false,
    }
}

pub open spec fn game_file(o: InstallOptions) -> SPlannedFile {
    SPlannedFile {
        file: ConfigFile::Game,
        content: game_with_options(o),
        managed_content: managed_game(),
        read_only: o.lock_game_ini,
        applies_balanced_performance_tweaks: false,
        applies_disable_volumetric_fog: false,
        applies_low_volumetric_fog: false,
        applies_d3d12_pso_cache: false,
        applies_runtime_pso_precaching: false,
        applies_gc_smoothing: false,
        skips_intro_videos: o.apply_skip_intro_videos,
    }
}

/// Every managed file, in the order Engine.ini, Scalability.ini, Game.ini.
pub open spec fn managed_files(engine_preset: Seq<char>, scalability_preset: Seq<char>, o: InstallOptions) -> Seq<SPlannedFile> {
    seq![engine_file(engine_preset, o), scalability_file(scalability_preset, o), game_file(o)]
}

pub open spec fn has_content(fs: Seq<SPlannedFile>) -> spec_fn(int) -> bool {
    |i: int| !crate::text::is_blank(fs[i].content)
}

/// The managed files that have something to write.
pub open spec fn planned_files(engine_preset: Seq<char>, scalability_preset: Seq<char>, o: InstallOptions) -> Seq<SPlannedFile> {
    let m = managed_files(engine_preset, scalability_preset, o);
    filter_by(m, has_content(m))
}

/// The file as a one-element list when it has something to write.
pub open spec fn if_content(f: SPlannedFile) -> Seq<SPlannedFile> {
    if crate::text::is_blank(f.content) {
        seq![]
    } else {
        seq![f]
    }
}

/// The planned files are the managed files with something to write, in order.
pub proof fn lemma_planned_files_shape(engine_preset: Seq<char>, scalability_preset: Seq<char>, o: InstallOptions)
    ensures
        ({
            let m = managed_files(engine_preset, scalability_preset, o);
            planned_files(engine_preset, scalability_preset, o) == if_content(m[0]) + if_content(m[1]) + if_content(m[2])
        }),
{
    let m = managed_files(engine_preset, scalability_preset, o);
    let k = has_content(m);
    let f0 = filter_prefix(m, k, 0);
    let f1 = filter_prefix(m, k, 1);
    let f2 = filter_prefix(m, k, 2);
    let f3 = filter_prefix(m, k, 3);
    assert(f0 =~= Seq::<SPlannedFile>::empty());
    assert(f1 =~= if_content(m[0]));
    assert(f2 =~= if_content(m[0]) + if_content(m[1]));
    assert(f3 =~= if_content(m[0]) + if_content(m[1]) + if_content(m[2]));
}

pub fn prepared_preset_vec(content: &Vec<char>, o: InstallOptions) -> (r: Vec<char>)
    ensures
        r@ == prepared_preset(content@, o),
{
    let c = streaming_preset_content_with_custom_pool(content, o.custom_pool_mb);
    streaming_fixes_ini_content(&c)
}

pub fn managed_files_vec(engine_preset: &Vec<char>, scalability_preset: &Vec<char>, o: InstallOptions) -> (r: Vec<PlannedFile>)
    ensures
        planned_view(r@) == managed_files(engine_preset@, scalability_preset@, o),
{
    let pe = prepared_preset_vec(engine_preset, o);
    let engine_base = if o.apply_streaming_fixes {
        pe.clone()
    } else {
        Vec::new()
    };
    assert(!o.apply_streaming_fixes ==> engine_base@ =~= Seq::<char>::empty());
    let engine = PlannedFile {
        file: ConfigFile::Engine,
        content: engine_ini_content_with_options(&engine_base, o),
        managed_content: managed_engine_ini_content(&pe),
        read_only: o.lock_engine_ini,
        applies_balanced_performance_tweaks: false,
        applies_disable_volumetric_fog: o.apply_disable_volumetric_fog,
        applies_low_volumetric_fog: o.applies_low_volumetric_fog(),
        applies_d3d12_pso_cache: o.apply_d3d12_pso_cache,
        applies_runtime_pso_precaching: o.apply_runtime_pso_precaching,
        applies_gc_smoothing: o.apply_gc_smoothing,
        skips_intro_videos: false,
    };
    let ps = prepared_preset_vec(scalability_preset, o);
    let scal_base = if o.apply_streaming_fixes {
        ps.clone()
    } else {
        Vec::new()
    };
    assert(!o.apply_streaming_fixes ==> scal_base@ =~= Seq::<char>::empty());
    let scalability = PlannedFile {
        file: ConfigFile::Scalability,
        content: scalability_ini_content_with_options(&scal_base, o),
        managed_content: managed_scalability_ini_content(&ps),
        read_only: o.lock_scalability_ini,
        applies_balanced_performance_tweaks: o.apply_balanced_performance_tweaks,
        applies_disable_volumetric_fog: false,
        applies_low_volumetric_fog: false,
        applies_d3d12_pso_cache: false,
        applies_runtime_pso_precaching: false,
        applies_gc_smoothing: false,
        skips_intro_videos: false,
    };
    let game = PlannedFile {
        file: ConfigFile::Game,
        content: game_ini_content_with_options(o),
        managed_content: managed_game_ini_content(),
        read_only: o.lock_game_ini,
        applies_balanced_performance_tweaks: false,
        applies_disable_volumetric_fog: false,
        applies_low_volumetric_fog: false,
        applies_d3d12_pso_cache: false,
        applies_runtime_pso_precaching: false,
        applies_gc_smoothing: false,
        skips_intro_videos: o.apply_skip_intro_videos,
    };
    let mut files: Vec<PlannedFile> = Vec::new();
    files.push(engine);
    files.push(scalability);
    files.push(game);
    assert(planned_view(files@) =~= managed_files(engine_preset@, scalability_preset@, o));
    files
}

pub fn clone_planned(f: &PlannedFile) -> (r: PlannedFile)
    ensures
        r@ == f@,
{
    PlannedFile {
        file: f.file,
        content: f.content.clone(),
        managed_content: f.managed_content.clone(),
        read_only: f.read_only,
        applies_balanced_performance_tweaks: f.applies_balanced_performance_tweaks,
        applies_disable_volumetric_fog: f.applies_disable_volumetric_fog,
        applies_low_volumetric_fog: f.applies_low_volumetric_fog,
        applies_d3d12_pso_cache: f.applies_d3d12_pso_cache,
        applies_runtime_pso_precaching: f.applies_runtime_pso_precaching,
        applies_gc_smoothing: f.applies_gc_smoothing,
        skips_intro_videos: f.skips_intro_videos,
    }
}

pub proof fn lemma_planned_view_push(v: Seq<PlannedFile>, x: PlannedFile)
    ensures
        planned_view(v.push(x)) == planned_view(v).push(x@),
{
    assert(planned_view(v.push(x)) =~= planned_view(v).push(x@));
}

pub fn planned_files_vec(engine_preset: &Vec<char>, scalability_preset: &Vec<char>, o: InstallOptions) -> (r: Vec<PlannedFile>)
    ensures
        planned_view(r@) == planned_files(engine_preset@, scalability_preset@, o),
{
    let all = managed_files_vec(engine_preset, scalability_preset, o);
    let ghost m = planned_view(all@);
    let mut out: Vec<PlannedFile> = Vec::new();
    let mut i: usize = 0;
    assert(planned_view(out@) =~= Seq::<SPlannedFile>::empty());
    while i < all.len()
        invariant
            i <= all.len(),
            m == planned_view(all@),
            planned_view(out@) == filter_prefix(m, has_content(m), i as int),
        decreases all.len() - i,
    {
        if !crate::text::is_blank_vec(&all[i].content) {
            let f = clone_planned(&all[i]);
            proof {
                lemma_planned_view_push(out@, f);
            }
            out.push(f);
        }
        i += 1;
    }
    out
}

// ---------------------------------------------------------------------------
// What the texts hold.

pub proof fn lemma_skip_intro_block_not_blank()
    ensures
        trim_start(SKIP_INTRO_VIDEOS_GAME_SETTINGS@).len() > 0,
        !crate::text::is_blank(trim_start(SKIP_INTRO_VIDEOS_GAME_SETTINGS@)),
{
    reveal_strlit("
; Skip Intro Videos (opt-in)
[/Script/AsyncLoadingScreen.LoadingScreenSettings]
StartupLoadingScreen=(MinimumLoadingScreenDisplayTime=0.000000,bAutoCompleteWhenLoadingCompletes=True,bMoviesAreSkippable=True,bWaitForManualStop=False,bAllowInEarlyStartup=False,bAllowEngineTick=False,PlaybackType=MT_LoadingLoop,MoviePaths=(\"LoopingEngineLoadScreen\"),bShuffle=False,bSetDisplayMovieIndexManually=False,bShowWidgetOverlay=False,bShowLoadingCompleteText=False,bShowLoadingWidget=True,bUseRenderedFrameAsBackground=False,OverrideSyncIntervalForMovies=-1)
");
    let t = SKIP_INTRO_VIDEOS_GAME_SETTINGS@;
    assert(t[1] == ';');
    crate::text::lemma_trim_start_at(t, 1);
    crate::text::lemma_non_ws_not_blank(t.skip(1), 0);
}

/// The managed files are Engine.ini, Scalability.ini and Game.ini, in that
/// order, read-only exactly as the three lock options say. All that the app
/// may write to Engine.ini holds each of the five opt-in engine blocks, and
/// to Scalability.ini the balanced performance block. The Game.ini text is
/// empty exactly when intro videos are not skipped.
pub proof fn lemma_managed_files_facts(engine_preset: Seq<char>, scalability_preset: Seq<char>, o: InstallOptions)
    ensures
        ({
            let m = managed_files(engine_preset, scalability_preset, o);
            &&& m.len() == 3
            &&& m[0].file == ConfigFile::Engine && m[1].file == ConfigFile::Scalability && m[2].file == ConfigFile::Game
            &&& m[0].read_only == o.lock_engine_ini && m[1].read_only == o.lock_scalability_ini
                && m[2].read_only == o.lock_game_ini
            &&& contains_text(m[0].managed_content, DISABLE_VOLUMETRIC_FOG_ENGINE_SETTINGS@)
            &&& contains_text(m[0].managed_content, LOW_VOLUMETRIC_FOG_ENGINE_SETTINGS@)
            &&& contains_text(m[0].managed_content, D3D12_PSO_CACHE_ENGINE_SETTINGS@)
            &&& contains_text(m[0].managed_content, RUNTIME_PSO_PRECACHING_ENGINE_SETTINGS@)
            &&& contains_text(m[0].managed_content, GC_SMOOTHING_ENGINE_SETTINGS@)
            &&& contains_text(m[1].managed_content, BALANCED_PERFORMANCE_SCALABILITY_SETTINGS@)
            &&& (m[2].content.len() == 0 <==> !o.apply_skip_intro_videos)
        }),
{
    let pe = prepared_preset(engine_preset, o);
    let ps = prepared_preset(scalability_preset, o);
    let eparts = seq![
        pe,
        DISABLE_VOLUMETRIC_FOG_ENGINE_SETTINGS@,
        LOW_VOLUMETRIC_FOG_ENGINE_SETTINGS@,
        D3D12_PSO_CACHE_ENGINE_SETTINGS@,
        RUNTIME_PSO_PRECACHING_ENGINE_SETTINGS@,
        GC_SMOOTHING_ENGINE_SETTINGS@,
    ];
    lemma_join_contains(eparts, nl(), 1);
    lemma_join_contains(eparts, nl(), 2);
    lemma_join_contains(eparts, nl(), 3);
    lemma_join_contains(eparts, nl(), 4);
    lemma_join_contains(eparts, nl(), 5);
    lemma_join_contains(seq![ps, BALANCED_PERFORMANCE_SCALABILITY_SETTINGS@], nl(), 1);
    lemma_skip_intro_block_not_blank();
}

proof fn lemma_add_engine_block_extends(content: Seq<char>, settings: Seq<char>)
    ensures
        add_engine_block(content, settings).len() >= content.len(),
        add_engine_block(content, settings).take(content.len() as int) == content,
{
    let r = add_engine_block(content, settings);
    assert(r.take(content.len() as int) =~= content);
}

proof fn lemma_add_block_extends(content: Seq<char>, settings: Seq<char>)
    ensures
        add_block(content, settings).len() >= content.len(),
        add_block(content, settings).take(content.len() as int) == content,
        ends_with(add_block(content, settings), trim_start(settings)),
{
    let r = add_block(content, settings);
    assert(r.take(content.len() as int) =~= content);
    assert(r.skip(r.len() - trim_start(settings).len()) =~= trim_start(settings));
}

/// The Engine.ini text starts with the preset text without trailing
/// whitespace, and is exactly that when no engine option is on; with no
/// `[SystemSettings]` option on, nothing but the D3D12 PSO cache block (when
/// chosen) is added; with that option it ends with that block.
pub proof fn lemma_engine_with_options_facts(content: Seq<char>, o: InstallOptions)
    ensures
        engine_with_options(content, o).len() >= trim_end(content).len(),
        engine_with_options(content, o).take(trim_end(content).len() as int) == trim_end(content),
        !(o.apply_disable_volumetric_fog || applies_low_fog(o) || o.apply_runtime_pso_precaching || o.apply_gc_smoothing
            || o.apply_d3d12_pso_cache) ==> engine_with_options(content, o) == trim_end(content),
        !(o.apply_disable_volumetric_fog || applies_low_fog(o) || o.apply_runtime_pso_precaching || o.apply_gc_smoothing)
            ==> engine_with_options(content, o) == if o.apply_d3d12_pso_cache {
            add_block(trim_end(content), D3D12_PSO_CACHE_ENGINE_SETTINGS@)
        } else {
            trim_end(content)
        },
        o.apply_d3d12_pso_cache ==> ends_with(engine_with_options(content, o), trim_start(D3D12_PSO_CACHE_ENGINE_SETTINGS@)),
{
    let c0 = trim_end(content);
    let c1 = if o.apply_disable_volumetric_fog {
        add_engine_block(c0, DISABLE_VOLUMETRIC_FOG_ENGINE_SETTINGS@)
    } else {
        c0
    };
    lemma_add_engine_block_extends(c0, DISABLE_VOLUMETRIC_FOG_ENGINE_SETTINGS@);
    let c2 = if applies_low_fog(o) {
        add_engine_block(c1, LOW_VOLUMETRIC_FOG_ENGINE_SETTINGS@)
    } else {
        c1
    };
    lemma_add_engine_block_extends(c1, LOW_VOLUMETRIC_FOG_ENGINE_SETTINGS@);
    let c3 = if o.apply_runtime_pso_precaching {
        add_engine_block(c2, RUNTIME_PSO_PRECACHING_ENGINE_SETTINGS@)
    } else {
        c2
    };
    lemma_add_engine_block_extends(c2, RUNTIME_PSO_PRECACHING_ENGINE_SETTINGS@);
    let c4 = if o.apply_gc_smoothing {
        add_engine_block(c3, GC_SMOOTHING_ENGINE_SETTINGS@)
    } else {
        c3
    };
    lemma_add_engine_block_extends(c3, GC_SMOOTHING_ENGINE_SETTINGS@);
    lemma_add_block_extends(c4, D3D12_PSO_CACHE_ENGINE_SETTINGS@);
    let r = engine_with_options(content, o);
    assert(c1.take(c0.len() as int) =~= c0);
    assert(c2.take(c0.len() as int) =~= c1.take(c1.len() as int).take(c0.len() as int));
    assert(c2.take(c0.len() as int) =~= c0);
    assert(c3.take(c0.len() as int) =~= c0);
    assert(c4.take(c0.len() as int) =~= c0);
    assert(r.take(c0.len() as int) =~= c0);
}

/// Without a custom pool size the preset text is kept as it is. With pool
/// size `p`, the text is its lines joined by line feeds, with the final
/// line feed kept; every pool size line among them reads
/// `r.Streaming.PoolSize=p`, every preset comment reads
/// `; Preset: Custom / p MB pool`, and there is such a comment: where the
/// text had none, it is put in before the first section.
pub proof fn lemma_custom_pool_facts(content: Seq<char>, pool: Option<u32>)
    ensures
        pool is None ==> with_custom_pool(content, pool) == content,
        pool matches Some(p) ==> {
            let ls = custom_pool_lines(content, p);
            let joined = join(ls, nl());
            &&& with_custom_pool(content, pool) == if content.len() > 0 && content.last() == '\n' && joined.len() > 0 {
                joined.push('\n')
            } else {
                joined
            }
            &&& forall|i: int| 0 <= i < ls.len() && is_pool_size_line(trim_start(#[trigger] ls[i])) ==> ls[i] == pool_line(p)
            &&& forall|i: int|
                0 <= i < ls.len() && starts_with(trim_start(#[trigger] ls[i]), PRESET_COMMENT_PREFIX@) ==> ls[i]
                    == custom_pool_comment(p)
            &&& exists|i: int| 0 <= i < ls.len() && #[trigger] ls[i] == custom_pool_comment(p)
            &&& !has_preset_comment(lines(content)) ==> {
                let mapped = custom_lines(lines(content), p);
                let idx = match first_where(mapped.len() as int, section_line_at(mapped)) {
                    Some(i) => i,
                    None => 0,
                };
                &&& ls[idx] == custom_pool_comment(p)
                &&& forall|j: int| 0 <= j < idx ==> !opens_section(#[trigger] ls[j])
            }
        },
{
    if let Some(p) = pool {
        reveal_strlit("; Preset: Custom / ");
        reveal_strlit("; Preset:");
        reveal_strlit("r.Streaming.PoolSize");
        let c = custom_pool_comment(p);
        let pl = pool_line(p);
        assert(c[0] == ';');
        assert(pl[0] == 'r');
        crate::text::lemma_trim_start_at(c, 0);
        crate::text::lemma_trim_start_at(pl, 0);
        assert(!is_pool_size_line(c));
        assert(!starts_with(pl, PRESET_COMMENT_PREFIX@)) by {
            if starts_with(pl, PRESET_COMMENT_PREFIX@) {
                assert(pl.take(PRESET_COMMENT_PREFIX@.len() as int)[0] == pl[0]);
            }
        }
        assert(starts_with(c, PRESET_COMMENT_PREFIX@)) by {
            assert(c.take(PRESET_COMMENT_PREFIX@.len() as int) =~= PRESET_COMMENT_PREFIX@);
        }
        let ls0 = lines(content);
        let mapped = custom_lines(ls0, p);
        let ls = custom_pool_lines(content, p);
        assert forall|i: int| 0 <= i < mapped.len() implies {
            &&& (is_pool_size_line(trim_start(#[trigger] mapped[i])) ==> mapped[i] == pl)
            &&& (starts_with(trim_start(mapped[i]), PRESET_COMMENT_PREFIX@) ==> mapped[i] == c)
        } by {
            assert(mapped[i] == custom_line(ls0[i], p));
        }
        if has_preset_comment(ls0) {
            let k = choose|k: int| 0 <= k < ls0.len() && starts_with(trim_start(#[trigger] ls0[k]), PRESET_COMMENT_PREFIX@);
            assert(ls[k] == c);
        } else {
            crate::seq_util::lemma_first_where_facts(mapped.len() as int, section_line_at(mapped));
            let idx = match first_where(mapped.len() as int, section_line_at(mapped)) {
                Some(i) => i,
                None => 0,
            };
            assert(ls[idx] == c);
            assert forall|j: int| 0 <= j < idx implies !opens_section(#[trigger] ls[j]) by {
                assert(ls[j] == mapped[j]);
                assert(!section_line_at(mapped)(j));
            }
            assert forall|i: int| 0 <= i < ls.len() implies {
                &&& (is_pool_size_line(trim_start(#[trigger] ls[i])) ==> ls[i] == pl)
                &&& (starts_with(trim_start(ls[i]), PRESET_COMMENT_PREFIX@) ==> ls[i] == c)
            } by {
                if i < idx {
                    assert(ls[i] == mapped[i]);
                } else if i > idx {
                    assert(ls[i] == mapped[i - 1]);
                }
            }
        }
    }
}

/// What the managed files hold does not depend on the lock options.
pub proof fn lemma_contents_ignore_locks(engine_preset: Seq<char>, scalability_preset: Seq<char>, o: InstallOptions, o2: InstallOptions)
    requires
        o2.custom_pool_mb == o.custom_pool_mb,
        o2.apply_streaming_fixes == o.apply_streaming_fixes,
        o2.apply_balanced_performance_tweaks == o.apply_balanced_performance_tweaks,
        o2.apply_disable_volumetric_fog == o.apply_disable_volumetric_fog,
        o2.apply_low_volumetric_fog == o.apply_low_volumetric_fog,
        o2.apply_skip_intro_videos == o.apply_skip_intro_videos,
        o2.apply_d3d12_pso_cache == o.apply_d3d12_pso_cache,
        o2.apply_runtime_pso_precaching == o.apply_runtime_pso_precaching,
        o2.apply_gc_smoothing == o.apply_gc_smoothing,
    ensures
        managed_files(engine_preset, scalability_preset, o)[0].content == managed_files(engine_preset, scalability_preset, o2)[0].content,
        managed_files(engine_preset, scalability_preset, o)[1].content == managed_files(engine_preset, scalability_preset, o2)[1].content,
        managed_files(engine_preset, scalability_preset, o)[2].content == managed_files(engine_preset, scalability_preset, o2)[2].content,
        managed_files(engine_preset, scalability_preset, o)[0].file == managed_files(engine_preset, scalability_preset, o2)[0].file,
        managed_files(engine_preset, scalability_preset, o)[1].file == managed_files(engine_preset, scalability_preset, o2)[1].file,
        managed_files(engine_preset, scalability_preset, o)[2].file == managed_files(engine_preset, scalability_preset, o2)[2].file,
{
    assert(prepared_preset(engine_preset, o) == prepared_preset(engine_preset, o2));
    assert(prepared_preset(scalability_preset, o) == prepared_preset(scalability_preset, o2));
    let pe = prepared_preset(engine_preset, o);
    let x = if o.apply_streaming_fixes { pe } else { seq![] };
    assert(applies_low_fog(o) == applies_low_fog(o2));
    assert(engine_with_options(x, o) == engine_with_options(x, o2));
    assert(game_with_options(o) == game_with_options(o2));
}

proof fn lemma_disable_volumetric_fog_engine_settings_shape()
    ensures
        trim_start(DISABLE_VOLUMETRIC_FOG_ENGINE_SETTINGS@) == "; Disable Volumetric Fog (visual impact opt-in)"@ + seq!['\n'] + SYSTEM_SETTINGS_HEADER@ + seq!['\n'] + "r.VolumetricFog=0\n"@,
        lacks_char("; Disable Volumetric Fog (visual impact opt-in)"@, '\n'),
        lacks_char("; Disable Volumetric Fog (visual impact opt-in)"@, '['),
        lacks_char("r.VolumetricFog=0\n"@, '['),
        "; Disable Volumetric Fog (visual impact opt-in)"@.len() > 0 && "; Disable Volumetric Fog (visual impact opt-in)"@.last() != '\r',
{
    reveal_strlit("
; Disable Volumetric Fog (visual impact opt-in)
[SystemSettings]
r.VolumetricFog=0
");
    reveal_strlit("; Disable Volumetric Fog (visual impact opt-in)");
    reveal_strlit("r.VolumetricFog=0\n");
    reveal_strlit("[SystemSettings]");
    let b = DISABLE_VOLUMETRIC_FOG_ENGINE_SETTINGS@;
    crate::text::lemma_trim_start_at(b, 1);
    assert(b.skip(1) =~= "; Disable Volumetric Fog (visual impact opt-in)"@ + seq!['\n'] + SYSTEM_SETTINGS_HEADER@ + seq!['\n'] + "r.VolumetricFog=0\n"@);
}

proof fn lemma_low_volumetric_fog_engine_settings_shape()
    ensures
        trim_start(LOW_VOLUMETRIC_FOG_ENGINE_SETTINGS@) == "; Low Volumetric Fog (visual impact opt-in)"@ + seq!['\n'] + SYSTEM_SETTINGS_HEADER@ + seq!['\n'] + "r.VolumetricFog=1\nr.VolumetricFog.GridPixelSize=16\nr.VolumetricFog.GridSizeZ=64\nr.VolumetricFog.HistoryMissSupersampleCount=4\n"@,
        lacks_char("; Low Volumetric Fog (visual impact opt-in)"@, '\n'),
        lacks_char("; Low Volumetric Fog (visual impact opt-in)"@, '['),
        lacks_char("r.VolumetricFog=1\nr.VolumetricFog.GridPixelSize=16\nr.VolumetricFog.GridSizeZ=64\nr.VolumetricFog.HistoryMissSupersampleCount=4\n"@, '['),
        "; Low Volumetric Fog (visual impact opt-in)"@.len() > 0 && "; Low Volumetric Fog (visual impact opt-in)"@.last() != '\r',
{
    reveal_strlit("
; Low Volumetric Fog (visual impact opt-in)
[SystemSettings]
r.VolumetricFog=1
r.VolumetricFog.GridPixelSize=16
r.VolumetricFog.GridSizeZ=64
r.VolumetricFog.HistoryMissSupersampleCount=4
");
    reveal_strlit("; Low Volumetric Fog (visual impact opt-in)");
    reveal_strlit("r.VolumetricFog=1\nr.VolumetricFog.GridPixelSize=16\nr.VolumetricFog.GridSizeZ=64\nr.VolumetricFog.HistoryMissSupersampleCount=4\n");
    reveal_strlit("[SystemSettings]");
    let b = LOW_VOLUMETRIC_FOG_ENGINE_SETTINGS@;
    crate::text::lemma_trim_start_at(b, 1);
    assert(b.skip(1) =~= "; Low Volumetric Fog (visual impact opt-in)"@ + seq!['\n'] + SYSTEM_SETTINGS_HEADER@ + seq!['\n'] + "r.VolumetricFog=1\nr.VolumetricFog.GridPixelSize=16\nr.VolumetricFog.GridSizeZ=64\nr.VolumetricFog.HistoryMissSupersampleCount=4\n"@);
}

proof fn lemma_runtime_pso_precaching_engine_settings_shape()
    ensures
        trim_start(RUNTIME_PSO_PRECACHING_ENGINE_SETTINGS@) == "; Runtime PSO Precaching (experimental opt-in)"@ + seq!['\n'] + SYSTEM_SETTINGS_HEADER@ + seq!['\n'] + "r.PSOPrecaching=1\nr.AsyncPipelineCompile=1\n"@,
        lacks_char("; Runtime PSO Precaching (experimental opt-in)"@, '\n'),
        lacks_char("; Runtime PSO Precaching (experimental opt-in)"@, '['),
        lacks_char("r.PSOPrecaching=1\nr.AsyncPipelineCompile=1\n"@, '['),
        "; Runtime PSO Precaching (experimental opt-in)"@.len() > 0 && "; Runtime PSO Precaching (experimental opt-in)"@.last() != '\r',
{
    reveal_strlit("
; Runtime PSO Precaching (experimental opt-in)
[SystemSettings]
r.PSOPrecaching=1
r.AsyncPipelineCompile=1
");
    reveal_strlit("; Runtime PSO Precaching (experimental opt-in)");
    reveal_strlit("r.PSOPrecaching=1\nr.AsyncPipelineCompile=1\n");
    reveal_strlit("[SystemSettings]");
    let b = RUNTIME_PSO_PRECACHING_ENGINE_SETTINGS@;
    crate::text::lemma_trim_start_at(b, 1);
    assert(b.skip(1) =~= "; Runtime PSO Precaching (experimental opt-in)"@ + seq!['\n'] + SYSTEM_SETTINGS_HEADER@ + seq!['\n'] + "r.PSOPrecaching=1\nr.AsyncPipelineCompile=1\n"@);
}

proof fn lemma_gc_smoothing_engine_settings_shape()
    ensures
        trim_start(GC_SMOOTHING_ENGINE_SETTINGS@) == "; GC Smoothing (experimental opt-in)"@ + seq!['\n'] + SYSTEM_SETTINGS_HEADER@ + seq!['\n'] + "gc.TimeBetweenPurgingPendingKillObjects=60.0\ngc.NumRetriesBeforeForcingGC=5\ngc.MinDesiredObjectsPerSubTask=20\ngc.AllowParallelGC=1\ngc.MultithreadedDestructionEnabled=1\n"@,
        lacks_char("; GC Smoothing (experimental opt-in)"@, '\n'),
        lacks_char("; GC Smoothing (experimental opt-in)"@, '['),
        lacks_char("gc.TimeBetweenPurgingPendingKillObjects=60.0\ngc.NumRetriesBeforeForcingGC=5\ngc.MinDesiredObjectsPerSubTask=20\ngc.AllowParallelGC=1\ngc.MultithreadedDestructionEnabled=1\n"@, '['),
        "; GC Smoothing (experimental opt-in)"@.len() > 0 && "; GC Smoothing (experimental opt-in)"@.last() != '\r',
{
    reveal_strlit("
; GC Smoothing (experimental opt-in)
[SystemSettings]
gc.TimeBetweenPurgingPendingKillObjects=60.0
gc.NumRetriesBeforeForcingGC=5
gc.MinDesiredObjectsPerSubTask=20
gc.AllowParallelGC=1
gc.MultithreadedDestructionEnabled=1
");
    reveal_strlit("; GC Smoothing (experimental opt-in)");
    reveal_strlit("gc.TimeBetweenPurgingPendingKillObjects=60.0\ngc.NumRetriesBeforeForcingGC=5\ngc.MinDesiredObjectsPerSubTask=20\ngc.AllowParallelGC=1\ngc.MultithreadedDestructionEnabled=1\n");
    reveal_strlit("[SystemSettings]");
    let b = GC_SMOOTHING_ENGINE_SETTINGS@;
    crate::text::lemma_trim_start_at(b, 1);
    assert(b.skip(1) =~= "; GC Smoothing (experimental opt-in)"@ + seq!['\n'] + SYSTEM_SETTINGS_HEADER@ + seq!['\n'] + "gc.TimeBetweenPurgingPendingKillObjects=60.0\ngc.NumRetriesBeforeForcingGC=5\ngc.MinDesiredObjectsPerSubTask=20\ngc.AllowParallelGC=1\ngc.MultithreadedDestructionEnabled=1\n"@);
}

// ---------------------------------------------------------------------------
// The `[SystemSettings]` header of the engine blocks.

proof fn lemma_lacks_bracket_not_header(line: Seq<char>)
    requires
        lacks_char(line, '['),
    ensures
        !header_like(line),
{
    crate::text::lemma_trim_start_props(line);
    let ts = trim_start(line);
    crate::text::lemma_trim_end_props(ts);
    if trim(line).len() > 0 {
        assert(trim(line)[0] == ts[0]);
        assert(ts[0] == line[line.len() - ts.len()]);
    }
}

proof fn lemma_system_header_facts()
    ensures
        header_like(SYSTEM_SETTINGS_HEADER@),
        trim(SYSTEM_SETTINGS_HEADER@) == SYSTEM_SETTINGS_HEADER@,
        trim(trim(SYSTEM_SETTINGS_HEADER@).subrange(1, find_char(trim(SYSTEM_SETTINGS_HEADER@), ']')->0)) == SYSTEM_SETTINGS@,
        lacks_char(SYSTEM_SETTINGS_HEADER@, '\n'),
        SYSTEM_SETTINGS_HEADER@.last() != '\r',
{
    reveal_strlit("[SystemSettings]");
    reveal_strlit("SystemSettings");
    let h = SYSTEM_SETTINGS_HEADER@;
    crate::text::lemma_trim_start_at(h, 0);
    assert(h.skip(0) =~= h);
    crate::text::lemma_trim_end_at(h, h.len() as int);
    assert(h.take(h.len() as int) =~= h);
    crate::text::lemma_find_char_some(h, ']', 15);
    let n = h.subrange(1, 15);
    assert(n =~= SYSTEM_SETTINGS@);
    crate::text::lemma_trim_start_at(n, 0);
    assert(n.skip(0) =~= n);
    crate::text::lemma_trim_end_at(n, n.len() as int);
    assert(n.take(n.len() as int) =~= n);
}

/// The lines of a block made of a comment line, the header line and the rest.
proof fn lemma_system_block_lines(b: Seq<char>, comment: Seq<char>, rest: Seq<char>)
    requires
        trim_start(b) == comment + seq!['\n'] + SYSTEM_SETTINGS_HEADER@ + seq!['\n'] + rest,
        lacks_char(comment, '\n'),
        comment.len() > 0 && comment.last() != '\r',
    ensures
        lines(trim_start(b)) == seq![comment, SYSTEM_SETTINGS_HEADER@] + lines(rest),
{
    lemma_system_header_facts();
    let h = SYSTEM_SETTINGS_HEADER@;
    let x = comment.push('\n');
    let y = h.push('\n');
    crate::text::lemma_line_state_one_line(comment);
    crate::text::lemma_line_state_one_line(h);
    assert(trim_start(b) =~= x + (y + rest));
    crate::text::lemma_lines_concat(x, y + rest);
    crate::text::lemma_lines_concat(y, rest);
    assert(seq![comment] + (seq![h] + lines(rest)) =~= seq![comment, h] + lines(rest));
}

/// Text that ends a line, then a block with the header: the text ends in
/// the `[SystemSettings]` section.
proof fn lemma_block_with_header_ends_in_section(c: Seq<char>, b: Seq<char>, comment: Seq<char>, rest: Seq<char>)
    requires
        crate::text::line_state(c).1.len() == 0,
        trim_start(b) == comment + seq!['\n'] + SYSTEM_SETTINGS_HEADER@ + seq!['\n'] + rest,
        lacks_char(comment, '\n'),
        lacks_char(comment, '['),
        lacks_char(rest, '['),
        comment.len() > 0 && comment.last() != '\r',
    ensures
        last_section_name(c + trim_start(b)) == Some(SYSTEM_SETTINGS@),
{
    lemma_system_header_facts();
    lemma_system_block_lines(b, comment, rest);
    crate::text::lemma_lines_concat(c, trim_start(b));
    crate::text::lemma_lines_lack(rest, '[');
    let lc = lines(c);
    let ls = lines(c + trim_start(b));
    let k: int = (lc.len() + 1) as int;
    assert(ls =~= lc + (seq![comment, SYSTEM_SETTINGS_HEADER@] + lines(rest)));
    assert(ls[k] == SYSTEM_SETTINGS_HEADER@);
    assert(header_like_at(ls)(k));
    assert forall|j: int| k < j < ls.len() implies !#[trigger] header_like_at(ls)(j) by {
        assert(ls[j] == lines(rest)[j - k - 1]);
        lemma_lacks_bracket_not_header(lines(rest)[j - k - 1]);
    }
    lemma_last_where_some(ls.len() as int, header_like_at(ls), k);
}

/// Text that ends a line and ends in the `[SystemSettings]` section, then a
/// block without its header: the text still ends in that section.
/// A `[SystemSettings]` block with its header left out has no `[` in it.
proof fn lemma_without_header_lacks_bracket(b: Seq<char>, comment: Seq<char>, rest: Seq<char>)
    requires
        trim_start(b) == comment + seq!['\n'] + SYSTEM_SETTINGS_HEADER@ + seq!['\n'] + rest,
        lacks_char(comment, '\n'),
        lacks_char(comment, '['),
        lacks_char(rest, '['),
        comment.len() > 0 && comment.last() != '\r',
    ensures
        lacks_char(without_header(b, SYSTEM_SETTINGS_HEADER@), '['),
        forall|k: int| 0 <= k < lines(without_header(b, SYSTEM_SETTINGS_HEADER@)).len() ==> lacks_char(
            #[trigger] lines(without_header(b, SYSTEM_SETTINGS_HEADER@))[k],
            '[',
        ),
{
    lemma_system_header_facts();
    lemma_system_block_lines(b, comment, rest);
    crate::text::lemma_lines_lack(rest, '[');
    let h = SYSTEM_SETTINGS_HEADER@;
    let bl = lines(trim_start(b));
    let kept = filter_by(bl, not_header(bl, h));
    crate::seq_util::lemma_filter_by_from(bl, not_header(bl, h));
    assert forall|k: int| 0 <= k < kept.len() implies lacks_char(#[trigger] kept[k], '[') by {
        assert(crate::seq_util::kept_from(bl, not_header(bl, h), bl.len() as int, kept[k]));
        let i = choose|i: int| 0 <= i < bl.len() && not_header(bl, h)(i) && bl[i] == kept[k];
        if i >= 2 {
            assert(bl[i] == lines(rest)[i - 2]);
        } else if i == 1 {
            assert(bl[1] == h);
        }
    }
    assert(lacks_char(seq!['\n'], '['));
    crate::text::lemma_join_lacks(kept, nl(), '[');
    crate::text::lemma_lines_lack(without_header(b, h), '[');
}

proof fn lemma_block_without_header_keeps_section(c: Seq<char>, b: Seq<char>, comment: Seq<char>, rest: Seq<char>)
    requires
        crate::text::line_state(c).1.len() == 0,
        last_section_name(c) == Some(SYSTEM_SETTINGS@),
        trim_start(b) == comment + seq!['\n'] + SYSTEM_SETTINGS_HEADER@ + seq!['\n'] + rest,
        lacks_char(comment, '\n'),
        lacks_char(comment, '['),
        lacks_char(rest, '['),
        comment.len() > 0 && comment.last() != '\r',
    ensures
        last_section_name(c + without_header(b, SYSTEM_SETTINGS_HEADER@)) == Some(SYSTEM_SETTINGS@),
{
    lemma_without_header_lacks_bracket(b, comment, rest);
    let h = SYSTEM_SETTINGS_HEADER@;
    let wh = without_header(b, h);
    crate::text::lemma_lines_concat(c, wh);
    let lc = lines(c);
    let ls = lines(c + wh);
    assert(ls =~= lc + lines(wh));
    crate::seq_util::lemma_last_where_facts(lc.len() as int, header_like_at(lc));
    let i = last_where(lc.len() as int, header_like_at(lc))->Some_0;
    assert(ls[i] == lc[i]);
    assert(header_like_at(ls)(i));
    assert forall|j: int| i < j < ls.len() implies !#[trigger] header_like_at(ls)(j) by {
        if j < lc.len() {
            assert(ls[j] == lc[j]);
            assert(!header_like_at(lc)(j));
        } else {
            assert(ls[j] == lines(wh)[j - lc.len()]);
            lemma_lacks_bracket_not_header(lines(wh)[j - lc.len()]);
        }
    }
    lemma_last_where_some(ls.len() as int, header_like_at(ls), i);
}

proof fn lemma_add_engine_block_ends_in_section(c: Seq<char>, b: Seq<char>, comment: Seq<char>, rest: Seq<char>)
    requires
        trim_start(b) == comment + seq!['\n'] + SYSTEM_SETTINGS_HEADER@ + seq!['\n'] + rest,
        lacks_char(comment, '\n'),
        lacks_char(comment, '['),
        lacks_char(rest, '['),
        comment.len() > 0 && comment.last() != '\r',
    ensures
        last_section_name(add_engine_block(c, b)) == Some(SYSTEM_SETTINGS@),
{
    let c1 = if c.len() == 0 {
        c
    } else {
        c + blank_sep()
    };
    if c.len() > 0 {
        assert((c + blank_sep()).drop_last() =~= c + seq!['\n']);
        assert((c + blank_sep()).last() == '\n');
    }
    assert(crate::text::line_state(c1).1.len() == 0);
    if last_section_name(c1) == Some(SYSTEM_SETTINGS@) {
        lemma_block_without_header_keeps_section(c1, b, comment, rest);
    } else {
        lemma_block_with_header_ends_in_section(c1, b, comment, rest);
    }
}

/// Adding any of the four `[SystemSettings]` blocks leaves the Engine.ini
/// text ending in the `[SystemSettings]` section. A block is added with its
/// header only when the text does not already end in that section, so of
/// the chosen blocks only the first can bring the header, and none does
/// when the preset already ends in that section.
pub proof fn lemma_system_blocks_end_in_section(c: Seq<char>)
    ensures
        last_section_name(add_engine_block(c, DISABLE_VOLUMETRIC_FOG_ENGINE_SETTINGS@)) == Some(SYSTEM_SETTINGS@),
        last_section_name(add_engine_block(c, LOW_VOLUMETRIC_FOG_ENGINE_SETTINGS@)) == Some(SYSTEM_SETTINGS@),
        last_section_name(add_engine_block(c, RUNTIME_PSO_PRECACHING_ENGINE_SETTINGS@)) == Some(SYSTEM_SETTINGS@),
        last_section_name(add_engine_block(c, GC_SMOOTHING_ENGINE_SETTINGS@)) == Some(SYSTEM_SETTINGS@),
{
    lemma_disable_volumetric_fog_engine_settings_shape();
    lemma_add_engine_block_ends_in_section(c, DISABLE_VOLUMETRIC_FOG_ENGINE_SETTINGS@, "; Disable Volumetric Fog (visual impact opt-in)"@, "r.VolumetricFog=0\n"@);
    lemma_low_volumetric_fog_engine_settings_shape();
    lemma_add_engine_block_ends_in_section(c, LOW_VOLUMETRIC_FOG_ENGINE_SETTINGS@, "; Low Volumetric Fog (visual impact opt-in)"@, "r.VolumetricFog=1\nr.VolumetricFog.GridPixelSize=16\nr.VolumetricFog.GridSizeZ=64\nr.VolumetricFog.HistoryMissSupersampleCount=4\n"@);
    lemma_runtime_pso_precaching_engine_settings_shape();
    lemma_add_engine_block_ends_in_section(c, RUNTIME_PSO_PRECACHING_ENGINE_SETTINGS@, "; Runtime PSO Precaching (experimental opt-in)"@, "r.PSOPrecaching=1\nr.AsyncPipelineCompile=1\n"@);
    lemma_gc_smoothing_engine_settings_shape();
    lemma_add_engine_block_ends_in_section(c, GC_SMOOTHING_ENGINE_SETTINGS@, "; GC Smoothing (experimental opt-in)"@, "gc.TimeBetweenPurgingPendingKillObjects=60.0\ngc.NumRetriesBeforeForcingGC=5\ngc.MinDesiredObjectsPerSubTask=20\ngc.AllowParallelGC=1\ngc.MultithreadedDestructionEnabled=1\n"@);
}

proof fn lemma_trim_drop_ws(x: Seq<char>)
    requires
        x.len() > 0,
        crate::text::is_ws(x.last()),
    ensures
        trim(x.drop_last()) == trim(x),
{
    crate::text::lemma_trim_start_props(x);
    let a = x.len() - trim_start(x).len();
    let y = x.drop_last();
    if a < x.len() {
        assert(!crate::text::is_ws(x[a]));
        assert(a < y.len());
        assert forall|j: int| 0 <= j < a implies crate::text::is_ws(#[trigger] y[j]) by {
            assert(y[j] == x[j]);
        }
        crate::text::lemma_trim_start_at(y, a);
        assert(trim_start(x).drop_last() =~= y.skip(a));
        assert(trim_start(x).last() == x.last());
    } else {
        assert forall|j: int| 0 <= j < y.len() implies crate::text::is_ws(#[trigger] y[j]) by {
            assert(y[j] == x[j]);
        }
        crate::text::lemma_trim_start_at(y, y.len() as int);
        assert(y.skip(y.len() as int) =~= Seq::<char>::empty());
        assert(trim_start(x) =~= Seq::<char>::empty());
    }
}

/// A blank line after the text leaves its last section as it was.
proof fn lemma_blank_sep_keeps_section(c: Seq<char>)
    ensures
        last_section_name(c + blank_sep()) == last_section_name(c),
        crate::text::line_state(c + blank_sep()).1.len() == 0,
{
    let (d, cur) = crate::text::line_state(c);
    let c1 = c + seq!['\n'];
    let c2 = c + blank_sep();
    assert(c1.drop_last() =~= c);
    assert(c2.drop_last() =~= c1);
    assert(c1.last() == '\n' && c2.last() == '\n');
    let y = crate::text::strip_cr(cur);
    assert(crate::text::line_state(c1) == (d.push(y), Seq::<char>::empty()));
    assert(crate::text::line_state(c2) == (d.push(y).push(crate::text::strip_cr(Seq::<char>::empty())), Seq::<char>::empty()));
    let e = Seq::<char>::empty();
    assert(crate::text::strip_cr(e) == e);
    let l2 = lines(c2);
    let l0 = lines(c);
    assert(l2 == d.push(y).push(e));
    assert(!header_like(e));
    if cur.len() > 0 && cur.last() == '\r' {
        lemma_trim_drop_ws(cur);
    }
    assert(trim(y) == trim(cur));
    crate::seq_util::lemma_last_where_facts(l0.len() as int, header_like_at(l0));
    crate::seq_util::lemma_last_where_facts(l2.len() as int, header_like_at(l2));
    if cur.len() == 0 {
        assert(l0 == d);
        assert(!header_like(y));
        assert forall|j: int| 0 <= j < l2.len() implies #[trigger] header_like_at(l2)(j) == (j < l0.len() && header_like_at(l0)(j)) by {
            if j < d.len() {
                assert(l2[j] == d[j]);
            }
        }
    } else {
        assert(l0 == d.push(cur));
        assert forall|j: int| 0 <= j < l2.len() implies #[trigger] header_like_at(l2)(j) == (j < l0.len() && header_like_at(l0)(j)) by {
            if j < d.len() {
                assert(l2[j] == d[j]);
                assert(l0[j] == d[j]);
            } else if j == d.len() {
                assert(l2[j] == y);
                assert(l0[j] == cur);
            }
        }
    }
    match last_where(l0.len() as int, header_like_at(l0)) {
        Some(i) => {
            assert forall|j: int| i < j < l2.len() implies !#[trigger] header_like_at(l2)(j) by {
                assert(header_like_at(l2)(j) == (j < l0.len() && header_like_at(l0)(j)));
            }
            assert(header_like_at(l2)(i) == (i < l0.len() && header_like_at(l0)(i)));
            lemma_last_where_some(l2.len() as int, header_like_at(l2), i);
            if i < d.len() {
                assert(l2[i] == l0[i]);
            } else {
                assert(l2[i] == y && l0[i] == cur);
            }
        },
        None => {
            assert forall|j: int| 0 <= j < l2.len() implies !#[trigger] header_like_at(l2)(j) by {
                assert(header_like_at(l2)(j) == (j < l0.len() && header_like_at(l0)(j)));
            }
            lemma_last_where_none(l2.len() as int, header_like_at(l2));
        },
    }
}

/// Once one `[SystemSettings]` block is in, a second one is added without
/// its own header: `[SystemSettings]` is written at most once.
pub proof fn lemma_second_system_block_has_no_header(c: Seq<char>, b1: Seq<char>, b2: Seq<char>)
    requires
        b1 == DISABLE_VOLUMETRIC_FOG_ENGINE_SETTINGS@ || b1 == LOW_VOLUMETRIC_FOG_ENGINE_SETTINGS@
            || b1 == RUNTIME_PSO_PRECACHING_ENGINE_SETTINGS@ || b1 == GC_SMOOTHING_ENGINE_SETTINGS@,
    ensures
        add_engine_block(add_engine_block(c, b1), b2) == add_engine_block(c, b1) + blank_sep() + without_header(
            b2,
            SYSTEM_SETTINGS_HEADER@,
        ),
{
    lemma_system_blocks_end_in_section(c);
    let c1 = add_engine_block(c, b1);
    lemma_blank_sep_keeps_section(c1);
    assert(last_section_name(c1) == Some(SYSTEM_SETTINGS@));
    assert(c1.len() > 0) by {
        if c1.len() == 0 {
            assert(lines(c1) =~= Seq::<Seq<char>>::empty());
        }
    }
}


// ---------------------------------------------------------------------------
// How many `[SystemSettings]` header lines the Engine.ini text holds.

/// The lines among `ls` that, trimmed, read `[SystemSettings]`.
pub open spec fn count_header_lines(ls: Seq<Seq<char>>) -> nat
    decreases ls.len(),
{
    if ls.len() == 0 {
        0
    } else {
        count_header_lines(ls.drop_last()) + if trim(ls.last()) == SYSTEM_SETTINGS_HEADER@ {
            1nat
        } else {
            0nat
        }
    }
}

/// How many lines of `x` read `[SystemSettings]`, up to surrounding whitespace.
pub open spec fn system_header_count(x: Seq<char>) -> nat {
    count_header_lines(lines(x))
}

/// One of the options whose block goes into the `[SystemSettings]` section.
pub open spec fn system_options_on(o: InstallOptions) -> bool {
    o.apply_disable_volumetric_fog || o.apply_low_volumetric_fog || o.apply_runtime_pso_precaching || o.apply_gc_smoothing
}

proof fn lemma_count_concat(a: Seq<Seq<char>>, b: Seq<Seq<char>>)
    ensures
        count_header_lines(a + b) == count_header_lines(a) + count_header_lines(b),
    decreases b.len(),
{
    if b.len() == 0 {
        assert(a + b =~= a);
    } else {
        lemma_count_concat(a, b.drop_last());
        assert((a + b).drop_last() =~= a + b.drop_last());
        assert((a + b).last() == b.last());
    }
}

proof fn lemma_count_zero(ls: Seq<Seq<char>>)
    requires
        forall|i: int| 0 <= i < ls.len() ==> trim(#[trigger] ls[i]) != SYSTEM_SETTINGS_HEADER@,
    ensures
        count_header_lines(ls) == 0,
    decreases ls.len(),
{
    if ls.len() > 0 {
        assert forall|i: int| 0 <= i < ls.drop_last().len() implies trim(#[trigger] ls.drop_last()[i]) != SYSTEM_SETTINGS_HEADER@ by {
            assert(ls.drop_last()[i] == ls[i]);
        }
        lemma_count_zero(ls.drop_last());
        assert(trim(ls[ls.len() - 1]) != SYSTEM_SETTINGS_HEADER@);
    }
}

/// A line lacking a character of `[SystemSettings]` does not read as it.
proof fn lemma_lacks_not_system_header(x: Seq<char>, k: int)
    requires
        0 <= k < SYSTEM_SETTINGS_HEADER@.len(),
        lacks_char(x, SYSTEM_SETTINGS_HEADER@[k]),
    ensures
        trim(x) != SYSTEM_SETTINGS_HEADER@,
{
    crate::text::lemma_trim_start_props(x);
    let ts = trim_start(x);
    crate::text::lemma_trim_end_props(ts);
    if trim(x) == SYSTEM_SETTINGS_HEADER@ {
        let a = x.len() - ts.len();
        assert(trim(x)[k] == ts[k]);
        assert(ts[k] == x[a + k]);
    }
}

proof fn lemma_lines_without_char_count(x: Seq<char>, k: int)
    requires
        0 <= k < SYSTEM_SETTINGS_HEADER@.len(),
        lacks_char(x, SYSTEM_SETTINGS_HEADER@[k]),
    ensures
        count_header_lines(lines(x)) == 0,
{
    crate::text::lemma_lines_lack(x, SYSTEM_SETTINGS_HEADER@[k]);
    assert forall|i: int| 0 <= i < lines(x).len() implies trim(#[trigger] lines(x)[i]) != SYSTEM_SETTINGS_HEADER@ by {
        lemma_lacks_not_system_header(lines(x)[i], k);
    }
    lemma_count_zero(lines(x));
}

/// A blank line after the text adds no header line.
proof fn lemma_blank_sep_keeps_count(c: Seq<char>)
    ensures
        system_header_count(c + blank_sep()) == system_header_count(c),
        crate::text::line_state(c + blank_sep()).1.len() == 0,
        lines(c + blank_sep()) == crate::text::line_state(c + blank_sep()).0,
{
    lemma_system_header_facts();
    let (d, cur) = crate::text::line_state(c);
    let c1 = c + seq!['\n'];
    let c2 = c + blank_sep();
    assert(c1.drop_last() =~= c);
    assert(c2.drop_last() =~= c1);
    assert(c1.last() == '\n' && c2.last() == '\n');
    let y = crate::text::strip_cr(cur);
    let e = Seq::<char>::empty();
    assert(crate::text::strip_cr(e) == e);
    assert(crate::text::line_state(c1) == (d.push(y), e));
    assert(crate::text::line_state(c2) == (d.push(y).push(crate::text::strip_cr(e)), e));
    let l2 = lines(c2);
    assert(l2 == d.push(y).push(e));
    assert(l2.drop_last() =~= d.push(y));
    assert(l2.last() == e);
    assert(d.push(y).drop_last() =~= d);
    assert(d.push(y).last() == y);
    assert(trim(e) =~= e) by {
        crate::text::lemma_trim_start_props(e);
        crate::text::lemma_trim_end_props(trim_start(e));
    }
    assert(trim(e) != SYSTEM_SETTINGS_HEADER@);
    if cur.len() > 0 && cur.last() == '\r' {
        lemma_trim_drop_ws(cur);
    }
    assert(trim(y) == trim(cur));
    if cur.len() == 0 {
        assert(lines(c) == d);
        assert(y =~= e);
    } else {
        assert(lines(c) == d.push(cur));
        assert(d.push(cur).drop_last() =~= d);
        assert(d.push(cur).last() == cur);
    }
    assert(count_header_lines(l2) == count_header_lines(d.push(y)));
}

proof fn lemma_engine_prefix_facts(c: Seq<char>)
    ensures
        ({
            let c1 = if c.len() == 0 {
                c
            } else {
                c + blank_sep()
            };
            &&& crate::text::line_state(c1).1.len() == 0
            &&& lines(c1) == crate::text::line_state(c1).0
            &&& last_section_name(c1) == last_section_name(c)
            &&& system_header_count(c1) == system_header_count(c)
        }),
{
    if c.len() > 0 {
        lemma_blank_sep_keeps_section(c);
        lemma_blank_sep_keeps_count(c);
    }
}

proof fn lemma_add_engine_block_count(c: Seq<char>, b: Seq<char>, comment: Seq<char>, rest: Seq<char>)
    requires
        trim_start(b) == comment + seq!['\n'] + SYSTEM_SETTINGS_HEADER@ + seq!['\n'] + rest,
        lacks_char(comment, '\n'),
        lacks_char(comment, '['),
        lacks_char(rest, '['),
        comment.len() > 0 && comment.last() != '\r',
    ensures
        system_header_count(add_engine_block(c, b)) == system_header_count(c) + if last_section_name(c) == Some(SYSTEM_SETTINGS@) {
            0nat
        } else {
            1nat
        },
{
    lemma_system_header_facts();
    reveal_strlit("[SystemSettings]");
    let h = SYSTEM_SETTINGS_HEADER@;
    assert(h[0] == '[');
    let c1 = if c.len() == 0 {
        c
    } else {
        c + blank_sep()
    };
    lemma_engine_prefix_facts(c);
    if last_section_name(c1) == Some(SYSTEM_SETTINGS@) {
        let wh = without_header(b, h);
        lemma_without_header_lacks_bracket(b, comment, rest);
        crate::text::lemma_lines_concat(c1, wh);
        lemma_lines_without_char_count(wh, 0);
        lemma_count_concat(lines(c1), lines(wh));
    } else {
        let tb = trim_start(b);
        lemma_system_block_lines(b, comment, rest);
        crate::text::lemma_lines_concat(c1, tb);
        lemma_lines_without_char_count(rest, 0);
        lemma_lacks_not_system_header(comment, 0);
        let two = seq![comment, h];
        assert(two.drop_last() =~= seq![comment]);
        assert(seq![comment].drop_last() =~= Seq::<Seq<char>>::empty());
        assert(two.last() == h);
        assert(seq![comment].last() == comment);
        assert(count_header_lines(Seq::<Seq<char>>::empty()) == 0);
        assert(trim(comment) != h);
        assert(count_header_lines(seq![comment]) == count_header_lines(seq![comment].drop_last()) + 0nat);
        assert(count_header_lines(seq![comment]) == 0);
        assert(count_header_lines(two) == 1);
        lemma_count_concat(two, lines(rest));
        lemma_count_concat(lines(c1), lines(tb));
    }
}

proof fn lemma_add_d3d12_block_count(c: Seq<char>)
    ensures
        system_header_count(add_block(c, D3D12_PSO_CACHE_ENGINE_SETTINGS@)) == system_header_count(c),
{
    reveal_strlit("
; D3D12 PSO Disk Cache (experimental opt-in)
[/Script/D3D12RHI.D3D12Options]
D3D12.PSO.DiskCache=1
D3D12.PSO.DriverOptimizedDiskCache=1
");
    reveal_strlit("[SystemSettings]");
    let b = D3D12_PSO_CACHE_ENGINE_SETTINGS@;
    let h = SYSTEM_SETTINGS_HEADER@;
    assert(h[2] == 'y');
    assert(lacks_char(b, 'y'));
    crate::text::lemma_trim_start_at(b, 1);
    let tb = trim_start(b);
    assert(lacks_char(tb, 'y')) by {
        assert forall|i: int| 0 <= i < tb.len() implies #[trigger] tb[i] != 'y' by {
            assert(tb[i] == b[i + 1]);
        }
    }
    let c1 = if c.len() == 0 {
        c
    } else {
        c + blank_sep()
    };
    lemma_engine_prefix_facts(c);
    crate::text::lemma_lines_concat(c1, tb);
    lemma_lines_without_char_count(tb, 2);
    lemma_count_concat(lines(c1), lines(tb));
}

/// The number of `[SystemSettings]` header lines in the Engine.ini text: one
/// more than in the trimmed preset exactly when an option whose block goes in
/// that section is on and the preset does not already end in that section;
/// otherwise as many.
pub proof fn lemma_engine_header_count(content: Seq<char>, o: InstallOptions)
    ensures
        system_header_count(engine_with_options(content, o)) == system_header_count(trim_end(content)) + if system_options_on(o)
            && last_section_name(trim_end(content)) != Some(SYSTEM_SETTINGS@) {
            1nat
        } else {
            0nat
        },
{
    let c0 = trim_end(content);
    let ss = Some(SYSTEM_SETTINGS@);
    let c1 = if o.apply_disable_volumetric_fog {
        add_engine_block(c0, DISABLE_VOLUMETRIC_FOG_ENGINE_SETTINGS@)
    } else {
        c0
    };
    let c2 = if applies_low_fog(o) {
        add_engine_block(c1, LOW_VOLUMETRIC_FOG_ENGINE_SETTINGS@)
    } else {
        c1
    };
    let c3 = if o.apply_runtime_pso_precaching {
        add_engine_block(c2, RUNTIME_PSO_PRECACHING_ENGINE_SETTINGS@)
    } else {
        c2
    };
    let c4 = if o.apply_gc_smoothing {
        add_engine_block(c3, GC_SMOOTHING_ENGINE_SETTINGS@)
    } else {
        c3
    };
    lemma_system_blocks_end_in_section(c0);
    lemma_system_blocks_end_in_section(c1);
    lemma_system_blocks_end_in_section(c2);
    lemma_system_blocks_end_in_section(c3);
    lemma_system_blocks_count(c0);
    lemma_system_blocks_count(c1);
    lemma_system_blocks_count(c2);
    lemma_system_blocks_count(c3);
    lemma_add_d3d12_block_count(c4);
    let any1 = o.apply_disable_volumetric_fog;
    let any2 = any1 || applies_low_fog(o);
    let any3 = any2 || o.apply_runtime_pso_precaching;
    let any4 = any3 || o.apply_gc_smoothing;
    assert(any1 ==> last_section_name(c1) == ss);
    assert(any2 ==> last_section_name(c2) == ss);
    assert(any3 ==> last_section_name(c3) == ss);
    assert(any4 == system_options_on(o));
    let base = system_header_count(c0);
    let add: nat = if last_section_name(c0) == ss { 0 } else { 1 };
    assert(system_header_count(c1) == base + if any1 { add } else { 0 });
    assert(!any1 ==> last_section_name(c1) == last_section_name(c0));
    assert(system_header_count(c2) == base + if any2 { add } else { 0 });
    assert(!any2 ==> last_section_name(c2) == last_section_name(c0));
    assert(system_header_count(c3) == base + if any3 { add } else { 0 });
    assert(!any3 ==> last_section_name(c3) == last_section_name(c0));
    assert(system_header_count(c4) == base + if any4 { add } else { 0 });
}

/// Adding each of the four `[SystemSettings]` blocks: the count of header
/// lines grows by one exactly when the text did not end in that section.
proof fn lemma_system_blocks_count(c: Seq<char>)
    ensures
        system_header_count(add_engine_block(c, DISABLE_VOLUMETRIC_FOG_ENGINE_SETTINGS@)) == system_header_count(c) + if last_section_name(c) == Some(SYSTEM_SETTINGS@) { 0nat } else { 1nat },
        system_header_count(add_engine_block(c, LOW_VOLUMETRIC_FOG_ENGINE_SETTINGS@)) == system_header_count(c) + if last_section_name(c) == Some(SYSTEM_SETTINGS@) { 0nat } else { 1nat },
        system_header_count(add_engine_block(c, RUNTIME_PSO_PRECACHING_ENGINE_SETTINGS@)) == system_header_count(c) + if last_section_name(c) == Some(SYSTEM_SETTINGS@) { 0nat } else { 1nat },
        system_header_count(add_engine_block(c, GC_SMOOTHING_ENGINE_SETTINGS@)) == system_header_count(c) + if last_section_name(c) == Some(SYSTEM_SETTINGS@) { 0nat } else { 1nat },
{
    lemma_disable_volumetric_fog_engine_settings_shape();
    lemma_add_engine_block_count(c, DISABLE_VOLUMETRIC_FOG_ENGINE_SETTINGS@, "; Disable Volumetric Fog (visual impact opt-in)"@, "r.VolumetricFog=0\n"@);
    lemma_low_volumetric_fog_engine_settings_shape();
    lemma_add_engine_block_count(c, LOW_VOLUMETRIC_FOG_ENGINE_SETTINGS@, "; Low Volumetric Fog (visual impact opt-in)"@, "r.VolumetricFog=1\nr.VolumetricFog.GridPixelSize=16\nr.VolumetricFog.GridSizeZ=64\nr.VolumetricFog.HistoryMissSupersampleCount=4\n"@);
    lemma_runtime_pso_precaching_engine_settings_shape();
    lemma_add_engine_block_count(c, RUNTIME_PSO_PRECACHING_ENGINE_SETTINGS@, "; Runtime PSO Precaching (experimental opt-in)"@, "r.PSOPrecaching=1\nr.AsyncPipelineCompile=1\n"@);
    lemma_gc_smoothing_engine_settings_shape();
    lemma_add_engine_block_count(c, GC_SMOOTHING_ENGINE_SETTINGS@, "; GC Smoothing (experimental opt-in)"@, "gc.TimeBetweenPurgingPendingKillObjects=60.0\ngc.NumRetriesBeforeForcingGC=5\ngc.MinDesiredObjectsPerSubTask=20\ngc.AllowParallelGC=1\ngc.MultithreadedDestructionEnabled=1\n"@);
}


/// The line ends in a carriage return.
pub open spec fn ends_cr(x: Seq<char>) -> bool {
    x.len() > 0 && x.last() == '\r'
}

/// The text ends in a line feed.
pub open spec fn ends_nl(x: Seq<char>) -> bool {
    x.len() > 0 && x.last() == '\n'
}

proof fn lemma_custom_pool_lines_shape(content: Seq<char>, p: u32)
    ensures
        ({
            let ls = custom_pool_lines(content, p);
            &&& ls.len() > 0
            &&& forall|k: int| 0 <= k < ls.len() ==> lacks_char(#[trigger] ls[k], '\n')
            &&& contains_text(join(ls, nl()), custom_pool_comment(p))
            &&& !ends_nl(content) ==> ls.last().len() > 0
        }),
{
    reveal_strlit("; Preset: Custom / ");
    reveal_strlit(" MB pool");
    reveal_strlit("r.Streaming.PoolSize");
    crate::text::lemma_decimal_lacks_newline(p as nat);
    let c = custom_pool_comment(p);
    let pl = pool_line(p);
    assert(lacks_char(c, '\n')) by {
        let d = decimal(p as nat);
        assert forall|i: int| 0 <= i < c.len() implies #[trigger] c[i] != '\n' by {
            if 19 <= i < 19 + d.len() {
                assert(c[i] == d[i - 19]);
            }
        }
    }
    assert(lacks_char(pl, '\n')) by {
        let d = decimal(p as nat);
        assert forall|i: int| 0 <= i < pl.len() implies #[trigger] pl[i] != '\n' by {
            if 21 <= i {
                assert(pl[i] == d[i - 21]);
            }
        }
    }
    let ls0 = lines(content);
    crate::text::lemma_lines_lack_newline(content);
    let mapped = custom_lines(ls0, p);
    assert forall|k: int| 0 <= k < mapped.len() implies lacks_char(#[trigger] mapped[k], '\n') by {
        assert(mapped[k] == custom_line(ls0[k], p));
        assert(lacks_char(ls0[k], '\n'));
    }
    let ls = custom_pool_lines(content, p);
    lemma_custom_pool_facts(content, Some(p));
    let w = choose|i: int| 0 <= i < ls.len() && #[trigger] ls[i] == c;
    crate::text::lemma_join_contains(ls, nl(), w);
    if has_preset_comment(ls0) {
        assert(ls == mapped);
    } else {
        crate::seq_util::lemma_first_where_facts(mapped.len() as int, section_line_at(mapped));
        let idx = match first_where(mapped.len() as int, section_line_at(mapped)) {
            Some(i) => i,
            None => 0,
        };
        assert forall|k: int| 0 <= k < ls.len() implies lacks_char(#[trigger] ls[k], '\n') by {
            if k < idx {
                assert(ls[k] == mapped[k]);
            } else if k > idx {
                assert(ls[k] == mapped[k - 1]);
            }
        }
        if mapped.len() > 0 {
            assert(ls.last() == mapped.last());
        }
    }
    if !ends_nl(content) && content.len() > 0 {
        crate::text::lemma_open_last_line(content);
        let cur = ls0.last();
        assert(mapped.last() == custom_line(cur, p));
        assert(mapped.last().len() > 0) by {
            assert(c.len() > 0 && pl.len() > 0);
        }
    }
    if content.len() == 0 {
        assert(ls0.len() == 0);
    }
}

/// The text with a custom pool size: its own lines are exactly
/// `custom_pool_lines`, where none of the lines that end in a line feed ends
/// in a carriage return (a line feed takes one carriage return off when the
/// text is read again), and it ends in a line feed exactly when the preset
/// text did.
pub proof fn lemma_custom_pool_text(content: Seq<char>, p: u32)
    ensures
        ends_nl(with_custom_pool(content, Some(p))) == ends_nl(content),
        (forall|i: int|
            0 <= i < custom_pool_lines(content, p).len() && (i < custom_pool_lines(content, p).len() - 1 || ends_nl(content))
                ==> !ends_cr(#[trigger] custom_pool_lines(content, p)[i])) ==> lines(with_custom_pool(content, Some(p)))
            == custom_pool_lines(content, p),
{
    let ls = custom_pool_lines(content, p);
    lemma_custom_pool_lines_shape(content, p);
    let j = join(ls, nl());
    assert(nl() == seq!['\n']);
    crate::text::lemma_line_state_join(ls);
    let r = with_custom_pool(content, Some(p));
    assert(j.len() > 0) by {
        let i = choose|i: int|
            0 <= i && i + custom_pool_comment(p).len() <= j.len() && #[trigger] j.subrange(i, i + custom_pool_comment(p).len())
                == custom_pool_comment(p);
        reveal_strlit("; Preset: Custom / ");
        assert(custom_pool_comment(p).len() > 0);
    }
    let init = ls.drop_last();
    let last = ls.last();
    if ends_nl(content) {
        assert(r == j.push('\n'));
        assert(r.drop_last() =~= j);
        assert(crate::text::line_state(r) == (strip_crs(init).push(strip_cr(last)), Seq::<char>::empty()));
        if forall|i: int| 0 <= i < ls.len() && (i < ls.len() - 1 || ends_nl(content)) ==> !ends_cr(#[trigger] ls[i]) {
            assert(strip_crs(init).push(strip_cr(last)) =~= ls) by {
                assert forall|i: int| 0 <= i < ls.len() implies #[trigger] strip_crs(init).push(strip_cr(last))[i] == ls[i] by {
                    assert(!ends_cr(ls[i]));
                    if i < init.len() {
                        assert(init[i] == ls[i]);
                    }
                }
            }
        }
    } else {
        assert(r == j);
        assert(lacks_char(ls[ls.len() - 1], '\n'));
        if ls.len() == 1 {
            assert(j == ls[0]);
        } else {
            assert(j == join(init, nl()) + nl() + last);
        }
        assert(j.last() == last.last());
        if forall|i: int| 0 <= i < ls.len() && (i < ls.len() - 1 || ends_nl(content)) ==> !ends_cr(#[trigger] ls[i]) {
            assert(strip_crs(init).push(last) =~= ls) by {
                assert forall|i: int| 0 <= i < ls.len() implies #[trigger] strip_crs(init).push(last)[i] == ls[i] by {
                    if i < init.len() {
                        assert(!ends_cr(ls[i]));
                        assert(init[i] == ls[i]);
                    }
                }
            }
        }
    }
}


/// The Scalability.ini text: the input as it is when balanced tweaks are
/// off; with them on, the input without trailing whitespace comes first and
/// the balanced performance block last.
pub proof fn lemma_scalability_text_facts(content: Seq<char>, o: InstallOptions)
    ensures
        !o.apply_balanced_performance_tweaks ==> scalability_with_options(content, o) == content,
        o.apply_balanced_performance_tweaks ==> {
            let r = scalability_with_options(content, o);
            &&& r.len() >= trim_end(content).len()
            &&& r.take(trim_end(content).len() as int) == trim_end(content)
            &&& ends_with(r, trim_start(BALANCED_PERFORMANCE_SCALABILITY_SETTINGS@))
        },
{
    lemma_add_block_extends(trim_end(content), BALANCED_PERFORMANCE_SCALABILITY_SETTINGS@);
}

/// With streaming fixes on, the Engine.ini and Scalability.ini texts to
/// write start with the prepared preset texts (up to trailing whitespace);
/// with them off, neither holds anything of the preset: Scalability.ini is
/// empty or, with balanced tweaks, just that block.
pub proof fn lemma_planned_texts_hold_presets(engine_preset: Seq<char>, scalability_preset: Seq<char>, o: InstallOptions)
    ensures
        ({
            let m = managed_files(engine_preset, scalability_preset, o);
            let pe = trim_end(prepared_preset(engine_preset, o));
            let ps = trim_end(prepared_preset(scalability_preset, o));
            &&& o.apply_streaming_fixes ==> m[0].content.len() >= pe.len() && m[0].content.take(pe.len() as int) == pe
            &&& o.apply_streaming_fixes ==> m[1].content.len() >= ps.len() && m[1].content.take(ps.len() as int) == ps
            &&& !o.apply_streaming_fixes ==> m[1].content == if o.apply_balanced_performance_tweaks {
                trim_start(BALANCED_PERFORMANCE_SCALABILITY_SETTINGS@)
            } else {
                Seq::<char>::empty()
            }
        }),
{
    let pe0 = prepared_preset(engine_preset, o);
    let ps0 = prepared_preset(scalability_preset, o);
    let m = managed_files(engine_preset, scalability_preset, o);
    if o.apply_streaming_fixes {
        lemma_engine_with_options_facts(pe0, o);
        lemma_scalability_text_facts(ps0, o);
        crate::text::lemma_trim_end_props(ps0);
    } else {
        let e = Seq::<char>::empty();
        assert(trim_end(e) == e);
        assert(e + trim_start(BALANCED_PERFORMANCE_SCALABILITY_SETTINGS@) =~= trim_start(BALANCED_PERFORMANCE_SCALABILITY_SETTINGS@));
    }
}

} // verus!
