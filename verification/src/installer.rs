//! Planning what an install, preview, reset or restore does to the managed
//! INI files of a config folder.
use vstd::prelude::*;
use crate::content::{
    config_file_name, if_content, managed_files, managed_files_vec, planned_files, planned_files_vec, planned_view,
    lemma_planned_view_push, clone_planned, ConfigFile, PlannedFile, SPlannedFile, POOL_SIZE_KEY,
};
use crate::ini_merge::{has_external_settings, has_external_settings_vec, has_managed_settings, has_managed_settings_vec, merge_ini, merge_ini_vec};
use crate::manifest::{classify, classify_modification_state, text_le, text_le_exec, FileModificationState, InstallManifest, SManifest};
use crate::presets::{unknown_preset_message, Preset, SPreset};
use crate::seq_util::{first_where, lemma_first_where_facts, lemma_first_where_none, lemma_first_where_some};
use crate::text::{
    append_all, chars_of, decimal, decimal_vec, find_char, find_char_vec, lines, lines_of, owned,
    parse_unsigned, parse_unsigned_vec, seqs, slice_of, starts_with_char, str_vec, string_of, trim,
    trim_vec,
};
use crate::{CoreError, CoreResult};

verus! {

pub const MIN_CUSTOM_POOL_MB: u32 = 512;

pub const MAX_CUSTOM_POOL_MB: u32 = 65_536;

/// What the user picked for an install.
#[derive(Debug, Clone, Copy, PartialEq, Eq)]
pub struct InstallOptions {
    pub lock_engine_ini: bool,
    pub lock_game_ini: bool,
    pub lock_scalability_ini: bool,
    pub custom_pool_mb: Option<u32>,
    pub apply_streaming_fixes: bool,
    pub apply_balanced_performance_tweaks: bool,
    pub apply_disable_volumetric_fog: bool,
    pub apply_low_volumetric_fog: bool,
    pub apply_skip_intro_videos: bool,
    pub apply_d3d12_pso_cache: bool,
    pub apply_runtime_pso_precaching: bool,
    pub apply_gc_smoothing: bool,
}

/// Replace the managed files, or merge into what is there.
#[derive(Debug, Clone, Copy, PartialEq, Eq)]
pub enum InstallStrategy {
    Replace,
    Merge,
}

/// Low volumetric fog only applies when fog is not disabled outright.
pub open spec fn applies_low_fog(o: InstallOptions) -> bool {
    o.apply_low_volumetric_fog && !o.apply_disable_volumetric_fog
}

/// A custom pool size, if given, lies in the supported range.
pub open spec fn options_valid(o: InstallOptions) -> bool {
    match o.custom_pool_mb {
        Some(p) => MIN_CUSTOM_POOL_MB <= p <= MAX_CUSTOM_POOL_MB,
        None => true,
    }
}

pub open spec fn pool_range_message() -> Seq<char> {
    "custom pool size must be between 512 and 65536 MB"@
}

impl InstallOptions {
    pub fn applies_low_volumetric_fog(self) -> (b: bool)
        ensures
            b == applies_low_fog(self),
    {
        self.apply_low_volumetric_fog && !self.apply_disable_volumetric_fog
    }

    pub fn validate(self) -> (r: Result<(), CoreError>)
        ensures
            r is Ok <==> options_valid(self),
            r matches Err(e) ==> e.message@ == pool_range_message(),
    {
        if let Some(pool_mb) = self.custom_pool_mb {
            if !(MIN_CUSTOM_POOL_MB <= pool_mb && pool_mb <= MAX_CUSTOM_POOL_MB) {
                let m = crate::text::chars_of("custom pool size must be between 512 and 65536 MB");
                return Err(CoreError::new(crate::text::string_of(&m)));
            }
        }
        Ok(())
    }
}


// ---------------------------------------------------------------------------
// The streaming pool size in a text.

/// The pool size a line sets: a non-comment `r.Streaming.PoolSize=<u32>` line.
pub open spec fn pool_value(line: Seq<char>) -> Option<u32> {
    let t = trim(line);
    if starts_with_char(t, ';') || starts_with_char(t, '#') {
        None
    } else {
        match find_char(t, '=') {
            None => None,
            Some(e) => if trim(t.take(e)) != POOL_SIZE_KEY@ {
                None
            } else {
                match parse_unsigned(trim(t.skip(e + 1)), 0xffff_ffff) {
                    Some(v) => Some(v as u32),
                    None => None,
                }
            },
        }
    }
}

pub open spec fn sets_pool(ls: Seq<Seq<char>>) -> spec_fn(int) -> bool {
    |i: int| pool_value(ls[i]) is Some
}

/// The pool size that the first line setting one sets.
pub open spec fn first_pool_size(content: Seq<char>) -> Option<u32> {
    let ls = lines(content);
    match first_where(ls.len() as int, sets_pool(ls)) {
        Some(i) => pool_value(ls[i]),
        None => None,
    }
}

fn pool_value_vec(line: &Vec<char>) -> (r: Option<u32>)
    ensures
        r == pool_value(line@),
{
    let t = trim_vec(line);
    if t.len() > 0 && (t[0] == ';' || t[0] == '#') {
        return None;
    }
    let e = match find_char_vec(&t, '=') {
        None => return None,
        Some(e) => e,
    };
    let head = slice_of(&t, 0, e);
    assert(head@ =~= t@.take(e as int));
    let key = trim_vec(&head);
    if !crate::ini_doc::vec_eq(&key, &chars_of(POOL_SIZE_KEY)) {
        return None;
    }
    let tail = slice_of(&t, e + 1, t.len());
    assert(tail@ =~= t@.skip(e + 1));
    let value = trim_vec(&tail);
    match parse_unsigned_vec(&value, 0xffff_ffff) {
        Some(v) => Some(v as u32),
        None => None,
    }
}

pub fn extract_pool_size(content: &Vec<char>) -> (r: Option<u32>)
    ensures
        r == first_pool_size(content@),
{
    let ls = lines_of(content);
    let ghost lv = seqs(ls@);
    let mut i: usize = 0;
    while i < ls.len()
        invariant
            i <= ls.len(),
            lv == seqs(ls@),
            lv == lines(content@),
            forall|j: int| 0 <= j < i ==> !#[trigger] sets_pool(lv)(j),
        decreases ls.len() - i,
    {
        let v = pool_value_vec(&ls[i]);
        if v.is_some() {
            proof {
                lemma_first_where_some(lv.len() as int, sets_pool(lv), i as int);
            }
            return v;
        }
        i += 1;
    }
    proof {
        lemma_first_where_none(lv.len() as int, sets_pool(lv));
    }
    None
}

// ---------------------------------------------------------------------------
// The config folder, as read.

/// How reading a file went.
pub enum ReadOutcome {
    NotFound,
    /// The read failed; the text describes the error.
    Failed(String),
    Bytes(Vec<u8>),
}

/// A managed file of the config folder: its path, whether it is a regular
/// file, and what reading it gave.
pub struct TargetFile {
    pub path: String,
    pub is_file: bool,
    pub read: ReadOutcome,
}

/// The config folder: its three managed files, and the install manifest
/// that could be loaded from it.
pub struct TargetDir {
    pub engine: TargetFile,
    pub scalability: TargetFile,
    pub game: TargetFile,
    pub manifest: Option<InstallManifest>,
}

pub enum SRead {
    NotFound,
    Failed(Seq<char>),
    Bytes(Seq<u8>),
}

pub struct STargetFile {
    pub path: Seq<char>,
    pub is_file: bool,
    pub read: SRead,
}

pub struct STargetDir {
    pub engine: STargetFile,
    pub scalability: STargetFile,
    pub game: STargetFile,
    pub manifest: Option<SManifest>,
}

impl View for ReadOutcome {
    type V = SRead;

    open spec fn view(&self) -> SRead {
        match self {
            ReadOutcome::NotFound => SRead::NotFound,
            ReadOutcome::Failed(m) => SRead::Failed(m@),
            ReadOutcome::Bytes(b) => SRead::Bytes(b@),
        }
    }
}

impl View for TargetFile {
    type V = STargetFile;

    open spec fn view(&self) -> STargetFile {
        STargetFile { path: self.path@, is_file: self.is_file, read: self.read@ }
    }
}

impl View for TargetDir {
    type V = STargetDir;

    open spec fn view(&self) -> STargetDir {
        STargetDir {
            engine: self.engine@,
            scalability: self.scalability@,
            game: self.game@,
            manifest: match self.manifest {
                Some(m) => Some(m@),
                None => None,
            },
        }
    }
}

impl TargetDir {
    pub fn file(&self, f: ConfigFile) -> (r: &TargetFile)
        ensures
            r@ == target_file(self@, f),
    {
        match f {
            ConfigFile::Engine => &self.engine,
            ConfigFile::Scalability => &self.scalability,
            ConfigFile::Game => &self.game,
        }
    }
}

pub open spec fn target_file(t: STargetDir, f: ConfigFile) -> STargetFile {
    match f {
        ConfigFile::Engine => t.engine,
        ConfigFile::Scalability => t.scalability,
        ConfigFile::Game => t.game,
    }
}

/// What reading a file as text gives.
pub enum SText {
    NotFound,
    Error(Seq<char>),
    Text(Seq<char>),
}

pub open spec fn invalid_utf8_message() -> Seq<char> {
    "stream did not contain valid UTF-8"@
}

/// Reading as text (`fs::read_to_string`): bytes that are not UTF-8 are an
/// invalid-data error.
pub open spec fn read_text(r: SRead) -> SText {
    match r {
        SRead::NotFound => SText::NotFound,
        SRead::Failed(m) => SText::Error(m),
        SRead::Bytes(b) => if vstd::utf8::valid_utf8(b) {
            SText::Text(vstd::utf8::decode_utf8(b))
        } else {
            SText::Error(invalid_utf8_message())
        },
    }
}

/// The text of UTF-8 bytes (`std::str::from_utf8`).
#[verifier::external_body]
fn utf8_text(bytes: &Vec<u8>) -> (r: Option<String>)
    ensures
        r is Some <==> vstd::utf8::valid_utf8(bytes@),
        r matches Some(s) ==> s@ == vstd::utf8::decode_utf8(bytes@),
{
    std::str::from_utf8(bytes.as_slice()).ok().map(|s| s.to_string())
}

/// `<action> '<path>': <source>`.
pub open spec fn io_message(action: Seq<char>, path: Seq<char>, source: Seq<char>) -> Seq<char> {
    action + " '"@ + path + "': "@ + source
}

pub open spec fn read_action() -> Seq<char> {
    "read existing config file"@
}

pub enum TextOutcome {
    NotFound,
    Error(String),
    Text(Vec<char>),
}

fn read_text_exec(r: &ReadOutcome) -> (t: TextOutcome)
    ensures
        match t {
            TextOutcome::NotFound => read_text(r@) is NotFound,
            TextOutcome::Error(m) => read_text(r@) == SText::Error(m@),
            TextOutcome::Text(c) => read_text(r@) == SText::Text(c@),
        },
{
    match r {
        ReadOutcome::NotFound => TextOutcome::NotFound,
        ReadOutcome::Failed(m) => TextOutcome::Error(m.clone()),
        ReadOutcome::Bytes(b) => match utf8_text(b) {
            Some(s) => TextOutcome::Text(str_vec(&s)),
            None => TextOutcome::Error(owned("stream did not contain valid UTF-8")),
        },
    }
}

fn read_error(path: &String, source: &String) -> (e: CoreError)
    ensures
        e.message@ == io_message(read_action(), path@, source@),
{
    CoreError::io("read existing config file", path.as_str(), source.as_str())
}

// ---------------------------------------------------------------------------
// The files an install touches.

/// The existing file holds settings the app manages; a missing file holds
/// none, a file that cannot be read is an error.
pub open spec fn target_has_managed(tf: STargetFile, managed: Seq<char>) -> Result<bool, Seq<char>> {
    match read_text(tf.read) {
        SText::NotFound => Ok(false),
        SText::Error(m) => Err(io_message(read_action(), tf.path, m)),
        SText::Text(c) => Ok(has_managed_settings(c, managed)),
    }
}

pub open spec fn has_file(fs: Seq<SPlannedFile>, f: ConfigFile) -> bool {
    exists|j: int| 0 <= j < fs.len() && #[trigger] fs[j].file == f
}

/// The planned files, then each managed file not among them whose existing
/// file holds app-managed settings (so that a merge can take them out).
pub open spec fn add_inactive_files(
    files: Seq<SPlannedFile>,
    managed: Seq<SPlannedFile>,
    t: STargetDir,
) -> Result<Seq<SPlannedFile>, Seq<char>>
    decreases managed.len(),
{
    if managed.len() == 0 {
        Ok(files)
    } else {
        match add_inactive_files(files, managed.drop_last(), t) {
            Err(m) => Err(m),
            Ok(fs) => {
                let m = managed.last();
                if has_file(fs, m.file) {
                    Ok(fs)
                } else {
                    match target_has_managed(target_file(t, m.file), m.managed_content) {
                        Err(msg) => Err(msg),
                        Ok(true) => Ok(fs.push(m)),
                        Ok(false) => Ok(fs),
                    }
                }
            },
        }
    }
}

pub open spec fn planned_for_target(engine: Seq<char>, scalability: Seq<char>, o: InstallOptions, t: STargetDir) -> Result<Seq<SPlannedFile>, Seq<char>> {
    add_inactive_files(planned_files(engine, scalability, o), managed_files(engine, scalability, o), t)
}

fn target_has_managed_exec(tf: &TargetFile, managed: &Vec<char>) -> (r: Result<bool, CoreError>)
    ensures
        match r {
            Ok(b) => target_has_managed(tf@, managed@) == Ok::<bool, Seq<char>>(b),
            Err(e) => target_has_managed(tf@, managed@) == Err::<bool, Seq<char>>(e.message@),
        },
{
    match read_text_exec(&tf.read) {
        TextOutcome::NotFound => Ok(false),
        TextOutcome::Error(m) => Err(read_error(&tf.path, &m)),
        TextOutcome::Text(c) => Ok(has_managed_settings_vec(&c, managed)),
    }
}

fn has_file_exec(fs: &Vec<PlannedFile>, f: ConfigFile) -> (b: bool)
    ensures
        b == has_file(planned_view(fs@), f),
{
    let mut j: usize = 0;
    while j < fs.len()
        invariant
            j <= fs.len(),
            forall|k: int| 0 <= k < j ==> #[trigger] planned_view(fs@)[k].file != f,
        decreases fs.len() - j,
    {
        if fs[j].file == f {
            assert(planned_view(fs@)[j as int].file == f);
            return true;
        }
        j += 1;
    }
    false
}

pub fn planned_files_for_target(
    engine: &Vec<char>,
    scalability: &Vec<char>,
    o: InstallOptions,
    t: &TargetDir,
) -> (r: CoreResult<Vec<PlannedFile>>)
    ensures
        match r {
            Ok(fs) => planned_for_target(engine@, scalability@, o, t@) == Ok::<Seq<SPlannedFile>, Seq<char>>(planned_view(fs@)),
            Err(e) => planned_for_target(engine@, scalability@, o, t@) == Err::<Seq<SPlannedFile>, Seq<char>>(e.message@),
        },
{
    let mut files = planned_files_vec(engine, scalability, o);
    let managed = managed_files_vec(engine, scalability, o);
    let ghost start = planned_view(files@);
    let ghost mv = planned_view(managed@);
    let mut i: usize = 0;
    assert(mv.take(0) =~= Seq::<SPlannedFile>::empty());
    while i < managed.len()
        invariant
            i <= managed.len(),
            mv == planned_view(managed@),
            start == planned_files(engine@, scalability@, o),
            mv == managed_files(engine@, scalability@, o),
            add_inactive_files(start, mv.take(i as int), t@) == Ok::<Seq<SPlannedFile>, Seq<char>>(planned_view(files@)),
        decreases managed.len() - i,
    {
        proof {
            assert(mv.take(i + 1).drop_last() =~= mv.take(i as int));
        }
        let m = &managed[i];
        if !has_file_exec(&files, m.file) {
            match target_has_managed_exec(t.file(m.file), &m.managed_content) {
                Err(e) => {
                    assert(add_inactive_files(start, mv.take(i + 1), t@) == Err::<Seq<SPlannedFile>, Seq<char>>(e.message@));
                    proof {
                        lemma_add_inactive_err(start, mv, t@, (i + 1) as int, e.message@);
                    }
                    return Err(e);
                },
                Ok(true) => {
                    let c = clone_planned(m);
                    proof {
                        lemma_planned_view_push(files@, c);
                    }
                    files.push(c);
                },
                Ok(false) => {},
            }
        }
        i += 1;
    }
    assert(mv.take(managed.len() as int) =~= mv);
    Ok(files)
}

proof fn lemma_add_inactive_err(files: Seq<SPlannedFile>, managed: Seq<SPlannedFile>, t: STargetDir, k: int, msg: Seq<char>)
    requires
        0 <= k <= managed.len(),
        add_inactive_files(files, managed.take(k), t) == Err::<Seq<SPlannedFile>, Seq<char>>(msg),
    ensures
        add_inactive_files(files, managed, t) == Err::<Seq<SPlannedFile>, Seq<char>>(msg),
    decreases managed.len() - k,
{
    if k < managed.len() {
        assert(managed.take(k + 1).drop_last() =~= managed.take(k));
        lemma_add_inactive_err(files, managed, t, k + 1, msg);
    } else {
        assert(managed.take(k) =~= managed);
    }
}


// ---------------------------------------------------------------------------
// The preset an install uses.

/// A preset with what reading its two INI files as text gave: the text, or a
/// description of the error.
pub struct PresetSource {
    pub preset: Preset,
    pub engine_text: Result<String, String>,
    pub scalability_text: Result<String, String>,
}

pub struct SPresetSource {
    pub preset: SPreset,
    pub engine_text: Result<Seq<char>, Seq<char>>,
    pub scalability_text: Result<Seq<char>, Seq<char>>,
}

pub open spec fn text_result_view(r: Result<String, String>) -> Result<Seq<char>, Seq<char>> {
    match r {
        Ok(s) => Ok(s@),
        Err(e) => Err(e@),
    }
}

impl View for PresetSource {
    type V = SPresetSource;

    open spec fn view(&self) -> SPresetSource {
        SPresetSource {
            preset: self.preset@,
            engine_text: text_result_view(self.engine_text),
            scalability_text: text_result_view(self.scalability_text),
        }
    }
}

pub open spec fn sources_view(v: Seq<PresetSource>) -> Seq<SPresetSource> {
    v.map_values(|s: PresetSource| s@)
}

pub open spec fn source_with_id(ss: Seq<SPresetSource>, id: Seq<char>) -> spec_fn(int) -> bool {
    |i: int| ss[i].preset.id == id
}

/// The first source whose preset has the id, or the unknown preset error.
pub open spec fn lookup_source(ss: Seq<SPresetSource>, id: Seq<char>) -> Result<SPresetSource, Seq<char>> {
    match first_where(ss.len() as int, source_with_id(ss, id)) {
        Some(i) => Ok(ss[i]),
        None => Err(unknown_preset_message(id)),
    }
}

pub open spec fn preset_read_action() -> Seq<char> {
    "read preset file"@
}

/// The two preset texts, or the error of the first that could not be read.
pub open spec fn preset_texts(s: SPresetSource) -> Result<(Seq<char>, Seq<char>), Seq<char>> {
    match s.engine_text {
        Err(e) => Err(io_message(preset_read_action(), s.preset.engine_ini, e)),
        Ok(engine) => match s.scalability_text {
            Err(e) => Err(io_message(preset_read_action(), s.preset.scalability_ini, e)),
            Ok(scalability) => Ok((engine, scalability)),
        },
    }
}

/// The options checked, the preset looked up and its texts read, in that order.
pub open spec fn selected_texts(ss: Seq<SPresetSource>, id: Seq<char>, o: InstallOptions) -> Result<(Seq<char>, Seq<char>), Seq<char>> {
    if !options_valid(o) {
        Err(pool_range_message())
    } else {
        match lookup_source(ss, id) {
            Err(m) => Err(m),
            Ok(s) => preset_texts(s),
        }
    }
}

fn find_source(sources: &Vec<PresetSource>, preset_id: &str) -> (r: CoreResult<usize>)
    ensures
        match r {
            Ok(i) => i < sources.len() && lookup_source(sources_view(sources@), preset_id@) == Ok::<SPresetSource, Seq<char>>(sources@[i as int]@),
            Err(e) => lookup_source(sources_view(sources@), preset_id@) == Err::<SPresetSource, Seq<char>>(e.message@),
        },
{
    let ghost sv = sources_view(sources@);
    let want = owned(preset_id);
    let mut i: usize = 0;
    while i < sources.len()
        invariant
            i <= sources.len(),
            sv == sources_view(sources@),
            want@ == preset_id@,
            forall|j: int| 0 <= j < i ==> !#[trigger] source_with_id(sv, preset_id@)(j),
        decreases sources.len() - i,
    {
        if sources[i].preset.id == want {
            proof {
                lemma_first_where_some(sv.len() as int, source_with_id(sv, preset_id@), i as int);
            }
            return Ok(i);
        }
        i += 1;
    }
    proof {
        lemma_first_where_none(sv.len() as int, source_with_id(sv, preset_id@));
    }
    let mut m = chars_of("unknown preset '");
    append_all(&mut m, &chars_of(preset_id));
    append_all(&mut m, &chars_of("'"));
    Err(CoreError::new(string_of(&m)))
}

fn preset_texts_exec(s: &PresetSource) -> (r: CoreResult<(Vec<char>, Vec<char>)>)
    ensures
        match r {
            Ok((e, c)) => preset_texts(s@) == Ok::<(Seq<char>, Seq<char>), Seq<char>>((e@, c@)),
            Err(err) => preset_texts(s@) == Err::<(Seq<char>, Seq<char>), Seq<char>>(err.message@),
        },
{
    let engine = match &s.engine_text {
        Ok(t) => str_vec(t),
        Err(e) => return Err(CoreError::io("read preset file", s.preset.engine_ini.as_str(), e.as_str())),
    };
    let scalability = match &s.scalability_text {
        Ok(t) => str_vec(t),
        Err(e) => return Err(CoreError::io("read preset file", s.preset.scalability_ini.as_str(), e.as_str())),
    };
    Ok((engine, scalability))
}

fn select_texts(sources: &Vec<PresetSource>, preset_id: &str, o: InstallOptions) -> (r: CoreResult<(Vec<char>, Vec<char>)>)
    ensures
        match r {
            Ok((e, c)) => selected_texts(sources_view(sources@), preset_id@, o) == Ok::<(Seq<char>, Seq<char>), Seq<char>>((e@, c@)),
            Err(err) => selected_texts(sources_view(sources@), preset_id@, o) == Err::<(Seq<char>, Seq<char>), Seq<char>>(err.message@),
        },
{
    match o.validate() {
        Err(e) => return Err(e),
        Ok(()) => {},
    }
    let i = match find_source(sources, preset_id) {
        Err(e) => return Err(e),
        Ok(i) => i,
    };
    preset_texts_exec(&sources[i])
}

// ---------------------------------------------------------------------------
// Previews.

/// What an install would do to one file, as the preview shows it.
#[derive(Debug, Clone, PartialEq, Eq)]
pub struct FilePreview {
    pub file_name: String,
    pub target_exists: bool,
    pub modification_state: FileModificationState,
    pub has_external_settings: bool,
    pub current_pool_mb: Option<u32>,
    pub preset_pool_mb: Option<u32>,
    pub will_backup: bool,
    pub will_set_read_only: bool,
    pub will_apply_balanced_performance_tweaks: bool,
    pub will_apply_disable_volumetric_fog: bool,
    pub will_apply_low_volumetric_fog: bool,
    pub will_apply_d3d12_pso_cache: bool,
    pub will_apply_runtime_pso_precaching: bool,
    pub will_apply_gc_smoothing: bool,
    pub will_skip_intro_videos: bool,
}

pub struct SFilePreview {
    pub file_name: Seq<char>,
    pub target_exists: bool,
    pub modification_state: FileModificationState,
    pub has_external_settings: bool,
    pub current_pool_mb: Option<u32>,
    pub preset_pool_mb: Option<u32>,
    pub will_backup: bool,
    pub will_set_read_only: bool,
    pub will_apply_balanced_performance_tweaks: bool,
    pub will_apply_disable_volumetric_fog: bool,
    pub will_apply_low_volumetric_fog: bool,
    pub will_apply_d3d12_pso_cache: bool,
    pub will_apply_runtime_pso_precaching: bool,
    pub will_apply_gc_smoothing: bool,
    pub will_skip_intro_videos: bool,
}

impl View for FilePreview {
    type V = SFilePreview;

    open spec fn view(&self) -> SFilePreview {
        SFilePreview {
            file_name: self.file_name@,
            target_exists: self.target_exists,
            modification_state: self.modification_state,
            has_external_settings: self.has_external_settings,
            current_pool_mb: self.current_pool_mb,
            preset_pool_mb: self.preset_pool_mb,
            will_backup: self.will_backup,
            will_set_read_only: self.will_set_read_only,
            will_apply_balanced_performance_tweaks: self.will_apply_balanced_performance_tweaks,
            will_apply_disable_volumetric_fog: self.will_apply_disable_volumetric_fog,
            will_apply_low_volumetric_fog: self.will_apply_low_volumetric_fog,
            will_apply_d3d12_pso_cache: self.will_apply_d3d12_pso_cache,
            will_apply_runtime_pso_precaching: self.will_apply_runtime_pso_precaching,
            will_apply_gc_smoothing: self.will_apply_gc_smoothing,
            will_skip_intro_videos: self.will_skip_intro_videos,
        }
    }
}

impl FilePreview {
    /// Installing could lose changes the app did not make.
    pub fn has_overwrite_risk(&self) -> (b: bool)
        ensures
            b == (self.modification_state is Untracked || self.modification_state is Modified),
    {
        self.modification_state.has_overwrite_risk()
    }
}

pub open spec fn previews_view(v: Seq<FilePreview>) -> Seq<SFilePreview> {
    v.map_values(|p: FilePreview| p@)
}

/// The bytes of the existing file, when it is a file and could be read.
pub open spec fn current_bytes(tf: STargetFile) -> Option<Seq<u8>> {
    if tf.is_file {
        match tf.read {
            SRead::Bytes(b) => Some(b),
            _ => None,
        }
    } else {
        None
    }
}

/// The text of the existing file, when its bytes are UTF-8.
pub open spec fn current_text(tf: STargetFile) -> Option<Seq<char>> {
    match current_bytes(tf) {
        Some(b) => if vstd::utf8::valid_utf8(b) {
            Some(vstd::utf8::decode_utf8(b))
        } else {
            None
        },
        None => None,
    }
}

/// The preview of one planned file against the existing one.
pub open spec fn preview_of(f: SPlannedFile, tf: STargetFile, manifest: Option<SManifest>) -> SFilePreview {
    let name = config_file_name(f.file);
    SFilePreview {
        file_name: name,
        target_exists: tf.is_file,
        modification_state: classify(name, tf.is_file, current_bytes(tf), manifest),
        has_external_settings: match current_text(tf) {
            Some(c) => has_external_settings(c, f.managed_content),
            None => false,
        },
        current_pool_mb: match current_text(tf) {
            Some(c) => first_pool_size(c),
            None => None,
        },
        preset_pool_mb: first_pool_size(f.content),
        will_backup: tf.is_file,
        will_set_read_only: f.read_only,
        will_apply_balanced_performance_tweaks: f.applies_balanced_performance_tweaks,
        will_apply_disable_volumetric_fog: f.applies_disable_volumetric_fog,
        will_apply_low_volumetric_fog: f.applies_low_volumetric_fog,
        will_apply_d3d12_pso_cache: f.applies_d3d12_pso_cache,
        will_apply_runtime_pso_precaching: f.applies_runtime_pso_precaching,
        will_apply_gc_smoothing: f.applies_gc_smoothing,
        will_skip_intro_videos: f.skips_intro_videos,
    }
}

pub open spec fn previews_of(fs: Seq<SPlannedFile>, t: STargetDir) -> Seq<SFilePreview> {
    fs.map_values(|f: SPlannedFile| preview_of(f, target_file(t, f.file), t.manifest))
}

/// What `preview_install` gives: the option and preset errors, then one
/// preview per file the install would write, in install order.
pub open spec fn preview_result(ss: Seq<SPresetSource>, id: Seq<char>, t: STargetDir, o: InstallOptions) -> Result<Seq<SFilePreview>, Seq<char>> {
    match selected_texts(ss, id, o) {
        Err(m) => Err(m),
        Ok((engine, scalability)) => match planned_for_target(engine, scalability, o, t) {
            Err(m) => Err(m),
            Ok(fs) => Ok(previews_of(fs, t)),
        },
    }
}

fn preview_file(f: &PlannedFile, tf: &TargetFile, manifest: Option<&InstallManifest>) -> (r: FilePreview)
    ensures
        r@ == preview_of(
            f@,
            tf@,
            match manifest {
                Some(m) => Some(m@),
                None => None,
            },
        ),
{
    let target_exists = tf.is_file;
    let bytes: Option<&Vec<u8>> = if target_exists {
        match &tf.read {
            ReadOutcome::Bytes(b) => Some(b),
            _ => None,
        }
    } else {
        None
    };
    let text: Option<Vec<char>> = match bytes {
        Some(b) => match utf8_text(b) {
            Some(s) => Some(str_vec(&s)),
            None => None,
        },
        None => None,
    };
    let (has_external, current_pool) = match &text {
        Some(c) => (has_external_settings_vec(c, &f.managed_content), extract_pool_size(c)),
        None => (false, None),
    };
    let name = owned(f.file.file_name());
    let state = classify_modification_state(&name, target_exists, bytes, manifest);
    FilePreview {
        file_name: name,
        target_exists,
        modification_state: state,
        has_external_settings: has_external,
        current_pool_mb: current_pool,
        preset_pool_mb: extract_pool_size(&f.content),
        will_backup: target_exists,
        will_set_read_only: f.read_only,
        will_apply_balanced_performance_tweaks: f.applies_balanced_performance_tweaks,
        will_apply_disable_volumetric_fog: f.applies_disable_volumetric_fog,
        will_apply_low_volumetric_fog: f.applies_low_volumetric_fog,
        will_apply_d3d12_pso_cache: f.applies_d3d12_pso_cache,
        will_apply_runtime_pso_precaching: f.applies_runtime_pso_precaching,
        will_apply_gc_smoothing: f.applies_gc_smoothing,
        will_skip_intro_videos: f.skips_intro_videos,
    }
}

/// Previews an install of the preset `preset_id` into the config folder.
pub fn preview_install(
    presets: &Vec<PresetSource>,
    preset_id: &str,
    target: &TargetDir,
    options: InstallOptions,
) -> (r: CoreResult<Vec<FilePreview>>)
    ensures
        match r {
            Ok(ps) => preview_result(sources_view(presets@), preset_id@, target@, options) == Ok::<Seq<SFilePreview>, Seq<char>>(previews_view(ps@)),
            Err(e) => preview_result(sources_view(presets@), preset_id@, target@, options) == Err::<Seq<SFilePreview>, Seq<char>>(e.message@),
        },
{
    let (engine, scalability) = match select_texts(presets, preset_id, options) {
        Err(e) => return Err(e),
        Ok(t) => t,
    };
    let files = match planned_files_for_target(&engine, &scalability, options, target) {
        Err(e) => return Err(e),
        Ok(fs) => fs,
    };
    let ghost fv = planned_view(files@);
    let ghost tv = target@;
    let manifest: Option<&InstallManifest> = match &target.manifest {
        Some(m) => Some(m),
        None => None,
    };
    let mut out: Vec<FilePreview> = Vec::new();
    let mut i: usize = 0;
    while i < files.len()
        invariant
            i <= files.len(),
            fv == planned_view(files@),
            tv == target@,
            manifest matches Some(m) ==> tv.manifest == Some(m@),
            manifest is None ==> tv.manifest is None,
            previews_view(out@) =~= previews_of(fv, tv).take(i as int),
        decreases files.len() - i,
    {
        let f = &files[i];
        let p = preview_file(f, target.file(f.file), manifest);
        let ghost pv = p@;
        let ghost before = out@;
        out.push(p);
        proof {
            assert(previews_view(out@) =~= previews_view(before).push(pv));
            assert(previews_of(fv, tv).take(i + 1) =~= previews_of(fv, tv).take(i as int).push(pv));
        }
        i += 1;
    }
    assert(previews_of(fv, tv).take(files.len() as int) =~= previews_of(fv, tv));
    Ok(out)
}

/// The file contents an install writes, for copying by hand: the option and
/// preset errors, then each planned file's name and text.
#[derive(Debug, Clone, PartialEq, Eq)]
pub struct IniFileContent {
    pub file_name: String,
    pub content: String,
}

pub open spec fn contents_view(v: Seq<IniFileContent>) -> Seq<(Seq<char>, Seq<char>)> {
    v.map_values(|c: IniFileContent| (c.file_name@, c.content@))
}

pub open spec fn ini_contents_result(ss: Seq<SPresetSource>, id: Seq<char>, o: InstallOptions) -> Result<Seq<(Seq<char>, Seq<char>)>, Seq<char>> {
    match selected_texts(ss, id, o) {
        Err(m) => Err(m),
        Ok((engine, scalability)) => Ok(
            planned_files(engine, scalability, o).map_values(|f: SPlannedFile| (config_file_name(f.file), f.content)),
        ),
    }
}

/// The texts an install of `preset_id` would write, without a config folder.
pub fn ini_file_contents(presets: &Vec<PresetSource>, preset_id: &str, options: InstallOptions) -> (r: CoreResult<Vec<IniFileContent>>)
    ensures
        match r {
            Ok(cs) => ini_contents_result(sources_view(presets@), preset_id@, options) == Ok::<Seq<(Seq<char>, Seq<char>)>, Seq<char>>(contents_view(cs@)),
            Err(e) => ini_contents_result(sources_view(presets@), preset_id@, options) == Err::<Seq<(Seq<char>, Seq<char>)>, Seq<char>>(e.message@),
        },
{
    let (engine, scalability) = match select_texts(presets, preset_id, options) {
        Err(e) => return Err(e),
        Ok(t) => t,
    };
    let files = planned_files_vec(&engine, &scalability, options);
    let ghost want = planned_files(engine@, scalability@, options).map_values(|f: SPlannedFile| (config_file_name(f.file), f.content));
    let mut out: Vec<IniFileContent> = Vec::new();
    let mut i: usize = 0;
    while i < files.len()
        invariant
            i <= files.len(),
            planned_view(files@) == planned_files(engine@, scalability@, options),
            want == planned_files(engine@, scalability@, options).map_values(|f: SPlannedFile| (config_file_name(f.file), f.content)),
            contents_view(out@) =~= want.take(i as int),
        decreases files.len() - i,
    {
        let c = IniFileContent { file_name: owned(files[i].file.file_name()), content: string_of(&files[i].content) };
        let ghost before = out@;
        out.push(c);
        proof {
            assert(contents_view(out@) =~= contents_view(before).push((c.file_name@, c.content@)));
            assert(want.take(i + 1) =~= want.take(i as int).push(want[i as int]));
        }
        i += 1;
    }
    assert(want.take(files.len() as int) =~= want);
    Ok(out)
}

// ---------------------------------------------------------------------------
// Installs.

/// One file an install wrote: its name, the bytes written, whether it was
/// left read-only.
#[derive(Debug, Clone, PartialEq, Eq)]
pub struct FileInstallReport {
    pub file_name: String,
    pub bytes_written: u64,
    pub read_only: bool,
}

impl FileInstallReport {
    /// The report of writing `content` as `file_name`: its length is the
    /// length of its UTF-8 bytes.
    pub fn for_content(file_name: &str, content: &str, read_only: bool) -> (r: FileInstallReport)
        ensures
            r.file_name@ == file_name@,
            r.bytes_written == vstd::utf8::encode_utf8(content@).len(),
            r.read_only == read_only,
    {
        let n = content.as_bytes().len();
        FileInstallReport { file_name: owned(file_name), bytes_written: n as u64, read_only }
    }
}

/// What an install did.
#[derive(Debug, Clone, PartialEq, Eq)]
pub struct InstallReport {
    pub preset_id: String,
    pub target_dir: String,
    pub backup_dir: Option<String>,
    pub created_target_dir: bool,
    pub installed_files: Vec<FileInstallReport>,
}

/// One write of an install: the file, the text to write or the error that
/// stops the install there, and whether the file is then made read-only.
pub struct PlannedWrite {
    pub file_name: String,
    pub content: CoreResult<String>,
    pub read_only: bool,
}

pub struct SPlannedWrite {
    pub file_name: Seq<char>,
    pub content: Result<Seq<char>, Seq<char>>,
    pub read_only: bool,
}

impl View for PlannedWrite {
    type V = SPlannedWrite;

    open spec fn view(&self) -> SPlannedWrite {
        SPlannedWrite {
            file_name: self.file_name@,
            content: match self.content {
                Ok(c) => Ok(c@),
                Err(e) => Err(e.message@),
            },
            read_only: self.read_only,
        }
    }
}

/// An install, once its checks passed: the preset, the existing files to
/// back up first, then the writes in order.
pub struct InstallPlan {
    pub preset_id: String,
    pub backup_files: Vec<String>,
    pub writes: Vec<PlannedWrite>,
}

pub struct SInstallPlan {
    pub preset_id: Seq<char>,
    pub backup_files: Seq<Seq<char>>,
    pub writes: Seq<SPlannedWrite>,
}

pub open spec fn names_view(v: Seq<String>) -> Seq<Seq<char>> {
    v.map_values(|s: String| s@)
}

pub open spec fn writes_view(v: Seq<PlannedWrite>) -> Seq<SPlannedWrite> {
    v.map_values(|w: PlannedWrite| w@)
}

impl View for InstallPlan {
    type V = SInstallPlan;

    open spec fn view(&self) -> SInstallPlan {
        SInstallPlan {
            preset_id: self.preset_id@,
            backup_files: names_view(self.backup_files@),
            writes: writes_view(self.writes@),
        }
    }
}

/// The text written to a file: the planned text on replace; on merge, the
/// existing text (if any) merged with it, or the error of reading it.
pub open spec fn install_content(f: SPlannedFile, tf: STargetFile, strategy: InstallStrategy) -> Result<Seq<char>, Seq<char>> {
    match strategy {
        InstallStrategy::Replace => Ok(f.content),
        InstallStrategy::Merge => match read_text(tf.read) {
            SText::NotFound => Ok(merge_ini(None, f.content, f.managed_content)),
            SText::Error(m) => Err(io_message(read_action(), tf.path, m)),
            SText::Text(c) => Ok(merge_ini(Some(c), f.content, f.managed_content)),
        },
    }
}

pub open spec fn planned_write(f: SPlannedFile, t: STargetDir, strategy: InstallStrategy) -> SPlannedWrite {
    SPlannedWrite {
        file_name: config_file_name(f.file),
        content: install_content(f, target_file(t, f.file), strategy),
        read_only: f.read_only,
    }
}

pub open spec fn planned_writes(fs: Seq<SPlannedFile>, t: STargetDir, strategy: InstallStrategy) -> Seq<SPlannedWrite> {
    fs.map_values(|f: SPlannedFile| planned_write(f, t, strategy))
}

/// The names of the planned files that exist as files in the folder.
pub open spec fn backup_names(fs: Seq<SPlannedFile>, t: STargetDir) -> Seq<Seq<char>>
    decreases fs.len(),
{
    if fs.len() == 0 {
        seq![]
    } else {
        let r = backup_names(fs.drop_last(), t);
        if target_file(t, fs.last().file).is_file {
            r.push(config_file_name(fs.last().file))
        } else {
            r
        }
    }
}

/// The plan of an install: the option and preset errors, the errors of
/// reading the existing files, then the backups and writes.
pub open spec fn install_plan(
    ss: Seq<SPresetSource>,
    id: Seq<char>,
    t: STargetDir,
    o: InstallOptions,
    strategy: InstallStrategy,
) -> Result<SInstallPlan, Seq<char>> {
    match selected_texts(ss, id, o) {
        Err(m) => Err(m),
        Ok((engine, scalability)) => match planned_for_target(engine, scalability, o, t) {
            Err(m) => Err(m),
            Ok(fs) => Ok(
                SInstallPlan { preset_id: id, backup_files: backup_names(fs, t), writes: planned_writes(fs, t, strategy) },
            ),
        },
    }
}

fn install_content_for_strategy(f: &PlannedFile, tf: &TargetFile, strategy: InstallStrategy) -> (r: CoreResult<Vec<char>>)
    ensures
        match r {
            Ok(c) => install_content(f@, tf@, strategy) == Ok::<Seq<char>, Seq<char>>(c@),
            Err(e) => install_content(f@, tf@, strategy) == Err::<Seq<char>, Seq<char>>(e.message@),
        },
{
    match strategy {
        InstallStrategy::Replace => Ok(f.content.clone()),
        InstallStrategy::Merge => match read_text_exec(&tf.read) {
            TextOutcome::NotFound => Ok(merge_ini_vec(None, &f.content, &f.managed_content)),
            TextOutcome::Error(m) => Err(read_error(&tf.path, &m)),
            TextOutcome::Text(c) => Ok(merge_ini_vec(Some(&c), &f.content, &f.managed_content)),
        },
    }
}

/// Plans an install of the preset `preset_id` into the config folder with
/// the given strategy.
pub fn install_preset_with_strategy(
    presets: &Vec<PresetSource>,
    preset_id: &str,
    target: &TargetDir,
    options: InstallOptions,
    strategy: InstallStrategy,
) -> (r: CoreResult<InstallPlan>)
    ensures
        match r {
            Ok(p) => install_plan(sources_view(presets@), preset_id@, target@, options, strategy) == Ok::<SInstallPlan, Seq<char>>(p@),
            Err(e) => install_plan(sources_view(presets@), preset_id@, target@, options, strategy) == Err::<SInstallPlan, Seq<char>>(e.message@),
        },
{
    let (engine, scalability) = match select_texts(presets, preset_id, options) {
        Err(e) => return Err(e),
        Ok(t) => t,
    };
    let files = match planned_files_for_target(&engine, &scalability, options, target) {
        Err(e) => return Err(e),
        Ok(fs) => fs,
    };
    let ghost fv = planned_view(files@);
    let ghost tv = target@;
    let mut backups: Vec<String> = Vec::new();
    let mut writes: Vec<PlannedWrite> = Vec::new();
    let mut i: usize = 0;
    assert(fv.take(0) =~= Seq::<SPlannedFile>::empty());
    while i < files.len()
        invariant
            i <= files.len(),
            fv == planned_view(files@),
            tv == target@,
            names_view(backups@) == backup_names(fv.take(i as int), tv),
            writes_view(writes@) =~= planned_writes(fv, tv, strategy).take(i as int),
        decreases files.len() - i,
    {
        let f = &files[i];
        let tf = target.file(f.file);
        proof {
            assert(fv.take(i + 1).drop_last() =~= fv.take(i as int));
        }
        if tf.is_file {
            let name = owned(f.file.file_name());
            let ghost before = backups@;
            backups.push(name);
            assert(names_view(backups@) =~= names_view(before).push(name@));
        }
        let content = match install_content_for_strategy(f, tf, strategy) {
            Ok(c) => Ok(string_of(&c)),
            Err(e) => Err(e),
        };
        let w = PlannedWrite { file_name: owned(f.file.file_name()), content, read_only: f.read_only };
        let ghost wv = w@;
        let ghost wbefore = writes@;
        writes.push(w);
        proof {
            assert(writes_view(writes@) =~= writes_view(wbefore).push(wv));
            assert(planned_writes(fv, tv, strategy).take(i + 1) =~= planned_writes(fv, tv, strategy).take(i as int).push(wv));
        }
        i += 1;
    }
    assert(fv.take(files.len() as int) =~= fv);
    assert(planned_writes(fv, tv, strategy).take(files.len() as int) =~= planned_writes(fv, tv, strategy));
    Ok(InstallPlan { preset_id: owned(preset_id), backup_files: backups, writes })
}

/// Plans an install that replaces the managed files.
pub fn install_preset(
    presets: &Vec<PresetSource>,
    preset_id: &str,
    target: &TargetDir,
    options: InstallOptions,
) -> (r: CoreResult<InstallPlan>)
    ensures
        match r {
            Ok(p) => install_plan(sources_view(presets@), preset_id@, target@, options, InstallStrategy::Replace) == Ok::<SInstallPlan, Seq<char>>(p@),
            Err(e) => install_plan(sources_view(presets@), preset_id@, target@, options, InstallStrategy::Replace) == Err::<SInstallPlan, Seq<char>>(e.message@),
        },
{
    install_preset_with_strategy(presets, preset_id, target, options, InstallStrategy::Replace)
}

// ---------------------------------------------------------------------------
// Backups, restore and reset.

/// The managed files, in the order backups, restores and resets visit them.
pub open spec fn managed_names() -> Seq<Seq<char>> {
    seq!["Engine.ini"@, "Game.ini"@, "Scalability.ini"@]
}

pub fn managed_file_names() -> (r: Vec<String>)
    ensures
        names_view(r@) == managed_names(),
{
    let mut r: Vec<String> = Vec::new();
    r.push(owned("Engine.ini"));
    r.push(owned("Game.ini"));
    r.push(owned("Scalability.ini"));
    assert(names_view(r@) =~= managed_names());
    r
}

/// A backup id names a folder directly under the backups folder: it is not
/// empty, holds no path separator and is not `.` or `..`.
pub open spec fn backup_id_valid(id: Seq<char>) -> bool {
    &&& id.len() > 0
    &&& !id.contains('/')
    &&& !id.contains('\\')
    &&& id != "."@
    &&& id != ".."@
}

pub open spec fn invalid_backup_id_message() -> Seq<char> {
    "invalid backup id"@
}

pub fn validate_backup_id(backup_id: &str) -> (r: CoreResult<()>)
    ensures
        r is Ok <==> backup_id_valid(backup_id@),
        r matches Err(e) ==> e.message@ == invalid_backup_id_message(),
{
    let id = chars_of(backup_id);
    let mut separator = false;
    let mut i: usize = 0;
    while i < id.len()
        invariant
            i <= id.len(),
            id@ == backup_id@,
            separator == exists|j: int| 0 <= j < i && (#[trigger] id@[j] == '/' || id@[j] == '\\'),
        decreases id.len() - i,
    {
        if id[i] == '/' || id[i] == '\\' {
            separator = true;
        }
        i += 1;
    }
    proof {
        reveal_strlit(".");
        reveal_strlit("..");
        if id@.contains('/') {
            let j = choose|j: int| 0 <= j < id@.len() && id@[j] == '/';
            assert(id@[j] == '/' || id@[j] == '\\');
        }
        if id@.contains('\\') {
            let j = choose|j: int| 0 <= j < id@.len() && id@[j] == '\\';
            assert(id@[j] == '/' || id@[j] == '\\');
        }
        if separator {
            let j = choose|j: int| 0 <= j < id@.len() && (#[trigger] id@[j] == '/' || id@[j] == '\\');
            assert(id@.contains(id@[j]));
        }
    }
    let dot = id.len() == 1 && id[0] == '.';
    let dots = id.len() == 2 && id[0] == '.' && id[1] == '.';
    assert(dot <==> id@ == "."@) by {
        if id@ == "."@ {
            assert(id@[0] == "."@[0]);
        }
        if dot {
            assert(id@ =~= "."@);
        }
    }
    assert(dots <==> id@ == ".."@) by {
        if id@ == ".."@ {
            assert(id@[0] == ".."@[0] && id@[1] == ".."@[1]);
        }
        if dots {
            assert(id@ =~= ".."@);
        }
    }
    if id.len() == 0 || separator || dot || dots {
        return Err(CoreError::new(owned("invalid backup id")));
    }
    Ok(())
}

/// `backup-<timestamp>`, then `-<attempt>` for any attempt after the first.
pub open spec fn backup_dir_name_spec(timestamp_millis: u128, attempt: u16) -> Seq<char> {
    if attempt == 0 {
        "backup-"@ + decimal(timestamp_millis as nat)
    } else {
        "backup-"@ + decimal(timestamp_millis as nat) + "-"@ + decimal(attempt as nat)
    }
}

pub fn backup_dir_name(timestamp_millis: u128, attempt: u16) -> (r: String)
    ensures
        r@ == backup_dir_name_spec(timestamp_millis, attempt),
{
    let mut m = chars_of("backup-");
    append_all(&mut m, &decimal_vec(timestamp_millis));
    if attempt != 0 {
        append_all(&mut m, &chars_of("-"));
        append_all(&mut m, &decimal_vec(attempt as u128));
    }
    string_of(&m)
}

/// How creating a backup folder went.
pub enum CreateDirOutcome {
    Created,
    AlreadyExists,
    /// Another error; the text describes it.
    Failed(String),
}

/// What to do after an attempt to create a backup folder.
pub enum BackupDirStep {
    /// The folder was created.
    Done,
    /// Try the next name, with this attempt number.
    Retry(u16),
    Fail(CoreError),
}

pub const BACKUP_DIR_ATTEMPTS: u16 = 1000;

pub open spec fn no_unique_backup_dir_message() -> Seq<char> {
    "could not allocate a unique backup directory"@
}

/// The decision after attempt `attempt` to create the backup folder at
/// `path`: done when created, the next attempt when the name was taken
/// (until the attempts run out), else the error.
pub fn next_backup_dir_step(attempt: u16, path: &str, outcome: CreateDirOutcome) -> (r: BackupDirStep)
    requires
        attempt < BACKUP_DIR_ATTEMPTS,
    ensures
        match outcome {
            CreateDirOutcome::Created => r is Done,
            CreateDirOutcome::AlreadyExists => if attempt + 1 < BACKUP_DIR_ATTEMPTS {
                r == BackupDirStep::Retry((attempt + 1) as u16)
            } else {
                r matches BackupDirStep::Fail(e) && e.message@ == no_unique_backup_dir_message()
            },
            CreateDirOutcome::Failed(m) => r matches BackupDirStep::Fail(e) && e.message@ == io_message(
                "create backup directory"@,
                path@,
                m@,
            ),
        },
{
    match outcome {
        CreateDirOutcome::Created => BackupDirStep::Done,
        CreateDirOutcome::AlreadyExists => if attempt + 1 < BACKUP_DIR_ATTEMPTS {
            BackupDirStep::Retry(attempt + 1)
        } else {
            BackupDirStep::Fail(CoreError::new(owned("could not allocate a unique backup directory")))
        },
        CreateDirOutcome::Failed(m) => BackupDirStep::Fail(CoreError::io("create backup directory", path, m.as_str())),
    }
}

/// Each attempt at one timestamp names a different backup folder, so the
/// retries after a name was taken never try that name again.
pub proof fn lemma_backup_dir_names_differ(timestamp_millis: u128, a: u16, b: u16)
    requires
        a != b,
    ensures
        backup_dir_name_spec(timestamp_millis, a) != backup_dir_name_spec(timestamp_millis, b),
{
    reveal_strlit("backup-");
    reveal_strlit("-");
    let d = decimal(timestamp_millis as nat);
    let p = "backup-"@ + d + "-"@;
    crate::text::lemma_decimal_value(a as nat);
    crate::text::lemma_decimal_value(b as nat);
    if a != 0 && b != 0 {
        let na = backup_dir_name_spec(timestamp_millis, a);
        let nb = backup_dir_name_spec(timestamp_millis, b);
        assert(na =~= p + decimal(a as nat));
        assert(nb =~= p + decimal(b as nat));
        if na == nb {
            assert(na.skip(p.len() as int) =~= decimal(a as nat));
            assert(nb.skip(p.len() as int) =~= decimal(b as nat));
            crate::text::lemma_decimal_injective(a as nat, b as nat);
        }
    }
}

/// A backup found in the backups folder.
#[derive(Debug, Clone, PartialEq, Eq)]
pub struct BackupInfo {
    pub id: String,
    pub path: String,
    pub files: Vec<String>,
    pub modified_unix_seconds: u64,
}

pub struct SBackupInfo {
    pub id: Seq<char>,
    pub path: Seq<char>,
    pub files: Seq<Seq<char>>,
    pub modified_unix_seconds: u64,
}

impl View for BackupInfo {
    type V = SBackupInfo;

    open spec fn view(&self) -> SBackupInfo {
        SBackupInfo { id: self.id@, path: self.path@, files: names_view(self.files@), modified_unix_seconds: self.modified_unix_seconds }
    }
}

pub open spec fn backups_view(v: Seq<BackupInfo>) -> Seq<SBackupInfo> {
    v.map_values(|b: BackupInfo| b@)
}

/// An entry of the backups folder, as the folder listing saw it: its path,
/// whether it is a folder, its name where that is UTF-8, which managed files
/// it holds as files, and when it was last modified (0 when unknown).
pub struct BackupDirEntry {
    pub path: String,
    pub is_dir: bool,
    pub name: Option<String>,
    pub has_engine_ini: bool,
    pub has_game_ini: bool,
    pub has_scalability_ini: bool,
    pub modified_unix_seconds: u64,
}

/// The managed files present, in managed order.
pub open spec fn present_names(engine: bool, game: bool, scalability: bool) -> Seq<Seq<char>> {
    let a: Seq<Seq<char>> = if engine { seq!["Engine.ini"@] } else { seq![] };
    let b: Seq<Seq<char>> = if game { a.push("Game.ini"@) } else { a };
    if scalability { b.push("Scalability.ini"@) } else { b }
}

fn present_file_names(engine: bool, game: bool, scalability: bool) -> (r: Vec<String>)
    ensures
        names_view(r@) == present_names(engine, game, scalability),
{
    let mut r: Vec<String> = Vec::new();
    if engine {
        r.push(owned("Engine.ini"));
    }
    if game {
        r.push(owned("Game.ini"));
    }
    if scalability {
        r.push(owned("Scalability.ini"));
    }
    assert(names_view(r@) =~= present_names(engine, game, scalability));
    r
}

/// The backup an entry is: a folder with a UTF-8 name holding at least one
/// managed file.
pub open spec fn entry_backup(e: BackupDirEntry) -> Option<SBackupInfo> {
    let files = present_names(e.has_engine_ini, e.has_game_ini, e.has_scalability_ini);
    if !e.is_dir {
        None
    } else {
        match e.name {
            None => None,
            Some(n) => if files.len() == 0 {
                None
            } else {
                Some(SBackupInfo { id: n@, path: e.path@, files, modified_unix_seconds: e.modified_unix_seconds })
            },
        }
    }
}

pub open spec fn entry_backups(es: Seq<BackupDirEntry>) -> Seq<SBackupInfo>
    decreases es.len(),
{
    if es.len() == 0 {
        seq![]
    } else {
        let r = entry_backups(es.drop_last());
        match entry_backup(es.last()) {
            Some(b) => r.push(b),
            None => r,
        }
    }
}

/// `a` is listed before `b`: it is newer, or as new with a greater id.
pub open spec fn backup_before(a: SBackupInfo, b: SBackupInfo) -> bool {
    a.modified_unix_seconds > b.modified_unix_seconds || (a.modified_unix_seconds == b.modified_unix_seconds
        && !text_le(a.id, b.id))
}

pub open spec fn backup_after(sorted: Seq<SBackupInfo>, x: SBackupInfo) -> spec_fn(int) -> bool {
    |i: int| backup_before(x, sorted[i])
}

/// `x` put into `sorted` before the first entry it is listed before.
pub open spec fn insert_backup(sorted: Seq<SBackupInfo>, x: SBackupInfo) -> Seq<SBackupInfo> {
    let p = match first_where(sorted.len() as int, backup_after(sorted, x)) {
        Some(i) => i,
        None => sorted.len() as int,
    };
    sorted.take(p).push(x) + sorted.skip(p)
}

/// Newest first, then by id from greatest to least; equal entries keep
/// their order (the stable sort that `sort_by` gives).
pub open spec fn sort_backups(s: Seq<SBackupInfo>) -> Seq<SBackupInfo>
    decreases s.len(),
{
    if s.len() == 0 {
        s
    } else {
        insert_backup(sort_backups(s.drop_last()), s.last())
    }
}

fn clone_backup(b: &BackupInfo) -> (r: BackupInfo)
    ensures
        r@ == b@,
{
    let mut files: Vec<String> = Vec::new();
    let mut i: usize = 0;
    while i < b.files.len()
        invariant
            i <= b.files.len(),
            names_view(files@) =~= names_view(b.files@).take(i as int),
        decreases b.files.len() - i,
    {
        let f = b.files[i].clone();
        let ghost before = files@;
        files.push(f);
        assert(names_view(files@) =~= names_view(before).push(f@));
        assert(names_view(b.files@).take(i + 1) =~= names_view(b.files@).take(i as int).push(b.files@[i as int]@));
        i += 1;
    }
    assert(names_view(b.files@).take(b.files.len() as int) =~= names_view(b.files@));
    BackupInfo { id: b.id.clone(), path: b.path.clone(), files, modified_unix_seconds: b.modified_unix_seconds }
}

fn backup_before_exec(a: &BackupInfo, b: &BackupInfo) -> (r: bool)
    ensures
        r == backup_before(a@, b@),
{
    a.modified_unix_seconds > b.modified_unix_seconds || (a.modified_unix_seconds == b.modified_unix_seconds
        && !text_le_exec(&a.id, &b.id))
}

fn first_backup_after(sorted: &Vec<BackupInfo>, x: &BackupInfo) -> (r: usize)
    ensures
        r <= sorted.len(),
        match first_where(sorted@.len() as int, backup_after(backups_view(sorted@), x@)) {
            Some(i) => r == i,
            None => r == sorted.len(),
        },
{
    let ghost sv = backups_view(sorted@);
    let mut p: usize = 0;
    while p < sorted.len()
        invariant
            p <= sorted.len(),
            sv == backups_view(sorted@),
            forall|j: int| 0 <= j < p ==> !#[trigger] backup_after(sv, x@)(j),
        decreases sorted.len() - p,
    {
        if backup_before_exec(x, &sorted[p]) {
            proof {
                lemma_first_where_some(sv.len() as int, backup_after(sv, x@), p as int);
            }
            return p;
        }
        p += 1;
    }
    proof {
        lemma_first_where_none(sv.len() as int, backup_after(sv, x@));
    }
    sorted.len()
}

fn insert_backup_vec(sorted: &Vec<BackupInfo>, x: BackupInfo) -> (r: Vec<BackupInfo>)
    ensures
        backups_view(r@) == insert_backup(backups_view(sorted@), x@),
{
    let ghost sv = backups_view(sorted@);
    let p = first_backup_after(sorted, &x);
    let mut out: Vec<BackupInfo> = Vec::new();
    let mut i: usize = 0;
    while i < p
        invariant
            i <= p <= sorted.len(),
            sv == backups_view(sorted@),
            backups_view(out@) =~= sv.take(i as int),
        decreases p - i,
    {
        let b = clone_backup(&sorted[i]);
        let ghost before = out@;
        out.push(b);
        assert(backups_view(out@) =~= backups_view(before).push(b@));
        assert(sv.take(i + 1) =~= sv.take(i as int).push(sv[i as int]));
        i += 1;
    }
    let ghost xv = x@;
    let ghost before = out@;
    out.push(x);
    assert(backups_view(out@) =~= backups_view(before).push(xv));
    let ghost mid = backups_view(out@);
    let mut j: usize = p;
    while j < sorted.len()
        invariant
            p <= j <= sorted.len(),
            sv == backups_view(sorted@),
            backups_view(out@) =~= mid + sv.subrange(p as int, j as int),
        decreases sorted.len() - j,
    {
        let b = clone_backup(&sorted[j]);
        let ghost before = out@;
        out.push(b);
        assert(backups_view(out@) =~= backups_view(before).push(b@));
        assert(mid + sv.subrange(p as int, j + 1) =~= (mid + sv.subrange(p as int, j as int)).push(sv[j as int]));
        j += 1;
    }
    assert(sv.subrange(p as int, sorted.len() as int) =~= sv.skip(p as int));
    out
}

/// The backups among the entries of the backups folder, newest first.
pub fn list_backups(entries: &Vec<BackupDirEntry>) -> (r: Vec<BackupInfo>)
    ensures
        backups_view(r@) == sort_backups(entry_backups(entries@)),
{
    let mut out: Vec<BackupInfo> = Vec::new();
    let mut i: usize = 0;
    assert(entries@.take(0) =~= Seq::<BackupDirEntry>::empty());
    assert(backups_view(out@) =~= Seq::<SBackupInfo>::empty());
    while i < entries.len()
        invariant
            i <= entries.len(),
            backups_view(out@) == sort_backups(entry_backups(entries@.take(i as int))),
        decreases entries.len() - i,
    {
        proof {
            assert(entries@.take(i + 1).drop_last() =~= entries@.take(i as int));
            assert(entries@.take(i + 1).last() == entries@[i as int]);
        }
        let e = &entries[i];
        if e.is_dir {
            match &e.name {
                Some(n) => {
                    let files = present_file_names(e.has_engine_ini, e.has_game_ini, e.has_scalability_ini);
                    if files.len() > 0 {
                        let b = BackupInfo { id: n.clone(), path: e.path.clone(), files, modified_unix_seconds: e.modified_unix_seconds };
                        assert(entry_backup(entries@[i as int]) == Some(b@));
                        assert(entry_backups(entries@.take(i + 1)) == entry_backups(entries@.take(i as int)).push(b@));
                        assert(entry_backups(entries@.take(i + 1)).drop_last() =~= entry_backups(entries@.take(i as int)));
                        out = insert_backup_vec(&out, b);
                    } else {
                        assert(entry_backup(entries@[i as int]) is None);
                    }
                },
                None => {
                    assert(entry_backup(entries@[i as int]) is None);
                },
            }
        } else {
            assert(entry_backup(entries@[i as int]) is None);
        }
        i += 1;
    }
    assert(entries@.take(entries.len() as int) =~= entries@);
    out
}

/// Each backup is listed before every later one, or as new with an id no
/// smaller: newest first.
pub open spec fn backups_in_order(s: Seq<SBackupInfo>) -> bool {
    forall|i: int, j: int| 0 <= i < j < s.len() ==> !backup_before(#[trigger] s[j], #[trigger] s[i])
}

proof fn lemma_backup_order_total(a: SBackupInfo, b: SBackupInfo)
    ensures
        !backup_before(a, b) || !backup_before(b, a),
{
    if a.modified_unix_seconds == b.modified_unix_seconds {
        crate::manifest::lemma_text_le_total(a.id, b.id);
    }
}

proof fn lemma_backup_order_transitive(a: SBackupInfo, b: SBackupInfo, c: SBackupInfo)
    requires
        !backup_before(a, b),
        !backup_before(b, c),
    ensures
        !backup_before(a, c),
{
    if a.modified_unix_seconds == b.modified_unix_seconds && b.modified_unix_seconds == c.modified_unix_seconds {
        crate::manifest::lemma_text_le_transitive(a.id, b.id, c.id);
    }
}

proof fn lemma_insert_backup(sorted: Seq<SBackupInfo>, x: SBackupInfo)
    requires
        backups_in_order(sorted),
    ensures
        backups_in_order(insert_backup(sorted, x)),
        insert_backup(sorted, x).len() == sorted.len() + 1,
        insert_backup(sorted, x).contains(x),
        forall|i: int| 0 <= i < sorted.len() ==> insert_backup(sorted, x).contains(#[trigger] sorted[i]),
{
    let pr = backup_after(sorted, x);
    lemma_first_where_facts(sorted.len() as int, pr);
    let p = match first_where(sorted.len() as int, pr) {
        Some(i) => i,
        None => sorted.len() as int,
    };
    let r = insert_backup(sorted, x);
    assert(r.len() == sorted.len() + 1);
    assert forall|i: int| 0 <= i < p implies !backup_before(x, #[trigger] sorted[i]) by {
        assert(!pr(i));
    }
    assert forall|i: int| p <= i < sorted.len() implies !backup_before(#[trigger] sorted[i], x) by {
        assert(pr(p));
        lemma_backup_order_total(sorted[p], x);
        if i > p {
            assert(!backup_before(sorted[i], sorted[p]));
            lemma_backup_order_transitive(sorted[i], sorted[p], x);
        }
    }
    assert forall|i: int, j: int| 0 <= i < j < r.len() implies !backup_before(#[trigger] r[j], #[trigger] r[i]) by {
        if j < p {
            assert(r[i] == sorted[i] && r[j] == sorted[j]);
        } else if j == p {
            assert(r[i] == sorted[i] && r[j] == x);
        } else if i < p {
            assert(r[i] == sorted[i] && r[j] == sorted[j - 1]);
        } else if i == p {
            assert(r[i] == x && r[j] == sorted[j - 1]);
        } else {
            assert(r[i] == sorted[i - 1] && r[j] == sorted[j - 1]);
        }
    }
    assert(r[p] == x);
    assert forall|i: int| 0 <= i < sorted.len() implies r.contains(#[trigger] sorted[i]) by {
        if i < p {
            assert(r[i] == sorted[i]);
        } else {
            assert(r[i + 1] == sorted[i]);
        }
    }
}

/// Backups are listed newest first, ties by id from greatest to least;
/// every backup found is listed, and nothing else.
pub proof fn lemma_list_backups_in_order(s: Seq<SBackupInfo>)
    ensures
        backups_in_order(sort_backups(s)),
        sort_backups(s).len() == s.len(),
        forall|i: int| 0 <= i < s.len() ==> sort_backups(s).contains(#[trigger] s[i]),
    decreases s.len(),
{
    if s.len() > 0 {
        let init = s.drop_last();
        lemma_list_backups_in_order(init);
        lemma_insert_backup(sort_backups(init), s.last());
        let r = sort_backups(s);
        assert forall|i: int| 0 <= i < s.len() implies r.contains(#[trigger] s[i]) by {
            if i < s.len() - 1 {
                assert(s[i] == init[i]);
                let j = choose|j: int| 0 <= j < sort_backups(init).len() && sort_backups(init)[j] == init[i];
                assert(r.contains(sort_backups(init)[j]));
            }
        }
    }
}

/// What a restore did.
#[derive(Debug, Clone, PartialEq, Eq)]
pub struct RestoreReport {
    pub backup_id: String,
    pub target_dir: String,
    pub restored_files: Vec<String>,
}

/// What a reset did.
#[derive(Debug, Clone, PartialEq, Eq)]
pub struct ResetReport {
    pub target_dir: String,
    pub backup_dir: Option<String>,
    pub removed_files: Vec<String>,
}

/// How removing one managed file during a reset went.
pub enum RemoveOutcome {
    /// There was no file at that path; nothing was tried.
    NotAFile,
    Removed,
    /// The file was gone by the time it was removed.
    AlreadyGone,
    /// Another error; the text describes it.
    Failed(String),
}

pub open spec fn remove_action() -> Seq<char> {
    "remove managed config file"@
}

/// One file of a reset: the files removed so far, with this one added when
/// it was removed; skipped when it was not there; the error when removing
/// it failed, which ends the reset.
pub fn reset_step(removed: Vec<String>, file_name: &str, path: &str, outcome: RemoveOutcome) -> (r: CoreResult<Vec<String>>)
    ensures
        match outcome {
            RemoveOutcome::Removed => r matches Ok(v) && names_view(v@) == names_view(removed@).push(file_name@),
            RemoveOutcome::NotAFile => r matches Ok(v) && names_view(v@) == names_view(removed@),
            RemoveOutcome::AlreadyGone => r matches Ok(v) && names_view(v@) == names_view(removed@),
            RemoveOutcome::Failed(m) => r matches Err(e) && e.message@ == io_message(remove_action(), path@, m@),
        },
{
    match outcome {
        RemoveOutcome::Removed => {
            let mut v = removed;
            v.push(owned(file_name));
            proof {
                assert(names_view(v@) =~= names_view(removed@).push(file_name@));
            }
            Ok(v)
        },
        RemoveOutcome::NotAFile => Ok(removed),
        RemoveOutcome::AlreadyGone => Ok(removed),
        RemoveOutcome::Failed(m) => Err(CoreError::io("remove managed config file", path, m.as_str())),
    }
}

pub open spec fn missing_backup_message(id: Seq<char>) -> Seq<char> {
    "backup '"@ + id + "' does not exist"@
}

pub open spec fn empty_backup_message(id: Seq<char>) -> Seq<char> {
    "backup '"@ + id + "' contains no managed files"@
}

/// The files a restore copies back: an invalid id and a backup that is not
/// a folder are errors; otherwise the managed files the backup holds.
pub open spec fn restore_files_result(id: Seq<char>, backup_is_dir: bool, engine: bool, game: bool, scalability: bool) -> Result<Seq<Seq<char>>, Seq<char>> {
    if !backup_id_valid(id) {
        Err(invalid_backup_id_message())
    } else if !backup_is_dir {
        Err(missing_backup_message(id))
    } else {
        Ok(present_names(engine, game, scalability))
    }
}

pub fn restore_files(backup_id: &str, backup_is_dir: bool, has_engine_ini: bool, has_game_ini: bool, has_scalability_ini: bool) -> (r: CoreResult<Vec<String>>)
    ensures
        match r {
            Ok(fs) => restore_files_result(backup_id@, backup_is_dir, has_engine_ini, has_game_ini, has_scalability_ini) == Ok::<Seq<Seq<char>>, Seq<char>>(names_view(fs@)),
            Err(e) => restore_files_result(backup_id@, backup_is_dir, has_engine_ini, has_game_ini, has_scalability_ini) == Err::<Seq<Seq<char>>, Seq<char>>(e.message@),
        },
{
    match validate_backup_id(backup_id) {
        Err(e) => return Err(e),
        Ok(()) => {},
    }
    if !backup_is_dir {
        let mut m = chars_of("backup '");
        append_all(&mut m, &chars_of(backup_id));
        append_all(&mut m, &chars_of("' does not exist"));
        return Err(CoreError::new(string_of(&m)));
    }
    Ok(present_file_names(has_engine_ini, has_game_ini, has_scalability_ini))
}

/// The report of a restore that copied `restored_files` back, or the error
/// when it copied none.
pub fn restore_report(backup_id: &str, target_dir: &str, restored_files: Vec<String>) -> (r: CoreResult<RestoreReport>)
    ensures
        match r {
            Ok(rep) => restored_files.len() > 0 && rep.backup_id@ == backup_id@ && rep.target_dir@ == target_dir@
                && rep.restored_files@ == restored_files@,
            Err(e) => restored_files.len() == 0 && e.message@ == empty_backup_message(backup_id@),
        },
{
    if restored_files.len() == 0 {
        let mut m = chars_of("backup '");
        append_all(&mut m, &chars_of(backup_id));
        append_all(&mut m, &chars_of("' contains no managed files"));
        return Err(CoreError::new(string_of(&m)));
    }
    Ok(RestoreReport { backup_id: owned(backup_id), target_dir: owned(target_dir), restored_files })
}

// ---------------------------------------------------------------------------
// How previews, installs and copies relate.

/// The names of the previewed files that the install backs up, in order.
pub open spec fn previewed_backups(ps: Seq<SFilePreview>) -> Seq<Seq<char>>
    decreases ps.len(),
{
    if ps.len() == 0 {
        seq![]
    } else {
        let r = previewed_backups(ps.drop_last());
        if ps.last().will_backup {
            r.push(ps.last().file_name)
        } else {
            r
        }
    }
}

proof fn lemma_backups_match_previews(fs: Seq<SPlannedFile>, t: STargetDir)
    ensures
        backup_names(fs, t) == previewed_backups(previews_of(fs, t)),
    decreases fs.len(),
{
    if fs.len() > 0 {
        lemma_backups_match_previews(fs.drop_last(), t);
        assert(previews_of(fs, t).drop_last() =~= previews_of(fs.drop_last(), t));
    }
}

/// A preview lists exactly the files that an install with the same choices
/// writes, in the same order and with the same read-only flags; the files
/// it says it will back up are those the install backs up; and when one of
/// them fails, both fail with the same error.
pub proof fn lemma_preview_matches_install(
    ss: Seq<SPresetSource>,
    id: Seq<char>,
    t: STargetDir,
    o: InstallOptions,
    strategy: InstallStrategy,
)
    ensures
        preview_result(ss, id, t, o) is Ok <==> install_plan(ss, id, t, o, strategy) is Ok,
        preview_result(ss, id, t, o) matches Err(m) ==> install_plan(ss, id, t, o, strategy) == Err::<SInstallPlan, Seq<char>>(m),
        preview_result(ss, id, t, o) matches Ok(ps) ==> ({
            let plan = install_plan(ss, id, t, o, strategy)->Ok_0;
            &&& plan.preset_id == id
            &&& ps.len() == plan.writes.len()
            &&& forall|i: int|
                0 <= i < ps.len() ==> #[trigger] ps[i].file_name == plan.writes[i].file_name
                    && ps[i].will_set_read_only == plan.writes[i].read_only
            &&& plan.backup_files == previewed_backups(ps)
        }),
{
    match selected_texts(ss, id, o) {
        Err(m) => {},
        Ok((engine, scalability)) => match planned_for_target(engine, scalability, o, t) {
            Err(m) => {},
            Ok(fs) => {
                lemma_backups_match_previews(fs, t);
            },
        },
    }
}

/// No file of the folder can be found.
pub open spec fn nothing_installed(t: STargetDir) -> bool {
    &&& t.engine.read is NotFound
    &&& t.scalability.read is NotFound
    &&& t.game.read is NotFound
}

proof fn lemma_add_inactive_none(files: Seq<SPlannedFile>, managed: Seq<SPlannedFile>, t: STargetDir)
    requires
        nothing_installed(t),
    ensures
        add_inactive_files(files, managed, t) == Ok::<Seq<SPlannedFile>, Seq<char>>(files),
    decreases managed.len(),
{
    if managed.len() > 0 {
        lemma_add_inactive_none(files, managed.drop_last(), t);
    }
}

/// Into a folder where no managed file can be found, an install that
/// replaces writes, in order, exactly the files and texts that the copy
/// function hands out for the same choices; a merge writes the same. When
/// one fails, all fail with the same error. Where none of the files is
/// there, no backup is planned.
pub proof fn lemma_copy_matches_install(
    ss: Seq<SPresetSource>,
    id: Seq<char>,
    t: STargetDir,
    o: InstallOptions,
    strategy: InstallStrategy,
)
    requires
        nothing_installed(t),
    ensures
        match ini_contents_result(ss, id, o) {
            Err(m) => install_plan(ss, id, t, o, strategy) == Err::<SInstallPlan, Seq<char>>(m),
            Ok(cs) => install_plan(ss, id, t, o, strategy) is Ok && ({
                let plan = install_plan(ss, id, t, o, strategy)->Ok_0;
                &&& plan.preset_id == id
                &&& (!t.engine.is_file && !t.scalability.is_file && !t.game.is_file) ==> plan.backup_files.len() == 0
                &&& plan.writes.len() == cs.len()
                &&& forall|i: int|
                    0 <= i < cs.len() ==> (#[trigger] plan.writes[i]).file_name == cs[i].0
                        && plan.writes[i].content == Ok::<Seq<char>, Seq<char>>(cs[i].1)
            }),
        },
{
    match selected_texts(ss, id, o) {
        Err(m) => {},
        Ok((engine, scalability)) => {
            let fs = planned_files(engine, scalability, o);
            lemma_add_inactive_none(fs, managed_files(engine, scalability, o), t);
            let cs = fs.map_values(|f: SPlannedFile| (config_file_name(f.file), f.content));
            let plan = install_plan(ss, id, t, o, strategy)->Ok_0;
            if !t.engine.is_file && !t.scalability.is_file && !t.game.is_file {
                lemma_no_backup_names(fs, t);
            }
            assert forall|i: int| 0 <= i < cs.len() implies (#[trigger] plan.writes[i]).file_name == cs[i].0
                && plan.writes[i].content == Ok::<Seq<char>, Seq<char>>(cs[i].1) by {
                let f = fs[i];
                assert(plan.writes[i] == planned_write(f, t, strategy));
                match f.file {
                    ConfigFile::Engine => assert(target_file(t, f.file) == t.engine),
                    ConfigFile::Scalability => assert(target_file(t, f.file) == t.scalability),
                    ConfigFile::Game => assert(target_file(t, f.file) == t.game),
                }
            }
        },
    }
}

/// `a` is `b` with some elements left out, the rest in order.
pub open spec fn is_subsequence_of(a: Seq<Seq<char>>, b: Seq<Seq<char>>) -> bool {
    exists|idx: Seq<int>|
        idx.len() == a.len() && (forall|i: int| 0 <= i < a.len() ==> 0 <= #[trigger] idx[i] < b.len() && a[i] == b[idx[i]])
            && (forall|i: int, j: int| 0 <= i < j < a.len() ==> #[trigger] idx[i] < #[trigger] idx[j])
}

pub open spec fn managed_file_order() -> Seq<Seq<char>> {
    seq!["Engine.ini"@, "Scalability.ini"@, "Game.ini"@]
}

pub open spec fn content_names(cs: Seq<(Seq<char>, Seq<char>)>) -> Seq<Seq<char>> {
    cs.map_values(|c: (Seq<char>, Seq<char>)| c.0)
}

pub open spec fn index_if(f: SPlannedFile, k: int) -> Seq<int> {
    if crate::text::is_blank(f.content) {
        seq![]
    } else {
        seq![k]
    }
}

/// Names in order, texts non-blank, Game.ini exactly when intro videos are skipped.
pub open spec fn copy_contents_shaped(cs: Seq<(Seq<char>, Seq<char>)>, o: InstallOptions) -> bool {
    &&& is_subsequence_of(content_names(cs), managed_file_order())
    &&& forall|i: int| 0 <= i < cs.len() ==> !crate::text::is_blank(#[trigger] cs[i].1)
    &&& (exists|i: int| 0 <= i < cs.len() && #[trigger] cs[i].0 == "Game.ini"@) <==> o.apply_skip_intro_videos
}

/// The texts for copying: their names are Engine.ini, Scalability.ini and
/// Game.ini, some left out, in that order; every text is non-blank; and
/// Game.ini is among them exactly when intro videos are skipped.
#[verifier::spinoff_prover]
pub proof fn lemma_copy_contents_facts(ss: Seq<SPresetSource>, id: Seq<char>, o: InstallOptions)
    ensures
        match ini_contents_result(ss, id, o) {
            Ok(cs) => copy_contents_shaped(cs, o),
            Err(_) => true,
        },
{
    match selected_texts(ss, id, o) {
        Err(_) => {},
        Ok((engine, scalability)) => {
            reveal_strlit("Engine.ini");
            reveal_strlit("Scalability.ini");
            reveal_strlit("Game.ini");
            crate::content::lemma_planned_files_shape(engine, scalability, o);
            crate::content::lemma_managed_files_facts(engine, scalability, o);
            crate::content::lemma_skip_intro_block_not_blank();
            let m = managed_files(engine, scalability, o);
            let fs = planned_files(engine, scalability, o);
            let cs = fs.map_values(|f: SPlannedFile| (config_file_name(f.file), f.content));
            assert(ini_contents_result(ss, id, o) == Ok::<Seq<(Seq<char>, Seq<char>)>, Seq<char>>(cs));
            let names = content_names(cs);
            let idx = index_if(m[0], 0) + index_if(m[1], 1) + index_if(m[2], 2);
            assert(idx.len() == names.len());
            assert forall|i: int| 0 <= i < names.len() implies 0 <= #[trigger] idx[i] < managed_file_order().len()
                && names[i] == managed_file_order()[idx[i]] by {
                assert(names[i] == config_file_name(fs[i].file));
                let a = if_content(m[0]);
                let b = if_content(m[1]);
                if i < a.len() {
                    assert(fs[i] == m[0]);
                    assert(idx[i] == 0);
                } else if i < a.len() + b.len() {
                    assert(fs[i] == m[1]);
                    assert(idx[i] == 1);
                } else {
                    assert(fs[i] == m[2]);
                    assert(idx[i] == 2);
                }
            }
            assert forall|i: int, j: int| 0 <= i < j < names.len() implies #[trigger] idx[i] < #[trigger] idx[j] by {
                let a = index_if(m[0], 0);
                let b = index_if(m[1], 1);
                if i < a.len() {
                    assert(idx[i] == 0);
                } else if i < a.len() + b.len() {
                    assert(idx[i] == 1);
                }
                if j < a.len() {
                    assert(idx[j] == 0);
                } else if j < a.len() + b.len() {
                    assert(idx[j] == 1);
                } else {
                    assert(idx[j] == 2);
                }
            }
            assert(is_subsequence_of(names, managed_file_order()));
            assert forall|i: int| 0 <= i < cs.len() implies !crate::text::is_blank(#[trigger] cs[i].1) by {
                let a = if_content(m[0]);
                let b = if_content(m[1]);
                if i < a.len() {
                    assert(fs[i] == m[0]);
                } else if i < a.len() + b.len() {
                    assert(fs[i] == m[1]);
                } else {
                    assert(fs[i] == m[2]);
                }
            }
            if o.apply_skip_intro_videos {
                let k = fs.len() - 1;
                assert(fs[k] == m[2]);
                assert(cs[k].0 == "Game.ini"@);
                assert(exists|i: int| 0 <= i < cs.len() && #[trigger] cs[i].0 == "Game.ini"@);
            } else {
                assert(crate::text::is_blank(m[2].content)) by {
                    assert(m[2].content =~= Seq::<char>::empty());
                }
                assert forall|i: int| 0 <= i < cs.len() implies #[trigger] cs[i].0 != "Game.ini"@ by {
                    assert(cs[i].0 == config_file_name(fs[i].file));
                    let a = if_content(m[0]);
                    if i < a.len() {
                        assert(fs[i] == m[0]);
                    } else {
                        assert(fs[i] == m[1]);
                    }
                }
                assert(!(exists|i: int| 0 <= i < cs.len() && #[trigger] cs[i].0 == "Game.ini"@));
            }
            assert(copy_contents_shaped(cs, o));
        },
    }
}

/// The texts for copying do not depend on the three lock options.
#[verifier::spinoff_prover]
pub proof fn lemma_copy_ignores_locks(ss: Seq<SPresetSource>, id: Seq<char>, o: InstallOptions, o2: InstallOptions)
    requires
        o2.custom_pool_mb == o.custom_pool_mb,
        o2.apply_streaming_fixes == o.apply_streaming_fixes,
        o2.apply_balanced_performance_tweaks == o.apply_balanced_performance_tweaks,
        o2.apply_disable_volumetric_fog == o.apply_disable_volumetric_fog,
        o2.apply_low_volumetric_fog == o.apply_low_volumetric_fog,
        o2.apply_skip_intro_videos == o.apply_skip_intro_videos,
        o2.apply_d3d12_pso_cache == o.apply_d3d12_pso_cache,
        o2.apply_runtime_pso_precaching == o.apply_runtime_pso_precaching,
        o2.apply_gc_smoothing == o.apply_gc_smoothing,
    ensures
        ini_contents_result(ss, id, o) == ini_contents_result(ss, id, o2),
{
    assert(options_valid(o) == options_valid(o2));
    assert(selected_texts(ss, id, o) == selected_texts(ss, id, o2));
    match selected_texts(ss, id, o) {
        Err(_) => {},
        Ok((engine, scalability)) => {
            crate::content::lemma_planned_files_shape(engine, scalability, o);
            crate::content::lemma_planned_files_shape(engine, scalability, o2);
            crate::content::lemma_contents_ignore_locks(engine, scalability, o, o2);
            let f1 = planned_files(engine, scalability, o);
            let f2 = planned_files(engine, scalability, o2);
            assert(f1.len() == f2.len());
            assert(forall|i: int| 0 <= i < f1.len() ==> #[trigger] f1[i].file == f2[i].file && f1[i].content == f2[i].content) by {
                let m = managed_files(engine, scalability, o);
                let m2 = managed_files(engine, scalability, o2);
                assert forall|i: int| 0 <= i < f1.len() implies #[trigger] f1[i].file == f2[i].file && f1[i].content == f2[i].content by {
                    let a = if_content(m[0]);
                    let b = if_content(m[1]);
                    if i < a.len() {
                        assert(f1[i] == m[0] && f2[i] == m2[0]);
                    } else if i < a.len() + b.len() {
                        assert(f1[i] == m[1] && f2[i] == m2[1]);
                    } else {
                        assert(f1[i] == m[2] && f2[i] == m2[2]);
                    }
                }
            }
            let c1 = f1.map_values(|f: SPlannedFile| (config_file_name(f.file), f.content));
            let c2 = f2.map_values(|f: SPlannedFile| (config_file_name(f.file), f.content));
            assert(c1 =~= c2);
        },
    }
}

proof fn lemma_no_backup_names(fs: Seq<SPlannedFile>, t: STargetDir)
    requires
        !t.engine.is_file,
        !t.scalability.is_file,
        !t.game.is_file,
    ensures
        backup_names(fs, t) == Seq::<Seq<char>>::empty(),
    decreases fs.len(),
{
    if fs.len() > 0 {
        lemma_no_backup_names(fs.drop_last(), t);
        match fs.last().file {
            ConfigFile::Engine => assert(target_file(t, fs.last().file) == t.engine),
            ConfigFile::Scalability => assert(target_file(t, fs.last().file) == t.scalability),
            ConfigFile::Game => assert(target_file(t, fs.last().file) == t.game),
        }
    }
}


/// A restore: an invalid id is refused first, then a backup folder that is
/// not there; otherwise the files restored are exactly the managed files
/// the backup holds, each once, in the order Engine.ini, Game.ini,
/// Scalability.ini.
pub proof fn lemma_restore_files_facts(id: Seq<char>, backup_is_dir: bool, engine: bool, game: bool, scalability: bool)
    ensures
        !backup_id_valid(id) ==> restore_files_result(id, backup_is_dir, engine, game, scalability) == Err::<Seq<Seq<char>>, Seq<char>>(
            invalid_backup_id_message(),
        ),
        backup_id_valid(id) && !backup_is_dir ==> restore_files_result(id, backup_is_dir, engine, game, scalability) == Err::<
            Seq<Seq<char>>,
            Seq<char>,
        >(missing_backup_message(id)),
        backup_id_valid(id) && backup_is_dir ==> restore_files_result(id, backup_is_dir, engine, game, scalability) is Ok,
        restore_files_result(id, backup_is_dir, engine, game, scalability) matches Ok(fs) ==> {
            &&& fs.contains("Engine.ini"@) <==> engine
            &&& fs.contains("Game.ini"@) <==> game
            &&& fs.contains("Scalability.ini"@) <==> scalability
            &&& fs.len() == (if engine { 1int } else { 0int }) + (if game { 1int } else { 0int }) + (if scalability { 1int } else { 0int })
            &&& forall|i: int, j: int|
                0 <= i < j < fs.len() ==> managed_rank(#[trigger] fs[i]) < managed_rank(#[trigger] fs[j])
        },
{
    reveal_strlit("Engine.ini");
    reveal_strlit("Game.ini");
    reveal_strlit("Scalability.ini");
    let e = "Engine.ini"@;
    let g = "Game.ini"@;
    let sc = "Scalability.ini"@;
    assert(e != g && e != sc && g != sc) by {
        assert(e.len() != g.len());
        assert(e[0] != sc[0]);
        assert(g[0] != sc[0]);
    }
    assert(managed_rank(e) == 0 && managed_rank(g) == 1 && managed_rank(sc) == 2);
    let fs = present_names(engine, game, scalability);
    let a: Seq<Seq<char>> = if engine { seq![e] } else { seq![] };
    let b: Seq<Seq<char>> = if game { a.push(g) } else { a };
    assert(fs == if scalability { b.push(sc) } else { b });
    assert forall|i: int| 0 <= i < fs.len() implies (#[trigger] fs[i] == e ==> engine) && (fs[i] == g ==> game) && (fs[i]
        == sc ==> scalability) && managed_rank(fs[i]) == (if i < a.len() {
        0int
    } else if i < b.len() {
        1int
    } else {
        2int
    }) by {
        if i < a.len() {
            assert(fs[i] == a[i] && a[i] == e);
        } else if i < b.len() {
            assert(fs[i] == b[i] && b[i] == g);
        } else {
            assert(fs[i] == sc);
        }
    }
    if engine {
        assert(fs[0] == e);
    }
    if game {
        assert(fs[a.len() as int] == g);
    }
    if scalability {
        assert(fs[b.len() as int] == sc);
    }
    assert forall|i: int, j: int| 0 <= i < j < fs.len() implies managed_rank(#[trigger] fs[i]) < managed_rank(#[trigger] fs[j]) by {
        if i < a.len() && j < a.len() {
            assert(a.len() <= 1);
        }
        if a.len() <= i < b.len() && a.len() <= j < b.len() {
            assert(b.len() <= a.len() + 1);
        }
        if b.len() <= i {
            assert(fs.len() <= b.len() + 1);
        }
    }
}

/// The place of a managed file in the order Engine.ini, Game.ini,
/// Scalability.ini (3 for any other name).
pub open spec fn managed_rank(name: Seq<char>) -> int {
    if name == "Engine.ini"@ {
        0
    } else if name == "Game.ini"@ {
        1
    } else if name == "Scalability.ini"@ {
        2
    } else {
        3
    }
}

} // verus!
