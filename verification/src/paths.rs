//! Where the game keeps its config folder and how it can be launched: Steam
//! library files parsed, and the candidates that the probes found ordered
//! and freed of duplicates.
use vstd::prelude::*;
use crate::presets::{find_sub, find_sub_vec};
use crate::seq_util::{filter_by, filter_prefix, lemma_filter_by_contains};
use crate::text::{append_all, chars_of, lines, lines_of, owned, seqs, str_vec, string_of, trim, trim_vec};

verus! {

pub const GOTHIC_1_REMAKE_STEAM_APP_ID: &'static str = "1297900";

pub const GOTHIC_1_REMAKE_STEAM_URI: &'static str = "steam://rungameid/1297900";

/// A folder where the game's config may live.
#[derive(Debug, Clone, PartialEq, Eq)]
pub struct ConfigCandidate {
    pub label: String,
    pub path: String,
    pub exists: bool,
    pub source: String,
}

pub struct SConfigCandidate {
    pub label: Seq<char>,
    pub path: Seq<char>,
    pub exists: bool,
    pub source: Seq<char>,
}

impl View for ConfigCandidate {
    type V = SConfigCandidate;

    open spec fn view(&self) -> SConfigCandidate {
        SConfigCandidate { label: self.label@, path: self.path@, exists: self.exists, source: self.source@ }
    }
}

pub open spec fn configs_view(v: Seq<ConfigCandidate>) -> Seq<SConfigCandidate> {
    v.map_values(|c: ConfigCandidate| c@)
}

#[derive(Debug, Clone, Copy, PartialEq, Eq, Structural)]
pub enum LaunchCandidateKind {
    Steam,
    Executable,
}

/// A way to start the game.
#[derive(Debug, Clone, PartialEq, Eq)]
pub struct LaunchCandidate {
    pub id: String,
    pub kind: LaunchCandidateKind,
    pub label: String,
    pub path: String,
    pub exists: bool,
    pub source: String,
}

pub struct SLaunchCandidate {
    pub id: Seq<char>,
    pub kind: LaunchCandidateKind,
    pub label: Seq<char>,
    pub path: Seq<char>,
    pub exists: bool,
    pub source: Seq<char>,
}

impl View for LaunchCandidate {
    type V = SLaunchCandidate;

    open spec fn view(&self) -> SLaunchCandidate {
        SLaunchCandidate {
            id: self.id@,
            kind: self.kind,
            label: self.label@,
            path: self.path@,
            exists: self.exists,
            source: self.source@,
        }
    }
}

pub open spec fn launches_view(v: Seq<LaunchCandidate>) -> Seq<SLaunchCandidate> {
    v.map_values(|c: LaunchCandidate| c@)
}

// ---------------------------------------------------------------------------
// Text.

/// The pieces split off so far and the piece still open, after reading `s`.
pub open spec fn split_state(s: Seq<char>, c: char) -> (Seq<Seq<char>>, Seq<char>)
    decreases s.len(),
{
    if s.len() == 0 {
        (seq![], seq![])
    } else {
        let (done, cur) = split_state(s.drop_last(), c);
        if s.last() == c {
            (done.push(cur), seq![])
        } else {
            (done, cur.push(s.last()))
        }
    }
}

/// The pieces of `s` between occurrences of `c` (`str::split` on a char).
pub open spec fn split_char(s: Seq<char>, c: char) -> Seq<Seq<char>> {
    let (done, cur) = split_state(s, c);
    done.push(cur)
}

fn split_char_vec(s: &Vec<char>, c: char) -> (r: Vec<Vec<char>>)
    ensures
        seqs(r@) == split_char(s@, c),
{
    let mut done: Vec<Vec<char>> = Vec::new();
    let mut cur: Vec<char> = Vec::new();
    let mut i: usize = 0;
    while i < s.len()
        invariant
            i <= s.len(),
            split_state(s@.take(i as int), c) == (seqs(done@), cur@),
        decreases s.len() - i,
    {
        proof {
            assert(s@.take(i + 1).drop_last() =~= s@.take(i as int));
        }
        if s[i] == c {
            proof {
                crate::text::lemma_seqs_push(done@, cur);
            }
            done.push(cur);
            cur = Vec::new();
            assert(cur@ =~= Seq::<char>::empty());
        } else {
            cur.push(s[i]);
        }
        i += 1;
    }
    assert(s@.take(s.len() as int) =~= s@);
    proof {
        crate::text::lemma_seqs_push(done@, cur);
    }
    done.push(cur);
    done
}

/// `s` with each `\\` (two backslashes, left to right) made one.
pub open spec fn unescape_backslashes(s: Seq<char>) -> Seq<char>
    decreases s.len(),
{
    if s.len() < 2 {
        s
    } else if s[0] == '\\' && s[1] == '\\' {
        seq!['\\'] + unescape_backslashes(s.skip(2))
    } else {
        seq![s[0]] + unescape_backslashes(s.skip(1))
    }
}

fn unescape_backslashes_vec(s: &Vec<char>) -> (r: Vec<char>)
    ensures
        r@ == unescape_backslashes(s@),
{
    let mut out: Vec<char> = Vec::new();
    let mut i: usize = 0;
    assert(s@.skip(0) =~= s@);
    while i < s.len()
        invariant
            i <= s.len(),
            unescape_backslashes(s@) == out@ + unescape_backslashes(s@.skip(i as int)),
        decreases s.len() - i,
    {
        let ghost rest = s@.skip(i as int);
        if i + 1 < s.len() && s[i] == '\\' && s[i + 1] == '\\' {
            assert(rest.skip(2) =~= s@.skip(i + 2));
            out.push('\\');
            assert(unescape_backslashes(s@) =~= out@ + unescape_backslashes(s@.skip(i + 2)));
            i += 2;
        } else {
            if i + 1 < s.len() {
                assert(rest.skip(1) =~= s@.skip(i + 1));
            } else {
                assert(rest =~= seq![s@[i as int]]);
                assert(s@.skip(i + 1) =~= Seq::<char>::empty());
            }
            out.push(s[i]);
            assert(unescape_backslashes(s@) =~= out@ + unescape_backslashes(s@.skip(i + 1)));
            i += 1;
        }
    }
    assert(s@.skip(i as int) =~= Seq::<char>::empty());
    assert(out@ + Seq::<char>::empty() =~= out@);
    out
}

/// The value of a `"<key>" "<value>"` line of a Steam file: the line
/// trimmed and split at quotes, its second piece the key; the fourth piece
/// with escaped backslashes made single.
pub open spec fn steam_value(line: Seq<char>, key: Seq<char>) -> Option<Seq<char>> {
    let parts = split_char(trim(line), '"');
    if parts.len() < 4 || parts[1] != key {
        None
    } else {
        Some(unescape_backslashes(parts[3]))
    }
}

fn steam_value_vec(line: &Vec<char>, key: &str) -> (r: Option<Vec<char>>)
    ensures
        match r {
            Some(v) => steam_value(line@, key@) == Some(v@),
            None => steam_value(line@, key@) is None,
        },
{
    let parts = split_char_vec(&trim_vec(line), '"');
    assert(seqs(parts@).len() == parts@.len());
    if parts.len() < 4 {
        return None;
    }
    assert(seqs(parts@)[1] == parts@[1]@ && seqs(parts@)[3] == parts@[3]@);
    if !crate::ini_doc::vec_eq(&parts[1], &chars_of(key)) {
        return None;
    }
    Some(unescape_backslashes_vec(&parts[3]))
}

/// The library path a `libraryfolders.vdf` line names.
pub fn parse_steam_library_path(line: &str) -> (r: Option<String>)
    ensures
        match r {
            Some(v) => steam_value(line@, "path"@) == Some(v@),
            None => steam_value(line@, "path"@) is None,
        },
{
    match steam_value_vec(&chars_of(line), "path") {
        Some(v) => Some(string_of(&v)),
        None => None,
    }
}

/// The install folder an app manifest line names.
pub fn parse_steam_installdir(line: &str) -> (r: Option<String>)
    ensures
        match r {
            Some(v) => steam_value(line@, "installdir"@) == Some(v@),
            None => steam_value(line@, "installdir"@) is None,
        },
{
    match steam_value_vec(&chars_of(line), "installdir") {
        Some(v) => Some(string_of(&v)),
        None => None,
    }
}

/// The values the lines of `ls` hold for `key`, in order.
pub open spec fn steam_values(ls: Seq<Seq<char>>, key: Seq<char>) -> Seq<Seq<char>>
    decreases ls.len(),
{
    if ls.len() == 0 {
        seq![]
    } else {
        let r = steam_values(ls.drop_last(), key);
        match steam_value(ls.last(), key) {
            Some(v) => r.push(v),
            None => r,
        }
    }
}

/// The library paths a `libraryfolders.vdf` text lists.
pub fn library_paths(content: &str) -> (r: Vec<String>)
    ensures
        r@.map_values(|s: String| s@) == steam_values(lines(content@), "path"@),
{
    let ls = lines_of(&chars_of(content));
    let ghost lv = seqs(ls@);
    let mut out: Vec<String> = Vec::new();
    let mut i: usize = 0;
    assert(lv.take(0) =~= Seq::<Seq<char>>::empty());
    assert(out@.map_values(|s: String| s@) =~= Seq::<Seq<char>>::empty());
    while i < ls.len()
        invariant
            i <= ls.len(),
            lv == seqs(ls@),
            lv == lines(content@),
            out@.map_values(|s: String| s@) == steam_values(lv.take(i as int), "path"@),
        decreases ls.len() - i,
    {
        proof {
            assert(lv.take(i + 1).drop_last() =~= lv.take(i as int));
        }
        match steam_value_vec(&ls[i], "path") {
            Some(v) => {
                let s = string_of(&v);
                let ghost before = out@;
                out.push(s);
                assert(out@.map_values(|s: String| s@) =~= before.map_values(|s: String| s@).push(s@));
            },
            None => {},
        }
        i += 1;
    }
    assert(lv.take(ls.len() as int) =~= lv);
    out
}

pub open spec fn default_install_dir() -> Seq<char> {
    "Gothic 1 Remake"@
}

/// The game's folder name under `steamapps/common`: what the app manifest
/// (its text, if it could be read) names first, or `Gothic 1 Remake`; then
/// escaped backslashes made single.
pub open spec fn install_dir_name(manifest: Option<Seq<char>>) -> Seq<char> {
    let named: Option<Seq<char>> = match manifest {
        Some(c) => {
            let vs = steam_values(lines(c), "installdir"@);
            if vs.len() > 0 {
                Some(vs[0])
            } else {
                None
            }
        },
        None => None,
    };
    unescape_backslashes(
        match named {
            Some(n) => n,
            None => default_install_dir(),
        },
    )
}

proof fn lemma_steam_values_append(a: Seq<Seq<char>>, b: Seq<Seq<char>>, key: Seq<char>)
    ensures
        steam_values(a + b, key) == steam_values(a, key) + steam_values(b, key),
    decreases b.len(),
{
    if b.len() == 0 {
        assert(a + b =~= a);
        assert(steam_values(a, key) + steam_values(b, key) =~= steam_values(a, key));
    } else {
        assert((a + b).drop_last() =~= a + b.drop_last());
        assert((a + b).last() == b.last());
        lemma_steam_values_append(a, b.drop_last(), key);
        match steam_value(b.last(), key) {
            Some(v) => {
                assert(steam_values(a, key) + steam_values(b, key) =~= (steam_values(a, key) + steam_values(b.drop_last(), key)).push(v));
            },
            None => {},
        }
    }
}

proof fn lemma_steam_values_first(ls: Seq<Seq<char>>, key: Seq<char>, i: int)
    requires
        0 <= i <= ls.len(),
    ensures
        steam_values(ls, key) == steam_values(ls.take(i), key) + steam_values(ls.skip(i), key),
{
    assert(ls =~= ls.take(i) + ls.skip(i));
    lemma_steam_values_append(ls.take(i), ls.skip(i), key);
}

pub fn steam_install_dir(manifest: Option<&str>) -> (r: String)
    ensures
        r@ == install_dir_name(
            match manifest {
                Some(c) => Some(c@),
                None => None,
            },
        ),
{
    let named: Option<Vec<char>> = match manifest {
        None => None,
        Some(c) => {
            let ls = lines_of(&chars_of(c));
            let ghost lv = seqs(ls@);
            let mut found: Option<Vec<char>> = None;
            let mut i: usize = 0;
            assert(lv.take(0) =~= Seq::<Seq<char>>::empty());
            while i < ls.len() && found.is_none()
                invariant
                    i <= ls.len(),
                    lv == seqs(ls@),
                    lv == lines(c@),
                    found is None ==> steam_values(lv.take(i as int), "installdir"@).len() == 0,
                    found matches Some(v) ==> steam_values(lv.take(i as int), "installdir"@) == seq![v@],
                decreases ls.len() - i,
            {
                proof {
                    assert(lv.take(i + 1).drop_last() =~= lv.take(i as int));
                }
                found = steam_value_vec(&ls[i], "installdir");
                i += 1;
            }
            proof {
                lemma_steam_values_first(lv, "installdir"@, i as int);
                if found is None {
                    assert(lv.take(i as int) =~= lv);
                    assert(lv.skip(i as int) =~= Seq::<Seq<char>>::empty());
                }
            }
            found
        },
    };
    let base = match named {
        Some(n) => n,
        None => chars_of("Gothic 1 Remake"),
    };
    string_of(&unescape_backslashes_vec(&base))
}

// ---------------------------------------------------------------------------
// Telling paths apart.

/// The lower-case form of a text (`str::to_lowercase`, Unicode's mapping).
pub uninterp spec fn lowercase(s: Seq<char>) -> Seq<char>;

#[verifier::external_body]
fn lowercase_text(s: &str) -> (r: String)
    ensures
        r@ == lowercase(s@),
{
    s.to_lowercase()
}

pub open spec fn forward_slashes(s: Seq<char>) -> Seq<char> {
    s.map_values(|c: char| if c == '\\' { '/' } else { c })
}

/// The form two paths share when they name the same folder for the app:
/// backslashes made slashes, then lower case.
pub open spec fn dedup_key(path: Seq<char>) -> Seq<char> {
    lowercase(forward_slashes(path))
}

pub fn normalize_for_dedup(path: &str) -> (r: String)
    ensures
        r@ == dedup_key(path@),
{
    let p = chars_of(path);
    let mut out: Vec<char> = Vec::new();
    let mut i: usize = 0;
    while i < p.len()
        invariant
            i <= p.len(),
            p@ == path@,
            out@ =~= forward_slashes(p@).take(i as int),
        decreases p.len() - i,
    {
        if p[i] == '\\' {
            out.push('/');
        } else {
            out.push(p[i]);
        }
        i += 1;
    }
    assert(forward_slashes(p@).take(p.len() as int) =~= forward_slashes(p@));
    let s = string_of(&out);
    lowercase_text(s.as_str())
}

/// `<kind>:<dedup key of the path>`.
pub open spec fn candidate_id(kind: Seq<char>, path: Seq<char>) -> Seq<char> {
    kind + ":"@ + dedup_key(path)
}

pub fn launch_candidate_id(kind: &str, path: &str) -> (r: String)
    ensures
        r@ == candidate_id(kind@, path@),
{
    let mut m = chars_of(kind);
    append_all(&mut m, &chars_of(":"));
    append_all(&mut m, &str_vec(&normalize_for_dedup(path)));
    string_of(&m)
}

/// Index `i` holds the first occurrence of its key.
pub open spec fn first_of_key(keys: Seq<Seq<char>>) -> spec_fn(int) -> bool {
    |i: int| forall|j: int| 0 <= j < i ==> keys[j] != keys[i]
}

pub open spec fn strings_view(v: Seq<String>) -> Seq<Seq<char>> {
    v.map_values(|s: String| s@)
}

/// For each key, whether it is the first with its value.
fn first_occurrences(keys: &Vec<String>) -> (r: Vec<bool>)
    ensures
        r.len() == keys.len(),
        forall|i: int| 0 <= i < keys.len() ==> r[i] == first_of_key(strings_view(keys@))(i),
{
    let ghost kv = strings_view(keys@);
    let mut r: Vec<bool> = Vec::new();
    let mut i: usize = 0;
    while i < keys.len()
        invariant
            i <= keys.len(),
            r.len() == i,
            kv == strings_view(keys@),
            forall|k: int| 0 <= k < i ==> r[k] == first_of_key(kv)(k),
        decreases keys.len() - i,
    {
        let mut first = true;
        let mut j: usize = 0;
        while j < i
            invariant
                j <= i < keys.len(),
                kv == strings_view(keys@),
                first == forall|m: int| 0 <= m < j ==> kv[m] != kv[i as int],
            decreases i - j,
        {
            let same = keys[j] == keys[i];
            assert(same == (kv[j as int] == kv[i as int]));
            if same {
                first = false;
            }
            j += 1;
        }
        r.push(first);
        i += 1;
    }
    r
}

// ---------------------------------------------------------------------------
// Config folders.

pub open spec fn flatpak_marker() -> Seq<char> {
    ".var/app/com.valvesoftware.Steam"@
}

/// The label of the Proton config folder under a Steam library.
pub open spec fn proton_label(steamapps: Seq<char>) -> Seq<char> {
    if find_sub(steamapps, flatpak_marker()) is Some {
        "Linux Flatpak Steam Proton"@
    } else {
        "Linux Steam Proton"@
    }
}

pub fn steam_proton_label(steamapps: &str) -> (r: &'static str)
    ensures
        r@ == proton_label(steamapps@),
{
    if find_sub_vec(&chars_of(steamapps), &chars_of(".var/app/com.valvesoftware.Steam")).is_some() {
        "Linux Flatpak Steam Proton"
    } else {
        "Linux Steam Proton"
    }
}

pub open spec fn config_keys(cs: Seq<SConfigCandidate>) -> Seq<Seq<char>> {
    cs.map_values(|c: SConfigCandidate| dedup_key(c.path))
}

/// The config folders found, in the order found, each folder (by its dedup
/// key) once.
pub open spec fn distinct_configs(cs: Seq<SConfigCandidate>) -> Seq<SConfigCandidate> {
    filter_by(cs, first_of_key(config_keys(cs)))
}

fn clone_config(c: &ConfigCandidate) -> (r: ConfigCandidate)
    ensures
        r@ == c@,
{
    ConfigCandidate { label: c.label.clone(), path: c.path.clone(), exists: c.exists, source: c.source.clone() }
}

/// The config folder candidates, from the candidates the probes found in
/// order, each folder once.
pub fn detect_config_paths(candidates: &Vec<ConfigCandidate>) -> (r: Vec<ConfigCandidate>)
    ensures
        configs_view(r@) == distinct_configs(configs_view(candidates@)),
{
    let ghost cv = configs_view(candidates@);
    let mut keys: Vec<String> = Vec::new();
    let mut i: usize = 0;
    while i < candidates.len()
        invariant
            i <= candidates.len(),
            cv == configs_view(candidates@),
            strings_view(keys@) =~= config_keys(cv).take(i as int),
        decreases candidates.len() - i,
    {
        let k = normalize_for_dedup(candidates[i].path.as_str());
        let ghost before = keys@;
        keys.push(k);
        assert(strings_view(keys@) =~= strings_view(before).push(k@));
        assert(config_keys(cv).take(i + 1) =~= config_keys(cv).take(i as int).push(config_keys(cv)[i as int]));
        i += 1;
    }
    assert(config_keys(cv).take(candidates.len() as int) =~= config_keys(cv));
    let keep = first_occurrences(&keys);
    let mut out: Vec<ConfigCandidate> = Vec::new();
    let mut j: usize = 0;
    assert(configs_view(out@) =~= Seq::<SConfigCandidate>::empty());
    while j < candidates.len()
        invariant
            j <= candidates.len(),
            keep.len() == candidates.len(),
            cv == configs_view(candidates@),
            strings_view(keys@) == config_keys(cv),
            forall|k: int| 0 <= k < keep.len() ==> keep[k] == first_of_key(config_keys(cv))(k),
            configs_view(out@) == filter_prefix(cv, first_of_key(config_keys(cv)), j as int),
        decreases candidates.len() - j,
    {
        if keep[j] {
            let c = clone_config(&candidates[j]);
            let ghost before = out@;
            out.push(c);
            assert(configs_view(out@) =~= configs_view(before).push(c@));
        }
        j += 1;
    }
    out
}

/// A folder below a base folder: a label and the path's parts below the base.
pub struct FolderLayout {
    pub label: String,
    pub components: Vec<String>,
}

pub open spec fn layout_view(l: FolderLayout) -> (Seq<char>, Seq<Seq<char>>) {
    (l.label@, strings_view(l.components@))
}

fn strings_of(parts: &[&str]) -> (r: Vec<String>)
    ensures
        strings_view(r@) == parts@.map_values(|p: &str| p@),
{
    let mut r: Vec<String> = Vec::new();
    let mut i: usize = 0;
    while i < parts.len()
        invariant
            i <= parts.len(),
            strings_view(r@) =~= parts@.map_values(|p: &str| p@).take(i as int),
        decreases parts.len() - i,
    {
        let s = owned(parts[i]);
        let ghost before = r@;
        r.push(s);
        assert(strings_view(r@) =~= strings_view(before).push(s@));
        assert(parts@.map_values(|p: &str| p@).take(i + 1) =~= parts@.map_values(|p: &str| p@).take(i as int).push(parts@[i as int]@));
        i += 1;
    }
    assert(parts@.map_values(|p: &str| p@).take(parts.len() as int) =~= parts@.map_values(|p: &str| p@));
    r
}

/// The config folders the game uses under `%LOCALAPPDATA%`, in the order
/// they are offered.
pub open spec fn local_app_data_layouts_spec() -> Seq<(Seq<char>, Seq<Seq<char>>)> {
    seq![
        ("Windows Steam"@, seq!["G1R"@, "Saved"@, "Config"@, "Windows"@]),
        ("Legacy WindowsNoEditor"@, seq!["Gothic"@, "Saved"@, "Config"@, "WindowsNoEditor"@]),
        ("Demo Windows"@, seq!["G1R_NyrasDemo"@, "Saved"@, "Config"@, "Windows"@]),
    ]
}

pub fn local_app_data_layouts() -> (r: Vec<FolderLayout>)
    ensures
        r@.map_values(|l: FolderLayout| layout_view(l)) == local_app_data_layouts_spec(),
{
    let mut r: Vec<FolderLayout> = Vec::new();
    r.push(FolderLayout { label: owned("Windows Steam"), components: strings_of(&["G1R", "Saved", "Config", "Windows"]) });
    r.push(
        FolderLayout {
            label: owned("Legacy WindowsNoEditor"),
            components: strings_of(&["Gothic", "Saved", "Config", "WindowsNoEditor"]),
        },
    );
    r.push(
        FolderLayout {
            label: owned("Demo Windows"),
            components: strings_of(&["G1R_NyrasDemo", "Saved", "Config", "Windows"]),
        },
    );
    assert(r@.map_values(|l: FolderLayout| layout_view(l)) =~~= local_app_data_layouts_spec());
    r
}

/// The game's config folder below a Steam library's `steamapps` folder,
/// inside its Proton prefix.
pub open spec fn proton_config_components_spec() -> Seq<Seq<char>> {
    seq![
        "compatdata"@, "1297900"@, "pfx"@, "drive_c"@, "users"@, "steamuser"@, "AppData"@, "Local"@,
        "G1R"@, "Saved"@, "Config"@, "Windows"@,
    ]
}

pub fn proton_config_components() -> (r: Vec<String>)
    ensures
        strings_view(r@) == proton_config_components_spec(),
{
    let r = strings_of(
        &[
            "compatdata", "1297900", "pfx", "drive_c", "users", "steamuser", "AppData", "Local",
            "G1R", "Saved", "Config", "Windows",
        ],
    );
    assert(strings_view(r@) =~= proton_config_components_spec());
    r
}

/// The `steamapps` folders of the Steam installs below the home folder.
pub open spec fn home_steamapps_spec() -> Seq<Seq<Seq<char>>> {
    seq![
        seq![".steam"@, "steam"@, "steamapps"@],
        seq![".local"@, "share"@, "Steam"@, "steamapps"@],
        seq![".var"@, "app"@, "com.valvesoftware.Steam"@, ".local"@, "share"@, "Steam"@, "steamapps"@],
    ]
}

pub fn home_steamapps() -> (r: Vec<Vec<String>>)
    ensures
        r@.map_values(|v: Vec<String>| strings_view(v@)) == home_steamapps_spec(),
{
    let mut r: Vec<Vec<String>> = Vec::new();
    r.push(strings_of(&[".steam", "steam", "steamapps"]));
    r.push(strings_of(&[".local", "share", "Steam", "steamapps"]));
    r.push(strings_of(&[".var", "app", "com.valvesoftware.Steam", ".local", "share", "Steam", "steamapps"]));
    assert(r@.map_values(|v: Vec<String>| strings_view(v@)) =~~= home_steamapps_spec());
    r
}

/// Where the game's executable may be below its install folder, in the
/// order looked for.
pub open spec fn executable_layouts_spec() -> Seq<Seq<Seq<char>>> {
    seq![
        seq!["G1R.exe"@],
        seq!["Gothic1Remake.exe"@],
        seq!["Gothic 1 Remake.exe"@],
        seq!["G1R"@, "Binaries"@, "Win64"@, "G1R-Win64-Shipping.exe"@],
    ]
}

pub fn executable_candidates_for_game_root() -> (r: Vec<Vec<String>>)
    ensures
        r@.map_values(|v: Vec<String>| strings_view(v@)) == executable_layouts_spec(),
{
    let mut r: Vec<Vec<String>> = Vec::new();
    r.push(strings_of(&["G1R.exe"]));
    r.push(strings_of(&["Gothic1Remake.exe"]));
    r.push(strings_of(&["Gothic 1 Remake.exe"]));
    r.push(strings_of(&["G1R", "Binaries", "Win64", "G1R-Win64-Shipping.exe"]));
    assert(r@.map_values(|v: Vec<String>| strings_view(v@)) =~~= executable_layouts_spec());
    r
}

/// `appmanifest_1297900.acf`, the game's app manifest in a `steamapps` folder.
pub open spec fn appmanifest_name() -> Seq<char> {
    "appmanifest_1297900.acf"@
}

pub fn steam_appmanifest_name() -> (r: String)
    ensures
        r@ == appmanifest_name(),
{
    owned("appmanifest_1297900.acf")
}

pub open spec fn path_keys(ps: Seq<Seq<char>>) -> Seq<Seq<char>> {
    ps.map_values(|p: Seq<char>| dedup_key(p))
}

/// The Steam library folders to look in: the paths in order, each folder
/// (by its dedup key) once.
pub fn dedup_paths(paths: &Vec<String>) -> (r: Vec<String>)
    ensures
        strings_view(r@) == filter_by(strings_view(paths@), first_of_key(path_keys(strings_view(paths@)))),
{
    let ghost pv = strings_view(paths@);
    let mut keys: Vec<String> = Vec::new();
    let mut i: usize = 0;
    while i < paths.len()
        invariant
            i <= paths.len(),
            pv == strings_view(paths@),
            strings_view(keys@) =~= path_keys(pv).take(i as int),
        decreases paths.len() - i,
    {
        let k = normalize_for_dedup(paths[i].as_str());
        let ghost before = keys@;
        keys.push(k);
        assert(strings_view(keys@) =~= strings_view(before).push(k@));
        assert(path_keys(pv).take(i + 1) =~= path_keys(pv).take(i as int).push(path_keys(pv)[i as int]));
        i += 1;
    }
    assert(path_keys(pv).take(paths.len() as int) =~= path_keys(pv));
    let keep = first_occurrences(&keys);
    let mut out: Vec<String> = Vec::new();
    let mut j: usize = 0;
    assert(strings_view(out@) =~= Seq::<Seq<char>>::empty());
    while j < paths.len()
        invariant
            j <= paths.len(),
            keep.len() == paths.len(),
            pv == strings_view(paths@),
            strings_view(keys@) == path_keys(pv),
            forall|k: int| 0 <= k < keep.len() ==> keep[k] == first_of_key(path_keys(pv))(k),
            strings_view(out@) == filter_prefix(pv, first_of_key(path_keys(pv)), j as int),
        decreases paths.len() - j,
    {
        if keep[j] {
            let c = paths[j].clone();
            let ghost before = out@;
            out.push(c);
            assert(strings_view(out@) =~= strings_view(before).push(c@));
        }
        j += 1;
    }
    out
}

// ---------------------------------------------------------------------------
// Launch candidates.

/// An executable the probes looked for, and whether it is a file.
pub struct ExecutableProbe {
    pub path: String,
    pub is_file: bool,
}

/// A Steam library as the probes saw it: the game's app manifest path,
/// whether it is a file, and the executables looked for under the game's
/// folder, in the order looked for.
pub struct SteamLibraryProbe {
    pub appmanifest_path: String,
    pub appmanifest_is_file: bool,
    pub executables: Vec<ExecutableProbe>,
}

pub open spec fn steam_candidate(manifest: Seq<char>) -> SLaunchCandidate {
    SLaunchCandidate {
        id: candidate_id("steam"@, manifest),
        kind: LaunchCandidateKind::Steam,
        label: "Steam: Gothic 1 Remake"@,
        path: manifest,
        exists: true,
        source: "Steam library"@,
    }
}

pub open spec fn executable_candidate(path: Seq<char>) -> SLaunchCandidate {
    SLaunchCandidate {
        id: candidate_id("executable"@, path),
        kind: LaunchCandidateKind::Executable,
        label: "Executable: Gothic 1 Remake"@,
        path,
        exists: true,
        source: "Steam library"@,
    }
}

pub open spec fn manual_candidate(path: Seq<char>, is_file: bool) -> SLaunchCandidate {
    SLaunchCandidate {
        id: candidate_id("manual"@, path),
        kind: LaunchCandidateKind::Executable,
        label: "Manual executable"@,
        path,
        exists: is_file,
        source: "manual"@,
    }
}

/// The candidates of the executables that exist, in order.
pub open spec fn executable_candidates(es: Seq<ExecutableProbe>) -> Seq<SLaunchCandidate>
    decreases es.len(),
{
    if es.len() == 0 {
        seq![]
    } else {
        let r = executable_candidates(es.drop_last());
        if es.last().is_file {
            r.push(executable_candidate(es.last().path@))
        } else {
            r
        }
    }
}

/// A library with the game's app manifest gives the Steam candidate, then
/// its executables; one without gives none.
pub open spec fn library_candidates(l: SteamLibraryProbe) -> Seq<SLaunchCandidate> {
    if l.appmanifest_is_file {
        seq![steam_candidate(l.appmanifest_path@)] + executable_candidates(l.executables@)
    } else {
        seq![]
    }
}

pub open spec fn libraries_candidates(ls: Seq<SteamLibraryProbe>) -> Seq<SLaunchCandidate>
    decreases ls.len(),
{
    if ls.len() == 0 {
        seq![]
    } else {
        libraries_candidates(ls.drop_last()) + library_candidates(ls.last())
    }
}

pub open spec fn launch_ids(cs: Seq<SLaunchCandidate>) -> Seq<Seq<char>> {
    cs.map_values(|c: SLaunchCandidate| c.id)
}

/// Every candidate found, libraries first, the manual executable last; then
/// each id once, the first kept.
pub open spec fn launch_candidates(ls: Seq<SteamLibraryProbe>, manual: Option<(Seq<char>, bool)>) -> Seq<SLaunchCandidate> {
    let all = match manual {
        Some((p, f)) => libraries_candidates(ls).push(manual_candidate(p, f)),
        None => libraries_candidates(ls),
    };
    filter_by(all, first_of_key(launch_ids(all)))
}

fn push_launch(out: &mut Vec<LaunchCandidate>, kind: LaunchCandidateKind, id_kind: &str, label: &str, path: &String, exists: bool, source: &str)
    ensures
        launches_view(final(out)@) == launches_view(old(out)@).push(
            SLaunchCandidate {
                id: candidate_id(id_kind@, path@),
                kind,
                label: label@,
                path: path@,
                exists,
                source: source@,
            },
        ),
{
    let c = LaunchCandidate {
        id: launch_candidate_id(id_kind, path.as_str()),
        kind,
        label: owned(label),
        path: path.clone(),
        exists,
        source: owned(source),
    };
    let ghost before = out@;
    out.push(c);
    assert(launches_view(out@) =~= launches_view(before).push(c@));
}

/// The launch candidates from the probed Steam libraries and the manual
/// executable (its path and whether it is a file), each id once.
pub fn launch_candidates_from_steamapps_roots(libraries: &Vec<SteamLibraryProbe>, manual: Option<ExecutableProbe>) -> (r: Vec<LaunchCandidate>)
    ensures
        launches_view(r@) == launch_candidates(
            libraries@,
            match manual {
                Some(m) => Some((m.path@, m.is_file)),
                None => None,
            },
        ),
{
    proof {
        reveal_strlit("steam");
    }
    let mut all: Vec<LaunchCandidate> = Vec::new();
    let mut i: usize = 0;
    assert(libraries@.take(0) =~= Seq::<SteamLibraryProbe>::empty());
    assert(launches_view(all@) =~= Seq::<SLaunchCandidate>::empty());
    while i < libraries.len()
        invariant
            i <= libraries.len(),
            launches_view(all@) == libraries_candidates(libraries@.take(i as int)),
        decreases libraries.len() - i,
    {
        proof {
            assert(libraries@.take(i + 1).drop_last() =~= libraries@.take(i as int));
        }
        let l = &libraries[i];
        let ghost start = launches_view(all@);
        if l.appmanifest_is_file {
            push_launch(&mut all, LaunchCandidateKind::Steam, "steam", "Steam: Gothic 1 Remake", &l.appmanifest_path, true, "Steam library");
            let mut k: usize = 0;
            assert(l.executables@.take(0) =~= Seq::<ExecutableProbe>::empty());
            while k < l.executables.len()
                invariant
                    k <= l.executables.len(),
                    l == &libraries@[i as int],
                    l.appmanifest_is_file,
                    launches_view(all@) == start.push(steam_candidate(l.appmanifest_path@)) + executable_candidates(l.executables@.take(k as int)),
                decreases l.executables.len() - k,
            {
                proof {
                    assert(l.executables@.take(k + 1).drop_last() =~= l.executables@.take(k as int));
                }
                let e = &l.executables[k];
                if e.is_file {
                    push_launch(&mut all, LaunchCandidateKind::Executable, "executable", "Executable: Gothic 1 Remake", &e.path, true, "Steam library");
                    assert(launches_view(all@) =~= start.push(steam_candidate(l.appmanifest_path@)) + executable_candidates(l.executables@.take(k + 1)));
                }
                k += 1;
            }
            assert(l.executables@.take(l.executables.len() as int) =~= l.executables@);
            assert(launches_view(all@) =~= start + library_candidates(*l));
        } else {
            assert(launches_view(all@) =~= start + library_candidates(*l));
        }
        i += 1;
    }
    assert(libraries@.take(libraries.len() as int) =~= libraries@);
    match &manual {
        Some(m) => {
            push_launch(&mut all, LaunchCandidateKind::Executable, "manual", "Manual executable", &m.path, m.is_file, "manual");
        },
        None => {},
    }
    let ghost av = launches_view(all@);
    let mut ids: Vec<String> = Vec::new();
    let mut j: usize = 0;
    while j < all.len()
        invariant
            j <= all.len(),
            av == launches_view(all@),
            strings_view(ids@) =~= launch_ids(av).take(j as int),
        decreases all.len() - j,
    {
        let id = all[j].id.clone();
        let ghost before = ids@;
        ids.push(id);
        assert(strings_view(ids@) =~= strings_view(before).push(id@));
        assert(launch_ids(av).take(j + 1) =~= launch_ids(av).take(j as int).push(launch_ids(av)[j as int]));
        j += 1;
    }
    assert(launch_ids(av).take(all.len() as int) =~= launch_ids(av));
    let keep = first_occurrences(&ids);
    let mut out: Vec<LaunchCandidate> = Vec::new();
    let mut k: usize = 0;
    assert(launches_view(out@) =~= Seq::<SLaunchCandidate>::empty());
    while k < all.len()
        invariant
            k <= all.len(),
            keep.len() == all.len(),
            av == launches_view(all@),
            strings_view(ids@) == launch_ids(av),
            forall|m: int| 0 <= m < keep.len() ==> keep[m] == first_of_key(launch_ids(av))(m),
            launches_view(out@) == filter_prefix(av, first_of_key(launch_ids(av)), k as int),
        decreases all.len() - k,
    {
        if keep[k] {
            let c = &all[k];
            let d = LaunchCandidate {
                id: c.id.clone(),
                kind: c.kind,
                label: c.label.clone(),
                path: c.path.clone(),
                exists: c.exists,
                source: c.source.clone(),
            };
            let ghost before = out@;
            out.push(d);
            assert(launches_view(out@) =~= launches_view(before).push(d@));
        }
        k += 1;
    }
    out
}

// ---------------------------------------------------------------------------
// Each candidate once.

proof fn lemma_first_of_key_distinct<A>(s: Seq<A>, key: spec_fn(A) -> Seq<char>, n: int)
    requires
        0 <= n <= s.len(),
    ensures
        ({
            let keys = s.map_values(key);
            let r = filter_prefix(s, first_of_key(keys), n);
            &&& forall|a: int, b: int| 0 <= a < b < r.len() ==> key(#[trigger] r[a]) != key(#[trigger] r[b])
            &&& forall|a: int| 0 <= a < r.len() ==> exists|i: int| 0 <= i < n && key(#[trigger] r[a]) == keys[i]
        }),
    decreases n,
{
    let keys = s.map_values(key);
    if n > 0 {
        lemma_first_of_key_distinct(s, key, n - 1);
        let prev = filter_prefix(s, first_of_key(keys), n - 1);
        let r = filter_prefix(s, first_of_key(keys), n);
        if first_of_key(keys)(n - 1) {
            assert(r == prev.push(s[n - 1]));
            assert forall|a: int| 0 <= a < r.len() implies exists|i: int| 0 <= i < n && key(#[trigger] r[a]) == keys[i] by {
                if a < prev.len() {
                    assert(r[a] == prev[a]);
                    let i = choose|i: int| 0 <= i < n - 1 && key(prev[a]) == keys[i];
                    assert(key(r[a]) == keys[i]);
                } else {
                    assert(key(r[a]) == keys[n - 1]);
                }
            }
            assert forall|a: int, b: int| 0 <= a < b < r.len() implies key(#[trigger] r[a]) != key(#[trigger] r[b]) by {
                assert(r[a] == prev[a]);
                if b < prev.len() {
                    assert(r[b] == prev[b]);
                } else {
                    let i = choose|i: int| 0 <= i < n - 1 && key(prev[a]) == keys[i];
                    assert(keys[i] != keys[n - 1]);
                    assert(key(r[b]) == keys[n - 1]);
                }
            }
        } else {
            assert forall|a: int| 0 <= a < r.len() implies exists|i: int| 0 <= i < n && key(#[trigger] r[a]) == keys[i] by {
                let i = choose|i: int| 0 <= i < n - 1 && key(prev[a]) == keys[i];
                assert(key(r[a]) == keys[i]);
            }
        }
    }
}

proof fn lemma_first_of_key_complete<A>(s: Seq<A>, key: spec_fn(A) -> Seq<char>, i: int)
    requires
        0 <= i < s.len(),
    ensures
        exists|a: int| 0 <= a < filter_by(s, first_of_key(s.map_values(key))).len()
            && key(#[trigger] filter_by(s, first_of_key(s.map_values(key)))[a]) == key(s[i]),
{
    let keys = s.map_values(key);
    let same = |j: int| keys[j] == keys[i];
    crate::seq_util::lemma_first_where_facts(s.len() as int, same);
    let f = crate::seq_util::first_where(s.len() as int, same)->Some_0;
    assert(same(i));
    assert(first_of_key(keys)(f)) by {
        assert forall|j: int| 0 <= j < f implies keys[j] != keys[f] by {
            assert(!same(j));
        }
    }
    lemma_filter_by_contains(s, first_of_key(keys), f);
    let r = filter_by(s, first_of_key(keys));
    let a = choose|a: int| 0 <= a < r.len() && r[a] == s[f];
    assert(key(r[a]) == key(s[i]));
}

/// The launch candidates have distinct ids, and every candidate found has
/// its id among them (the first found with it).
pub proof fn lemma_launch_candidates_distinct(ls: Seq<SteamLibraryProbe>, manual: Option<(Seq<char>, bool)>)
    ensures
        ({
            let all = match manual {
                Some((p, f)) => libraries_candidates(ls).push(manual_candidate(p, f)),
                None => libraries_candidates(ls),
            };
            let r = launch_candidates(ls, manual);
            &&& forall|a: int, b: int| 0 <= a < b < r.len() ==> (#[trigger] r[a]).id != (#[trigger] r[b]).id
            &&& forall|i: int| 0 <= i < all.len() ==> exists|a: int| 0 <= a < r.len() && (#[trigger] r[a]).id == (#[trigger] all[i]).id
        }),
{
    let all = match manual {
        Some((p, f)) => libraries_candidates(ls).push(manual_candidate(p, f)),
        None => libraries_candidates(ls),
    };
    let key = |c: SLaunchCandidate| c.id;
    assert(launch_ids(all) =~= all.map_values(key));
    lemma_first_of_key_distinct(all, key, all.len() as int);
    assert forall|i: int| 0 <= i < all.len() implies exists|a: int|
        0 <= a < launch_candidates(ls, manual).len() && (#[trigger] launch_candidates(ls, manual)[a]).id == (#[trigger] all[i]).id by {
        lemma_first_of_key_complete(all, key, i);
    }
}

/// The config folders listed have distinct dedup keys, and every folder
/// found has its key among them (the first found with it).
pub proof fn lemma_config_paths_distinct(cs: Seq<SConfigCandidate>)
    ensures
        ({
            let r = distinct_configs(cs);
            &&& forall|a: int, b: int| 0 <= a < b < r.len() ==> dedup_key((#[trigger] r[a]).path) != dedup_key(
                (#[trigger] r[b]).path,
            )
            &&& forall|i: int| 0 <= i < cs.len() ==> exists|a: int|
                0 <= a < r.len() && dedup_key((#[trigger] r[a]).path) == dedup_key((#[trigger] cs[i]).path)
        }),
{
    let key = |c: SConfigCandidate| dedup_key(c.path);
    assert(config_keys(cs) =~= cs.map_values(key));
    let r = distinct_configs(cs);
    assert(r == filter_by(cs, first_of_key(cs.map_values(key))));
    lemma_first_of_key_distinct(cs, key, cs.len() as int);
    assert forall|a: int, b: int| 0 <= a < b < r.len() implies dedup_key((#[trigger] r[a]).path) != dedup_key(
        (#[trigger] r[b]).path,
    ) by {
        assert(key(r[a]) != key(r[b]));
    }
    assert forall|i: int| 0 <= i < cs.len() implies exists|a: int|
        0 <= a < r.len() && dedup_key((#[trigger] r[a]).path) == dedup_key((#[trigger] cs[i]).path) by {
        lemma_first_of_key_complete(cs, key, i);
        let a = choose|a: int| 0 <= a < r.len() && key(#[trigger] r[a]) == key(cs[i]);
        assert(dedup_key(r[a].path) == dedup_key(cs[i].path));
    }
}

} // verus!
