//! The install manifest: which managed files the app wrote, with a checksum
//! of each, so that later previews can tell untouched files from edited ones.
use vstd::prelude::*;
use crate::seq_util::{filter_by, filter_prefix, first_where, lemma_first_where_facts, lemma_first_where_none, lemma_first_where_some};
use crate::text::{hex_digits, hex_vec};

verus! {

pub const MANIFEST_VERSION: u32 = 1;

pub const CHECKSUM_ALGORITHM: &'static str = "fnv1a64";

pub const FNV_OFFSET: u64 = 0xcbf29ce484222325;

pub const FNV_PRIME: u64 = 0x100000001b3;

/// How a managed file in the config folder relates to what the app wrote.
#[derive(Debug, Clone, Copy, PartialEq, Eq)]
pub enum FileModificationState {
    Missing,
    Unchanged,
    Untracked,
    Modified,
}

impl FileModificationState {
    /// Writing over the file could lose changes the app did not make.
    pub fn has_overwrite_risk(self) -> (b: bool)
        ensures
            b == (self is Untracked || self is Modified),
    {
        match self {
            FileModificationState::Untracked | FileModificationState::Modified => true,
            _ => false,
        }
    }
}

/// FNV-1a, 64 bit, over `bytes`.
pub open spec fn fnv1a(bytes: Seq<u8>) -> u64
    decreases bytes.len(),
{
    if bytes.len() == 0 {
        FNV_OFFSET
    } else {
        let h = fnv1a(bytes.drop_last()) ^ (bytes.last() as u64);
        ((h as nat * FNV_PRIME as nat) % 0x1_0000_0000_0000_0000) as u64
    }
}

/// The checksum text: the hash as 16 lower-case hex digits.
pub open spec fn checksum(bytes: Seq<u8>) -> Seq<char> {
    hex_digits(fnv1a(bytes) as nat, 16)
}

pub fn checksum_bytes(bytes: &[u8]) -> (r: Vec<char>)
    ensures
        r@ == checksum(bytes@),
{
    let mut hash: u64 = FNV_OFFSET;
    let mut i: usize = 0;
    while i < bytes.len()
        invariant
            i <= bytes.len(),
            hash == fnv1a(bytes@.take(i as int)),
        decreases bytes.len() - i,
    {
        proof {
            assert(bytes@.take(i + 1).drop_last() =~= bytes@.take(i as int));
        }
        hash = hash ^ (bytes[i] as u64);
        hash = hash.wrapping_mul(FNV_PRIME);
        i += 1;
    }
    proof {
        assert(bytes@.take(bytes.len() as int) =~= bytes@);
    }
    hex_vec(hash, 16)
}

pub struct SManifestFile {
    pub file_name: Seq<char>,
    pub checksum: Seq<char>,
    pub byte_len: u64,
    pub installed_unix_seconds: u64,
}

/// One file the app wrote: its name, checksum, length and when.
#[derive(Debug, Clone)]
pub struct ManifestFile {
    pub file_name: String,
    pub checksum: String,
    pub byte_len: u64,
    pub installed_unix_seconds: u64,
}

impl View for ManifestFile {
    type V = SManifestFile;

    open spec fn view(&self) -> SManifestFile {
        SManifestFile {
            file_name: self.file_name@,
            checksum: self.checksum@,
            byte_len: self.byte_len,
            installed_unix_seconds: self.installed_unix_seconds,
        }
    }
}

pub open spec fn files_view(v: Seq<ManifestFile>) -> Seq<SManifestFile> {
    v.map_values(|f: ManifestFile| f@)
}

/// The record of what the app installed into a config folder.
#[derive(Debug, Clone)]
pub struct InstallManifest {
    pub version: u32,
    pub checksum_algorithm: String,
    pub files: Vec<ManifestFile>,
}

pub fn clone_file(f: &ManifestFile) -> (r: ManifestFile)
    ensures
        r@ == f@,
{
    ManifestFile {
        file_name: f.file_name.clone(),
        checksum: f.checksum.clone(),
        byte_len: f.byte_len,
        installed_unix_seconds: f.installed_unix_seconds,
    }
}

impl ManifestFile {
    /// The entry for `content` written as `file_name` at the given time.
    pub fn from_content(file_name: &str, content: &str, installed_unix_seconds: u64) -> (r: ManifestFile)
        ensures
            r.file_name@ == file_name@,
            r.checksum@ == checksum(vstd::utf8::encode_utf8(content@)),
            r.byte_len == vstd::utf8::encode_utf8(content@).len(),
            r.installed_unix_seconds == installed_unix_seconds,
            r@ == manifest_entry(file_name@, content@, installed_unix_seconds),
    {
        let bytes = content.as_bytes();
        let c = checksum_bytes(bytes);
        let len = bytes.len();
        ManifestFile {
            file_name: crate::text::owned(file_name),
            checksum: crate::text::string_of(&c),
            byte_len: len as u64,
            installed_unix_seconds,
        }
    }
}

/// Code points of `a` come before those of `b`, or are equal to them, in
/// lexicographic order (`String`'s order).
pub open spec fn text_le(a: Seq<char>, b: Seq<char>) -> bool
    decreases a.len(),
{
    if a.len() == 0 {
        true
    } else if b.len() == 0 {
        false
    } else if (a[0] as u32) < (b[0] as u32) {
        true
    } else if a[0] == b[0] {
        text_le(a.drop_first(), b.drop_first())
    } else {
        false
    }
}

pub fn text_le_exec(a: &String, b: &String) -> (r: bool)
    ensures
        r == text_le(a@, b@),
{
    let av = crate::text::str_vec(a);
    let bv = crate::text::str_vec(b);
    let mut i: usize = 0;
    assert(av@.skip(0) =~= av@);
    assert(bv@.skip(0) =~= bv@);
    while i < av.len()
        invariant
            i <= av.len(),
            i <= bv.len(),
            text_le(a@, b@) == text_le(av@.skip(i as int), bv@.skip(i as int)),
        decreases av.len() - i,
    {
        if i >= bv.len() {
            return false;
        }
        let x = av[i] as u32;
        let y = bv[i] as u32;
        if x < y {
            return true;
        }
        if av[i] != bv[i] {
            return false;
        }
        proof {
            assert(av@.skip(i as int).drop_first() =~= av@.skip(i + 1));
            assert(bv@.skip(i as int).drop_first() =~= bv@.skip(i + 1));
        }
        i += 1;
    }
    true
}

/// `x` put into `sorted` after every entry whose name is not greater than its own.
pub open spec fn insert_by_name(sorted: Seq<SManifestFile>, x: SManifestFile) -> Seq<SManifestFile> {
    let p = match first_where(sorted.len() as int, name_after(sorted, x.file_name)) {
        Some(i) => i,
        None => sorted.len() as int,
    };
    sorted.take(p).push(x) + sorted.skip(p)
}

pub open spec fn name_after(sorted: Seq<SManifestFile>, name: Seq<char>) -> spec_fn(int) -> bool {
    |i: int| !text_le(sorted[i].file_name, name)
}

/// The entries ordered by name, entries with equal names keeping their order
/// (the stable sort that `sort_by` on the name gives).
pub open spec fn sort_by_name(s: Seq<SManifestFile>) -> Seq<SManifestFile>
    decreases s.len(),
{
    if s.len() == 0 {
        s
    } else {
        insert_by_name(sort_by_name(s.drop_last()), s.last())
    }
}

fn first_name_after(sorted: &Vec<ManifestFile>, name: &String) -> (r: Option<usize>)
    ensures
        match r {
            Some(i) => first_where(sorted@.len() as int, name_after(files_view(sorted@), name@)) == Some(i as int) && i < sorted.len(),
            None => first_where(sorted@.len() as int, name_after(files_view(sorted@), name@)) is None,
        },
{
    let ghost sv = files_view(sorted@);
    let mut p: usize = 0;
    while p < sorted.len()
        invariant
            p <= sorted.len(),
            sv == files_view(sorted@),
            forall|j: int| 0 <= j < p ==> !#[trigger] name_after(sv, name@)(j),
        decreases sorted.len() - p,
    {
        if !text_le_exec(&sorted[p].file_name, name) {
            proof {
                lemma_first_where_some(sv.len() as int, name_after(sv, name@), p as int);
            }
            return Some(p);
        }
        p += 1;
    }
    proof {
        lemma_first_where_none(sv.len() as int, name_after(sv, name@));
    }
    None
}

pub proof fn lemma_files_view_push(v: Seq<ManifestFile>, x: ManifestFile)
    ensures
        files_view(v.push(x)) == files_view(v).push(x@),
{
    assert(files_view(v.push(x)) =~= files_view(v).push(x@));
}

fn insert_by_name_vec(sorted: &Vec<ManifestFile>, x: ManifestFile) -> (r: Vec<ManifestFile>)
    ensures
        files_view(r@) == insert_by_name(files_view(sorted@), x@),
{
    let ghost sv = files_view(sorted@);
    let p = match first_name_after(sorted, &x.file_name) {
        Some(i) => i,
        None => sorted.len(),
    };
    let mut out: Vec<ManifestFile> = Vec::new();
    let mut i: usize = 0;
    assert(files_view(out@) =~= sv.take(0));
    while i < p
        invariant
            i <= p <= sorted.len(),
            sv == files_view(sorted@),
            files_view(out@) == sv.take(i as int),
        decreases p - i,
    {
        let f = clone_file(&sorted[i]);
        proof {
            lemma_files_view_push(out@, f);
        }
        out.push(f);
        assert(files_view(out@) =~= sv.take(i + 1));
        i += 1;
    }
    proof {
        lemma_files_view_push(out@, x);
    }
    let ghost xv = x@;
    out.push(x);
    let ghost mid = files_view(out@);
    assert(mid =~= sv.take(p as int).push(xv));
    let mut j: usize = p;
    while j < sorted.len()
        invariant
            p <= j <= sorted.len(),
            sv == files_view(sorted@),
            files_view(out@) == mid + sv.subrange(p as int, j as int),
        decreases sorted.len() - j,
    {
        let f = clone_file(&sorted[j]);
        proof {
            lemma_files_view_push(out@, f);
        }
        out.push(f);
        assert(files_view(out@) =~= mid + sv.subrange(p as int, j + 1));
        j += 1;
    }
    assert(sv.subrange(p as int, sorted.len() as int) =~= sv.skip(p as int));
    out
}

pub fn sort_by_name_vec(files: Vec<ManifestFile>) -> (r: Vec<ManifestFile>)
    ensures
        files_view(r@) == sort_by_name(files_view(files@)),
{
    let ghost fv = files_view(files@);
    let mut out: Vec<ManifestFile> = Vec::new();
    let mut i: usize = 0;
    assert(fv.take(0) =~= Seq::<SManifestFile>::empty());
    assert(files_view(out@) =~= Seq::<SManifestFile>::empty());
    while i < files.len()
        invariant
            i <= files.len(),
            fv == files_view(files@),
            files_view(out@) == sort_by_name(fv.take(i as int)),
        decreases files.len() - i,
    {
        proof {
            assert(fv.take(i + 1).drop_last() =~= fv.take(i as int));
        }
        let f = clone_file(&files[i]);
        out = insert_by_name_vec(&out, f);
        i += 1;
    }
    assert(fv.take(files.len() as int) =~= fv);
    out
}


pub struct SManifest {
    pub version: u32,
    pub checksum_algorithm: Seq<char>,
    pub files: Seq<SManifestFile>,
}

impl View for InstallManifest {
    type V = SManifest;

    open spec fn view(&self) -> SManifest {
        SManifest { version: self.version, checksum_algorithm: self.checksum_algorithm@, files: files_view(self.files@) }
    }
}

pub open spec fn file_named(files: Seq<SManifestFile>, name: Seq<char>) -> spec_fn(int) -> bool {
    |i: int| files[i].file_name == name
}

/// The entry for `name`, if the manifest is of the version and checksum
/// algorithm this app writes.
pub open spec fn lookup_file(m: SManifest, name: Seq<char>) -> Option<SManifestFile> {
    if m.version != MANIFEST_VERSION || m.checksum_algorithm != CHECKSUM_ALGORITHM@ {
        None
    } else {
        match first_where(m.files.len() as int, file_named(m.files, name)) {
            Some(i) => Some(m.files[i]),
            None => None,
        }
    }
}

/// The manifest with `f` replacing the entry of the same name (or added),
/// entries then ordered by name.
pub open spec fn update_file(m: SManifest, f: SManifestFile) -> SManifest {
    let files2 = match first_where(m.files.len() as int, file_named(m.files, f.file_name)) {
        Some(i) => m.files.update(i, f),
        None => m.files.push(f),
    };
    SManifest { files: sort_by_name(files2), ..m }
}

pub open spec fn not_listed(files: Seq<SManifestFile>, names: Seq<Seq<char>>) -> spec_fn(int) -> bool {
    |i: int| !names.contains(files[i].file_name)
}

/// The manifest without the entries named in `names`.
pub open spec fn remove_files(m: SManifest, names: Seq<Seq<char>>) -> SManifest {
    SManifest { files: filter_by(m.files, not_listed(m.files, names)), ..m }
}

/// Missing if the file is not there; untracked if it could not be read or the
/// manifest has no usable entry for it; else unchanged or modified as its
/// checksum matches the entry's.
pub open spec fn classify(
    file_name: Seq<char>,
    target_exists: bool,
    current: Option<Seq<u8>>,
    manifest: Option<SManifest>,
) -> FileModificationState {
    if !target_exists {
        FileModificationState::Missing
    } else {
        match current {
            None => FileModificationState::Untracked,
            Some(b) => match manifest {
                None => FileModificationState::Untracked,
                Some(m) => match lookup_file(m, file_name) {
                    None => FileModificationState::Untracked,
                    Some(mf) => if mf.checksum == checksum(b) {
                        FileModificationState::Unchanged
                    } else {
                        FileModificationState::Modified
                    },
                },
            },
        }
    }
}

pub open spec fn empty_manifest() -> SManifest {
    SManifest { version: MANIFEST_VERSION, checksum_algorithm: CHECKSUM_ALGORITHM@, files: seq![] }
}

pub open spec fn update_all(m: SManifest, files: Seq<SManifestFile>) -> SManifest
    decreases files.len(),
{
    if files.len() == 0 {
        m
    } else {
        update_file(update_all(m, files.drop_last()), files.last())
    }
}

/// What to do with the manifest file after entries were removed.
pub enum ManifestAction {
    /// There was no manifest: nothing to do.
    Keep,
    /// No entry is left: delete the manifest file.
    Delete,
    /// Write the manifest back.
    Write(InstallManifest),
}

fn find_index(files: &Vec<ManifestFile>, name: &String) -> (r: Option<usize>)
    ensures
        match r {
            Some(i) => first_where(files@.len() as int, file_named(files_view(files@), name@)) == Some(i as int) && i < files.len(),
            None => first_where(files@.len() as int, file_named(files_view(files@), name@)) is None,
        },
{
    let ghost fv = files_view(files@);
    let mut i: usize = 0;
    while i < files.len()
        invariant
            i <= files.len(),
            fv == files_view(files@),
            forall|j: int| 0 <= j < i ==> !#[trigger] file_named(fv, name@)(j),
        decreases files.len() - i,
    {
        if files[i].file_name == *name {
            proof {
                lemma_first_where_some(fv.len() as int, file_named(fv, name@), i as int);
            }
            return Some(i);
        }
        i += 1;
    }
    proof {
        lemma_first_where_none(fv.len() as int, file_named(fv, name@));
    }
    None
}

impl InstallManifest {
    pub fn empty() -> (m: InstallManifest)
        ensures
            m@ == empty_manifest(),
    {
        let m = InstallManifest {
            version: MANIFEST_VERSION,
            checksum_algorithm: crate::text::owned(CHECKSUM_ALGORITHM),
            files: Vec::new(),
        };
        assert(m@.files =~= Seq::<SManifestFile>::empty());
        m
    }

    pub fn find_file(&self, file_name: &String) -> (r: Option<&ManifestFile>)
        ensures
            match r {
                Some(f) => lookup_file(self@, file_name@) == Some(f@),
                None => lookup_file(self@, file_name@) is None,
            },
    {
        let alg = crate::text::owned(CHECKSUM_ALGORITHM);
        if self.version != MANIFEST_VERSION || self.checksum_algorithm != alg {
            return None;
        }
        match find_index(&self.files, file_name) {
            Some(i) => Some(&self.files[i]),
            None => None,
        }
    }

    pub fn update_file(&mut self, file: ManifestFile)
        ensures
            final(self)@ == update_file(old(self)@, file@),
    {
        let ghost fv = files_view(self.files@);
        let mut files: Vec<ManifestFile> = Vec::new();
        std::mem::swap(&mut files, &mut self.files);
        assert(files_view(files@) == fv);
        match find_index(&files, &file.file_name) {
            Some(i) => {
                let ghost f = file@;
                files.set(i, file);
                assert(files_view(files@) =~= fv.update(i as int, f));
            },
            None => {
                proof {
                    lemma_files_view_push(files@, file);
                }
                files.push(file);
            },
        }
        self.files = sort_by_name_vec(files);
    }

    pub fn remove_files(&mut self, file_names: &Vec<String>)
        ensures
            final(self)@ == remove_files(old(self)@, file_names@.map_values(|s: String| s@)),
    {
        let ghost names = file_names@.map_values(|s: String| s@);
        let ghost fv = files_view(self.files@);
        let mut files: Vec<ManifestFile> = Vec::new();
        std::mem::swap(&mut files, &mut self.files);
        assert(files_view(files@) == fv);
        let mut out: Vec<ManifestFile> = Vec::new();
        let mut i: usize = 0;
        assert(files_view(out@) =~= Seq::<SManifestFile>::empty());
        while i < files.len()
            invariant
                i <= files.len(),
                fv == files_view(files@),
                names == file_names@.map_values(|s: String| s@),
                files_view(out@) == filter_prefix(fv, not_listed(fv, names), i as int),
            decreases files.len() - i,
        {
            let mut listed = false;
            let mut k: usize = 0;
            while k < file_names.len()
                invariant
                    k <= file_names.len(),
                    i < files.len(),
                    names == file_names@.map_values(|s: String| s@),
                    listed == exists|m: int| 0 <= m < k && #[trigger] names[m] == files@[i as int].file_name@,
                decreases file_names.len() - k,
            {
                let eq = file_names[k] == files[i].file_name;
                assert(eq == (names[k as int] == files@[i as int].file_name@));
                if eq {
                    listed = true;
                }
                k += 1;
            }
            assert(listed == names.contains(fv[i as int].file_name));
            if !listed {
                let f = clone_file(&files[i]);
                proof {
                    lemma_files_view_push(out@, f);
                }
                out.push(f);
            }
            i += 1;
        }
        self.files = out;
    }
}

pub fn classify_modification_state(
    file_name: &String,
    target_exists: bool,
    current_bytes: Option<&Vec<u8>>,
    manifest: Option<&InstallManifest>,
) -> (r: FileModificationState)
    ensures
        r == classify(
            file_name@,
            target_exists,
            match current_bytes {
                Some(b) => Some(b@),
                None => None,
            },
            match manifest {
                Some(m) => Some(m@),
                None => None,
            },
        ),
{
    if !target_exists {
        return FileModificationState::Missing;
    }
    let bytes = match current_bytes {
        None => return FileModificationState::Untracked,
        Some(b) => b,
    };
    let m = match manifest {
        None => return FileModificationState::Untracked,
        Some(m) => m,
    };
    let mf = match m.find_file(file_name) {
        None => return FileModificationState::Untracked,
        Some(f) => f,
    };
    let c = checksum_bytes(bytes.as_slice());
    let cs = crate::text::string_of(&c);
    if mf.checksum == cs {
        FileModificationState::Unchanged
    } else {
        FileModificationState::Modified
    }
}

/// The manifest after recording `files`: the loaded one (or an empty one
/// when there is none) with each entry updated in turn.
pub fn update_manifest_files(loaded: Option<InstallManifest>, files: Vec<ManifestFile>) -> (r: InstallManifest)
    ensures
        r@ == update_all(
            match loaded {
                Some(m) => m@,
                None => empty_manifest(),
            },
            files_view(files@),
        ),
{
    let mut m = match loaded {
        Some(m) => m,
        None => InstallManifest::empty(),
    };
    let ghost start = m@;
    let ghost fv = files_view(files@);
    let mut i: usize = 0;
    assert(fv.take(0) =~= Seq::<SManifestFile>::empty());
    while i < files.len()
        invariant
            i <= files.len(),
            fv == files_view(files@),
            m@ == update_all(start, fv.take(i as int)),
        decreases files.len() - i,
    {
        proof {
            assert(fv.take(i + 1).drop_last() =~= fv.take(i as int));
        }
        m.update_file(clone_file(&files[i]));
        i += 1;
    }
    assert(fv.take(files.len() as int) =~= fv);
    m
}

/// What to do with the manifest after `file_names` were removed from the
/// folder: nothing without a manifest, delete it when no entry is left,
/// else write it back without those entries.
pub fn remove_manifest_files(loaded: Option<InstallManifest>, file_names: &Vec<String>) -> (r: ManifestAction)
    ensures
        match loaded {
            None => r is Keep,
            Some(m) => {
                let after = remove_files(m@, file_names@.map_values(|s: String| s@));
                if after.files.len() == 0 {
                    r is Delete
                } else {
                    r matches ManifestAction::Write(w) && w@ == after
                }
            },
        },
{
    let mut m = match loaded {
        None => return ManifestAction::Keep,
        Some(m) => m,
    };
    m.remove_files(file_names);
    if m.files.len() == 0 {
        ManifestAction::Delete
    } else {
        ManifestAction::Write(m)
    }
}

// ---------------------------------------------------------------------------
// What the manifest records, and what a preview then finds.

/// `text_le` is reflexive, total, transitive and antisymmetric: a total order.
pub proof fn lemma_text_le_reflexive(a: Seq<char>)
    ensures
        text_le(a, a),
    decreases a.len(),
{
    if a.len() > 0 {
        lemma_text_le_reflexive(a.drop_first());
    }
}

pub proof fn lemma_text_le_total(a: Seq<char>, b: Seq<char>)
    ensures
        text_le(a, b) || text_le(b, a),
    decreases a.len(),
{
    if a.len() > 0 && b.len() > 0 {
        if a[0] == b[0] {
            lemma_text_le_total(a.drop_first(), b.drop_first());
        } else if (a[0] as u32) == (b[0] as u32) {
            vstd::utf8::char_u32_cast(a[0], a[0] as u32);
            vstd::utf8::char_u32_cast(b[0], a[0] as u32);
        }
    }
}

pub proof fn lemma_text_le_transitive(a: Seq<char>, b: Seq<char>, c: Seq<char>)
    requires
        text_le(a, b),
        text_le(b, c),
    ensures
        text_le(a, c),
    decreases a.len(),
{
    if a.len() > 0 && b.len() > 0 && c.len() > 0 && a[0] == b[0] && b[0] == c[0] {
        lemma_text_le_transitive(a.drop_first(), b.drop_first(), c.drop_first());
    }
}

pub proof fn lemma_text_le_antisymmetric(a: Seq<char>, b: Seq<char>)
    requires
        text_le(a, b),
        text_le(b, a),
    ensures
        a == b,
    decreases a.len(),
{
    if a.len() > 0 && b.len() > 0 {
        assert(a[0] == b[0]) by {
            if a[0] != b[0] {
                assert((a[0] as u32) != (b[0] as u32));
            }
        }
        lemma_text_le_antisymmetric(a.drop_first(), b.drop_first());
        assert(a =~= seq![a[0]] + a.drop_first());
        assert(b =~= seq![b[0]] + b.drop_first());
    }
}

/// The entries are ordered by name.
pub open spec fn sorted_by_name(s: Seq<SManifestFile>) -> bool {
    forall|i: int, j: int| 0 <= i < j < s.len() ==> text_le(#[trigger] s[i].file_name, #[trigger] s[j].file_name)
}

proof fn lemma_insert_by_name_facts(sorted: Seq<SManifestFile>, x: SManifestFile)
    requires
        sorted_by_name(sorted),
    ensures
        ({
            let p = match first_where(sorted.len() as int, name_after(sorted, x.file_name)) {
                Some(i) => i,
                None => sorted.len() as int,
            };
            &&& 0 <= p <= sorted.len()
            &&& forall|i: int| 0 <= i < p ==> text_le(#[trigger] sorted[i].file_name, x.file_name)
            &&& forall|i: int| p <= i < sorted.len() ==> text_le(x.file_name, #[trigger] sorted[i].file_name)
            &&& forall|i: int| p <= i < sorted.len() ==> sorted[i].file_name != x.file_name
        }),
{
    let pr = name_after(sorted, x.file_name);
    lemma_first_where_facts(sorted.len() as int, pr);
    let p = match first_where(sorted.len() as int, pr) {
        Some(i) => i,
        None => sorted.len() as int,
    };
    assert forall|i: int| 0 <= i < p implies text_le(#[trigger] sorted[i].file_name, x.file_name) by {
        assert(!pr(i));
    }
    assert forall|i: int| p <= i < sorted.len() implies text_le(x.file_name, #[trigger] sorted[i].file_name)
        && sorted[i].file_name != x.file_name by {
        assert(pr(p));
        lemma_text_le_total(sorted[p].file_name, x.file_name);
        if i > p {
            assert(text_le(sorted[p].file_name, sorted[i].file_name));
            lemma_text_le_transitive(x.file_name, sorted[p].file_name, sorted[i].file_name);
        }
        if sorted[i].file_name == x.file_name {
            lemma_text_le_reflexive(x.file_name);
            if i > p {
                assert(text_le(sorted[p].file_name, sorted[i].file_name));
            }
        }
    }
}

proof fn lemma_insert_by_name_sorted(sorted: Seq<SManifestFile>, x: SManifestFile)
    requires
        sorted_by_name(sorted),
    ensures
        sorted_by_name(insert_by_name(sorted, x)),
{
    lemma_insert_by_name_facts(sorted, x);
    let p = match first_where(sorted.len() as int, name_after(sorted, x.file_name)) {
        Some(i) => i,
        None => sorted.len() as int,
    };
    let r = insert_by_name(sorted, x);
    assert(r.len() == sorted.len() + 1);
    assert forall|i: int, j: int| 0 <= i < j < r.len() implies text_le(#[trigger] r[i].file_name, #[trigger] r[j].file_name) by {
        if j < p {
            assert(r[i] == sorted[i] && r[j] == sorted[j]);
        } else if j == p {
            assert(r[i] == sorted[i] && r[j] == x);
        } else if i < p {
            assert(r[i] == sorted[i] && r[j] == sorted[j - 1]);
            assert(text_le(sorted[i].file_name, x.file_name));
            assert(text_le(x.file_name, sorted[j - 1].file_name));
            lemma_text_le_transitive(sorted[i].file_name, x.file_name, sorted[j - 1].file_name);
        } else if i == p {
            assert(r[i] == x && r[j] == sorted[j - 1]);
        } else {
            assert(r[i] == sorted[i - 1] && r[j] == sorted[j - 1]);
        }
    }
}

pub proof fn lemma_sort_by_name_sorted(s: Seq<SManifestFile>)
    ensures
        sorted_by_name(sort_by_name(s)),
    decreases s.len(),
{
    if s.len() > 0 {
        lemma_sort_by_name_sorted(s.drop_last());
        lemma_insert_by_name_sorted(sort_by_name(s.drop_last()), s.last());
    }
}

/// The first entry named `name`.
pub open spec fn first_named(s: Seq<SManifestFile>, name: Seq<char>) -> Option<SManifestFile> {
    match first_where(s.len() as int, file_named(s, name)) {
        Some(i) => Some(s[i]),
        None => None,
    }
}

proof fn lemma_first_named_at(s: Seq<SManifestFile>, name: Seq<char>, k: int)
    requires
        0 <= k < s.len(),
        s[k].file_name == name,
        forall|j: int| 0 <= j < k ==> s[j].file_name != name,
    ensures
        first_named(s, name) == Some(s[k]),
{
    assert forall|j: int| 0 <= j < k implies !#[trigger] file_named(s, name)(j) by {}
    lemma_first_where_some(s.len() as int, file_named(s, name), k);
}

proof fn lemma_first_named_none(s: Seq<SManifestFile>, name: Seq<char>)
    requires
        forall|j: int| 0 <= j < s.len() ==> s[j].file_name != name,
    ensures
        first_named(s, name) is None,
{
    assert forall|j: int| 0 <= j < s.len() implies !#[trigger] file_named(s, name)(j) by {}
    lemma_first_where_none(s.len() as int, file_named(s, name));
}

proof fn lemma_first_named_facts(s: Seq<SManifestFile>, name: Seq<char>)
    ensures
        first_named(s, name) is None ==> forall|j: int| 0 <= j < s.len() ==> s[j].file_name != name,
        first_named(s, name) is Some ==> exists|k: int|
            0 <= k < s.len() && s[k].file_name == name && first_named(s, name) == Some(s[k]) && forall|j: int|
                0 <= j < k ==> s[j].file_name != name,
{
    let pr = file_named(s, name);
    lemma_first_where_facts(s.len() as int, pr);
    if first_named(s, name) is None {
        assert forall|j: int| 0 <= j < s.len() implies s[j].file_name != name by {
            assert(!pr(j));
        }
    } else {
        let k = first_where(s.len() as int, pr)->Some_0;
        assert forall|j: int| 0 <= j < k implies s[j].file_name != name by {
            assert(!pr(j));
        }
        assert(pr(k));
    }
}

proof fn lemma_insert_first_named(sorted: Seq<SManifestFile>, x: SManifestFile, name: Seq<char>)
    requires
        sorted_by_name(sorted),
    ensures
        first_named(insert_by_name(sorted, x), name) == (if first_named(sorted, name) is Some {
            first_named(sorted, name)
        } else if x.file_name == name {
            Some(x)
        } else {
            None
        }),
{
    lemma_insert_by_name_facts(sorted, x);
    let p = match first_where(sorted.len() as int, name_after(sorted, x.file_name)) {
        Some(i) => i,
        None => sorted.len() as int,
    };
    let r = insert_by_name(sorted, x);
    assert(r.len() == sorted.len() + 1);
    assert forall|j: int| 0 <= j < p implies r[j] == sorted[j] by {}
    assert(r[p] == x);
    assert forall|j: int| p < j < r.len() implies r[j] == sorted[j - 1] by {}
    lemma_first_named_facts(sorted, name);
    if first_named(sorted, name) is Some {
        let k = choose|k: int|
            0 <= k < sorted.len() && sorted[k].file_name == name && first_named(sorted, name) == Some(sorted[k])
                && forall|j: int| 0 <= j < k ==> sorted[j].file_name != name;
        if k < p {
            lemma_first_named_at(r, name, k);
        } else {
            assert(x.file_name != name);
            assert forall|j: int| 0 <= j < k + 1 implies r[j].file_name != name by {
                if j < p {
                    assert(r[j] == sorted[j]);
                } else if j > p {
                    assert(r[j] == sorted[j - 1]);
                }
            }
            lemma_first_named_at(r, name, k + 1);
        }
    } else if x.file_name == name {
        lemma_first_named_at(r, name, p);
    } else {
        assert forall|j: int| 0 <= j < r.len() implies r[j].file_name != name by {
            if j < p {
                assert(r[j] == sorted[j]);
            } else if j > p {
                assert(r[j] == sorted[j - 1]);
            }
        }
        lemma_first_named_none(r, name);
    }
}

proof fn lemma_first_named_push(s: Seq<SManifestFile>, x: SManifestFile, name: Seq<char>)
    ensures
        first_named(s.push(x), name) == (if first_named(s, name) is Some {
            first_named(s, name)
        } else if x.file_name == name {
            Some(x)
        } else {
            None
        }),
{
    let r = s.push(x);
    lemma_first_named_facts(s, name);
    if first_named(s, name) is Some {
        let k = choose|k: int|
            0 <= k < s.len() && s[k].file_name == name && first_named(s, name) == Some(s[k]) && forall|j: int|
                0 <= j < k ==> s[j].file_name != name;
        lemma_first_named_at(r, name, k);
    } else if x.file_name == name {
        lemma_first_named_at(r, name, s.len() as int);
    } else {
        lemma_first_named_none(r, name);
    }
}

/// Sorting by name keeps, for every name, which entry comes first with it:
/// the order is stable.
pub proof fn lemma_sort_keeps_first_named(s: Seq<SManifestFile>, name: Seq<char>)
    ensures
        first_named(sort_by_name(s), name) == first_named(s, name),
    decreases s.len(),
{
    if s.len() > 0 {
        lemma_sort_keeps_first_named(s.drop_last(), name);
        lemma_sort_by_name_sorted(s.drop_last());
        lemma_insert_first_named(sort_by_name(s.drop_last()), s.last(), name);
        assert(s =~= s.drop_last().push(s.last()));
        lemma_first_named_push(s.drop_last(), s.last(), name);
    } else {
        lemma_first_named_none(sort_by_name(s), name);
        lemma_first_named_none(s, name);
    }
}

/// The manifest is of the version and checksum algorithm this app writes.
pub open spec fn current_format(m: SManifest) -> bool {
    m.version == MANIFEST_VERSION && m.checksum_algorithm == CHECKSUM_ALGORITHM@
}

proof fn lemma_lookup_is_first_named(m: SManifest, name: Seq<char>)
    requires
        current_format(m),
    ensures
        lookup_file(m, name) == first_named(m.files, name),
{
}

/// Recording an entry makes it the one a lookup of its name finds, and
/// leaves what a lookup of any other name finds as it was.
pub proof fn lemma_update_file_lookup(m: SManifest, f: SManifestFile, name: Seq<char>)
    requires
        current_format(m),
    ensures
        current_format(update_file(m, f)),
        lookup_file(update_file(m, f), name) == (if name == f.file_name {
            Some(f)
        } else {
            lookup_file(m, name)
        }),
{
    let files2 = match first_where(m.files.len() as int, file_named(m.files, f.file_name)) {
        Some(i) => m.files.update(i, f),
        None => m.files.push(f),
    };
    lemma_sort_keeps_first_named(files2, name);
    lemma_first_where_facts(m.files.len() as int, file_named(m.files, f.file_name));
    match first_where(m.files.len() as int, file_named(m.files, f.file_name)) {
        Some(i) => {
            assert(file_named(m.files, f.file_name)(i));
            assert forall|j: int| 0 <= j < i implies m.files[j].file_name != f.file_name by {
                assert(!file_named(m.files, f.file_name)(j));
            }
            if name == f.file_name {
                lemma_first_named_at(files2, name, i);
            } else {
                lemma_first_named_facts(m.files, name);
                if first_named(m.files, name) is Some {
                    let k = choose|k: int|
                        0 <= k < m.files.len() && m.files[k].file_name == name && first_named(m.files, name) == Some(
                            m.files[k],
                        ) && forall|j: int| 0 <= j < k ==> m.files[j].file_name != name;
                    assert(k != i);
                    lemma_first_named_at(files2, name, k);
                } else {
                    lemma_first_named_none(files2, name);
                }
            }
        },
        None => {
            lemma_first_named_push(m.files, f, name);
            if name == f.file_name {
                lemma_first_named_facts(m.files, name);
                assert forall|j: int| 0 <= j < m.files.len() implies m.files[j].file_name != name by {
                    assert(!file_named(m.files, f.file_name)(j));
                }
                lemma_first_named_none(m.files, name);
            }
        },
    }
}

/// The last index below `n` whose entry is named `name`.
pub open spec fn last_named(files: Seq<SManifestFile>, name: Seq<char>) -> Option<int> {
    crate::seq_util::last_where(files.len() as int, file_named(files, name))
}

/// After recording `files` in turn, a lookup of a name finds the last of
/// them with that name, or what it found before when none has it.
pub proof fn lemma_update_all_lookup(m: SManifest, files: Seq<SManifestFile>, name: Seq<char>)
    requires
        current_format(m),
    ensures
        current_format(update_all(m, files)),
        lookup_file(update_all(m, files), name) == match last_named(files, name) {
            Some(j) => Some(files[j]),
            None => lookup_file(m, name),
        },
    decreases files.len(),
{
    if files.len() == 0 {
        crate::seq_util::lemma_last_where_none(0, file_named(files, name));
    } else {
        let init = files.drop_last();
        lemma_update_all_lookup(m, init, name);
        lemma_update_file_lookup(update_all(m, init), files.last(), name);
        let n = files.len() as int;
        if files.last().file_name == name {
            crate::seq_util::lemma_last_where_some(n, file_named(files, name), n - 1);
        } else {
            crate::seq_util::lemma_last_where_facts(init.len() as int, file_named(init, name));
            match last_named(init, name) {
                Some(j) => {
                    assert(file_named(init, name)(j));
                    assert forall|k: int| j < k < n implies !#[trigger] file_named(files, name)(k) by {
                        if k < n - 1 {
                            assert(!file_named(init, name)(k));
                        }
                    }
                    crate::seq_util::lemma_last_where_some(n, file_named(files, name), j);
                },
                None => {
                    assert forall|k: int| 0 <= k < n implies !#[trigger] file_named(files, name)(k) by {
                        if k < n - 1 {
                            assert(!file_named(init, name)(k));
                        }
                    }
                    crate::seq_util::lemma_last_where_none(n, file_named(files, name));
                },
            }
        }
    }
}

/// The entry recorded for `content` written as `file_name` at `seconds`.
pub open spec fn manifest_entry(file_name: Seq<char>, content: Seq<char>, seconds: u64) -> SManifestFile {
    SManifestFile {
        file_name,
        checksum: checksum(vstd::utf8::encode_utf8(content)),
        byte_len: vstd::utf8::encode_utf8(content).len() as u64,
        installed_unix_seconds: seconds,
    }
}

/// A file the app wrote and recorded, previewed again while its bytes are
/// still those written, is unchanged: no overwrite warning. `names` and
/// `contents` are what the install wrote, in order; the manifest loaded
/// before (if any) is of the current format.
pub proof fn lemma_written_file_is_unchanged(
    loaded: Option<SManifest>,
    names: Seq<Seq<char>>,
    contents: Seq<Seq<char>>,
    seconds: u64,
    j: int,
)
    requires
        names.len() == contents.len(),
        0 <= j < names.len(),
        forall|k: int| j < k < names.len() ==> names[k] != names[j],
        loaded matches Some(m) ==> current_format(m),
    ensures
        classify(
            names[j],
            true,
            Some(vstd::utf8::encode_utf8(contents[j])),
            Some(
                update_all(
                    match loaded {
                        Some(m) => m,
                        None => empty_manifest(),
                    },
                    Seq::new(names.len(), |k: int| manifest_entry(names[k], contents[k], seconds)),
                ),
            ),
        ) == FileModificationState::Unchanged,
{
    let base = match loaded {
        Some(m) => m,
        None => empty_manifest(),
    };
    let files = Seq::new(names.len(), |k: int| manifest_entry(names[k], contents[k], seconds));
    lemma_update_all_lookup(base, files, names[j]);
    assert forall|k: int| j < k < files.len() implies !#[trigger] file_named(files, names[j])(k) by {}
    crate::seq_util::lemma_last_where_some(files.len() as int, file_named(files, names[j]), j);
}

proof fn lemma_filter_first_named(s: Seq<SManifestFile>, keep: spec_fn(int) -> bool, name: Seq<char>, n: int)
    requires
        0 <= n <= s.len(),
    ensures
        (forall|i: int| 0 <= i < n && (#[trigger] s[i]).file_name == name ==> keep(i)) ==> first_named(
            filter_prefix(s, keep, n),
            name,
        ) == first_named(s.take(n), name),
        (forall|i: int| 0 <= i < n && #[trigger] keep(i) ==> s[i].file_name != name) ==> first_named(
            filter_prefix(s, keep, n),
            name,
        ) is None,
    decreases n,
{
    if n == 0 {
        lemma_first_named_none(filter_prefix(s, keep, 0), name);
        lemma_first_named_none(s.take(0), name);
    } else {
        lemma_filter_first_named(s, keep, name, n - 1);
        let prev = filter_prefix(s, keep, n - 1);
        assert(s.take(n) =~= s.take(n - 1).push(s[n - 1]));
        lemma_first_named_push(s.take(n - 1), s[n - 1], name);
        lemma_first_named_push(prev, s[n - 1], name);
        if forall|i: int| 0 <= i < n && (#[trigger] s[i]).file_name == name ==> keep(i) {
            assert(forall|i: int| 0 <= i < n - 1 && (#[trigger] s[i]).file_name == name ==> keep(i));
        }
        if forall|i: int| 0 <= i < n && #[trigger] keep(i) ==> s[i].file_name != name {
            assert(forall|i: int| 0 <= i < n - 1 && #[trigger] keep(i) ==> s[i].file_name != name);
        }
    }
}

/// After the entries named in `names` are removed, a lookup of any of them
/// finds nothing, and a lookup of any other name finds what it found before.
pub proof fn lemma_remove_files_lookup(m: SManifest, names: Seq<Seq<char>>, name: Seq<char>)
    ensures
        lookup_file(remove_files(m, names), name) == (if names.contains(name) {
            None
        } else {
            lookup_file(m, name)
        }),
{
    let keep = not_listed(m.files, names);
    lemma_filter_first_named(m.files, keep, name, m.files.len() as int);
    assert(m.files.take(m.files.len() as int) =~= m.files);
    if names.contains(name) {
        assert forall|i: int| 0 <= i < m.files.len() && #[trigger] keep(i) implies m.files[i].file_name != name by {}
    } else {
        assert forall|i: int| 0 <= i < m.files.len() && (#[trigger] m.files[i]).file_name == name implies keep(i) by {}
    }
}

} // verus!
