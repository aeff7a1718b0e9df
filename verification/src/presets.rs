//! VRAM presets: reading a preset id, finding a preset, and the ordered list
//! of the presets found in the presets folder.
use vstd::prelude::*;
use crate::seq_util::{first_where, lemma_first_where_facts, lemma_first_where_none, lemma_first_where_some};
use crate::text::{
    append_all, chars_of, decimal, decimal_vec, ends_with, ends_with_vec, owned, parse_unsigned,
    parse_unsigned_vec, slice_of, string_of,
};
use crate::{CoreError, CoreResult};

verus! {

/// A streaming preset: `<vram>GB_VRAM_<pool>MB`, with its folder and INI files.
#[derive(Debug, Clone, PartialEq, Eq)]
pub struct Preset {
    pub id: String,
    pub directory: String,
    pub vram_gb: u32,
    pub pool_mb: u32,
    pub engine_ini: String,
    pub scalability_ini: String,
}

pub struct SPreset {
    pub id: Seq<char>,
    pub directory: Seq<char>,
    pub vram_gb: u32,
    pub pool_mb: u32,
    pub engine_ini: Seq<char>,
    pub scalability_ini: Seq<char>,
}

impl View for Preset {
    type V = SPreset;

    open spec fn view(&self) -> SPreset {
        SPreset {
            id: self.id@,
            directory: self.directory@,
            vram_gb: self.vram_gb,
            pool_mb: self.pool_mb,
            engine_ini: self.engine_ini@,
            scalability_ini: self.scalability_ini@,
        }
    }
}

pub open spec fn presets_view(v: Seq<Preset>) -> Seq<SPreset> {
    v.map_values(|p: Preset| p@)
}

pub fn clone_preset(p: &Preset) -> (r: Preset)
    ensures
        r@ == p@,
{
    Preset {
        id: p.id.clone(),
        directory: p.directory.clone(),
        vram_gb: p.vram_gb,
        pool_mb: p.pool_mb,
        engine_ini: p.engine_ini.clone(),
        scalability_ini: p.scalability_ini.clone(),
    }
}

/// `<vram> GB VRAM / <pool> MB pool`.
pub open spec fn preset_label(vram_gb: u32, pool_mb: u32) -> Seq<char> {
    decimal(vram_gb as nat) + " GB VRAM / "@ + decimal(pool_mb as nat) + " MB pool"@
}

impl Preset {
    pub fn label(&self) -> (r: String)
        ensures
            r@ == preset_label(self.vram_gb, self.pool_mb),
    {
        let mut s = decimal_vec(self.vram_gb as u128);
        append_all(&mut s, &chars_of(" GB VRAM / "));
        append_all(&mut s, &decimal_vec(self.pool_mb as u128));
        append_all(&mut s, &chars_of(" MB pool"));
        string_of(&s)
    }
}

pub open spec fn occurs_at(s: Seq<char>, p: Seq<char>) -> spec_fn(int) -> bool {
    |i: int| 0 <= i && i + p.len() <= s.len() && s.subrange(i, i + p.len()) == p
}

/// Where `p` first occurs in `s`.
pub open spec fn find_sub(s: Seq<char>, p: Seq<char>) -> Option<int> {
    first_where(s.len() as int, occurs_at(s, p))
}

pub fn find_sub_vec(s: &Vec<char>, p: &Vec<char>) -> (r: Option<usize>)
    ensures
        match r {
            Some(i) => find_sub(s@, p@) == Some(i as int) && i + p.len() <= s.len(),
            None => find_sub(s@, p@) is None,
        },
{
    let ghost pred = occurs_at(s@, p@);
    let mut i: usize = 0;
    while i < s.len()
        invariant
            i <= s.len(),
            pred == occurs_at(s@, p@),
            forall|j: int| 0 <= j < i ==> !#[trigger] pred(j),
        decreases s.len() - i,
    {
        if p.len() <= s.len() - i {
            let part = slice_of(s, i, i + p.len());
            if crate::ini_doc::vec_eq(&part, p) {
                proof {
                    lemma_first_where_some(s.len() as int, pred, i as int);
                }
                return Some(i);
            }
        }
        i += 1;
    }
    proof {
        lemma_first_where_none(s.len() as int, pred);
    }
    None
}

pub open spec fn u32_max() -> nat {
    0xffff_ffff
}

/// The VRAM and pool sizes that a preset id `<vram>GB_VRAM_<pool>MB` names.
pub open spec fn preset_id_parts(id: Seq<char>) -> Option<(u32, u32)> {
    match find_sub(id, "GB_VRAM_"@) {
        None => None,
        Some(i) => {
            let rest = id.skip(i + 8);
            if !ends_with(rest, "MB"@) {
                None
            } else {
                match (parse_unsigned(id.take(i), u32_max()), parse_unsigned(rest.take(rest.len() - 2), u32_max())) {
                    (Some(v), Some(p)) => Some((v as u32, p as u32)),
                    _ => None,
                }
            }
        },
    }
}

pub fn parse_preset_id(id: &str) -> (r: Option<(u32, u32)>)
    ensures
        r == preset_id_parts(id@),
{
    proof {
        reveal_strlit("GB_VRAM_");
    }
    let s = chars_of(id);
    let sep = chars_of("GB_VRAM_");
    assert(sep@.len() == 8);
    let i = match find_sub_vec(&s, &sep) {
        None => return None,
        Some(i) => i,
    };
    let rest = slice_of(&s, i + 8, s.len());
    assert(rest@ =~= s@.skip(i + 8));
    let mb = chars_of("MB");
    proof {
        reveal_strlit("MB");
    }
    if !ends_with_vec(&rest, &mb) {
        return None;
    }
    let head = slice_of(&s, 0, i);
    assert(head@ =~= s@.take(i as int));
    let pool_part = slice_of(&rest, 0, rest.len() - 2);
    assert(pool_part@ =~= rest@.take(rest@.len() - 2));
    let v = parse_unsigned_vec(&head, 0xffff_ffff);
    let p = parse_unsigned_vec(&pool_part, 0xffff_ffff);
    match (v, p) {
        (Some(v), Some(p)) => Some((v as u32, p as u32)),
        _ => None,
    }
}

/// `unknown preset '<id>'`.
pub open spec fn unknown_preset_message(id: Seq<char>) -> Seq<char> {
    "unknown preset '"@ + id + "'"@
}

pub open spec fn preset_with_id(ps: Seq<SPreset>, id: Seq<char>) -> spec_fn(int) -> bool {
    |i: int| ps[i].id == id
}

/// The first preset with the id, or the unknown preset error.
pub open spec fn lookup_preset(ps: Seq<SPreset>, id: Seq<char>) -> Result<SPreset, Seq<char>> {
    match first_where(ps.len() as int, preset_with_id(ps, id)) {
        Some(i) => Ok(ps[i]),
        None => Err(unknown_preset_message(id)),
    }
}

pub fn find_preset(presets: &Vec<Preset>, preset_id: &str) -> (r: CoreResult<Preset>)
    ensures
        match r {
            Ok(p) => lookup_preset(presets_view(presets@), preset_id@) == Ok::<SPreset, Seq<char>>(p@),
            Err(e) => lookup_preset(presets_view(presets@), preset_id@) == Err::<SPreset, Seq<char>>(e.message@),
        },
{
    let ghost pv = presets_view(presets@);
    let want = owned(preset_id);
    let mut i: usize = 0;
    while i < presets.len()
        invariant
            i <= presets.len(),
            pv == presets_view(presets@),
            want@ == preset_id@,
            forall|j: int| 0 <= j < i ==> !#[trigger] preset_with_id(pv, preset_id@)(j),
        decreases presets.len() - i,
    {
        if presets[i].id == want {
            proof {
                lemma_first_where_some(pv.len() as int, preset_with_id(pv, preset_id@), i as int);
            }
            return Ok(clone_preset(&presets[i]));
        }
        i += 1;
    }
    proof {
        lemma_first_where_none(pv.len() as int, preset_with_id(pv, preset_id@));
    }
    let mut m = chars_of("unknown preset '");
    append_all(&mut m, &chars_of(preset_id));
    append_all(&mut m, &chars_of("'"));
    Err(CoreError::new(string_of(&m)))
}

/// An entry of the presets folder, as the folder listing saw it.
pub struct PresetDirEntry {
    pub directory: String,
    pub is_dir: bool,
    pub name: Option<String>,
    pub engine_ini: String,
    pub engine_ini_is_file: bool,
    pub scalability_ini: String,
    pub scalability_ini_is_file: bool,
}

/// The preset an entry holds: a folder with a readable name that is a
/// preset id and both INI files present.
pub open spec fn entry_preset(e: PresetDirEntry) -> Option<SPreset> {
    if !e.is_dir {
        None
    } else {
        match e.name {
            None => None,
            Some(n) => match preset_id_parts(n@) {
                None => None,
                Some((v, p)) => if !e.engine_ini_is_file || !e.scalability_ini_is_file {
                    None
                } else {
                    Some(SPreset {
                        id: n@,
                        directory: e.directory@,
                        vram_gb: v,
                        pool_mb: p,
                        engine_ini: e.engine_ini@,
                        scalability_ini: e.scalability_ini@,
                    })
                },
            },
        }
    }
}

pub open spec fn entry_presets(es: Seq<PresetDirEntry>) -> Seq<SPreset>
    decreases es.len(),
{
    if es.len() == 0 {
        seq![]
    } else {
        let r = entry_presets(es.drop_last());
        match entry_preset(es.last()) {
            Some(p) => r.push(p),
            None => r,
        }
    }
}

/// Presets order by VRAM, then by pool size.
pub open spec fn preset_key_le(a: SPreset, b: SPreset) -> bool {
    a.vram_gb < b.vram_gb || (a.vram_gb == b.vram_gb && a.pool_mb <= b.pool_mb)
}

pub open spec fn preset_after(sorted: Seq<SPreset>, x: SPreset) -> spec_fn(int) -> bool {
    |i: int| !preset_key_le(sorted[i], x)
}

pub open spec fn insert_preset(sorted: Seq<SPreset>, x: SPreset) -> Seq<SPreset> {
    let p = match first_where(sorted.len() as int, preset_after(sorted, x)) {
        Some(i) => i,
        None => sorted.len() as int,
    };
    sorted.take(p).push(x) + sorted.skip(p)
}

/// Stable sort by (VRAM, pool).
pub open spec fn sort_presets(s: Seq<SPreset>) -> Seq<SPreset>
    decreases s.len(),
{
    if s.len() == 0 {
        s
    } else {
        insert_preset(sort_presets(s.drop_last()), s.last())
    }
}

proof fn lemma_presets_view_push(v: Seq<Preset>, x: Preset)
    ensures
        presets_view(v.push(x)) == presets_view(v).push(x@),
{
    assert(presets_view(v.push(x)) =~= presets_view(v).push(x@));
}

fn first_preset_after(sorted: &Vec<Preset>, x: &Preset) -> (r: Option<usize>)
    ensures
        match r {
            Some(i) => first_where(sorted@.len() as int, preset_after(presets_view(sorted@), x@)) == Some(i as int) && i < sorted.len(),
            None => first_where(sorted@.len() as int, preset_after(presets_view(sorted@), x@)) is None,
        },
{
    let ghost sv = presets_view(sorted@);
    let mut p: usize = 0;
    while p < sorted.len()
        invariant
            p <= sorted.len(),
            sv == presets_view(sorted@),
            forall|j: int| 0 <= j < p ==> !#[trigger] preset_after(sv, x@)(j),
        decreases sorted.len() - p,
    {
        let q = &sorted[p];
        let le = q.vram_gb < x.vram_gb || (q.vram_gb == x.vram_gb && q.pool_mb <= x.pool_mb);
        if !le {
            proof {
                lemma_first_where_some(sv.len() as int, preset_after(sv, x@), p as int);
            }
            return Some(p);
        }
        p += 1;
    }
    proof {
        lemma_first_where_none(sv.len() as int, preset_after(sv, x@));
    }
    None
}

fn insert_preset_vec(sorted: &Vec<Preset>, x: Preset) -> (r: Vec<Preset>)
    ensures
        presets_view(r@) == insert_preset(presets_view(sorted@), x@),
{
    let ghost sv = presets_view(sorted@);
    let p = match first_preset_after(sorted, &x) {
        Some(i) => i,
        None => sorted.len(),
    };
    let mut out: Vec<Preset> = Vec::new();
    let mut i: usize = 0;
    assert(presets_view(out@) =~= sv.take(0));
    while i < p
        invariant
            i <= p <= sorted.len(),
            sv == presets_view(sorted@),
            presets_view(out@) == sv.take(i as int),
        decreases p - i,
    {
        let f = clone_preset(&sorted[i]);
        proof {
            lemma_presets_view_push(out@, f);
        }
        out.push(f);
        assert(presets_view(out@) =~= sv.take(i + 1));
        i += 1;
    }
    let ghost xv = x@;
    proof {
        lemma_presets_view_push(out@, x);
    }
    out.push(x);
    let ghost mid = presets_view(out@);
    assert(mid =~= sv.take(p as int).push(xv));
    let mut j: usize = p;
    while j < sorted.len()
        invariant
            p <= j <= sorted.len(),
            sv == presets_view(sorted@),
            presets_view(out@) == mid + sv.subrange(p as int, j as int),
        decreases sorted.len() - j,
    {
        let f = clone_preset(&sorted[j]);
        proof {
            lemma_presets_view_push(out@, f);
        }
        out.push(f);
        assert(presets_view(out@) =~= mid + sv.subrange(p as int, j + 1));
        j += 1;
    }
    assert(sv.subrange(p as int, sorted.len() as int) =~= sv.skip(p as int));
    out
}

/// The presets of a folder listing, ordered by (VRAM, pool); entries that
/// are not presets are skipped.
pub fn list_presets(entries: &Vec<PresetDirEntry>) -> (r: Vec<Preset>)
    ensures
        presets_view(r@) == sort_presets(entry_presets(entries@)),
{
    let mut found: Vec<Preset> = Vec::new();
    let mut i: usize = 0;
    assert(presets_view(found@) =~= Seq::<SPreset>::empty());
    assert(entries@.take(0) =~= Seq::<PresetDirEntry>::empty());
    while i < entries.len()
        invariant
            i <= entries.len(),
            presets_view(found@) == entry_presets(entries@.take(i as int)),
        decreases entries.len() - i,
    {
        proof {
            assert(entries@.take(i + 1).drop_last() =~= entries@.take(i as int));
        }
        let e = &entries[i];
        if e.is_dir {
            match &e.name {
                Some(n) => match parse_preset_id(n.as_str()) {
                    Some((v, p)) => {
                        if e.engine_ini_is_file && e.scalability_ini_is_file {
                            let preset = Preset {
                                id: n.clone(),
                                directory: e.directory.clone(),
                                vram_gb: v,
                                pool_mb: p,
                                engine_ini: e.engine_ini.clone(),
                                scalability_ini: e.scalability_ini.clone(),
                            };
                            proof {
                                lemma_presets_view_push(found@, preset);
                            }
                            found.push(preset);
                        }
                    },
                    None => {},
                },
                None => {},
            }
        }
        i += 1;
    }
    assert(entries@.take(entries.len() as int) =~= entries@);
    let ghost fv = presets_view(found@);
    let mut out: Vec<Preset> = Vec::new();
    let mut k: usize = 0;
    assert(presets_view(out@) =~= Seq::<SPreset>::empty());
    assert(fv.take(0) =~= Seq::<SPreset>::empty());
    while k < found.len()
        invariant
            k <= found.len(),
            fv == presets_view(found@),
            presets_view(out@) == sort_presets(fv.take(k as int)),
        decreases found.len() - k,
    {
        proof {
            assert(fv.take(k + 1).drop_last() =~= fv.take(k as int));
        }
        out = insert_preset_vec(&out, clone_preset(&found[k]));
        k += 1;
    }
    assert(fv.take(found.len() as int) =~= fv);
    out
}

// ---------------------------------------------------------------------------
// The order of the list.

/// Each preset comes before every later one by (VRAM, pool).
pub open spec fn presets_sorted(s: Seq<SPreset>) -> bool {
    forall|i: int, j: int| 0 <= i < j < s.len() ==> preset_key_le(#[trigger] s[i], #[trigger] s[j])
}

proof fn lemma_insert_preset(sorted: Seq<SPreset>, x: SPreset)
    requires
        presets_sorted(sorted),
    ensures
        presets_sorted(insert_preset(sorted, x)),
        insert_preset(sorted, x).len() == sorted.len() + 1,
        insert_preset(sorted, x).contains(x),
        forall|i: int| 0 <= i < sorted.len() ==> insert_preset(sorted, x).contains(#[trigger] sorted[i]),
{
    let pr = preset_after(sorted, x);
    lemma_first_where_facts(sorted.len() as int, pr);
    let p = match first_where(sorted.len() as int, pr) {
        Some(i) => i,
        None => sorted.len() as int,
    };
    let r = insert_preset(sorted, x);
    assert(r.len() == sorted.len() + 1);
    assert forall|i: int| 0 <= i < p implies preset_key_le(#[trigger] sorted[i], x) by {
        assert(!pr(i));
    }
    assert forall|i: int| p <= i < sorted.len() implies preset_key_le(x, #[trigger] sorted[i]) by {
        assert(pr(p));
        if i > p {
            assert(preset_key_le(sorted[p], sorted[i]));
        }
    }
    assert forall|i: int, j: int| 0 <= i < j < r.len() implies preset_key_le(#[trigger] r[i], #[trigger] r[j]) by {
        if j < p {
            assert(r[i] == sorted[i] && r[j] == sorted[j]);
        } else if j == p {
            assert(r[i] == sorted[i] && r[j] == x);
        } else if i < p {
            assert(r[i] == sorted[i] && r[j] == sorted[j - 1]);
        } else if i == p {
            assert(r[i] == x && r[j] == sorted[j - 1]);
        } else {
            assert(r[i] == sorted[i - 1] && r[j] == sorted[j - 1]);
        }
    }
    assert(r[p] == x);
    assert forall|i: int| 0 <= i < sorted.len() implies r.contains(#[trigger] sorted[i]) by {
        if i < p {
            assert(r[i] == sorted[i]);
        } else {
            assert(r[i + 1] == sorted[i]);
        }
    }
}

/// The presets are listed in ascending order of VRAM, then of pool size;
/// every preset found is listed, and nothing else.
pub proof fn lemma_list_presets_sorted(s: Seq<SPreset>)
    ensures
        presets_sorted(sort_presets(s)),
        sort_presets(s).len() == s.len(),
        forall|i: int| 0 <= i < s.len() ==> sort_presets(s).contains(#[trigger] s[i]),
    decreases s.len(),
{
    if s.len() > 0 {
        let init = s.drop_last();
        lemma_list_presets_sorted(init);
        lemma_insert_preset(sort_presets(init), s.last());
        let r = sort_presets(s);
        assert forall|i: int| 0 <= i < s.len() implies r.contains(#[trigger] s[i]) by {
            if i < s.len() - 1 {
                assert(s[i] == init[i]);
                let j = choose|j: int| 0 <= j < sort_presets(init).len() && sort_presets(init)[j] == init[i];
                assert(r.contains(sort_presets(init)[j]));
            }
        }
    }
}


/// Finding a preset: it is found exactly when some preset has the asked id,
/// and then it is the first such preset, with that id; otherwise the error
/// names the id.
pub proof fn lemma_lookup_preset_facts(ps: Seq<SPreset>, id: Seq<char>)
    ensures
        lookup_preset(ps, id) is Ok <==> exists|i: int| 0 <= i < ps.len() && #[trigger] ps[i].id == id,
        lookup_preset(ps, id) matches Ok(p) ==> p.id == id && exists|i: int|
            0 <= i < ps.len() && ps[i] == p && forall|j: int| 0 <= j < i ==> #[trigger] ps[j].id != id,
        lookup_preset(ps, id) matches Err(m) ==> m == unknown_preset_message(id),
{
    crate::seq_util::lemma_first_where_facts(ps.len() as int, preset_with_id(ps, id));
    match first_where(ps.len() as int, preset_with_id(ps, id)) {
        Some(i) => {
            assert(preset_with_id(ps, id)(i));
            assert forall|j: int| 0 <= j < i implies #[trigger] ps[j].id != id by {
                assert(!preset_with_id(ps, id)(j));
            }
        },
        None => {
            assert forall|i: int| 0 <= i < ps.len() implies #[trigger] ps[i].id != id by {
                assert(!preset_with_id(ps, id)(i));
            }
        },
    }
}

} // verus!
