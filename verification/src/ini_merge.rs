//! Merging app-managed INI settings into a user's existing INI text while
//! keeping everything the app does not manage.
use vstd::prelude::*;
use crate::ini_doc::{
    block_is_active, blocks_view, clone_line, contains_key, lemma_lines_view_push, lines_view,
    opt_view, parse_blocks, parse_blocks_vec, parse_doc, parse_doc_vec, parse_patch, parse_patch_vec,
    IniLine, IniLineKind, ManagedBlock, PatchDocument, PatchKey, PatchSection, SBlock,
    SKind, SLine, SPatchKey, SPatchSection, keys_view, section_matches, section_sets,
    parse_lines,
};
use crate::ini_line::{
    has_crlf, has_crlf_vec, key_value, key_value_vec, lemma_extract_value_clean, lemma_replace_value_reads, name_eq,
    name_eq_vec, replace_value, replace_value_vec, value_clean, value_rewritable,
};
use crate::seq_util::{
    filter_by, filter_prefix, first_of, first_where, in_order, lemma_in_order_append, lemma_in_order_filter,
    lemma_in_order_splice, lemma_in_order_update, lemma_first_of_append, lemma_first_of_facts,
    lemma_first_of_filter, lemma_first_of_none, lemma_first_of_splice, lemma_first_of_update, last_where, lemma_filter_by_contains, lemma_first_where_facts,
    lemma_first_where_none, lemma_first_where_some, lemma_append_contains, lemma_splice_contains,
    lemma_last_where_none, lemma_last_where_some,
};
use crate::text::{chars_of, is_blank, is_blank_vec, join, seqs, string_of, trim, trim_vec};

verus! {

// ---------------------------------------------------------------------------
// Removing managed settings that the planned text no longer sets.

/// A line survives unless it sets a key that the managed text sets and the
/// planned text does not.
pub open spec fn keeps_setting(l: SLine, planned: Seq<SPatchSection>, managed: Seq<SPatchSection>) -> bool {
    match l.kind {
        SKind::KeyValue(sec, k) => !contains_key(managed, sec, k) || contains_key(planned, sec, k),
        _ => true,
    }
}

pub open spec fn setting_keep(lines: Seq<SLine>, planned: Seq<SPatchSection>, managed: Seq<SPatchSection>) -> spec_fn(int) -> bool {
    |i: int| keeps_setting(lines[i], planned, managed)
}

pub open spec fn remove_inactive_settings(lines: Seq<SLine>, planned: Seq<SPatchSection>, managed: Seq<SPatchSection>) -> Seq<SLine> {
    filter_by(lines, setting_keep(lines, planned, managed))
}

fn remove_inactive_settings_vec(lines: &Vec<IniLine>, planned: &PatchDocument, managed: &PatchDocument) -> (r: Vec<IniLine>)
    ensures
        lines_view(r@) == remove_inactive_settings(lines_view(lines@), planned@, managed@),
{
    let ghost lv = lines_view(lines@);
    let mut out: Vec<IniLine> = Vec::new();
    let mut i: usize = 0;
    assert(lines_view(out@) =~= Seq::<SLine>::empty());
    while i < lines.len()
        invariant
            i <= lines.len(),
            lv == lines_view(lines@),
            lines_view(out@) == filter_prefix(lv, setting_keep(lv, planned@, managed@), i as int),
        decreases lines.len() - i,
    {
        let keep = match &lines[i].kind {
            IniLineKind::KeyValue(sec, k) => !managed.contains_key(sec, k) || planned.contains_key(sec, k),
            _ => true,
        };
        assert(keep == setting_keep(lv, planned@, managed@)(i as int));
        if keep {
            let l = clone_line(&lines[i]);
            proof {
                lemma_lines_view_push(out@, l);
            }
            out.push(l);
        }
        i += 1;
    }
    out
}

// ---------------------------------------------------------------------------
// Removing the comments and empty sections of managed blocks that are off.

/// `raw` is, up to surrounding whitespace, a comment of a block that is off.
pub open spec fn inactive_comment(blocks: Seq<SBlock>, planned: Seq<SPatchSection>, raw: Seq<char>) -> bool {
    exists|b: int, c: int|
        0 <= b < blocks.len() && !block_is_active(#[trigger] blocks[b], planned) && 0 <= c
            < blocks[b].comments.len() && trim(raw) == trim(#[trigger] blocks[b].comments[c])
}

/// `name` matches a section named by a block that is off.
pub open spec fn inactive_section(blocks: Seq<SBlock>, planned: Seq<SPatchSection>, name: Seq<char>) -> bool {
    exists|b: int, s: int|
        0 <= b < blocks.len() && !block_is_active(#[trigger] blocks[b], planned) && 0 <= s
            < blocks[b].sections.len() && name_eq(name, #[trigger] blocks[b].sections[s])
}

pub open spec fn comment_keep(lines: Seq<SLine>, blocks: Seq<SBlock>, planned: Seq<SPatchSection>) -> spec_fn(int) -> bool {
    |i: int| !(lines[i].kind is Other && inactive_comment(blocks, planned, lines[i].raw))
}

/// No key line follows line `idx` before the next section line.
pub open spec fn no_kv_after(lines: Seq<SLine>, idx: int) -> bool {
    forall|j: int|
        idx < j < lines.len() && #[trigger] lines[j].kind is KeyValue ==> exists|k: int|
            idx < k < j && #[trigger] lines[k].kind is Section
}

pub open spec fn empty_section_keep(lines: Seq<SLine>, blocks: Seq<SBlock>, planned: Seq<SPatchSection>) -> spec_fn(int) -> bool {
    |i: int|
        !(lines[i].kind matches SKind::Section(n) && inactive_section(blocks, planned, n) && no_kv_after(
            lines,
            i,
        ))
}

/// Comments of blocks that are off go; then the sections those blocks name
/// go where no key line is left in them.
pub open spec fn remove_scaffolding(lines: Seq<SLine>, planned: Seq<SPatchSection>, blocks: Seq<SBlock>) -> Seq<SLine> {
    let l1 = filter_by(lines, comment_keep(lines, blocks, planned));
    filter_by(l1, empty_section_keep(l1, blocks, planned))
}

fn block_flags(blocks: &Vec<ManagedBlock>, planned: &PatchDocument) -> (r: Vec<bool>)
    ensures
        r.len() == blocks.len(),
        forall|b: int| 0 <= b < blocks.len() ==> r@[b] == block_is_active(#[trigger] blocks_view(blocks@)[b], planned@),
{
    let mut r: Vec<bool> = Vec::new();
    let mut i: usize = 0;
    while i < blocks.len()
        invariant
            i <= blocks.len(),
            r.len() == i,
            forall|b: int| 0 <= b < i ==> r@[b] == block_is_active(#[trigger] blocks_view(blocks@)[b], planned@),
        decreases blocks.len() - i,
    {
        r.push(blocks[i].is_active(planned));
        i += 1;
    }
    r
}

fn inactive_comment_vec(blocks: &Vec<ManagedBlock>, active: &Vec<bool>, planned: &PatchDocument, raw: &Vec<char>) -> (b: bool)
    requires
        active.len() == blocks.len(),
        forall|b: int| 0 <= b < blocks.len() ==> active@[b] == block_is_active(#[trigger] blocks_view(blocks@)[b], planned@),
    ensures
        b == inactive_comment(blocks_view(blocks@), planned@, raw@),
{
    let ghost bv = blocks_view(blocks@);
    let t = trim_vec(raw);
    let mut i: usize = 0;
    while i < blocks.len()
        invariant
            i <= blocks.len(),
            bv == blocks_view(blocks@),
            active.len() == blocks.len(),
            forall|b: int| 0 <= b < blocks.len() ==> active@[b] == block_is_active(#[trigger] bv[b], planned@),
            t@ == trim(raw@),
            forall|b: int, c: int|
                0 <= b < i && !block_is_active(#[trigger] bv[b], planned@) && 0 <= c < bv[b].comments.len()
                    ==> trim(raw@) != trim(#[trigger] bv[b].comments[c]),
        decreases blocks.len() - i,
    {
        if !active[i] {
            let cs = &blocks[i].comments;
            let mut c: usize = 0;
            while c < cs.len()
                invariant
                    i < blocks.len(),
                    bv == blocks_view(blocks@),
                    cs == blocks@[i as int].comments,
                    !block_is_active(bv[i as int], planned@),
                    c <= cs.len(),
                    t@ == trim(raw@),
                    forall|k: int| 0 <= k < c ==> trim(raw@) != trim(#[trigger] bv[i as int].comments[k]),
                decreases cs.len() - c,
            {
                let tc = trim_vec(&cs[c]);
                if crate::ini_doc::vec_eq(&t, &tc) {
                    assert(trim(raw@) == trim(bv[i as int].comments[c as int]));
                    return true;
                }
                c += 1;
            }
        }
        i += 1;
    }
    false
}

fn inactive_section_vec(blocks: &Vec<ManagedBlock>, active: &Vec<bool>, planned: &PatchDocument, name: &Vec<char>) -> (b: bool)
    requires
        active.len() == blocks.len(),
        forall|b: int| 0 <= b < blocks.len() ==> active@[b] == block_is_active(#[trigger] blocks_view(blocks@)[b], planned@),
    ensures
        b == inactive_section(blocks_view(blocks@), planned@, name@),
{
    let ghost bv = blocks_view(blocks@);
    let mut i: usize = 0;
    while i < blocks.len()
        invariant
            i <= blocks.len(),
            bv == blocks_view(blocks@),
            active.len() == blocks.len(),
            forall|b: int| 0 <= b < blocks.len() ==> active@[b] == block_is_active(#[trigger] bv[b], planned@),
            forall|b: int, s: int|
                0 <= b < i && !block_is_active(#[trigger] bv[b], planned@) && 0 <= s < bv[b].sections.len()
                    ==> !name_eq(name@, #[trigger] bv[b].sections[s]),
        decreases blocks.len() - i,
    {
        if !active[i] {
            let ss = &blocks[i].sections;
            let mut s: usize = 0;
            while s < ss.len()
                invariant
                    i < blocks.len(),
                    bv == blocks_view(blocks@),
                    ss == blocks@[i as int].sections,
                    !block_is_active(bv[i as int], planned@),
                    s <= ss.len(),
                    forall|k: int| 0 <= k < s ==> !name_eq(name@, #[trigger] bv[i as int].sections[k]),
                decreases ss.len() - s,
            {
                if name_eq_vec(name, &ss[s]) {
                    assert(name_eq(name@, bv[i as int].sections[s as int]));
                    return true;
                }
                s += 1;
            }
        }
        i += 1;
    }
    false
}

fn no_kv_after_vec(lines: &Vec<IniLine>, idx: usize) -> (b: bool)
    requires
        idx < lines.len(),
    ensures
        b == no_kv_after(lines_view(lines@), idx as int),
{
    let ghost lv = lines_view(lines@);
    let mut j: usize = idx + 1;
    while j < lines.len()
        invariant
            idx < j <= lines.len(),
            lv == lines_view(lines@),
            forall|k: int| idx < k < j ==> !(#[trigger] lv[k].kind is Section) && !(lv[k].kind is KeyValue),
        decreases lines.len() - j,
    {
        match &lines[j].kind {
            IniLineKind::Section(_) => {
                assert forall|m: int| idx < m < lines.len() && #[trigger] lv[m].kind is KeyValue implies exists|k: int|
                    idx < k < m && #[trigger] lv[k].kind is Section by {
                    if m < j {
                    } else if m > j {
                        assert(lv[j as int].kind is Section);
                    }
                }
                return true;
            },
            IniLineKind::KeyValue(_, _) => {
                assert(lv[j as int].kind is KeyValue);
                return false;
            },
            IniLineKind::Other => {},
        }
        j += 1;
    }
    true
}

fn remove_scaffolding_vec(lines: &Vec<IniLine>, planned: &PatchDocument, blocks: &Vec<ManagedBlock>) -> (r: Vec<IniLine>)
    ensures
        lines_view(r@) == remove_scaffolding(lines_view(lines@), planned@, blocks_view(blocks@)),
{
    let active = block_flags(blocks, planned);
    let ghost bv = blocks_view(blocks@);
    let ghost lv = lines_view(lines@);
    let mut l1: Vec<IniLine> = Vec::new();
    let mut i: usize = 0;
    assert(lines_view(l1@) =~= Seq::<SLine>::empty());
    while i < lines.len()
        invariant
            i <= lines.len(),
            lv == lines_view(lines@),
            bv == blocks_view(blocks@),
            active.len() == blocks.len(),
            forall|b: int| 0 <= b < blocks.len() ==> active@[b] == block_is_active(#[trigger] blocks_view(blocks@)[b], planned@),
            lines_view(l1@) == filter_prefix(lv, comment_keep(lv, bv, planned@), i as int),
        decreases lines.len() - i,
    {
        let keep = match &lines[i].kind {
            IniLineKind::Other => !inactive_comment_vec(blocks, &active, planned, &lines[i].raw),
            _ => true,
        };
        assert(keep == comment_keep(lv, bv, planned@)(i as int));
        if keep {
            let l = clone_line(&lines[i]);
            proof {
                lemma_lines_view_push(l1@, l);
            }
            l1.push(l);
        }
        i += 1;
    }
    let ghost v1 = lines_view(l1@);
    let mut out: Vec<IniLine> = Vec::new();
    let mut i: usize = 0;
    assert(lines_view(out@) =~= Seq::<SLine>::empty());
    while i < l1.len()
        invariant
            i <= l1.len(),
            v1 == lines_view(l1@),
            bv == blocks_view(blocks@),
            active.len() == blocks.len(),
            forall|b: int| 0 <= b < blocks.len() ==> active@[b] == block_is_active(#[trigger] blocks_view(blocks@)[b], planned@),
            lines_view(out@) == filter_prefix(v1, empty_section_keep(v1, bv, planned@), i as int),
        decreases l1.len() - i,
    {
        let keep = match &l1[i].kind {
            IniLineKind::Section(n) => !(inactive_section_vec(blocks, &active, planned, n) && no_kv_after_vec(&l1, i)),
            _ => true,
        };
        assert(keep == empty_section_keep(v1, bv, planned@)(i as int));
        if keep {
            let l = clone_line(&l1[i]);
            proof {
                lemma_lines_view_push(out@, l);
            }
            out.push(l);
        }
        i += 1;
    }
    out
}


// ---------------------------------------------------------------------------
// Applying a patch: set each planned key in its section, adding what is missing.

pub open spec fn is_section_named(lines: Seq<SLine>, name: Seq<char>) -> spec_fn(int) -> bool {
    |i: int| lines[i].kind matches SKind::Section(n) && name_eq(n, name)
}

/// The first line that opens a section named `name`.
pub open spec fn first_section_index(lines: Seq<SLine>, name: Seq<char>) -> Option<int> {
    first_where(lines.len() as int, is_section_named(lines, name))
}

pub open spec fn section_after(lines: Seq<SLine>, s: int) -> spec_fn(int) -> bool {
    |i: int| i > s && lines[i].kind is Section
}

/// Where keys missing from section `name` go: before the next section line
/// after its first header, or at the end.
pub open spec fn section_insert_index(lines: Seq<SLine>, name: Seq<char>) -> int {
    match first_section_index(lines, name) {
        None => lines.len() as int,
        Some(s) => match first_where(lines.len() as int, section_after(lines, s)) {
            Some(j) => j,
            None => lines.len() as int,
        },
    }
}

/// The line sets `key` inside a section named `name`.
pub open spec fn line_key_in_section(l: SLine, name: Seq<char>, key: Seq<char>) -> bool {
    l.kind matches SKind::KeyValue(Some(sec), k) && name_eq(sec, name) && name_eq(k, key)
}

pub open spec fn key_in_section(lines: Seq<SLine>, name: Seq<char>, key: Seq<char>) -> spec_fn(int) -> bool {
    |i: int| line_key_in_section(lines[i], name, key)
}

/// All but the first of the lines that set `key` in section `name` go.
pub open spec fn dup_keep(lines: Seq<SLine>, name: Seq<char>, key: Seq<char>, first: int) -> spec_fn(int) -> bool {
    |i: int| !(line_key_in_section(lines[i], name, key) && i != first)
}

/// The line sets `key` outside any section.
pub open spec fn line_top_level_key(l: SLine, key: Seq<char>) -> bool {
    l.kind matches SKind::KeyValue(None, k) && name_eq(k, key)
}

pub open spec fn top_keep(lines: Seq<SLine>, key: Seq<char>) -> spec_fn(int) -> bool {
    |i: int| !line_top_level_key(lines[i], key)
}

/// One planned key set in section `name`: its first line there gets the new
/// value, later lines for it there and lines for it outside any section go.
/// The flag tells whether the section had the key.
pub open spec fn apply_key(lines: Seq<SLine>, name: Seq<char>, pk: SPatchKey) -> (Seq<SLine>, bool) {
    match first_where(lines.len() as int, key_in_section(lines, name, pk.key)) {
        Some(f) => {
            let upd = lines.update(f, SLine { raw: replace_value(lines[f].raw, pk.value), kind: lines[f].kind });
            let l2 = filter_by(upd, dup_keep(upd, name, pk.key, f));
            (filter_by(l2, top_keep(l2, pk.key)), true)
        },
        None => (filter_by(lines, top_keep(lines, pk.key)), false),
    }
}

/// The keys applied in order, and those the section did not have.
pub open spec fn apply_keys(lines: Seq<SLine>, name: Seq<char>, keys: Seq<SPatchKey>) -> (Seq<SLine>, Seq<SPatchKey>)
    decreases keys.len(),
{
    if keys.len() == 0 {
        (lines, seq![])
    } else {
        let (l, m) = apply_keys(lines, name, keys.drop_last());
        let (l2, found) = apply_key(l, name, keys.last());
        (l2, if found { m } else { m.push(keys.last()) })
    }
}

/// The line that a planned key line becomes in section `name`.
pub open spec fn kv_line(name: Seq<char>, raw: Seq<char>) -> SLine {
    SLine {
        raw,
        kind: SKind::KeyValue(
            Some(name),
            match key_value(raw) {
                Some((k, _v)) => k,
                None => seq![],
            },
        ),
    }
}

pub open spec fn key_lines(name: Seq<char>, keys: Seq<SPatchKey>) -> Seq<SLine> {
    Seq::new(keys.len(), |i: int| kv_line(name, keys[i].raw))
}

pub open spec fn blank_line() -> SLine {
    SLine { raw: seq![], kind: SKind::Other }
}

pub open spec fn header_raw(name: Seq<char>) -> Seq<char> {
    seq!['['] + name + seq![']']
}

/// A section new to the document goes at its end, after a blank line
/// unless the document is empty or already ends with one.
pub open spec fn append_section(lines: Seq<SLine>, sec: SPatchSection) -> Seq<SLine> {
    let l1 = if lines.len() > 0 && !is_blank(lines.last().raw) {
        lines.push(blank_line())
    } else {
        lines
    };
    l1.push(SLine { raw: header_raw(sec.name), kind: SKind::Section(sec.name) }) + key_lines(sec.name, sec.keys)
}

pub open spec fn apply_section(lines: Seq<SLine>, sec: SPatchSection) -> Seq<SLine> {
    match first_section_index(lines, sec.name) {
        None => append_section(lines, sec),
        Some(_) => {
            let (l, missing) = apply_keys(lines, sec.name, sec.keys);
            if missing.len() == 0 {
                l
            } else {
                let idx = section_insert_index(l, sec.name);
                l.take(idx) + key_lines(sec.name, missing) + l.skip(idx)
            }
        },
    }
}

/// Every section of the patch applied, in order.
pub open spec fn apply_patch(lines: Seq<SLine>, patch: Seq<SPatchSection>) -> Seq<SLine>
    decreases patch.len(),
{
    if patch.len() == 0 {
        lines
    } else {
        apply_section(apply_patch(lines, patch.drop_last()), patch.last())
    }
}

fn is_section_named_exec(l: &IniLine, name: &Vec<char>) -> (b: bool)
    ensures
        b == (l@.kind matches SKind::Section(n) && name_eq(n, name@)),
{
    match &l.kind {
        IniLineKind::Section(n) => name_eq_vec(n, name),
        _ => false,
    }
}

fn first_section_index_vec(lines: &Vec<IniLine>, name: &Vec<char>) -> (r: Option<usize>)
    ensures
        match r {
            Some(i) => first_section_index(lines_view(lines@), name@) == Some(i as int) && i < lines.len(),
            None => first_section_index(lines_view(lines@), name@) is None,
        },
{
    let ghost lv = lines_view(lines@);
    let mut i: usize = 0;
    while i < lines.len()
        invariant
            i <= lines.len(),
            lv == lines_view(lines@),
            forall|j: int| 0 <= j < i ==> !#[trigger] is_section_named(lv, name@)(j),
        decreases lines.len() - i,
    {
        if is_section_named_exec(&lines[i], name) {
            proof {
                lemma_first_where_some(lv.len() as int, is_section_named(lv, name@), i as int);
            }
            return Some(i);
        }
        i += 1;
    }
    proof {
        lemma_first_where_none(lv.len() as int, is_section_named(lv, name@));
    }
    None
}

fn section_insert_index_vec(lines: &Vec<IniLine>, name: &Vec<char>) -> (r: usize)
    ensures
        r as int == section_insert_index(lines_view(lines@), name@),
        r <= lines.len(),
{
    let ghost lv = lines_view(lines@);
    let s = match first_section_index_vec(lines, name) {
        None => return lines.len(),
        Some(s) => s,
    };
    let mut i: usize = 0;
    while i < lines.len()
        invariant
            i <= lines.len(),
            lv == lines_view(lines@),
            forall|j: int| 0 <= j < i ==> !#[trigger] section_after(lv, s as int)(j),
            first_section_index(lv, name@) == Some(s as int),
        decreases lines.len() - i,
    {
        let hit = i > s && match &lines[i].kind {
            IniLineKind::Section(_) => true,
            _ => false,
        };
        assert(hit == section_after(lv, s as int)(i as int));
        if hit {
            proof {
                lemma_first_where_some(lv.len() as int, section_after(lv, s as int), i as int);
            }
            return i;
        }
        i += 1;
    }
    proof {
        lemma_first_where_none(lv.len() as int, section_after(lv, s as int));
    }
    lines.len()
}

fn line_key_in_section_exec(l: &IniLine, name: &Vec<char>, key: &Vec<char>) -> (b: bool)
    ensures
        b == line_key_in_section(l@, name@, key@),
{
    match &l.kind {
        IniLineKind::KeyValue(Some(sec), k) => name_eq_vec(sec, name) && name_eq_vec(k, key),
        _ => false,
    }
}

fn line_top_level_key_exec(l: &IniLine, key: &Vec<char>) -> (b: bool)
    ensures
        b == line_top_level_key(l@, key@),
{
    match &l.kind {
        IniLineKind::KeyValue(None, k) => name_eq_vec(k, key),
        _ => false,
    }
}

fn remove_top_level_vec(lines: &Vec<IniLine>, key: &Vec<char>) -> (r: Vec<IniLine>)
    ensures
        lines_view(r@) == filter_by(lines_view(lines@), top_keep(lines_view(lines@), key@)),
{
    let ghost lv = lines_view(lines@);
    let mut out: Vec<IniLine> = Vec::new();
    let mut i: usize = 0;
    assert(lines_view(out@) =~= Seq::<SLine>::empty());
    while i < lines.len()
        invariant
            i <= lines.len(),
            lv == lines_view(lines@),
            lines_view(out@) == filter_prefix(lv, top_keep(lv, key@), i as int),
        decreases lines.len() - i,
    {
        if !line_top_level_key_exec(&lines[i], key) {
            let l = clone_line(&lines[i]);
            proof {
                lemma_lines_view_push(out@, l);
            }
            out.push(l);
        }
        i += 1;
    }
    out
}

fn remove_dups_vec(lines: &Vec<IniLine>, name: &Vec<char>, key: &Vec<char>, first: usize) -> (r: Vec<IniLine>)
    ensures
        lines_view(r@) == filter_by(lines_view(lines@), dup_keep(lines_view(lines@), name@, key@, first as int)),
{
    let ghost lv = lines_view(lines@);
    let mut out: Vec<IniLine> = Vec::new();
    let mut i: usize = 0;
    assert(lines_view(out@) =~= Seq::<SLine>::empty());
    while i < lines.len()
        invariant
            i <= lines.len(),
            lv == lines_view(lines@),
            lines_view(out@) == filter_prefix(lv, dup_keep(lv, name@, key@, first as int), i as int),
        decreases lines.len() - i,
    {
        if !(line_key_in_section_exec(&lines[i], name, key) && i != first) {
            let l = clone_line(&lines[i]);
            proof {
                lemma_lines_view_push(out@, l);
            }
            out.push(l);
        }
        i += 1;
    }
    out
}

fn find_key_line_vec(lines: &Vec<IniLine>, name: &Vec<char>, key: &Vec<char>) -> (r: Option<usize>)
    ensures
        match r {
            Some(i) => first_where(lines@.len() as int, key_in_section(lines_view(lines@), name@, key@)) == Some(i as int) && i < lines.len(),
            None => first_where(lines@.len() as int, key_in_section(lines_view(lines@), name@, key@)) is None,
        },
{
    let ghost lv = lines_view(lines@);
    let mut i: usize = 0;
    while i < lines.len()
        invariant
            i <= lines.len(),
            lv == lines_view(lines@),
            forall|j: int| 0 <= j < i ==> !#[trigger] key_in_section(lv, name@, key@)(j),
        decreases lines.len() - i,
    {
        if line_key_in_section_exec(&lines[i], name, key) {
            proof {
                lemma_first_where_some(lv.len() as int, key_in_section(lv, name@, key@), i as int);
            }
            return Some(i);
        }
        i += 1;
    }
    proof {
        lemma_first_where_none(lv.len() as int, key_in_section(lv, name@, key@));
    }
    None
}

fn clone_kind(k: &IniLineKind) -> (r: IniLineKind)
    ensures
        r@ == k@,
{
    match k {
        IniLineKind::Section(n) => IniLineKind::Section(n.clone()),
        IniLineKind::KeyValue(s, key) => IniLineKind::KeyValue(crate::ini_doc::clone_opt(s), key.clone()),
        IniLineKind::Other => IniLineKind::Other,
    }
}

fn apply_key_vec(lines: Vec<IniLine>, name: &Vec<char>, pk: &PatchKey) -> (r: (Vec<IniLine>, bool))
    ensures
        (lines_view(r.0@), r.1) == apply_key(lines_view(lines@), name@, pk@),
{
    let ghost lv = lines_view(lines@);
    match find_key_line_vec(&lines, name, &pk.key) {
        Some(f) => {
            let mut upd = lines;
            let new_raw = replace_value_vec(&upd[f].raw, &pk.value);
            let kind = clone_kind(&upd[f].kind);
            let line = IniLine { raw: new_raw, kind };
            upd.set(f, line);
            assert(lines_view(upd@) =~= lv.update(f as int, SLine { raw: replace_value(lv[f as int].raw, pk@.value), kind: lv[f as int].kind }));
            let l2 = remove_dups_vec(&upd, name, &pk.key, f);
            let l3 = remove_top_level_vec(&l2, &pk.key);
            (l3, true)
        },
        None => {
            let l = remove_top_level_vec(&lines, &pk.key);
            (l, false)
        },
    }
}

fn kv_line_vec(name: &Vec<char>, raw: &Vec<char>) -> (r: IniLine)
    ensures
        r@ == kv_line(name@, raw@),
{
    let key = match key_value_vec(raw) {
        Some((k, _v)) => k,
        None => Vec::new(),
    };
    proof {
        if key_value(raw@) is None {
            assert(key@ =~= Seq::<char>::empty());
        }
    }
    IniLine { raw: raw.clone(), kind: IniLineKind::KeyValue(Some(name.clone()), key) }
}

fn key_lines_vec(name: &Vec<char>, keys: &Vec<PatchKey>) -> (r: Vec<IniLine>)
    ensures
        lines_view(r@) == key_lines(name@, keys_view(keys@)),
{
    let mut out: Vec<IniLine> = Vec::new();
    let mut i: usize = 0;
    while i < keys.len()
        invariant
            i <= keys.len(),
            lines_view(out@) == key_lines(name@, keys_view(keys@)).take(i as int),
        decreases keys.len() - i,
    {
        let l = kv_line_vec(name, &keys[i].raw);
        proof {
            lemma_lines_view_push(out@, l);
        }
        out.push(l);
        i += 1;
        assert(lines_view(out@) =~= key_lines(name@, keys_view(keys@)).take(i as int));
    }
    assert(key_lines(name@, keys_view(keys@)).take(keys.len() as int) =~= key_lines(name@, keys_view(keys@)));
    out
}

fn push_lines(dst: &mut Vec<IniLine>, src: Vec<IniLine>)
    ensures
        lines_view(final(dst)@) == lines_view(old(dst)@) + lines_view(src@),
{
    let ghost start = lines_view(dst@);
    let mut src = src;
    let mut i: usize = 0;
    while i < src.len()
        invariant
            i <= src.len(),
            lines_view(dst@) == start + lines_view(src@).take(i as int),
        decreases src.len() - i,
    {
        let l = clone_line(&src[i]);
        proof {
            lemma_lines_view_push(dst@, l);
        }
        dst.push(l);
        i += 1;
        assert(lines_view(dst@) =~= start + lines_view(src@).take(i as int));
    }
    assert(lines_view(src@).take(src.len() as int) =~= lines_view(src@));
}

/// `lines` with `ins` put in before index `idx`.
fn splice_lines(lines: &Vec<IniLine>, idx: usize, ins: Vec<IniLine>) -> (r: Vec<IniLine>)
    requires
        idx <= lines.len(),
    ensures
        lines_view(r@) == lines_view(lines@).take(idx as int) + lines_view(ins@) + lines_view(lines@).skip(idx as int),
{
    let ghost lv = lines_view(lines@);
    let mut out: Vec<IniLine> = Vec::new();
    let mut i: usize = 0;
    while i < idx
        invariant
            i <= idx <= lines.len(),
            lv == lines_view(lines@),
            lines_view(out@) == lv.take(i as int),
        decreases idx - i,
    {
        let l = clone_line(&lines[i]);
        proof {
            lemma_lines_view_push(out@, l);
        }
        out.push(l);
        i += 1;
        assert(lines_view(out@) =~= lv.take(i as int));
    }
    push_lines(&mut out, ins);
    let ghost mid = lines_view(out@);
    let mut j: usize = idx;
    while j < lines.len()
        invariant
            idx <= j <= lines.len(),
            lv == lines_view(lines@),
            lines_view(out@) == mid + lv.subrange(idx as int, j as int),
        decreases lines.len() - j,
    {
        let l = clone_line(&lines[j]);
        proof {
            lemma_lines_view_push(out@, l);
        }
        out.push(l);
        j += 1;
        assert(lines_view(out@) =~= mid + lv.subrange(idx as int, j as int));
    }
    assert(lv.subrange(idx as int, lines.len() as int) =~= lv.skip(idx as int));
    out
}

fn apply_keys_vec(lines: Vec<IniLine>, name: &Vec<char>, keys: &Vec<PatchKey>) -> (r: (Vec<IniLine>, Vec<PatchKey>))
    ensures
        (lines_view(r.0@), keys_view(r.1@)) == apply_keys(lines_view(lines@), name@, keys_view(keys@)),
{
    let ghost lv = lines_view(lines@);
    let ghost kv = keys_view(keys@);
    let mut cur = lines;
    let mut missing: Vec<PatchKey> = Vec::new();
    let mut i: usize = 0;
    assert(keys_view(missing@) =~= Seq::<SPatchKey>::empty());
    assert(kv.take(0) =~= Seq::<SPatchKey>::empty());
    while i < keys.len()
        invariant
            i <= keys.len(),
            kv == keys_view(keys@),
            (lines_view(cur@), keys_view(missing@)) == apply_keys(lv, name@, kv.take(i as int)),
        decreases keys.len() - i,
    {
        proof {
            assert(kv.take(i + 1).drop_last() =~= kv.take(i as int));
        }
        let (next, found) = apply_key_vec(cur, name, &keys[i]);
        cur = next;
        if !found {
            let k = crate::ini_doc::clone_key(&keys[i]);
            let ghost before = missing@;
            missing.push(k);
            assert(keys_view(missing@) =~= keys_view(before).push(k@));
        }
        i += 1;
    }
    assert(kv.take(keys.len() as int) =~= kv);
    (cur, missing)
}

fn append_section_vec(lines: Vec<IniLine>, sec: &PatchSection) -> (r: Vec<IniLine>)
    ensures
        lines_view(r@) == append_section(lines_view(lines@), sec@),
{
    let mut out = lines;
    let ghost lv = lines_view(out@);
    if out.len() > 0 && !is_blank_vec(&out[out.len() - 1].raw) {
        let b = IniLine { raw: Vec::new(), kind: IniLineKind::Other };
        assert(b@.raw =~= Seq::<char>::empty());
        proof {
            lemma_lines_view_push(out@, b);
        }
        out.push(b);
    }
    let mut raw: Vec<char> = Vec::new();
    raw.push('[');
    crate::text::append_all(&mut raw, &sec.name);
    raw.push(']');
    assert(raw@ =~= header_raw(sec.name@));
    let h = IniLine { raw, kind: IniLineKind::Section(sec.name.clone()) };
    proof {
        lemma_lines_view_push(out@, h);
    }
    out.push(h);
    let kl = key_lines_vec(&sec.name, &sec.keys);
    push_lines(&mut out, kl);
    out
}

fn apply_section_vec(lines: Vec<IniLine>, sec: &PatchSection) -> (r: Vec<IniLine>)
    ensures
        lines_view(r@) == apply_section(lines_view(lines@), sec@),
{
    match first_section_index_vec(&lines, &sec.name) {
        None => append_section_vec(lines, sec),
        Some(_) => {
            let (l, missing) = apply_keys_vec(lines, &sec.name, &sec.keys);
            if missing.len() == 0 {
                l
            } else {
                let idx = section_insert_index_vec(&l, &sec.name);
                let kl = key_lines_vec(&sec.name, &missing);
                splice_lines(&l, idx, kl)
            }
        },
    }
}

fn apply_patch_vec(lines: Vec<IniLine>, patch: &PatchDocument) -> (r: Vec<IniLine>)
    ensures
        lines_view(r@) == apply_patch(lines_view(lines@), patch@),
{
    let ghost lv = lines_view(lines@);
    let ghost pv = patch@;
    let mut cur = lines;
    let mut i: usize = 0;
    assert(pv.take(0) =~= Seq::<SPatchSection>::empty());
    while i < patch.sections.len()
        invariant
            i <= patch.sections.len(),
            pv == patch@,
            lines_view(cur@) == apply_patch(lv, pv.take(i as int)),
        decreases patch.sections.len() - i,
    {
        proof {
            assert(pv.take(i + 1).drop_last() =~= pv.take(i as int));
        }
        cur = apply_section_vec(cur, &patch.sections[i]);
        i += 1;
    }
    assert(pv.take(patch.sections.len() as int) =~= pv);
    cur
}


// ---------------------------------------------------------------------------
// Putting the comments of planned blocks in front of their keys.

/// Some plain line reads, up to surrounding whitespace, as `c`.
pub open spec fn contains_comment(lines: Seq<SLine>, c: Seq<char>) -> bool {
    exists|i: int| 0 <= i < lines.len() && #[trigger] lines[i].kind is Other && trim(lines[i].raw) == trim(c)
}

pub open spec fn comment_missing(lines: Seq<SLine>, comments: Seq<Seq<char>>) -> spec_fn(int) -> bool {
    |i: int| !contains_comment(lines, comments[i])
}

/// The block's comments that the document lacks, in block order.
pub open spec fn missing_comments(lines: Seq<SLine>, comments: Seq<Seq<char>>) -> Seq<Seq<char>> {
    filter_by(comments, comment_missing(lines, comments))
}

/// The line sets, inside a section, a key of the block's.
pub open spec fn line_matches_block_key(l: SLine, b: SBlock) -> bool {
    match l.kind {
        SKind::KeyValue(Some(sec), k) => block_has_key(b, sec, k),
        _ => false,
    }
}

/// The block sets `key` in a section named `sec`.
pub open spec fn block_has_key(b: SBlock, sec: Seq<char>, key: Seq<char>) -> bool {
    exists|j: int| 0 <= j < b.keys.len() && name_eq(sec, #[trigger] b.keys[j].section) && name_eq(key, b.keys[j].key)
}

pub open spec fn block_key_at(lines: Seq<SLine>, b: SBlock) -> spec_fn(int) -> bool {
    |i: int| line_matches_block_key(lines[i], b)
}

pub open spec fn is_section_at(lines: Seq<SLine>) -> spec_fn(int) -> bool {
    |i: int| lines[i].kind is Section
}

/// Where the block's comments go: at the section header of its first key
/// line when no other key line comes between them, else at the key line.
pub open spec fn comment_insert_index(lines: Seq<SLine>, b: SBlock) -> Option<int> {
    match first_where(lines.len() as int, block_key_at(lines, b)) {
        None => None,
        Some(k) => match last_where(k, is_section_at(lines)) {
            None => Some(k),
            Some(s) => if exists|j: int| s < j < k && #[trigger] lines[j].kind is KeyValue {
                Some(k)
            } else {
                Some(s)
            },
        },
    }
}

pub open spec fn other_lines(cs: Seq<Seq<char>>) -> Seq<SLine> {
    Seq::new(cs.len(), |i: int| SLine { raw: cs[i], kind: SKind::Other })
}

/// The block's missing comments put in, after a blank line where the line
/// before is neither blank nor a section header.
pub open spec fn ensure_block(lines: Seq<SLine>, b: SBlock) -> Seq<SLine> {
    if b.comments.len() == 0 || b.keys.len() == 0 {
        lines
    } else {
        let miss = missing_comments(lines, b.comments);
        if miss.len() == 0 {
            lines
        } else {
            match comment_insert_index(lines, b) {
                None => lines,
                Some(idx) => {
                    let spacing = idx > 0 && !is_blank(lines[idx - 1].raw) && !(lines[idx - 1].kind is Section);
                    let ins = (if spacing {
                        seq![blank_line()]
                    } else {
                        seq![]
                    }) + other_lines(miss);
                    lines.take(idx) + ins + lines.skip(idx)
                },
            }
        }
    }
}

pub open spec fn ensure_blocks(lines: Seq<SLine>, blocks: Seq<SBlock>) -> Seq<SLine>
    decreases blocks.len(),
{
    if blocks.len() == 0 {
        lines
    } else {
        ensure_block(ensure_blocks(lines, blocks.drop_last()), blocks.last())
    }
}

fn contains_comment_vec(lines: &Vec<IniLine>, c: &Vec<char>) -> (b: bool)
    ensures
        b == contains_comment(lines_view(lines@), c@),
{
    let ghost lv = lines_view(lines@);
    let tc = trim_vec(c);
    let mut i: usize = 0;
    while i < lines.len()
        invariant
            i <= lines.len(),
            lv == lines_view(lines@),
            tc@ == trim(c@),
            forall|j: int| 0 <= j < i ==> !(#[trigger] lv[j].kind is Other && trim(lv[j].raw) == trim(c@)),
        decreases lines.len() - i,
    {
        let is_other = match &lines[i].kind {
            IniLineKind::Other => true,
            _ => false,
        };
        if is_other {
            let t = trim_vec(&lines[i].raw);
            if crate::ini_doc::vec_eq(&t, &tc) {
                assert(lv[i as int].kind is Other && trim(lv[i as int].raw) == trim(c@));
                return true;
            }
        }
        i += 1;
    }
    false
}

fn missing_comments_vec(lines: &Vec<IniLine>, comments: &Vec<Vec<char>>) -> (r: Vec<Vec<char>>)
    ensures
        seqs(r@) == missing_comments(lines_view(lines@), seqs(comments@)),
{
    let ghost cv = seqs(comments@);
    let ghost lv = lines_view(lines@);
    let mut out: Vec<Vec<char>> = Vec::new();
    let mut i: usize = 0;
    assert(seqs(out@) =~= Seq::<Seq<char>>::empty());
    while i < comments.len()
        invariant
            i <= comments.len(),
            cv == seqs(comments@),
            lv == lines_view(lines@),
            seqs(out@) == filter_prefix(cv, comment_missing(lv, cv), i as int),
        decreases comments.len() - i,
    {
        if !contains_comment_vec(lines, &comments[i]) {
            let c = comments[i].clone();
            proof {
                crate::text::lemma_seqs_push(out@, c);
            }
            out.push(c);
        }
        i += 1;
    }
    out
}

fn line_matches_block_key_exec(l: &IniLine, b: &ManagedBlock) -> (r: bool)
    ensures
        r == line_matches_block_key(l@, b@),
{
    match &l.kind {
        IniLineKind::KeyValue(so, k) => match so {
            Some(sec) => {
                assert(opt_view(*so) == Some(sec@));
                let mut j: usize = 0;
                while j < b.keys.len()
                    invariant
                        j <= b.keys.len(),
                        l@.kind == SKind::KeyValue(Some(sec@), k@),
                        forall|m: int| 0 <= m < j ==> !(name_eq(sec@, #[trigger] b@.keys[m].section) && name_eq(k@, b@.keys[m].key)),
                    decreases b.keys.len() - j,
                {
                    if name_eq_vec(sec, &b.keys[j].section) && name_eq_vec(k, &b.keys[j].key) {
                        assert(name_eq(sec@, b@.keys[j as int].section) && name_eq(k@, b@.keys[j as int].key));
                        return true;
                    }
                    j += 1;
                }
                false
            },
            None => false,
        },
        _ => false,
    }
}

fn first_block_key_line(lines: &Vec<IniLine>, b: &ManagedBlock) -> (r: Option<usize>)
    ensures
        match r {
            Some(i) => first_where(lines@.len() as int, block_key_at(lines_view(lines@), b@)) == Some(i as int) && i < lines.len(),
            None => first_where(lines@.len() as int, block_key_at(lines_view(lines@), b@)) is None,
        },
{
    let ghost lv = lines_view(lines@);
    let mut k: usize = 0;
    while k < lines.len()
        invariant
            k <= lines.len(),
            lv == lines_view(lines@),
            forall|j: int| 0 <= j < k ==> !#[trigger] block_key_at(lv, b@)(j),
        decreases lines.len() - k,
    {
        if line_matches_block_key_exec(&lines[k], b) {
            proof {
                lemma_first_where_some(lv.len() as int, block_key_at(lv, b@), k as int);
            }
            return Some(k);
        }
        k += 1;
    }
    proof {
        lemma_first_where_none(lv.len() as int, block_key_at(lv, b@));
    }
    None
}

fn last_section_before(lines: &Vec<IniLine>, k: usize) -> (r: Option<usize>)
    requires
        k <= lines.len(),
    ensures
        match r {
            Some(i) => last_where(k as int, is_section_at(lines_view(lines@))) == Some(i as int) && i < k,
            None => last_where(k as int, is_section_at(lines_view(lines@))) is None,
        },
{
    let ghost lv = lines_view(lines@);
    let mut i: usize = k;
    while i > 0
        invariant
            i <= k <= lines.len(),
            lv == lines_view(lines@),
            forall|j: int| i <= j < k ==> !#[trigger] is_section_at(lv)(j),
        decreases i,
    {
        let is_sec = match &lines[i - 1].kind {
            IniLineKind::Section(_) => true,
            _ => false,
        };
        if is_sec {
            proof {
                lemma_last_where_some(k as int, is_section_at(lv), i - 1);
            }
            return Some(i - 1);
        }
        i -= 1;
    }
    proof {
        lemma_last_where_none(k as int, is_section_at(lv));
    }
    None
}

fn has_key_between(lines: &Vec<IniLine>, s: usize, k: usize) -> (r: bool)
    requires
        s < k <= lines.len(),
    ensures
        r == exists|j: int| s < j < k && #[trigger] lines_view(lines@)[j].kind is KeyValue,
{
    let ghost lv = lines_view(lines@);
    let mut j: usize = s + 1;
    while j < k
        invariant
            s < j <= k <= lines.len(),
            lv == lines_view(lines@),
            forall|m: int| s < m < j ==> !(#[trigger] lv[m].kind is KeyValue),
        decreases k - j,
    {
        let is_kv = match &lines[j].kind {
            IniLineKind::KeyValue(_, _) => true,
            _ => false,
        };
        if is_kv {
            assert(lv[j as int].kind is KeyValue);
            return true;
        }
        j += 1;
    }
    false
}

fn comment_insert_index_vec(lines: &Vec<IniLine>, b: &ManagedBlock) -> (r: Option<usize>)
    ensures
        match r {
            Some(i) => comment_insert_index(lines_view(lines@), b@) == Some(i as int) && i < lines.len(),
            None => comment_insert_index(lines_view(lines@), b@) is None,
        },
{
    let k = match first_block_key_line(lines, b) {
        None => return None,
        Some(k) => k,
    };
    let s = match last_section_before(lines, k) {
        None => return Some(k),
        Some(s) => s,
    };
    if has_key_between(lines, s, k) {
        Some(k)
    } else {
        Some(s)
    }
}

fn other_lines_vec(cs: &Vec<Vec<char>>) -> (r: Vec<IniLine>)
    ensures
        lines_view(r@) == other_lines(seqs(cs@)),
{
    let mut out: Vec<IniLine> = Vec::new();
    let mut i: usize = 0;
    while i < cs.len()
        invariant
            i <= cs.len(),
            lines_view(out@) == other_lines(seqs(cs@)).take(i as int),
        decreases cs.len() - i,
    {
        let l = IniLine { raw: cs[i].clone(), kind: IniLineKind::Other };
        proof {
            lemma_lines_view_push(out@, l);
        }
        out.push(l);
        i += 1;
        assert(lines_view(out@) =~= other_lines(seqs(cs@)).take(i as int));
    }
    assert(other_lines(seqs(cs@)).take(cs.len() as int) =~= other_lines(seqs(cs@)));
    out
}

fn ensure_block_vec(lines: Vec<IniLine>, b: &ManagedBlock) -> (r: Vec<IniLine>)
    ensures
        lines_view(r@) == ensure_block(lines_view(lines@), b@),
{
    if b.comments.len() == 0 || b.keys.len() == 0 {
        return lines;
    }
    let miss = missing_comments_vec(&lines, &b.comments);
    if miss.len() == 0 {
        return lines;
    }
    let idx = match comment_insert_index_vec(&lines, b) {
        None => return lines,
        Some(i) => i,
    };
    let ghost lv = lines_view(lines@);
    let spacing = idx > 0 && !is_blank_vec(&lines[idx - 1].raw) && !match &lines[idx - 1].kind {
        IniLineKind::Section(_) => true,
        _ => false,
    };
    let mut ins: Vec<IniLine> = Vec::new();
    if spacing {
        let bl = IniLine { raw: Vec::new(), kind: IniLineKind::Other };
        assert(bl@ == blank_line());
        ins.push(bl);
        assert(lines_view(ins@) =~= seq![blank_line()]);
    } else {
        assert(lines_view(ins@) =~= Seq::<SLine>::empty());
    }
    let others = other_lines_vec(&miss);
    push_lines(&mut ins, others);
    splice_lines(&lines, idx, ins)
}

fn ensure_blocks_vec(lines: Vec<IniLine>, blocks: &Vec<ManagedBlock>) -> (r: Vec<IniLine>)
    ensures
        lines_view(r@) == ensure_blocks(lines_view(lines@), blocks_view(blocks@)),
{
    let ghost lv = lines_view(lines@);
    let ghost bv = blocks_view(blocks@);
    let mut cur = lines;
    let mut i: usize = 0;
    assert(bv.take(0) =~= Seq::<SBlock>::empty());
    while i < blocks.len()
        invariant
            i <= blocks.len(),
            bv == blocks_view(blocks@),
            lines_view(cur@) == ensure_blocks(lv, bv.take(i as int)),
        decreases blocks.len() - i,
    {
        proof {
            assert(bv.take(i + 1).drop_last() =~= bv.take(i as int));
        }
        cur = ensure_block_vec(cur, &blocks[i]);
        i += 1;
    }
    assert(bv.take(blocks.len() as int) =~= bv);
    cur
}

// ---------------------------------------------------------------------------
// Blank lines and rendering.

/// Blank lines that open the text or follow a kept blank line go.
pub open spec fn collapse_blanks(lines: Seq<SLine>) -> Seq<SLine>
    decreases lines.len(),
{
    if lines.len() == 0 {
        lines
    } else {
        let p = collapse_blanks(lines.drop_last());
        if is_blank(lines.last().raw) && (p.len() == 0 || is_blank(p.last().raw)) {
            p
        } else {
            p.push(lines.last())
        }
    }
}

/// Blank lines at the end go.
pub open spec fn strip_trailing_blanks(lines: Seq<SLine>) -> Seq<SLine>
    decreases lines.len(),
{
    if lines.len() > 0 && is_blank(lines.last().raw) {
        strip_trailing_blanks(lines.drop_last())
    } else {
        lines
    }
}

pub open spec fn normalize_blank_lines(lines: Seq<SLine>) -> Seq<SLine> {
    strip_trailing_blanks(collapse_blanks(lines))
}

pub open spec fn raws(lines: Seq<SLine>) -> Seq<Seq<char>> {
    lines.map_values(|l: SLine| l.raw)
}

/// The lines joined by `le`, with `le` at the end too when the text had a
/// final line ending.
pub open spec fn render(lines: Seq<SLine>, had_final_newline: bool, le: Seq<char>) -> Seq<char> {
    join(raws(lines), le) + if had_final_newline {
        le
    } else {
        seq![]
    }
}

fn normalize_blank_lines_vec(lines: Vec<IniLine>) -> (r: Vec<IniLine>)
    ensures
        lines_view(r@) == normalize_blank_lines(lines_view(lines@)),
{
    let ghost lv = lines_view(lines@);
    let mut out: Vec<IniLine> = Vec::new();
    let mut i: usize = 0;
    assert(lines_view(out@) =~= Seq::<SLine>::empty());
    assert(lv.take(0) =~= Seq::<SLine>::empty());
    while i < lines.len()
        invariant
            i <= lines.len(),
            lv == lines_view(lines@),
            lines_view(out@) == collapse_blanks(lv.take(i as int)),
        decreases lines.len() - i,
    {
        proof {
            assert(lv.take(i + 1).drop_last() =~= lv.take(i as int));
        }
        let blank = is_blank_vec(&lines[i].raw);
        let skip = blank && (out.len() == 0 || is_blank_vec(&out[out.len() - 1].raw));
        if !skip {
            let l = clone_line(&lines[i]);
            proof {
                lemma_lines_view_push(out@, l);
            }
            out.push(l);
        }
        i += 1;
    }
    assert(lv.take(lines.len() as int) =~= lv);
    let ghost collapsed = lines_view(out@);
    while out.len() > 0 && is_blank_vec(&out[out.len() - 1].raw)
        invariant
            strip_trailing_blanks(lines_view(out@)) == strip_trailing_blanks(collapsed),
        decreases out.len(),
    {
        let ghost before = lines_view(out@);
        out.pop();
        assert(lines_view(out@) =~= before.drop_last());
    }
    out
}

fn render_vec(lines: &Vec<IniLine>, had_final_newline: bool, le: &Vec<char>) -> (r: Vec<char>)
    ensures
        r@ == render(lines_view(lines@), had_final_newline, le@),
{
    let ghost rv = raws(lines_view(lines@));
    let mut out: Vec<char> = Vec::new();
    let mut i: usize = 0;
    assert(rv.take(0) =~= Seq::<Seq<char>>::empty());
    while i < lines.len()
        invariant
            i <= lines.len(),
            rv == raws(lines_view(lines@)),
            out@ == join(rv.take(i as int), le@),
        decreases lines.len() - i,
    {
        proof {
            assert(rv.take(i + 1).drop_last() =~= rv.take(i as int));
        }
        if i > 0 {
            crate::text::append_all(&mut out, le);
        }
        crate::text::append_all(&mut out, &lines[i].raw);
        i += 1;
    }
    assert(rv.take(lines.len() as int) =~= rv);
    if had_final_newline {
        crate::text::append_all(&mut out, le);
    } else {
        assert(out@ =~= out@ + Seq::<char>::empty());
    }
    out
}

// ---------------------------------------------------------------------------
// The merge.

pub open spec fn crlf() -> Seq<char> {
    seq!['\r', '\n']
}

pub open spec fn lf() -> Seq<char> {
    seq!['\n']
}

/// The text that a merge writes: `planned` where there is no existing text
/// or it is blank; otherwise the existing text with the managed settings
/// that `planned` no longer sets (and the comments and emptied sections of
/// their blocks) removed, every planned key set in its section (added where
/// missing), the planned block comments present, blank lines collapsed, and
/// the existing line ending kept.
pub open spec fn merge_ini(existing: Option<Seq<char>>, planned: Seq<char>, managed: Seq<char>) -> Seq<char> {
    match existing {
        None => planned,
        Some(e) => if is_blank(e) {
            planned
        } else {
            render(merged_lines(e, planned, managed), parse_doc(e).had_final_newline, line_ending(e))
        },
    }
}

/// The line ending a merge writes: the existing text's.
pub open spec fn line_ending(existing: Seq<char>) -> Seq<char> {
    if has_crlf(existing) {
        crlf()
    } else {
        lf()
    }
}

/// The lines of a merge into a non-blank existing text, before rendering.
pub open spec fn merged_lines(existing: Seq<char>, planned: Seq<char>, managed: Seq<char>) -> Seq<SLine> {
    let patch = parse_patch(planned);
    let l1 = remove_inactive_settings(parse_doc(existing).lines, patch, parse_patch(managed));
    let l2 = remove_scaffolding(l1, patch, parse_blocks(managed));
    let l3 = apply_patch(l2, patch);
    let l4 = ensure_blocks(l3, parse_blocks(planned));
    normalize_blank_lines(l4)
}

pub fn merge_ini_vec(existing: Option<&Vec<char>>, planned: &Vec<char>, managed: &Vec<char>) -> (r: Vec<char>)
    ensures
        r@ == merge_ini(
            match existing {
                Some(e) => Some(e@),
                None => None,
            },
            planned@,
            managed@,
        ),
{
    let existing = match existing {
        None => return planned.clone(),
        Some(e) => e,
    };
    if is_blank_vec(existing) {
        return planned.clone();
    }
    let mut le: Vec<char> = Vec::new();
    if has_crlf_vec(existing) {
        le.push('\r');
        le.push('\n');
        assert(le@ =~= crlf());
    } else {
        le.push('\n');
        assert(le@ =~= lf());
    }
    let doc = parse_doc_vec(existing);
    let patch = parse_patch_vec(planned);
    let planned_blocks = parse_blocks_vec(planned);
    let managed_patch = parse_patch_vec(managed);
    let managed_blocks = parse_blocks_vec(managed);
    let l1 = remove_inactive_settings_vec(&doc.lines, &patch, &managed_patch);
    let l2 = remove_scaffolding_vec(&l1, &patch, &managed_blocks);
    let l3 = apply_patch_vec(l2, &patch);
    let l4 = ensure_blocks_vec(l3, &planned_blocks);
    let l5 = normalize_blank_lines_vec(l4);
    render_vec(&l5, doc.had_final_newline, &le)
}

/// The existing text sets a key that the planned text does not set.
pub open spec fn has_external_settings(existing: Seq<char>, planned: Seq<char>) -> bool {
    let lines = parse_doc(existing).lines;
    let patch = parse_patch(planned);
    exists|i: int|
        0 <= i < lines.len() && (#[trigger] lines[i].kind matches SKind::KeyValue(sec, k) && !contains_key(
            patch,
            sec,
            k,
        ))
}

/// The existing text sets a key that the managed text sets.
pub open spec fn has_managed_settings(existing: Seq<char>, managed: Seq<char>) -> bool {
    let lines = parse_doc(existing).lines;
    let patch = parse_patch(managed);
    exists|i: int|
        0 <= i < lines.len() && (#[trigger] lines[i].kind matches SKind::KeyValue(sec, k) && contains_key(
            patch,
            sec,
            k,
        ))
}

pub fn has_external_settings_vec(existing: &Vec<char>, planned: &Vec<char>) -> (b: bool)
    ensures
        b == has_external_settings(existing@, planned@),
{
    let doc = parse_doc_vec(existing);
    let patch = parse_patch_vec(planned);
    let ghost lv = lines_view(doc.lines@);
    let mut i: usize = 0;
    while i < doc.lines.len()
        invariant
            i <= doc.lines.len(),
            lv == lines_view(doc.lines@),
            lv == parse_doc(existing@).lines,
            patch@ == parse_patch(planned@),
            forall|j: int| 0 <= j < i ==> !(#[trigger] lv[j].kind matches SKind::KeyValue(sec, k) && !contains_key(patch@, sec, k)),
        decreases doc.lines.len() - i,
    {
        match &doc.lines[i].kind {
            IniLineKind::KeyValue(sec, k) => {
                if !patch.contains_key(sec, k) {
                    assert(lv[i as int].kind matches SKind::KeyValue(sec, k) && !contains_key(patch@, sec, k));
                    return true;
                }
            },
            _ => {},
        }
        i += 1;
    }
    false
}

pub fn has_managed_settings_vec(existing: &Vec<char>, managed: &Vec<char>) -> (b: bool)
    ensures
        b == has_managed_settings(existing@, managed@),
{
    let doc = parse_doc_vec(existing);
    let patch = parse_patch_vec(managed);
    let ghost lv = lines_view(doc.lines@);
    let mut i: usize = 0;
    while i < doc.lines.len()
        invariant
            i <= doc.lines.len(),
            lv == lines_view(doc.lines@),
            lv == parse_doc(existing@).lines,
            patch@ == parse_patch(managed@),
            forall|j: int| 0 <= j < i ==> !(#[trigger] lv[j].kind matches SKind::KeyValue(sec, k) && contains_key(patch@, sec, k)),
        decreases doc.lines.len() - i,
    {
        match &doc.lines[i].kind {
            IniLineKind::KeyValue(sec, k) => {
                if patch.contains_key(sec, k) {
                    assert(lv[i as int].kind matches SKind::KeyValue(sec, k) && contains_key(patch@, sec, k));
                    return true;
                }
            },
            _ => {},
        }
        i += 1;
    }
    false
}

/// The merged text of `existing` (if any) with the planned text; see
/// `merge_ini`.
pub fn merge_ini_content(existing: Option<&str>, planned: &str, managed: &str) -> (r: String)
    ensures
        r@ == merge_ini(
            match existing {
                Some(e) => Some(e@),
                None => None,
            },
            planned@,
            managed@,
        ),
{
    let p = chars_of(planned);
    let m = chars_of(managed);
    let merged = match existing {
        Some(e) => {
            let ev = chars_of(e);
            merge_ini_vec(Some(&ev), &p, &m)
        },
        None => merge_ini_vec(None, &p, &m),
    };
    string_of(&merged)
}

/// The existing text sets a key that the planned text does not set.
pub fn has_external_ini_settings(existing: &str, planned: &str) -> (b: bool)
    ensures
        b == has_external_settings(existing@, planned@),
{
    has_external_settings_vec(&chars_of(existing), &chars_of(planned))
}

/// The existing text sets a key that the managed text sets.
pub fn has_managed_ini_settings(existing: &str, managed: &str) -> (b: bool)
    ensures
        b == has_managed_settings(existing@, managed@),
{
    has_managed_settings_vec(&chars_of(existing), &chars_of(managed))
}

// ---------------------------------------------------------------------------
// What a merge keeps.

/// Applying the planned key `key` of section `name` leaves the line alone:
/// it neither sets that key in such a section nor sets it outside sections.
pub open spec fn unaffected(l: SLine, name: Seq<char>, key: Seq<char>) -> bool {
    !line_key_in_section(l, name, key) && !line_top_level_key(l, key)
}

proof fn lemma_apply_key_keeps(lines: Seq<SLine>, name: Seq<char>, pk: SPatchKey, l: SLine)
    requires
        lines.contains(l),
        unaffected(l, name, pk.key),
    ensures
        apply_key(lines, name, pk).0.contains(l),
{
    let i = choose|i: int| 0 <= i < lines.len() && lines[i] == l;
    lemma_first_where_facts(lines.len() as int, key_in_section(lines, name, pk.key));
    match first_where(lines.len() as int, key_in_section(lines, name, pk.key)) {
        Some(f) => {
            let upd = lines.update(f, SLine { raw: replace_value(lines[f].raw, pk.value), kind: lines[f].kind });
            assert(f != i);
            assert(upd[i] == l);
            lemma_filter_by_contains(upd, dup_keep(upd, name, pk.key, f), i);
            let l2 = filter_by(upd, dup_keep(upd, name, pk.key, f));
            let j = choose|j: int| 0 <= j < l2.len() && l2[j] == l;
            lemma_filter_by_contains(l2, top_keep(l2, pk.key), j);
        },
        None => {
            lemma_filter_by_contains(lines, top_keep(lines, pk.key), i);
        },
    }
}

proof fn lemma_apply_keys_keeps(lines: Seq<SLine>, name: Seq<char>, keys: Seq<SPatchKey>, l: SLine)
    requires
        lines.contains(l),
        forall|j: int| 0 <= j < keys.len() ==> unaffected(l, name, #[trigger] keys[j].key),
    ensures
        apply_keys(lines, name, keys).0.contains(l),
    decreases keys.len(),
{
    if keys.len() > 0 {
        lemma_apply_keys_keeps(lines, name, keys.drop_last(), l);
        let (l1, _m) = apply_keys(lines, name, keys.drop_last());
        assert(unaffected(l, name, keys[keys.len() - 1].key));
        lemma_apply_key_keeps(l1, name, keys.last(), l);
    }
}

proof fn lemma_apply_section_keeps(lines: Seq<SLine>, sec: SPatchSection, l: SLine)
    requires
        lines.contains(l),
        forall|j: int| 0 <= j < sec.keys.len() ==> unaffected(l, sec.name, #[trigger] sec.keys[j].key),
    ensures
        apply_section(lines, sec).contains(l),
{
    match first_section_index(lines, sec.name) {
        None => {
            let l1 = if lines.len() > 0 && !is_blank(lines.last().raw) {
                lines.push(blank_line())
            } else {
                lines
            };
            lemma_append_contains(lines, seq![blank_line()], l);
            assert(lines.push(blank_line()) =~= lines + seq![blank_line()]);
            let h = SLine { raw: header_raw(sec.name), kind: SKind::Section(sec.name) };
            lemma_append_contains(l1, seq![h], l);
            assert(l1.push(h) =~= l1 + seq![h]);
            lemma_append_contains(l1.push(h), key_lines(sec.name, sec.keys), l);
        },
        Some(_) => {
            lemma_apply_keys_keeps(lines, sec.name, sec.keys, l);
            let (l2, missing) = apply_keys(lines, sec.name, sec.keys);
            if missing.len() > 0 {
                let idx = section_insert_index(l2, sec.name);
                lemma_first_where_facts(l2.len() as int, is_section_named(l2, sec.name));
                match first_section_index(l2, sec.name) {
                    None => {},
                    Some(s) => {
                        lemma_first_where_facts(l2.len() as int, section_after(l2, s));
                    },
                }
                lemma_splice_contains(l2, idx, key_lines(sec.name, missing), l);
            }
        },
    }
}

/// Names match whichever comes first.
pub proof fn lemma_name_eq_symmetric(a: Seq<char>, b: Seq<char>)
    requires
        name_eq(a, b),
    ensures
        name_eq(b, a),
{
    assert forall|i: int| 0 <= i < b.len() implies crate::text::ascii_lower(#[trigger] b[i]) == crate::text::ascii_lower(a[i]) by {
        assert(crate::text::ascii_lower(a[i]) == crate::text::ascii_lower(b[i]));
    }
}

proof fn lemma_apply_patch_keeps(lines: Seq<SLine>, patch: Seq<SPatchSection>, l: SLine, sec: Option<Seq<char>>, k: Seq<char>)
    requires
        lines.contains(l),
        l.kind == SKind::KeyValue(sec, k),
        !contains_key(patch, sec, k),
    ensures
        apply_patch(lines, patch).contains(l),
    decreases patch.len(),
{
    if patch.len() > 0 {
        let init = patch.drop_last();
        assert(!contains_key(init, sec, k)) by {
            if contains_key(init, sec, k) {
                let i = choose|i: int| 0 <= i < init.len() && section_matches(#[trigger] init[i], sec) && section_sets(init[i], k);
                assert(patch[i] == init[i]);
            }
        }
        lemma_apply_patch_keeps(lines, init, l, sec, k);
        let last = patch.last();
        assert forall|j: int| 0 <= j < last.keys.len() implies unaffected(l, last.name, #[trigger] last.keys[j].key) by {
            let n = patch.len() - 1;
            assert(patch[n] == last);
            if line_key_in_section(l, last.name, last.keys[j].key) {
                let sn = sec->Some_0;
                lemma_name_eq_symmetric(sn, last.name);
                lemma_name_eq_symmetric(k, last.keys[j].key);
                assert(section_matches(patch[n], sec) && section_sets(patch[n], k));
            }
            if line_top_level_key(l, last.keys[j].key) {
                lemma_name_eq_symmetric(k, last.keys[j].key);
                assert(section_matches(patch[n], sec) && section_sets(patch[n], k));
            }
        }
        lemma_apply_section_keeps(apply_patch(lines, init), last, l);
    }
}

proof fn lemma_ensure_blocks_keeps(lines: Seq<SLine>, blocks: Seq<SBlock>, l: SLine)
    requires
        lines.contains(l),
    ensures
        ensure_blocks(lines, blocks).contains(l),
    decreases blocks.len(),
{
    if blocks.len() > 0 {
        lemma_ensure_blocks_keeps(lines, blocks.drop_last(), l);
        let ls = ensure_blocks(lines, blocks.drop_last());
        let b = blocks.last();
        if !(b.comments.len() == 0 || b.keys.len() == 0) {
            let miss = missing_comments(ls, b.comments);
            if miss.len() > 0 {
                match comment_insert_index(ls, b) {
                    None => {},
                    Some(idx) => {
                        lemma_first_where_facts(ls.len() as int, block_key_at(ls, b));
                        let k = first_where(ls.len() as int, block_key_at(ls, b))->Some_0;
                        crate::seq_util::lemma_last_where_facts(k, is_section_at(ls));
                        let spacing = idx > 0 && !is_blank(ls[idx - 1].raw) && !(ls[idx - 1].kind is Section);
                        let ins = (if spacing {
                            seq![blank_line()]
                        } else {
                            seq![]
                        }) + other_lines(miss);
                        lemma_splice_contains(ls, idx, ins, l);
                    },
                }
            }
        }
    }
}

proof fn lemma_collapse_blanks_keeps(lines: Seq<SLine>, l: SLine)
    requires
        lines.contains(l),
        !is_blank(l.raw),
    ensures
        collapse_blanks(lines).contains(l),
    decreases lines.len(),
{
    let p = collapse_blanks(lines.drop_last());
    if lines.last() == l {
        assert(collapse_blanks(lines) == p.push(l));
        assert(p.push(l)[p.len() as int] == l);
    } else {
        let j = choose|j: int| 0 <= j < lines.len() && lines[j] == l;
        assert(lines.drop_last()[j] == l);
        lemma_collapse_blanks_keeps(lines.drop_last(), l);
        let i = choose|i: int| 0 <= i < p.len() && p[i] == l;
        assert(p.push(lines.last())[i] == l);
    }
}

proof fn lemma_strip_trailing_keeps(lines: Seq<SLine>, l: SLine)
    requires
        lines.contains(l),
        !is_blank(l.raw),
    ensures
        strip_trailing_blanks(lines).contains(l),
    decreases lines.len(),
{
    if lines.len() > 0 && is_blank(lines.last().raw) {
        let j = choose|j: int| 0 <= j < lines.len() && lines[j] == l;
        assert(j != lines.len() - 1);
        assert(lines.drop_last()[j] == l);
        lemma_strip_trailing_keeps(lines.drop_last(), l);
    }
}

proof fn lemma_key_line_not_blank(raw: Seq<char>)
    requires
        key_value(raw) is Some,
    ensures
        !is_blank(raw),
{
    let ts = crate::text::trim_start(raw);
    crate::text::lemma_trim_start_props(raw);
    crate::text::lemma_trim_end_props(ts);
    if crate::text::trim_end(ts).len() == 0 {
        assert(crate::text::is_ws(ts[0]));
    }
}

proof fn lemma_parsed_key_lines_not_blank(ls: Seq<Seq<char>>)
    ensures
        forall|i: int|
            0 <= i < parse_lines(ls).0.len() && (#[trigger] parse_lines(ls).0[i]).kind is KeyValue ==> !is_blank(
                parse_lines(ls).0[i].raw,
            ),
    decreases ls.len(),
{
    if ls.len() > 0 {
        lemma_parsed_key_lines_not_blank(ls.drop_last());
        let (prev, cur) = parse_lines(ls.drop_last());
        let raw = crate::text::strip_cr(ls.last());
        let (l, c) = crate::ini_doc::classify(raw, cur);
        if l.kind is KeyValue {
            assert(crate::ini_line::section_header(raw) is None);
            lemma_key_line_not_blank(raw);
        }
        assert forall|i: int|
            0 <= i < parse_lines(ls).0.len() && (#[trigger] parse_lines(ls).0[i]).kind is KeyValue implies !is_blank(
                parse_lines(ls).0[i].raw,
            ) by {
            if i < prev.len() {
                assert(parse_lines(ls).0[i] == prev[i]);
            }
        }
    }
}

/// A merge keeps every line of the existing text that sets a key which
/// neither the planned text nor the managed text sets: custom and
/// third-party settings survive. The merged text is those lines rendered.
pub proof fn lemma_merge_keeps_unmanaged_settings(existing: Seq<char>, planned: Seq<char>, managed: Seq<char>, i: int)
    requires
        !is_blank(existing),
        0 <= i < parse_doc(existing).lines.len(),
        parse_doc(existing).lines[i].kind matches SKind::KeyValue(sec, k) && !contains_key(parse_patch(planned), sec, k)
            && !contains_key(parse_patch(managed), sec, k),
    ensures
        merged_lines(existing, planned, managed).contains(parse_doc(existing).lines[i]),
        merge_ini(Some(existing), planned, managed) == render(
            merged_lines(existing, planned, managed),
            parse_doc(existing).had_final_newline,
            line_ending(existing),
        ),
{
    let doc = parse_doc(existing);
    let l = doc.lines[i];
    let (sec, k) = match l.kind {
        SKind::KeyValue(s, k) => (s, k),
        _ => (None, seq![]),
    };
    let patch = parse_patch(planned);
    let mpatch = parse_patch(managed);
    lemma_filter_by_contains(doc.lines, setting_keep(doc.lines, patch, mpatch), i);
    let l1 = remove_inactive_settings(doc.lines, patch, mpatch);
    let j1 = choose|j: int| 0 <= j < l1.len() && l1[j] == l;
    lemma_filter_by_contains(l1, comment_keep(l1, parse_blocks(managed), patch), j1);
    let c1 = filter_by(l1, comment_keep(l1, parse_blocks(managed), patch));
    let j2 = choose|j: int| 0 <= j < c1.len() && c1[j] == l;
    lemma_filter_by_contains(c1, empty_section_keep(c1, parse_blocks(managed), patch), j2);
    let l2 = remove_scaffolding(l1, patch, parse_blocks(managed));
    lemma_apply_patch_keeps(l2, patch, l, sec, k);
    let l3 = apply_patch(l2, patch);
    lemma_ensure_blocks_keeps(l3, parse_blocks(planned), l);
    let l4 = ensure_blocks(l3, parse_blocks(planned));
    lemma_parsed_key_lines_not_blank(crate::text::lines(existing));
    lemma_collapse_blanks_keeps(l4, l);
    lemma_strip_trailing_keeps(collapse_blanks(l4), l);
}

/// With no existing text, or a blank one, a merge writes exactly the
/// planned text, as a replace does.
pub proof fn lemma_merge_into_nothing(existing: Option<Seq<char>>, planned: Seq<char>, managed: Seq<char>)
    requires
        existing matches Some(e) ==> is_blank(e),
    ensures
        merge_ini(existing, planned, managed) == planned,
{
}

// ---------------------------------------------------------------------------
// What a merge sets.

/// The line has a `=` and a non-whitespace character before the first one.
pub open spec fn key_shaped(raw: Seq<char>) -> bool {
    match crate::text::find_char(raw, '=') {
        Some(e) => exists|i: int| 0 <= i < e && !crate::text::is_ws(#[trigger] raw[i]),
        None => false,
    }
}

/// Every key line of `lines` is key-shaped.
pub open spec fn key_lines_shaped(lines: Seq<SLine>) -> bool {
    forall|i: int| 0 <= i < lines.len() && (#[trigger] lines[i]).kind is KeyValue ==> key_shaped(lines[i].raw)
}

proof fn lemma_trim_has_non_ws(s: Seq<char>)
    requires
        trim(s).len() > 0,
    ensures
        exists|i: int| 0 <= i < s.len() && !crate::text::is_ws(#[trigger] s[i]),
{
    let ts = crate::text::trim_start(s);
    crate::text::lemma_trim_start_props(s);
    crate::text::lemma_trim_end_props(ts);
    let k = s.len() - ts.len();
    assert(ts[0] == s[k]);
}

proof fn lemma_key_value_shaped(raw: Seq<char>)
    requires
        key_value(raw) is Some,
    ensures
        key_shaped(raw),
{
    crate::text::lemma_find_char_facts(raw, '=');
    let e = crate::text::find_char(raw, '=')->Some_0;
    lemma_trim_has_non_ws(raw.take(e));
    let i = choose|i: int| 0 <= i < raw.take(e).len() && !crate::text::is_ws(#[trigger] raw.take(e)[i]);
    assert(raw[i] == raw.take(e)[i]);
}

proof fn lemma_shaped_not_blank(raw: Seq<char>)
    requires
        key_shaped(raw),
    ensures
        !is_blank(raw),
{
    let e = crate::text::find_char(raw, '=')->Some_0;
    let i = choose|i: int| 0 <= i < e && !crate::text::is_ws(#[trigger] raw[i]);
    crate::text::lemma_find_char_facts(raw, '=');
    let ts = crate::text::trim_start(raw);
    crate::text::lemma_trim_start_props(raw);
    crate::text::lemma_trim_end_props(ts);
    assert(i >= raw.len() - ts.len());
    assert(ts[0] == raw[raw.len() - ts.len()]);
}

proof fn lemma_replace_value_shaped(raw: Seq<char>, value: Seq<char>)
    requires
        key_shaped(raw),
    ensures
        key_shaped(replace_value(raw, value)),
{
    crate::text::lemma_find_char_facts(raw, '=');
    let e = crate::text::find_char(raw, '=')->Some_0;
    let r = replace_value(raw, value);
    assert forall|j: int| 0 <= j <= e implies r[j] == raw[j] by {}
    crate::text::lemma_find_char_some(r, '=', e);
    let i = choose|i: int| 0 <= i < e && !crate::text::is_ws(#[trigger] raw[i]);
    assert(!crate::text::is_ws(r[i]));
}

proof fn lemma_filter_shaped(lines: Seq<SLine>, keep: spec_fn(int) -> bool)
    requires
        key_lines_shaped(lines),
    ensures
        key_lines_shaped(filter_by(lines, keep)),
{
    crate::seq_util::lemma_filter_by_from(lines, keep);
    let r = filter_by(lines, keep);
    assert forall|i: int| 0 <= i < r.len() && (#[trigger] r[i]).kind is KeyValue implies key_shaped(r[i].raw) by {
        assert(crate::seq_util::kept_from(lines, keep, lines.len() as int, r[i]));
        let k = choose|k: int| 0 <= k < lines.len() && keep(k) && lines[k] == r[i];
        assert(lines[k].kind is KeyValue);
    }
}

/// Every key of the patch sets from a line that reads as that key and value.
pub open spec fn patch_keys_read(patch: Seq<SPatchSection>) -> bool {
    forall|s: int, j: int|
        0 <= s < patch.len() && 0 <= j < patch[s].keys.len() ==> key_value((#[trigger] patch[s].keys[j]).raw)
            == Some((patch[s].keys[j].key, patch[s].keys[j].value))
}

proof fn lemma_key_lines_shaped(name: Seq<char>, keys: Seq<SPatchKey>)
    requires
        forall|j: int| 0 <= j < keys.len() ==> key_value((#[trigger] keys[j]).raw) is Some,
    ensures
        key_lines_shaped(key_lines(name, keys)),
{
    assert forall|i: int| 0 <= i < key_lines(name, keys).len() && (#[trigger] key_lines(name, keys)[i]).kind is KeyValue implies key_shaped(
        key_lines(name, keys)[i].raw,
    ) by {
        lemma_key_value_shaped(keys[i].raw);
    }
}

proof fn lemma_concat_shaped(a: Seq<SLine>, b: Seq<SLine>)
    requires
        key_lines_shaped(a),
        key_lines_shaped(b),
    ensures
        key_lines_shaped(a + b),
{
    assert forall|i: int| 0 <= i < (a + b).len() && (#[trigger] (a + b)[i]).kind is KeyValue implies key_shaped((a + b)[i].raw) by {
        if i < a.len() {
            assert((a + b)[i] == a[i]);
        } else {
            assert((a + b)[i] == b[i - a.len()]);
        }
    }
}

proof fn lemma_splice_shaped(a: Seq<SLine>, idx: int, ins: Seq<SLine>)
    requires
        0 <= idx <= a.len(),
        key_lines_shaped(a),
        key_lines_shaped(ins),
    ensures
        key_lines_shaped(a.take(idx) + ins + a.skip(idx)),
{
    assert(key_lines_shaped(a.take(idx))) by {
        assert forall|i: int| 0 <= i < a.take(idx).len() && (#[trigger] a.take(idx)[i]).kind is KeyValue implies key_shaped(
            a.take(idx)[i].raw,
        ) by {
            assert(a.take(idx)[i] == a[i]);
        }
    }
    assert(key_lines_shaped(a.skip(idx))) by {
        assert forall|i: int| 0 <= i < a.skip(idx).len() && (#[trigger] a.skip(idx)[i]).kind is KeyValue implies key_shaped(
            a.skip(idx)[i].raw,
        ) by {
            assert(a.skip(idx)[i] == a[i + idx]);
        }
    }
    lemma_concat_shaped(a.take(idx), ins);
    lemma_concat_shaped(a.take(idx) + ins, a.skip(idx));
}

proof fn lemma_apply_key_shaped(lines: Seq<SLine>, name: Seq<char>, pk: SPatchKey)
    requires
        key_lines_shaped(lines),
    ensures
        key_lines_shaped(apply_key(lines, name, pk).0),
{
    lemma_first_where_facts(lines.len() as int, key_in_section(lines, name, pk.key));
    match first_where(lines.len() as int, key_in_section(lines, name, pk.key)) {
        Some(f) => {
            let upd = lines.update(f, SLine { raw: replace_value(lines[f].raw, pk.value), kind: lines[f].kind });
            lemma_replace_value_shaped(lines[f].raw, pk.value);
            assert(key_lines_shaped(upd)) by {
                assert forall|i: int| 0 <= i < upd.len() && (#[trigger] upd[i]).kind is KeyValue implies key_shaped(upd[i].raw) by {
                    if i != f {
                        assert(upd[i] == lines[i]);
                    }
                }
            }
            lemma_filter_shaped(upd, dup_keep(upd, name, pk.key, f));
            let l2 = filter_by(upd, dup_keep(upd, name, pk.key, f));
            lemma_filter_shaped(l2, top_keep(l2, pk.key));
        },
        None => {
            lemma_filter_shaped(lines, top_keep(lines, pk.key));
        },
    }
}

/// The keys `apply_keys` reports missing are keys it was given.
pub open spec fn keys_among(missing: Seq<SPatchKey>, keys: Seq<SPatchKey>) -> bool {
    forall|m: int| 0 <= m < missing.len() ==> exists|j: int| 0 <= j < keys.len() && keys[j] == #[trigger] missing[m]
}

proof fn lemma_apply_keys_shaped(lines: Seq<SLine>, name: Seq<char>, keys: Seq<SPatchKey>)
    requires
        key_lines_shaped(lines),
    ensures
        key_lines_shaped(apply_keys(lines, name, keys).0),
        keys_among(apply_keys(lines, name, keys).1, keys),
    decreases keys.len(),
{
    if keys.len() > 0 {
        lemma_apply_keys_shaped(lines, name, keys.drop_last());
        let (l, m) = apply_keys(lines, name, keys.drop_last());
        lemma_apply_key_shaped(l, name, keys.last());
        let r = apply_keys(lines, name, keys).1;
        assert forall|k: int| 0 <= k < r.len() implies exists|j: int| 0 <= j < keys.len() && keys[j] == #[trigger] r[k] by {
            if k < m.len() {
                assert(r[k] == m[k]);
                let j = choose|j: int| 0 <= j < keys.drop_last().len() && keys.drop_last()[j] == #[trigger] m[k];
                assert(keys[j] == keys.drop_last()[j]);
            } else {
                assert(r[k] == keys.last());
                assert(keys[keys.len() - 1] == keys.last());
            }
        }
    }
}

proof fn lemma_apply_section_shaped(lines: Seq<SLine>, sec: SPatchSection)
    requires
        key_lines_shaped(lines),
        forall|j: int| 0 <= j < sec.keys.len() ==> key_value((#[trigger] sec.keys[j]).raw) is Some,
    ensures
        key_lines_shaped(apply_section(lines, sec)),
{
    lemma_key_lines_shaped(sec.name, sec.keys);
    match first_section_index(lines, sec.name) {
        None => {
            let l1 = if lines.len() > 0 && !is_blank(lines.last().raw) {
                lines.push(blank_line())
            } else {
                lines
            };
            let h = SLine { raw: header_raw(sec.name), kind: SKind::Section(sec.name) };
            assert(key_lines_shaped(l1.push(h))) by {
                assert forall|i: int| 0 <= i < l1.push(h).len() && (#[trigger] l1.push(h)[i]).kind is KeyValue implies key_shaped(
                    l1.push(h)[i].raw,
                ) by {
                    assert(l1.push(h)[i] == lines[i]);
                }
            }
            lemma_concat_shaped(l1.push(h), key_lines(sec.name, sec.keys));
        },
        Some(_) => {
            lemma_apply_keys_shaped(lines, sec.name, sec.keys);
            let (l2, missing) = apply_keys(lines, sec.name, sec.keys);
            if missing.len() > 0 {
                assert forall|j: int| 0 <= j < missing.len() implies key_value((#[trigger] missing[j]).raw) is Some by {
                    let k = choose|k: int| 0 <= k < sec.keys.len() && sec.keys[k] == #[trigger] missing[j];
                    assert(key_value(sec.keys[k].raw) is Some);
                }
                lemma_key_lines_shaped(sec.name, missing);
                let idx = section_insert_index(l2, sec.name);
                lemma_first_where_facts(l2.len() as int, is_section_named(l2, sec.name));
                match first_section_index(l2, sec.name) {
                    None => {},
                    Some(s) => {
                        lemma_first_where_facts(l2.len() as int, section_after(l2, s));
                    },
                }
                lemma_splice_shaped(l2, idx, key_lines(sec.name, missing));
            }
        },
    }
}

proof fn lemma_apply_patch_shaped(lines: Seq<SLine>, patch: Seq<SPatchSection>)
    requires
        key_lines_shaped(lines),
        patch_keys_read(patch),
    ensures
        key_lines_shaped(apply_patch(lines, patch)),
    decreases patch.len(),
{
    if patch.len() > 0 {
        let init = patch.drop_last();
        assert(patch_keys_read(init)) by {
            assert forall|s: int, j: int| 0 <= s < init.len() && 0 <= j < init[s].keys.len() implies key_value(
                (#[trigger] init[s].keys[j]).raw,
            ) == Some((init[s].keys[j].key, init[s].keys[j].value)) by {
                assert(init[s] == patch[s]);
            }
        }
        lemma_apply_patch_shaped(lines, init);
        let last = patch.last();
        assert forall|j: int| 0 <= j < last.keys.len() implies key_value((#[trigger] last.keys[j]).raw) is Some by {
            assert(patch[patch.len() - 1] == last);
            assert(key_value(patch[patch.len() - 1].keys[j].raw) == Some((last.keys[j].key, last.keys[j].value)));
        }
        lemma_apply_section_shaped(apply_patch(lines, init), last);
    }
}

pub proof fn lemma_name_eq_reflexive(a: Seq<char>)
    ensures
        name_eq(a, a),
{
}

pub proof fn lemma_name_eq_transitive(a: Seq<char>, b: Seq<char>, c: Seq<char>)
    requires
        name_eq(a, b),
        name_eq(b, c),
    ensures
        name_eq(a, c),
{
    assert forall|i: int| 0 <= i < a.len() implies crate::text::ascii_lower(#[trigger] a[i]) == crate::text::ascii_lower(c[i]) by {
        assert(crate::text::ascii_lower(a[i]) == crate::text::ascii_lower(b[i]));
        assert(crate::text::ascii_lower(b[i]) == crate::text::ascii_lower(c[i]));
    }
}

/// No two sections of the patch have matching names.
pub open spec fn section_names_distinct(patch: Seq<SPatchSection>) -> bool {
    forall|a: int, b: int| 0 <= a < b < patch.len() ==> !name_eq(#[trigger] patch[a].name, #[trigger] patch[b].name)
}

/// No two keys of a section of the patch have matching names.
pub open spec fn section_keys_distinct(sec: SPatchSection) -> bool {
    forall|a: int, b: int| 0 <= a < b < sec.keys.len() ==> !name_eq(#[trigger] sec.keys[a].key, #[trigger] sec.keys[b].key)
}

pub open spec fn patch_well_formed(patch: Seq<SPatchSection>) -> bool {
    &&& patch_keys_read(patch)
    &&& section_names_distinct(patch)
    &&& forall|s: int| 0 <= s < patch.len() ==> section_keys_distinct(#[trigger] patch[s])
}

proof fn lemma_upsert_well_formed(secs: Seq<SPatchSection>, name: Seq<char>)
    requires
        patch_well_formed(secs),
    ensures
        patch_well_formed(crate::ini_doc::upsert(secs, name).0),
        0 <= crate::ini_doc::upsert(secs, name).1 < crate::ini_doc::upsert(secs, name).0.len(),
        name_eq(crate::ini_doc::upsert(secs, name).0[crate::ini_doc::upsert(secs, name).1].name, name),
        crate::ini_doc::upsert(secs, name).0.len() >= secs.len(),
        forall|i: int| 0 <= i < secs.len() ==> crate::ini_doc::upsert(secs, name).0[i] == secs[i],
{
    lemma_first_where_facts(secs.len() as int, crate::ini_doc::section_named(secs, name));
    match crate::ini_doc::find_section(secs, name) {
        Some(i) => {
            assert(crate::ini_doc::section_named(secs, name)(i));
        },
        None => {
            let r = secs.push(SPatchSection { name, keys: seq![] });
            lemma_name_eq_reflexive(name);
            assert forall|a: int, b: int| 0 <= a < b < r.len() implies !name_eq(#[trigger] r[a].name, #[trigger] r[b].name) by {
                if b == secs.len() {
                    assert(!crate::ini_doc::section_named(secs, name)(a));
                    if name_eq(secs[a].name, name) {
                    }
                }
            }
            assert forall|s: int| 0 <= s < r.len() implies section_keys_distinct(#[trigger] r[s]) by {
                if s < secs.len() {
                    assert(r[s] == secs[s]);
                }
            }
            assert forall|s: int, j: int| 0 <= s < r.len() && 0 <= j < r[s].keys.len() implies key_value(
                (#[trigger] r[s].keys[j]).raw,
            ) == Some((r[s].keys[j].key, r[s].keys[j].value)) by {
                assert(r[s] == secs[s]);
            }
        },
    }
}

#[verifier::spinoff_prover]
proof fn lemma_patch_step_well_formed(st: (Seq<SPatchSection>, Option<Seq<char>>), raw: Seq<char>)
    requires
        patch_well_formed(st.0),
    ensures
        patch_well_formed(crate::ini_doc::patch_step(st, raw).0),
{
    let (secs, cur) = st;
    match crate::ini_line::section_header(raw) {
        Some(h) => {
            lemma_upsert_well_formed(secs, h);
        },
        None => match cur {
            None => {},
            Some(c) => match key_value(raw) {
                None => {},
                Some((k, v)) => {
                    lemma_upsert_well_formed(secs, c);
                    let (secs2, i) = crate::ini_doc::upsert(secs, c);
                    let sec = secs2[i];
                    let pk = SPatchKey { key: k, value: v, raw };
                    lemma_first_where_facts(sec.keys.len() as int, crate::ini_doc::key_named(sec.keys, k));
                    let keys2 = match crate::ini_doc::find_key(sec.keys, k) {
                        Some(j) => sec.keys.update(j, pk),
                        None => sec.keys.push(pk),
                    };
                    let nsec = SPatchSection { name: sec.name, keys: keys2 };
                    let r = secs2.update(i, nsec);
                    assert(section_keys_distinct(sec));
                    assert(section_keys_distinct(nsec)) by {
                        assert forall|a: int, b: int| 0 <= a < b < keys2.len() implies !name_eq(
                            #[trigger] keys2[a].key,
                            #[trigger] keys2[b].key,
                        ) by {
                            match crate::ini_doc::find_key(sec.keys, k) {
                                Some(j) => {
                                    assert(crate::ini_doc::key_named(sec.keys, k)(j));
                                    if a == j {
                                        if name_eq(k, keys2[b].key) {
                                            lemma_name_eq_transitive(sec.keys[j].key, k, sec.keys[b].key);
                                        }
                                    } else if b == j {
                                        if name_eq(keys2[a].key, k) {
                                            lemma_name_eq_symmetric(sec.keys[j].key, k);
                                            lemma_name_eq_transitive(sec.keys[a].key, k, sec.keys[j].key);
                                        }
                                    }
                                },
                                None => {
                                    if b == sec.keys.len() {
                                        assert(!crate::ini_doc::key_named(sec.keys, k)(a));
                                    }
                                },
                            }
                        }
                    }
                    assert forall|x: int, y: int| 0 <= x < y < r.len() implies !name_eq(#[trigger] r[x].name, #[trigger] r[y].name) by {
                        assert(r[x].name == secs2[x].name && r[y].name == secs2[y].name);
                    }
                    assert forall|s: int| 0 <= s < r.len() implies section_keys_distinct(#[trigger] r[s]) by {
                        if s != i {
                            assert(r[s] == secs2[s]);
                        }
                    }
                    assert forall|s: int, j: int| 0 <= s < r.len() && 0 <= j < r[s].keys.len() implies key_value(
                        (#[trigger] r[s].keys[j]).raw,
                    ) == Some((r[s].keys[j].key, r[s].keys[j].value)) by {
                        if s != i {
                            assert(r[s] == secs2[s]);
                        } else {
                            match crate::ini_doc::find_key(sec.keys, k) {
                                Some(jj) => {
                                    if j != jj {
                                        assert(keys2[j] == sec.keys[j]);
                                    }
                                },
                                None => {
                                    if j < sec.keys.len() {
                                        assert(keys2[j] == sec.keys[j]);
                                    }
                                },
                            }
                        }
                    }
                },
            },
        },
    }
}

proof fn lemma_patch_lines_well_formed(ls: Seq<Seq<char>>)
    ensures
        patch_well_formed(crate::ini_doc::patch_lines(ls).0),
    decreases ls.len(),
{
    if ls.len() > 0 {
        lemma_patch_lines_well_formed(ls.drop_last());
        lemma_patch_step_well_formed(crate::ini_doc::patch_lines(ls.drop_last()), crate::text::strip_cr(ls.last()));
    }
}

/// A planned text's patch has sections of distinct names, keys of distinct
/// names in each, and each key read from a line that gives it.
pub proof fn lemma_parse_patch_well_formed(planned: Seq<char>)
    ensures
        patch_well_formed(parse_patch(planned)),
{
    lemma_patch_lines_well_formed(crate::text::lines(planned));
}

/// Some line sets `key` in a section named `name`.
pub open spec fn sets_key_in(lines: Seq<SLine>, name: Seq<char>, key: Seq<char>) -> bool {
    exists|i: int| 0 <= i < lines.len() && line_key_in_section(#[trigger] lines[i], name, key)
}

proof fn lemma_sets_key_kept(lines: Seq<SLine>, r: Seq<SLine>, name: Seq<char>, key: Seq<char>, l: SLine)
    requires
        lines.contains(l),
        line_key_in_section(l, name, key),
        r.contains(l),
    ensures
        sets_key_in(r, name, key),
{
    let i = choose|i: int| 0 <= i < r.len() && r[i] == l;
    assert(line_key_in_section(r[i], name, key));
}

proof fn lemma_apply_key_sets(lines: Seq<SLine>, name: Seq<char>, pk: SPatchKey)
    ensures
        apply_key(lines, name, pk).1 ==> sets_key_in(apply_key(lines, name, pk).0, name, pk.key),
{
    lemma_first_where_facts(lines.len() as int, key_in_section(lines, name, pk.key));
    match first_where(lines.len() as int, key_in_section(lines, name, pk.key)) {
        Some(f) => {
            let upd = lines.update(f, SLine { raw: replace_value(lines[f].raw, pk.value), kind: lines[f].kind });
            assert(key_in_section(lines, name, pk.key)(f));
            assert(line_key_in_section(upd[f], name, pk.key));
            lemma_filter_by_contains(upd, dup_keep(upd, name, pk.key, f), f);
            let l2 = filter_by(upd, dup_keep(upd, name, pk.key, f));
            let j = choose|j: int| 0 <= j < l2.len() && l2[j] == upd[f];
            lemma_filter_by_contains(l2, top_keep(l2, pk.key), j);
            let r = filter_by(l2, top_keep(l2, pk.key));
            let k = choose|k: int| 0 <= k < r.len() && r[k] == upd[f];
            assert(line_key_in_section(r[k], name, pk.key));
        },
        None => {},
    }
}

/// The key is set in the lines, or reported missing.
pub open spec fn set_or_missing(lines: Seq<SLine>, missing: Seq<SPatchKey>, name: Seq<char>, pk: SPatchKey) -> bool {
    sets_key_in(lines, name, pk.key) || missing.contains(pk)
}

proof fn lemma_apply_keys_sets(lines: Seq<SLine>, sec: SPatchSection, n: int)
    requires
        0 <= n <= sec.keys.len(),
        section_keys_distinct(sec),
    ensures
        forall|j: int| 0 <= j < n ==> set_or_missing(
            apply_keys(lines, sec.name, sec.keys.take(n)).0,
            apply_keys(lines, sec.name, sec.keys.take(n)).1,
            sec.name,
            #[trigger] sec.keys[j],
        ),
    decreases n,
{
    if n > 0 {
        let keys = sec.keys.take(n);
        assert(keys.drop_last() =~= sec.keys.take(n - 1));
        lemma_apply_keys_sets(lines, sec, n - 1);
        let (l, m) = apply_keys(lines, sec.name, sec.keys.take(n - 1));
        let last = sec.keys[n - 1];
        assert(keys.last() == last);
        let (l2, found) = apply_key(l, sec.name, last);
        let m2 = if found {
            m
        } else {
            m.push(last)
        };
        assert(apply_keys(lines, sec.name, keys) == (l2, m2));
        lemma_apply_key_sets(l, sec.name, last);
        assert forall|j: int| 0 <= j < n implies set_or_missing(l2, m2, sec.name, #[trigger] sec.keys[j]) by {
            if j == n - 1 {
                if !found {
                    assert(m2[m.len() as int] == last);
                }
            } else {
                assert(set_or_missing(l, m, sec.name, sec.keys[j]));
                if sets_key_in(l, sec.name, sec.keys[j].key) {
                    let i = choose|i: int| 0 <= i < l.len() && line_key_in_section(#[trigger] l[i], sec.name, sec.keys[j].key);
                    let x = l[i];
                    assert(unaffected(x, sec.name, last.key)) by {
                        if line_key_in_section(x, sec.name, last.key) {
                            let k = match x.kind {
                                SKind::KeyValue(_, k) => k,
                                _ => seq![],
                            };
                            lemma_name_eq_symmetric(k, sec.keys[j].key);
                            lemma_name_eq_transitive(sec.keys[j].key, k, last.key);
                        }
                    }
                    assert(l.contains(x));
                    lemma_apply_key_keeps(l, sec.name, last, x);
                    lemma_sets_key_kept(l, l2, sec.name, sec.keys[j].key, x);
                } else {
                    let a = choose|a: int| 0 <= a < m.len() && m[a] == sec.keys[j];
                    if !found {
                        assert(m2[a] == sec.keys[j]);
                    }
                }
            }
        }
    }
}

proof fn lemma_key_line_sets(name: Seq<char>, pk: SPatchKey)
    requires
        key_value(pk.raw) == Some((pk.key, pk.value)),
    ensures
        line_key_in_section(kv_line(name, pk.raw), name, pk.key),
{
    lemma_name_eq_reflexive(name);
    lemma_name_eq_reflexive(pk.key);
}

proof fn lemma_apply_section_sets(lines: Seq<SLine>, sec: SPatchSection, j: int)
    requires
        0 <= j < sec.keys.len(),
        section_keys_distinct(sec),
        forall|k: int| 0 <= k < sec.keys.len() ==> key_value((#[trigger] sec.keys[k]).raw) == Some(
            (sec.keys[k].key, sec.keys[k].value),
        ),
    ensures
        sets_key_in(apply_section(lines, sec), sec.name, sec.keys[j].key),
{
    lemma_key_line_sets(sec.name, sec.keys[j]);
    match first_section_index(lines, sec.name) {
        None => {
            let l1 = if lines.len() > 0 && !is_blank(lines.last().raw) {
                lines.push(blank_line())
            } else {
                lines
            };
            let h = SLine { raw: header_raw(sec.name), kind: SKind::Section(sec.name) };
            let r = l1.push(h) + key_lines(sec.name, sec.keys);
            assert(r[l1.push(h).len() + j] == kv_line(sec.name, sec.keys[j].raw));
        },
        Some(_) => {
            lemma_apply_keys_sets(lines, sec, sec.keys.len() as int);
            assert(sec.keys.take(sec.keys.len() as int) =~= sec.keys);
            let (l2, missing) = apply_keys(lines, sec.name, sec.keys);
            assert(set_or_missing(l2, missing, sec.name, sec.keys[j]));
            if missing.len() > 0 {
                let idx = section_insert_index(l2, sec.name);
                lemma_first_where_facts(l2.len() as int, is_section_named(l2, sec.name));
                match first_section_index(l2, sec.name) {
                    None => {},
                    Some(s) => {
                        lemma_first_where_facts(l2.len() as int, section_after(l2, s));
                    },
                }
                let ins = key_lines(sec.name, missing);
                let r = l2.take(idx) + ins + l2.skip(idx);
                if sets_key_in(l2, sec.name, sec.keys[j].key) {
                    let i = choose|i: int| 0 <= i < l2.len() && line_key_in_section(#[trigger] l2[i], sec.name, sec.keys[j].key);
                    lemma_splice_contains(l2, idx, ins, l2[i]);
                    lemma_sets_key_kept(l2, r, sec.name, sec.keys[j].key, l2[i]);
                } else {
                    let a = choose|a: int| 0 <= a < missing.len() && missing[a] == sec.keys[j];
                    assert(r[idx + a] == kv_line(sec.name, sec.keys[j].raw));
                }
            } else {
                if !sets_key_in(l2, sec.name, sec.keys[j].key) {
                    let a = choose|a: int| 0 <= a < missing.len() && missing[a] == sec.keys[j];
                }
            }
        },
    }
}

proof fn lemma_apply_patch_sets(lines: Seq<SLine>, patch: Seq<SPatchSection>, s: int, j: int)
    requires
        patch_well_formed(patch),
        0 <= s < patch.len(),
        0 <= j < patch[s].keys.len(),
    ensures
        sets_key_in(apply_patch(lines, patch), patch[s].name, patch[s].keys[j].key),
    decreases patch.len(),
{
    let n = patch.len() - 1;
    let init = patch.drop_last();
    let last = patch.last();
    assert(patch[n] == last);
    assert forall|k: int| 0 <= k < last.keys.len() implies key_value((#[trigger] last.keys[k]).raw) == Some(
        (last.keys[k].key, last.keys[k].value),
    ) by {
        assert(key_value(patch[n].keys[k].raw) == Some((patch[n].keys[k].key, patch[n].keys[k].value)));
    }
    if s == n {
        lemma_apply_section_sets(apply_patch(lines, init), last, j);
    } else {
        assert(patch_well_formed(init)) by {
            assert forall|a: int| 0 <= a < init.len() implies section_keys_distinct(#[trigger] init[a]) by {
                assert(init[a] == patch[a]);
            }
            assert forall|x: int, y: int| 0 <= x < y < init.len() implies !name_eq(#[trigger] init[x].name, #[trigger] init[y].name) by {
                assert(init[x] == patch[x] && init[y] == patch[y]);
            }
            assert forall|a: int, k: int| 0 <= a < init.len() && 0 <= k < init[a].keys.len() implies key_value(
                (#[trigger] init[a].keys[k]).raw,
            ) == Some((init[a].keys[k].key, init[a].keys[k].value)) by {
                assert(init[a] == patch[a]);
            }
        }
        assert(init[s] == patch[s]);
        lemma_apply_patch_sets(lines, init, s, j);
        let ap = apply_patch(lines, init);
        let i = choose|i: int| 0 <= i < ap.len() && line_key_in_section(#[trigger] ap[i], patch[s].name, patch[s].keys[j].key);
        let x = ap[i];
        assert forall|k: int| 0 <= k < last.keys.len() implies unaffected(x, last.name, #[trigger] last.keys[k].key) by {
            if line_key_in_section(x, last.name, last.keys[k].key) {
                let sn = match x.kind {
                    SKind::KeyValue(Some(sn), _) => sn,
                    _ => seq![],
                };
                lemma_name_eq_symmetric(sn, patch[s].name);
                lemma_name_eq_transitive(patch[s].name, sn, last.name);
                assert(!name_eq(patch[s].name, patch[n].name));
            }
        }
        assert(ap.contains(x));
        lemma_apply_section_keeps(ap, last, x);
        lemma_sets_key_kept(ap, apply_section(ap, last), patch[s].name, patch[s].keys[j].key, x);
    }
}

proof fn lemma_parsed_lines_shaped(ls: Seq<Seq<char>>)
    ensures
        key_lines_shaped(parse_lines(ls).0),
    decreases ls.len(),
{
    if ls.len() > 0 {
        lemma_parsed_lines_shaped(ls.drop_last());
        let (prev, cur) = parse_lines(ls.drop_last());
        let raw = crate::text::strip_cr(ls.last());
        let (l, c) = crate::ini_doc::classify(raw, cur);
        if l.kind is KeyValue {
            assert(crate::ini_line::section_header(raw) is None);
            lemma_key_value_shaped(raw);
        }
        let r = parse_lines(ls).0;
        assert forall|i: int| 0 <= i < r.len() && (#[trigger] r[i]).kind is KeyValue implies key_shaped(r[i].raw) by {
            if i < prev.len() {
                assert(r[i] == prev[i]);
            }
        }
    }
}

proof fn lemma_ensure_blocks_shaped(lines: Seq<SLine>, blocks: Seq<SBlock>)
    requires
        key_lines_shaped(lines),
    ensures
        key_lines_shaped(ensure_blocks(lines, blocks)),
    decreases blocks.len(),
{
    if blocks.len() > 0 {
        lemma_ensure_blocks_shaped(lines, blocks.drop_last());
        let ls = ensure_blocks(lines, blocks.drop_last());
        let b = blocks.last();
        if !(b.comments.len() == 0 || b.keys.len() == 0) {
            let miss = missing_comments(ls, b.comments);
            if miss.len() > 0 {
                match comment_insert_index(ls, b) {
                    None => {},
                    Some(idx) => {
                        lemma_first_where_facts(ls.len() as int, block_key_at(ls, b));
                        let k = first_where(ls.len() as int, block_key_at(ls, b))->Some_0;
                        crate::seq_util::lemma_last_where_facts(k, is_section_at(ls));
                        let spacing = idx > 0 && !is_blank(ls[idx - 1].raw) && !(ls[idx - 1].kind is Section);
                        let ins = (if spacing {
                            seq![blank_line()]
                        } else {
                            seq![]
                        }) + other_lines(miss);
                        assert(key_lines_shaped(ins)) by {
                            assert forall|i: int| 0 <= i < ins.len() && (#[trigger] ins[i]).kind is KeyValue implies key_shaped(ins[i].raw) by {
                                if spacing && i == 0 {
                                    assert(ins[0] == blank_line());
                                } else if spacing {
                                    assert(ins[i] == other_lines(miss)[i - 1]);
                                } else {
                                    assert(ins[i] == other_lines(miss)[i]);
                                }
                            }
                        }
                        lemma_splice_shaped(ls, idx, ins);
                    },
                }
            }
        }
    }
}

/// A merge sets every key the planned text sets, in a section of its
/// section's name: each planned setting is in the merged text.
pub proof fn lemma_merge_sets_planned_keys(existing: Seq<char>, planned: Seq<char>, managed: Seq<char>, s: int, j: int)
    requires
        !is_blank(existing),
        0 <= s < parse_patch(planned).len(),
        0 <= j < parse_patch(planned)[s].keys.len(),
    ensures
        sets_key_in(merged_lines(existing, planned, managed), parse_patch(planned)[s].name, parse_patch(planned)[s].keys[j].key),
{
    let patch = parse_patch(planned);
    let doc = parse_doc(existing);
    lemma_parse_patch_well_formed(planned);
    lemma_parsed_lines_shaped(crate::text::lines(existing));
    let l1 = remove_inactive_settings(doc.lines, patch, parse_patch(managed));
    lemma_filter_shaped(doc.lines, setting_keep(doc.lines, patch, parse_patch(managed)));
    let c1 = filter_by(l1, comment_keep(l1, parse_blocks(managed), patch));
    lemma_filter_shaped(l1, comment_keep(l1, parse_blocks(managed), patch));
    lemma_filter_shaped(c1, empty_section_keep(c1, parse_blocks(managed), patch));
    let l2 = remove_scaffolding(l1, patch, parse_blocks(managed));
    lemma_apply_patch_shaped(l2, patch);
    lemma_apply_patch_sets(l2, patch, s, j);
    let l3 = apply_patch(l2, patch);
    let i = choose|i: int| 0 <= i < l3.len() && line_key_in_section(#[trigger] l3[i], patch[s].name, patch[s].keys[j].key);
    let x = l3[i];
    assert(key_shaped(x.raw));
    lemma_shaped_not_blank(x.raw);
    assert(l3.contains(x));
    lemma_ensure_blocks_keeps(l3, parse_blocks(planned), x);
    let l4 = ensure_blocks(l3, parse_blocks(planned));
    lemma_collapse_blanks_keeps(l4, x);
    lemma_strip_trailing_keeps(collapse_blanks(l4), x);
    lemma_sets_key_kept(l3, merged_lines(existing, planned, managed), patch[s].name, patch[s].keys[j].key, x);
}

// ---------------------------------------------------------------------------
// The values a merge writes.

/// Line `l` sets `key` in a section named `name`, and reads as `value`.
pub open spec fn line_sets_value(l: SLine, name: Seq<char>, key: Seq<char>, value: Seq<char>) -> bool {
    &&& line_key_in_section(l, name, key)
    &&& key_value(l.raw) matches Some((_k, v)) && v == value
}

/// Some line sets `key` in a section named `name` to `value`.
pub open spec fn sets_value_in(lines: Seq<SLine>, name: Seq<char>, key: Seq<char>, value: Seq<char>) -> bool {
    exists|i: int| 0 <= i < lines.len() && line_sets_value(#[trigger] lines[i], name, key, value)
}

/// The lines that set `key` in a section named `name`.
pub open spec fn sets_key_at(name: Seq<char>, key: Seq<char>) -> spec_fn(SLine) -> bool {
    |l: SLine| line_key_in_section(l, name, key)
}

/// The first line that sets `key` in a section named `name`, if any, reads
/// as a key and a value, and `value` can be written into it.
pub open spec fn first_takes_value(lines: Seq<SLine>, name: Seq<char>, key: Seq<char>, value: Seq<char>) -> bool {
    match first_of(lines, sets_key_at(name, key)) {
        Some(l) => key_value(l.raw) is Some && value_rewritable(l.raw, value),
        None => true,
    }
}

proof fn lemma_sets_value_kept(r: Seq<SLine>, name: Seq<char>, key: Seq<char>, value: Seq<char>, l: SLine)
    requires
        line_sets_value(l, name, key, value),
        r.contains(l),
    ensures
        sets_value_in(r, name, key, value),
{
    let i = choose|i: int| 0 <= i < r.len() && r[i] == l;
    assert(line_sets_value(r[i], name, key, value));
}

proof fn lemma_filter_takes_value(lines: Seq<SLine>, keep: spec_fn(int) -> bool, name: Seq<char>, key: Seq<char>, value: Seq<char>)
    requires
        first_takes_value(lines, name, key, value),
        forall|i: int| 0 <= i < lines.len() && line_key_in_section(#[trigger] lines[i], name, key) ==> keep(i),
    ensures
        first_takes_value(filter_by(lines, keep), name, key, value),
{
    let p = sets_key_at(name, key);
    assert forall|i: int| 0 <= i < lines.len() && p(#[trigger] lines[i]) implies keep(i) by {
        assert(line_key_in_section(lines[i], name, key));
    }
    lemma_first_of_filter(lines, keep, p);
}

/// A line in two sections with two keys: the names match.
proof fn lemma_same_place(l: SLine, name2: Seq<char>, key2: Seq<char>, name: Seq<char>, key: Seq<char>)
    requires
        line_key_in_section(l, name2, key2),
        line_key_in_section(l, name, key),
    ensures
        name_eq(name2, name),
        name_eq(key2, key),
{
    let (sn, k) = match l.kind {
        SKind::KeyValue(Some(sn), k) => (sn, k),
        _ => (seq![], seq![]),
    };
    lemma_name_eq_symmetric(sn, name2);
    lemma_name_eq_transitive(name2, sn, name);
    lemma_name_eq_symmetric(k, key2);
    lemma_name_eq_transitive(key2, k, key);
}

proof fn lemma_apply_key_takes_value(
    lines: Seq<SLine>,
    name2: Seq<char>,
    pk: SPatchKey,
    name: Seq<char>,
    key: Seq<char>,
    value: Seq<char>,
)
    requires
        first_takes_value(lines, name, key, value),
        !(name_eq(name2, name) && name_eq(pk.key, key)),
    ensures
        first_takes_value(apply_key(lines, name2, pk).0, name, key, value),
{
    let p = sets_key_at(name, key);
    lemma_first_where_facts(lines.len() as int, key_in_section(lines, name2, pk.key));
    match first_where(lines.len() as int, key_in_section(lines, name2, pk.key)) {
        Some(f) => {
            let nl = SLine { raw: replace_value(lines[f].raw, pk.value), kind: lines[f].kind };
            let upd = lines.update(f, nl);
            assert(line_key_in_section(lines[f], name2, pk.key));
            if line_key_in_section(lines[f], name, key) {
                lemma_same_place(lines[f], name2, pk.key, name, key);
            }
            lemma_first_of_update(lines, f, nl, p);
            assert forall|i: int| 0 <= i < upd.len() && line_key_in_section(#[trigger] upd[i], name, key) implies dup_keep(
                upd,
                name2,
                pk.key,
                f,
            )(i) by {
                if line_key_in_section(upd[i], name2, pk.key) {
                    lemma_same_place(upd[i], name2, pk.key, name, key);
                }
            }
            lemma_filter_takes_value(upd, dup_keep(upd, name2, pk.key, f), name, key, value);
            let l2 = filter_by(upd, dup_keep(upd, name2, pk.key, f));
            lemma_filter_takes_value(l2, top_keep(l2, pk.key), name, key, value);
        },
        None => {
            lemma_filter_takes_value(lines, top_keep(lines, pk.key), name, key, value);
        },
    }
}

proof fn lemma_apply_keys_takes_value(
    lines: Seq<SLine>,
    name2: Seq<char>,
    keys: Seq<SPatchKey>,
    name: Seq<char>,
    key: Seq<char>,
    value: Seq<char>,
)
    requires
        first_takes_value(lines, name, key, value),
        forall|j: int| 0 <= j < keys.len() ==> !(name_eq(name2, name) && name_eq(#[trigger] keys[j].key, key)),
    ensures
        first_takes_value(apply_keys(lines, name2, keys).0, name, key, value),
    decreases keys.len(),
{
    if keys.len() > 0 {
        lemma_apply_keys_takes_value(lines, name2, keys.drop_last(), name, key, value);
        let (l1, _m) = apply_keys(lines, name2, keys.drop_last());
        assert(keys.last() == keys[keys.len() - 1]);
        lemma_apply_key_takes_value(l1, name2, keys.last(), name, key, value);
    }
}

proof fn lemma_key_lines_elsewhere(name2: Seq<char>, keys: Seq<SPatchKey>, name: Seq<char>, key: Seq<char>)
    requires
        !name_eq(name2, name),
    ensures
        forall|i: int| 0 <= i < keys.len() ==> !sets_key_at(name, key)(#[trigger] key_lines(name2, keys)[i]),
{
    lemma_name_eq_reflexive(name2);
    assert forall|i: int| 0 <= i < keys.len() implies !sets_key_at(name, key)(#[trigger] key_lines(name2, keys)[i]) by {
        let l = key_lines(name2, keys)[i];
        if line_key_in_section(l, name, key) {
            lemma_same_place(l, name2, l.kind->KeyValue_1, name, key);
        }
    }
}

proof fn lemma_apply_section_takes_value(lines: Seq<SLine>, sec: SPatchSection, name: Seq<char>, key: Seq<char>, value: Seq<char>)
    requires
        first_takes_value(lines, name, key, value),
        !name_eq(sec.name, name),
    ensures
        first_takes_value(apply_section(lines, sec), name, key, value),
{
    let p = sets_key_at(name, key);
    lemma_key_lines_elsewhere(sec.name, sec.keys, name, key);
    match first_section_index(lines, sec.name) {
        None => {
            let l1 = if lines.len() > 0 && !is_blank(lines.last().raw) {
                lines.push(blank_line())
            } else {
                lines
            };
            let h = SLine { raw: header_raw(sec.name), kind: SKind::Section(sec.name) };
            let kl = key_lines(sec.name, sec.keys);
            lemma_first_of_none(seq![blank_line()], p);
            lemma_first_of_append(lines, seq![blank_line()], p);
            assert(lines.push(blank_line()) =~= lines + seq![blank_line()]);
            lemma_first_of_none(seq![h], p);
            lemma_first_of_append(l1, seq![h], p);
            assert(l1.push(h) =~= l1 + seq![h]);
            lemma_first_of_none(kl, p);
            lemma_first_of_append(l1.push(h), kl, p);
        },
        Some(_) => {
            lemma_apply_keys_takes_value(lines, sec.name, sec.keys, name, key, value);
            let (l2, missing) = apply_keys(lines, sec.name, sec.keys);
            if missing.len() > 0 {
                let idx = section_insert_index(l2, sec.name);
                lemma_first_where_facts(l2.len() as int, is_section_named(l2, sec.name));
                match first_section_index(l2, sec.name) {
                    None => {},
                    Some(s) => {
                        lemma_first_where_facts(l2.len() as int, section_after(l2, s));
                    },
                }
                lemma_key_lines_elsewhere(sec.name, missing, name, key);
                lemma_first_of_splice(l2, idx, key_lines(sec.name, missing), p);
            }
        },
    }
}

proof fn lemma_apply_patch_takes_value(lines: Seq<SLine>, patch: Seq<SPatchSection>, name: Seq<char>, key: Seq<char>, value: Seq<char>)
    requires
        first_takes_value(lines, name, key, value),
        forall|s: int| 0 <= s < patch.len() ==> !name_eq(#[trigger] patch[s].name, name),
    ensures
        first_takes_value(apply_patch(lines, patch), name, key, value),
    decreases patch.len(),
{
    if patch.len() > 0 {
        let init = patch.drop_last();
        assert forall|s: int| 0 <= s < init.len() implies !name_eq(#[trigger] init[s].name, name) by {
            assert(init[s] == patch[s]);
        }
        lemma_apply_patch_takes_value(lines, init, name, key, value);
        assert(patch.last() == patch[patch.len() - 1]);
        lemma_apply_section_takes_value(apply_patch(lines, init), patch.last(), name, key, value);
    }
}

/// A value read from a `key=value` line is clean.
proof fn lemma_read_value_clean(raw: Seq<char>)
    requires
        key_value(raw) is Some,
    ensures
        match key_value(raw) {
            Some((_k, v)) => value_clean(v),
            None => true,
        },
{
    let e = crate::text::find_char(raw, '=')->Some_0;
    lemma_extract_value_clean(raw.skip(e + 1));
}

proof fn lemma_apply_key_sets_value(lines: Seq<SLine>, name: Seq<char>, pk: SPatchKey)
    requires
        first_takes_value(lines, name, pk.key, pk.value),
        value_clean(pk.value),
    ensures
        apply_key(lines, name, pk).1 ==> sets_value_in(apply_key(lines, name, pk).0, name, pk.key, pk.value),
{
    lemma_first_where_facts(lines.len() as int, key_in_section(lines, name, pk.key));
    match first_where(lines.len() as int, key_in_section(lines, name, pk.key)) {
        Some(f) => {
            let p = sets_key_at(name, pk.key);
            assert(key_in_section(lines, name, pk.key) =~= (|i: int| p(lines[i])));
            assert(first_of(lines, p) == Some(lines[f]));
            let nl = SLine { raw: replace_value(lines[f].raw, pk.value), kind: lines[f].kind };
            let upd = lines.update(f, nl);
            assert(key_in_section(lines, name, pk.key)(f));
            lemma_replace_value_reads(lines[f].raw, pk.value);
            assert(line_sets_value(upd[f], name, pk.key, pk.value));
            lemma_filter_by_contains(upd, dup_keep(upd, name, pk.key, f), f);
            let l2 = filter_by(upd, dup_keep(upd, name, pk.key, f));
            let j = choose|j: int| 0 <= j < l2.len() && l2[j] == upd[f];
            lemma_filter_by_contains(l2, top_keep(l2, pk.key), j);
            let r = filter_by(l2, top_keep(l2, pk.key));
            lemma_sets_value_kept(r, name, pk.key, pk.value, upd[f]);
        },
        None => {},
    }
}

proof fn lemma_apply_keys_sets_value(lines: Seq<SLine>, sec: SPatchSection, n: int, j: int)
    requires
        0 <= j < sec.keys.len(),
        0 <= n <= sec.keys.len(),
        section_keys_distinct(sec),
        first_takes_value(lines, sec.name, sec.keys[j].key, sec.keys[j].value),
        value_clean(sec.keys[j].value),
    ensures
        n <= j ==> first_takes_value(apply_keys(lines, sec.name, sec.keys.take(n)).0, sec.name, sec.keys[j].key, sec.keys[j].value),
        n > j ==> sets_value_in(apply_keys(lines, sec.name, sec.keys.take(n)).0, sec.name, sec.keys[j].key, sec.keys[j].value)
            || apply_keys(lines, sec.name, sec.keys.take(n)).1.contains(sec.keys[j]),
    decreases n,
{
    let pj = sec.keys[j];
    if n == 0 {
        assert(sec.keys.take(0) =~= Seq::<SPatchKey>::empty());
    } else {
        let keys = sec.keys.take(n);
        assert(keys.drop_last() =~= sec.keys.take(n - 1));
        lemma_apply_keys_sets_value(lines, sec, n - 1, j);
        let (l, m) = apply_keys(lines, sec.name, sec.keys.take(n - 1));
        let last = sec.keys[n - 1];
        assert(keys.last() == last);
        let (l2, found) = apply_key(l, sec.name, last);
        let m2 = if found {
            m
        } else {
            m.push(last)
        };
        assert(apply_keys(lines, sec.name, keys) == (l2, m2));
        if n - 1 < j {
            assert(!name_eq(sec.keys[n - 1].key, sec.keys[j].key));
            lemma_apply_key_takes_value(l, sec.name, last, sec.name, pj.key, pj.value);
        } else if n - 1 == j {
            lemma_apply_key_sets_value(l, sec.name, last);
            if !found {
                assert(m2[m.len() as int] == last);
            }
        } else {
            if sets_value_in(l, sec.name, pj.key, pj.value) {
                let i = choose|i: int| 0 <= i < l.len() && line_sets_value(#[trigger] l[i], sec.name, pj.key, pj.value);
                let x = l[i];
                assert(unaffected(x, sec.name, last.key)) by {
                    if line_key_in_section(x, sec.name, last.key) {
                        lemma_same_place(x, sec.name, last.key, sec.name, pj.key);
                        assert(!name_eq(sec.keys[j].key, sec.keys[n - 1].key));
                        lemma_name_eq_symmetric(last.key, pj.key);
                    }
                }
                assert(l.contains(x));
                lemma_apply_key_keeps(l, sec.name, last, x);
                lemma_sets_value_kept(l2, sec.name, pj.key, pj.value, x);
            } else {
                let a = choose|a: int| 0 <= a < m.len() && m[a] == pj;
                if !found {
                    assert(m2[a] == pj);
                }
            }
        }
    }
}

proof fn lemma_apply_section_sets_value(lines: Seq<SLine>, sec: SPatchSection, j: int)
    requires
        0 <= j < sec.keys.len(),
        section_keys_distinct(sec),
        forall|k: int| 0 <= k < sec.keys.len() ==> key_value((#[trigger] sec.keys[k]).raw) == Some(
            (sec.keys[k].key, sec.keys[k].value),
        ),
        first_takes_value(lines, sec.name, sec.keys[j].key, sec.keys[j].value),
    ensures
        sets_value_in(apply_section(lines, sec), sec.name, sec.keys[j].key, sec.keys[j].value),
{
    let pj = sec.keys[j];
    lemma_key_line_sets(sec.name, pj);
    assert(key_value(pj.raw) == Some((pj.key, pj.value)));
    lemma_read_value_clean(pj.raw);
    assert(line_sets_value(kv_line(sec.name, pj.raw), sec.name, pj.key, pj.value));
    match first_section_index(lines, sec.name) {
        None => {
            let l1 = if lines.len() > 0 && !is_blank(lines.last().raw) {
                lines.push(blank_line())
            } else {
                lines
            };
            let h = SLine { raw: header_raw(sec.name), kind: SKind::Section(sec.name) };
            let r = l1.push(h) + key_lines(sec.name, sec.keys);
            assert(r[l1.push(h).len() + j] == kv_line(sec.name, pj.raw));
        },
        Some(_) => {
            lemma_apply_keys_sets_value(lines, sec, sec.keys.len() as int, j);
            assert(sec.keys.take(sec.keys.len() as int) =~= sec.keys);
            let (l2, missing) = apply_keys(lines, sec.name, sec.keys);
            if missing.len() > 0 {
                let idx = section_insert_index(l2, sec.name);
                lemma_first_where_facts(l2.len() as int, is_section_named(l2, sec.name));
                match first_section_index(l2, sec.name) {
                    None => {},
                    Some(s) => {
                        lemma_first_where_facts(l2.len() as int, section_after(l2, s));
                    },
                }
                let ins = key_lines(sec.name, missing);
                let r = l2.take(idx) + ins + l2.skip(idx);
                if sets_value_in(l2, sec.name, pj.key, pj.value) {
                    let i = choose|i: int| 0 <= i < l2.len() && line_sets_value(#[trigger] l2[i], sec.name, pj.key, pj.value);
                    lemma_splice_contains(l2, idx, ins, l2[i]);
                    lemma_sets_value_kept(r, sec.name, pj.key, pj.value, l2[i]);
                } else {
                    let a = choose|a: int| 0 <= a < missing.len() && missing[a] == pj;
                    assert(r[idx + a] == kv_line(sec.name, pj.raw));
                }
            } else {
                if !sets_value_in(l2, sec.name, pj.key, pj.value) {
                    let a = choose|a: int| 0 <= a < missing.len() && missing[a] == pj;
                }
            }
        },
    }
}

proof fn lemma_apply_patch_sets_value(lines: Seq<SLine>, patch: Seq<SPatchSection>, s: int, j: int)
    requires
        patch_well_formed(patch),
        0 <= s < patch.len(),
        0 <= j < patch[s].keys.len(),
        first_takes_value(lines, patch[s].name, patch[s].keys[j].key, patch[s].keys[j].value),
    ensures
        sets_value_in(apply_patch(lines, patch), patch[s].name, patch[s].keys[j].key, patch[s].keys[j].value),
    decreases patch.len(),
{
    let n = patch.len() - 1;
    let init = patch.drop_last();
    let last = patch.last();
    let pk = patch[s].keys[j];
    assert(patch[n] == last);
    assert forall|k: int| 0 <= k < last.keys.len() implies key_value((#[trigger] last.keys[k]).raw) == Some(
        (last.keys[k].key, last.keys[k].value),
    ) by {
        assert(key_value(patch[n].keys[k].raw) == Some((patch[n].keys[k].key, patch[n].keys[k].value)));
    }
    if s == n {
        assert forall|a: int| 0 <= a < init.len() implies !name_eq(#[trigger] init[a].name, last.name) by {
            assert(init[a] == patch[a]);
        }
        lemma_apply_patch_takes_value(lines, init, last.name, pk.key, pk.value);
        lemma_apply_section_sets_value(apply_patch(lines, init), last, j);
    } else {
        assert(patch_well_formed(init)) by {
            assert forall|a: int| 0 <= a < init.len() implies section_keys_distinct(#[trigger] init[a]) by {
                assert(init[a] == patch[a]);
            }
            assert forall|x: int, y: int| 0 <= x < y < init.len() implies !name_eq(#[trigger] init[x].name, #[trigger] init[y].name) by {
                assert(init[x] == patch[x] && init[y] == patch[y]);
            }
            assert forall|a: int, k: int| 0 <= a < init.len() && 0 <= k < init[a].keys.len() implies key_value(
                (#[trigger] init[a].keys[k]).raw,
            ) == Some((init[a].keys[k].key, init[a].keys[k].value)) by {
                assert(init[a] == patch[a]);
            }
        }
        assert(init[s] == patch[s]);
        lemma_apply_patch_sets_value(lines, init, s, j);
        let ap = apply_patch(lines, init);
        let i = choose|i: int| 0 <= i < ap.len() && line_sets_value(#[trigger] ap[i], patch[s].name, pk.key, pk.value);
        let x = ap[i];
        assert forall|k: int| 0 <= k < last.keys.len() implies unaffected(x, last.name, #[trigger] last.keys[k].key) by {
            if line_key_in_section(x, last.name, last.keys[k].key) {
                lemma_same_place(x, last.name, last.keys[k].key, patch[s].name, pk.key);
                lemma_name_eq_symmetric(last.name, patch[s].name);
                assert(!name_eq(patch[s].name, patch[n].name));
            }
        }
        assert(ap.contains(x));
        lemma_apply_section_keeps(ap, last, x);
        lemma_sets_value_kept(apply_section(ap, last), patch[s].name, pk.key, pk.value, x);
    }
}

proof fn lemma_parsed_lines_read(ls: Seq<Seq<char>>)
    ensures
        forall|i: int| 0 <= i < parse_lines(ls).0.len() && (#[trigger] parse_lines(ls).0[i]).kind is KeyValue ==> key_value(
            parse_lines(ls).0[i].raw,
        ) is Some,
    decreases ls.len(),
{
    if ls.len() > 0 {
        lemma_parsed_lines_read(ls.drop_last());
        let (prev, cur) = parse_lines(ls.drop_last());
        let raw = crate::text::strip_cr(ls.last());
        let (l, c) = crate::ini_doc::classify(raw, cur);
        if l.kind is KeyValue {
            assert(crate::ini_line::section_header(raw) is None);
        }
        let r = parse_lines(ls).0;
        assert forall|i: int| 0 <= i < r.len() && (#[trigger] r[i]).kind is KeyValue implies key_value(r[i].raw) is Some by {
            if i < prev.len() {
                assert(r[i] == prev[i]);
            }
        }
    }
}

/// A merge writes each planned setting with its planned value: the merged
/// text has a line in a section of the setting's section name that reads as
/// the setting's key and planned value. This holds where the planned value
/// can be written into the first existing line for that key in that
/// section, if there is one: the value does not start with `;` or `#` after
/// whitespace following the `=`, and that line does not hold an empty value
/// directly followed by an inline comment (there the rewritten line reads
/// differently).
pub proof fn lemma_merge_sets_planned_values(existing: Seq<char>, planned: Seq<char>, managed: Seq<char>, s: int, j: int)
    requires
        !is_blank(existing),
        0 <= s < parse_patch(planned).len(),
        0 <= j < parse_patch(planned)[s].keys.len(),
        match first_of(parse_doc(existing).lines, sets_key_at(parse_patch(planned)[s].name, parse_patch(planned)[s].keys[j].key)) {
            Some(l) => value_rewritable(l.raw, parse_patch(planned)[s].keys[j].value),
            None => true,
        },
    ensures
        sets_value_in(
            merged_lines(existing, planned, managed),
            parse_patch(planned)[s].name,
            parse_patch(planned)[s].keys[j].key,
            parse_patch(planned)[s].keys[j].value,
        ),
{
    let patch = parse_patch(planned);
    let mpatch = parse_patch(managed);
    let pk = patch[s].keys[j];
    let name = patch[s].name;
    let doc = parse_doc(existing);
    let p = sets_key_at(name, pk.key);
    lemma_parse_patch_well_formed(planned);
    lemma_parsed_lines_read(crate::text::lines(existing));
    lemma_first_of_facts(doc.lines, p);
    if first_of(doc.lines, p) is Some {
        let i = choose|i: int|
            0 <= i < doc.lines.len() && doc.lines[i] == first_of(doc.lines, p)->Some_0 && p(doc.lines[i]) && forall|j: int|
                0 <= j < i ==> !p(#[trigger] doc.lines[j]);
        assert(doc.lines[i].kind is KeyValue);
    }
    assert(first_takes_value(doc.lines, name, pk.key, pk.value));
    assert forall|i: int| 0 <= i < doc.lines.len() && line_key_in_section(#[trigger] doc.lines[i], name, pk.key) implies setting_keep(
        doc.lines,
        patch,
        mpatch,
    )(i) by {
        let (sn, k) = match doc.lines[i].kind {
            SKind::KeyValue(Some(sn), k) => (sn, k),
            _ => (seq![], seq![]),
        };
        lemma_name_eq_symmetric(sn, name);
        lemma_name_eq_symmetric(k, pk.key);
        assert(crate::ini_doc::section_matches(patch[s], Some(sn)));
        assert(section_sets(patch[s], k));
        assert(contains_key(patch, Some(sn), k));
    }
    lemma_filter_takes_value(doc.lines, setting_keep(doc.lines, patch, mpatch), name, pk.key, pk.value);
    let l1 = remove_inactive_settings(doc.lines, patch, mpatch);
    lemma_filter_takes_value(l1, comment_keep(l1, parse_blocks(managed), patch), name, pk.key, pk.value);
    let c1 = filter_by(l1, comment_keep(l1, parse_blocks(managed), patch));
    lemma_filter_takes_value(c1, empty_section_keep(c1, parse_blocks(managed), patch), name, pk.key, pk.value);
    let l2 = remove_scaffolding(l1, patch, parse_blocks(managed));
    lemma_apply_patch_sets_value(l2, patch, s, j);
    let l3 = apply_patch(l2, patch);
    let i = choose|i: int| 0 <= i < l3.len() && line_sets_value(#[trigger] l3[i], name, pk.key, pk.value);
    let x = l3[i];
    lemma_key_value_shaped(x.raw);
    lemma_shaped_not_blank(x.raw);
    assert(l3.contains(x));
    lemma_ensure_blocks_keeps(l3, parse_blocks(planned), x);
    let l4 = ensure_blocks(l3, parse_blocks(planned));
    lemma_collapse_blanks_keeps(l4, x);
    lemma_strip_trailing_keeps(collapse_blanks(l4), x);
    lemma_sets_value_kept(merged_lines(existing, planned, managed), name, pk.key, pk.value, x);
}

// ---------------------------------------------------------------------------
// The shape of blank lines in a merge.

/// No blank line comes first or last, and no two blank lines are adjacent.
pub open spec fn blank_lines_tidy(ls: Seq<SLine>) -> bool {
    &&& ls.len() > 0 ==> !is_blank(ls[0].raw) && !is_blank(ls.last().raw)
    &&& forall|i: int| 0 <= i < ls.len() - 1 ==> !(is_blank(#[trigger] ls[i].raw) && is_blank(ls[i + 1].raw))
}

proof fn lemma_collapse_blanks_shape(ls: Seq<SLine>)
    ensures
        ({
            let c = collapse_blanks(ls);
            &&& c.len() > 0 ==> !is_blank(c[0].raw)
            &&& forall|i: int| 0 <= i < c.len() - 1 ==> !(is_blank(#[trigger] c[i].raw) && is_blank(c[i + 1].raw))
        }),
    decreases ls.len(),
{
    if ls.len() > 0 {
        lemma_collapse_blanks_shape(ls.drop_last());
        let p = collapse_blanks(ls.drop_last());
        let c = collapse_blanks(ls);
        if !(is_blank(ls.last().raw) && (p.len() == 0 || is_blank(p.last().raw))) {
            assert forall|i: int| 0 <= i < c.len() - 1 implies !(is_blank(#[trigger] c[i].raw) && is_blank(c[i + 1].raw)) by {
                if i < p.len() - 1 {
                    assert(c[i] == p[i] && c[i + 1] == p[i + 1]);
                } else {
                    assert(c[i] == p.last());
                }
            }
            if p.len() > 0 {
                assert(c[0] == p[0]);
            }
        }
    }
}

proof fn lemma_strip_trailing_shape(ls: Seq<SLine>)
    ensures
        ({
            let r = strip_trailing_blanks(ls);
            &&& r.len() <= ls.len()
            &&& r == ls.take(r.len() as int)
            &&& r.len() > 0 ==> !is_blank(r.last().raw)
            &&& forall|j: int| r.len() <= j < ls.len() ==> is_blank(#[trigger] ls[j].raw)
        }),
    decreases ls.len(),
{
    if ls.len() > 0 && is_blank(ls.last().raw) {
        lemma_strip_trailing_shape(ls.drop_last());
        let r = strip_trailing_blanks(ls.drop_last());
        assert(ls.drop_last().take(r.len() as int) =~= ls.take(r.len() as int));
        assert forall|j: int| r.len() <= j < ls.len() implies is_blank(#[trigger] ls[j].raw) by {
            if j < ls.len() - 1 {
                assert(ls.drop_last()[j] == ls[j]);
            }
        }
    } else {
        assert(ls.take(ls.len() as int) =~= ls);
    }
}

/// Blank lines after normalizing: none first or last, none adjacent.
pub proof fn lemma_normalize_blank_lines_tidy(ls: Seq<SLine>)
    ensures
        blank_lines_tidy(normalize_blank_lines(ls)),
{
    lemma_collapse_blanks_shape(ls);
    let c = collapse_blanks(ls);
    lemma_strip_trailing_shape(c);
    let r = strip_trailing_blanks(c);
    assert forall|i: int| 0 <= i < r.len() - 1 implies !(is_blank(#[trigger] r[i].raw) && is_blank(r[i + 1].raw)) by {
        assert(r[i] == c[i] && r[i + 1] == c[i + 1]);
    }
    if r.len() > 0 {
        assert(r[0] == c[0]);
    }
}

/// A merge into a non-blank text leaves no blank line first or last and no
/// two blank lines adjacent.
pub proof fn lemma_merge_blank_lines_tidy(existing: Seq<char>, planned: Seq<char>, managed: Seq<char>)
    ensures
        blank_lines_tidy(merged_lines(existing, planned, managed)),
{
    let patch = parse_patch(planned);
    let l1 = remove_inactive_settings(parse_doc(existing).lines, patch, parse_patch(managed));
    let l2 = remove_scaffolding(l1, patch, parse_blocks(managed));
    let l3 = apply_patch(l2, patch);
    let l4 = ensure_blocks(l3, parse_blocks(planned));
    lemma_normalize_blank_lines_tidy(l4);
}

// ---------------------------------------------------------------------------
// The order of the lines a merge keeps.

proof fn lemma_apply_key_in_order(lines: Seq<SLine>, name: Seq<char>, pk: SPatchKey, x: SLine, y: SLine)
    requires
        in_order(lines, x, y),
        unaffected(x, name, pk.key),
        unaffected(y, name, pk.key),
    ensures
        in_order(apply_key(lines, name, pk).0, x, y),
{
    lemma_first_where_facts(lines.len() as int, key_in_section(lines, name, pk.key));
    match first_where(lines.len() as int, key_in_section(lines, name, pk.key)) {
        Some(f) => {
            let upd = lines.update(f, SLine { raw: replace_value(lines[f].raw, pk.value), kind: lines[f].kind });
            assert(key_in_section(lines, name, pk.key)(f));
            lemma_in_order_update(lines, f, SLine { raw: replace_value(lines[f].raw, pk.value), kind: lines[f].kind }, x, y);
            lemma_in_order_filter(upd, dup_keep(upd, name, pk.key, f), x, y);
            let l2 = filter_by(upd, dup_keep(upd, name, pk.key, f));
            lemma_in_order_filter(l2, top_keep(l2, pk.key), x, y);
        },
        None => {
            lemma_in_order_filter(lines, top_keep(lines, pk.key), x, y);
        },
    }
}

proof fn lemma_apply_keys_in_order(lines: Seq<SLine>, name: Seq<char>, keys: Seq<SPatchKey>, x: SLine, y: SLine)
    requires
        in_order(lines, x, y),
        forall|j: int| 0 <= j < keys.len() ==> unaffected(x, name, #[trigger] keys[j].key) && unaffected(y, name, keys[j].key),
    ensures
        in_order(apply_keys(lines, name, keys).0, x, y),
    decreases keys.len(),
{
    if keys.len() > 0 {
        lemma_apply_keys_in_order(lines, name, keys.drop_last(), x, y);
        let (l1, _m) = apply_keys(lines, name, keys.drop_last());
        assert(keys.last() == keys[keys.len() - 1]);
        lemma_apply_key_in_order(l1, name, keys.last(), x, y);
    }
}

proof fn lemma_apply_section_in_order(lines: Seq<SLine>, sec: SPatchSection, x: SLine, y: SLine)
    requires
        in_order(lines, x, y),
        forall|j: int| 0 <= j < sec.keys.len() ==> unaffected(x, sec.name, #[trigger] sec.keys[j].key) && unaffected(
            y,
            sec.name,
            sec.keys[j].key,
        ),
    ensures
        in_order(apply_section(lines, sec), x, y),
{
    match first_section_index(lines, sec.name) {
        None => {
            let l1 = if lines.len() > 0 && !is_blank(lines.last().raw) {
                lines.push(blank_line())
            } else {
                lines
            };
            lemma_in_order_append(lines, seq![blank_line()], x, y);
            assert(lines.push(blank_line()) =~= lines + seq![blank_line()]);
            let h = SLine { raw: header_raw(sec.name), kind: SKind::Section(sec.name) };
            lemma_in_order_append(l1, seq![h], x, y);
            assert(l1.push(h) =~= l1 + seq![h]);
            lemma_in_order_append(l1.push(h), key_lines(sec.name, sec.keys), x, y);
        },
        Some(_) => {
            lemma_apply_keys_in_order(lines, sec.name, sec.keys, x, y);
            let (l2, missing) = apply_keys(lines, sec.name, sec.keys);
            if missing.len() > 0 {
                let idx = section_insert_index(l2, sec.name);
                lemma_first_where_facts(l2.len() as int, is_section_named(l2, sec.name));
                match first_section_index(l2, sec.name) {
                    None => {},
                    Some(s) => {
                        lemma_first_where_facts(l2.len() as int, section_after(l2, s));
                    },
                }
                lemma_in_order_splice(l2, idx, key_lines(sec.name, missing), x, y);
            }
        },
    }
}

/// A key line whose key the patch does not set is left alone by each key of the last section.
proof fn lemma_unaffected_by_last(patch: Seq<SPatchSection>, l: SLine, sec: Option<Seq<char>>, k: Seq<char>)
    requires
        patch.len() > 0,
        l.kind == SKind::KeyValue(sec, k),
        !contains_key(patch, sec, k),
    ensures
        forall|j: int| 0 <= j < patch.last().keys.len() ==> unaffected(l, patch.last().name, #[trigger] patch.last().keys[j].key),
        !contains_key(patch.drop_last(), sec, k),
{
    let init = patch.drop_last();
    let last = patch.last();
    let n = patch.len() - 1;
    assert(patch[n] == last);
    assert(!contains_key(init, sec, k)) by {
        if contains_key(init, sec, k) {
            let i = choose|i: int| 0 <= i < init.len() && section_matches(#[trigger] init[i], sec) && section_sets(init[i], k);
            assert(patch[i] == init[i]);
        }
    }
    assert forall|j: int| 0 <= j < last.keys.len() implies unaffected(l, last.name, #[trigger] last.keys[j].key) by {
        if line_key_in_section(l, last.name, last.keys[j].key) {
            let sn = sec->Some_0;
            lemma_name_eq_symmetric(sn, last.name);
            lemma_name_eq_symmetric(k, last.keys[j].key);
            assert(section_matches(patch[n], sec) && section_sets(patch[n], k));
        }
        if line_top_level_key(l, last.keys[j].key) {
            lemma_name_eq_symmetric(k, last.keys[j].key);
            assert(section_matches(patch[n], sec) && section_sets(patch[n], k));
        }
    }
}

proof fn lemma_apply_patch_in_order(
    lines: Seq<SLine>,
    patch: Seq<SPatchSection>,
    x: SLine,
    sx: Option<Seq<char>>,
    kx: Seq<char>,
    y: SLine,
    sy: Option<Seq<char>>,
    ky: Seq<char>,
)
    requires
        in_order(lines, x, y),
        x.kind == SKind::KeyValue(sx, kx),
        !contains_key(patch, sx, kx),
        y.kind == SKind::KeyValue(sy, ky),
        !contains_key(patch, sy, ky),
    ensures
        in_order(apply_patch(lines, patch), x, y),
    decreases patch.len(),
{
    if patch.len() > 0 {
        lemma_unaffected_by_last(patch, x, sx, kx);
        lemma_unaffected_by_last(patch, y, sy, ky);
        lemma_apply_patch_in_order(lines, patch.drop_last(), x, sx, kx, y, sy, ky);
        lemma_apply_section_in_order(apply_patch(lines, patch.drop_last()), patch.last(), x, y);
    }
}

proof fn lemma_ensure_blocks_in_order(lines: Seq<SLine>, blocks: Seq<SBlock>, x: SLine, y: SLine)
    requires
        in_order(lines, x, y),
    ensures
        in_order(ensure_blocks(lines, blocks), x, y),
    decreases blocks.len(),
{
    if blocks.len() > 0 {
        lemma_ensure_blocks_in_order(lines, blocks.drop_last(), x, y);
        let ls = ensure_blocks(lines, blocks.drop_last());
        let b = blocks.last();
        if !(b.comments.len() == 0 || b.keys.len() == 0) {
            let miss = missing_comments(ls, b.comments);
            if miss.len() > 0 {
                match comment_insert_index(ls, b) {
                    None => {},
                    Some(idx) => {
                        lemma_first_where_facts(ls.len() as int, block_key_at(ls, b));
                        let k = first_where(ls.len() as int, block_key_at(ls, b))->Some_0;
                        crate::seq_util::lemma_last_where_facts(k, is_section_at(ls));
                        let spacing = idx > 0 && !is_blank(ls[idx - 1].raw) && !(ls[idx - 1].kind is Section);
                        let ins = (if spacing {
                            seq![blank_line()]
                        } else {
                            seq![]
                        }) + other_lines(miss);
                        lemma_in_order_splice(ls, idx, ins, x, y);
                    },
                }
            }
        }
    }
}

proof fn lemma_collapse_blanks_in_order(ls: Seq<SLine>, x: SLine, y: SLine)
    requires
        in_order(ls, x, y),
        !is_blank(x.raw),
        !is_blank(y.raw),
    ensures
        in_order(collapse_blanks(ls), x, y),
    decreases ls.len(),
{
    let (a, b) = choose|a: int, b: int| 0 <= a < b < ls.len() && #[trigger] ls[a] == x && #[trigger] ls[b] == y;
    let init = ls.drop_last();
    let p = collapse_blanks(init);
    let c = collapse_blanks(ls);
    if b == ls.len() - 1 {
        assert(init[a] == x);
        lemma_collapse_blanks_keeps(init, x);
        let i = choose|i: int| 0 <= i < p.len() && p[i] == x;
        assert(c == p.push(y));
        assert(c[i] == x && c[p.len() as int] == y);
    } else {
        assert(init[a] == x && init[b] == y);
        lemma_collapse_blanks_in_order(init, x, y);
        let (i, j) = choose|i: int, j: int| 0 <= i < j < p.len() && #[trigger] p[i] == x && #[trigger] p[j] == y;
        if c != p {
            assert(c == p.push(ls.last()));
            assert(c[i] == x && c[j] == y);
        }
    }
}

/// A merge keeps the lines of the existing text that set keys neither the
/// planned nor the managed text sets in their order: of two such lines, the
/// earlier one comes first in the merged text too.
pub proof fn lemma_merge_keeps_order(existing: Seq<char>, planned: Seq<char>, managed: Seq<char>, i: int, j: int)
    requires
        !is_blank(existing),
        0 <= i < j < parse_doc(existing).lines.len(),
        parse_doc(existing).lines[i].kind matches SKind::KeyValue(sec, k) && !contains_key(parse_patch(planned), sec, k)
            && !contains_key(parse_patch(managed), sec, k),
        parse_doc(existing).lines[j].kind matches SKind::KeyValue(sec, k) && !contains_key(parse_patch(planned), sec, k)
            && !contains_key(parse_patch(managed), sec, k),
    ensures
        in_order(merged_lines(existing, planned, managed), parse_doc(existing).lines[i], parse_doc(existing).lines[j]),
{
    let doc = parse_doc(existing);
    let x = doc.lines[i];
    let y = doc.lines[j];
    let (sx, kx) = match x.kind {
        SKind::KeyValue(s, k) => (s, k),
        _ => (None, seq![]),
    };
    let (sy, ky) = match y.kind {
        SKind::KeyValue(s, k) => (s, k),
        _ => (None, seq![]),
    };
    let patch = parse_patch(planned);
    let mpatch = parse_patch(managed);
    assert(in_order(doc.lines, x, y));
    lemma_in_order_filter(doc.lines, setting_keep(doc.lines, patch, mpatch), x, y);
    let l1 = remove_inactive_settings(doc.lines, patch, mpatch);
    lemma_in_order_filter(l1, comment_keep(l1, parse_blocks(managed), patch), x, y);
    let c1 = filter_by(l1, comment_keep(l1, parse_blocks(managed), patch));
    lemma_in_order_filter(c1, empty_section_keep(c1, parse_blocks(managed), patch), x, y);
    let l2 = remove_scaffolding(l1, patch, parse_blocks(managed));
    lemma_apply_patch_in_order(l2, patch, x, sx, kx, y, sy, ky);
    let l3 = apply_patch(l2, patch);
    lemma_ensure_blocks_in_order(l3, parse_blocks(planned), x, y);
    let l4 = ensure_blocks(l3, parse_blocks(planned));
    lemma_parsed_key_lines_not_blank(crate::text::lines(existing));
    lemma_collapse_blanks_in_order(l4, x, y);
    let c = collapse_blanks(l4);
    lemma_strip_trailing_shape(c);
    let r = strip_trailing_blanks(c);
    let (a, b) = choose|a: int, b: int| 0 <= a < b < c.len() && #[trigger] c[a] == x && #[trigger] c[b] == y;
    assert(b < r.len());
    assert(r[a] == x && r[b] == y);
}

} // verus!
