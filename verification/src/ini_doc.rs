//! The parsed forms of an INI text: a document of classified lines, a patch
//! of sections and keys to set, and the comment-headed blocks of managed text.
use vstd::prelude::*;
use crate::ini_line::{
    is_comment_line, is_comment_line_vec, key_value, key_value_vec, name_eq, name_eq_vec,
    section_header, section_header_vec,
};
use crate::seq_util::{first_where, lemma_first_where_none, lemma_first_where_some};
use crate::text::{is_blank, is_blank_vec, lemma_seqs_push, lines, lines_of, seqs, strip_cr};

verus! {

/// What a document line is.
pub enum SKind {
    Section(Seq<char>),
    KeyValue(Option<Seq<char>>, Seq<char>),
    Other,
}

/// A document line: its text and what it is.
pub struct SLine {
    pub raw: Seq<char>,
    pub kind: SKind,
}

/// A document: its lines and whether the text ended with a line feed.
pub struct SDoc {
    pub lines: Seq<SLine>,
    pub had_final_newline: bool,
}

pub enum IniLineKind {
    Section(Vec<char>),
    KeyValue(Option<Vec<char>>, Vec<char>),
    Other,
}

pub struct IniLine {
    pub raw: Vec<char>,
    pub kind: IniLineKind,
}

pub struct IniDocument {
    pub lines: Vec<IniLine>,
    pub had_final_newline: bool,
}

pub open spec fn opt_view(o: Option<Vec<char>>) -> Option<Seq<char>> {
    match o {
        Some(v) => Some(v@),
        None => None,
    }
}

impl View for IniLineKind {
    type V = SKind;

    open spec fn view(&self) -> SKind {
        match self {
            IniLineKind::Section(n) => SKind::Section(n@),
            IniLineKind::KeyValue(s, k) => SKind::KeyValue(opt_view(*s), k@),
            IniLineKind::Other => SKind::Other,
        }
    }
}

impl View for IniLine {
    type V = SLine;

    open spec fn view(&self) -> SLine {
        SLine { raw: self.raw@, kind: self.kind@ }
    }
}

pub open spec fn lines_view(v: Seq<IniLine>) -> Seq<SLine> {
    v.map_values(|l: IniLine| l@)
}

impl View for IniDocument {
    type V = SDoc;

    open spec fn view(&self) -> SDoc {
        SDoc { lines: lines_view(self.lines@), had_final_newline: self.had_final_newline }
    }
}

pub fn clone_opt(o: &Option<Vec<char>>) -> (r: Option<Vec<char>>)
    ensures
        opt_view(r) == opt_view(*o),
{
    match o {
        Some(v) => Some(v.clone()),
        None => None,
    }
}

pub fn clone_line(l: &IniLine) -> (r: IniLine)
    ensures
        r@ == l@,
{
    let kind = match &l.kind {
        IniLineKind::Section(n) => IniLineKind::Section(n.clone()),
        IniLineKind::KeyValue(s, k) => IniLineKind::KeyValue(clone_opt(s), k.clone()),
        IniLineKind::Other => IniLineKind::Other,
    };
    IniLine { raw: l.raw.clone(), kind }
}

pub proof fn lemma_lines_view_push(v: Seq<IniLine>, x: IniLine)
    ensures
        lines_view(v.push(x)) == lines_view(v).push(x@),
{
    assert(lines_view(v.push(x)) =~= lines_view(v).push(x@));
}

/// How a line reads under the section `cur`, and the section after it.
pub open spec fn classify(raw: Seq<char>, cur: Option<Seq<char>>) -> (SLine, Option<Seq<char>>) {
    match section_header(raw) {
        Some(n) => (SLine { raw, kind: SKind::Section(n) }, Some(n)),
        None => match key_value(raw) {
            Some((k, _v)) => (SLine { raw, kind: SKind::KeyValue(cur, k) }, cur),
            None => (SLine { raw, kind: SKind::Other }, cur),
        },
    }
}

/// Classified lines and the section that is open after them.
pub open spec fn parse_lines(ls: Seq<Seq<char>>) -> (Seq<SLine>, Option<Seq<char>>)
    decreases ls.len(),
{
    if ls.len() == 0 {
        (seq![], None)
    } else {
        let (prev, cur) = parse_lines(ls.drop_last());
        let (l, c) = classify(strip_cr(ls.last()), cur);
        (prev.push(l), c)
    }
}

/// The document that `content` holds.
pub open spec fn parse_doc(content: Seq<char>) -> SDoc {
    SDoc {
        lines: parse_lines(lines(content)).0,
        had_final_newline: content.len() > 0 && content.last() == '\n',
    }
}

pub fn strip_cr_vec(s: Vec<char>) -> (r: Vec<char>)
    ensures
        r@ == strip_cr(s@),
{
    let ghost orig = s@;
    let mut s = s;
    if s.len() > 0 && s[s.len() - 1] == '\r' {
        s.pop();
        assert(s@ =~= strip_cr(orig));
    }
    s
}

pub fn classify_vec(raw: Vec<char>, cur: &Option<Vec<char>>) -> (r: (IniLine, Option<Vec<char>>))
    ensures
        (r.0@, opt_view(r.1)) == classify(raw@, opt_view(*cur)),
{
    match section_header_vec(&raw) {
        Some(n) => {
            let c = Some(n.clone());
            (IniLine { raw, kind: IniLineKind::Section(n) }, c)
        },
        None => match key_value_vec(&raw) {
            Some((k, _v)) => (IniLine { raw, kind: IniLineKind::KeyValue(clone_opt(cur), k) }, clone_opt(cur)),
            None => (IniLine { raw, kind: IniLineKind::Other }, clone_opt(cur)),
        },
    }
}

pub fn parse_doc_vec(content: &Vec<char>) -> (d: IniDocument)
    ensures
        d@ == parse_doc(content@),
{
    let ls = lines_of(content);
    let mut out: Vec<IniLine> = Vec::new();
    let mut cur: Option<Vec<char>> = None;
    let mut i: usize = 0;
    while i < ls.len()
        invariant
            i <= ls.len(),
            parse_lines(seqs(ls@).take(i as int)) == (lines_view(out@), opt_view(cur)),
        decreases ls.len() - i,
    {
        proof {
            assert(seqs(ls@).take(i + 1).drop_last() =~= seqs(ls@).take(i as int));
        }
        let raw = strip_cr_vec(ls[i].clone());
        let (line, c) = classify_vec(raw, &cur);
        proof {
            lemma_lines_view_push(out@, line);
        }
        out.push(line);
        cur = c;
        i += 1;
    }
    proof {
        assert(seqs(ls@).take(ls.len() as int) =~= seqs(ls@));
    }
    let had_final_newline = content.len() > 0 && content[content.len() - 1] == '\n';
    IniDocument { lines: out, had_final_newline }
}

// ---------------------------------------------------------------------------
// Patches: the sections and keys that a planned text sets.

pub struct SPatchKey {
    pub key: Seq<char>,
    pub value: Seq<char>,
    pub raw: Seq<char>,
}

pub struct SPatchSection {
    pub name: Seq<char>,
    pub keys: Seq<SPatchKey>,
}

pub struct PatchKey {
    pub key: Vec<char>,
    pub value: Vec<char>,
    pub raw: Vec<char>,
}

pub struct PatchSection {
    pub name: Vec<char>,
    pub keys: Vec<PatchKey>,
}

impl View for PatchKey {
    type V = SPatchKey;

    open spec fn view(&self) -> SPatchKey {
        SPatchKey { key: self.key@, value: self.value@, raw: self.raw@ }
    }
}

pub open spec fn keys_view(v: Seq<PatchKey>) -> Seq<SPatchKey> {
    v.map_values(|k: PatchKey| k@)
}

impl View for PatchSection {
    type V = SPatchSection;

    open spec fn view(&self) -> SPatchSection {
        SPatchSection { name: self.name@, keys: keys_view(self.keys@) }
    }
}

pub open spec fn sections_view(v: Seq<PatchSection>) -> Seq<SPatchSection> {
    v.map_values(|s: PatchSection| s@)
}

pub open spec fn section_named(secs: Seq<SPatchSection>, name: Seq<char>) -> spec_fn(int) -> bool {
    |i: int| name_eq(secs[i].name, name)
}

pub open spec fn key_named(keys: Seq<SPatchKey>, key: Seq<char>) -> spec_fn(int) -> bool {
    |i: int| name_eq(keys[i].key, key)
}

/// The first patch section whose name matches `name`.
pub open spec fn find_section(secs: Seq<SPatchSection>, name: Seq<char>) -> Option<int> {
    first_where(secs.len() as int, section_named(secs, name))
}

/// The first key whose name matches `key`.
pub open spec fn find_key(keys: Seq<SPatchKey>, key: Seq<char>) -> Option<int> {
    first_where(keys.len() as int, key_named(keys, key))
}

/// The sections with one named `name`, and its index.
pub open spec fn upsert(secs: Seq<SPatchSection>, name: Seq<char>) -> (Seq<SPatchSection>, int) {
    match find_section(secs, name) {
        Some(i) => (secs, i),
        None => (secs.push(SPatchSection { name, keys: seq![] }), secs.len() as int),
    }
}

/// One line of a planned text read into the patch.
pub open spec fn patch_step(
    st: (Seq<SPatchSection>, Option<Seq<char>>),
    raw: Seq<char>,
) -> (Seq<SPatchSection>, Option<Seq<char>>) {
    let (secs, cur) = st;
    match section_header(raw) {
        Some(s) => (upsert(secs, s).0, Some(s)),
        None => match cur {
            None => st,
            Some(c) => match key_value(raw) {
                None => st,
                Some((k, v)) => {
                    let (secs2, i) = upsert(secs, c);
                    let sec = secs2[i];
                    let pk = SPatchKey { key: k, value: v, raw };
                    let keys2 = match find_key(sec.keys, k) {
                        Some(j) => sec.keys.update(j, pk),
                        None => sec.keys.push(pk),
                    };
                    (secs2.update(i, SPatchSection { name: sec.name, keys: keys2 }), cur)
                },
            },
        },
    }
}

pub open spec fn patch_lines(ls: Seq<Seq<char>>) -> (Seq<SPatchSection>, Option<Seq<char>>)
    decreases ls.len(),
{
    if ls.len() == 0 {
        (seq![], None)
    } else {
        patch_step(patch_lines(ls.drop_last()), strip_cr(ls.last()))
    }
}

/// The patch that a planned text makes: its sections in first-seen order,
/// each with its keys (a later line for the same key replaces the earlier).
pub open spec fn parse_patch(content: Seq<char>) -> Seq<SPatchSection> {
    patch_lines(lines(content)).0
}

/// The section sets `key`.
pub open spec fn section_sets(sec: SPatchSection, key: Seq<char>) -> bool {
    exists|j: int| 0 <= j < sec.keys.len() && name_eq(#[trigger] sec.keys[j].key, key)
}

/// The section sets `key` to exactly `value`.
pub open spec fn section_sets_value(sec: SPatchSection, key: Seq<char>, value: Seq<char>) -> bool {
    exists|j: int|
        0 <= j < sec.keys.len() && name_eq(#[trigger] sec.keys[j].key, key) && sec.keys[j].value == value
}

/// The section's name matches `section`; every section matches `None`.
pub open spec fn section_matches(sec: SPatchSection, section: Option<Seq<char>>) -> bool {
    match section {
        Some(s) => name_eq(sec.name, s),
        None => true,
    }
}

/// The patch sets `key` in a section named `section`, or in any section
/// where `section` is `None`.
pub open spec fn contains_key(secs: Seq<SPatchSection>, section: Option<Seq<char>>, key: Seq<char>) -> bool {
    exists|i: int| 0 <= i < secs.len() && section_matches(#[trigger] secs[i], section) && section_sets(secs[i], key)
}

/// The patch sets `key` to exactly `value` in a section named `section`.
pub open spec fn contains_key_value(secs: Seq<SPatchSection>, section: Seq<char>, key: Seq<char>, value: Seq<char>) -> bool {
    exists|i: int|
        0 <= i < secs.len() && name_eq(#[trigger] secs[i].name, section) && section_sets_value(secs[i], key, value)
}

pub struct PatchDocument {
    pub sections: Vec<PatchSection>,
}

impl View for PatchDocument {
    type V = Seq<SPatchSection>;

    open spec fn view(&self) -> Seq<SPatchSection> {
        sections_view(self.sections@)
    }
}

pub fn clone_key(k: &PatchKey) -> (r: PatchKey)
    ensures
        r@ == k@,
{
    PatchKey { key: k.key.clone(), value: k.value.clone(), raw: k.raw.clone() }
}

pub fn clone_keys(v: &Vec<PatchKey>) -> (r: Vec<PatchKey>)
    ensures
        keys_view(r@) == keys_view(v@),
{
    let mut r: Vec<PatchKey> = Vec::new();
    let mut i: usize = 0;
    while i < v.len()
        invariant
            i <= v.len(),
            keys_view(r@) == keys_view(v@).take(i as int),
        decreases v.len() - i,
    {
        let k = clone_key(&v[i]);
        let ghost old_r = r@;
        r.push(k);
        assert(keys_view(r@) =~= keys_view(old_r).push(k@));
        i += 1;
        assert(keys_view(r@) =~= keys_view(v@).take(i as int));
    }
    assert(keys_view(v@).take(v.len() as int) =~= keys_view(v@));
    r
}

pub fn clone_section(s: &PatchSection) -> (r: PatchSection)
    ensures
        r@ == s@,
{
    PatchSection { name: s.name.clone(), keys: clone_keys(&s.keys) }
}

fn find_section_vec(secs: &Vec<PatchSection>, name: &Vec<char>) -> (r: Option<usize>)
    ensures
        match r {
            Some(i) => find_section(sections_view(secs@), name@) == Some(i as int) && i < secs.len(),
            None => find_section(sections_view(secs@), name@) is None,
        },
{
    let ghost sv = sections_view(secs@);
    let mut i: usize = 0;
    while i < secs.len()
        invariant
            i <= secs.len(),
            sv == sections_view(secs@),
            forall|j: int| 0 <= j < i ==> !#[trigger] section_named(sv, name@)(j),
        decreases secs.len() - i,
    {
        if name_eq_vec(&secs[i].name, name) {
            proof {
                lemma_first_where_some(sv.len() as int, section_named(sv, name@), i as int);
            }
            return Some(i);
        }
        i += 1;
    }
    proof {
        lemma_first_where_none(sv.len() as int, section_named(sv, name@));
    }
    None
}

fn find_key_vec(keys: &Vec<PatchKey>, key: &Vec<char>) -> (r: Option<usize>)
    ensures
        match r {
            Some(i) => find_key(keys_view(keys@), key@) == Some(i as int) && i < keys.len(),
            None => find_key(keys_view(keys@), key@) is None,
        },
{
    let ghost kv = keys_view(keys@);
    let mut i: usize = 0;
    while i < keys.len()
        invariant
            i <= keys.len(),
            kv == keys_view(keys@),
            forall|j: int| 0 <= j < i ==> !#[trigger] key_named(kv, key@)(j),
        decreases keys.len() - i,
    {
        if name_eq_vec(&keys[i].key, key) {
            proof {
                lemma_first_where_some(kv.len() as int, key_named(kv, key@), i as int);
            }
            return Some(i);
        }
        i += 1;
    }
    proof {
        lemma_first_where_none(kv.len() as int, key_named(kv, key@));
    }
    None
}

fn upsert_vec(secs: &mut Vec<PatchSection>, name: &Vec<char>) -> (i: usize)
    ensures
        (sections_view(final(secs)@), i as int) == upsert(sections_view(old(secs)@), name@),
        i < final(secs).len(),
{
    match find_section_vec(secs, name) {
        Some(i) => i,
        None => {
            let ghost old_v = sections_view(secs@);
            let keys: Vec<PatchKey> = Vec::new();
            let sec = PatchSection { name: name.clone(), keys };
            assert(keys_view(sec.keys@) =~= Seq::<SPatchKey>::empty());
            secs.push(sec);
            assert(sections_view(secs@) =~= old_v.push(SPatchSection { name: name@, keys: seq![] }));
            secs.len() - 1
        },
    }
}

fn patch_step_vec(secs: &mut Vec<PatchSection>, cur: &mut Option<Vec<char>>, raw: Vec<char>)
    ensures
        (sections_view(final(secs)@), opt_view(*final(cur))) == patch_step(
            (sections_view(old(secs)@), opt_view(*old(cur))),
            raw@,
        ),
{
    match section_header_vec(&raw) {
        Some(s) => {
            upsert_vec(secs, &s);
            *cur = Some(s);
        },
        None => {
            let c = match cur {
                None => return,
                Some(c) => c.clone(),
            };
            match key_value_vec(&raw) {
                None => {},
                Some((k, v)) => {
                    let i = upsert_vec(secs, &c);
                    let ghost secs2 = sections_view(secs@);
                    let mut sec = clone_section(&secs[i]);
                    let ghost pk = SPatchKey { key: k@, value: v@, raw: raw@ };
                    match find_key_vec(&sec.keys, &k) {
                        Some(j) => {
                            let ghost before = keys_view(sec.keys@);
                            sec.keys.set(j, PatchKey { key: k, value: v, raw });
                            assert(keys_view(sec.keys@) =~= before.update(j as int, pk));
                        },
                        None => {
                            let ghost before = keys_view(sec.keys@);
                            sec.keys.push(PatchKey { key: k, value: v, raw });
                            assert(keys_view(sec.keys@) =~= before.push(pk));
                        },
                    }
                    secs.set(i, sec);
                    assert(sections_view(secs@) =~= secs2.update(i as int, sec@));
                },
            }
        },
    }
}

pub fn parse_patch_vec(content: &Vec<char>) -> (p: PatchDocument)
    ensures
        p@ == parse_patch(content@),
{
    let ls = lines_of(content);
    let mut secs: Vec<PatchSection> = Vec::new();
    let mut cur: Option<Vec<char>> = None;
    let mut i: usize = 0;
    assert(sections_view(secs@) =~= Seq::<SPatchSection>::empty());
    while i < ls.len()
        invariant
            i <= ls.len(),
            patch_lines(seqs(ls@).take(i as int)) == (sections_view(secs@), opt_view(cur)),
        decreases ls.len() - i,
    {
        proof {
            assert(seqs(ls@).take(i + 1).drop_last() =~= seqs(ls@).take(i as int));
        }
        let raw = strip_cr_vec(ls[i].clone());
        patch_step_vec(&mut secs, &mut cur, raw);
        i += 1;
    }
    proof {
        assert(seqs(ls@).take(ls.len() as int) =~= seqs(ls@));
    }
    PatchDocument { sections: secs }
}

fn section_has_key(sec: &PatchSection, key: &Vec<char>) -> (b: bool)
    ensures
        b == section_sets(sec@, key@),
{
    let mut j: usize = 0;
    while j < sec.keys.len()
        invariant
            j <= sec.keys.len(),
            forall|k: int| 0 <= k < j ==> !name_eq(#[trigger] sec@.keys[k].key, key@),
        decreases sec.keys.len() - j,
    {
        if name_eq_vec(&sec.keys[j].key, key) {
            assert(name_eq(sec@.keys[j as int].key, key@));
            return true;
        }
        j += 1;
    }
    false
}

fn section_has_key_value(sec: &PatchSection, key: &Vec<char>, value: &Vec<char>) -> (b: bool)
    ensures
        b == section_sets_value(sec@, key@, value@),
{
    let mut j: usize = 0;
    while j < sec.keys.len()
        invariant
            j <= sec.keys.len(),
            forall|k: int| 0 <= k < j ==> !(name_eq(#[trigger] sec@.keys[k].key, key@) && sec@.keys[k].value == value@),
        decreases sec.keys.len() - j,
    {
        if name_eq_vec(&sec.keys[j].key, key) && vec_eq(&sec.keys[j].value, value) {
            assert(name_eq(sec@.keys[j as int].key, key@));
            return true;
        }
        j += 1;
    }
    false
}

pub fn vec_eq(a: &Vec<char>, b: &Vec<char>) -> (r: bool)
    ensures
        r == (a@ == b@),
{
    if a.len() != b.len() {
        return false;
    }
    let mut i: usize = 0;
    while i < a.len()
        invariant
            a.len() == b.len(),
            i <= a.len(),
            forall|j: int| 0 <= j < i ==> a@[j] == b@[j],
        decreases a.len() - i,
    {
        if a[i] != b[i] {
            return false;
        }
        i += 1;
    }
    assert(a@ =~= b@);
    true
}

impl PatchDocument {
    pub fn contains_key(&self, section: &Option<Vec<char>>, key: &Vec<char>) -> (b: bool)
        ensures
            b == contains_key(self@, opt_view(*section), key@),
    {
        let mut i: usize = 0;
        while i < self.sections.len()
            invariant
                i <= self.sections.len(),
                forall|a: int|
                    0 <= a < i ==> !(section_matches(#[trigger] self@[a], opt_view(*section)) && section_sets(self@[a], key@)),
            decreases self.sections.len() - i,
        {
            let sec = &self.sections[i];
            let name_ok = match section {
                Some(s) => name_eq_vec(&sec.name, s),
                None => true,
            };
            if name_ok && section_has_key(sec, key) {
                assert(section_matches(self@[i as int], opt_view(*section)));
                return true;
            }
            i += 1;
        }
        false
    }

    pub fn contains_key_value(&self, section: &Vec<char>, key: &Vec<char>, value: &Vec<char>) -> (b: bool)
        ensures
            b == contains_key_value(self@, section@, key@, value@),
    {
        let mut i: usize = 0;
        while i < self.sections.len()
            invariant
                i <= self.sections.len(),
                forall|a: int|
                    0 <= a < i ==> !(name_eq(#[trigger] self@[a].name, section@) && section_sets_value(self@[a], key@, value@)),
            decreases self.sections.len() - i,
        {
            let sec = &self.sections[i];
            if name_eq_vec(&sec.name, section) && section_has_key_value(sec, key, value) {
                assert(name_eq(self@[i as int].name, section@));
                return true;
            }
            i += 1;
        }
        false
    }
}


// ---------------------------------------------------------------------------
// Managed blocks: runs of non-blank lines of a managed text, each with its
// comments, the sections it names and the keys it sets.

pub struct SManagedKey {
    pub section: Seq<char>,
    pub key: Seq<char>,
    pub value: Seq<char>,
}

pub struct SBlock {
    pub comments: Seq<Seq<char>>,
    pub sections: Seq<Seq<char>>,
    pub keys: Seq<SManagedKey>,
}

/// A block being read: what it has so far and the section that is open.
pub struct SBlockState {
    pub comments: Seq<Seq<char>>,
    pub sections: Seq<Seq<char>>,
    pub keys: Seq<SManagedKey>,
    pub current: Option<Seq<char>>,
}

pub struct ManagedKey {
    pub section: Vec<char>,
    pub key: Vec<char>,
    pub value: Vec<char>,
}

pub struct ManagedBlock {
    pub comments: Vec<Vec<char>>,
    pub sections: Vec<Vec<char>>,
    pub keys: Vec<ManagedKey>,
}

impl View for ManagedKey {
    type V = SManagedKey;

    open spec fn view(&self) -> SManagedKey {
        SManagedKey { section: self.section@, key: self.key@, value: self.value@ }
    }
}

pub open spec fn mkeys_view(v: Seq<ManagedKey>) -> Seq<SManagedKey> {
    v.map_values(|k: ManagedKey| k@)
}

impl View for ManagedBlock {
    type V = SBlock;

    open spec fn view(&self) -> SBlock {
        SBlock { comments: seqs(self.comments@), sections: seqs(self.sections@), keys: mkeys_view(self.keys@) }
    }
}

pub open spec fn blocks_view(v: Seq<ManagedBlock>) -> Seq<SBlock> {
    v.map_values(|b: ManagedBlock| b@)
}

/// Some name in `names` matches `s`.
pub open spec fn contains_name(names: Seq<Seq<char>>, s: Seq<char>) -> bool {
    exists|i: int| 0 <= i < names.len() && name_eq(#[trigger] names[i], s)
}

/// `names` with `s` added unless a matching name is there already.
pub open spec fn add_name(names: Seq<Seq<char>>, s: Seq<char>) -> Seq<Seq<char>> {
    if contains_name(names, s) {
        names
    } else {
        names.push(s)
    }
}

/// One line of a block read into the block.
pub open spec fn block_step(st: SBlockState, raw: Seq<char>) -> SBlockState {
    if is_comment_line(raw) {
        SBlockState { comments: st.comments.push(raw), ..st }
    } else {
        match section_header(raw) {
            Some(s) => SBlockState { sections: add_name(st.sections, s), current: Some(s), ..st },
            None => match st.current {
                None => st,
                Some(c) => match key_value(raw) {
                    None => st,
                    Some((k, v)) => SBlockState {
                        sections: add_name(st.sections, c),
                        keys: st.keys.push(SManagedKey { section: c, key: k, value: v }),
                        ..st
                    },
                },
            },
        }
    }
}

pub open spec fn block_fold(ls: Seq<Seq<char>>, inherited: Option<Seq<char>>) -> SBlockState
    decreases ls.len(),
{
    if ls.len() == 0 {
        SBlockState { comments: seq![], sections: seq![], keys: seq![], current: inherited }
    } else {
        block_step(block_fold(ls.drop_last(), inherited), ls.last())
    }
}

/// The block that `ls` makes under the section `inherited` (none if it
/// names no section and sets no key), and the section open after it.
pub open spec fn parse_block(ls: Seq<Seq<char>>, inherited: Option<Seq<char>>) -> (Option<SBlock>, Option<Seq<char>>) {
    let st = block_fold(ls, inherited);
    (
        if st.sections.len() > 0 || st.keys.len() > 0 {
            Some(SBlock { comments: st.comments, sections: st.sections, keys: st.keys })
        } else {
            None
        },
        st.current,
    )
}

/// Blocks found so far, the lines of the block being read, and the open section.
pub struct SBlocksState {
    pub blocks: Seq<SBlock>,
    pub pending: Seq<Seq<char>>,
    pub current: Option<Seq<char>>,
}

pub open spec fn flush(st: SBlocksState) -> SBlocksState {
    if st.pending.len() == 0 {
        st
    } else {
        let (b, c) = parse_block(st.pending, st.current);
        SBlocksState {
            blocks: match b {
                Some(b) => st.blocks.push(b),
                None => st.blocks,
            },
            pending: seq![],
            current: c,
        }
    }
}

pub open spec fn blocks_step(st: SBlocksState, raw: Seq<char>) -> SBlocksState {
    if is_blank(raw) {
        flush(st)
    } else {
        SBlocksState { pending: st.pending.push(raw), ..st }
    }
}

pub open spec fn blocks_fold(ls: Seq<Seq<char>>) -> SBlocksState
    decreases ls.len(),
{
    if ls.len() == 0 {
        SBlocksState { blocks: seq![], pending: seq![], current: None }
    } else {
        blocks_step(blocks_fold(ls.drop_last()), strip_cr(ls.last()))
    }
}

/// The blocks of a managed text, split at blank lines.
pub open spec fn parse_blocks(content: Seq<char>) -> Seq<SBlock> {
    flush(blocks_fold(lines(content))).blocks
}

/// Some key of the block is set to the same value by the patch.
pub open spec fn block_is_active(b: SBlock, patch: Seq<SPatchSection>) -> bool {
    exists|i: int|
        0 <= i < b.keys.len() && contains_key_value(patch, #[trigger] b.keys[i].section, b.keys[i].key, b.keys[i].value)
}

fn contains_name_vec(names: &Vec<Vec<char>>, s: &Vec<char>) -> (b: bool)
    ensures
        b == contains_name(seqs(names@), s@),
{
    let mut i: usize = 0;
    while i < names.len()
        invariant
            i <= names.len(),
            forall|j: int| 0 <= j < i ==> !name_eq(#[trigger] seqs(names@)[j], s@),
        decreases names.len() - i,
    {
        if name_eq_vec(&names[i], s) {
            assert(name_eq(seqs(names@)[i as int], s@));
            return true;
        }
        i += 1;
    }
    false
}

fn add_name_vec(names: &mut Vec<Vec<char>>, s: &Vec<char>)
    ensures
        seqs(final(names)@) == add_name(seqs(old(names)@), s@),
{
    if !contains_name_vec(names, s) {
        let c = s.clone();
        let ghost before = names@;
        names.push(c);
        proof {
            lemma_seqs_push(before, c);
        }
    }
}

/// A block being read, as exec data.
pub struct BlockState {
    pub comments: Vec<Vec<char>>,
    pub sections: Vec<Vec<char>>,
    pub keys: Vec<ManagedKey>,
    pub current: Option<Vec<char>>,
}

impl View for BlockState {
    type V = SBlockState;

    open spec fn view(&self) -> SBlockState {
        SBlockState {
            comments: seqs(self.comments@),
            sections: seqs(self.sections@),
            keys: mkeys_view(self.keys@),
            current: opt_view(self.current),
        }
    }
}

fn block_step_vec(st: &mut BlockState, raw: &Vec<char>)
    ensures
        final(st)@ == block_step(old(st)@, raw@),
{
    if is_comment_line_vec(raw) {
        let ghost before = st.comments@;
        st.comments.push(raw.clone());
        proof {
            lemma_seqs_push(before, st.comments@.last());
        }
        return;
    }
    match section_header_vec(raw) {
        Some(s) => {
            add_name_vec(&mut st.sections, &s);
            st.current = Some(s);
        },
        None => {
            let c = match &st.current {
                None => return,
                Some(c) => c.clone(),
            };
            match key_value_vec(raw) {
                None => {},
                Some((k, v)) => {
                    add_name_vec(&mut st.sections, &c);
                    let ghost before = st.keys@;
                    let mk = ManagedKey { section: c, key: k, value: v };
                    st.keys.push(mk);
                    assert(mkeys_view(st.keys@) =~= mkeys_view(before).push(mk@));
                },
            }
        },
    }
}

fn parse_block_vec(ls: &Vec<Vec<char>>, current: &mut Option<Vec<char>>) -> (r: Option<ManagedBlock>)
    ensures
        (match r {
            Some(b) => Some(b@),
            None => None,
        }, opt_view(*final(current))) == parse_block(seqs(ls@), opt_view(*old(current))),
{
    let mut st = BlockState {
        comments: Vec::new(),
        sections: Vec::new(),
        keys: Vec::new(),
        current: clone_opt(current),
    };
    assert(st@.comments =~= Seq::<Seq<char>>::empty());
    assert(st@.sections =~= Seq::<Seq<char>>::empty());
    assert(st@.keys =~= Seq::<SManagedKey>::empty());
    let ghost inherited = opt_view(*current);
    let mut i: usize = 0;
    while i < ls.len()
        invariant
            i <= ls.len(),
            st@ == block_fold(seqs(ls@).take(i as int), inherited),
        decreases ls.len() - i,
    {
        proof {
            assert(seqs(ls@).take(i + 1).drop_last() =~= seqs(ls@).take(i as int));
        }
        block_step_vec(&mut st, &ls[i]);
        i += 1;
    }
    proof {
        assert(seqs(ls@).take(ls.len() as int) =~= seqs(ls@));
    }
    *current = st.current;
    if st.sections.len() > 0 || st.keys.len() > 0 {
        Some(ManagedBlock { comments: st.comments, sections: st.sections, keys: st.keys })
    } else {
        None
    }
}

/// Blocks being split, as exec data.
pub struct BlocksState {
    pub blocks: Vec<ManagedBlock>,
    pub pending: Vec<Vec<char>>,
    pub current: Option<Vec<char>>,
}

impl View for BlocksState {
    type V = SBlocksState;

    open spec fn view(&self) -> SBlocksState {
        SBlocksState { blocks: blocks_view(self.blocks@), pending: seqs(self.pending@), current: opt_view(self.current) }
    }
}

fn flush_vec(st: &mut BlocksState)
    ensures
        final(st)@ == flush(old(st)@),
{
    if st.pending.len() == 0 {
        return;
    }
    let b = parse_block_vec(&st.pending, &mut st.current);
    match b {
        Some(b) => {
            let ghost before = st.blocks@;
            st.blocks.push(b);
            assert(blocks_view(st.blocks@) =~= blocks_view(before).push(b@));
        },
        None => {},
    }
    st.pending = Vec::new();
    assert(seqs(st.pending@) =~= Seq::<Seq<char>>::empty());
}

pub fn parse_blocks_vec(content: &Vec<char>) -> (r: Vec<ManagedBlock>)
    ensures
        blocks_view(r@) == parse_blocks(content@),
{
    let ls = lines_of(content);
    let mut st = BlocksState { blocks: Vec::new(), pending: Vec::new(), current: None };
    assert(st@.blocks =~= Seq::<SBlock>::empty());
    assert(st@.pending =~= Seq::<Seq<char>>::empty());
    let mut i: usize = 0;
    while i < ls.len()
        invariant
            i <= ls.len(),
            st@ == blocks_fold(seqs(ls@).take(i as int)),
        decreases ls.len() - i,
    {
        proof {
            assert(seqs(ls@).take(i + 1).drop_last() =~= seqs(ls@).take(i as int));
        }
        let raw = strip_cr_vec(ls[i].clone());
        if is_blank_vec(&raw) {
            flush_vec(&mut st);
        } else {
            let ghost before = st.pending@;
            st.pending.push(raw);
            proof {
                lemma_seqs_push(before, raw);
            }
        }
        i += 1;
    }
    proof {
        assert(seqs(ls@).take(ls.len() as int) =~= seqs(ls@));
    }
    flush_vec(&mut st);
    st.blocks
}

impl ManagedBlock {
    pub fn is_active(&self, patch: &PatchDocument) -> (b: bool)
        ensures
            b == block_is_active(self@, patch@),
    {
        let mut i: usize = 0;
        while i < self.keys.len()
            invariant
                i <= self.keys.len(),
                forall|j: int|
                    0 <= j < i ==> !contains_key_value(patch@, #[trigger] self@.keys[j].section, self@.keys[j].key, self@.keys[j].value),
            decreases self.keys.len() - i,
        {
            let k = &self.keys[i];
            if patch.contains_key_value(&k.section, &k.key, &k.value) {
                assert(contains_key_value(patch@, self@.keys[i as int].section, self@.keys[i as int].key, self@.keys[i as int].value));
                return true;
            }
            i += 1;
        }
        false
    }
}

// ---------------------------------------------------------------------------
// What reading a block gives.

/// The `;` and `#` lines of `ls`, in order.
pub open spec fn comment_lines(ls: Seq<Seq<char>>) -> Seq<Seq<char>>
    decreases ls.len(),
{
    if ls.len() == 0 {
        seq![]
    } else if is_comment_line(ls.last()) {
        comment_lines(ls.drop_last()).push(ls.last())
    } else {
        comment_lines(ls.drop_last())
    }
}

/// A line that is no comment and opens a section.
pub open spec fn is_header_line(raw: Seq<char>) -> bool {
    !is_comment_line(raw) && section_header(raw) is Some
}

/// A line that is no comment, opens no section, and reads as `key=value`.
pub open spec fn is_key_line(raw: Seq<char>) -> bool {
    !is_comment_line(raw) && section_header(raw) is None && key_value(raw) is Some
}

/// The section open after `ls`: that of its last header line, or
/// `inherited` when it has none.
pub open spec fn section_after_lines(ls: Seq<Seq<char>>, inherited: Option<Seq<char>>) -> Option<Seq<char>>
    decreases ls.len(),
{
    if ls.len() == 0 {
        inherited
    } else if is_header_line(ls.last()) {
        section_header(ls.last())
    } else {
        section_after_lines(ls.drop_last(), inherited)
    }
}

/// No two of the names match.
pub open spec fn names_distinct(names: Seq<Seq<char>>) -> bool {
    forall|i: int, j: int| 0 <= i < j < names.len() ==> !name_eq(#[trigger] names[i], #[trigger] names[j])
}

proof fn lemma_add_name(names: Seq<Seq<char>>, s: Seq<char>)
    requires
        names_distinct(names),
    ensures
        names_distinct(add_name(names, s)),
        contains_name(add_name(names, s), s),
        add_name(names, s).len() > 0,
        forall|t: Seq<char>| contains_name(names, t) ==> contains_name(add_name(names, s), t),
{
    let r = add_name(names, s);
    if !contains_name(names, s) {
        assert(name_eq(r[names.len() as int], s));
        assert forall|t: Seq<char>| contains_name(names, t) implies contains_name(r, t) by {
            let i = choose|i: int| 0 <= i < names.len() && name_eq(#[trigger] names[i], t);
            assert(r[i] == names[i]);
        }
        assert forall|i: int, j: int| 0 <= i < j < r.len() implies !name_eq(#[trigger] r[i], #[trigger] r[j]) by {
            if j == names.len() {
                assert(r[i] == names[i]);
            } else {
                assert(r[i] == names[i] && r[j] == names[j]);
            }
        }
    } else {
        let i = choose|i: int| 0 <= i < names.len() && name_eq(#[trigger] names[i], s);
    }
}

proof fn lemma_block_fold_facts(ls: Seq<Seq<char>>, inherited: Option<Seq<char>>)
    ensures
        ({
            let st = block_fold(ls, inherited);
            let has_header = exists|i: int| 0 <= i < ls.len() && is_header_line(#[trigger] ls[i]);
            let has_key = exists|i: int| 0 <= i < ls.len() && is_key_line(#[trigger] ls[i]);
            &&& st.comments == comment_lines(ls)
            &&& names_distinct(st.sections)
            &&& forall|k: int| 0 <= k < st.keys.len() ==> contains_name(st.sections, #[trigger] st.keys[k].section)
            &&& st.current == section_after_lines(ls, inherited)
            &&& (st.sections.len() > 0 || st.keys.len() > 0) <==> (has_header || (inherited is Some && has_key))
            &&& !has_header ==> st.current == inherited
        }),
    decreases ls.len(),
{
    if ls.len() > 0 {
        let init = ls.drop_last();
        let raw = ls.last();
        lemma_block_fold_facts(init, inherited);
        let p = block_fold(init, inherited);
        let st = block_fold(ls, inherited);
        assert(st == block_step(p, raw));
        assert forall|i: int| 0 <= i < init.len() implies init[i] == #[trigger] ls[i] by {}
        let hh = exists|i: int| 0 <= i < ls.len() && is_header_line(#[trigger] ls[i]);
        let hk = exists|i: int| 0 <= i < ls.len() && is_key_line(#[trigger] ls[i]);
        let ph = exists|i: int| 0 <= i < init.len() && is_header_line(#[trigger] init[i]);
        let pk = exists|i: int| 0 <= i < init.len() && is_key_line(#[trigger] init[i]);
        assert(ph ==> hh) by {
            if ph {
                let i = choose|i: int| 0 <= i < init.len() && is_header_line(#[trigger] init[i]);
                assert(ls[i] == init[i]);
            }
        }
        assert(pk ==> hk) by {
            if pk {
                let i = choose|i: int| 0 <= i < init.len() && is_key_line(#[trigger] init[i]);
                assert(ls[i] == init[i]);
            }
        }
        assert(hh ==> ph || is_header_line(raw)) by {
            if hh {
                let i = choose|i: int| 0 <= i < ls.len() && is_header_line(#[trigger] ls[i]);
                if i < init.len() {
                    assert(init[i] == ls[i]);
                }
            }
        }
        assert(hk ==> pk || is_key_line(raw)) by {
            if hk {
                let i = choose|i: int| 0 <= i < ls.len() && is_key_line(#[trigger] ls[i]);
                if i < init.len() {
                    assert(init[i] == ls[i]);
                }
            }
        }
        if is_header_line(raw) {
            assert(is_header_line(ls[ls.len() - 1]));
        }
        if is_key_line(raw) {
            assert(is_key_line(ls[ls.len() - 1]));
        }
        if is_comment_line(raw) {
        } else {
            match section_header(raw) {
                Some(sh) => {
                    lemma_add_name(p.sections, sh);
                    assert forall|k: int| 0 <= k < st.keys.len() implies contains_name(st.sections, #[trigger] st.keys[k].section) by {
                        assert(st.keys[k] == p.keys[k]);
                        assert(contains_name(p.sections, p.keys[k].section));
                    }
                },
                None => match p.current {
                    None => {},
                    Some(c) => match key_value(raw) {
                        None => {},
                        Some((k, v)) => {
                            lemma_add_name(p.sections, c);
                            assert forall|j: int| 0 <= j < st.keys.len() implies contains_name(st.sections, #[trigger] st.keys[j].section) by {
                                if j < p.keys.len() {
                                    assert(st.keys[j] == p.keys[j]);
                                    assert(contains_name(p.sections, p.keys[j].section));
                                }
                            }
                        },
                    },
                },
            }
        }
    }
}

/// Reading a block: no block comes out exactly when the lines open no
/// section and either no section is inherited or no line sets a key. A
/// block's comments are the comment lines in order, its sections have no
/// two matching names, and every key's section is among them. The section
/// open afterwards is that of the last header line, or the inherited one
/// when there is none.
pub proof fn lemma_parse_block_facts(ls: Seq<Seq<char>>, inherited: Option<Seq<char>>)
    ensures
        ({
            let (b, after) = parse_block(ls, inherited);
            let has_header = exists|i: int| 0 <= i < ls.len() && is_header_line(#[trigger] ls[i]);
            let has_key = exists|i: int| 0 <= i < ls.len() && is_key_line(#[trigger] ls[i]);
            &&& b is None <==> !has_header && (inherited is None || !has_key)
            &&& after == section_after_lines(ls, inherited)
            &&& !has_header ==> after == inherited
            &&& b matches Some(blk) ==> {
                &&& blk.comments == comment_lines(ls)
                &&& names_distinct(blk.sections)
                &&& forall|k: int| 0 <= k < blk.keys.len() ==> contains_name(blk.sections, #[trigger] blk.keys[k].section)
            }
        }),
{
    lemma_block_fold_facts(ls, inherited);
}

} // verus!
