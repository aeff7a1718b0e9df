//! How a single INI line is read: section headers, `key=value` pairs,
//! comments, and rewriting a value while keeping the line's layout.
use vstd::prelude::*;
use crate::seq_util::{first_where, lemma_first_where_none, lemma_first_where_some};
use crate::text::{
    append_all, concat, eq_ignore_case, eq_ignore_case_vec, find_char, find_char_vec, is_whitespace,
    is_ws, lemma_find_char_facts, slice_of, starts_with_char, trim, trim_start, trim_start_index,
    trim_end, trim_start_vec, trim_vec,
};

verus! {

/// The name of the section that `line` opens: `[name]`, optionally followed
/// by a `;` or `#` comment.
pub open spec fn section_header(line: Seq<char>) -> Option<Seq<char>> {
    let t = trim(line);
    if !starts_with_char(t, '[') {
        None
    } else {
        match find_char(t, ']') {
            None => None,
            Some(close) => {
                let suffix = trim(t.skip(close + 1));
                if suffix.len() != 0 && !starts_with_char(suffix, ';') && !starts_with_char(
                    suffix,
                    '#',
                ) {
                    None
                } else {
                    let name = trim(t.subrange(1, close));
                    if name.len() == 0 {
                        None
                    } else {
                        Some(name)
                    }
                }
            },
        }
    }
}

/// A `;` or `#` that follows whitespace starts an inline comment.
pub open spec fn comment_at(v: Seq<char>) -> spec_fn(int) -> bool {
    |i: int| (v[i] == ';' || v[i] == '#') && i > 0 && is_ws(v[i - 1])
}

/// Where the inline comment of a value starts.
pub open spec fn inline_comment_start(v: Seq<char>) -> Option<int> {
    first_where(v.len() as int, comment_at(v))
}

/// A value with its inline comment and surrounding whitespace removed.
pub open spec fn extract_value(v: Seq<char>) -> Seq<char> {
    let end = match inline_comment_start(v) {
        Some(i) => i,
        None => v.len() as int,
    };
    trim(v.take(end))
}

/// The key and value of a `key=value` line; comment lines and lines without
/// `=` or with an empty key have none.
pub open spec fn key_value(line: Seq<char>) -> Option<(Seq<char>, Seq<char>)> {
    let ts = trim_start(line);
    if ts.len() == 0 || starts_with_char(ts, ';') || starts_with_char(ts, '#') {
        None
    } else {
        match find_char(line, '=') {
            None => None,
            Some(e) => {
                let key = trim(line.take(e));
                if key.len() == 0 {
                    None
                } else {
                    Some((key, extract_value(line.skip(e + 1))))
                }
            },
        }
    }
}

/// A line whose first non-whitespace character is `;` or `#`.
pub open spec fn is_comment_line(line: Seq<char>) -> bool {
    let ts = trim_start(line);
    starts_with_char(ts, ';') || starts_with_char(ts, '#')
}

/// Section and key names compare without regard to ASCII case.
pub open spec fn name_eq(a: Seq<char>, b: Seq<char>) -> bool {
    eq_ignore_case(a, b)
}

/// Moving left from `idx` over whitespace, but not into the first `lead` characters.
pub open spec fn back_over_ws(s: Seq<char>, idx: int, lead: int) -> int
    decreases idx,
{
    if idx > lead && idx > 0 && is_ws(s[idx - 1]) {
        back_over_ws(s, idx - 1, lead)
    } else {
        idx
    }
}

/// `line` with the value after its first `=` replaced by `value`; the
/// whitespace after `=` and an inline comment (with the whitespace before it)
/// are kept.
pub open spec fn replace_value(line: Seq<char>, value: Seq<char>) -> Seq<char> {
    match find_char(line, '=') {
        None => line,
        Some(e) => {
            let prefix = line.take(e + 1);
            let suffix = line.skip(e + 1);
            let lead = suffix.len() - trim_start(suffix).len();
            let comment = match inline_comment_start(suffix) {
                None => seq![],
                Some(ci) => suffix.skip(back_over_ws(suffix, ci, lead)),
            };
            prefix + suffix.take(lead) + value + comment
        },
    }
}

/// The text holds a `\r\n` pair.
pub open spec fn has_crlf(s: Seq<char>) -> bool {
    exists|i: int| 0 <= i < s.len() - 1 && #[trigger] s[i] == '\r' && s[i + 1] == '\n'
}

pub fn section_header_vec(line: &Vec<char>) -> (r: Option<Vec<char>>)
    ensures
        match r {
            Some(n) => section_header(line@) == Some(n@),
            None => section_header(line@) is None,
        },
{
    let t = trim_vec(line);
    if !(t.len() > 0 && t[0] == '[') {
        return None;
    }
    let close = match find_char_vec(&t, ']') {
        None => return None,
        Some(c) => c,
    };
    proof {
        lemma_find_char_facts(t@, ']');
    }
    assert(close >= 1);
    let rest = slice_of(&t, close + 1, t.len());
    let suffix = trim_vec(&rest);
    if suffix.len() != 0 && suffix[0] != ';' && suffix[0] != '#' {
        return None;
    }
    let inner = slice_of(&t, 1, close);
    let name = trim_vec(&inner);
    if name.len() == 0 {
        None
    } else {
        Some(name)
    }
}

pub fn inline_comment_start_vec(v: &Vec<char>) -> (r: Option<usize>)
    ensures
        match r {
            Some(i) => inline_comment_start(v@) == Some(i as int) && i < v.len(),
            None => inline_comment_start(v@) is None,
        },
{
    let mut prev_ws = false;
    let mut i: usize = 0;
    while i < v.len()
        invariant
            i <= v.len(),
            prev_ws == (i > 0 && is_ws(v@[i - 1])),
            forall|j: int| 0 <= j < i ==> !#[trigger] comment_at(v@)(j),
        decreases v.len() - i,
    {
        let c = v[i];
        if (c == ';' || c == '#') && prev_ws {
            proof {
                lemma_first_where_some(v.len() as int, comment_at(v@), i as int);
            }
            return Some(i);
        }
        prev_ws = is_whitespace(c);
        i += 1;
    }
    proof {
        lemma_first_where_none(v.len() as int, comment_at(v@));
    }
    None
}

pub fn extract_value_vec(v: &Vec<char>) -> (r: Vec<char>)
    ensures
        r@ == extract_value(v@),
{
    let end = match inline_comment_start_vec(v) {
        Some(i) => i,
        None => v.len(),
    };
    let part = slice_of(v, 0, end);
    assert(part@ =~= v@.take(end as int));
    trim_vec(&part)
}

pub fn key_value_vec(line: &Vec<char>) -> (r: Option<(Vec<char>, Vec<char>)>)
    ensures
        match r {
            Some((k, v)) => key_value(line@) == Some((k@, v@)),
            None => key_value(line@) is None,
        },
{
    let ts = trim_start_vec(line);
    if ts.len() == 0 || ts[0] == ';' || ts[0] == '#' {
        return None;
    }
    let e = match find_char_vec(line, '=') {
        None => return None,
        Some(e) => e,
    };
    let head = slice_of(line, 0, e);
    assert(head@ =~= line@.take(e as int));
    let key = trim_vec(&head);
    if key.len() == 0 {
        return None;
    }
    let tail = slice_of(line, e + 1, line.len());
    assert(tail@ =~= line@.skip(e + 1));
    let value = extract_value_vec(&tail);
    Some((key, value))
}

pub fn is_comment_line_vec(line: &Vec<char>) -> (b: bool)
    ensures
        b == is_comment_line(line@),
{
    let ts = trim_start_vec(line);
    ts.len() > 0 && (ts[0] == ';' || ts[0] == '#')
}

pub fn name_eq_vec(a: &Vec<char>, b: &Vec<char>) -> (r: bool)
    ensures
        r == name_eq(a@, b@),
{
    eq_ignore_case_vec(a, b)
}

fn back_over_ws_exec(s: &Vec<char>, idx: usize, lead: usize) -> (r: usize)
    requires
        idx <= s.len(),
    ensures
        r == back_over_ws(s@, idx as int, lead as int),
        r <= idx,
{
    let mut k = idx;
    while k > lead && k > 0 && is_whitespace(s[k - 1])
        invariant
            k <= idx <= s.len(),
            back_over_ws(s@, k as int, lead as int) == back_over_ws(s@, idx as int, lead as int),
        decreases k,
    {
        k -= 1;
    }
    k
}

pub fn replace_value_vec(line: &Vec<char>, value: &Vec<char>) -> (r: Vec<char>)
    ensures
        r@ == replace_value(line@, value@),
{
    let e = match find_char_vec(line, '=') {
        None => return line.clone(),
        Some(e) => e,
    };
    let prefix = slice_of(line, 0, e + 1);
    let suffix = slice_of(line, e + 1, line.len());
    assert(prefix@ =~= line@.take(e + 1));
    assert(suffix@ =~= line@.skip(e + 1));
    let lead = trim_start_index(&suffix);
    let leading = slice_of(&suffix, 0, lead);
    assert(leading@ =~= suffix@.take(lead as int));
    let mut r = concat(&prefix, &leading);
    append_all(&mut r, value);
    match inline_comment_start_vec(&suffix) {
        None => {
            assert(r@ =~= r@ + Seq::<char>::empty());
        },
        Some(ci) => {
            let start = back_over_ws_exec(&suffix, ci, lead);
            let comment = slice_of(&suffix, start, suffix.len());
            assert(comment@ =~= suffix@.skip(start as int));
            append_all(&mut r, &comment);
        },
    }
    r
}

pub fn has_crlf_vec(s: &Vec<char>) -> (b: bool)
    ensures
        b == has_crlf(s@),
{
    let mut i: usize = 0;
    while i < s.len() && i + 1 < s.len()
        invariant
            i <= s.len(),
            forall|j: int| 0 <= j < i && j < s.len() - 1 ==> !(#[trigger] s@[j] == '\r' && s@[j + 1] == '\n'),
        decreases s.len() - i,
    {
        if s[i] == '\r' && s[i + 1] == '\n' {
            return true;
        }
        i += 1;
    }
    false
}

// ---------------------------------------------------------------------------
// Reading back a value written with `replace_value`.

/// A value as `extract_value` gives it: no whitespace at either end, and no
/// `;` or `#` after whitespace inside it.
pub open spec fn value_clean(value: Seq<char>) -> bool {
    &&& value.len() == 0 || (!is_ws(value[0]) && !is_ws(value.last()))
    &&& forall|i: int| 1 <= i < value.len() ==> !#[trigger] comment_at(value)(i)
}

/// `value` written into `line` by `replace_value` reads back as `value`:
/// where whitespace follows the `=`, the value does not start with `;` or
/// `#`; and the line does not hold an empty value directly followed by an
/// inline comment.
pub open spec fn value_rewritable(line: Seq<char>, value: Seq<char>) -> bool {
    match find_char(line, '=') {
        None => true,
        Some(e) => {
            let suffix = line.skip(e + 1);
            let lead = suffix.len() - trim_start(suffix).len();
            &&& (lead > 0 && value.len() > 0) ==> (value[0] != ';' && value[0] != '#')
            &&& value.len() > 0 ==> inline_comment_start(suffix) != Some(lead)
        },
    }
}

proof fn lemma_back_over_ws_facts(s: Seq<char>, idx: int, lead: int)
    requires
        0 <= lead <= idx <= s.len(),
    ensures
        lead <= back_over_ws(s, idx, lead) <= idx,
        forall|j: int| back_over_ws(s, idx, lead) <= j < idx ==> is_ws(#[trigger] s[j]),
        back_over_ws(s, idx, lead) > lead ==> !is_ws(s[back_over_ws(s, idx, lead) - 1]),
    decreases idx,
{
    if idx > lead && idx > 0 && is_ws(s[idx - 1]) {
        lemma_back_over_ws_facts(s, idx - 1, lead);
    }
}

/// What `extract_value` gives is clean.
pub proof fn lemma_extract_value_clean(v: Seq<char>)
    ensures
        value_clean(extract_value(v)),
{
    crate::seq_util::lemma_first_where_facts(v.len() as int, comment_at(v));
    let end = match inline_comment_start(v) {
        Some(i) => i,
        None => v.len() as int,
    };
    let t = v.take(end);
    crate::text::lemma_trim_start_props(t);
    let ts = trim_start(t);
    let a = t.len() - ts.len();
    crate::text::lemma_trim_end_props(ts);
    let r = trim_end(ts);
    assert(r == extract_value(v));
    assert forall|i: int| 1 <= i < r.len() implies !#[trigger] comment_at(r)(i) by {
        assert(r[i] == v[a + i]);
        assert(r[i - 1] == v[a + i - 1]);
        if comment_at(r)(i) {
            assert(comment_at(v)(a + i));
        }
    }
}

proof fn lemma_no_comment_before(v: Seq<char>, k: int)
    requires
        0 <= k <= v.len(),
        forall|j: int| 0 <= j < k ==> !#[trigger] comment_at(v)(j),
        k < v.len() && comment_at(v)(k),
    ensures
        inline_comment_start(v) == Some(k),
{
    crate::seq_util::lemma_first_where_some(v.len() as int, comment_at(v), k);
}

/// The part after `=` of `replace_value(line, value)`, for the part `suffix`
/// after `=` of `line`.
pub open spec fn rewritten_suffix(suffix: Seq<char>, value: Seq<char>) -> Seq<char> {
    let lead = suffix.len() - trim_start(suffix).len();
    let comment = match inline_comment_start(suffix) {
        None => seq![],
        Some(ci) => suffix.skip(back_over_ws(suffix, ci, lead)),
    };
    suffix.take(lead) + value + comment
}

/// Where the inline comment of a rewritten suffix starts, if it has one.
pub open spec fn rewritten_end(suffix: Seq<char>, value: Seq<char>) -> int {
    let lead = suffix.len() - trim_start(suffix).len();
    match inline_comment_start(suffix) {
        None => lead + value.len(),
        Some(ci) => lead + value.len() + (ci - back_over_ws(suffix, ci, lead)),
    }
}

proof fn lemma_rewritten_layout(suffix: Seq<char>, value: Seq<char>)
    ensures
        ({
            let lead = suffix.len() - trim_start(suffix).len();
            let ns = rewritten_suffix(suffix, value);
            &&& 0 <= lead <= suffix.len()
            &&& forall|j: int| 0 <= j < lead ==> is_ws(#[trigger] ns[j])
            &&& forall|j: int| 0 <= j < value.len() ==> ns[lead + j] == #[trigger] value[j]
            &&& lead + value.len() <= rewritten_end(suffix, value) <= ns.len()
            &&& forall|j: int| lead + value.len() <= j < rewritten_end(suffix, value) ==> is_ws(#[trigger] ns[j])
            &&& inline_comment_start(suffix) is None ==> rewritten_end(suffix, value) == ns.len()
        }),
{
    crate::text::lemma_trim_start_props(suffix);
    let lead = suffix.len() - trim_start(suffix).len();
    let ns = rewritten_suffix(suffix, value);
    assert forall|j: int| 0 <= j < lead implies is_ws(#[trigger] ns[j]) by {
        assert(ns[j] == suffix[j]);
    }
    assert forall|j: int| 0 <= j < value.len() implies ns[lead + j] == #[trigger] value[j] by {}
    crate::seq_util::lemma_first_where_facts(suffix.len() as int, comment_at(suffix));
    match inline_comment_start(suffix) {
        None => {},
        Some(ci) => {
            assert(lead <= ci) by {
                if ci < lead {
                    assert(is_ws(suffix[ci]));
                }
            }
            lemma_back_over_ws_facts(suffix, ci, lead);
            let b = back_over_ws(suffix, ci, lead);
            let p = lead + value.len();
            assert forall|j: int| p <= j < rewritten_end(suffix, value) implies is_ws(#[trigger] ns[j]) by {
                assert(ns[j] == suffix[b + (j - p)]);
            }
        },
    }
}

proof fn lemma_rewritten_comment(suffix: Seq<char>, value: Seq<char>)
    requires
        value_clean(value),
        ({
            let lead = suffix.len() - trim_start(suffix).len();
            &&& (lead > 0 && value.len() > 0) ==> (value[0] != ';' && value[0] != '#')
            &&& value.len() > 0 ==> inline_comment_start(suffix) != Some(lead)
        }),
    ensures
        ({
            let ns = rewritten_suffix(suffix, value);
            match inline_comment_start(suffix) {
                None => inline_comment_start(ns) is None,
                Some(_) => inline_comment_start(ns) == Some(rewritten_end(suffix, value)),
            }
        }),
{
    lemma_rewritten_layout(suffix, value);
    crate::text::lemma_trim_start_props(suffix);
    let lead = suffix.len() - trim_start(suffix).len();
    let ns = rewritten_suffix(suffix, value);
    let p = lead + value.len();
    let end = rewritten_end(suffix, value);
    assert forall|j: int| 0 <= j < end implies !#[trigger] comment_at(ns)(j) by {
        if j < lead {
        } else if j == lead && value.len() > 0 {
            assert(ns[j] == value[0]);
        } else if j < p {
            assert(ns[j] == value[j - lead]);
            assert(ns[j - 1] == value[j - lead - 1]);
            assert(!comment_at(value)(j - lead));
        } else {
        }
    }
    crate::seq_util::lemma_first_where_facts(suffix.len() as int, comment_at(suffix));
    match inline_comment_start(suffix) {
        None => {
            crate::seq_util::lemma_first_where_none(ns.len() as int, comment_at(ns));
        },
        Some(ci) => {
            assert(lead <= ci) by {
                if ci < lead {
                    assert(is_ws(suffix[ci]));
                }
            }
            lemma_back_over_ws_facts(suffix, ci, lead);
            let b = back_over_ws(suffix, ci, lead);
            assert(ns[end] == suffix[ci]);
            if ci > b {
                assert(ns[end - 1] == suffix[ci - 1]);
            } else {
                assert(ci == lead) by {
                    if ci > lead {
                        assert(!is_ws(suffix[ci - 1]));
                    }
                }
                assert(value.len() == 0);
                assert(ns[end - 1] == suffix[lead - 1]);
            }
            lemma_no_comment_before(ns, end);
        },
    }
}

proof fn lemma_rewritten_value(suffix: Seq<char>, value: Seq<char>)
    requires
        value_clean(value),
        ({
            let lead = suffix.len() - trim_start(suffix).len();
            &&& (lead > 0 && value.len() > 0) ==> (value[0] != ';' && value[0] != '#')
            &&& value.len() > 0 ==> inline_comment_start(suffix) != Some(lead)
        }),
    ensures
        extract_value(rewritten_suffix(suffix, value)) == value,
{
    lemma_rewritten_layout(suffix, value);
    lemma_rewritten_comment(suffix, value);
    let lead = suffix.len() - trim_start(suffix).len();
    let ns = rewritten_suffix(suffix, value);
    let end = rewritten_end(suffix, value);
    let t = ns.take(end);
    assert(t == ns.take(match inline_comment_start(ns) {
        Some(i) => i,
        None => ns.len() as int,
    }));
    if value.len() > 0 {
        assert(t[lead] == value[0]);
        crate::text::lemma_trim_start_at(t, lead);
        let u = t.skip(lead);
        assert(u.take(value.len() as int) =~= value);
        assert(u[value.len() - 1] == value.last());
        crate::text::lemma_trim_end_at(u, value.len() as int);
    } else {
        assert forall|j: int| 0 <= j < t.len() implies is_ws(#[trigger] t[j]) by {
            assert(t[j] == ns[j]);
        }
        crate::text::lemma_trim_start_at(t, t.len() as int);
        assert(t.skip(t.len() as int) =~= Seq::<char>::empty());
        crate::text::lemma_trim_end_at(Seq::<char>::empty(), 0);
        assert(value =~= Seq::<char>::empty());
    }
}

proof fn lemma_same_key(line: Seq<char>, nl: Seq<char>, e: int)
    requires
        find_char(line, '=') == Some(e),
        e + 1 <= nl.len(),
        nl.take(e + 1) == line.take(e + 1),
        key_value(line) is Some,
    ensures
        match key_value(line) {
            Some((k, _v)) => key_value(nl) == Some((k, extract_value(nl.skip(e + 1)))),
            None => true,
        },
{
    lemma_find_char_facts(line, '=');
    assert(0 <= e < line.len());
    assert forall|j: int| 0 <= j <= e implies nl[j] == line[j] by {
        assert(nl.take(e + 1)[j] == nl[j]);
        assert(line.take(e + 1)[j] == line[j]);
        assert(nl.take(e + 1)[j] == line.take(e + 1)[j]);
    }
    crate::text::lemma_find_char_some(nl, '=', e);
    assert(nl.take(e) =~= line.take(e));
    crate::text::lemma_trim_start_props(line);
    let a = line.len() - trim_start(line).len();
    crate::text::lemma_trim_start_props(line.take(e));
    let ka = e - trim_start(line.take(e)).len();
    assert(ka < e) by {
        if ka >= e {
            crate::text::lemma_trim_end_props(trim_start(line.take(e)));
        }
    }
    assert(!is_ws(line[ka])) by {
        assert(trim_start(line.take(e))[0] == line.take(e)[ka]);
    }
    assert(a == ka) by {
        if a < ka {
            assert(line.take(e)[a] == line[a]);
        }
        if a > ka {
            assert(is_ws(line[ka]));
        }
    }
    crate::text::lemma_trim_start_at(nl, a);
    crate::text::lemma_trim_start_at(line, a);
    assert(trim_start(nl)[0] == trim_start(line)[0]);
}

/// Writing a clean value into a `key=value` line and reading the line again
/// gives the same key and that value, where the value is rewritable there.
pub proof fn lemma_replace_value_reads(line: Seq<char>, value: Seq<char>)
    requires
        key_value(line) is Some,
        value_clean(value),
        value_rewritable(line, value),
    ensures
        match key_value(line) {
            Some((k, _v)) => key_value(replace_value(line, value)) == Some((k, value)),
            None => true,
        },
{
    lemma_find_char_facts(line, '=');
    let e = find_char(line, '=')->0;
    let suffix = line.skip(e + 1);
    let nl = replace_value(line, value);
    assert(nl =~= line.take(e + 1) + rewritten_suffix(suffix, value));
    assert(nl.take(e + 1) =~= line.take(e + 1));
    assert(nl.skip(e + 1) =~= rewritten_suffix(suffix, value));
    lemma_same_key(line, nl, e);
    lemma_rewritten_value(suffix, value);
}

} // verus!
