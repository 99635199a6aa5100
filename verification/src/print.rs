//! Calc-package records and the file name the package is saved under.
use vstd::prelude::*;
use vstd::string::*;
use crate::text::push_char;

verus! {

/// A project's printable calc package.
pub struct CalcPackage {
    pub project: String,
    pub printed_at: String,
    pub picks: Vec<PickSheet>,
    pub mats: Vec<MatSheet>,
}

/// One pick's sheet in the calc package.
pub struct PickSheet {
    pub name: String,
    pub payload: String,
    pub rigging_weight: String,
    /// Approximate hook-to-pick-point height, when all angles are calculated.
    pub rigging_height: Option<String>,
    pub hook_load: String,
    pub warn: Option<String>,
    pub rows: Vec<PickRow>,
}

/// One row (a layer, or the spreader under it) of a pick sheet.
pub struct PickRow {
    pub layer: String,
    pub config: String,
    /// Pick-point geometry notes (spacing source, reach/drop, warnings).
    pub geometry: Vec<String>,
    /// Layer rigging weight: first line is the total, then the breakdown.
    pub rigging: Vec<String>,
    pub carried: String,
    /// Load delivered up from the top of this layer (after apex shackles).
    pub top: String,
    pub tension: String,
    pub sling_wll: String,
    pub util: String,
    pub hardware: Vec<String>,
    pub status: String,
    pub status_kind: String,
    pub is_spreader: bool,
}

/// One mat analysis sheet in the calc package.
pub struct MatSheet {
    pub name: String,
    pub outrigger: String,
    pub allowable: String,
    pub warn: Option<String>,
    pub rows: Vec<MatRow>,
}

/// One labelled value of a mat sheet.
pub struct MatRow {
    pub label: String,
    pub value: String,
    pub status: Option<String>,
    pub status_kind: Option<String>,
}

/// Characters Windows refuses in file names.
pub open spec fn is_reserved(c: char) -> bool {
    c == '<' || c == '>' || c == ':' || c == '"' || c == '/' || c == '\\' || c == '|' || c == '?'
        || c == '*'
}

/// Unicode general category Cc (`char::is_control`).
pub open spec fn is_control_char(c: char) -> bool {
    (c as u32) <= 0x1f || (0x7f <= (c as u32) && (c as u32) <= 0x9f)
}

/// Unicode White_Space property (`char::is_whitespace`).
pub open spec fn is_white(c: char) -> bool {
    let v = c as u32;
    (0x9 <= v && v <= 0xd) || v == 0x20 || v == 0x85 || v == 0xa0 || v == 0x1680 || (0x2000 <= v
        && v <= 0x200a) || v == 0x2028 || v == 0x2029 || v == 0x202f || v == 0x205f || v == 0x3000
}

/// One character of a file-name stem after sanitizing.
pub open spec fn sanitize_char(c: char) -> char {
    if is_reserved(c) || is_control_char(c) { '-' } else { c }
}

/// Predicate stripped from the ends: dots when `dots`, else whitespace.
pub open spec fn strippable(c: char, dots: bool) -> bool {
    if dots { c == '.' } else { is_white(c) }
}

/// Removes leading characters matching the predicate, repeatedly.
pub open spec fn strip_front(s: Seq<char>, dots: bool) -> Seq<char>
    decreases s.len(),
{
    if s.len() > 0 && strippable(s[0], dots) { strip_front(s.drop_first(), dots) } else { s }
}

/// Removes trailing characters matching the predicate, repeatedly.
pub open spec fn strip_back(s: Seq<char>, dots: bool) -> Seq<char>
    decreases s.len(),
{
    if s.len() > 0 && strippable(s.last(), dots) { strip_back(s.drop_last(), dots) } else { s }
}

/// Sanitized, whitespace-trimmed, dot-trimmed stem of a project name.
pub open spec fn filename_stem(name: Seq<char>) -> Seq<char> {
    let mapped = name.map_values(|c: char| sanitize_char(c));
    let trimmed = strip_back(strip_front(mapped, false), false);
    strip_back(strip_front(trimmed, true), true)
}

/// Name of the calc-package PDF for a project.
pub open spec fn package_filename(name: Seq<char>) -> Seq<char> {
    let stem = filename_stem(name);
    (if stem.len() == 0 { "project"@ } else { stem }) + " calc package.pdf"@
}

proof fn lemma_strip_front_at(s: Seq<char>, dots: bool, k: int)
    requires
        0 <= k <= s.len(),
        forall|j: int| 0 <= j < k ==> strippable(s[j], dots),
        k == s.len() || !strippable(s[k], dots),
    ensures
        strip_front(s, dots) == s.subrange(k, s.len() as int),
    decreases k,
{
    if k == 0 {
        assert(s.subrange(0, s.len() as int) =~= s);
    } else {
        let t = s.drop_first();
        assert forall|j: int| 0 <= j < k - 1 implies strippable(t[j], dots) by {
            assert(t[j] == s[j + 1]);
        }
        lemma_strip_front_at(t, dots, k - 1);
        assert(t.subrange(k - 1, t.len() as int) =~= s.subrange(k, s.len() as int));
    }
}

proof fn lemma_strip_back_at(s: Seq<char>, dots: bool, k: int)
    requires
        0 <= k <= s.len(),
        forall|j: int| k <= j < s.len() ==> strippable(s[j], dots),
        k == 0 || !strippable(s[k - 1], dots),
    ensures
        strip_back(s, dots) == s.subrange(0, k),
    decreases s.len() - k,
{
    if k == s.len() {
        assert(s.subrange(0, k) =~= s);
    } else {
        let t = s.drop_last();
        lemma_strip_back_at(t, dots, k);
        assert(t.subrange(0, k) =~= s.subrange(0, k));
    }
}

fn is_reserved_exec(c: char) -> (r: bool)
    ensures
        r == is_reserved(c),
{
    c == '<' || c == '>' || c == ':' || c == '"' || c == '/' || c == '\\' || c == '|' || c == '?'
        || c == '*'
}

fn is_control_exec(c: char) -> (r: bool)
    ensures
        r == is_control_char(c),
{
    let v = c as u32;
    v <= 0x1f || (0x7f <= v && v <= 0x9f)
}

fn is_white_exec(c: char) -> (r: bool)
    ensures
        r == is_white(c),
{
    let v = c as u32;
    (0x9 <= v && v <= 0xd) || v == 0x20 || v == 0x85 || v == 0xa0 || v == 0x1680 || (0x2000 <= v
        && v <= 0x200a) || v == 0x2028 || v == 0x2029 || v == 0x202f || v == 0x205f || v == 0x3000
}

fn strippable_exec(c: char, dots: bool) -> (r: bool)
    ensures
        r == strippable(c, dots),
{
    if dots { c == '.' } else { is_white_exec(c) }
}

/// The name's characters, each sanitized.
fn sanitized_chars(name: &str) -> (chars: Vec<char>)
    ensures
        chars@ == name@.map_values(|c: char| sanitize_char(c)),
{
    let n = name.unicode_len();
    let ghost mapped = name@.map_values(|c: char| sanitize_char(c));
    let mut chars: Vec<char> = Vec::new();
    let mut i: usize = 0;
    while i < n
        invariant
            n == name@.len(),
            mapped == name@.map_values(|c: char| sanitize_char(c)),
            i <= n,
            chars@ == mapped.subrange(0, i as int),
        decreases n - i,
    {
        let c = name.get_char(i);
        let m = if is_reserved_exec(c) || is_control_exec(c) { '-' } else { c };
        chars.push(m);
        assert(chars@ =~= mapped.subrange(0, i + 1));
        i = i + 1;
    }
    assert(chars@ =~= mapped);
    chars
}

/// Bounds of `chars[lo..hi]` with matching characters stripped from both ends.
fn strip_range(chars: &Vec<char>, lo: usize, hi: usize, dots: bool) -> (r: (usize, usize))
    requires
        lo <= hi <= chars@.len(),
    ensures
        lo <= r.0 <= r.1 <= hi,
        strip_back(strip_front(chars@.subrange(lo as int, hi as int), dots), dots)
            == chars@.subrange(r.0 as int, r.1 as int),
{
    let ghost s = chars@.subrange(lo as int, hi as int);
    let mut a: usize = lo;
    while a < hi && strippable_exec(chars[a], dots)
        invariant
            lo <= a <= hi,
            hi <= chars@.len(),
            forall|j: int| lo <= j < a ==> strippable(chars@[j], dots),
        decreases hi - a,
    {
        a = a + 1;
    }
    proof {
        lemma_strip_front_at(s, dots, (a - lo) as int);
        assert(s.subrange((a - lo) as int, s.len() as int) =~= chars@.subrange(a as int, hi as int));
    }
    let ghost front = chars@.subrange(a as int, hi as int);
    let mut b: usize = hi;
    while b > a && strippable_exec(chars[b - 1], dots)
        invariant
            a <= b <= hi,
            hi <= chars@.len(),
            forall|j: int| b <= j < hi ==> strippable(chars@[j], dots),
        decreases b,
    {
        b = b - 1;
    }
    proof {
        lemma_strip_back_at(front, dots, (b - a) as int);
        assert(front.subrange(0, (b - a) as int) =~= chars@.subrange(a as int, b as int));
    }
    (a, b)
}

/// Sanitize a project name for use as a Windows filename stem.
pub fn calc_package_filename(project_name: &str) -> (f: String)
    ensures
        f@ == package_filename(project_name@),
{
    let chars = sanitized_chars(project_name);
    let (a, b) = strip_range(&chars, 0, chars.len(), false);
    assert(chars@.subrange(0, chars@.len() as int) =~= chars@);
    let (a2, b2) = strip_range(&chars, a, b, true);
    let mut out = String::new();
    if a2 == b2 {
        out.append("project");
    } else {
        let mut k: usize = a2;
        while k < b2
            invariant
                a2 <= k <= b2,
                b2 <= chars@.len(),
                out@ == chars@.subrange(a2 as int, k as int),
            decreases b2 - k,
        {
            push_char(&mut out, chars[k]);
            assert(out@ =~= chars@.subrange(a2 as int, k + 1));
            k = k + 1;
        }
    }
    out.append(" calc package.pdf");
    out
}

/// No character Windows refuses and no control character.
pub open spec fn all_clean(s: Seq<char>) -> bool {
    forall|j: int| 0 <= j < s.len() ==> !is_reserved(#[trigger] s[j]) && !is_control_char(s[j])
}

/// The stem of a package file name never holds a character Windows refuses
/// or a control character, and the file name always has a non-empty stem.
pub proof fn lemma_stem_is_clean(name: Seq<char>)
    ensures
        all_clean(filename_stem(name)),
        all_clean(if filename_stem(name).len() == 0 { "project"@ } else { filename_stem(name) }),
{
    let mapped = name.map_values(|c: char| sanitize_char(c));
    assert(all_clean(mapped));
    lemma_strip_clean(mapped, false, true);
    let t1 = strip_front(mapped, false);
    lemma_strip_clean(t1, false, false);
    let t2 = strip_back(t1, false);
    lemma_strip_clean(t2, true, true);
    let t3 = strip_front(t2, true);
    lemma_strip_clean(t3, true, false);
    reveal_strlit("project");
    assert(all_clean("project"@));
}

/// Stripping keeps a clean text clean.
proof fn lemma_strip_clean(s: Seq<char>, dots: bool, front: bool)
    requires
        all_clean(s),
    ensures
        all_clean(if front { strip_front(s, dots) } else { strip_back(s, dots) }),
    decreases s.len(),
{
    if front {
        if s.len() > 0 && strippable(s[0], dots) {
            let u = s.drop_first();
            assert(all_clean(u)) by {
                assert forall|j: int| 0 <= j < u.len() implies !is_reserved(#[trigger] u[j])
                    && !is_control_char(u[j]) by {
                    assert(u[j] == s[j + 1]);
                }
            }
            lemma_strip_clean(u, dots, true);
        }
    } else {
        if s.len() > 0 && strippable(s.last(), dots) {
            let u = s.drop_last();
            assert(all_clean(u)) by {
                assert forall|j: int| 0 <= j < u.len() implies !is_reserved(#[trigger] u[j])
                    && !is_control_char(u[j]) by {
                    assert(u[j] == s[j]);
                }
            }
            lemma_strip_clean(u, dots, false);
        }
    }
}

} // verus!
