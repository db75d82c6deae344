//! Finding the tags of a template: where each starts and ends, its kind,
//! its inner text and its trim markers.
use vstd::prelude::*;

use crate::text::is_blank_char;

verus! {

/// The kind of a tag, from the character after its opening braces.
#[derive(Clone, Copy)]
pub enum TagKind {
    /// `{{expr}}`
    Value,
    /// `{{{expr}}}` or `{{&expr}}`
    Unescaped,
    /// `{{#expr}}`
    Block,
    /// `{{^expr}}`
    Inverse,
    /// `{{else}}` or `{{^}}`
    Else,
    /// `{{/expr}}`
    Close,
    /// `{{>expr}}`
    Partial,
    /// `{{!text}}`
    Comment,
}

/// A tag found in the template text: where it starts and ends, where its
/// inner expression text lies, and its explicit trim markers.
#[derive(Clone, Copy)]
pub struct Tag {
    pub kind: TagKind,
    pub start: usize,
    pub inner_start: usize,
    pub inner_end: usize,
    pub end: usize,
    pub trim_left: bool,
    pub trim_right: bool,
}

impl Tag {
    /// Positions are in order and within a text of `n` characters.
    pub open spec fn wf(&self, n: nat) -> bool {
        self.start + 2 <= self.inner_start <= self.inner_end <= self.end <= n
    }
}

/// Whether a closing run of braces (`}}`, or `}}}` for a triple tag) starts at `i`.
pub open spec fn closes_at_spec(t: Seq<char>, i: int, triple: bool) -> bool {
    if triple {
        0 <= i && i + 3 <= t.len() && t[i] == '}' && t[i + 1] == '}' && t[i + 2] == '}'
    } else {
        0 <= i && i + 2 <= t.len() && t[i] == '}' && t[i + 1] == '}'
    }
}

fn closes_at(t: &Vec<char>, i: usize, triple: bool) -> (r: bool)
    requires
        i <= t@.len(),
    ensures
        r == closes_at_spec(t@, i as int, triple),
{
    if triple {
        t.len() >= 3 && i <= t.len() - 3 && t[i] == '}' && t[i + 1] == '}' && t[i + 2] == '}'
    } else {
        t.len() >= 2 && i <= t.len() - 2 && t[i] == '}' && t[i + 1] == '}'
    }
}

/// The first position from `c` on where the closing braces stand.
pub open spec fn close_from(t: Seq<char>, c: int, triple: bool) -> Option<int>
    decreases t.len() - c,
{
    if c < 0 || c >= t.len() {
        None
    } else if closes_at_spec(t, c, triple) {
        Some(c)
    } else {
        close_from(t, c + 1, triple)
    }
}

/// `hi` moved back over the blanks that end `t[lo..hi]`.
pub open spec fn blanks_back(t: Seq<char>, lo: int, hi: int) -> int
    decreases hi - lo,
{
    if lo < hi && 0 < hi <= t.len() && is_blank_char(t[hi - 1]) {
        blanks_back(t, lo, hi - 1)
    } else {
        hi
    }
}

/// `lo` moved forward over the blanks that start `t[lo..hi]`.
pub open spec fn blanks_fwd(t: Seq<char>, lo: int, hi: int) -> int
    decreases hi - lo,
{
    if 0 <= lo < hi && hi <= t.len() && is_blank_char(t[lo]) {
        blanks_fwd(t, lo + 1, hi)
    } else {
        lo
    }
}

/// The kind that the character at `q` gives a tag, whether the tag is a
/// triple one, and where its inner text starts.
pub open spec fn sigil_at(t: Seq<char>, q: int) -> (TagKind, bool, int) {
    if q < 0 || q >= t.len() {
        (TagKind::Value, false, q)
    } else if t[q] == '{' {
        (TagKind::Unescaped, true, q + 1)
    } else if t[q] == '&' {
        (TagKind::Unescaped, false, q + 1)
    } else if t[q] == '#' {
        (TagKind::Block, false, q + 1)
    } else if t[q] == '^' {
        (TagKind::Inverse, false, q + 1)
    } else if t[q] == '/' {
        (TagKind::Close, false, q + 1)
    } else if t[q] == '>' {
        (TagKind::Partial, false, q + 1)
    } else if t[q] == '!' {
        (TagKind::Comment, false, q + 1)
    } else {
        (TagKind::Value, false, q)
    }
}

/// The tag whose opening braces stand at `p`, if it is closed: `{{`, an
/// optional `~`, the kind's character, the inner text, optional blanks and
/// `~`, and the first closing braces. `{{^}}` and `{{else}}` are else tags.
pub open spec fn tag_at(t: Seq<char>, p: int) -> Option<Tag> {
    let n = t.len() as int;
    let tl = p + 2 < n && t[p + 2] == '~';
    let q = if tl { p + 3 } else { p + 2 };
    let (kind0, triple, inner_start) = sigil_at(t, q);
    match close_from(t, inner_start, triple) {
        None => None,
        Some(c) => {
            let end = if triple { c + 3 } else { c + 2 };
            let ie = blanks_back(t, inner_start, c);
            let tr = ie > inner_start && t[ie - 1] == '~' && !(kind0 is Comment);
            let inner_end = if tr { ie - 1 } else { c };
            let a2 = blanks_fwd(t, inner_start, inner_end);
            let b2 = blanks_back(t, a2, inner_end);
            let kind = if kind0 is Inverse && a2 == b2 {
                TagKind::Else
            } else if kind0 is Value && b2 - a2 == 4 && t.subrange(a2, b2) == seq!['e', 'l', 's', 'e'] {
                TagKind::Else
            } else {
                kind0
            };
            Some(Tag {
                kind,
                start: p as usize,
                inner_start: inner_start as usize,
                inner_end: inner_end as usize,
                end: end as usize,
                trim_left: tl,
                trim_right: tr,
            })
        },
    }
}

/// Reads the tag whose opening braces stand at `p`, if it is closed.
#[verifier::rlimit(40)]
pub fn scan_tag(t: &Vec<char>, p: usize) -> (r: Option<Tag>)
    requires
        p + 2 <= t@.len(),
        t@[p as int] == '{',
        t@[p + 1] == '{',
    ensures
        r == tag_at(t@, p as int),
        r matches Some(g) ==> g.start == p && g.wf(t@.len()),
{
    let n = t.len();
    let mut q = p + 2;
    let mut trim_left = false;
    if q < n && t[q] == '~' {
        trim_left = true;
        q = q + 1;
    }
    let mut triple = false;
    let mut kind = TagKind::Value;
    let mut inner_start = q;
    if q < n {
        let c = t[q];
        if c == '{' {
            triple = true;
            kind = TagKind::Unescaped;
            inner_start = q + 1;
        } else if c == '&' {
            kind = TagKind::Unescaped;
            inner_start = q + 1;
        } else if c == '#' {
            kind = TagKind::Block;
            inner_start = q + 1;
        } else if c == '^' {
            kind = TagKind::Inverse;
            inner_start = q + 1;
        } else if c == '/' {
            kind = TagKind::Close;
            inner_start = q + 1;
        } else if c == '>' {
            kind = TagKind::Partial;
            inner_start = q + 1;
        } else if c == '!' {
            kind = TagKind::Comment;
            inner_start = q + 1;
        }
    }
    assert(sigil_at(t@, q as int) == (kind, triple, inner_start as int));
    let mut c = inner_start;
    while c < n && !closes_at(t, c, triple)
        invariant
            inner_start <= c <= n,
            n == t@.len(),
            close_from(t@, inner_start as int, triple) == close_from(t@, c as int, triple),
        decreases n - c,
    {
        c = c + 1;
    }
    if c >= n {
        return None;
    }
    let end = if triple { c + 3 } else { c + 2 };
    let mut inner_end = c;
    while inner_end > inner_start && (t[inner_end - 1] == ' ' || t[inner_end - 1] == '\t')
        invariant
            inner_start <= inner_end <= c,
            c < n,
            n == t@.len(),
            blanks_back(t@, inner_start as int, c as int) == blanks_back(t@, inner_start as int, inner_end as int),
        decreases inner_end,
    {
        inner_end = inner_end - 1;
    }
    let mut trim_right = false;
    if inner_end > inner_start && t[inner_end - 1] == '~' && !matches!(kind, TagKind::Comment) {
        trim_right = true;
        inner_end = inner_end - 1;
    } else {
        inner_end = c;
    }
    let mut a = inner_start;
    while a < inner_end && (t[a] == ' ' || t[a] == '\t')
        invariant
            inner_start <= a <= inner_end,
            inner_end <= n,
            n == t@.len(),
            blanks_fwd(t@, inner_start as int, inner_end as int) == blanks_fwd(t@, a as int, inner_end as int),
        decreases inner_end - a,
    {
        a = a + 1;
    }
    let mut b = inner_end;
    while b > a && (t[b - 1] == ' ' || t[b - 1] == '\t')
        invariant
            a <= b <= inner_end,
            inner_end <= n,
            n == t@.len(),
            blanks_back(t@, a as int, inner_end as int) == blanks_back(t@, a as int, b as int),
        decreases b,
    {
        b = b - 1;
    }
    if matches!(kind, TagKind::Inverse) && a == b {
        kind = TagKind::Else;
    } else if matches!(kind, TagKind::Value) && b - a == 4 && t[a] == 'e' && t[a + 1] == 'l' && t[a + 2] == 's'
        && t[a + 3] == 'e' {
        assert(t@.subrange(a as int, b as int) == seq!['e', 'l', 's', 'e']);
        kind = TagKind::Else;
    } else {
        if matches!(kind, TagKind::Value) && b - a == 4 {
            assert(t@.subrange(a as int, b as int)[0] == t@[a as int]);
            assert(t@.subrange(a as int, b as int)[1] == t@[a + 1]);
            assert(t@.subrange(a as int, b as int)[2] == t@[a + 2]);
            assert(t@.subrange(a as int, b as int)[3] == t@[a + 3]);
        }
    }
    Some(Tag { kind, start: p, inner_start, inner_end, end, trim_left, trim_right })
}

/// Whether `t` holds no tag and no escape: no `\\` and no `{{` (a lone
/// `{` is plain text).
pub open spec fn plain_text(t: Seq<char>) -> bool {
    forall|i: int|
        0 <= i < t.len() ==> #[trigger] t[i] != '\\' && (t[i] == '{' ==> i + 1 >= t.len() || t[i + 1] != '{')
}

/// Plain text holds no tag.
pub proof fn lemma_plain_has_no_tags(t: Seq<char>, p: int)
    requires
        plain_text(t),
        0 <= p,
    ensures
        tags_from(t, p) == Seq::<Tag>::empty(),
    decreases t.len() - p,
{
    if p < t.len() {
        assert(t[p] != '\\');
        lemma_plain_has_no_tags(t, p + 1);
    }
}

/// The tags of `t` from position `p` on. `\{` and `\\` are escapes, so the
/// brace they hold opens no tag; `{{` without closing braces is raw text.
pub open spec fn tags_from(t: Seq<char>, p: int) -> Seq<Tag>
    decreases t.len() - p,
{
    if p < 0 || p >= t.len() {
        Seq::empty()
    } else if t[p] == '\\' && p + 1 < t.len() && (t[p + 1] == '{' || t[p + 1] == '\\') {
        tags_from(t, p + 2)
    } else if t[p] == '{' && p + 1 < t.len() && t[p + 1] == '{' {
        match tag_at(t, p) {
            Some(g) => if p < g.end <= t.len() {
                seq![g] + tags_from(t, g.end as int)
            } else {
                Seq::empty()
            },
            None => tags_from(t, p + 1),
        }
    } else {
        tags_from(t, p + 1)
    }
}

/// The tags of a template, in order.
#[verifier::rlimit(40)]
pub fn tokenize(t: &Vec<char>) -> (r: Vec<Tag>)
    ensures
        r@ == tags_from(t@, 0),
        forall|k: int| 0 <= k < r@.len() ==> (#[trigger] r@[k]).wf(t@.len()) && t@[r@[k].start as int] == '{',
        plain_text(t@) ==> r@.len() == 0,
{
    let n = t.len();
    let mut r: Vec<Tag> = Vec::new();
    let mut p: usize = 0;
    assert(r@ + tags_from(t@, 0) == tags_from(t@, 0));
    while p < n
        invariant
            n == t@.len(),
            p <= n,
            r@ + tags_from(t@, p as int) == tags_from(t@, 0),
            forall|k: int| 0 <= k < r@.len() ==> (#[trigger] r@[k]).wf(n as nat) && t@[r@[k].start as int] == '{',
        decreases n - p,
    {
        if t[p] == '\\' && p + 1 < n && (t[p + 1] == '{' || t[p + 1] == '\\') {
            p = p + 2;
        } else if t[p] == '{' && p + 1 < n && t[p + 1] == '{' {
            match scan_tag(t, p) {
                Some(g) => {
                    let ghost before = r@;
                    r.push(g);
                    assert forall|k: int| 0 <= k < r@.len() implies (#[trigger] r@[k]).wf(n as nat) && t@[r@[k].start as int] == '{' by {
                        if k < before.len() {
                            assert(r@[k] == before[k]);
                        }
                    }
                    assert(before + (seq![g] + tags_from(t@, g.end as int)) == r@ + tags_from(t@, g.end as int));
                    p = g.end;
                },
                None => {
                    p = p + 1;
                },
            }
        } else {
            p = p + 1;
        }
    }
    assert(r@ + Seq::<Tag>::empty() == r@);
    proof {
        if plain_text(t@) {
            lemma_plain_has_no_tags(t@, 0);
        }
    }
    r
}

} // verus!
