//! Reading a path out of rendered text, as the `lookup` helper does.
use vstd::prelude::*;

use crate::context::views;
use crate::text::string_of;

verus! {

/// Characters that may stand in an unbracketed path segment.
pub open spec fn is_ident_char(c: char) -> bool {
    !(c == '!' || c == '"' || c == '#' || c == '%' || c == '&' || c == '\\' || c == '\''
        || c == '(' || c == ')' || c == '*' || c == '+' || c == ',' || c == '.' || c == '/'
        || c == ';' || c == '<' || c == '=' || c == '>' || c == '[' || c == ']' || c == '^'
        || c == '`' || c == '{' || c == '|' || c == '}' || c == '~' || c == ' ' || c == '\t')
}

pub fn ident_char(c: char) -> (r: bool)
    ensures
        r == is_ident_char(c),
{
    !(c == '!' || c == '"' || c == '#' || c == '%' || c == '&' || c == '\\' || c == '\''
        || c == '(' || c == ')' || c == '*' || c == '+' || c == ',' || c == '.' || c == '/'
        || c == ';' || c == '<' || c == '=' || c == '>' || c == '[' || c == ']' || c == '^'
        || c == '`' || c == '{' || c == '|' || c == '}' || c == '~' || c == ' ' || c == '\t')
}

/// Length of the run of segment characters at the start of `s`.
pub open spec fn ident_run(s: Seq<char>) -> nat
    decreases s.len(),
{
    if s.len() > 0 && is_ident_char(s[0]) {
        1 + ident_run(s.drop_first())
    } else {
        0
    }
}

/// Position of the first `]` in `s`, if any.
pub open spec fn close_bracket(s: Seq<char>) -> Option<nat>
    decreases s.len(),
{
    if s.len() == 0 {
        None
    } else if s[0] == ']' {
        Some(0)
    } else {
        match close_bracket(s.drop_first()) {
            Some(k) => Some(k + 1),
            None => None,
        }
    }
}

/// `s` without one leading separator among `seps`' characters (`/` only, or
/// `.` and `/`).
pub open spec fn skip_sep(s: Seq<char>, dot_too: bool) -> Seq<char> {
    if s.len() > 0 && (s[0] == '/' || (dot_too && s[0] == '.')) {
        s.drop_first()
    } else {
        s
    }
}

/// The segments of a path written in text: `..` and `.` (each optionally
/// followed by `/`), runs of segment characters and `[bracketed]` segments
/// (each optionally followed by `.` or `/`); any other character is skipped.
pub open spec fn path_segments(s: Seq<char>) -> Seq<Seq<char>>
    decreases s.len(),
{
    if s.len() == 0 {
        Seq::empty()
    } else if s.len() >= 2 && s[0] == '.' && s[1] == '.' {
        seq![seq!['.', '.']] + path_segments(skip_sep(s.subrange(2, s.len() as int), false))
    } else if s[0] == '.' {
        seq![seq!['.']] + path_segments(skip_sep(s.drop_first(), false))
    } else if 0 < ident_run(s) <= s.len() {
        let n = ident_run(s) as int;
        seq![s.subrange(0, n)] + path_segments(skip_sep(s.subrange(n, s.len() as int), true))
    } else if s[0] == '[' && close_bracket(s.drop_first()) is Some && 0 < close_bracket(s.drop_first())->0
        && close_bracket(s.drop_first())->0 + 2 <= s.len() {
        let k = close_bracket(s.drop_first())->0 as int;
        seq![s.subrange(1, k + 1)] + path_segments(
            skip_sep(s.subrange(k + 2, s.len() as int), true),
        )
    } else {
        path_segments(s.drop_first())
    }
}

proof fn lemma_ident_run_of(s: Seq<char>, n: int)
    requires
        0 <= n <= s.len(),
        forall|j: int| 0 <= j < n ==> is_ident_char(#[trigger] s[j]),
        n == s.len() || !is_ident_char(s[n]),
    ensures
        ident_run(s) == n,
    decreases n,
{
    if n > 0 {
        assert forall|j: int| 0 <= j < n - 1 implies is_ident_char(#[trigger] s.drop_first()[j]) by {
            assert(s.drop_first()[j] == s[j + 1]);
        }
        if n < s.len() {
            assert(s.drop_first()[n - 1] == s[n]);
        }
        lemma_ident_run_of(s.drop_first(), n - 1);
    }
}

proof fn lemma_close_bracket_of(s: Seq<char>, k: int)
    requires
        0 <= k <= s.len(),
        forall|j: int| 0 <= j < k ==> #[trigger] s[j] != ']',
    ensures
        k < s.len() && s[k] == ']' ==> close_bracket(s) == Some(k as nat),
        k == s.len() ==> close_bracket(s) is None,
    decreases k,
{
    if k > 0 {
        assert forall|j: int| 0 <= j < k - 1 implies #[trigger] s.drop_first()[j] != ']' by {
            assert(s.drop_first()[j] == s[j + 1]);
        }
        if k < s.len() {
            assert(s.drop_first()[k - 1] == s[k]);
        }
        lemma_close_bracket_of(s.drop_first(), k - 1);
    }
}

/// The characters of `v` from `a` up to `b`.
pub fn slice_chars(v: &Vec<char>, a: usize, b: usize) -> (r: Vec<char>)
    requires
        a <= b <= v@.len(),
    ensures
        r@ == v@.subrange(a as int, b as int),
{
    let mut r: Vec<char> = Vec::new();
    let mut i: usize = a;
    while i < b
        invariant
            a <= i <= b,
            b <= v@.len(),
            r@ == v@.subrange(a as int, i as int),
        decreases b - i,
    {
        r.push(v[i]);
        i = i + 1;
        assert(r@ == v@.subrange(a as int, i as int));
    }
    r
}

proof fn lemma_views_push(r: Seq<String>, x: String)
    ensures
        views(r.push(x)) == views(r).push(x@),
{
    assert(views(r.push(x)) =~= views(r).push(x@));
}

fn push_segment(r: &mut Vec<String>, seg: &Vec<char>)
    ensures
        views(final(r)@) == views(old(r)@).push(seg@),
{
    let s = string_of(seg);
    r.push(s);
    proof {
        lemma_views_push(old(r)@, s);
    }
}

/// The segments of a path written in text, as `lookup` reads them.
#[verifier::rlimit(40)]
pub fn parse_path(path: &Vec<char>) -> (r: Vec<String>)
    ensures
        views(r@) == path_segments(path@),
{
    let mut r: Vec<String> = Vec::new();
    let mut i: usize = 0;
    let n = path.len();
    assert(path@.subrange(0, n as int) == path@);
    assert(views(r@) =~= Seq::<Seq<char>>::empty());
    while i < n
        invariant
            n == path@.len(),
            i <= n,
            views(r@) + path_segments(path@.subrange(i as int, n as int)) == path_segments(path@),
        decreases n - i,
    {
        let ghost s = path@.subrange(i as int, n as int);
        let ghost r0 = views(r@);
        let c = path[i];
        let mut j: usize;
        if c == '.' && i + 1 < n && path[i + 1] == '.' {
            j = i + 2;
            if j < n && path[j] == '/' {
                j = j + 1;
            }
            let dots = crate::context::word2('.', '.');
            push_segment(&mut r, &dots);
            proof {
                assert(s[0] == '.' && s[1] == '.');
                assert(s.subrange(2, s.len() as int) =~= path@.subrange(i + 2, n as int));
                assert(skip_sep(path@.subrange(i + 2, n as int), false) =~= path@.subrange(j as int, n as int));
            }
        } else if c == '.' {
            j = i + 1;
            if j < n && path[j] == '/' {
                j = j + 1;
            }
            let dot = crate::context::word1('.');
            push_segment(&mut r, &dot);
            proof {
                assert(s[0] == '.');
                assert(!(s.len() >= 2 && s[1] == '.'));
                assert(s.drop_first() =~= path@.subrange(i + 1, n as int));
                assert(skip_sep(path@.subrange(i + 1, n as int), false) =~= path@.subrange(j as int, n as int));
            }
        } else if ident_char(c) {
            let mut k: usize = i + 1;
            while k < n && ident_char(path[k])
                invariant
                    i < k <= n,
                    n == path@.len(),
                    forall|m: int| i <= m < k ==> is_ident_char(#[trigger] path@[m]),
                decreases n - k,
            {
                k = k + 1;
            }
            let seg = slice_chars(path, i, k);
            push_segment(&mut r, &seg);
            j = k;
            if j < n && (path[j] == '.' || path[j] == '/') {
                j = j + 1;
            }
            proof {
                assert forall|m: int| 0 <= m < k - i implies is_ident_char(#[trigger] s[m]) by {
                    assert(s[m] == path@[i + m]);
                }
                if k < n {
                    assert(s[k - i] == path@[k as int]);
                }
                lemma_ident_run_of(s, k - i);
                assert(s.subrange(0, k - i) =~= seg@);
                assert(s.subrange(k - i, s.len() as int) =~= path@.subrange(k as int, n as int));
                assert(skip_sep(path@.subrange(k as int, n as int), true) =~= path@.subrange(j as int, n as int));
            }
        } else {
            let mut k: usize = i + 1;
            if c == '[' {
                while k < n && path[k] != ']'
                    invariant
                        i < k <= n,
                        n == path@.len(),
                        forall|m: int| i < m < k ==> #[trigger] path@[m] != ']',
                    decreases n - k,
                {
                    k = k + 1;
                }
            }
            proof {
                lemma_ident_run_of(s, 0);
            }
            if c == '[' && k < n && k > i + 1 {
                let seg = slice_chars(path, i + 1, k);
                push_segment(&mut r, &seg);
                j = k + 1;
                if j < n && (path[j] == '.' || path[j] == '/') {
                    j = j + 1;
                }
                proof {
                    let t = s.drop_first();
                    assert forall|m: int| 0 <= m < k - i - 1 implies #[trigger] t[m] != ']' by {
                        assert(t[m] == path@[i + 1 + m]);
                    }
                    assert(t[k - i - 1] == path@[k as int]);
                    lemma_close_bracket_of(t, k - i - 1);
                    assert(s.subrange(1, k - i) =~= seg@);
                    assert(s.subrange(k - i + 1, s.len() as int) =~= path@.subrange(k + 1, n as int));
                    assert(skip_sep(path@.subrange(k + 1, n as int), true) =~= path@.subrange(j as int, n as int));
                }
            } else {
                j = i + 1;
                proof {
                    if c == '[' {
                        let t = s.drop_first();
                        assert forall|m: int| 0 <= m < k - i - 1 implies #[trigger] t[m] != ']' by {
                            assert(t[m] == path@[i + 1 + m]);
                        }
                        if k < n {
                            assert(t[k - i - 1] == path@[k as int]);
                        }
                        lemma_close_bracket_of(t, k - i - 1);
                    }
                    assert(s.drop_first() =~= path@.subrange(i + 1, n as int));
                }
            }
        }
        assert(views(r@) + path_segments(path@.subrange(j as int, n as int)) == path_segments(path@));
        i = j;
    }
    assert(path@.subrange(n as int, n as int) =~= Seq::<char>::empty());
    assert(views(r@) + Seq::<Seq<char>>::empty() =~= views(r@));
    r
}

} // verus!
