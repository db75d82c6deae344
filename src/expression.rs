//! The grammar of a tag's inner text: a base path, parameters and options.
use vstd::prelude::*;

use crate::context::{views, word1, word2};
use crate::keypath::{ident_char, is_ident_char, slice_chars};
use crate::parse::{HBExpression, HBValHolder, RenderOptions};
use crate::text::{is_space, is_space_char, string_of};

verus! {

/// Characters that may stand in an unbracketed segment of a tag's path.
pub open spec fn is_name_char(c: char) -> bool {
    is_ident_char(c) && c != '@' && c != '\n' && c != '\r'
}

fn name_char(c: char) -> (r: bool)
    ensures
        r == is_name_char(c),
{
    ident_char(c) && c != '@' && c != '\n' && c != '\r'
}

/// Whether a path can start with `c`.
pub open spec fn is_path_start(c: char) -> bool {
    c == '.' || c == '[' || c == '@' || is_name_char(c)
}

fn path_start(c: char) -> (r: bool)
    ensures
        r == is_path_start(c),
{
    c == '.' || c == '[' || c == '@' || name_char(c)
}

/// A parameter or option value as text: a literal, or a path's segments.
pub enum ValueView {
    Literal(Seq<char>),
    Path(Seq<Seq<char>>),
}

pub open spec fn value_view(v: HBValHolder) -> ValueView {
    match v {
        HBValHolder::String(s) => ValueView::Literal(s@),
        HBValHolder::Path(p) => ValueView::Path(views(p@)),
    }
}

pub open spec fn params_view(ps: Seq<HBValHolder>) -> Seq<ValueView> {
    ps.map_values(|v: HBValHolder| value_view(v))
}

pub open spec fn options_view(os: Seq<(String, HBValHolder)>) -> Seq<(Seq<char>, ValueView)> {
    os.map_values(|o: (String, HBValHolder)| (o.0@, value_view(o.1)))
}

/// End of the run of name characters from `k` (before `b`).
pub open spec fn name_end(t: Seq<char>, k: int, b: int) -> int
    decreases b - k,
{
    if 0 <= k < b && k < t.len() && is_name_char(t[k]) {
        name_end(t, k + 1, b)
    } else {
        k
    }
}

/// Position of the first `]` from `k` (before `b`).
pub open spec fn bracket_close(t: Seq<char>, k: int, b: int) -> Option<int>
    decreases b - k,
{
    if k < 0 || k >= b || k >= t.len() {
        None
    } else if t[k] == ']' {
        Some(k)
    } else {
        bracket_close(t, k + 1, b)
    }
}

/// End of the run of white space from `q` (before `b`).
pub open spec fn space_end(t: Seq<char>, q: int, b: int) -> int
    decreases b - q,
{
    if 0 <= q < b && q < t.len() && is_space_char(t[q]) {
        space_end(t, q + 1, b)
    } else {
        q
    }
}

/// The path segment at `q` and the position after it: `..`, `.`, a
/// `[bracketed]` text, or a name (`this` standing for `.`).
pub open spec fn segment_at(t: Seq<char>, q: int, b: int) -> Option<(Seq<char>, int)> {
    if q < 0 || q >= b || b > t.len() {
        None
    } else if t[q] == '.' && q + 1 < b && t[q + 1] == '.' {
        Some((seq!['.', '.'], q + 2))
    } else if t[q] == '.' {
        Some((seq!['.'], q + 1))
    } else if t[q] == '[' {
        match bracket_close(t, q + 1, b) {
            Some(k) => Some((t.subrange(q + 1, k), k + 1)),
            None => None,
        }
    } else if t[q] == '@' || is_name_char(t[q]) {
        let k = name_end(t, q + 1, b);
        let name = t.subrange(q, k);
        Some((if name == seq!['t', 'h', 'i', 's'] { seq!['.'] } else { name }, k))
    } else {
        None
    }
}

/// The path at `q`: segments separated by `.` or `/`, and the position
/// after the path.
pub open spec fn path_at(t: Seq<char>, q: int, b: int) -> (Seq<Seq<char>>, int)
    decreases b - q,
{
    match segment_at(t, q, b) {
        None => (Seq::empty(), q),
        Some((seg, q2)) => if q < q2 < b && b - q2 > 1 && (t[q2] == '.' || t[q2] == '/') && is_path_start(t[q2 + 1]) {
            let r = path_at(t, q2 + 1, b);
            (seq![seg] + r.0, r.1)
        } else {
            (seq![seg], q2)
        },
    }
}

/// A quoted literal's text from `k` on, up to its closing quote, with `\"`
/// standing for `"`; and the position after the quote.
pub open spec fn string_from(t: Seq<char>, k: int, b: int) -> Option<(Seq<char>, int)>
    decreases b - k,
{
    if k < 0 || k >= b || b > t.len() {
        None
    } else if t[k] == '"' {
        Some((Seq::empty(), k + 1))
    } else if t[k] == '\\' && k + 1 < b && t[k + 1] == '"' {
        match string_from(t, k + 2, b) {
            Some((s, e)) => Some((seq!['"'] + s, e)),
            None => None,
        }
    } else {
        match string_from(t, k + 1, b) {
            Some((s, e)) => Some((seq![t[k]] + s, e)),
            None => None,
        }
    }
}

/// An option name followed by `=` at `p`: the name and the position after `=`.
pub open spec fn option_name_at(t: Seq<char>, p: int, b: int) -> Option<(Seq<char>, int)> {
    let k = name_end(t, p, b);
    if p < k < b && k < t.len() && t[k] == '=' {
        Some((t.subrange(p, k), k + 1))
    } else {
        None
    }
}

/// Parameters and options from `p` on: each after white space, parameters
/// (literals or paths) first, then `name=value` options; the first text that
/// fits neither (or a parameter after an option) ends the list.
pub open spec fn items_at(t: Seq<char>, p: int, b: int, in_options: bool) -> (Seq<ValueView>, Seq<(Seq<char>, ValueView)>)
    decreases b - p,
{
    if p < 0 || p >= b || b > t.len() || !is_space_char(t[p]) {
        (Seq::empty(), Seq::empty())
    } else {
        let q = space_end(t, p, b);
        if q >= b || q <= p {
            (Seq::empty(), Seq::empty())
        } else {
            match option_name_at(t, q, b) {
                Some((name, after)) => {
                    if after > q && after < b && t[after] == '"' {
                        match string_from(t, after + 1, b) {
                            Some((lit, e)) => if p < e <= b {
                                let r = items_at(t, e, b, true);
                                (r.0, seq![(name, ValueView::Literal(lit))] + r.1)
                            } else {
                                (Seq::empty(), Seq::empty())
                            },
                            None => (Seq::empty(), Seq::empty()),
                        }
                    } else if after > q && after < b && is_path_start(t[after]) {
                        let pa = path_at(t, after, b);
                        if p < pa.1 <= b {
                            let r = items_at(t, pa.1, b, true);
                            (r.0, seq![(name, ValueView::Path(pa.0))] + r.1)
                        } else {
                            (Seq::empty(), Seq::empty())
                        }
                    } else if p < after <= b {
                        let r = items_at(t, after, b, true);
                        (r.0, seq![(name, ValueView::Path(Seq::empty()))] + r.1)
                    } else {
                        (Seq::empty(), Seq::empty())
                    }
                },
                None => if in_options {
                    (Seq::empty(), Seq::empty())
                } else if t[q] == '"' {
                    match string_from(t, q + 1, b) {
                        Some((lit, e)) => if p < e <= b {
                            let r = items_at(t, e, b, false);
                            (seq![ValueView::Literal(lit)] + r.0, r.1)
                        } else {
                            (Seq::empty(), Seq::empty())
                        },
                        None => (Seq::empty(), Seq::empty()),
                    }
                } else if is_path_start(t[q]) {
                    let pa = path_at(t, q, b);
                    if q < pa.1 <= b {
                        let r = items_at(t, pa.1, b, false);
                        (seq![ValueView::Path(pa.0)] + r.0, r.1)
                    } else {
                        (Seq::empty(), Seq::empty())
                    }
                } else {
                    (Seq::empty(), Seq::empty())
                },
            }
        }
    }
}

/// The expression that the inner text `t[a..b]` of a tag denotes: the path
/// at its start (after white space) as base, then its parameters and options.
pub open spec fn expression_of(t: Seq<char>, a: int, b: int) -> (Seq<Seq<char>>, Seq<ValueView>, Seq<(Seq<char>, ValueView)>) {
    let q = space_end(t, a, b);
    if q >= b || !is_path_start(t[q]) {
        (Seq::empty(), Seq::empty(), Seq::empty())
    } else {
        let pa = path_at(t, q, b);
        let items = items_at(t, pa.1, b, false);
        (pa.0, items.0, items.1)
    }
}

/// The expression with nothing in it, rendering escaped.
fn empty_expression() -> (r: HBExpression)
    ensures
        r.base@.len() == 0,
        r.params@.len() == 0,
        r.options@.len() == 0,
        r.block is None,
        r.else_block is None,
        r.render_options.escape,
        !r.render_options.inverse,
        r.render_options.indent is None,
        !r.render_options.no_leading_whitespace,
        !r.render_options.no_trailing_whitespace,
{
    HBExpression {
        base: Vec::new(),
        params: Vec::new(),
        options: Vec::new(),
        render_options: RenderOptions {
            escape: true,
            inverse: false,
            indent: None,
            no_leading_whitespace: false,
            no_trailing_whitespace: false,
        },
        block: None,
        else_block: None,
    }
}

pub(crate) fn skip_space(t: &Vec<char>, p: usize, b: usize) -> (r: usize)
    requires
        p <= b <= t@.len(),
    ensures
        p <= r <= b,
        r == space_end(t@, p as int, b as int),
{
    let mut q = p;
    while q < b && is_space(t[q])
        invariant
            p <= q <= b,
            b <= t@.len(),
            space_end(t@, p as int, b as int) == space_end(t@, q as int, b as int),
        decreases b - q,
    {
        q = q + 1;
    }
    q
}

fn scan_name(t: &Vec<char>, k: usize, b: usize) -> (r: usize)
    requires
        k <= b <= t@.len(),
    ensures
        k <= r <= b,
        r == name_end(t@, k as int, b as int),
{
    let mut q = k;
    while q < b && name_char(t[q])
        invariant
            k <= q <= b,
            b <= t@.len(),
            name_end(t@, k as int, b as int) == name_end(t@, q as int, b as int),
        decreases b - q,
    {
        q = q + 1;
    }
    q
}

fn push_view(segs: &mut Vec<String>, seg: &Vec<char>)
    ensures
        views(final(segs)@) == views(old(segs)@).push(seg@),
{
    let s = string_of(seg);
    segs.push(s);
    assert(views(final(segs)@) =~= views(old(segs)@).push(seg@));
}

/// Reads the path at `p`. Returns the segments and the position after the path.
fn read_path(t: &Vec<char>, p: usize, b: usize) -> (r: (Vec<String>, usize))
    requires
        p <= b <= t@.len(),
    ensures
        p <= r.1 <= b,
        (views(r.0@), r.1 as int) == path_at(t@, p as int, b as int),
{
    let mut segs: Vec<String> = Vec::new();
    let mut q = p;
    assert(views(segs@) =~= Seq::<Seq<char>>::empty());
    loop
        invariant
            p <= q <= b,
            b <= t@.len(),
            path_at(t@, p as int, b as int) == (views(segs@) + path_at(t@, q as int, b as int).0, path_at(t@, q as int, b as int).1),
        decreases b - q,
    {
        let ghost before = views(segs@);
        if q >= b {
            assert(before + Seq::<Seq<char>>::empty() == before);
            return (segs, q);
        }
        let c = t[q];
        let next: usize;
        if c == '.' && q + 1 < b && t[q + 1] == '.' {
            push_view(&mut segs, &word2('.', '.'));
            next = q + 2;
        } else if c == '.' {
            push_view(&mut segs, &word1('.'));
            next = q + 1;
        } else if c == '[' {
            let mut k = q + 1;
            while k < b && t[k] != ']'
                invariant
                    q < k <= b,
                    b <= t@.len(),
                    bracket_close(t@, q + 1, b as int) == bracket_close(t@, k as int, b as int),
                decreases b - k,
            {
                k = k + 1;
            }
            if k >= b {
                assert(before + Seq::<Seq<char>>::empty() == before);
                return (segs, q);
            }
            push_view(&mut segs, &slice_chars(t, q + 1, k));
            next = k + 1;
        } else if c == '@' || name_char(c) {
            let k = scan_name(t, q + 1, b);
            let name = slice_chars(t, q, k);
            if k - q == 4 && name[0] == 't' && name[1] == 'h' && name[2] == 'i' && name[3] == 's' {
                assert(name@ == seq!['t', 'h', 'i', 's']);
                push_view(&mut segs, &word1('.'));
            } else {
                proof {
                    if name@ == seq!['t', 'h', 'i', 's'] {
                        assert(name@.len() == 4);
                        assert(name@[0] == 't' && name@[1] == 'h' && name@[2] == 'i' && name@[3] == 's');
                    }
                }
                push_view(&mut segs, &name);
            }
            next = k;
        } else {
            assert(before + Seq::<Seq<char>>::empty() == before);
            return (segs, q);
        }
        if next < b && b - next > 1 && (t[next] == '.' || t[next] == '/') && path_start(t[next + 1]) {
            proof {
                let rr = path_at(t@, next + 1, b as int);
                assert(before + (seq![views(segs@).last()] + rr.0) == views(segs@) + rr.0);
            }
            q = next + 1;
        } else {
            proof {
                assert(before.push(views(segs@).last()) == views(segs@));
                assert(before + seq![views(segs@).last()] == views(segs@));
            }
            return (segs, next);
        }
    }
}

/// Reads a double-quoted literal whose quote stands at `p`. Returns the
/// literal and the position after its closing quote, if it is closed.
fn read_string(t: &Vec<char>, p: usize, b: usize) -> (r: Option<(String, usize)>)
    requires
        p < b <= t@.len(),
    ensures
        r matches Some((s, e)) ==> p < e <= b && string_from(t@, p + 1, b as int) == Some((s@, e as int)),
        r is None ==> string_from(t@, p + 1, b as int) is None,
{
    let mut v: Vec<char> = Vec::new();
    let mut k = p + 1;
    while k < b
        invariant
            p < k <= b,
            b <= t@.len(),
            string_from(t@, p + 1, b as int) == match string_from(t@, k as int, b as int) {
                Some((s, e)) => Some((v@ + s, e)),
                None => None,
            },
        decreases b - k,
    {
        let c = t[k];
        if c == '"' {
            assert(v@ + Seq::<char>::empty() == v@);
            return Some((string_of(&v), k + 1));
        } else if c == '\\' && k + 1 < b && t[k + 1] == '"' {
            proof {
                match string_from(t@, k + 2, b as int) {
                    Some((s, e)) => {
                        assert(v@.push('"') + s == v@ + (seq!['"'] + s));
                    },
                    None => {},
                }
            }
            v.push('"');
            k = k + 2;
        } else {
            proof {
                match string_from(t@, k + 1, b as int) {
                    Some((s, e)) => {
                        assert(v@.push(c) + s == v@ + (seq![c] + s));
                    },
                    None => {},
                }
            }
            v.push(c);
            k = k + 1;
        }
    }
    None
}

/// If an option name followed by `=` starts at `p`, the name and the
/// position after the `=`.
fn read_option_name(t: &Vec<char>, p: usize, b: usize) -> (r: Option<(String, usize)>)
    requires
        p <= b <= t@.len(),
    ensures
        r matches Some((s, e)) ==> p < e <= b && option_name_at(t@, p as int, b as int) == Some((s@, e as int)),
        r is None ==> option_name_at(t@, p as int, b as int) is None,
{
    let k = scan_name(t, p, b);
    if k > p && k < b && t[k] == '=' {
        Some((string_of(&slice_chars(t, p, k)), k + 1))
    } else {
        None
    }
}

proof fn lemma_views_push_one(ps: Seq<HBValHolder>, v: HBValHolder)
    ensures
        params_view(ps.push(v)) == params_view(ps) + seq![value_view(v)],
{
    assert(params_view(ps.push(v)) =~= params_view(ps) + seq![value_view(v)]);
}

proof fn lemma_options_push_one(os: Seq<(String, HBValHolder)>, o: (String, HBValHolder))
    ensures
        options_view(os.push(o)) == options_view(os) + seq![(o.0@, value_view(o.1))],
{
    assert(options_view(os.push(o)) =~= options_view(os) + seq![(o.0@, value_view(o.1))]);
}

proof fn lemma_options_take_no_params(t: Seq<char>, p: int, b: int)
    ensures
        items_at(t, p, b, true).0 == Seq::<ValueView>::empty(),
    decreases b - p,
{
    if !(p < 0 || p >= b || b > t.len() || !is_space_char(t[p])) {
        let q = space_end(t, p, b);
        if !(q >= b || q <= p) {
            match option_name_at(t, q, b) {
                Some((name, after)) => {
                    if after > q && after < b && t[after] == '"' {
                        match string_from(t, after + 1, b) {
                            Some((lit, e)) => if p < e <= b {
                                lemma_options_take_no_params(t, e, b);
                            },
                            None => {},
                        }
                    } else if after > q && after < b && is_path_start(t[after]) {
                        let pa = path_at(t, after, b);
                        if p < pa.1 <= b {
                            lemma_options_take_no_params(t, pa.1, b);
                        }
                    } else if p < after <= b {
                        lemma_options_take_no_params(t, after, b);
                    }
                },
                None => {},
            }
        }
    }
}

proof fn lemma_space_end_grows(t: Seq<char>, p: int, b: int)
    requires
        0 <= p < b <= t.len(),
        is_space_char(t[p]),
    ensures
        space_end(t, p, b) > p,
        space_end(t, p, b) == space_end(t, p + 1, b),
    decreases b - p,
{
    let q = space_end(t, p + 1, b);
    assert(q >= p + 1) by {
        lemma_space_end_at_least(t, p + 1, b);
    }
}

proof fn lemma_space_end_at_least(t: Seq<char>, p: int, b: int)
    ensures
        space_end(t, p, b) >= p,
    decreases b - p,
{
    if 0 <= p < b && p < t.len() && is_space_char(t[p]) {
        lemma_space_end_at_least(t, p + 1, b);
    }
}

/// Parses a tag's inner text `t[a..b]`: a base path, then parameters (paths
/// or quoted literals) separated by white space, then `name=value` options
/// (once an option is seen, everything after is read as options). Text that
/// fits none of these ends the expression; text with no path at its start
/// gives an empty base.
#[verifier::rlimit(60)]
pub fn parse_expression(t: &Vec<char>, a: usize, b: usize) -> (r: HBExpression)
    requires
        a <= b <= t@.len(),
    ensures
        (views(r.base@), params_view(r.params@), options_view(r.options@)) == expression_of(t@, a as int, b as int),
        r.block is None,
        r.else_block is None,
        r.render_options.escape,
        !r.render_options.inverse,
        r.render_options.indent is None,
        !r.render_options.no_leading_whitespace,
        !r.render_options.no_trailing_whitespace,
{
    let mut exp = empty_expression();
    let mut p = skip_space(t, a, b);
    if p >= b || !path_start(t[p]) {
        assert(views(exp.base@) =~= Seq::<Seq<char>>::empty());
        assert(params_view(exp.params@) =~= Seq::<ValueView>::empty());
        assert(options_view(exp.options@) =~= Seq::<(Seq<char>, ValueView)>::empty());
        return exp;
    }
    let (base, q0) = read_path(t, p, b);
    exp.base = base;
    p = q0;
    let mut in_options = false;
    assert(params_view(exp.params@) =~= Seq::<ValueView>::empty());
    assert(options_view(exp.options@) =~= Seq::<(Seq<char>, ValueView)>::empty());
    let ghost target = expression_of(t@, a as int, b as int);
    assert(target.1 == params_view(exp.params@) + items_at(t@, p as int, b as int, false).0);
    assert(target.2 == options_view(exp.options@) + items_at(t@, p as int, b as int, false).1);
    loop
        invariant
            p <= b,
            b <= t@.len(),
            target == expression_of(t@, a as int, b as int),
            exp.block is None,
            exp.else_block is None,
            exp.render_options.escape,
            !exp.render_options.inverse,
            exp.render_options.indent is None,
            !exp.render_options.no_leading_whitespace,
            !exp.render_options.no_trailing_whitespace,
            views(exp.base@) == target.0,
            target.1 == params_view(exp.params@) + items_at(t@, p as int, b as int, in_options).0,
            target.2 == options_view(exp.options@) + items_at(t@, p as int, b as int, in_options).1,
        decreases b - p,
    {
        let ghost pv = params_view(exp.params@);
        let ghost ov = options_view(exp.options@);
        let ghost items = items_at(t@, p as int, b as int, in_options);
        proof {
            lemma_options_take_no_params(t@, p as int, b as int);
        }
        if p >= b || !is_space(t[p]) {
            assert(pv + Seq::<ValueView>::empty() == pv);
            assert(ov + Seq::<(Seq<char>, ValueView)>::empty() == ov);
            return exp;
        }
        let q = skip_space(t, p, b);
        proof {
            lemma_space_end_grows(t@, p as int, b as int);
        }
        if q >= b {
            assert(pv + Seq::<ValueView>::empty() == pv);
            assert(ov + Seq::<(Seq<char>, ValueView)>::empty() == ov);
            return exp;
        }
        match read_option_name(t, q, b) {
            Some((name, after)) => {
                let ghost nm = name@;
                if after < b && t[after] == '"' {
                    match read_string(t, after, b) {
                        Some((lit, e)) => {
                            let ghost o = (name, HBValHolder::String(lit));
                            let ghost rest = items_at(t@, e as int, b as int, true);
                            proof {
                                lemma_options_take_no_params(t@, e as int, b as int);
                                lemma_options_push_one(exp.options@, o);
                                assert(ov + (seq![(nm, ValueView::Literal(lit@))] + rest.1)
                                    == (ov + seq![(nm, ValueView::Literal(lit@))]) + rest.1);
                            }
                            exp.options.push((name, HBValHolder::String(lit)));
                            p = e;
                            in_options = true;
                            assert(pv + Seq::<ValueView>::empty() == pv);
                        },
                        None => {
                            assert(pv + Seq::<ValueView>::empty() == pv);
                            assert(ov + Seq::<(Seq<char>, ValueView)>::empty() == ov);
                            return exp;
                        },
                    }
                } else if after < b && path_start(t[after]) {
                    let (path, e) = read_path(t, after, b);
                    let ghost o = (name, HBValHolder::Path(path));
                    let ghost rest = items_at(t@, e as int, b as int, true);
                    let ghost pth = views(path@);
                    proof {
                        lemma_options_take_no_params(t@, e as int, b as int);
                        lemma_options_push_one(exp.options@, o);
                        assert(ov + (seq![(nm, ValueView::Path(pth))] + rest.1) == (ov + seq![(nm, ValueView::Path(pth))]) + rest.1);
                    }
                    exp.options.push((name, HBValHolder::Path(path)));
                    p = e;
                    in_options = true;
                    assert(pv + Seq::<ValueView>::empty() == pv);
                } else {
                    let empty_path: Vec<String> = Vec::new();
                    assert(views(empty_path@) =~= Seq::<Seq<char>>::empty());
                    let ghost o = (name, HBValHolder::Path(empty_path));
                    let ghost rest = items_at(t@, after as int, b as int, true);
                    proof {
                        lemma_options_take_no_params(t@, after as int, b as int);
                        lemma_options_push_one(exp.options@, o);
                        assert(ov + (seq![(nm, ValueView::Path(Seq::empty()))] + rest.1)
                            == (ov + seq![(nm, ValueView::Path(Seq::empty()))]) + rest.1);
                    }
                    exp.options.push((name, HBValHolder::Path(empty_path)));
                    p = after;
                    in_options = true;
                    assert(pv + Seq::<ValueView>::empty() == pv);
                }
            },
            None => {
                if in_options {
                    assert(ov + Seq::<(Seq<char>, ValueView)>::empty() == ov);
                    return exp;
                }
                if t[q] == '"' {
                    match read_string(t, q, b) {
                        Some((lit, e)) => {
                            let ghost v = HBValHolder::String(lit);
                            let ghost rest = items_at(t@, e as int, b as int, false);
                            proof {
                                lemma_views_push_one(exp.params@, v);
                                assert(pv + (seq![ValueView::Literal(lit@)] + rest.0) == (pv + seq![ValueView::Literal(lit@)]) + rest.0);
                            }
                            exp.params.push(HBValHolder::String(lit));
                            p = e;
                        },
                        None => {
                            assert(pv + Seq::<ValueView>::empty() == pv);
                            assert(ov + Seq::<(Seq<char>, ValueView)>::empty() == ov);
                            return exp;
                        },
                    }
                } else if path_start(t[q]) {
                    let (path, e) = read_path(t, q, b);
                    if e == q {
                        assert(pv + Seq::<ValueView>::empty() == pv);
                        assert(ov + Seq::<(Seq<char>, ValueView)>::empty() == ov);
                        return exp;
                    }
                    let ghost v = HBValHolder::Path(path);
                    let ghost rest = items_at(t@, e as int, b as int, false);
                    let ghost pth = views(path@);
                    proof {
                        lemma_views_push_one(exp.params@, v);
                        assert(pv + (seq![ValueView::Path(pth)] + rest.0) == (pv + seq![ValueView::Path(pth)]) + rest.0);
                    }
                    exp.params.push(HBValHolder::Path(path));
                    p = e;
                } else {
                    assert(pv + Seq::<ValueView>::empty() == pv);
                    assert(ov + Seq::<(Seq<char>, ValueView)>::empty() == ov);
                    return exp;
                }
            },
        }
    }
}

} // verus!
