//! The evaluation context (registered partials and helpers) and path
//! resolution against a context, its ancestors and the globals.
use vstd::prelude::*;

use crate::data::{HBData, Node};
use crate::parse::Template;
use crate::text::chars_of;

verus! {

/// The helpers that evaluation knows how to run.
#[derive(Clone, Copy)]
pub enum Helper {
    If,
    Unless,
    Each,
    With,
    Lookup,
}

/// Registered partials and helpers, and the Mustache compatibility flag.
/// Each name stands at most once in each list: `new` starts so, and
/// registering a name again replaces its entry.
pub struct EvalContext {
    pub partials: Vec<(String, Template)>,
    pub helpers: Vec<(String, Helper)>,
    /// When set, a first path segment that the context lacks is looked up in
    /// the enclosing contexts, innermost first.
    pub compat: bool,
}

/// The first entry named `name`.
pub open spec fn named<T>(pairs: Seq<(String, T)>, name: Seq<char>) -> Option<T>
    decreases pairs.len(),
{
    if pairs.len() == 0 {
        None
    } else if pairs[0].0@ == name {
        Some(pairs[0].1)
    } else {
        named(pairs.drop_first(), name)
    }
}

/// No two entries share a name.
pub open spec fn names_unique<T>(pairs: Seq<(String, T)>) -> bool {
    forall|i: int, j: int| 0 <= i < j < pairs.len() ==> (#[trigger] pairs[i]).0@ != (#[trigger] pairs[j]).0@
}

proof fn lemma_named_none<T>(pairs: Seq<(String, T)>, n: Seq<char>)
    requires
        named(pairs, n) is None,
    ensures
        forall|i: int| 0 <= i < pairs.len() ==> (#[trigger] pairs[i]).0@ != n,
    decreases pairs.len(),
{
    if pairs.len() > 0 {
        lemma_named_none(pairs.drop_first(), n);
        assert forall|i: int| 0 <= i < pairs.len() implies (#[trigger] pairs[i]).0@ != n by {
            if i > 0 {
                assert(pairs[i] == pairs.drop_first()[i - 1]);
            }
        }
    }
}

/// Position of the first entry named `name`.
fn find_named<T>(pairs: &Vec<(String, T)>, name: &String) -> (r: Option<usize>)
    ensures
        r matches Some(i) ==> i < pairs@.len() && named(pairs@, name@) == Some(pairs@[i as int].1)
            && pairs@[i as int].0@ == name@
            && forall|j: int| 0 <= j < i ==> pairs@[j].0@ != name@,
        r is None ==> named(pairs@, name@) is None,
{
    let mut i: usize = 0;
    assert(pairs@.subrange(0, pairs@.len() as int) == pairs@);
    while i < pairs.len()
        invariant
            i <= pairs@.len(),
            named(pairs@, name@) == named(pairs@.subrange(i as int, pairs@.len() as int), name@),
            forall|j: int| 0 <= j < i ==> pairs@[j].0@ != name@,
        decreases pairs@.len() - i,
    {
        let ghost rest = pairs@.subrange(i as int, pairs@.len() as int);
        assert(rest.drop_first() == pairs@.subrange(i + 1, pairs@.len() as int));
        assert(rest[0] == pairs@[i as int]);
        if pairs[i].0 == *name {
            return Some(i);
        }
        i = i + 1;
    }
    None
}

/// Replaces the entry named `name`, or adds one at the end.
fn set_named<T>(pairs: &mut Vec<(String, T)>, name: String, value: T)
    ensures
        names_unique(old(pairs)@) ==> names_unique(final(pairs)@),
        named(final(pairs)@, name@) == Some(value),
        forall|n: Seq<char>| n != name@ ==> #[trigger] named(final(pairs)@, n) == named(old(pairs)@, n),
{
    match find_named(pairs, &name) {
        Some(i) => {
            pairs.set(i, (name, value));
            proof {
                lemma_named_set(old(pairs)@, i as int, final(pairs)@[i as int]);
                assert forall|n: Seq<char>| n != name@ implies #[trigger] named(final(pairs)@, n) == named(old(pairs)@, n) by {
                    lemma_named_set_other(old(pairs)@, i as int, final(pairs)@[i as int], n);
                }
                if names_unique(old(pairs)@) {
                    assert forall|a: int, b: int| 0 <= a < b < final(pairs)@.len() implies
                        (#[trigger] final(pairs)@[a]).0@ != (#[trigger] final(pairs)@[b]).0@ by {
                        assert(old(pairs)@[a].0@ != old(pairs)@[b].0@);
                    }
                }
            }
        },
        None => {
            pairs.push((name, value));
            proof {
                lemma_named_push(old(pairs)@, final(pairs)@.last());
                assert forall|n: Seq<char>| n != name@ implies #[trigger] named(final(pairs)@, n) == named(old(pairs)@, n) by {
                    lemma_named_push_other(old(pairs)@, final(pairs)@.last(), n);
                }
                lemma_named_none(old(pairs)@, name@);
                if names_unique(old(pairs)@) {
                    assert forall|a: int, b: int| 0 <= a < b < final(pairs)@.len() implies
                        (#[trigger] final(pairs)@[a]).0@ != (#[trigger] final(pairs)@[b]).0@ by {
                        if b < old(pairs)@.len() {
                            assert(old(pairs)@[a].0@ != old(pairs)@[b].0@);
                        } else {
                            assert(old(pairs)@[a].0@ != name@);
                        }
                    }
                }
            }
        },
    }
}

proof fn lemma_named_set<T>(pairs: Seq<(String, T)>, i: int, p: (String, T))
    requires
        0 <= i < pairs.len(),
        forall|j: int| 0 <= j < i ==> pairs[j].0@ != p.0@,
    ensures
        named(pairs.update(i, p), p.0@) == Some(p.1),
    decreases i,
{
    if i > 0 {
        lemma_named_set(pairs.drop_first(), i - 1, p);
        assert(pairs.update(i, p).drop_first() == pairs.drop_first().update(i - 1, p));
    }
}

proof fn lemma_named_set_other<T>(pairs: Seq<(String, T)>, i: int, p: (String, T), n: Seq<char>)
    requires
        0 <= i < pairs.len(),
        pairs[i].0@ == p.0@,
        n != p.0@,
    ensures
        named(pairs.update(i, p), n) == named(pairs, n),
    decreases i,
{
    if i > 0 {
        lemma_named_set_other(pairs.drop_first(), i - 1, p, n);
        assert(pairs.update(i, p).drop_first() == pairs.drop_first().update(i - 1, p));
    } else {
        assert(pairs.update(0, p).drop_first() == pairs.drop_first());
    }
}

proof fn lemma_named_push_other<T>(pairs: Seq<(String, T)>, p: (String, T), n: Seq<char>)
    requires
        n != p.0@,
    ensures
        named(pairs.push(p), n) == named(pairs, n),
    decreases pairs.len(),
{
    if pairs.len() > 0 {
        lemma_named_push_other(pairs.drop_first(), p, n);
        assert(pairs.push(p).drop_first() == pairs.drop_first().push(p));
        assert(pairs.push(p)[0] == pairs[0]);
        assert(named(pairs.push(p), n) == if pairs[0].0@ == n { Some(pairs[0].1) } else { named(pairs.drop_first().push(p), n) });
    } else {
        let e = Seq::<(String, T)>::empty();
        assert(pairs == e);
        assert(pairs.push(p).drop_first() == e);
        assert(pairs.push(p)[0] == p);
        assert(named(e, n) is None);
        assert(named(pairs.push(p), n) == named(e, n));
    }
}

/// The helper that a name stands for in a new context.
pub open spec fn builtin_helper(n: Seq<char>) -> Option<Helper> {
    if n == seq!['e', 'a', 'c', 'h'] {
        Some(Helper::Each)
    } else if n == seq!['i', 'f'] {
        Some(Helper::If)
    } else if n == seq!['u', 'n', 'l', 'e', 's', 's'] {
        Some(Helper::Unless)
    } else if n == seq!['l', 'o', 'o', 'k', 'u', 'p'] {
        Some(Helper::Lookup)
    } else if n == seq!['w', 'i', 't', 'h'] {
        Some(Helper::With)
    } else {
        None
    }
}

proof fn lemma_named_push<T>(pairs: Seq<(String, T)>, p: (String, T))
    requires
        named(pairs, p.0@) is None,
    ensures
        named(pairs.push(p), p.0@) == Some(p.1),
    decreases pairs.len(),
{
    if pairs.len() > 0 {
        lemma_named_push(pairs.drop_first(), p);
        assert(pairs.push(p).drop_first() == pairs.drop_first().push(p));
    }
}

impl EvalContext {
    /// The built-in helpers `if`, `unless`, `each`, `with` and `lookup`, no
    /// partials, compatibility off.
    pub fn new() -> (r: EvalContext)
        ensures
            r.partials@.len() == 0,
            !r.compat,
            r.helpers@.len() == 5,
            forall|n: Seq<char>| #[trigger] named(r.helpers@, n) == builtin_helper(n),
            names_unique(r.helpers@),
            names_unique(r.partials@),
    {
        let mut helpers: Vec<(String, Helper)> = Vec::new();
        helpers.push((crate::text::string_of(&word4('e', 'a', 'c', 'h')), Helper::Each));
        helpers.push((crate::text::string_of(&word2('i', 'f')), Helper::If));
        helpers.push((crate::text::string_of(&word6('u', 'n', 'l', 'e', 's', 's')), Helper::Unless));
        helpers.push((crate::text::string_of(&word6('l', 'o', 'o', 'k', 'u', 'p')), Helper::Lookup));
        helpers.push((crate::text::string_of(&word4('w', 'i', 't', 'h')), Helper::With));
        proof {
            let h = helpers@;
            assert(h[0].0@ == seq!['e', 'a', 'c', 'h'] && h[0].1 == Helper::Each);
            assert(h[1].0@ == seq!['i', 'f'] && h[1].1 == Helper::If);
            assert(h[2].0@ == seq!['u', 'n', 'l', 'e', 's', 's'] && h[2].1 == Helper::Unless);
            assert(h[3].0@ == seq!['l', 'o', 'o', 'k', 'u', 'p'] && h[3].1 == Helper::Lookup);
            assert(h[4].0@ == seq!['w', 'i', 't', 'h'] && h[4].1 == Helper::With);
            let h1 = h.drop_first();
            let h2 = h1.drop_first();
            let h3 = h2.drop_first();
            let h4 = h3.drop_first();
            let h5 = h4.drop_first();
            assert(h5.len() == 0);
            assert(h1[0] == h[1] && h2[0] == h[2] && h3[0] == h[3] && h4[0] == h[4]);
            assert forall|a: int, b: int| 0 <= a < b < h.len() implies (#[trigger] h[a]).0@ != (#[trigger] h[b]).0@ by {
                assert(h[0].0@.len() == 4 && h[1].0@.len() == 2 && h[2].0@.len() == 6 && h[3].0@.len() == 6 && h[4].0@.len() == 4);
                assert(h[0].0@[0] == 'e' && h[4].0@[0] == 'w' && h[2].0@[0] == 'u' && h[3].0@[0] == 'l');
            }
            assert forall|n: Seq<char>| #[trigger] named(h, n) == builtin_helper(n) by {
                assert(named(h5, n) is None);
                assert(named(h4, n) == if h4[0].0@ == n { Some(h4[0].1) } else { named(h5, n) });
                assert(named(h3, n) == if h3[0].0@ == n { Some(h3[0].1) } else { named(h4, n) });
                assert(named(h2, n) == if h2[0].0@ == n { Some(h2[0].1) } else { named(h3, n) });
                assert(named(h1, n) == if h1[0].0@ == n { Some(h1[0].1) } else { named(h2, n) });
                assert(named(h, n) == if h[0].0@ == n { Some(h[0].1) } else { named(h1, n) });
            }
        }
        EvalContext { partials: Vec::new(), helpers, compat: false }
    }

    /// The partials registered so far, by name.
    pub fn partials(&self) -> (r: &Vec<(String, Template)>)
        ensures
            r == &self.partials,
    {
        &self.partials
    }

    /// Registers a partial under `name`, replacing one of the same name.
    pub fn register_partial(&mut self, name: String, t: Template)
        ensures
            named(final(self).partials@, name@) == Some(t),
            forall|n: Seq<char>| n != name@ ==> #[trigger] named(final(self).partials@, n) == named(old(self).partials@, n),
            names_unique(old(self).partials@) ==> names_unique(final(self).partials@),
            final(self).helpers == old(self).helpers,
            final(self).compat == old(self).compat,
    {
        set_named(&mut self.partials, name, t);
    }

    /// The partial registered under `name`.
    pub fn partial_with_name(&self, name: &String) -> (r: Option<&Template>)
        ensures
            r matches Some(t) ==> named(self.partials@, name@) == Some(*t),
            r is None ==> named(self.partials@, name@) is None,
    {
        match find_named(&self.partials, name) {
            Some(i) => Some(&self.partials[i].1),
            None => None,
        }
    }

    /// Registers a helper under `name`, replacing one of the same name.
    pub fn register_helper(&mut self, name: String, h: Helper)
        ensures
            named(final(self).helpers@, name@) == Some(h),
            forall|n: Seq<char>| n != name@ ==> #[trigger] named(final(self).helpers@, n) == named(old(self).helpers@, n),
            names_unique(old(self).helpers@) ==> names_unique(final(self).helpers@),
            final(self).partials == old(self).partials,
            final(self).compat == old(self).compat,
    {
        set_named(&mut self.helpers, name, h);
    }

    /// The helper registered under `name`.
    pub fn helper_with_name(&self, name: &String) -> (r: Option<Helper>)
        ensures
            r == named(self.helpers@, name@),
    {
        match find_named(&self.helpers, name) {
            Some(i) => Some(self.helpers[i].1),
            None => None,
        }
    }

    pub fn has_helper_with_name(&self, name: &String) -> (r: bool)
        ensures
            r == named(self.helpers@, name@) is Some,
    {
        find_named(&self.helpers, name).is_some()
    }
}

/// The values reachable with `@name`.
#[derive(Clone, Copy)]
pub struct Globals<'a> {
    pub root: &'a HBData,
    pub index: Option<usize>,
    pub first: Option<bool>,
    pub last: Option<bool>,
    pub key: Option<&'a String>,
}

pub open spec fn word_root() -> Seq<char> {
    seq!['@', 'r', 'o', 'o', 't']
}

pub open spec fn word_index() -> Seq<char> {
    seq!['@', 'i', 'n', 'd', 'e', 'x']
}

pub open spec fn word_first() -> Seq<char> {
    seq!['@', 'f', 'i', 'r', 's', 't']
}

pub open spec fn word_last() -> Seq<char> {
    seq!['@', 'l', 'a', 's', 't']
}

pub open spec fn word_key() -> Seq<char> {
    seq!['@', 'k', 'e', 'y']
}

/// Whether `s` holds exactly the characters of `w`.
pub fn chars_match(s: &Vec<char>, w: &Vec<char>) -> (r: bool)
    ensures
        r == (s@ == w@),
{
    if s.len() != w.len() {
        return false;
    }
    let mut i: usize = 0;
    while i < s.len()
        invariant
            i <= s@.len(),
            s@.len() == w@.len(),
            forall|j: int| 0 <= j < i ==> s@[j] == w@[j],
        decreases s@.len() - i,
    {
        if s[i] != w[i] {
            return false;
        }
        i = i + 1;
    }
    assert(s@ == w@);
    true
}

pub fn word1(a: char) -> (r: Vec<char>)
    ensures
        r@ == seq![a],
{
    let mut v: Vec<char> = Vec::new();
    v.push(a);
    v
}

pub fn word2(a: char, b: char) -> (r: Vec<char>)
    ensures
        r@ == seq![a, b],
{
    let mut v = word1(a);
    v.push(b);
    v
}

pub fn word4(a: char, b: char, c: char, d: char) -> (r: Vec<char>)
    ensures
        r@ == seq![a, b, c, d],
{
    let mut v = word2(a, b);
    v.push(c);
    v.push(d);
    v
}

pub fn word5(a: char, b: char, c: char, d: char, e: char) -> (r: Vec<char>)
    ensures
        r@ == seq![a, b, c, d, e],
{
    let mut v = word4(a, b, c, d);
    v.push(e);
    v
}

pub fn word6(a: char, b: char, c: char, d: char, e: char, f: char) -> (r: Vec<char>)
    ensures
        r@ == seq![a, b, c, d, e, f],
{
    let mut v = word5(a, b, c, d, e);
    v.push(f);
    v
}

/// Whether the segment is `.`.
pub fn is_this(s: &Vec<char>) -> (r: bool)
    ensures
        r == (s@ == seq!['.']),
{
    chars_match(s, &word1('.'))
}

/// Whether the segment is `..`.
pub fn is_parent(s: &Vec<char>) -> (r: bool)
    ensures
        r == (s@ == seq!['.', '.']),
{
    chars_match(s, &word2('.', '.'))
}

impl<'a> Globals<'a> {
    /// The value of the global `name` (written with its `@`).
    pub open spec fn get(&self, name: Seq<char>) -> Option<Node<'a>> {
        if name == word_root() {
            Some(Node::Data(self.root))
        } else if name == word_index() {
            match self.index { Some(i) => Some(Node::Index(i)), None => None }
        } else if name == word_first() {
            match self.first { Some(b) => Some(Node::Flag(b)), None => None }
        } else if name == word_last() {
            match self.last { Some(b) => Some(Node::Flag(b)), None => None }
        } else if name == word_key() {
            match self.key { Some(k) => Some(Node::Text(k)), None => None }
        } else {
            None
        }
    }

    pub fn lookup(&self, name: &Vec<char>) -> (r: Option<Node<'a>>)
        ensures
            r == self.get(name@),
    {
        if chars_match(name, &word5('@', 'r', 'o', 'o', 't')) {
            Some(Node::Data(self.root))
        } else if chars_match(name, &word6('@', 'i', 'n', 'd', 'e', 'x')) {
            match self.index { Some(i) => Some(Node::Index(i)), None => None }
        } else if chars_match(name, &word6('@', 'f', 'i', 'r', 's', 't')) {
            match self.first { Some(b) => Some(Node::Flag(b)), None => None }
        } else if chars_match(name, &word5('@', 'l', 'a', 's', 't')) {
            match self.last { Some(b) => Some(Node::Flag(b)), None => None }
        } else if chars_match(name, &word4('@', 'k', 'e', 'y')) {
            match self.key { Some(k) => Some(Node::Text(k)), None => None }
        } else {
            None
        }
    }
}

/// The texts of a sequence of strings.
pub open spec fn views(p: Seq<String>) -> Seq<Seq<char>> {
    p.map_values(|s: String| s@)
}

/// The innermost enclosing context that has `key`, and its child there.
pub open spec fn search_stack<'a>(stack: Seq<Node<'a>>, key: Seq<char>) -> Option<Node<'a>>
    decreases stack.len(),
{
    if stack.len() == 0 {
        None
    } else {
        match stack.last().spec_get_key(key) {
            Some(c) => Some(c),
            None => search_stack(stack.drop_last(), key),
        }
    }
}

/// Resolution of `path` from segment `i` on, at node `cur`, having gone
/// `up` levels up the context stack; `first` holds until a key segment has
/// been looked up.
///
/// `.` keeps the node; `..` moves one level further up the stack, staying at
/// the outermost level once the stack is exhausted; `@name` moves to that
/// global, or keeps the node when there is none; any other segment looks the
/// key up in the node, and a miss ends resolution, except for the first key
/// in compatibility mode, where the enclosing contexts are searched. `.`,
/// `..` and globals do not use up the first key.
pub open spec fn resolve_from<'a>(
    path: Seq<Seq<char>>,
    i: int,
    cur: Node<'a>,
    stack: Seq<Node<'a>>,
    up: nat,
    globals: Globals<'a>,
    compat: bool,
    first: bool,
) -> Option<Node<'a>>
    decreases path.len() - i,
{
    if i < 0 || i >= path.len() {
        Some(cur)
    } else {
        let seg = path[i];
        if seg == seq!['.'] {
            resolve_from(path, i + 1, cur, stack, up, globals, compat, first)
        } else if seg == seq!['.', '.'] {
            let next = if up + 1 <= stack.len() { stack[stack.len() - (up + 1)] } else { cur };
            resolve_from(path, i + 1, next, stack, up + 1, globals, compat, first)
        } else if seg.len() > 0 && seg[0] == '@' {
            match globals.get(seg) {
                Some(v) => resolve_from(path, i + 1, v, stack, up, globals, compat, first),
                None => resolve_from(path, i + 1, cur, stack, up, globals, compat, first),
            }
        } else {
            match cur.spec_get_key(seg) {
                Some(c) => resolve_from(path, i + 1, c, stack, up, globals, compat, false),
                None => if compat && first {
                    match search_stack(stack, seg) {
                        Some(c) => resolve_from(path, i + 1, c, stack, up, globals, compat, false),
                        None => None,
                    }
                } else {
                    None
                },
            }
        }
    }
}

/// What `path` names, seen from `ctx` with enclosing contexts `stack`.
pub open spec fn resolve<'a>(
    path: Seq<Seq<char>>,
    ctx: Node<'a>,
    stack: Seq<Node<'a>>,
    globals: Globals<'a>,
    compat: bool,
) -> Option<Node<'a>> {
    resolve_from(path, 0, ctx, stack, 0, globals, compat, true)
}

/// Resolution depends only on the segments still to come.
proof fn lemma_resolve_suffix<'a>(
    a: Seq<Seq<char>>,
    i: int,
    b: Seq<Seq<char>>,
    j: int,
    cur: Node<'a>,
    stack: Seq<Node<'a>>,
    up: nat,
    globals: Globals<'a>,
    compat: bool,
    first: bool,
)
    requires
        0 <= i <= a.len(),
        0 <= j <= b.len(),
        a.len() - i == b.len() - j,
        forall|k: int| 0 <= k < a.len() - i ==> #[trigger] a[i + k] == b[j + k],
    ensures
        resolve_from(a, i, cur, stack, up, globals, compat, first) == resolve_from(b, j, cur, stack, up, globals, compat, first),
    decreases a.len() - i,
{
    if i < a.len() {
        assert(a[i + 0] == b[j + 0]);
        let seg = a[i];
        assert forall|k: int| 0 <= k < a.len() - (i + 1) implies #[trigger] a[(i + 1) + k] == b[(j + 1) + k] by {
            assert(a[i + (k + 1)] == b[j + (k + 1)]);
        }
        if seg == seq!['.'] {
            lemma_resolve_suffix(a, i + 1, b, j + 1, cur, stack, up, globals, compat, first);
        } else if seg == seq!['.', '.'] {
            let next = if up + 1 <= stack.len() { stack[stack.len() - (up + 1)] } else { cur };
            lemma_resolve_suffix(a, i + 1, b, j + 1, next, stack, up + 1, globals, compat, first);
        } else if seg.len() > 0 && seg[0] == '@' {
            match globals.get(seg) {
                Some(v) => lemma_resolve_suffix(a, i + 1, b, j + 1, v, stack, up, globals, compat, first),
                None => lemma_resolve_suffix(a, i + 1, b, j + 1, cur, stack, up, globals, compat, first),
            }
        } else {
            match cur.spec_get_key(seg) {
                Some(c) => lemma_resolve_suffix(a, i + 1, b, j + 1, c, stack, up, globals, compat, false),
                None => {
                    if compat && first {
                        match search_stack(stack, seg) {
                            Some(c) => lemma_resolve_suffix(a, i + 1, b, j + 1, c, stack, up, globals, compat, false),
                            None => {},
                        }
                    }
                },
            }
        }
    }
}

proof fn lemma_resolve_this_from<'a>(
    p1: Seq<Seq<char>>,
    p2: Seq<Seq<char>>,
    i: int,
    cur: Node<'a>,
    stack: Seq<Node<'a>>,
    up: nat,
    globals: Globals<'a>,
    compat: bool,
    first: bool,
)
    requires
        0 <= i <= p1.len(),
    ensures
        resolve_from(p1 + seq![seq!['.']] + p2, i, cur, stack, up, globals, compat, first)
            == resolve_from(p1 + p2, i, cur, stack, up, globals, compat, first),
    decreases p1.len() - i,
{
    let a = p1 + seq![seq!['.']] + p2;
    let b = p1 + p2;
    if i < p1.len() {
        let seg = p1[i];
        assert(a[i] == seg);
        assert(b[i] == seg);
        if seg == seq!['.'] {
            lemma_resolve_this_from(p1, p2, i + 1, cur, stack, up, globals, compat, first);
        } else if seg == seq!['.', '.'] {
            let next = if up + 1 <= stack.len() { stack[stack.len() - (up + 1)] } else { cur };
            lemma_resolve_this_from(p1, p2, i + 1, next, stack, up + 1, globals, compat, first);
        } else if seg.len() > 0 && seg[0] == '@' {
            match globals.get(seg) {
                Some(v) => lemma_resolve_this_from(p1, p2, i + 1, v, stack, up, globals, compat, first),
                None => lemma_resolve_this_from(p1, p2, i + 1, cur, stack, up, globals, compat, first),
            }
        } else {
            match cur.spec_get_key(seg) {
                Some(c) => lemma_resolve_this_from(p1, p2, i + 1, c, stack, up, globals, compat, false),
                None => {
                    if compat && first {
                        match search_stack(stack, seg) {
                            Some(c) => lemma_resolve_this_from(p1, p2, i + 1, c, stack, up, globals, compat, false),
                            None => {},
                        }
                    }
                },
            }
        }
    } else {
        assert(a[i] == seq!['.']);
        assert forall|k: int| 0 <= k < a.len() - (i + 1) implies #[trigger] a[(i + 1) + k] == b[i + k] by {
            assert(a[(i + 1) + k] == p2[k]);
            assert(b[i + k] == p2[k]);
        }
        lemma_resolve_suffix(a, i + 1, b, i, cur, stack, up, globals, compat, first);
    }
}

/// A `.` segment changes nothing, wherever it stands: it keeps the node and
/// does not count as the first key.
pub proof fn lemma_this_segment_is_neutral<'a>(
    p1: Seq<Seq<char>>,
    p2: Seq<Seq<char>>,
    ctx: Node<'a>,
    stack: Seq<Node<'a>>,
    globals: Globals<'a>,
    compat: bool,
)
    ensures
        resolve(p1 + seq![seq!['.']] + p2, ctx, stack, globals, compat) == resolve(p1 + p2, ctx, stack, globals, compat),
{
    lemma_resolve_this_from(p1, p2, 0, ctx, stack, 0, globals, compat, true);
}

/// A leading global resolves the rest of the path from the global's value,
/// or from the current node when there is no such global; either way the
/// rest keeps its first key.
pub proof fn lemma_global_segment<'a>(
    name: Seq<char>,
    q: Seq<Seq<char>>,
    ctx: Node<'a>,
    stack: Seq<Node<'a>>,
    globals: Globals<'a>,
    compat: bool,
)
    requires
        name.len() > 0,
        name[0] == '@',
    ensures
        resolve(seq![name] + q, ctx, stack, globals, compat) == match globals.get(name) {
            Some(v) => resolve(q, v, stack, globals, compat),
            None => resolve(q, ctx, stack, globals, compat),
        },
{
    let a = seq![name] + q;
    assert(a[0] == name);
    assert(name != seq!['.']) by {
        if name == seq!['.'] {
            assert(name[0] == '.');
        }
    }
    assert(name != seq!['.', '.']) by {
        if name == seq!['.', '.'] {
            assert(name[0] == '.');
        }
    }
    assert forall|k: int| 0 <= k < a.len() - 1 implies #[trigger] a[1 + k] == q[0 + k] by {}
    match globals.get(name) {
        Some(v) => lemma_resolve_suffix(a, 1, q, 0, v, stack, 0, globals, compat, true),
        None => lemma_resolve_suffix(a, 1, q, 0, ctx, stack, 0, globals, compat, true),
    }
}

fn search_context_stack<'a>(stack: &Vec<Node<'a>>, key: &String) -> (r: Option<Node<'a>>)
    ensures
        r == search_stack(stack@, key@),
{
    let mut n: usize = stack.len();
    assert(stack@.subrange(0, n as int) == stack@);
    while n > 0
        invariant
            n <= stack@.len(),
            search_stack(stack@, key@) == search_stack(stack@.subrange(0, n as int), key@),
        decreases n,
    {
        let ghost s = stack@.subrange(0, n as int);
        assert(s.drop_last() == stack@.subrange(0, n - 1));
        assert(s.last() == stack@[n - 1]);
        match stack[n - 1].get_key(key) {
            Some(c) => return Some(c),
            None => {},
        }
        n = n - 1;
    }
    None
}

/// The node that `key_path` names, seen from `data` with enclosing contexts
/// `context_stack` (innermost last).
pub fn value_for_key_path_in_context<'a>(
    data: &Node<'a>,
    key_path: &Vec<String>,
    context_stack: &Vec<Node<'a>>,
    global_data: &Globals<'a>,
    compat: bool,
) -> (r: Option<Node<'a>>)
    ensures
        r == resolve(views(key_path@), *data, context_stack@, *global_data, compat),
{
    let mut cur = data.copy();
    let mut up: usize = 0;
    let mut first = true;
    let mut i: usize = 0;
    while i < key_path.len()
        invariant
            i <= key_path@.len(),
            up <= i,
            resolve(views(key_path@), *data, context_stack@, *global_data, compat)
                == resolve_from(views(key_path@), i as int, cur, context_stack@, up as nat, *global_data, compat, first),
        decreases key_path@.len() - i,
    {
        let seg = chars_of(key_path[i].as_str());
        if is_this(&seg) {
        } else if is_parent(&seg) {
            if up + 1 <= context_stack.len() {
                cur = context_stack[context_stack.len() - (up + 1)].copy();
            }
            up = up + 1;
        } else if seg.len() > 0 && seg[0] == '@' {
            match global_data.lookup(&seg) {
                Some(v) => {
                    cur = v;
                },
                None => {},
            }
        } else {
            match cur.get_key(&key_path[i]) {
                Some(c) => {
                    cur = c;
                    first = false;
                },
                None => {
                    if compat && first {
                        match search_context_stack(context_stack, &key_path[i]) {
                            Some(c) => {
                                cur = c;
                                first = false;
                            },
                            None => {
                                return None;
                            },
                        }
                    } else {
                        return None;
                    }
                },
            }
        }
        i = i + 1;
    }
    Some(cur)
}

} // verus!
