//! The compiled form of a template, and the parser that produces it.
use vstd::prelude::*;

use crate::context::views;
use crate::expression::{
    expression_of, is_name_char, name_end, options_view, params_view, parse_expression, path_at, segment_at,
    skip_space, space_end, ValueView,
};
use crate::keypath::slice_chars;
use crate::lexer::{blanks_back, blanks_fwd, close_from, plain_text, scan_tag, sigil_at, tag_at, tags_from, tokenize, Tag, TagKind};
use crate::text::{chars_of, is_blank, is_blank_char, is_space, is_space_char, push_all, push_str, string_of};

verus! {

/// A parameter or option value: a quoted literal or a path.
#[derive(Debug)]
pub enum HBValHolder {
    String(String),
    Path(Vec<String>),
}

/// How an expression renders.
#[derive(Debug)]
pub struct RenderOptions {
    /// Whether output goes through the HTML-escaping writer.
    pub escape: bool,
    /// True for `{{^expr}}` sections.
    pub inverse: bool,
    /// Indentation captured before a standalone partial tag.
    pub indent: Option<String>,
    /// An explicit `~` right after the opening delimiter.
    pub no_leading_whitespace: bool,
    /// An explicit `~` right before the closing delimiter.
    pub no_trailing_whitespace: bool,
}

/// One tag's parsed content: a base path, positional parameters, named
/// options, render flags and, for sections, the blocks.
#[derive(Debug)]
pub struct HBExpression {
    pub base: Vec<String>,
    pub params: Vec<HBValHolder>,
    pub options: Vec<(String, HBValHolder)>,
    pub render_options: RenderOptions,
    pub block: Option<Template>,
    pub else_block: Option<Template>,
}

#[derive(Debug)]
pub enum HBEntry {
    Raw(String),
    Eval(HBExpression),
    Partial(HBExpression),
}

/// A compiled template: its entries in order.
pub type Template = Vec<HBEntry>;

#[derive(Debug)]
pub enum ParseError {
    UnkownError,
    /// A close tag names another path than the block it closes.
    UnmatchedBlock,
    /// A close tag with no open block.
    UnexpectedBlockClose,
}

/// The segments of a path joined with dots.
pub open spec fn join_path(base: Seq<String>) -> Seq<char>
    decreases base.len(),
{
    if base.len() == 0 {
        Seq::empty()
    } else if base.len() == 1 {
        base[0]@
    } else {
        join_path(base.drop_last()) + seq!['.'] + base.last()@
    }
}

impl HBExpression {
    /// The base path as text, segments joined with dots.
    pub fn path(&self) -> (r: String)
        ensures
            r@ == join_path(self.base@),
    {
        let mut v: Vec<char> = Vec::new();
        let mut i: usize = 0;
        while i < self.base.len()
            invariant
                i <= self.base@.len(),
                v@ == join_path(self.base@.subrange(0, i as int)),
            decreases self.base@.len() - i,
        {
            if i > 0 {
                v.push('.');
            }
            let seg = chars_of(self.base[i].as_str());
            push_all(&mut v, &seg);
            let ghost t = self.base@.subrange(0, i + 1);
            assert(t.drop_last() == self.base@.subrange(0, i as int));
            i = i + 1;
        }
        assert(self.base@.subrange(0, self.base@.len() as int) == self.base@);
        string_of(&v)
    }
}

/// A compiled expression as plain values.
pub struct ExpView {
    pub base: Seq<Seq<char>>,
    pub params: Seq<ValueView>,
    pub options: Seq<(Seq<char>, ValueView)>,
    pub escape: bool,
    pub inverse: bool,
    pub indent: Option<Seq<char>>,
    pub trim_left: bool,
    pub trim_right: bool,
    pub block: Option<Seq<EntryView>>,
    pub else_block: Option<Seq<EntryView>>,
}

/// A compiled entry as plain values.
pub enum EntryView {
    Raw(Seq<char>),
    Eval(ExpView),
    Partial(ExpView),
}

pub open spec fn expression_view(e: HBExpression) -> ExpView
    decreases e, 0int,
{
    ExpView {
        base: views(e.base@),
        params: params_view(e.params@),
        options: options_view(e.options@),
        escape: e.render_options.escape,
        inverse: e.render_options.inverse,
        indent: match e.render_options.indent {
            Some(s) => Some(s@),
            None => None,
        },
        trim_left: e.render_options.no_leading_whitespace,
        trim_right: e.render_options.no_trailing_whitespace,
        block: match e.block {
            Some(b) => Some(entries_view_from(b@, 0)),
            None => None,
        },
        else_block: match e.else_block {
            Some(b) => Some(entries_view_from(b@, 0)),
            None => None,
        },
    }
}

pub open spec fn entry_view(e: HBEntry) -> EntryView
    decreases e, 0int,
{
    match e {
        HBEntry::Raw(s) => EntryView::Raw(s@),
        HBEntry::Eval(x) => EntryView::Eval(expression_view(x)),
        HBEntry::Partial(x) => EntryView::Partial(expression_view(x)),
    }
}

/// The views of the entries of `es` from position `i` on.
pub open spec fn entries_view_from(es: Seq<HBEntry>, i: int) -> Seq<EntryView>
    decreases es, es.len() - i,
{
    if i < 0 || i >= es.len() {
        Seq::empty()
    } else {
        seq![entry_view(es[i])] + entries_view_from(es, i + 1)
    }
}

/// The view of a compiled template.
pub open spec fn template_view(es: Seq<HBEntry>) -> Seq<EntryView> {
    entries_view_from(es, 0)
}

proof fn lemma_entries_view_push(es: Seq<HBEntry>, x: HBEntry, i: int)
    requires
        0 <= i <= es.len(),
    ensures
        entries_view_from(es.push(x), i) == entries_view_from(es, i).push(entry_view(x)),
    decreases es.len() - i,
{
    if i < es.len() {
        lemma_entries_view_push(es, x, i + 1);
        assert(es.push(x)[i] == es[i]);
        assert(seq![entry_view(es[i])] + entries_view_from(es, i + 1).push(entry_view(x))
            == (seq![entry_view(es[i])] + entries_view_from(es, i + 1)).push(entry_view(x)));
    } else {
        assert(es.push(x)[i] == x);
        assert(entries_view_from(es.push(x), i + 1) == Seq::<EntryView>::empty());
        assert(seq![entry_view(x)] + Seq::<EntryView>::empty() == Seq::<EntryView>::empty().push(entry_view(x)));
    }
}

/// Raw text with its escapes decoded: `\{` stands for `{` and `\\` for `\`.
pub open spec fn decode(s: Seq<char>) -> Seq<char>
    decreases s.len(),
{
    if s.len() == 0 {
        Seq::empty()
    } else if s.len() >= 2 && s[0] == '\\' && (s[1] == '{' || s[1] == '\\') {
        seq![s[1]] + decode(s.subrange(2, s.len() as int))
    } else {
        seq![s[0]] + decode(s.drop_first())
    }
}

proof fn lemma_decode_plain(s: Seq<char>)
    requires
        forall|i: int| 0 <= i < s.len() ==> #[trigger] s[i] != '\\',
    ensures
        decode(s) == s,
    decreases s.len(),
{
    if s.len() > 0 {
        assert(s[0] != '\\');
        assert forall|i: int| 0 <= i < s.drop_first().len() implies #[trigger] s.drop_first()[i] != '\\' by {
            assert(s.drop_first()[i] == s[i + 1]);
        }
        lemma_decode_plain(s.drop_first());
        assert(seq![s[0]] + s.drop_first() == s);
    }
}

/// Appends the raw text `t[a..b]` with its escapes decoded.
fn decode_into(out: &mut Vec<char>, t: &Vec<char>, a: usize, b: usize)
    requires
        a <= b <= t@.len(),
    ensures
        final(out)@ == old(out)@ + decode(t@.subrange(a as int, b as int)),
{
    let mut i = a;
    assert(out@ + decode(t@.subrange(a as int, b as int)) == old(out)@ + decode(t@.subrange(a as int, b as int)));
    while i < b
        invariant
            a <= i <= b,
            b <= t@.len(),
            out@ + decode(t@.subrange(i as int, b as int)) == old(out)@ + decode(t@.subrange(a as int, b as int)),
        decreases b - i,
    {
        let ghost rest = t@.subrange(i as int, b as int);
        let c = t[i];
        if c == '\\' && b - i >= 2 && (t[i + 1] == '{' || t[i + 1] == '\\') {
            out.push(t[i + 1]);
            assert(rest.subrange(2, rest.len() as int) == t@.subrange(i + 2, b as int));
            i = i + 2;
        } else {
            out.push(c);
            assert(rest.drop_first() == t@.subrange(i + 1, b as int));
            i = i + 1;
        }
    }
    assert(t@.subrange(b as int, b as int).len() == 0);
    assert(out@ + Seq::<char>::empty() == out@);
}

/// A block being assembled: the expression that opened it (none for the
/// template itself), its entries, its else entries once `{{else}}` is met,
/// and raw text not yet turned into an entry.
struct Frame {
    opener: Option<HBExpression>,
    entries: Vec<HBEntry>,
    else_entries: Vec<HBEntry>,
    in_else: bool,
    raw: Vec<char>,
}

impl Frame {
    fn new(opener: Option<HBExpression>) -> (r: Frame)
        ensures
            r.opener == opener,
            frame_view(r) == fresh_frame(match opener { Some(e) => Some(expression_view(e)), None => None }),
            r.entries@.len() == 0,
            r.else_entries@.len() == 0,
            !r.in_else,
            r.raw@.len() == 0,
    {
        Frame { opener, entries: Vec::new(), else_entries: Vec::new(), in_else: false, raw: Vec::new() }
    }

    /// Turns pending raw text into an entry of the current branch.
    fn flush_raw(&mut self)
        ensures
            frame_view(*final(self)) == flushed(frame_view(*old(self))),
            final(self).opener == old(self).opener,
            final(self).raw@.len() == 0,
            final(self).in_else == old(self).in_else,
            old(self).raw@.len() == 0 ==> final(self).entries@ == old(self).entries@,
            !old(self).in_else && old(self).raw@.len() > 0 ==> final(self).entries@.len() == old(self).entries@.len() + 1
                && (final(self).entries@.last() matches HBEntry::Raw(s) && s@ == old(self).raw@),
    {
        if self.raw.len() > 0 {
            let text = string_of(&self.raw);
            proof {
                lemma_entries_view_push(self.else_entries@, HBEntry::Raw(text), 0);
                lemma_entries_view_push(self.entries@, HBEntry::Raw(text), 0);
            }
            if self.in_else {
                self.else_entries.push(HBEntry::Raw(text));
            } else {
                self.entries.push(HBEntry::Raw(text));
            }
            self.raw = Vec::new();
        }
    }

    /// Adds an entry to the current branch, after any pending raw text.
    fn append_entry(&mut self, e: HBEntry)
        ensures
            frame_view(*final(self)) == appended(frame_view(*old(self)), entry_view(e)),
            final(self).opener == old(self).opener,
            final(self).in_else == old(self).in_else,
            final(self).in_else ==> final(self).else_entries@.last() == e,
            !final(self).in_else ==> final(self).entries@.last() == e,
    {
        self.flush_raw();
        proof {
            lemma_entries_view_push(self.else_entries@, e, 0);
            lemma_entries_view_push(self.entries@, e, 0);
        }
        if self.in_else {
            self.else_entries.push(e);
        } else {
            self.entries.push(e);
        }
    }
}

/// A block being assembled, as plain values.
pub struct FrameView {
    pub opener: Option<ExpView>,
    pub entries: Seq<EntryView>,
    pub else_entries: Seq<EntryView>,
    pub in_else: bool,
    pub raw: Seq<char>,
}

spec fn frame_view(f: Frame) -> FrameView {
    FrameView {
        opener: match f.opener {
            Some(e) => Some(expression_view(e)),
            None => None,
        },
        entries: entries_view_from(f.entries@, 0),
        else_entries: entries_view_from(f.else_entries@, 0),
        in_else: f.in_else,
        raw: f.raw@,
    }
}

pub open spec fn fresh_frame(opener: Option<ExpView>) -> FrameView {
    FrameView { opener, entries: Seq::empty(), else_entries: Seq::empty(), in_else: false, raw: Seq::empty() }
}

pub open spec fn with_raw(f: FrameView, raw: Seq<char>) -> FrameView {
    FrameView { opener: f.opener, entries: f.entries, else_entries: f.else_entries, in_else: f.in_else, raw }
}

/// Pending raw text turned into an entry of the current branch.
pub open spec fn flushed(f: FrameView) -> FrameView {
    if f.raw.len() == 0 {
        f
    } else if f.in_else {
        FrameView {
            opener: f.opener,
            entries: f.entries,
            else_entries: f.else_entries.push(EntryView::Raw(f.raw)),
            in_else: true,
            raw: Seq::empty(),
        }
    } else {
        FrameView {
            opener: f.opener,
            entries: f.entries.push(EntryView::Raw(f.raw)),
            else_entries: f.else_entries,
            in_else: false,
            raw: Seq::empty(),
        }
    }
}

/// An entry added to the current branch, after any pending raw text.
pub open spec fn appended(f: FrameView, e: EntryView) -> FrameView {
    let g = flushed(f);
    if g.in_else {
        FrameView { opener: g.opener, entries: g.entries, else_entries: g.else_entries.push(e), in_else: true, raw: g.raw }
    } else {
        FrameView { opener: g.opener, entries: g.entries.push(e), else_entries: g.else_entries, in_else: false, raw: g.raw }
    }
}

/// Where the raw text before a tag ends, where the text after it resumes,
/// and the indentation a standalone partial captures.
pub open spec fn tag_cuts(t: Seq<char>, g: Tag, pos: int) -> (int, int, Option<Seq<char>>) {
    let ls = line_start_of(t, g.start as int);
    let after = rest_of_line_of(t, g.end as int);
    let standalone = elides_kind(g.kind) && blank_between(t, ls, g.start as int) && after is Some;
    let cut_before = if g.trim_left {
        space_before_of(t, g.start as int, pos)
    } else if standalone {
        ls
    } else {
        g.start as int
    };
    let indent = if !g.trim_left && standalone && g.kind is Partial && ls < g.start {
        Some(t.subrange(ls, g.start as int))
    } else {
        None
    };
    let cut_after = if g.trim_right {
        space_after_of(t, g.end as int)
    } else if standalone {
        after->0
    } else {
        g.end as int
    };
    (cut_before, cut_after, indent)
}

/// The expression of a tag, with the tag's trim markers.
pub open spec fn tag_expression(t: Seq<char>, g: Tag) -> ExpView {
    let x = expression_of(t, g.inner_start as int, g.inner_end as int);
    ExpView {
        base: x.0,
        params: x.1,
        options: x.2,
        escape: !(g.kind is Unescaped),
        inverse: g.kind is Inverse,
        indent: None,
        trim_left: g.trim_left,
        trim_right: g.trim_right,
        block: None,
        else_block: None,
    }
}

pub open spec fn with_indent(e: ExpView, indent: Option<Seq<char>>) -> ExpView {
    ExpView {
        base: e.base,
        params: e.params,
        options: e.options,
        escape: e.escape,
        inverse: e.inverse,
        indent,
        trim_left: e.trim_left,
        trim_right: e.trim_right,
        block: e.block,
        else_block: e.else_block,
    }
}

pub open spec fn with_blocks(e: ExpView, block: Seq<EntryView>, else_block: Option<Seq<EntryView>>) -> ExpView {
    ExpView {
        base: e.base,
        params: e.params,
        options: e.options,
        escape: e.escape,
        inverse: e.inverse,
        indent: e.indent,
        trim_left: e.trim_left,
        trim_right: e.trim_right,
        block: Some(block),
        else_block,
    }
}

/// One tag's effect on the blocks being assembled (innermost last) and on
/// the position up to which the text is consumed.
pub open spec fn assemble_step(t: Seq<char>, g: Tag, frames: Seq<FrameView>, pos: int) -> (Seq<FrameView>, int) {
    let (cut_before, cut_after, indent) = tag_cuts(t, g, pos);
    let last = frames.len() - 1;
    let cur0 = frames.last();
    let cur = if cut_before > pos { with_raw(cur0, cur0.raw + decode(t.subrange(pos, cut_before))) } else { cur0 };
    let ev = tag_expression(t, g);
    let next = match g.kind {
        TagKind::Value => frames.update(last, appended(cur, EntryView::Eval(ev))),
        TagKind::Unescaped => frames.update(last, appended(cur, EntryView::Eval(ev))),
        TagKind::Partial => frames.update(last, appended(cur, EntryView::Partial(with_indent(ev, indent)))),
        TagKind::Block => frames.update(last, cur).push(fresh_frame(Some(ev))),
        TagKind::Inverse => frames.update(last, cur).push(fresh_frame(Some(ev))),
        TagKind::Else => if cur.opener is Some && !cur.in_else {
            let f = flushed(cur);
            frames.update(last, FrameView { opener: f.opener, entries: f.entries, else_entries: f.else_entries, in_else: true, raw: f.raw })
        } else {
            frames.update(last, cur)
        },
        TagKind::Close => if frames.len() >= 2 && cur.opener is Some {
            let done = flushed(cur);
            let closed = with_blocks(done.opener->0, done.entries, if done.in_else { Some(done.else_entries) } else { None });
            frames.drop_last().update(last - 1, appended(frames[last - 1], EntryView::Eval(closed)))
        } else {
            frames
        },
        TagKind::Comment => frames.update(last, cur),
    };
    (next, if cut_after > pos { cut_after } else { pos })
}

/// The blocks being assembled and the consumed position after `tags[0..k]`.
pub open spec fn assemble(t: Seq<char>, tags: Seq<Tag>, k: int) -> (Seq<FrameView>, int)
    decreases k,
{
    if k <= 0 {
        (seq![fresh_frame(None)], 0)
    } else {
        let (frames, pos) = assemble(t, tags, k - 1);
        assemble_step(t, tags[k - 1], frames, pos)
    }
}

/// The entries that a template text compiles to (when it compiles): the
/// template's own block once every tag is assembled and the text after the
/// last tag is added.
pub open spec fn compiled(t: Seq<char>) -> Seq<EntryView> {
    let tags = tags_from(t, 0);
    let (frames, pos) = assemble(t, tags, tags.len() as int);
    let cur = frames.last();
    flushed(with_raw(cur, cur.raw + decode(t.subrange(pos, t.len() as int)))).entries
}

/// Whether two paths have the same segments.
fn same_path(a: &Vec<String>, b: &Vec<String>) -> (r: bool)
    ensures
        r == (views(a@) == views(b@)),
{
    if a.len() != b.len() {
        assert(views(a@).len() != views(b@).len());
        return false;
    }
    let mut i: usize = 0;
    while i < a.len()
        invariant
            i <= a@.len(),
            a@.len() == b@.len(),
            forall|j: int| 0 <= j < i ==> a@[j]@ == b@[j]@,
        decreases a@.len() - i,
    {
        if a[i] != b[i] {
            assert(views(a@)[i as int] != views(b@)[i as int]);
            return false;
        }
        i = i + 1;
    }
    assert(views(a@) =~= views(b@));
    true
}

/// Where the line holding position `s` starts.
pub open spec fn line_start_of(t: Seq<char>, s: int) -> int
    decreases s,
{
    if 0 < s <= t.len() && t[s - 1] != '\n' {
        line_start_of(t, s - 1)
    } else {
        s
    }
}

fn line_start(t: &Vec<char>, s: usize) -> (r: usize)
    requires
        s <= t@.len(),
    ensures
        r <= s,
        r == line_start_of(t@, s as int),
{
    let mut k = s;
    while k > 0 && t[k - 1] != '\n'
        invariant
            k <= s <= t@.len(),
            line_start_of(t@, s as int) == line_start_of(t@, k as int),
        decreases k,
    {
        k = k - 1;
    }
    k
}

pub open spec fn blank_between(t: Seq<char>, a: int, b: int) -> bool {
    forall|i: int| a <= i < b ==> is_blank_char(#[trigger] t[i])
}

fn all_blank(t: &Vec<char>, a: usize, b: usize) -> (r: bool)
    requires
        a <= b <= t@.len(),
    ensures
        r == blank_between(t@, a as int, b as int),
{
    let mut k = a;
    while k < b
        invariant
            a <= k <= b <= t@.len(),
            blank_between(t@, a as int, k as int),
        decreases b - k,
    {
        if !is_blank(t[k]) {
            return false;
        }
        k = k + 1;
    }
    true
}

/// When only blanks follow `e` up to the end of its line, the position after
/// that line's break (or the end of the text).
pub open spec fn rest_of_line_of(t: Seq<char>, e: int) -> Option<int> {
    let n = t.len() as int;
    let k = blanks_fwd(t, e, n);
    if k == n {
        Some(n)
    } else if t[k] == '\n' {
        Some(k + 1)
    } else if t[k] == '\r' && k + 1 < n && t[k + 1] == '\n' {
        Some(k + 2)
    } else {
        None
    }
}

fn rest_of_line(t: &Vec<char>, e: usize) -> (r: Option<usize>)
    requires
        e <= t@.len(),
    ensures
        r matches Some(x) ==> e <= x <= t@.len() && rest_of_line_of(t@, e as int) == Some(x as int),
        r is None ==> rest_of_line_of(t@, e as int) is None,
{
    let n = t.len();
    let mut k = e;
    while k < n && is_blank(t[k])
        invariant
            e <= k <= n,
            n == t@.len(),
            blanks_fwd(t@, e as int, n as int) == blanks_fwd(t@, k as int, n as int),
        decreases n - k,
    {
        k = k + 1;
    }
    if k == n {
        Some(n)
    } else if t[k] == '\n' {
        Some(k + 1)
    } else if t[k] == '\r' && k + 1 < n && t[k + 1] == '\n' {
        Some(k + 2)
    } else {
        None
    }
}

/// Start of the run of white space that ends at `s`, no further back than `floor`.
pub open spec fn space_before_of(t: Seq<char>, s: int, floor: int) -> int
    decreases s,
{
    if s > floor && 0 < s <= t.len() && is_space_char(t[s - 1]) {
        space_before_of(t, s - 1, floor)
    } else {
        s
    }
}

fn space_before(t: &Vec<char>, s: usize, floor: usize) -> (r: usize)
    requires
        s <= t@.len(),
    ensures
        r <= s,
        floor <= s ==> floor <= r,
        r == space_before_of(t@, s as int, floor as int),
{
    let mut k = s;
    while k > floor && is_space(t[k - 1])
        invariant
            k <= s <= t@.len(),
            floor <= s ==> floor <= k,
            space_before_of(t@, s as int, floor as int) == space_before_of(t@, k as int, floor as int),
        decreases k,
    {
        k = k - 1;
    }
    k
}

/// End of the run of white space that starts at `e`.
pub open spec fn space_after_of(t: Seq<char>, e: int) -> int
    decreases t.len() - e,
{
    if 0 <= e < t.len() && is_space_char(t[e]) {
        space_after_of(t, e + 1)
    } else {
        e
    }
}

fn space_after(t: &Vec<char>, e: usize) -> (r: usize)
    requires
        e <= t@.len(),
    ensures
        e <= r <= t@.len(),
        r == space_after_of(t@, e as int),
{
    let mut k = e;
    while k < t.len() && is_space(t[k])
        invariant
            e <= k <= t@.len(),
            space_after_of(t@, e as int) == space_after_of(t@, k as int),
        decreases t@.len() - k,
    {
        k = k + 1;
    }
    k
}

/// `‘close’ does not match ‘open’`, or `‘close’ does not close any block`.
fn block_message(close: &HBExpression, open: Option<&HBExpression>) -> String {
    let mut v: Vec<char> = Vec::new();
    push_str(&mut v, "\u{2018}");
    let c = chars_of(close.path().as_str());
    push_all(&mut v, &c);
    match open {
        Some(o) => {
            push_str(&mut v, "\u{2019} does not match \u{2018}");
            let oc = chars_of(o.path().as_str());
            push_all(&mut v, &oc);
            push_str(&mut v, "\u{2019}");
        },
        None => {
            push_str(&mut v, "\u{2019} does not close any block");
        },
    }
    string_of(&v)
}

/// Whether standalone white space elision applies to tags of this kind.
pub open spec fn elides_kind(k: TagKind) -> bool {
    !(k is Value) && !(k is Unescaped)
}

fn elides(k: TagKind) -> (r: bool)
    ensures
        r == elides_kind(k),
{
    !matches!(k, TagKind::Value) && !matches!(k, TagKind::Unescaped)
}

/// The paths of the sections left open by the tags `tags[0..k]` of `t`,
/// innermost last, or the error that the first close tag that fails raises:
/// `UnexpectedBlockClose` when nothing is open, `UnmatchedBlock` when it
/// names another path than the innermost open section.
pub open spec fn open_blocks(t: Seq<char>, tags: Seq<Tag>, k: int) -> Result<Seq<Seq<Seq<char>>>, ParseError>
    decreases k,
{
    if k <= 0 {
        Ok(Seq::empty())
    } else {
        match open_blocks(t, tags, k - 1) {
            Err(e) => Err(e),
            Ok(st) => {
                let g = tags[k - 1];
                let base = expression_of(t, g.inner_start as int, g.inner_end as int).0;
                match g.kind {
                    TagKind::Block => Ok(st.push(base)),
                    TagKind::Inverse => Ok(st.push(base)),
                    TagKind::Close => if st.len() == 0 {
                        Err(ParseError::UnexpectedBlockClose)
                    } else if st.last() != base {
                        Err(ParseError::UnmatchedBlock)
                    } else {
                        Ok(st.drop_last())
                    },
                    _ => Ok(st),
                }
            },
        }
    }
}

/// Why a template text does not compile: a close tag that fails, or a
/// section left open at the end (`UnmatchedBlock`); none when it compiles.
pub open spec fn block_error(t: Seq<char>) -> Option<ParseError> {
    let tags = tags_from(t, 0);
    match open_blocks(t, tags, tags.len() as int) {
        Err(e) => Some(e),
        Ok(st) => if st.len() > 0 {
            Some(ParseError::UnmatchedBlock)
        } else {
            None
        },
    }
}

proof fn lemma_open_blocks_error_stays(t: Seq<char>, tags: Seq<Tag>, k: int, m: int, e: ParseError)
    requires
        k <= m,
        open_blocks(t, tags, k) == Err::<Seq<Seq<Seq<char>>>, ParseError>(e),
    ensures
        open_blocks(t, tags, m) == Err::<Seq<Seq<Seq<char>>>, ParseError>(e),
    decreases m - k,
{
    if k < m {
        lemma_open_blocks_error_stays(t, tags, k, m - 1, e);
    }
}

spec fn opener_base(f: Frame) -> Seq<Seq<char>> {
    match f.opener {
        Some(e) => views(e.base@),
        None => Seq::empty(),
    }
}

/// The paths of the open sections while assembling: the frames below the
/// template's own, and the current one.
spec fn frame_bases(stack: Seq<Frame>, cur: Frame) -> Seq<Seq<Seq<char>>> {
    if stack.len() == 0 {
        Seq::empty()
    } else {
        stack.subrange(1, stack.len() as int).map_values(|f: Frame| opener_base(f)).push(opener_base(cur))
    }
}

spec fn frames_wf(stack: Seq<Frame>, cur: Frame) -> bool {
    &&& stack.len() == 0 ==> cur.opener is None
    &&& stack.len() > 0 ==> cur.opener is Some && stack[0].opener is None
    &&& forall|j: int| 0 < j < stack.len() ==> (#[trigger] stack[j]).opener is Some
}

proof fn lemma_push_frame(stack: Seq<Frame>, cur: Frame, next: Frame)
    requires
        frames_wf(stack, cur),
        next.opener is Some,
    ensures
        frame_bases(stack.push(cur), next) == frame_bases(stack, cur).push(opener_base(next)),
        frames_wf(stack.push(cur), next),
{
    let s2 = stack.push(cur);
    if stack.len() == 0 {
        assert(s2.subrange(1, s2.len() as int) =~= Seq::<Frame>::empty());
        assert(s2.subrange(1, s2.len() as int).map_values(|f: Frame| opener_base(f)) =~= Seq::<Seq<Seq<char>>>::empty());
        assert(frame_bases(stack, cur) =~= Seq::<Seq<Seq<char>>>::empty());
    } else {
        assert(s2.subrange(1, s2.len() as int) =~= stack.subrange(1, stack.len() as int).push(cur));
        assert(s2.subrange(1, s2.len() as int).map_values(|f: Frame| opener_base(f))
            =~= stack.subrange(1, stack.len() as int).map_values(|f: Frame| opener_base(f)).push(opener_base(cur)));
    }
    assert forall|j: int| 0 < j < s2.len() implies (#[trigger] s2[j]).opener is Some by {
        if j < stack.len() {
            assert(s2[j] == stack[j]);
        }
    }
}

proof fn lemma_pop_frame(stack: Seq<Frame>, cur: Frame)
    requires
        frames_wf(stack, cur),
        stack.len() > 0,
    ensures
        frame_bases(stack.drop_last(), stack.last()) == frame_bases(stack, cur).drop_last(),
        frames_wf(stack.drop_last(), stack.last()),
{
    let s2 = stack.drop_last();
    let m = stack.subrange(1, stack.len() as int).map_values(|f: Frame| opener_base(f));
    assert(frame_bases(stack, cur).drop_last() =~= m);
    if s2.len() == 0 {
        assert(m =~= Seq::<Seq<Seq<char>>>::empty());
    } else {
        assert(s2.subrange(1, s2.len() as int).map_values(|f: Frame| opener_base(f)).push(opener_base(stack.last())) =~= m);
        assert(stack.last() == stack[stack.len() - 1]);
    }
    assert forall|j: int| 0 < j < s2.len() implies (#[trigger] s2[j]).opener is Some by {
        assert(s2[j] == stack[j]);
    }
}

spec fn clean_opener(e: Option<HBExpression>) -> bool {
    match e {
        Some(x) => x.block is None && x.else_block is None,
        None => true,
    }
}

spec fn openers_clean(stack: Seq<Frame>, cur: Frame) -> bool {
    &&& clean_opener(cur.opener)
    &&& forall|j: int| 0 <= j < stack.len() ==> clean_opener(#[trigger] stack[j].opener)
}

/// The entries of a template that holds no tag: its text as one raw entry,
/// or nothing for the empty text.
pub open spec fn raw_only(es: Seq<HBEntry>, text: Seq<char>) -> bool {
    if text.len() == 0 {
        es.len() == 0
    } else {
        es.len() == 1 && (es[0] matches HBEntry::Raw(s) && s@ == text)
    }
}

/// Compiles a template.
///
/// Tags are `{{expr}}` (escaped value), `{{{expr}}}` and `{{&expr}}` (raw
/// value), `{{#expr}}` and `{{^expr}}` (section and inverted section, closed
/// by `{{/expr}}` with the same path, with an optional `{{else}}` or `{{^}}`),
/// `{{>name}}` (partial) and `{{!text}}` (comment). A section, else, close,
/// partial or comment tag alone on its line takes the blanks before it and
/// the line break after it out of the output; a standalone partial keeps the
/// blanks before it as output and as the indentation of its lines. A `~`
/// inside a tag's braces removes all white space on that side.
///
/// Fails with `UnmatchedBlock` when a close tag names another path than the
/// open section (or a section is never closed), and with
/// `UnexpectedBlockClose` when a close tag closes nothing.
#[verifier::rlimit(80)]
pub fn parse(template: &str) -> (r: Result<Template, (ParseError, Option<String>)>)
    ensures
        r is Ok <==> block_error(template@) is None,
        r matches Err((e, _)) ==> block_error(template@) == Some(e),
        r matches Ok(es) ==> template_view(es@) == compiled(template@),
        plain_text(template@) ==> (r matches Ok(es) && raw_only(es@, template@)),
{
    let t = chars_of(template);
    let n = t.len();
    let tags = tokenize(&t);
    let mut cur = Frame::new(None);
    let mut stack: Vec<Frame> = Vec::new();
    let mut pos: usize = 0;
    let mut k: usize = 0;
    while k < tags.len()
        invariant
            n == t@.len(),
            pos <= n,
            k <= tags@.len(),
            forall|j: int| 0 <= j < tags@.len() ==> (#[trigger] tags@[j]).wf(n as nat),
            t@ == template@,
            plain_text(t@) ==> tags@.len() == 0,
            tags@.len() == 0 ==> pos == 0 && cur.entries@.len() == 0 && cur.raw@.len() == 0 && !cur.in_else
                && stack@.len() == 0,
            tags@ == tags_from(t@, 0),
            open_blocks(t@, tags@, k as int) == Ok::<Seq<Seq<Seq<char>>>, ParseError>(frame_bases(stack@, cur)),
            frames_wf(stack@, cur),
            assemble(t@, tags@, k as int) == (stack@.map_values(|f: Frame| frame_view(f)).push(frame_view(cur)), pos as int),
            openers_clean(stack@, cur),
        decreases tags@.len() - k,
    {
        let g = tags[k];
        let ghost sv = stack@.map_values(|f: Frame| frame_view(f));
        let ghost frames0 = sv.push(frame_view(cur));
        let ghost cur_before = frame_view(cur);
        let ghost pos0 = pos as int;
        assert(g.wf(n as nat));
        let ls = line_start(&t, g.start);
        let after_line = rest_of_line(&t, g.end);
        let standalone = elides(g.kind) && all_blank(&t, ls, g.start) && after_line.is_some();
        let mut cut_before = g.start;
        let mut indent: Option<String> = None;
        if g.trim_left {
            cut_before = space_before(&t, g.start, pos);
        } else if standalone {
            if matches!(g.kind, TagKind::Partial) && ls < g.start {
                indent = Some(string_of(&slice_chars(&t, ls, g.start)));
            }
            cut_before = ls;
        }
        let mut cut_after = g.end;
        if g.trim_right {
            cut_after = space_after(&t, g.end);
        } else if standalone {
            match after_line {
                Some(x) => {
                    cut_after = x;
                },
                None => {},
            }
        }
        if cut_before > pos {
            decode_into(&mut cur.raw, &t, pos, cut_before);
        }
        let ghost cur_mid = frame_view(cur);
        proof {
            assert(tags@[k as int] == g);
            assert(tag_cuts(t@, g, pos0).0 == cut_before as int);
            assert(tag_cuts(t@, g, pos0).1 == cut_after as int);
            assert(tag_cuts(t@, g, pos0).2 == match indent { Some(x) => Some(x@), None => None::<Seq<char>> });
            assert(frames0.last() == cur_before);
            if cut_before > pos0 {
                assert(cur_mid == with_raw(cur_before, cur_before.raw + decode(t@.subrange(pos0, cut_before as int))));
            } else {
                assert(cur_mid == cur_before);
            }
        }
        let mut exp = parse_expression(&t, g.inner_start, g.inner_end);
        exp.render_options.no_leading_whitespace = g.trim_left;
        exp.render_options.no_trailing_whitespace = g.trim_right;
        let ghost base = expression_of(t@, g.inner_start as int, g.inner_end as int).0;
        let ghost old_stack = stack@;
        let ghost old_cur = cur;
        let ghost old_bases = frame_bases(stack@, cur);
        let ghost ev = tag_expression(t@, g);
        assert(views(exp.base@) == base);
        assert(tags@[k as int] == g);
        assert(frame_bases(stack@, cur) == frame_bases(old_stack, old_cur));
        match g.kind {
            TagKind::Value => {
                assert(expression_view(exp) == ev);
                cur.append_entry(HBEntry::Eval(exp));
                proof {
                    assert(sv.push(frame_view(cur)) =~= frames0.update(sv.len() as int, frame_view(cur)));
                }
            },
            TagKind::Unescaped => {
                exp.render_options.escape = false;
                assert(expression_view(exp) == ev);
                cur.append_entry(HBEntry::Eval(exp));
                proof {
                    assert(sv.push(frame_view(cur)) =~= frames0.update(sv.len() as int, frame_view(cur)));
                }
            },
            TagKind::Partial => {
                exp.render_options.indent = indent;
                assert(expression_view(exp) == with_indent(ev, tag_cuts(t@, g, pos0).2));
                cur.append_entry(HBEntry::Partial(exp));
                proof {
                    assert(sv.push(frame_view(cur)) =~= frames0.update(sv.len() as int, frame_view(cur)));
                }
            },
            TagKind::Block => {
                assert(expression_view(exp) == ev);
                let parent = cur;
                stack.push(parent);
                cur = Frame::new(Some(exp));
                proof {
                    lemma_push_frame(old_stack, old_cur, cur);
                    assert(stack@.map_values(|f: Frame| frame_view(f)) =~= sv.push(cur_mid));
                    assert(sv.push(cur_mid) =~= frames0.update(sv.len() as int, cur_mid));
                }
            },
            TagKind::Inverse => {
                exp.render_options.inverse = true;
                assert(expression_view(exp) == ev);
                let parent = cur;
                stack.push(parent);
                cur = Frame::new(Some(exp));
                proof {
                    lemma_push_frame(old_stack, old_cur, cur);
                    assert(stack@.map_values(|f: Frame| frame_view(f)) =~= sv.push(cur_mid));
                    assert(sv.push(cur_mid) =~= frames0.update(sv.len() as int, cur_mid));
                }
            },
            TagKind::Else => {
                if cur.opener.is_some() && !cur.in_else {
                    cur.flush_raw();
                    cur.in_else = true;
                }
                proof {
                    assert(sv.push(frame_view(cur)) =~= frames0.update(sv.len() as int, frame_view(cur)));
                }
            },
            TagKind::Close => {
                match stack.pop() {
                    None => {
                        let msg = block_message(&exp, None);
                        proof {
                            lemma_open_blocks_error_stays(t@, tags@, k + 1, tags@.len() as int, ParseError::UnexpectedBlockClose);
                        }
                        return Err((ParseError::UnexpectedBlockClose, Some(msg)));
                    },
                    Some(parent) => {
                        let ghost parent_view = frame_view(parent);
                        let mut done = cur;
                        cur = parent;
                        done.flush_raw();
                        let ghost done_view = frame_view(done);
                        match done.opener {
                            Some(mut open) => {
                                if !same_path(&open.base, &exp.base) {
                                    let msg = block_message(&exp, Some(&open));
                                    proof {
                                        lemma_open_blocks_error_stays(t@, tags@, k + 1, tags@.len() as int, ParseError::UnmatchedBlock);
                                    }
                                    return Err((ParseError::UnmatchedBlock, Some(msg)));
                                }
                                proof {
                                    lemma_pop_frame(old_stack, old_cur);
                                }
                                let ghost open_view = expression_view(open);
                                open.block = Some(done.entries);
                                if done.in_else {
                                    open.else_block = Some(done.else_entries);
                                }
                                assert(expression_view(open) == with_blocks(open_view, done_view.entries,
                                    if done_view.in_else { Some(done_view.else_entries) } else { None }));
                                cur.append_entry(HBEntry::Eval(open));
                                proof {
                                    assert(old_stack.drop_last() == stack@);
                                    assert(old_stack.last() == parent);
                                    assert(sv =~= stack@.map_values(|f: Frame| frame_view(f)).push(parent_view));
                                    assert(stack@.map_values(|f: Frame| frame_view(f)).push(frame_view(cur)) =~= frames0.drop_last().update(sv.len() - 1, frame_view(cur)));
                                }
                            },
                            None => {
                                return Err((ParseError::UnkownError, None));
                            },
                        }
                    },
                }
            },
            TagKind::Comment => {
                proof {
                    assert(sv.push(frame_view(cur)) =~= frames0.update(sv.len() as int, frame_view(cur)));
                }
            },
        }
        if cut_after > pos {
            pos = cut_after;
        }
        k = k + 1;
    }
    decode_into(&mut cur.raw, &t, pos, n);
    if stack.len() > 0 {
        assert(frame_bases(stack@, cur).len() > 0);
        let msg = match &cur.opener {
            Some(open) => {
                let mut v: Vec<char> = Vec::new();
                push_str(&mut v, "\u{2018}");
                let c = chars_of(open.path().as_str());
                push_all(&mut v, &c);
                push_str(&mut v, "\u{2019} is not closed");
                Some(string_of(&v))
            },
            None => None,
        };
        return Err((ParseError::UnmatchedBlock, msg));
    }
    proof {
        if plain_text(template@) {
            assert(t@.subrange(0, n as int) == t@);
            assert forall|i: int| 0 <= i < t@.len() implies #[trigger] t@[i] != '\\' by {
                assert(t@[i] != '\\');
            }
            lemma_decode_plain(t@);
        }
    }
    cur.flush_raw();
    proof {
        assert(stack@.map_values(|f: Frame| frame_view(f)) =~= Seq::<FrameView>::empty());
    }
    Ok(cur.entries)
}

pub open spec fn opt_view(s: Option<String>) -> Option<Seq<char>> {
    match s {
        Some(x) => Some(x@),
        None => None,
    }
}

/// The tag that a text holding one tag (with white space around it) shows.
pub open spec fn lone_tag(t: Seq<char>) -> Option<Tag> {
    let n = t.len() as int;
    let lead = space_end(t, 0, n);
    if lead + 2 <= n && t[lead] == '{' && t[lead + 1] == '{' {
        tag_at(t, lead)
    } else {
        None
    }
}

/// Parses one tag as it stands in a template, with any white space around
/// it: the white space before the tag, the expression, and the white space
/// after. Text without a tag is read as a bare expression.
pub fn parse_hb_expression(exp: &str) -> (r: Result<(Option<String>, HBExpression, Option<String>), (ParseError, Option<String>)>)
    ensures
        r is Ok,
        r matches Ok((_, e, _)) ==> match lone_tag(exp@) {
            Some(g) => (views(e.base@), params_view(e.params@), options_view(e.options@))
                == expression_of(exp@, g.inner_start as int, g.inner_end as int)
                && e.render_options.escape == !(g.kind is Unescaped)
                && e.render_options.inverse == (g.kind is Inverse)
                && e.render_options.no_leading_whitespace == g.trim_left
                && e.render_options.no_trailing_whitespace == g.trim_right,
            None => (views(e.base@), params_view(e.params@), options_view(e.options@))
                == expression_of(exp@, 0, exp@.len() as int),
        },
        r matches Ok((before, _, after)) ==> {
            let n = exp@.len() as int;
            let lead = space_end(exp@, 0, n);
            match lone_tag(exp@) {
                Some(g) => opt_view(before) == (if lead > 0 { Some(exp@.subrange(0, lead)) } else { None })
                    && opt_view(after) == (if g.end < n { Some(exp@.subrange(g.end as int, n)) } else { None }),
                None => before is None && after is None,
            }
        },
{
    let t = chars_of(exp);
    let n = t.len();
    let lead = skip_space(&t, 0, n);
    if lead < n && n - lead >= 2 && t[lead] == '{' && t[lead + 1] == '{' {
        match scan_tag(&t, lead) {
            Some(g) => {
                let mut e = parse_expression(&t, g.inner_start, g.inner_end);
                e.render_options.no_leading_whitespace = g.trim_left;
                e.render_options.no_trailing_whitespace = g.trim_right;
                if matches!(g.kind, TagKind::Unescaped) {
                    e.render_options.escape = false;
                }
                if matches!(g.kind, TagKind::Inverse) {
                    e.render_options.inverse = true;
                }
                let before = if lead > 0 { Some(string_of(&slice_chars(&t, 0, lead))) } else { None };
                let after = if g.end < n { Some(string_of(&slice_chars(&t, g.end, n))) } else { None };
                return Ok((before, e, after));
            },
            None => {},
        }
    }
    Ok((None, parse_expression(&t, 0, n), None))
}

proof fn lemma_close_run(x: Seq<char>, a: int, e: int)
    requires
        0 <= a <= e,
        e + 2 <= x.len(),
        forall|c: int| a <= c < e ==> #[trigger] x[c] != '}',
        x[e] == '}',
        x[e + 1] == '}',
    ensures
        close_from(x, a, false) == Some(e),
    decreases e - a,
{
    if a < e {
        lemma_close_run(x, a + 1, e);
    }
}

proof fn lemma_name_run(x: Seq<char>, a: int, e: int, b: int)
    requires
        0 <= a <= e <= b <= x.len(),
        forall|c: int| a <= c < e ==> is_name_char(#[trigger] x[c]),
        e == b,
    ensures
        name_end(x, a, b) == e,
    decreases e - a,
{
    if a < e {
        lemma_name_run(x, a + 1, e, b);
    }
}

/// The segment that a name stands for: `this` is `.`.
pub open spec fn name_segment(w: Seq<char>) -> Seq<char> {
    if w == seq!['t', 'h', 'i', 's'] { seq!['.'] } else { w }
}

/// A tag `{{` + sigil + name + `}}` at `p`.
proof fn lemma_simple_tag(x: Seq<char>, p: int, sig: char, w: Seq<char>)
    requires
        0 <= p,
        sig == '#' || sig == '/',
        w.len() > 0,
        forall|i: int| 0 <= i < w.len() ==> is_name_char(#[trigger] w[i]),
        p + 5 + w.len() <= x.len(),
        x.len() <= usize::MAX,
        x[p] == '{',
        x[p + 1] == '{',
        x[p + 2] == sig,
        x.subrange(p + 3, p + 3 + w.len()) == w,
        x[p + 3 + w.len()] == '}',
        x[p + 4 + w.len()] == '}',
    ensures
        tag_at(x, p) matches Some(g) && g.start == p && g.inner_start == p + 3 && g.inner_end == p + 3 + w.len()
            && g.end == p + 5 + w.len() && (if sig == '#' { g.kind is Block } else { g.kind is Close }),
        expression_of(x, p + 3, p + 3 + w.len()).0 == seq![name_segment(w)],
{
    let b = p + 3 + w.len();
    assert forall|c: int| p + 3 <= c < b implies #[trigger] x[c] != '}' && is_name_char(x[c]) by {
        assert(x[c] == x.subrange(p + 3, b)[c - (p + 3)]);
        assert(is_name_char(w[c - (p + 3)]));
    }
    lemma_close_run(x, p + 3, b);
    assert(sigil_at(x, p + 2).2 == p + 3);
    assert(x[b - 1] == w[w.len() - 1]);
    assert(!is_blank_char(x[b - 1]));
    assert(x[b - 1] != '~');
    assert(sigil_at(x, p + 2).1 == false);
    assert(blanks_back(x, p + 3, b) == b);
    assert(x[p + 3] == w[0]);
    assert(blanks_fwd(x, p + 3, b) == p + 3);
    assert(space_end(x, p + 3, b) == p + 3);
    lemma_name_run(x, p + 4, b, b);
    assert(segment_at(x, p + 3, b) == Some((name_segment(x.subrange(p + 3, b)), b)));
    assert(path_at(x, p + 3, b) == (seq![name_segment(w)], b));
}

/// A section closed by a tag that names another path does not compile:
/// `{{#o}}{{/t}}` fails with `UnmatchedBlock` for any two distinct names.
#[verifier::rlimit(100)]
pub proof fn lemma_mismatched_close_fails(o: Seq<char>, t: Seq<char>)
    requires
        o.len() > 0,
        t.len() > 0,
        forall|i: int| 0 <= i < o.len() ==> is_name_char(#[trigger] o[i]),
        forall|i: int| 0 <= i < t.len() ==> is_name_char(#[trigger] t[i]),
        o != t,
        o.len() + t.len() + 10 <= usize::MAX,
    ensures
        block_error(seq!['{', '{', '#'] + o + seq!['}', '}', '{', '{', '/'] + t + seq!['}', '}'])
            == Some(ParseError::UnmatchedBlock),
{
    let x = seq!['{', '{', '#'] + o + seq!['}', '}', '{', '{', '/'] + t + seq!['}', '}'];
    let lo = o.len() as int;
    let lt = t.len() as int;
    assert(x.len() == 10 + lo + lt);
    assert(x.subrange(3, 3 + lo) =~= o);
    assert(x.subrange(8 + lo, 8 + lo + lt) =~= t);
    assert(x[0] == '{' && x[1] == '{' && x[2] == '#');
    assert(x[3 + lo] == '}' && x[4 + lo] == '}' && x[5 + lo] == '{' && x[6 + lo] == '{' && x[7 + lo] == '/');
    assert(x[8 + lo + lt] == '}' && x[9 + lo + lt] == '}');
    lemma_simple_tag(x, 0, '#', o);
    lemma_simple_tag(x, 5 + lo, '/', t);
    let g1 = tag_at(x, 0)->0;
    let g2 = tag_at(x, 5 + lo)->0;
    assert(tags_from(x, 10 + lo + lt) == Seq::<Tag>::empty());
    assert(tags_from(x, 5 + lo) == seq![g2]);
    assert(tags_from(x, 0) == seq![g1] + seq![g2]);
    let tags = tags_from(x, 0);
    assert(tags =~= seq![g1, g2]);
    assert(open_blocks(x, tags, 0) == Ok::<Seq<Seq<Seq<char>>>, ParseError>(Seq::empty()));
    assert(open_blocks(x, tags, 1) == Ok::<Seq<Seq<Seq<char>>>, ParseError>(seq![seq![name_segment(o)]]));
    assert(name_segment(o) != name_segment(t)) by {
        if o == seq!['t', 'h', 'i', 's'] {
            assert(t != seq!['.']) by {
                if t == seq!['.'] {
                    assert(is_name_char(t[0]));
                }
            }
        } else if t == seq!['t', 'h', 'i', 's'] {
            assert(o != seq!['.']) by {
                if o == seq!['.'] {
                    assert(is_name_char(o[0]));
                }
            }
        }
    }
    assert(seq![name_segment(o)] != seq![name_segment(t)]) by {
        if seq![name_segment(o)] == seq![name_segment(t)] {
            assert(seq![name_segment(o)][0] == seq![name_segment(t)][0]);
        }
    }
    assert(open_blocks(x, tags, 2) == Err::<Seq<Seq<Seq<char>>>, ParseError>(ParseError::UnmatchedBlock));
}

/// Compiling is a function of the text: whatever `parse` returns for a text
/// is described by `compiled` and `block_error` of that text alone, so two
/// compilations of one text give entries equal in structure and content.
pub proof fn lemma_compiling_twice_agrees(text: Seq<char>, a: Seq<HBEntry>, b: Seq<HBEntry>)
    requires
        template_view(a) == compiled(text),
        template_view(b) == compiled(text),
    ensures
        template_view(a) == template_view(b),
{
}

proof fn lemma_space_before_of(t: Seq<char>, s: int, floor: int)
    requires
        0 <= s <= t.len(),
    ensures
        space_before_of(t, s, floor) <= s,
        forall|i: int| space_before_of(t, s, floor) <= i < s ==> is_space_char(#[trigger] t[i]),
        space_before_of(t, s, floor) <= floor || space_before_of(t, s, floor) == 0
            || !is_space_char(t[space_before_of(t, s, floor) - 1]),
    decreases s,
{
    if s > floor && 0 < s <= t.len() && is_space_char(t[s - 1]) {
        lemma_space_before_of(t, s - 1, floor);
    }
}

proof fn lemma_space_after_of(t: Seq<char>, e: int)
    requires
        0 <= e <= t.len(),
    ensures
        e <= space_after_of(t, e) <= t.len(),
        forall|i: int| e <= i < space_after_of(t, e) ==> is_space_char(#[trigger] t[i]),
        space_after_of(t, e) == t.len() || !is_space_char(t[space_after_of(t, e)]),
    decreases t.len() - e,
{
    if 0 <= e < t.len() && is_space_char(t[e]) {
        lemma_space_after_of(t, e + 1);
    }
}

proof fn lemma_line_start_of(t: Seq<char>, s: int)
    requires
        0 <= s <= t.len(),
    ensures
        0 <= line_start_of(t, s) <= s,
        line_start_of(t, s) == 0 || t[line_start_of(t, s) - 1] == '\n',
    decreases s,
{
    if 0 < s <= t.len() && t[s - 1] != '\n' {
        lemma_line_start_of(t, s - 1);
    }
}

proof fn lemma_blanks_fwd(t: Seq<char>, lo: int, hi: int)
    requires
        0 <= lo <= hi <= t.len(),
    ensures
        lo <= blanks_fwd(t, lo, hi) <= hi,
        forall|i: int| lo <= i < blanks_fwd(t, lo, hi) ==> is_blank_char(#[trigger] t[i]),
    decreases hi - lo,
{
    if 0 <= lo < hi && hi <= t.len() && is_blank_char(t[lo]) {
        lemma_blanks_fwd(t, lo + 1, hi);
    }
}

/// What a tag takes out of the text around it is white space only. A
/// standalone section, else, close, partial or comment tag without `~`
/// takes its whole line: from the start of the line (blanks only) to just
/// past the line break after it (blanks only before the break), or to the
/// end of the text. A `~` takes all the white space on its side, up to the
/// text already consumed before the tag, and up to the next other
/// character after it.
pub proof fn lemma_tag_removes_only_whitespace(t: Seq<char>, g: Tag, pos: int)
    requires
        g.wf(t.len()),
        0 <= pos,
    ensures
        ({
            let (cut_before, cut_after, _) = tag_cuts(t, g, pos);
            let ls = line_start_of(t, g.start as int);
            let standalone = elides_kind(g.kind) && blank_between(t, ls, g.start as int)
                && rest_of_line_of(t, g.end as int) is Some;
            &&& cut_before <= g.start
            &&& forall|i: int| cut_before <= i < g.start ==> is_space_char(#[trigger] t[i])
            &&& g.end <= cut_after <= t.len()
            &&& forall|i: int| g.end <= i < cut_after ==> is_space_char(#[trigger] t[i])
            &&& !g.trim_left && standalone ==> cut_before == ls && (ls == 0 || t[ls - 1] == '\n')
            &&& !g.trim_right && standalone ==> cut_after == t.len() || t[cut_after - 1] == '\n'
            &&& g.trim_left ==> cut_before <= pos || cut_before == 0 || !is_space_char(t[cut_before - 1])
            &&& g.trim_right ==> cut_after == t.len() || !is_space_char(t[cut_after])
        }),
{
    let n = t.len() as int;
    let s = g.start as int;
    let e = g.end as int;
    lemma_space_before_of(t, s, pos);
    lemma_space_after_of(t, e);
    lemma_line_start_of(t, s);
    lemma_blanks_fwd(t, e, n);
    let ls = line_start_of(t, s);
    let k = blanks_fwd(t, e, n);
    assert forall|i: int| e <= i < k implies is_space_char(#[trigger] t[i]) by {
        assert(is_blank_char(t[i]));
    }
    if blank_between(t, ls, s) {
        assert forall|i: int| ls <= i < s implies is_space_char(#[trigger] t[i]) by {
            assert(is_blank_char(t[i]));
        }
    }
    match rest_of_line_of(t, e) {
        Some(x) => {
            if k < n && t[k] == '\r' {
                assert(is_space_char(t[k]));
                assert(is_space_char(t[k + 1]));
            } else if k < n {
                assert(is_space_char(t[k]));
            }
            assert forall|i: int| e <= i < x implies is_space_char(#[trigger] t[i]) by {
                if i < k {
                } else if i == k {
                } else {
                    assert(i == k + 1);
                }
            }
        },
        None => {},
    }
}

} // verus!
