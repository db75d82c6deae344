//! Character-level helpers shared by the parser and the evaluator: conversion
//! between strings and character vectors, decimal rendering, HTML escaping and
//! re-indentation of raw text.
use vstd::prelude::*;
use vstd::std_specs::iter::IteratorSpec;

verus! {

/// The characters of `s`, in order.
pub fn chars_of(s: &str) -> (r: Vec<char>)
    ensures
        r@ == s@,
{
    let mut it = s.chars();
    let mut v: Vec<char> = Vec::new();
    assert(v@ + it.remaining() =~= s@);
    loop
        invariant
            v@ + it.remaining() == s@,
            it.decrease() is Some,
        decreases it.decrease()->0,
    {
        let ghost rem = it.remaining();
        let ghost before = v@;
        match it.next() {
            Some(c) => {
                v.push(c);
                assert(rem.len() > 0);
                assert(v@ + it.remaining() =~= before + rem);
            },
            None => {
                assert(rem.len() == 0);
                assert(v@ =~= s@);
                return v;
            },
        }
    }
}

/// Relies on `String`'s `FromIterator<&char>`: the string holds the given
/// characters in order.
#[verifier::external_body]
pub fn string_of(v: &Vec<char>) -> (r: String)
    ensures
        r@ == v@,
{
    v.iter().collect()
}

pub open spec fn is_blank_char(c: char) -> bool {
    c == ' ' || c == '\t'
}

pub open spec fn is_space_char(c: char) -> bool {
    c == ' ' || c == '\t' || c == '\n' || c == '\r'
}

pub fn is_blank(c: char) -> (r: bool)
    ensures
        r == is_blank_char(c),
{
    c == ' ' || c == '\t'
}

pub fn is_space(c: char) -> (r: bool)
    ensures
        r == is_space_char(c),
{
    c == ' ' || c == '\t' || c == '\n' || c == '\r'
}

/// Appends `s` to `out`.
pub fn push_all(out: &mut Vec<char>, s: &Vec<char>)
    ensures
        final(out)@ == old(out)@ + s@,
{
    let mut i: usize = 0;
    while i < s.len()
        invariant
            i <= s@.len(),
            out@ == old(out)@ + s@.subrange(0, i as int),
        decreases s@.len() - i,
    {
        out.push(s[i]);
        i = i + 1;
        assert(s@.subrange(0, i as int) == s@.subrange(0, i - 1) + seq![s@[i - 1]]);
    }
    assert(s@.subrange(0, s@.len() as int) == s@);
}

/// Appends the characters of `s` to `out`.
pub fn push_str(out: &mut Vec<char>, s: &str)
    ensures
        final(out)@ == old(out)@ + s@,
{
    let v = chars_of(s);
    push_all(out, &v);
}

pub open spec fn digit_char(d: nat) -> char {
    if d == 0 { '0' }
    else if d == 1 { '1' }
    else if d == 2 { '2' }
    else if d == 3 { '3' }
    else if d == 4 { '4' }
    else if d == 5 { '5' }
    else if d == 6 { '6' }
    else if d == 7 { '7' }
    else if d == 8 { '8' }
    else { '9' }
}

/// The decimal digits of `n`, most significant first, with no leading zero.
pub open spec fn decimal(n: nat) -> Seq<char>
    decreases n,
{
    if n < 10 {
        seq![digit_char(n)]
    } else {
        decimal(n / 10) + seq![digit_char(n % 10)]
    }
}

/// The decimal text of a signed integer.
pub open spec fn int_text(n: int) -> Seq<char> {
    if n < 0 {
        seq!['-'] + decimal((-n) as nat)
    } else {
        decimal(n as nat)
    }
}

fn digit(d: u64) -> (c: char)
    requires
        d < 10,
    ensures
        c == digit_char(d as nat),
{
    if d == 0 { '0' }
    else if d == 1 { '1' }
    else if d == 2 { '2' }
    else if d == 3 { '3' }
    else if d == 4 { '4' }
    else if d == 5 { '5' }
    else if d == 6 { '6' }
    else if d == 7 { '7' }
    else if d == 8 { '8' }
    else { '9' }
}

/// Appends the decimal digits of `n`.
pub fn push_decimal(out: &mut Vec<char>, n: u64)
    ensures
        final(out)@ == old(out)@ + decimal(n as nat),
    decreases n,
{
    if n >= 10 {
        push_decimal(out, n / 10);
    }
    out.push(digit(n % 10));
}

/// Appends the decimal text of a signed integer.
pub fn push_int(out: &mut Vec<char>, n: i64)
    ensures
        final(out)@ == old(out)@ + int_text(n as int),
{
    if n < 0 {
        out.push('-');
        let m: u64 = (-(n as i128)) as u64;
        push_decimal(out, m);
        assert(old(out)@ + int_text(n as int) == old(out)@ + seq!['-'] + decimal(m as nat));
    } else {
        push_decimal(out, n as u64);
    }
}

/// What the HTML-safe writer emits for one character.
pub open spec fn escape_char(c: char) -> Seq<char> {
    if c == '<' {
        seq!['&', 'l', 't', ';']
    } else if c == '>' {
        seq!['&', 'g', 't', ';']
    } else if c == '&' {
        seq!['&', 'a', 'm', 'p', ';']
    } else if c == '"' {
        seq!['&', 'q', 'u', 'o', 't', ';']
    } else if c == '\'' {
        seq!['&', '#', 'x', '2', '7', ';']
    } else if c == '`' {
        seq!['&', '#', 'x', '6', '0', ';']
    } else {
        seq![c]
    }
}

/// Text with every HTML-unsafe character replaced by its entity.
pub open spec fn escape_html(s: Seq<char>) -> Seq<char>
    decreases s.len(),
{
    if s.len() == 0 {
        Seq::empty()
    } else {
        escape_html(s.drop_last()) + escape_char(s.last())
    }
}

/// Text with `indent` inserted after each newline that is not the last character.
pub open spec fn indent_text(s: Seq<char>, indent: Seq<char>) -> Seq<char>
    decreases s.len(),
{
    if s.len() == 0 {
        Seq::empty()
    } else if s[0] == '\n' && s.len() > 1 {
        seq!['\n'] + indent + indent_text(s.drop_first(), indent)
    } else {
        seq![s[0]] + indent_text(s.drop_first(), indent)
    }
}

/// Appends `s` with every HTML-unsafe character replaced by its entity.
pub fn push_escaped(out: &mut Vec<char>, s: &Vec<char>)
    ensures
        final(out)@ == old(out)@ + escape_html(s@),
{
    let mut i: usize = 0;
    while i < s.len()
        invariant
            i <= s@.len(),
            out@ == old(out)@ + escape_html(s@.subrange(0, i as int)),
        decreases s@.len() - i,
    {
        let c = s[i];
        let ghost before = out@;
        if c == '<' {
            out.push('&'); out.push('l'); out.push('t'); out.push(';');
        } else if c == '>' {
            out.push('&'); out.push('g'); out.push('t'); out.push(';');
        } else if c == '&' {
            out.push('&'); out.push('a'); out.push('m'); out.push('p'); out.push(';');
        } else if c == '"' {
            out.push('&'); out.push('q'); out.push('u'); out.push('o'); out.push('t'); out.push(';');
        } else if c == '\'' {
            out.push('&'); out.push('#'); out.push('x'); out.push('2'); out.push('7'); out.push(';');
        } else if c == '`' {
            out.push('&'); out.push('#'); out.push('x'); out.push('6'); out.push('0'); out.push(';');
        } else {
            out.push(c);
        }
        assert(out@ == before + escape_char(c));
        let ghost pre = s@.subrange(0, i as int);
        i = i + 1;
        assert(s@.subrange(0, i as int).drop_last() == pre);
    }
    assert(s@.subrange(0, s@.len() as int) == s@);
}

/// Appends `s` with `indent` inserted after each newline that is not its last character.
pub fn push_indented(out: &mut Vec<char>, s: &Vec<char>, indent: &Vec<char>)
    ensures
        final(out)@ == old(out)@ + indent_text(s@, indent@),
{
    let mut i: usize = 0;
    assert(s@.subrange(0, s@.len() as int) == s@);
    while i < s.len()
        invariant
            i <= s@.len(),
            out@ + indent_text(s@.subrange(i as int, s@.len() as int), indent@) == old(out)@
                + indent_text(s@, indent@),
        decreases s@.len() - i,
    {
        let ghost rest = s@.subrange(i as int, s@.len() as int);
        assert(rest.drop_first() == s@.subrange(i + 1, s@.len() as int));
        let c = s[i];
        out.push(c);
        if c == '\n' && i + 1 < s.len() {
            push_all(out, indent);
        }
        i = i + 1;
    }
    assert(indent_text(s@.subrange(s@.len() as int, s@.len() as int), indent@) == Seq::<char>::empty()) by {
        assert(s@.subrange(s@.len() as int, s@.len() as int).len() == 0);
    }
}

} // verus!
