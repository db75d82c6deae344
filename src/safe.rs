//! Output that goes through an HTML-escaping filter unless a writer opts out.
use vstd::prelude::*;

use crate::text::{chars_of, escape_html, push_all, push_escaped, string_of};

verus! {

/// Which way a write goes: through the HTML-escaping filter, or around it.
#[derive(Clone, Copy)]
pub enum SafeWriting {
    Safe,
    Unsafe,
}

impl SafeWriting {
    /// The mode that writes around the filter.
    pub fn into_unsafe(&self) -> (r: SafeWriting)
        ensures
            r is Unsafe,
    {
        SafeWriting::Unsafe
    }

    /// `text` as an HTML-escaping writer writes it.
    pub fn with_html_safe_writer(text: &str) -> (r: String)
        ensures
            r@ == escape_html(text@),
    {
        let mut w = HTMLSafeWriter::new();
        w.write(SafeWriting::Safe, text);
        w.into_string()
    }
}

/// A text buffer whose safe writes escape `<`, `>`, `&`, `"`, `'` and `` ` ``.
pub struct HTMLSafeWriter {
    buf: Vec<char>,
}

impl HTMLSafeWriter {
    /// What has been written so far.
    pub closed spec fn written(&self) -> Seq<char> {
        self.buf@
    }

    pub fn new() -> (r: HTMLSafeWriter)
        ensures
            r.written() == Seq::<char>::empty(),
    {
        HTMLSafeWriter { buf: Vec::new() }
    }

    /// Writes `text`, escaped in `Safe` mode.
    pub fn write(&mut self, mode: SafeWriting, text: &str)
        ensures
            final(self).written() == old(self).written() + (match mode {
                SafeWriting::Safe => escape_html(text@),
                SafeWriting::Unsafe => text@,
            }),
    {
        let v = chars_of(text);
        match mode {
            SafeWriting::Safe => push_escaped(&mut self.buf, &v),
            SafeWriting::Unsafe => push_all(&mut self.buf, &v),
        }
    }

    /// The text written.
    pub fn into_string(self) -> (r: String)
        ensures
            r@ == self.written(),
    {
        string_of(&self.buf)
    }
}

} // verus!
