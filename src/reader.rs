use vstd::prelude::*;

verus! {

/// A cursor over the characters of a source text.
pub struct Reader {
    pub pos: usize,
    pub len: usize,
    pub data: Vec<char>,
}

/// Space, newline and tab: the only characters that separate words.
pub open spec fn is_ws(c: char) -> bool {
    c == ' ' || c == '\n' || c == '\t'
}

impl Reader {
    /// `len` is the number of characters and the position never passes it.
    pub open spec fn wf(&self) -> bool {
        self.len == self.data@.len() && self.pos <= self.len
    }

    /// A reader at the start of `text`.
    pub fn new(text: &str) -> (r: Reader)
        ensures
            r.wf(),
            r.pos == 0,
            r.data@ == text@,
    {
        let mut data: Vec<char> = Vec::new();
        for c in it: text.chars()
            invariant
                it.seq() == text@,
                data@ == it.seq().take(it.index() as int),
        {
            data.push(c);
        }
        let len = data.len();
        Reader { pos: 0, len, data }
    }

    /// Moves one character forward.
    pub fn next(&mut self)
        requires
            old(self).wf(),
            old(self).pos < old(self).len,
        ensures
            final(self).wf(),
            final(self).pos == old(self).pos + 1,
            final(self).len == old(self).len,
            final(self).data == old(self).data,
    {
        self.pos = self.pos + 1;
    }

    /// The character at the current position.
    pub fn peek(&self) -> (c: char)
        requires
            self.wf(),
            self.pos < self.len,
        ensures
            c == self.data@[self.pos as int],
    {
        self.data[self.pos]
    }

    /// Whether the current character separates words.
    pub fn is_whitespace(&self) -> (r: bool)
        requires
            self.wf(),
            self.pos < self.len,
        ensures
            r == is_ws(self.data@[self.pos as int]),
    {
        let c = self.peek();
        c == ' ' || c == '\n' || c == '\t'
    }

    /// Whether every character has been read.
    pub fn at_end(&self) -> (r: bool)
        ensures
            r == (self.pos >= self.len),
    {
        self.pos >= self.len
    }
}

} // verus!
