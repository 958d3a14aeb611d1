use vstd::prelude::*;

verus! {

/// A place in a source text: the character offset from the start of the
/// text, the column in its line and the line, both counted from 1.
#[derive(Clone, Copy, Debug, PartialEq, Eq, Structural)]
pub struct DocumentPosition {
    pub offset: usize,
    pub column: usize,
    pub line: usize,
}

pub open spec fn start_pos() -> DocumentPosition {
    DocumentPosition { offset: 0, column: 1, line: 1 }
}

/// The position one character further on the same line.
pub open spec fn adv(p: DocumentPosition) -> DocumentPosition {
    DocumentPosition { offset: (p.offset + 1) as usize, column: (p.column + 1) as usize, line: p.line }
}

/// The position at the start of the next line (the offset is unchanged).
pub open spec fn nl(p: DocumentPosition) -> DocumentPosition {
    DocumentPosition { offset: p.offset, column: 1, line: (p.line + 1) as usize }
}

impl Default for DocumentPosition {
    fn default() -> (p: Self)
        ensures
            p == start_pos(),
    {
        Self { offset: 0, column: 1, line: 1 }
    }
}

impl DocumentPosition {
    pub fn advance(&mut self)
        requires
            old(self).offset < usize::MAX,
            old(self).column < usize::MAX,
        ensures
            *final(self) == adv(*old(self)),
    {
        self.offset += 1;
        self.column += 1;
    }

    pub fn newline(&mut self)
        requires
            old(self).line < usize::MAX,
        ensures
            *final(self) == nl(*old(self)),
    {
        self.column = 1;
        self.line += 1;
    }

    pub fn set(&mut self, other: &DocumentPosition)
        ensures
            *final(self) == *other,
    {
        self.offset = other.offset;
        self.column = other.column;
        self.line = other.line;
    }
}

} // verus!
