use vstd::prelude::*;

verus! {

/// One edge of the board: `Some(true)` is part of the loop, `Some(false)` is
/// ruled out, `None` is not decided yet.
#[derive(Clone, Copy, PartialEq, Eq, Structural, Debug)]
pub struct Fence(pub Option<bool>);

impl Default for Fence {
    fn default() -> (f: Fence)
        ensures
            f.0 is None,
    {
        Fence(None)
    }
}

/// The glyph that stands for a fence value in edge strings.
pub open spec fn fence_char(v: Option<bool>) -> char {
    match v {
        Some(true) => '-',
        Some(false) => 'x',
        None => '.',
    }
}

/// The fence value a glyph stands for, if it is one of `y - n x .`.
pub open spec fn fence_of_char(c: char) -> Option<Option<bool>> {
    if c == 'y' || c == '-' {
        Some(Some(true))
    } else if c == 'n' || c == 'x' {
        Some(Some(false))
    } else if c == '.' {
        Some(None)
    } else {
        None
    }
}

impl Fence {
    /// Reads a fence glyph; `None` for any other character.
    pub fn from_char(c: char) -> (r: Option<Fence>)
        ensures
            r is Some <==> fence_of_char(c) is Some,
            r matches Some(f) ==> Some(f.0) == fence_of_char(c),
    {
        if c == 'y' || c == '-' {
            Some(Fence(Some(true)))
        } else if c == 'n' || c == 'x' {
            Some(Fence(Some(false)))
        } else if c == '.' {
            Some(Fence(None))
        } else {
            None
        }
    }

    /// The glyph of this fence value.
    pub fn to_char(&self) -> (c: char)
        ensures
            c == fence_char(self.0),
    {
        match self.0 {
            Some(true) => '-',
            Some(false) => 'x',
            None => '.',
        }
    }
}

/// A clue: the number of loop edges around a cell, or `None` for no clue.
#[derive(Clone, Copy, PartialEq, Eq, Structural, Debug)]
pub struct U2(pub Option<u8>);

impl Default for U2 {
    fn default() -> (u: U2)
        ensures
            u.0 is None,
    {
        U2(None)
    }
}

/// The clue a glyph stands for: a digit `0`..`4`, or blank (` `, `_`, `-`).
pub open spec fn clue_of_char(c: char) -> Option<Option<u8>> {
    if c == '0' {
        Some(Some(0))
    } else if c == '1' {
        Some(Some(1))
    } else if c == '2' {
        Some(Some(2))
    } else if c == '3' {
        Some(Some(3))
    } else if c == '4' {
        Some(Some(4))
    } else if c == ' ' || c == '_' || c == '-' {
        Some(None)
    } else {
        None
    }
}

/// The glyph of a clue.
pub open spec fn clue_char(v: Option<u8>) -> char {
    match v {
        Some(0) => '0',
        Some(1) => '1',
        Some(2) => '2',
        Some(3) => '3',
        Some(4) => '4',
        Some(_) => '?',
        None => ' ',
    }
}

impl U2 {
    /// A clue never exceeds four, the number of sides of a cell.
    pub open spec fn wf(&self) -> bool {
        self.0 matches Some(x) ==> x <= 4
    }

    /// Whether `dashes` loop edges and `xs` ruled-out edges around a cell can
    /// still agree with this clue.
    pub open spec fn allows(&self, xs: int, dashes: int) -> bool {
        match self.0 {
            None => true,
            Some(x) => dashes <= x && xs <= 4 - x,
        }
    }

    pub fn is_ok(&self, xs: usize, dashes: usize) -> (r: bool)
        requires
            self.wf(),
        ensures
            r == self.allows(xs as int, dashes as int),
    {
        match self.0 {
            None => true,
            Some(x) => dashes <= x as usize && xs <= 4 - x as usize,
        }
    }

    /// Reads a clue glyph; `None` for any other character.
    pub fn from_char(c: char) -> (r: Option<U2>)
        ensures
            r is Some <==> clue_of_char(c) is Some,
            r matches Some(u) ==> Some(u.0) == clue_of_char(c) && u.wf(),
    {
        if c == '0' {
            Some(U2(Some(0)))
        } else if c == '1' {
            Some(U2(Some(1)))
        } else if c == '2' {
            Some(U2(Some(2)))
        } else if c == '3' {
            Some(U2(Some(3)))
        } else if c == '4' {
            Some(U2(Some(4)))
        } else if c == ' ' || c == '_' || c == '-' {
            Some(U2(None))
        } else {
            None
        }
    }

    /// The glyph of this clue.
    pub fn to_char(&self) -> (c: char)
        ensures
            c == clue_char(self.0),
    {
        match self.0 {
            Some(0) => '0',
            Some(1) => '1',
            Some(2) => '2',
            Some(3) => '3',
            Some(4) => '4',
            Some(_) => '?',
            None => ' ',
        }
    }
}

/// Relies on `String::push`: appends one character at the end.
pub assume_specification[ String::push ](s: &mut String, ch: char)
    ensures
        final(s)@ == old(s)@.push(ch),
;

} // verus!
