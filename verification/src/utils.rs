use vstd::prelude::*;

verus! {

/// Header record of one item: its name, the number of options that currently
/// reach it, and its neighbours in the horizontal ring.
pub struct Record {
    pub name: Option<String>,
    pub length: usize,
    pub left: usize,
    pub right: usize,
}

/// One cell of the arena. `top` is zero for a header or the leading boundary,
/// the owning item for a data cell, and the negated ordinal for a spacer.
pub struct Node {
    pub top: isize,
    pub up: usize,
    pub down: usize,
}

impl Record {
    /// A named record at position `i`, linked to the positions on either side.
    pub fn new(name: &str, i: usize) -> (r: Self)
        requires
            0 < i < usize::MAX,
        ensures
            r.name matches Some(s) && s@ == name@,
            r.length == 0,
            r.left == i - 1,
            r.right == i + 1,
    {
        Record { name: Some(name.to_owned()), length: 0, left: i - 1, right: i + 1 }
    }

    /// A sentinel record without a name.
    pub fn new_unnamed(left: usize, right: usize) -> (r: Self)
        ensures
            r.name is None,
            r.length == 0,
            r.left == left,
            r.right == right,
    {
        Record { name: None, length: 0, left, right }
    }

    /// Counts one more cell in the column.
    pub fn add_node(&mut self)
        requires
            old(self).length < usize::MAX,
        ensures
            *final(self) == (Record { length: (old(self).length + 1) as usize, ..*old(self) }),
    {
        self.length += 1;
    }

    /// Counts one cell less in the column.
    pub fn remove_node(&mut self)
        requires
            old(self).length > 0,
        ensures
            *final(self) == (Record { length: (old(self).length - 1) as usize, ..*old(self) }),
    {
        self.length -= 1;
    }
}

impl Node {
    /// A cell with the given tag and pointers.
    pub fn new(top: isize, up: usize, down: usize) -> (r: Self)
        ensures
            r == (Node { top, up, down }),
    {
        Node { top, up, down }
    }

    /// A boundary cell that points nowhere yet.
    pub fn new_spacer() -> (r: Self)
        ensures
            r == (Node { top: 0, up: 0, down: 0 }),
    {
        Node { top: 0, up: 0, down: 0 }
    }

    /// The header cell of item `i`, whose column is still empty.
    pub fn new_header(i: usize) -> (r: Self)
        ensures
            r == (Node { top: 0, up: i, down: i }),
    {
        Node { top: 0, up: i, down: i }
    }
}

} // verus!
