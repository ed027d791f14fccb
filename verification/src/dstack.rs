use vstd::prelude::*;

verus! {

/// A traversal marker: `Enter` discovers an index, `Exit` finalizes it.
#[derive(Clone, Copy, Debug, PartialEq, Eq, Structural)]
pub enum StackVal {
    Enter(usize),
    Exit(usize),
}

pub open spec fn stack_ind(v: StackVal) -> int {
    match v {
        StackVal::Enter(i) => i as int,
        StackVal::Exit(i) => i as int,
    }
}

pub open spec fn is_enter(v: StackVal) -> bool {
    v matches StackVal::Enter(_)
}

/// The index carried by a marker, whichever its tag.
pub fn extract_stack_val(v: StackVal) -> (i: usize)
    ensures
        i as int == stack_ind(v),
{
    match v {
        StackVal::Enter(i) => i,
        StackVal::Exit(i) => i,
    }
}

/// A pair of LIFO stacks sharing one fixed capacity: `left` is the pending
/// work list of a traversal, `right` collects its finished output.
pub struct DStack {
    pub left: Vec<StackVal>,
    pub right: Vec<StackVal>,
    pub cap: usize,
}

impl DStack {
    pub open spec fn total(self) -> int {
        self.left@.len() + self.right@.len() as int
    }

    pub fn with_capacity(cap: usize) -> (r: DStack)
        ensures
            r.left@ =~= Seq::<StackVal>::empty(),
            r.right@ =~= Seq::<StackVal>::empty(),
            r.cap == cap,
    {
        DStack { left: Vec::new(), right: Vec::new(), cap }
    }

    pub fn capacity(&self) -> (r: usize)
        ensures
            r == self.cap,
    {
        self.cap
    }

    pub fn is_left_empty(&self) -> (r: bool)
        ensures
            r == (self.left@.len() == 0),
    {
        self.left.len() == 0
    }

    pub fn is_right_empty(&self) -> (r: bool)
        ensures
            r == (self.right@.len() == 0),
    {
        self.right.len() == 0
    }

    pub fn push_left(&mut self, v: StackVal)
        requires
            old(self).total() < old(self).cap,
        ensures
            final(self).left@ == old(self).left@.push(v),
            final(self).right == old(self).right,
            final(self).cap == old(self).cap,
    {
        self.left.push(v);
    }

    pub fn pop_left(&mut self) -> (r: Option<StackVal>)
        ensures
            old(self).left@.len() == 0 ==> r is None && *final(self) == *old(self),
            old(self).left@.len() > 0 ==> r == Some(old(self).left@.last()) && final(self).left@
                == old(self).left@.drop_last(),
            final(self).right == old(self).right,
            final(self).cap == old(self).cap,
    {
        if self.left.len() == 0 {
            None
        } else {
            let v = self.left.pop().unwrap();
            Some(v)
        }
    }

    pub fn push_right(&mut self, v: StackVal)
        requires
            old(self).total() < old(self).cap,
        ensures
            final(self).right@ == old(self).right@.push(v),
            final(self).left == old(self).left,
            final(self).cap == old(self).cap,
    {
        self.right.push(v);
    }

    /// The finished side, most recently pushed first (the order a
    /// finished traversal is replayed in).
    pub fn iter_right(&self) -> (r: Vec<StackVal>)
        ensures
            r@.len() == self.right@.len(),
            forall|k: int|
                0 <= k < r@.len() ==> r@[k] == self.right@[self.right@.len() - 1 - k],
    {
        let mut out: Vec<StackVal> = Vec::new();
        let mut j: usize = self.right.len();
        while j > 0
            invariant
                0 <= j <= self.right@.len(),
                out@.len() == self.right@.len() - j,
                forall|k: int|
                    0 <= k < out@.len() ==> out@[k] == self.right@[self.right@.len() - 1 - k],
            decreases j,
        {
            j = j - 1;
            out.push(self.right[j]);
        }
        out
    }
}

} // verus!
