//! A string dictionary: interns strings and hands out dense `usize`
//! handles; equal strings always receive the same handle.

use vstd::prelude::*;

verus! {

/// The interned strings, in handle order, without duplicates.
pub struct Dictionary {
    entries: Vec<String>,
}

impl View for Dictionary {
    type V = Seq<Seq<char>>;

    closed spec fn view(&self) -> Seq<Seq<char>> {
        Seq::new(self.entries@.len(), |i: int| self.entries@[i]@)
    }
}

impl Dictionary {
    /// No two handles name the same string.
    pub open spec fn wf(&self) -> bool {
        forall|i: int, j: int| 0 <= i < j < self@.len() ==> self@[i] != self@[j]
    }

    /// An empty dictionary.
    pub fn new() -> (r: Dictionary)
        ensures
            r.wf(),
            r@ == Seq::<Seq<char>>::empty(),
    {
        proof {
            assert(Seq::new(0nat, |i: int| Seq::<char>::empty()) =~= Seq::<Seq<char>>::empty());
        }
        Dictionary { entries: Vec::new() }
    }

    /// The number of interned strings.
    pub fn len(&self) -> (r: usize)
        ensures
            r == self@.len(),
    {
        self.entries.len()
    }

    /// Intern `entry`: the handle of its existing occurrence, or a new
    /// handle at the end.
    pub fn add(&mut self, entry: String) -> (r: usize)
        requires
            old(self).wf(),
        ensures
            final(self).wf(),
            r < final(self)@.len(),
            final(self)@[r as int] == entry@,
            old(self)@.contains(entry@) ==> final(self)@ == old(self)@,
            !old(self)@.contains(entry@) ==> final(self)@ == old(self)@.push(entry@),
    {
        let n = self.entries.len();
        let mut i: usize = 0;
        while i < n
            invariant
                n == self.entries@.len(),
                i <= n,
                forall|k: int| 0 <= k < i ==> self@[k] != entry@,
                *self == *old(self),
                self.wf(),
            decreases n - i,
        {
            if compare_strings(&self.entries[i], &entry) {
                return i;
            }
            i = i + 1;
        }
        proof {
            assert(forall|k: int| 0 <= k < self@.len() ==> self@[k] != entry@);
            assert(!self@.contains(entry@));
        }
        self.entries.push(entry);
        proof {
            assert(self@ =~= old(self)@.push(self.entries@.last()@));
        }
        n
    }

    /// The string a handle stands for, if the handle is in range.
    pub fn entry(&self, index: usize) -> (r: Option<String>)
        ensures
            match r {
                Some(s) => index < self@.len() && s@ == self@[index as int],
                None => index >= self@.len(),
            },
    {
        if index < self.entries.len() {
            Some(clone_string(&self.entries[index]))
        } else {
            None
        }
    }
}

/// Whether two strings hold the same characters.
pub fn compare_strings(a: &String, b: &String) -> (r: bool)
    ensures
        r == (a@ == b@),
{
    a.eq(b)
}

/// A copy of `s` with the same characters.
pub fn clone_string(s: &String) -> (r: String)
    ensures
        r@ == s@,
{
    s.clone()
}

} // verus!
