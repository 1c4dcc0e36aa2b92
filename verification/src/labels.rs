//! The label table: from a label's name to the index of the instruction it
//! stands before.

use vstd::prelude::*;

verus! {

/// What a list of definitions binds: each name to the index of its last
/// definition.
pub open spec fn bindings(entries: Seq<(String, usize)>) -> Map<Seq<char>, usize>
    decreases entries.len(),
{
    if entries.len() == 0 {
        Map::empty()
    } else {
        bindings(entries.drop_last()).insert(entries.last().0@, entries.last().1)
    }
}

/// The labels of a program.  A name that is defined again is bound anew.
#[derive(Clone, Debug)]
pub struct LabelTable {
    entries: Vec<(String, usize)>,
}

impl View for LabelTable {
    type V = Map<Seq<char>, usize>;

    closed spec fn view(&self) -> Map<Seq<char>, usize> {
        bindings(self.entries@)
    }
}

/// Definitions of other names at the end of a list bind nothing to `name`.
proof fn lemma_bindings_tail(entries: Seq<(String, usize)>, name: Seq<char>, i: int)
    requires
        0 <= i <= entries.len(),
        forall|k: int| i <= k < entries.len() ==> (#[trigger] entries[k]).0@ != name,
    ensures
        bindings(entries).contains_key(name) == bindings(entries.take(i)).contains_key(name),
        bindings(entries).contains_key(name) ==> bindings(entries)[name] == bindings(
            entries.take(i),
        )[name],
    decreases entries.len() - i,
{
    if i == entries.len() {
        assert(entries.take(i) =~= entries);
    } else {
        assert(entries.last().0@ != name);
        lemma_bindings_tail(entries.drop_last(), name, i);
        assert(entries.drop_last().take(i) =~= entries.take(i));
    }
}

impl LabelTable {
    /// The table without any label.
    pub fn new() -> (t: LabelTable)
        ensures
            t@ == Map::<Seq<char>, usize>::empty(),
    {
        LabelTable { entries: Vec::new() }
    }

    /// Binds `name` to `index`, whatever it was bound to before.
    pub fn insert(&mut self, name: String, index: usize)
        ensures
            final(self)@ == old(self)@.insert(name@, index),
    {
        let ghost before = self.entries@;
        self.entries.push((name, index));
        proof {
            assert(self.entries@.drop_last() =~= before);
        }
    }

    /// The index that `name` is bound to, if it is defined.
    pub fn get(&self, name: &String) -> (r: Option<usize>)
        ensures
            r == (if self@.contains_key(name@) {
                Some(self@[name@])
            } else {
                None
            }),
    {
        let mut i: usize = self.entries.len();
        while i > 0
            invariant
                i <= self.entries.len(),
                forall|k: int| i <= k < self.entries.len() ==> (#[trigger] self.entries@[k]).0@ != name@,
            decreases i,
        {
            if self.entries[i - 1].0 == *name {
                proof {
                    lemma_bindings_tail(self.entries@, name@, i as int);
                    assert(self.entries@.take(i as int).last() == self.entries@[i - 1]);
                }
                return Some(self.entries[i - 1].1);
            }
            i -= 1;
        }
        proof {
            lemma_bindings_tail(self.entries@, name@, 0);
            assert(self.entries@.take(0) =~= Seq::<(String, usize)>::empty());
        }
        None
    }
}

} // verus!
