//! Tables that are kept elsewhere, by name.
use vstd::prelude::*;

use crate::assoc;
use crate::error::{ErrorV, SkvsError};
use crate::schema::Value;
use crate::text;

verus! {

/// What a query asks of a column of such a table.
#[derive(Debug)]
pub struct Constraint {
    pub column: String,
    pub operator: ConstraintOperator,
    pub value: Value,
}

#[derive(Debug, Clone, Copy)]
pub enum ConstraintOperator {
    Eq,
    Neq,
    Lt,
    Lte,
    Gt,
    Gte,
    Like,
    Glob,
    Match,
}

/// The tables that are kept elsewhere, each under a name of its own.
pub struct VirtualTableRegistry<T> {
    tables: Vec<(String, T)>,
}

impl<T> View for VirtualTableRegistry<T> {
    type V = Seq<(Seq<char>, T)>;

    closed spec fn view(&self) -> Seq<(Seq<char>, T)> {
        named(self.tables@)
    }
}

pub open spec fn named<T>(s: Seq<(String, T)>) -> Seq<(Seq<char>, T)> {
    Seq::new(s.len(), |i: int| (s[i].0@, s[i].1))
}

impl<T> VirtualTableRegistry<T> {
    pub fn new() -> (r: VirtualTableRegistry<T>)
        ensures
            r@.len() == 0,
    {
        VirtualTableRegistry { tables: Vec::new() }
    }

    fn place(&self, name: &str) -> (r: Option<usize>)
        ensures
            match r {
                Some(i) => {
                    &&& i < self.tables@.len()
                    &&& i == assoc::assoc_place(self@, name@)
                    &&& assoc::assoc_get(self@, name@) == Some(self.tables@[i as int].1)
                    &&& assoc::assoc_remove(self@, name@) == self@.remove(i as int)
                },
                None => {
                    &&& assoc::assoc_get(self@, name@) is None
                    &&& forall|j: int| 0 <= j < self@.len() ==> (#[trigger] self@[j]).0 != name@
                },
            },
    {
        let ghost v = self@;
        let mut i: usize = 0;
        assert(v.subrange(0, v.len() as int) =~= v);
        while i < self.tables.len()
            invariant
                i <= self.tables@.len(),
                v == named(self.tables@),
                forall|j: int| 0 <= j < i ==> (#[trigger] v[j]).0 != name@,
            decreases self.tables@.len() - i,
        {
            assert(v[i as int].0 == self.tables@[i as int].0@);
            if text::text_eq(self.tables[i].0.as_str(), name) {
                proof {
                    lemma_at(v, name@, i as int);
                }
                return Some(i);
            }
            i = i + 1;
        }
        proof {
            assoc::lemma_get_absent(v, name@);
        }
        None
    }

    /// Puts a table under a name, which has to be free.
    pub fn register(&mut self, name: &str, table: T) -> (r: Result<(), SkvsError>)
        ensures
            match r {
                Ok(_) => assoc::assoc_get(old(self)@, name@) is None && final(self)@ == assoc::assoc_put(old(self)@, name@, table),
                Err(e) => {
                    &&& assoc::assoc_get(old(self)@, name@) is Some
                    &&& final(self)@ == old(self)@
                    &&& e@ == ErrorV::Schema("Virtual table "@ + name@ + " already exists"@)
                },
            },
    {
        let ghost v = self@;
        if self.place(name).is_some() {
            return Err(SkvsError::Schema(text::text3("Virtual table ", name, " already exists")));
        }
        self.tables.push((name.to_owned(), table));
        proof {
            assoc::lemma_put_absent(v, name@, table);
            assert(self@ =~= v.push((name@, table)));
        }
        Ok(())
    }

    /// The table under a name.
    pub fn get(&self, name: &str) -> (r: Option<&T>)
        ensures
            match r {
                Some(t) => assoc::assoc_get(self@, name@) == Some(*t),
                None => assoc::assoc_get(self@, name@) is None,
            },
    {
        match self.place(name) {
            Some(i) => Some(&self.tables[i].1),
            None => None,
        }
    }

    /// Takes the table under a name out.
    pub fn remove(&mut self, name: &str) -> (r: Option<T>)
        ensures
            final(self)@ == assoc::assoc_remove(old(self)@, name@),
            r == assoc::assoc_get(old(self)@, name@),
    {
        let ghost v = self@;
        match self.place(name) {
            Some(i) => {
                let (_, t) = self.tables.remove(i);
                assert(self@ =~= v.remove(i as int));
                Some(t)
            },
            None => {
                proof {
                    assoc::lemma_remove_absent(v, name@);
                }
                None
            },
        }
    }
}

proof fn lemma_at<K, V>(s: Seq<(K, V)>, k: K, i: int)
    requires
        0 <= i < s.len(),
        s[i].0 == k,
        forall|j: int| 0 <= j < i ==> (#[trigger] s[j]).0 != k,
    ensures
        assoc::assoc_place(s, k) == i,
        assoc::assoc_get(s, k) == Some(s[i].1),
        assoc::assoc_remove(s, k) == s.remove(i),
    decreases i,
{
    if i == 0 {
        assert(assoc::assoc_remove(s, k) =~= s.remove(0));
    } else {
        assert(s[0].0 != k);
        assert forall|j: int| 0 <= j < i - 1 implies (#[trigger] s.drop_first()[j]).0 != k by {
            assert(s[j + 1].0 != k);
        }
        lemma_at(s.drop_first(), k, i - 1);
        assert(assoc::assoc_remove(s, k) =~= s.remove(i));
    }
}

} // verus!
