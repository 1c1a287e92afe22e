//! Named things by database: the directories of the engine.
use dashmap::DashMap;
use vstd::prelude::*;

use crate::assoc;

verus! {

/// A thing with the database it belongs to and its name there.
pub struct Entry<'a, T> {
    pub db: u32,
    pub name: &'a String,
    pub value: &'a T,
}

/// Where the things stand: the place of each, by database and name.
pub uninterp spec fn places_in(m: DashMap<(u32, String), usize>) -> Map<(u32, Seq<char>), usize>;

/// Calls `DashMap::new`, which makes an empty map.
#[verifier::external_body]
fn places_new() -> (r: DashMap<(u32, String), usize>)
    ensures
        (places_in(r) == Map::<(u32, Seq<char>), usize>::empty()),
{
    DashMap::new()
}

/// Calls `DashMap::get`: the value under a key, where there is one.
#[verifier::external_body]
fn places_get(m: &DashMap<(u32, String), usize>, db: u32, name: &str) -> (r: Option<usize>)
    ensures
        r == (if places_in(*m).contains_key((db, name@)) {
            Some(places_in(*m)[(db, name@)])
        } else {
            None
        }),
{
    m.get(&(db, name.to_owned())).map(|x| *x)
}

/// Calls `DashMap::insert`, which puts a value under a key, in place of the one that was there.
#[verifier::external_body]
fn places_insert(m: &mut DashMap<(u32, String), usize>, db: u32, name: &str, place: usize)
    ensures
        places_in(*final(m)) == places_in(*old(m)).insert((db, name@), place),
{
    m.insert((db, name.to_owned()), place);
}

/// Calls `DashMap::remove`, which takes out what is under a key.
#[verifier::external_body]
fn places_remove(m: &mut DashMap<(u32, String), usize>, db: u32, name: &str)
    ensures
        places_in(*final(m)) == places_in(*old(m)).remove((db, name@)),
{
    m.remove(&(db, name.to_owned()));
}

/// Things in the order in which their names first came, and where each stands.
struct Shelf<T> {
    keys: Vec<(u32, String)>,
    values: Vec<T>,
    places: DashMap<(u32, String), usize>,
}

/// The things of one kind in all databases, in the order in which their names first came.
pub struct Catalog<T> {
    known: Vec<u32>,
    shelf: Shelf<T>,
}

/// Whether a map gives the place of each key, and nothing else.
spec fn placed(keys: Seq<(u32, String)>, m: Map<(u32, Seq<char>), usize>) -> bool {
    &&& forall|i: int| #![trigger keys[i]]
        0 <= i < keys.len() ==> m.contains_key((keys[i].0, keys[i].1@)) && m[(keys[i].0, keys[i].1@)] == i
    &&& forall|k: (u32, Seq<char>)| #[trigger]
        m.contains_key(k) ==> m[k] < keys.len() && (keys[m[k] as int].0, keys[m[k] as int].1@) == k
}

impl<T> Catalog<T> {
    #[verifier::type_invariant]
    spec fn in_place(self) -> bool {
        &&& placed(self.shelf.keys@, places_in(self.shelf.places))
        &&& self.shelf.values@.len() == self.shelf.keys@.len()
        &&& self.known@.no_duplicates()
    }
}

/// What a directory holds: the databases it knows, and the things by database and name.
pub struct CatalogV<T> {
    pub known: Set<u32>,
    pub items: Seq<((u32, Seq<char>), T)>,
}

/// The thing under a name in a database.
pub open spec fn find<T>(c: CatalogV<T>, db: u32, name: Seq<char>) -> Option<T> {
    assoc::assoc_get(c.items, (db, name))
}

/// The directory with a thing under a name in a database.
pub open spec fn with<T>(c: CatalogV<T>, db: u32, name: Seq<char>, v: T) -> CatalogV<T> {
    CatalogV { known: c.known.insert(db), items: assoc::assoc_put(c.items, (db, name), v) }
}

/// The directory without what is under a name in a database.
pub open spec fn without<T>(c: CatalogV<T>, db: u32, name: Seq<char>) -> CatalogV<T> {
    CatalogV { known: c.known, items: assoc::assoc_remove(c.items, (db, name)) }
}

/// The directory with another thing under a name that it has.
pub open spec fn changed<T>(c: CatalogV<T>, db: u32, name: Seq<char>, v: T) -> CatalogV<T> {
    CatalogV { known: c.known, items: assoc::assoc_put(c.items, (db, name), v) }
}

/// The directory that also knows a database.
pub open spec fn knowing<T>(c: CatalogV<T>, db: u32) -> CatalogV<T> {
    CatalogV { known: c.known.insert(db), items: c.items }
}

spec fn entries<T: View>(keys: Seq<(u32, String)>, values: Seq<T>) -> Seq<((u32, Seq<char>), T::V)> {
    Seq::new(keys.len(), |i: int| ((keys[i].0, keys[i].1@), values[i]@))
}

proof fn lemma_placed_push(keys: Seq<(u32, String)>, m: Map<(u32, Seq<char>), usize>, k: (u32, String))
    requires
        placed(keys, m),
        !m.contains_key((k.0, k.1@)),
        keys.len() <= usize::MAX,
    ensures
        placed(keys.push(k), m.insert((k.0, k.1@), keys.len() as usize)),
{
    let t = keys.push(k);
    let n = m.insert((k.0, k.1@), keys.len() as usize);
    assert forall|i: int| #![trigger t[i]] 0 <= i < t.len() implies n.contains_key((t[i].0, t[i].1@)) && n[(t[i].0, t[i].1@)]
        == i by {
        if i < keys.len() {
            assert(t[i] == keys[i]);
        }
    }
    assert forall|q: (u32, Seq<char>)| #[trigger] n.contains_key(q) implies n[q] < t.len() && (
        t[n[q] as int].0,
        t[n[q] as int].1@,
    ) == q by {
        if q != (k.0, k.1@) {
            assert(m.contains_key(q));
            assert(t[m[q] as int] == keys[m[q] as int]);
        }
    }
}

impl<T: View> View for Catalog<T> {
    type V = CatalogV<T::V>;

    closed spec fn view(&self) -> CatalogV<T::V> {
        CatalogV { known: self.known@.to_set(), items: entries(self.shelf.keys@, self.shelf.values@) }
    }
}

impl<T: View> Catalog<T> {
    pub fn new() -> (r: Catalog<T>)
        ensures
            r@.known == Set::<u32>::empty(),
            r@.items.len() == 0,
    {
        let r = Catalog { known: Vec::new(), shelf: Shelf { keys: Vec::new(), values: Vec::new(), places: places_new() } };
        assert(r@.known =~= Set::<u32>::empty());
        r
    }

    pub fn knows(&self, db: u32) -> (r: bool)
        ensures
            r == self@.known.contains(db),
    {
        let mut i: usize = 0;
        while i < self.known.len()
            invariant
                i <= self.known@.len(),
                forall|j: int| 0 <= j < i ==> self.known@[j] != db,
            decreases self.known@.len() - i,
        {
            if self.known[i] == db {
                assert(self.known@.contains(db));
                return true;
            }
            i = i + 1;
        }
        false
    }

    /// The databases that the directory knows.
    pub fn databases(&self) -> (r: Vec<u32>)
        ensures
            r@.to_set() == self@.known,
    {
        let mut out: Vec<u32> = Vec::new();
        let mut i: usize = 0;
        while i < self.known.len()
            invariant
                i <= self.known@.len(),
                out@ == self.known@.take(i as int),
            decreases self.known@.len() - i,
        {
            out.push(self.known[i]);
            i = i + 1;
            assert(out@ =~= self.known@.take(i as int));
        }
        assert(out@ =~= self.known@);
        out
    }

    /// Makes the directory know a database.
    pub fn ensure(&mut self, db: u32)
        ensures
            final(self)@ == knowing(old(self)@, db),
    {
        proof {
            use_type_invariant(&*self);
        }
        if !self.knows(db) {
            let ghost before = self.known@;
            let mut known: Vec<u32> = Vec::new();
            std::mem::swap(&mut known, &mut self.known);
            known.push(db);
            assert(known@.no_duplicates());
            self.known = known;
            proof {
                assert forall|x: u32| self.known@.contains(x) <==> before.contains(x) || x == db by {
                    if before.contains(x) {
                        let k = choose|k: int| 0 <= k < before.len() && before[k] == x;
                        assert(self.known@[k] == x);
                    }
                    assert(self.known@[before.len() as int] == db);
                }
                assert(self.known@.to_set() =~= before.to_set().insert(db));
            }
        } else {
            assert(self.known@.to_set() =~= self.known@.to_set().insert(db));
        }
    }

    fn position(&self, db: u32, name: &str) -> (r: Option<usize>)
        ensures
            match r {
                Some(i) => {
                    &&& i < self.shelf.keys@.len()
                    &&& self@.items[i as int].0 == (db, name@)
                    &&& assoc::assoc_get(self@.items, (db, name@)) == Some(self@.items[i as int].1)
                    &&& assoc::assoc_put_at(self@.items, (db, name@), i as int)
                    &&& assoc::assoc_remove(self@.items, (db, name@)) == self@.items.remove(i as int)
                },
                None => {
                    &&& assoc::assoc_get(self@.items, (db, name@)) is None
                    &&& assoc::assoc_remove(self@.items, (db, name@)) == self@.items
                    &&& forall|j: int| 0 <= j < self@.items.len() ==> (#[trigger] self@.items[j]).0 != (db, name@)
                },
            },
    {
        let ghost v = self@.items;
        proof {
            use_type_invariant(self);
        }
        match places_get(&self.shelf.places, db, name) {
            Some(i) => {
                proof {
                    assert(v[i as int].0 == (db, name@));
                    assert forall|j: int| 0 <= j < i implies (#[trigger] v[j]).0 != (db, name@) by {
                        assert(v[j].0 == (self.shelf.keys@[j].0, self.shelf.keys@[j].1@));
                    }
                    assoc::lemma_get_at(v, (db, name@), i as int);
                }
                Some(i)
            },
            None => {
                proof {
                    assert forall|j: int| 0 <= j < v.len() implies (#[trigger] v[j]).0 != (db, name@) by {
                        assert(v[j].0 == (self.shelf.keys@[j].0, self.shelf.keys@[j].1@));
                    }
                    assoc::lemma_get_absent(v, (db, name@));
                    assoc::lemma_remove_absent(v, (db, name@));
                }
                None
            },
        }
    }

    pub fn get(&self, db: u32, name: &str) -> (r: Option<&T>)
        ensures
            match r {
                Some(x) => find(self@, db, name@) == Some(x@),
                None => find(self@, db, name@) is None,
            },
    {
        match self.position(db, name) {
            Some(i) => {
                proof {
                    use_type_invariant(self);
                }
                Some(&self.shelf.values[i])
            },
            None => None,
        }
    }

    /// The thing under a name, to be changed in place.
    pub fn get_mut(&mut self, db: u32, name: &str) -> (r: Option<&mut T>)
        ensures
            match r {
                Some(x) => find(old(self)@, db, name@) == Some((*x)@) && final(self)@ == changed(
                    old(self)@,
                    db,
                    name@,
                    (*final(x))@,
                ),
                None => find(old(self)@, db, name@) is None && final(self)@ == old(self)@,
            },
    {
        match self.position(db, name) {
            Some(i) => {
                let ghost bv = self@.items;
                proof {
                    use_type_invariant(&*self);
                }
                let r = &mut self.shelf.values[i];
                assert(entries(after_borrow(self).shelf.keys@, after_borrow(self).shelf.values@) =~= bv.update(
                    i as int,
                    ((db, name@), (*final(r))@),
                ));
                Some(r)
            },
            None => None,
        }
    }

    pub fn put(&mut self, db: u32, name: String, value: T)
        ensures
            final(self)@ == with(old(self)@, db, name@, value@),
    {
        self.ensure(db);
        proof {
            use_type_invariant(&*self);
        }
        let ghost bv = self@.items;
        let ghost vv = value@;
        let ghost nv = name@;
        let found = self.position(db, name.as_str());
        let mut shelf = Shelf { keys: Vec::new(), values: Vec::new(), places: places_new() };
        std::mem::swap(&mut shelf, &mut self.shelf);
        match found {
            Some(i) => {
                shelf.values.set(i, value);
                assert(entries(shelf.keys@, shelf.values@) =~= bv.update(i as int, ((db, nv), vv)));
            },
            None => {
                let n: usize = shelf.keys.len();
                let ghost old_keys = shelf.keys@;
                let ghost old_places = places_in(shelf.places);
                places_insert(&mut shelf.places, db, name.as_str(), n);
                shelf.keys.push((db, name));
                shelf.values.push(value);
                proof {
                    assoc::lemma_put_absent(bv, (db, nv), vv);
                    assert(entries(shelf.keys@, shelf.values@) =~= bv.push(((db, nv), vv)));
                    if old_places.contains_key((db, nv)) {
                        assert(bv[old_places[(db, nv)] as int].0 == (db, nv));
                    }
                    lemma_placed_push(old_keys, old_places, shelf.keys@[n as int]);
                }
            },
        }
        assert(placed(shelf.keys@, places_in(shelf.places)));
        self.shelf = shelf;
    }

    pub fn remove(&mut self, db: u32, name: &str) -> (r: Option<T>)
        ensures
            final(self)@ == without(old(self)@, db, name@),
            match r {
                Some(x) => find(old(self)@, db, name@) == Some(x@),
                None => find(old(self)@, db, name@) is None,
            },
    {
        proof {
            use_type_invariant(&*self);
        }
        match self.position(db, name) {
            Some(i) => {
                let ghost bv = self@.items;
                let mut shelf = Shelf { keys: Vec::new(), values: Vec::new(), places: places_new() };
                std::mem::swap(&mut shelf, &mut self.shelf);
                let ghost old_keys = shelf.keys@;
                let ghost old_values = shelf.values@;
                let ghost old_places = places_in(shelf.places);
                shelf.keys.remove(i);
                let value = shelf.values.remove(i);
                places_remove(&mut shelf.places, db, name);
                let mut k: usize = i;
                while k < shelf.keys.len()
                    invariant
                        i <= k <= shelf.keys@.len(),
                        shelf.keys@ == old_keys.remove(i as int),
                        shelf.values@ == old_values.remove(i as int),
                        old_values.len() == old_keys.len(),
                        i < old_keys.len(),
                        placed(old_keys, old_places),
                        (old_keys[i as int].0, old_keys[i as int].1@) == (db, name@),
                        places_in(shelf.places).dom() == old_places.remove((db, name@)).dom(),
                        forall|j: int| #![trigger shelf.keys@[j]]
                            0 <= j < shelf.keys@.len() ==> places_in(shelf.places)[(
                                shelf.keys@[j].0,
                                shelf.keys@[j].1@,
                            )] == (if i <= j && j >= k {
                                j + 1
                            } else {
                                j
                            }),
                    decreases shelf.keys@.len() - k,
                {
                    let ghost key = (shelf.keys@[k as int].0, shelf.keys@[k as int].1@);
                    assert(shelf.keys@[k as int] == old_keys[k + 1]);
                    assert(old_places[key] == k + 1);
                    let ghost before = places_in(shelf.places);
                    places_insert(&mut shelf.places, shelf.keys[k].0, shelf.keys[k].1.as_str(), k);
                    assert(before.contains_key(key));
                    assert(places_in(shelf.places).dom() =~= before.dom());
                    assert forall|j: int| #![trigger shelf.keys@[j]]
                        0 <= j < shelf.keys@.len() implies places_in(shelf.places)[(
                        shelf.keys@[j].0,
                        shelf.keys@[j].1@,
                    )] == (if i <= j && j >= k + 1 {
                        j + 1
                    } else {
                        j
                    }) by {
                        if j != k {
                            let p = if j < i {
                                j
                            } else {
                                j + 1
                            };
                            assert(shelf.keys@[j] == old_keys[p]);
                            assert(old_places[(old_keys[p].0, old_keys[p].1@)] == p);
                        }
                    }
                    k = k + 1;
                }
                proof {
                    let m = places_in(shelf.places);
                    assert forall|j: int| #![trigger shelf.keys@[j]] 0 <= j < shelf.keys@.len() implies m.contains_key(
                        (shelf.keys@[j].0, shelf.keys@[j].1@),
                    ) && m[(shelf.keys@[j].0, shelf.keys@[j].1@)] == j by {
                        let p = if j < i {
                            j
                        } else {
                            j + 1
                        };
                        assert(shelf.keys@[j] == old_keys[p]);
                        assert(old_places[(old_keys[p].0, old_keys[p].1@)] == p);
                    }
                    assert forall|q: (u32, Seq<char>)| #[trigger] m.contains_key(q) implies m[q] < shelf.keys@.len() && (
                        shelf.keys@[m[q] as int].0,
                        shelf.keys@[m[q] as int].1@,
                    ) == q by {
                        assert(old_places.contains_key(q) && q != (db, name@));
                        let p = old_places[q] as int;
                        let j = if p < i {
                            p
                        } else {
                            p - 1
                        };
                        assert(old_keys[p].0 == q.0 && old_keys[p].1@ == q.1);
                        assert(p != i);
                        assert(shelf.keys@[j] == old_keys[p]);
                    }
                }
                assert(entries(shelf.keys@, shelf.values@) =~= bv.remove(i as int));
                self.shelf = shelf;
                Some(value)
            },
            None => None,
        }
    }

    /// How many things there are.
    pub fn len(&self) -> (r: usize)
        ensures
            r == self@.items.len(),
    {
        self.shelf.keys.len()
    }

    /// The thing at a place in the order of the names.
    pub fn at(&self, i: usize) -> (r: Entry<'_, T>)
        requires
            i < self@.items.len(),
        ensures
            self@.items[i as int] == ((r.db, r.name@), r.value@),
    {
        proof {
            use_type_invariant(self);
        }
        Entry { db: self.shelf.keys[i].0, name: &self.shelf.keys[i].1, value: &self.shelf.values[i] }
    }
}

} // verus!
