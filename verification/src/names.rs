//! Lists filed under names.
use vstd::hash_map::StringHashMap;
use vstd::prelude::*;

verus! {

/// For each name, the list of what was filed under it, in order.
pub struct NameLists<T> {
    slots: StringHashMap<usize>,
    lists: Vec<Vec<T>>,
}

impl<T> NameLists<T> {
    /// Names have lists of their own.
    pub closed spec fn wf(&self) -> bool {
        &&& forall|n: Seq<char>| #[trigger]
            self.slots@.contains_key(n) ==> self.slots@[n] < self.lists@.len()
        &&& forall|n: Seq<char>, m: Seq<char>|
            #![trigger self.slots@.contains_key(n), self.slots@.contains_key(m)]
            self.slots@.contains_key(n) && self.slots@.contains_key(m) && n != m ==> self.slots@[n]
                != self.slots@[m]
    }

    /// What was filed under `name`.
    pub closed spec fn list(&self, name: Seq<char>) -> Seq<T> {
        if self.slots@.contains_key(name) && self.slots@[name] < self.lists@.len() {
            self.lists@[self.slots@[name] as int]@
        } else {
            Seq::empty()
        }
    }

    pub fn new() -> (r: Self)
        ensures
            r.wf(),
            forall|n: Seq<char>| #[trigger] r.list(n) == Seq::<T>::empty(),
    {
        NameLists { slots: StringHashMap::new(), lists: Vec::new() }
    }

    /// Files `x` under `name`, behind what is there.
    pub fn file(&mut self, name: &str, x: T)
        requires
            old(self).wf(),
        ensures
            final(self).wf(),
            forall|n: Seq<char>| #[trigger]
                final(self).list(n) == (if n == name@ {
                    old(self).list(n).push(x)
                } else {
                    old(self).list(n)
                }),
    {
        let ghost was = *self;
        let slot: Option<usize> = match self.slots.get(name) {
            Some(s) => Some(*s),
            None => None,
        };
        match slot {
            Some(s) => {
                self.lists[s].push(x);
                assert forall|n: Seq<char>| #[trigger] self.list(n) == (if n == name@ {
                    was.list(n).push(x)
                } else {
                    was.list(n)
                }) by {
                    if was.slots@.contains_key(n) {
                        assert(self.slots@.contains_key(n));
                    }
                }
            },
            None => {
                let s: usize = self.lists.len();
                let mut only: Vec<T> = Vec::new();
                only.push(x);
                self.lists.push(only);
                self.slots.insert(name.to_owned(), s);
                assert(only@ =~= Seq::<T>::empty().push(x));
                assert forall|n: Seq<char>| #[trigger]
                    self.slots@.contains_key(n) implies self.slots@[n] < self.lists@.len() by {
                    if n != name@ {
                        assert(was.slots@.contains_key(n));
                    }
                }
                assert forall|n: Seq<char>, m: Seq<char>|
                    #![trigger self.slots@.contains_key(n), self.slots@.contains_key(m)]
                    self.slots@.contains_key(n) && self.slots@.contains_key(m) && n
                        != m implies self.slots@[n] != self.slots@[m] by {
                    if n != name@ {
                        assert(was.slots@.contains_key(n));
                    }
                    if m != name@ {
                        assert(was.slots@.contains_key(m));
                    }
                }
                assert forall|n: Seq<char>| #[trigger] self.list(n) == (if n == name@ {
                    was.list(n).push(x)
                } else {
                    was.list(n)
                }) by {
                    if n != name@ && self.slots@.contains_key(n) {
                        assert(was.slots@.contains_key(n));
                    }
                }
            },
        }
    }

    /// What was filed under `name`; nothing where nothing was.
    pub fn get(&self, name: &str) -> (r: Option<&Vec<T>>)
        ensures
            match r {
                Some(v) => v@ == self.list(name@),
                None => self.list(name@) == Seq::<T>::empty(),
            },
    {
        match self.slots.get(name) {
            Some(s) => if *s < self.lists.len() {
                Some(&self.lists[*s])
            } else {
                None
            },
            None => None,
        }
    }
}

} // verus!
