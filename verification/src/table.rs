//! An insertion-ordered table without duplicates: every value gets the index at
//! which it was first inserted, and keeps it.
use std::collections::HashMap;
use vstd::prelude::*;

verus! {

broadcast use vstd::std_specs::hash::group_hash_axioms;

/// A value that a [`Table`] can hold: it has a hash and an equality, both of which
/// look at the view of the value only.
pub trait Intern: View + Sized {
    /// The hash of a value with this view.
    spec fn code(v: Self::V) -> u64;

    fn hash_code(&self) -> (h: u64)
        ensures
            h == Self::code(self@),
    ;

    fn same(&self, other: &Self) -> (b: bool)
        ensures
            b == (self@ == other@),
    ;
}

/// The views of a sequence of values.
pub open spec fn views<T: View>(items: Seq<T>) -> Seq<T::V> {
    items.map_values(|t: T| t@)
}

/// `links[i]` is the last index before `i` that holds a value with the hash of
/// `items[i]`.
spec fn linked<T: Intern>(items: Seq<T>, links: Seq<Option<usize>>, i: int) -> bool {
    match links[i] {
        Some(j) => {
            &&& j < i
            &&& T::code(items[j as int]@) == T::code(items[i]@)
            &&& forall|k: int| j < k < i ==> T::code((#[trigger] items[k])@) != T::code(items[i]@)
        },
        None => forall|k: int|
            0 <= k < i ==> T::code((#[trigger] items[k])@) != T::code(items[i]@),
    }
}

/// Distinct values in the order of their first insertion.
#[verifier::reject_recursive_types(T)]
pub struct Table<T: Intern> {
    items: Vec<T>,
    /// For each item, the item before it with the same hash.
    links: Vec<Option<usize>>,
    /// For each hash, the last item that has it.
    heads: HashMap<u64, usize>,
}

impl<T: Intern> View for Table<T> {
    type V = Seq<T::V>;

    closed spec fn view(&self) -> Seq<T::V> {
        views(self.items@)
    }
}

impl<T: Intern> Table<T> {
    /// No value occurs twice, and every value can be found by its hash.
    pub closed spec fn wf(&self) -> bool {
        &&& self@.no_duplicates()
        &&& self.links.len() == self.items.len()
        &&& forall|i: int| 0 <= i < self.items.len() ==> #[trigger] linked(self.items@, self.links@, i)
        &&& forall|h: u64| #[trigger]
            self.heads@.contains_key(h) ==> {
                let j = self.heads@[h];
                &&& j < self.items.len()
                &&& T::code(self.items[j as int]@) == h
                &&& forall|k: int|
                    j < k < self.items.len() ==> T::code((#[trigger] self.items[k])@) != h
            }
        &&& forall|i: int|
            0 <= i < self.items.len() ==> self.heads@.contains_key(
                T::code((#[trigger] self.items[i])@),
            )
    }

    /// What a well-formed table promises to a reader of its view.
    pub proof fn distinct(&self)
        requires
            self.wf(),
        ensures
            self@.no_duplicates(),
    {
    }

    pub fn new() -> (t: Self)
        ensures
            t.wf(),
            t@ == Seq::<T::V>::empty(),
    {
        let t = Table { items: Vec::new(), links: Vec::new(), heads: HashMap::new() };
        assert(t@ =~= Seq::<T::V>::empty());
        t
    }

    pub fn len(&self) -> (n: usize)
        ensures
            n == self@.len(),
    {
        self.items.len()
    }

    /// The value at index `i`.
    pub fn get_index(&self, i: usize) -> (t: &T)
        requires
            i < self@.len(),
        ensures
            t@ == self@[i as int],
    {
        &self.items[i]
    }

    /// The index of the value, if the table holds it.
    pub fn index_of(&self, value: &T) -> (r: Option<usize>)
        requires
            self.wf(),
        ensures
            match r {
                Some(i) => i < self@.len() && self@[i as int] == value@,
                None => !self@.contains(value@),
            },
    {
        let h = value.hash_code();
        let mut cur: Option<usize> = match self.heads.get(&h) {
            Some(j) => Some(*j),
            None => None,
        };
        assert(cur is None ==> !self@.contains(value@));
        while cur.is_some()
            invariant
                self.wf(),
                h == T::code(value@),
                match cur {
                    Some(j) => {
                        &&& j < self.items.len()
                        &&& T::code(self.items[j as int]@) == h
                        &&& forall|k: int| j < k < self.items.len() ==> (#[trigger] self.items[k])@ != value@
                    },
                    None => !self@.contains(value@),
                },
            decreases (match cur {
                Some(j) => j + 1,
                None => 0,
            }),
        {
            let j: usize = cur.unwrap();
            if self.items[j].same(value) {
                return Some(j);
            }
            assert(linked(self.items@, self.links@, j as int));
            cur = self.links[j];
        }
        None
    }

    /// Insert the value unless the table holds it, and return its index with
    /// whether it was inserted.
    pub fn insert_full(&mut self, value: T) -> (r: (usize, bool))
        requires
            old(self).wf(),
        ensures
            final(self).wf(),
            r.0 < final(self)@.len(),
            final(self)@[r.0 as int] == value@,
            r.1 == !old(self)@.contains(value@),
            final(self)@ == (if r.1 {
                old(self)@.push(value@)
            } else {
                old(self)@
            }),
    {
        if let Some(i) = self.index_of(&value) {
            return (i, false);
        }
        let h = value.hash_code();
        let i: usize = self.items.len();
        let prev: Option<usize> = match self.heads.get(&h) {
            Some(j) => Some(*j),
            None => None,
        };
        let ghost items0 = self.items@;
        let ghost links0 = self.links@;
        self.items.push(value);
        self.links.push(prev);
        self.heads.insert(h, i);
        proof {
            assert(self@ =~= old(self)@.push(value@));
            assert forall|k: int| 0 <= k < self.items.len() implies #[trigger] linked(
                self.items@,
                self.links@,
                k,
            ) by {
                if k < i {
                    assert(linked(items0, links0, k));
                }
            }
        }
        (i, true)
    }
}

} // verus!
