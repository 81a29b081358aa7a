//! A set of event bindings that is lent out empty, to be filled for a while.
use vstd::prelude::*;

verus! {

/// An event binding: the event's name, the key of the registered callback and
/// the option bits.
#[derive(Debug, Clone, PartialEq, Eq)]
pub struct EventBinding {
    pub name: String,
    pub callback: u32,
    pub options: u8,
}

impl View for EventBinding {
    type V = (Seq<char>, u32, u8);

    open spec fn view(&self) -> (Seq<char>, u32, u8) {
        (self.name@, self.callback, self.options)
    }
}

/// Whether two bindings are the same.
fn same_binding(a: &EventBinding, b: &EventBinding) -> (r: bool)
    ensures
        r == (a@ == b@),
{
    a.callback == b.callback && a.options == b.options && a.name == b.name
}

/// A set of event bindings; its view is the set of their views.
#[derive(Debug)]
pub struct EventBindingSet {
    items: Vec<EventBinding>,
}

impl View for EventBindingSet {
    type V = Set<(Seq<char>, u32, u8)>;

    closed spec fn view(&self) -> Set<(Seq<char>, u32, u8)> {
        Set::new(|b: (Seq<char>, u32, u8)| exists|i: int| 0 <= i < self.items@.len() && self.items@[i]@ == b)
    }
}

impl EventBindingSet {
    /// No binding is held twice.
    #[verifier::type_invariant]
    closed spec fn wf(&self) -> bool {
        forall|i: int, j: int|
            0 <= i < j < self.items@.len() ==> #[trigger] self.items@[i]@ != #[trigger] self.items@[j]@
    }

    /// An empty set.
    pub fn new() -> (r: Self)
        ensures
            r@ == Set::<(Seq<char>, u32, u8)>::empty(),
    {
        let r = EventBindingSet { items: Vec::new() };
        assert(r@ =~= Set::<(Seq<char>, u32, u8)>::empty());
        r
    }

    /// Where `b` is held, if it is.
    fn find(&self, b: &EventBinding) -> (r: Option<usize>)
        ensures
            match r {
                Some(i) => i < self.items@.len() && self.items@[i as int]@ == b@,
                None => !self@.contains(b@),
            },
    {
        let mut i: usize = 0;
        while i < self.items.len()
            invariant
                i <= self.items@.len(),
                forall|j: int| 0 <= j < i ==> #[trigger] self.items@[j]@ != b@,
            decreases self.items@.len() - i,
        {
            if same_binding(&self.items[i], b) {
                return Some(i);
            }
            i = i + 1;
        }
        None
    }

    /// Whether `b` is in the set.
    pub fn contains(&self, b: &EventBinding) -> (r: bool)
        ensures
            r == self@.contains(b@),
    {
        self.find(b).is_some()
    }

    /// Adds `b`; tells whether it was not in the set before.
    pub fn insert(&mut self, b: EventBinding) -> (r: bool)
        ensures
            final(self)@ == old(self)@.insert(b@),
            r == !old(self)@.contains(b@),
    {
        match self.find(&b) {
            Some(_) => {
                assert(self@ =~= old(self)@.insert(b@));
                false
            },
            None => {
                proof {
                    use_type_invariant(&*self);
                }
                let ghost bv = b@;
                let mut items: Vec<EventBinding> = Vec::new();
                std::mem::swap(&mut items, &mut self.items);
                items.push(b);
                proof {
                    assert forall|p: int, q: int| 0 <= p < q < items@.len() implies #[trigger] items@[p]@
                        != #[trigger] items@[q]@ by {
                        if q == items@.len() - 1 {
                            assert(!old(self)@.contains(bv));
                            assert(old(self).items@[p]@ == items@[p]@);
                        } else {
                            assert(old(self).items@[p] == items@[p]);
                            assert(old(self).items@[q] == items@[q]);
                        }
                    }
                }
                self.items = items;
                assert(self@ =~= old(self)@.insert(bv)) by {
                    assert(self.items@[self.items@.len() - 1]@ == bv);
                    assert forall|x: (Seq<char>, u32, u8)| #[trigger] old(self)@.contains(x) implies self@.contains(x) by {
                        let i = choose|i: int| 0 <= i < old(self).items@.len() && old(self).items@[i]@ == x;
                        assert(self.items@[i]@ == x);
                    }
                    assert forall|x: (Seq<char>, u32, u8)| #[trigger] self@.contains(x) && x != bv implies old(self)@.contains(x) by {
                        let i = choose|i: int| 0 <= i < self.items@.len() && self.items@[i]@ == x;
                        assert(old(self).items@[i]@ == x);
                    }
                }
                true
            },
        }
    }

    /// Removes `b`; tells whether it was in the set.
    pub fn remove(&mut self, b: &EventBinding) -> (r: bool)
        ensures
            final(self)@ == old(self)@.remove(b@),
            r == old(self)@.contains(b@),
    {
        match self.find(b) {
            None => {
                assert(self@ =~= old(self)@.remove(b@));
                false
            },
            Some(i) => {
                proof {
                    use_type_invariant(&*self);
                }
                let mut items: Vec<EventBinding> = Vec::new();
                std::mem::swap(&mut items, &mut self.items);
                let _ = items.remove(i);
                proof {
                    let s = old(self).items@;
                    assert forall|p: int, q: int| 0 <= p < q < items@.len() implies #[trigger] items@[p]@
                        != #[trigger] items@[q]@ by {
                        if q < i {
                            assert(s[p] == items@[p] && s[q] == items@[q]);
                        } else if p < i {
                            assert(s[p] == items@[p] && s[q + 1] == items@[q]);
                        } else {
                            assert(s[p + 1] == items@[p] && s[q + 1] == items@[q]);
                        }
                    }
                }
                self.items = items;
                assert(self@ =~= old(self)@.remove(b@)) by {
                    let s = old(self).items@;
                    assert forall|x: (Seq<char>, u32, u8)| #[trigger] self@.contains(x) implies old(self)@.contains(x) && x != b@ by {
                        let k = choose|k: int| 0 <= k < self.items@.len() && self.items@[k]@ == x;
                        if k < i {
                            assert(s[k]@ == x);
                        } else {
                            assert(s[k + 1]@ == x);
                        }
                    }
                    assert forall|x: (Seq<char>, u32, u8)| #[trigger] old(self)@.contains(x) && x != b@ implies self@.contains(x) by {
                        let k = choose|k: int| 0 <= k < s.len() && s[k]@ == x;
                        if k < i {
                            assert(self.items@[k]@ == x);
                        } else {
                            assert(self.items@[k - 1]@ == x);
                        }
                    }
                }
                true
            },
        }
    }

    /// The number of bindings in the set.
    pub fn len(&self) -> (r: usize)
        ensures
            r == self@.len(),
    {
        proof {
            use_type_invariant(self);
            let views = self.items@.map_values(|b: EventBinding| b@);
            assert(self@ =~= views.to_set()) by {
                assert forall|x: (Seq<char>, u32, u8)| #[trigger] self@.contains(x) implies views.to_set().contains(x) by {
                    let k = choose|k: int| 0 <= k < self.items@.len() && self.items@[k]@ == x;
                    assert(views[k] == x);
                }
            }
            assert(views.no_duplicates());
            views.unique_seq_to_set();
        }
        self.items.len()
    }

    /// Whether the set is empty.
    pub fn is_empty(&self) -> (r: bool)
        ensures
            r == (self@.len() == 0),
    {
        self.len() == 0
    }

    /// Removes every binding.
    pub fn clear(&mut self)
        ensures
            final(self)@ == Set::<(Seq<char>, u32, u8)>::empty(),
    {
        self.items = Vec::new();
        assert(self@ =~= Set::<(Seq<char>, u32, u8)>::empty());
    }
}

/// A set of event bindings that is handed out, emptied, for temporary use.
#[derive(Debug)]
pub struct TempEventBindingSet {
    set: EventBindingSet,
}

impl TempEventBindingSet {
    /// The bindings the set holds now.
    pub closed spec fn contents(&self) -> EventBindingSet {
        self.set
    }

    /// A new, empty set.
    pub fn new() -> (r: Self)
        ensures
            r.contents()@ == Set::<(Seq<char>, u32, u8)>::empty(),
    {
        TempEventBindingSet { set: EventBindingSet::new() }
    }

    /// Empties the set and lends it out, so that nothing of an earlier use is
    /// left in it.
    pub fn temp(&mut self) -> (r: &mut EventBindingSet)
        ensures
            r@ == Set::<(Seq<char>, u32, u8)>::empty(),
            final(self).contents() == *final(r),
    {
        self.set.clear();
        &mut self.set
    }
}

/// A borrow of the set of a `TempEventBindingSet`.
pub struct TempEventBindingSetBorrow<'a>(pub &'a mut EventBindingSet);

impl<'a> TempEventBindingSetBorrow<'a> {
    /// The borrowed set, to read.
    pub fn deref(&self) -> (r: &EventBindingSet)
        ensures
            *r == *old(self.0),
    {
        &*self.0
    }

    /// The borrowed set, to change.
    pub fn deref_mut(&mut self) -> (r: &mut EventBindingSet)
        ensures
            *r == *old(self).0,
            *final(self).0 == *final(r),
    {
        &mut *self.0
    }
}

} // verus!
