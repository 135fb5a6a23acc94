//! An immutable singly linked list whose equality is structural.
use vstd::prelude::*;

verus! {

/// A list of `T`. Two lists are equal exactly when they hold equal items in
/// the same order, so values that own a list can be compared with `==` in
/// contracts.
#[derive(Debug, PartialEq, Eq)]
pub enum List<T> {
    Nil,
    Cons(T, Box<List<T>>),
}

impl<T> List<T> {
    /// The items in order.
    pub open spec fn seq(self) -> Seq<T>
        decreases self,
    {
        match self {
            List::Nil => Seq::empty(),
            List::Cons(head, tail) => seq![head] + tail.seq(),
        }
    }

    /// The list that holds the items of `items` in the same order.
    pub open spec fn of(items: Seq<T>) -> List<T>
        decreases items.len(),
    {
        if items.len() == 0 {
            List::Nil
        } else {
            List::Cons(items[0], Box::new(List::of(items.subrange(1, items.len() as int))))
        }
    }

    /// `of` and `seq` are inverse to each other.
    pub proof fn lemma_of_seq(items: Seq<T>)
        ensures
            List::of(items).seq() == items,
        decreases items.len(),
    {
        if items.len() > 0 {
            let rest = items.subrange(1, items.len() as int);
            List::lemma_of_seq(rest);
            assert(seq![items[0]] + rest =~= items);
        } else {
            assert(items =~= Seq::empty());
        }
    }

    /// Equal item sequences come from equal lists.
    pub proof fn lemma_seq_injective(self, other: List<T>)
        requires
            self.seq() == other.seq(),
        ensures
            self == other,
        decreases self,
    {
        match self {
            List::Nil => {
                match other {
                    List::Nil => {},
                    List::Cons(h, t) => {
                        assert((seq![h] + t.seq()).len() > 0);
                    },
                }
            },
            List::Cons(head, tail) => {
                match other {
                    List::Nil => {
                        assert((seq![head] + tail.seq()).len() > 0);
                    },
                    List::Cons(h, t) => {
                        let a = seq![head] + tail.seq();
                        let b = seq![h] + t.seq();
                        assert(a[0] == b[0]);
                        assert(tail.seq() =~= a.subrange(1, a.len() as int));
                        assert(t.seq() =~= b.subrange(1, b.len() as int));
                        tail.lemma_seq_injective(*t);
                    },
                }
            },
        }
    }

    /// The empty list.
    pub fn new() -> (list: List<T>)
        ensures
            list.seq() == Seq::<T>::empty(),
    {
        List::Nil
    }

    /// The list with `head` in front of `self`.
    pub fn prepend(self, head: T) -> (list: List<T>)
        ensures
            list.seq() == seq![head] + self.seq(),
    {
        List::Cons(head, Box::new(self))
    }

    /// The list that holds the items of `items` in the same order.
    pub fn from_vec(items: Vec<T>) -> (list: List<T>)
        ensures
            list.seq() == items@,
            list == List::of(items@),
    {
        let mut rest = items;
        let mut list: List<T> = List::Nil;
        while rest.len() > 0
            invariant
                rest@ + list.seq() == items@,
            decreases rest.len(),
        {
            let ghost before = rest@;
            let item = rest.pop().unwrap();
            proof {
                assert(before == rest@.push(item));
                assert(rest@ + (seq![item] + list.seq()) =~= before + list.seq());
            }
            list = List::Cons(item, Box::new(list));
        }
        proof {
            assert(rest@ + list.seq() =~= list.seq());
            List::lemma_of_seq(items@);
            list.lemma_seq_injective(List::of(items@));
        }
        list
    }

    /// The number of items.
    pub fn len(&self) -> (n: usize)
        requires
            self.seq().len() <= usize::MAX,
        ensures
            n == self.seq().len(),
    {
        let mut n: usize = 0;
        let mut cur = self;
        loop
            invariant
                n + cur.seq().len() == self.seq().len(),
                self.seq().len() <= usize::MAX,
            decreases cur.seq().len(),
        {
            match cur {
                List::Nil => {
                    return n;
                },
                List::Cons(_, tail) => {
                    n = n + 1;
                    cur = &**tail;
                },
            }
        }
    }
}

} // verus!
