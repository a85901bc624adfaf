use vstd::prelude::*;

verus! {

/// A free-standing tree cell: a value and up to two exclusively owned
/// children, with no container around it.
#[derive(Debug, Default)]
pub struct Item<T> {
    pub value: T,
    pub left: Option<Box<Item<T>>>,
    pub right: Option<Box<Item<T>>>,
}

/// `b` is a clone of item `a`: same shape, and each value of `b` is a
/// possible result of calling `T::clone` on the matching value of `a`.
pub open spec fn item_cloned<T: Clone>(a: Item<T>, b: Item<T>) -> bool
    decreases a,
{
    &&& vstd::pervasive::cloned::<T>(a.value, b.value)
    &&& opt_item_cloned(a.left, b.left)
    &&& opt_item_cloned(a.right, b.right)
}

/// `b` is a clone of the optional item `a`.
pub open spec fn opt_item_cloned<T: Clone>(a: Option<Box<Item<T>>>, b: Option<Box<Item<T>>>) -> bool
    decreases a,
{
    match (a, b) {
        (None, None) => true,
        (Some(x), Some(y)) => item_cloned(*x, *y),
        _ => false,
    }
}

impl<T: Clone> Clone for Item<T> {
    /// Deep copy: the copy has the same shape, each value obtained by
    /// cloning the original's value at the same place.
    fn clone(&self) -> (res: Self)
        ensures
            item_cloned(*self, res),
        decreases self,
    {
        Item {
            value: self.value.clone(),
            left: match &self.left {
                Some(item) => Some(Box::new((&**item).clone())),
                None => None,
            },
            right: match &self.right {
                Some(item) => Some(Box::new((&**item).clone())),
                None => None,
            },
        }
    }
}

impl<T: PartialOrd> Item<T> {
    /// Constructs a new `Item<T>` with no left or right child.
    pub fn new(value: T) -> (item: Self)
        ensures
            item.value == value,
            item.left is None,
            item.right is None,
    {
        Item { value, left: None, right: None }
    }

    /// Returns a reference to the value of the item.
    pub fn value(&self) -> (r: &T)
        ensures
            *r == self.value,
    {
        &self.value
    }

    /// Returns an `Option` containing a mutable reference to the left child
    /// of the item.
    pub fn left(&mut self) -> (r: Option<&mut Self>)
        ensures
            match old(self).left {
                Some(l) => r is Some && *r.unwrap() == *l && *final(self) == (Item {
                    left: Some(Box::new(*final(r.unwrap()))),
                    ..*old(self)
                }),
                None => r is None && *final(self) == *old(self),
            },
    {
        match &mut self.left {
            Some(l) => Some(&mut **l),
            None => None,
        }
    }

    /// Returns an `Option` containing a mutable reference to the right child
    /// of the item.
    pub fn right(&mut self) -> (r: Option<&mut Self>)
        ensures
            match old(self).right {
                Some(x) => r is Some && *r.unwrap() == *x && *final(self) == (Item {
                    right: Some(Box::new(*final(r.unwrap()))),
                    ..*old(self)
                }),
                None => r is None && *final(self) == *old(self),
            },
    {
        match &mut self.right {
            Some(x) => Some(&mut **x),
            None => None,
        }
    }
}

} // verus!
