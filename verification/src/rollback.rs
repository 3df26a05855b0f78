//! Values that remember what they were, block by block.
use vstd::prelude::*;

verus! {

/// A value with the height of the block that set it.
#[derive(Debug)]
pub struct HeightStamped<T> {
    pub value: T,
    pub height: u32,
}

impl<T: Copy> Copy for HeightStamped<T> {

}

impl<T: Copy> Clone for HeightStamped<T> {
    fn clone(&self) -> (r: HeightStamped<T>)
        ensures
            r == *self,
    {
        *self
    }
}

/// A value with all that it was before. There is always a latest value.
pub struct RollBack<T> {
    earlier: Vec<HeightStamped<T>>,
    current: HeightStamped<T>,
}

impl<T> DeepView for RollBack<T> {
    type V = Seq<HeightStamped<T>>;

    closed spec fn deep_view(&self) -> Seq<HeightStamped<T>> {
        self.earlier@.push(self.current)
    }
}

impl<T: Copy> RollBack<T> {
    /// A value with nothing before it.
    pub fn new(value: T, height: u32) -> (r: RollBack<T>)
        ensures
            r.deep_view() == seq![HeightStamped { value, height }],
    {
        let r = RollBack { earlier: Vec::new(), current: HeightStamped { value, height } };
        assert(r.deep_view() =~= seq![HeightStamped { value, height }]);
        r
    }

    /// The latest value.
    pub fn latest(&self) -> (r: HeightStamped<T>)
        ensures
            self.deep_view().len() > 0,
            r == self.deep_view().last(),
    {
        self.current
    }

    /// The first value.
    pub fn earliest(&self) -> (r: HeightStamped<T>)
        ensures
            self.deep_view().len() > 0,
            r == self.deep_view().first(),
    {
        if self.earlier.len() == 0 {
            self.current
        } else {
            self.earlier[0]
        }
    }

    /// Sets the value. Heights never go down: a value from below the latest
    /// is handed back.
    pub fn push(&mut self, value: T, height: u32) -> (r: Result<(), T>)
        ensures
            old(self).deep_view().len() > 0,
            match r {
                Ok(()) => height >= old(self).deep_view().last().height && final(self).deep_view()
                    == old(self).deep_view().push(HeightStamped { value, height }),
                Err(v) => height < old(self).deep_view().last().height && v == value
                    && final(self).deep_view() == old(self).deep_view(),
            },
    {
        if height < self.current.height {
            return Err(value);
        }
        self.earlier.push(self.current);
        self.current = HeightStamped { value, height };
        Ok(())
    }

    /// Takes the latest value off. What is left, if anything, comes first.
    pub fn pop(self) -> (r: (Option<RollBack<T>>, HeightStamped<T>))
        ensures
            self.deep_view().len() > 0,
            r.1 == self.deep_view().last(),
            match r.0 {
                Some(left) => self.deep_view().len() > 1 && left.deep_view()
                    == self.deep_view().drop_last(),
                None => self.deep_view().len() == 1,
            },
    {
        let mut earlier = self.earlier;
        let top = self.current;
        assert(self.deep_view().drop_last() =~= earlier@);
        match earlier.pop() {
            Some(current) => {
                let left = RollBack { earlier, current };
                assert(left.deep_view() =~= self.deep_view().drop_last());
                (Some(left), top)
            },
            None => (None, top),
        }
    }

    /// A copy.
    pub fn copy(&self) -> (r: RollBack<T>)
        ensures
            r.deep_view() == self.deep_view(),
    {
        let mut earlier: Vec<HeightStamped<T>> = Vec::new();
        let n: usize = self.earlier.len();
        for i in 0..n
            invariant
                n == self.earlier@.len(),
                earlier@ =~= self.earlier@.take(i as int),
        {
            earlier.push(self.earlier[i]);
        }
        assert(earlier@ =~= self.earlier@);
        RollBack { earlier, current: self.current }
    }
}

} // verus!
