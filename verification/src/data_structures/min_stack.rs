//! A stack that knows its minimum in constant time.

use vstd::prelude::*;

verus! {

/// `m` is the least element of `s`.
pub open spec fn is_minimum(s: Seq<i64>, m: i64) -> bool {
    &&& s.contains(m)
    &&& forall|i: int| 0 <= i < s.len() ==> m <= #[trigger] s[i]
}

/// A stack of numbers together with, for each position, the minimum of the
/// elements up to and including it.
pub struct Stack {
    pub stack: Vec<i64>,
    min_stack: Vec<i64>,
}

impl View for Stack {
    type V = Seq<i64>;

    /// The elements from bottom to top.
    closed spec fn view(&self) -> Seq<i64> {
        self.stack@
    }
}

impl Stack {
    /// The recorded minima match the elements: there is one per element,
    /// and each is the least element of the stack up to its position.
    pub closed spec fn wf(&self) -> bool {
        &&& self.min_stack.len() == self.stack.len()
        &&& forall|i: int|
            0 <= i < self.stack.len() ==> is_minimum(
                self.stack@.subrange(0, i + 1),
                #[trigger] self.min_stack[i],
            )
    }

    /// An empty stack.
    pub fn new() -> (s: Stack)
        ensures
            s.wf(),
            s@.len() == 0,
    {
        Stack { stack: Vec::new(), min_stack: Vec::new() }
    }

    /// Pushes `num`.
    pub fn add(&mut self, num: i64)
        requires
            old(self).wf(),
        ensures
            final(self).wf(),
            final(self)@ == old(self)@.push(num),
    {
        self.stack.push(num);
        let new_min: i64 = if self.min_stack.is_empty() {
            num
        } else {
            let below: i64 = *self.min_stack.last().unwrap();
            if num < below {
                num
            } else {
                below
            }
        };
        self.min_stack.push(new_min);
        proof {
            let n = old(self).stack.len() as int;
            let now = self.stack@;
            assert forall|i: int| 0 <= i < self.stack.len() implies is_minimum(
                now.subrange(0, i + 1),
                #[trigger] self.min_stack[i],
            ) by {
                if i < n {
                    assert(now.subrange(0, i + 1) =~= old(self).stack@.subrange(0, i + 1));
                    assert(self.min_stack[i] == old(self).min_stack[i]);
                } else {
                    let all = now.subrange(0, n + 1);
                    assert(all[n] == num);
                    if n > 0 {
                        let before = old(self).stack@.subrange(0, n);
                        let below = old(self).min_stack[n - 1];
                        assert(is_minimum(before, below));
                        let k = choose|k: int| 0 <= k < before.len() && before[k] == below;
                        assert(all[k] == below);
                        assert forall|j: int| 0 <= j < all.len() implies new_min <= #[trigger] all[j] by {
                            if j < n {
                                assert(before[j] == all[j]);
                            }
                        }
                    }
                }
            }
        }
    }

    /// Removes the top element, if there is one.
    pub fn pop(&mut self)
        requires
            old(self).wf(),
        ensures
            final(self).wf(),
            old(self)@.len() > 0 ==> final(self)@ == old(self)@.drop_last(),
            old(self)@.len() == 0 ==> final(self)@ == old(self)@,
    {
        self.stack.pop();
        self.min_stack.pop();
        proof {
            let now = self.stack@;
            assert forall|i: int| 0 <= i < self.stack.len() implies is_minimum(
                now.subrange(0, i + 1),
                #[trigger] self.min_stack[i],
            ) by {
                assert(now.subrange(0, i + 1) =~= old(self).stack@.subrange(0, i + 1));
                assert(self.min_stack[i] == old(self).min_stack[i]);
            }
        }
    }

    /// The least element on the stack, or nothing if the stack is empty.
    pub fn get_min(&self) -> (min: Option<&i64>)
        requires
            self.wf(),
        ensures
            self@.len() == 0 ==> min is None,
            self@.len() > 0 ==> min is Some && is_minimum(self@, *min.unwrap()),
    {
        proof {
            let n = self.stack.len() as int;
            if n > 0 {
                assert(self.stack@.subrange(0, n) =~= self.stack@);
                assert(is_minimum(self.stack@.subrange(0, n), self.min_stack[n - 1]));
            }
        }
        self.min_stack.last()
    }
}

} // verus!
