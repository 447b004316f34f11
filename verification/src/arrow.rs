//! The [`Arrow`] type and its operations.

use vstd::prelude::*;

verus! {

/// A composable transformation node.
///
/// An `Arrow` carries an *essence* — one unary function from `T` to `U` —
/// and an ordered list of *symbiotes*: follow-on arrows from `U` to `U` that
/// run after the essence, in the order in which they were attached.
///
/// `F` is the type of the essence and `G` the common type of every essence
/// below this node.  A caller that mixes several distinct functions picks a
/// function-pointer type for `G`, to which they all coerce.
#[derive(Debug, PartialEq, Eq, PartialOrd, Ord, Hash)]
pub struct Arrow<T, U, F, G> {
    /// The one function this node applies first.
    essence: F,
    /// The attached follow-on arrows, in execution order.
    symbiosis: Vec<Arrow<U, U, G, G>>,
    /// Records that an arrow consumes values of type `T`.
    input: core::marker::PhantomData<T>,
}

impl<T, U, F, G> View for Arrow<T, U, F, G> {
    type V = Seq<Arrow<U, U, G, G>>;

    /// The mathematical view of an arrow: the sequence of its symbiotes.
    closed spec fn view(&self) -> Seq<Arrow<U, U, G, G>> {
        self.symbiosis@
    }
}

impl<T, U, F, G> Arrow<T, U, F, G> {
    /// The essence, as an abstract function value for contracts.
    pub closed spec fn spec_essence(self) -> F {
        self.essence
    }
}

/// Marks a value as the intermediate stage of a pipeline run.  Always true;
/// it only serves as the quantifier trigger for the chain relations below,
/// so that a proof can name the intermediate value it threads through.
pub open spec fn stage<U>(m: U) -> bool {
    true
}

/// Holds when running the arrows of `cs` in order, starting from `x`, can
/// end at `y`: there is a threading of intermediate values through the whole
/// sequence.  The empty sequence leaves the value unchanged.
pub open spec fn chain_shoots<U, G: Fn(U) -> U>(cs: Seq<Arrow<U, U, G, G>>, x: U, y: U) -> bool
    decreases cs,
{
    if cs.len() == 0 {
        y == x
    } else {
        exists|m: U|
            #[trigger] stage(m) && chain_shoots(cs.drop_last(), x, m) && cs.last().shoots(m, y)
    }
}

/// Holds when running the arrows of `cs` in reverse order (last attached
/// first), starting from `x`, can end at `y`.
pub open spec fn chain_shoots_reverse<U, G: Fn(U) -> U>(
    cs: Seq<Arrow<U, U, G, G>>,
    x: U,
    y: U,
) -> bool
    decreases cs,
{
    if cs.len() == 0 {
        y == x
    } else {
        exists|m: U|
            #[trigger] stage(m) && chain_shoots_reverse(cs.drop_first(), x, m)
                && cs.first().shoots_reverse(m, y)
    }
}

impl<T, U, F: Fn(T) -> U, G: Fn(U) -> U> Arrow<T, U, F, G> {
    /// Holds when shooting this arrow at `x` can produce `y`: some result of
    /// the essence on `x` is threaded through every symbiote in order.
    pub open spec fn shoots(self, x: T, y: U) -> bool
        decreases self,
    {
        exists|m: U| #[trigger] call_ensures(self.spec_essence(), (x,), m) && chain_shoots(self@, m, y)
    }

    /// Holds when shooting this arrow in reverse at `x` can produce `y`:
    /// some result of the essence on `x` is threaded through every symbiote
    /// in reverse order, each itself run in reverse.
    pub open spec fn shoots_reverse(self, x: T, y: U) -> bool
        decreases self,
    {
        exists|m: U|
            #[trigger] call_ensures(self.spec_essence(), (x,), m) && chain_shoots_reverse(
                self@,
                m,
                y,
            )
    }
}

/// Holds when the arrows of `cs`, run in order from `x`, can always be
/// called: the first accepts `x`, and whatever value it produces, the rest
/// can be called from there.
pub open spec fn chain_can_shoot<U, G: Fn(U) -> U>(cs: Seq<Arrow<U, U, G, G>>, x: U) -> bool
    decreases cs,
{
    cs.len() > 0 ==> {
        &&& cs.first().can_shoot(x)
        &&& forall|m: U| #[trigger] cs.first().shoots(x, m) ==> chain_can_shoot(cs.drop_first(), m)
    }
}

/// Holds when the arrows of `cs`, run in reverse order from `x`, can always
/// be called.
pub open spec fn chain_can_shoot_reverse<U, G: Fn(U) -> U>(
    cs: Seq<Arrow<U, U, G, G>>,
    x: U,
) -> bool
    decreases cs,
{
    cs.len() > 0 ==> {
        &&& cs.last().can_shoot_reverse(x)
        &&& forall|m: U|
            #[trigger] cs.last().shoots_reverse(x, m) ==> chain_can_shoot_reverse(
                cs.drop_last(),
                m,
            )
    }
}

impl<T, U, F: Fn(T) -> U, G: Fn(U) -> U> Arrow<T, U, F, G> {
    /// Holds when this arrow may be shot at `x`: the essence accepts `x`,
    /// and whatever it returns, the symbiotes can be run in order from there.
    pub open spec fn can_shoot(self, x: T) -> bool
        decreases self,
    {
        &&& call_requires(self.spec_essence(), (x,))
        &&& forall|m: U|
            #[trigger] call_ensures(self.spec_essence(), (x,), m) ==> chain_can_shoot(self@, m)
    }

    /// Holds when this arrow may be shot in reverse at `x`.
    pub open spec fn can_shoot_reverse(self, x: T) -> bool
        decreases self,
    {
        &&& call_requires(self.spec_essence(), (x,))
        &&& forall|m: U|
            #[trigger] call_ensures(self.spec_essence(), (x,), m) ==> chain_can_shoot_reverse(
                self@,
                m,
            )
    }
}

impl<T, U, F: Fn(T) -> U, G: Fn(U) -> U> Arrow<T, U, F, G> {
    /// Creates a new arrow with the given essence and no symbiotes.
    pub fn new(essence: F) -> (a: Self)
        ensures
            a@.len() == 0,
            a.spec_essence() == essence,
    {
        Arrow { essence, symbiosis: Vec::new(), input: core::marker::PhantomData }
    }

    /// Shoots the arrow: applies the essence to `input`, then every symbiote
    /// in attachment order, each to the previous result.
    pub fn shoot(&self, input: T) -> (result: U)
        requires
            self.can_shoot(input),
        ensures
            self.shoots(input, result),
        decreases self,
    {
        let mut result = (self.essence)(input);
        let ghost mid = result;
        let n = self.symbiosis.len();
        proof {
            assert(self@.skip(0) =~= self@);
            assert(self@.take(0) =~= Seq::<Arrow<U, U, G, G>>::empty());
        }
        let mut i: usize = 0;
        while i < n
            invariant
                i <= n,
                n == self@.len(),
                call_ensures(self.spec_essence(), (input,), mid),
                chain_shoots(self@.take(i as int), mid, result),
                chain_can_shoot(self@.skip(i as int), result),
            decreases n - i,
        {
            proof {
                assert(self@.skip(i as int).first() == self@[i as int]);
            }
            let previous = Ghost(result);
            result = self.symbiosis[i].shoot(result);
            proof {
                assert(self@.take(i + 1).drop_last() =~= self@.take(i as int));
                assert(self@.take(i + 1).last() == self@[i as int]);
                assert(stage(previous@));
                assert(chain_shoots(self@.take(i + 1).drop_last(), mid, previous@));
                assert(self@.take(i + 1).last().shoots(previous@, result));
                assert(chain_shoots(self@.take(i + 1), mid, result));
                assert(self@.skip(i as int).drop_first() =~= self@.skip(i + 1));
            }
            i = i + 1;
        }
        proof {
            assert(self@.take(n as int) =~= self@);
        }
        result
    }

    /// Shoots the arrow in reverse: applies the essence to `input`, then
    /// every symbiote in reverse attachment order, each itself in reverse.
    pub fn shoot_reverse(&self, input: T) -> (result: U)
        requires
            self.can_shoot_reverse(input),
        ensures
            self.shoots_reverse(input, result),
        decreases self,
    {
        let mut result = (self.essence)(input);
        let ghost mid = result;
        let n = self.symbiosis.len();
        proof {
            assert(self@.skip(n as int) =~= Seq::<Arrow<U, U, G, G>>::empty());
            assert(self@.take(n as int) =~= self@);
        }
        let mut i: usize = n;
        while i > 0
            invariant
                i <= self@.len(),
                call_ensures(self.spec_essence(), (input,), mid),
                chain_shoots_reverse(self@.skip(i as int), mid, result),
                chain_can_shoot_reverse(self@.take(i as int), result),
            decreases i,
        {
            i = i - 1;
            proof {
                assert(self@.take(i + 1).last() == self@[i as int]);
            }
            let previous = Ghost(result);
            result = self.symbiosis[i].shoot_reverse(result);
            proof {
                assert(self@.skip(i as int).drop_first() =~= self@.skip(i + 1));
                assert(self@.skip(i as int).first() == self@[i as int]);
                assert(stage(previous@));
                assert(chain_shoots_reverse(self@.skip(i as int).drop_first(), mid, previous@));
                assert(self@.skip(i as int).first().shoots_reverse(previous@, result));
                assert(chain_shoots_reverse(self@.skip(i as int), mid, result));
                assert(self@.take(i + 1).drop_last() =~= self@.take(i as int));
            }
        }
        proof {
            assert(self@.skip(0) =~= self@);
        }
        result
    }

    /// Applies only the essence, bypassing every symbiote.
    pub fn apply(&self, input: T) -> (result: U)
        requires
            call_requires(self.spec_essence(), (input,)),
        ensures
            call_ensures(self.spec_essence(), (input,), result),
    {
        (self.essence)(input)
    }

    /// Attaches `other` at the end of the symbiote list and returns the index
    /// it now occupies, for a later [`Arrow::remove`].
    pub fn symbiotize(&mut self, other: Arrow<U, U, G, G>) -> (idx: usize)
        ensures
            final(self)@ == old(self)@.push(other),
            final(self).spec_essence() == old(self).spec_essence(),
            idx == old(self)@.len(),
    {
        self.symbiosis.push(other);
        self.symbiosis.len() - 1
    }

    /// Detaches every symbiote, dropping each whole subtree.
    pub fn clear(&mut self)
        ensures
            final(self)@.len() == 0,
            final(self).spec_essence() == old(self).spec_essence(),
    {
        self.symbiosis.clear();
    }

    /// Removes the symbiote at `idx`, shifting every later symbiote down by
    /// one position.
    pub fn remove(&mut self, idx: usize)
        requires
            idx < old(self)@.len(),
        ensures
            final(self)@ == old(self)@.remove(idx as int),
            final(self)@.len() == old(self)@.len() - 1,
            forall|j: int| 0 <= j < idx ==> final(self)@[j] == old(self)@[j],
            forall|j: int|
                idx <= j < final(self)@.len() ==> final(self)@[j] == old(self)@[j + 1],
            final(self).spec_essence() == old(self).spec_essence(),
    {
        self.symbiosis.remove(idx);
    }

    /// Removes the symbiote at `idx` if there is one, shifting every later
    /// symbiote down by one position; reports [`OutOfRange`] and leaves the
    /// arrow unchanged when `idx` is past the end of the symbiote list.
    pub fn try_remove(&mut self, idx: usize) -> (r: Result<(), OutOfRange>)
        ensures
            idx < old(self)@.len() ==> {
                &&& r is Ok
                &&& final(self)@ == old(self)@.remove(idx as int)
                &&& final(self).spec_essence() == old(self).spec_essence()
            },
            idx >= old(self)@.len() ==> r is Err && *final(self) == *old(self),
    {
        if idx < self.symbiosis.len() {
            self.symbiosis.remove(idx);
            Ok(())
        } else {
            Err(OutOfRange)
        }
    }
}

/// The failure reported by [`Arrow::try_remove`] when the index points past
/// the end of the symbiote list.
#[derive(Debug, Clone, Copy, PartialEq, Eq, Structural)]
pub struct OutOfRange;

/// Creates an arrow whose essence passes its input through unchanged and
/// which has no symbiotes: shooting it returns the input as it came.
pub fn nop<T, G: Fn(T) -> T>() -> (a: Arrow<T, T, impl Fn(T) -> T, G>)
    ensures
        a@.len() == 0,
        forall|x: T| call_requires(a.spec_essence(), (x,)),
        forall|x: T, r: T| call_ensures(a.spec_essence(), (x,), r) ==> r == x,
{
    let identity = |x: T| -> (r: T)
        ensures
            r == x,
        { x };
    Arrow::new(identity)
}

} // verus!
