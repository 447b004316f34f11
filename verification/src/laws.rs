//! Laws relating the operations of an [`Arrow`].
//!
//! Each public proof function here states, over the spec relations of
//! [`Arrow`], a promise that the executable operations keep together.

use vstd::prelude::*;

use crate::arrow::Arrow;
use crate::arrow::chain_shoots;
use crate::arrow::chain_shoots_reverse;
use crate::arrow::chain_can_shoot;
use crate::arrow::chain_can_shoot_reverse;
use crate::arrow::stage;

verus! {

/// A run of an empty chain leaves the value unchanged.
pub proof fn lemma_chain_shoots_empty<U, G: Fn(U) -> U>(cs: Seq<Arrow<U, U, G, G>>, x: U, y: U)
    requires
        cs.len() == 0,
    ensures
        chain_shoots(cs, x, y) <==> y == x,
        chain_shoots_reverse(cs, x, y) <==> y == x,
{
}

/// Unfolds one step of `chain_shoots` at the tail of a non-empty chain.
pub proof fn lemma_chain_shoots_step<U, G: Fn(U) -> U>(cs: Seq<Arrow<U, U, G, G>>, x: U, y: U)
    requires
        cs.len() > 0,
    ensures
        chain_shoots(cs, x, y) <==> exists|m: U|
            #[trigger] stage(m) && chain_shoots(cs.drop_last(), x, m) && cs.last().shoots(m, y),
{
}

/// Unfolds one step of `chain_shoots_reverse` at the head of a non-empty
/// chain: the first-attached arrow runs last.
pub proof fn lemma_chain_shoots_reverse_step<U, G: Fn(U) -> U>(cs: Seq<Arrow<U, U, G, G>>, x: U, y: U)
    requires
        cs.len() > 0,
    ensures
        chain_shoots_reverse(cs, x, y) <==> exists|m: U|
            #[trigger] stage(m) && chain_shoots_reverse(cs.drop_first(), x, m)
                && cs.first().shoots_reverse(m, y),
{
}

/// Restates the definition of [`Arrow::shoots`].  At a concrete arrow type
/// the verifier does not unfold the recursive relations on its own; callers
/// reason through this and the other unfolding lemmas instead.
pub proof fn lemma_shoots_unfold<T, U, F: Fn(T) -> U, G: Fn(U) -> U>(
    a: Arrow<T, U, F, G>,
    x: T,
    y: U,
)
    ensures
        a.shoots(x, y) <==> exists|m: U|
            #[trigger] call_ensures(a.spec_essence(), (x,), m) && chain_shoots(a@, m, y),
{
}

/// Restates the definition of [`Arrow::shoots_reverse`].
pub proof fn lemma_shoots_reverse_unfold<T, U, F: Fn(T) -> U, G: Fn(U) -> U>(
    a: Arrow<T, U, F, G>,
    x: T,
    y: U,
)
    ensures
        a.shoots_reverse(x, y) <==> exists|m: U|
            #[trigger] call_ensures(a.spec_essence(), (x,), m) && chain_shoots_reverse(a@, m, y),
{
}

/// Restates the definition of [`Arrow::can_shoot`].
pub proof fn lemma_can_shoot_unfold<T, U, F: Fn(T) -> U, G: Fn(U) -> U>(a: Arrow<T, U, F, G>, x: T)
    ensures
        a.can_shoot(x) <==> {
            &&& call_requires(a.spec_essence(), (x,))
            &&& forall|m: U|
                #[trigger] call_ensures(a.spec_essence(), (x,), m) ==> chain_can_shoot(a@, m)
        },
{
}

/// Restates the definition of [`Arrow::can_shoot_reverse`].
pub proof fn lemma_can_shoot_reverse_unfold<T, U, F: Fn(T) -> U, G: Fn(U) -> U>(
    a: Arrow<T, U, F, G>,
    x: T,
)
    ensures
        a.can_shoot_reverse(x) <==> {
            &&& call_requires(a.spec_essence(), (x,))
            &&& forall|m: U|
                #[trigger] call_ensures(a.spec_essence(), (x,), m) ==> chain_can_shoot_reverse(
                    a@,
                    m,
                )
        },
{
}

/// Restates the definition of `chain_can_shoot`.
pub proof fn lemma_chain_can_shoot_unfold<U, G: Fn(U) -> U>(cs: Seq<Arrow<U, U, G, G>>, x: U)
    ensures
        chain_can_shoot(cs, x) <==> (cs.len() > 0 ==> {
            &&& cs.first().can_shoot(x)
            &&& forall|m: U|
                #[trigger] cs.first().shoots(x, m) ==> chain_can_shoot(cs.drop_first(), m)
        }),
{
}

/// Restates the definition of `chain_can_shoot_reverse`.
pub proof fn lemma_chain_can_shoot_reverse_unfold<U, G: Fn(U) -> U>(
    cs: Seq<Arrow<U, U, G, G>>,
    x: U,
)
    ensures
        chain_can_shoot_reverse(cs, x) <==> (cs.len() > 0 ==> {
            &&& cs.last().can_shoot_reverse(x)
            &&& forall|m: U|
                #[trigger] cs.last().shoots_reverse(x, m) ==> chain_can_shoot_reverse(
                    cs.drop_last(),
                    m,
                )
        }),
{
}

/// With no symbiotes attached, shooting — forward or in reverse — is exactly
/// applying the essence: both can produce `y` from `x` precisely when the
/// essence can.
pub proof fn lemma_execute_empty_is_apply<T, U, F: Fn(T) -> U, G: Fn(U) -> U>(
    a: Arrow<T, U, F, G>,
    x: T,
    y: U,
)
    requires
        a@.len() == 0,
    ensures
        a.shoots(x, y) <==> call_ensures(a.spec_essence(), (x,), y),
        a.shoots_reverse(x, y) <==> call_ensures(a.spec_essence(), (x,), y),
{
    lemma_chain_shoots_empty(a@, y, y);
    if call_ensures(a.spec_essence(), (x,), y) {
        assert(chain_shoots(a@, y, y));
        assert(chain_shoots_reverse(a@, y, y));
    }
}

/// Attaching `a@[0]` and then `a@[1]` composes in that order: a shot threads
/// the essence's result through `a@[0]` first and `a@[1]` second.
pub proof fn lemma_order_sensitivity<T, U, F: Fn(T) -> U, G: Fn(U) -> U>(
    a: Arrow<T, U, F, G>,
    x: T,
    y: U,
)
    requires
        a@.len() == 2,
    ensures
        a.shoots(x, y) <==> exists|m0: U, m1: U|
            #![trigger stage(m0), stage(m1)]
            {
                &&& stage(m0) && stage(m1)
                &&& call_ensures(a.spec_essence(), (x,), m0)
                &&& a@[0].shoots(m0, m1)
                &&& a@[1].shoots(m1, y)
            },
{
    assert(a@.drop_last().last() == a@[0]);
    assert(a@.drop_last().drop_last().len() == 0);
    assert(a@.last() == a@[1]);
    if a.shoots(x, y) {
        let m0 = choose|m: U|
            #[trigger] call_ensures(a.spec_essence(), (x,), m) && chain_shoots(a@, m, y);
        lemma_chain_shoots_step(a@, m0, y);
        let m1 = choose|m: U|
            #[trigger] stage(m) && chain_shoots(a@.drop_last(), m0, m) && a@.last().shoots(m, y);
        lemma_chain_shoots_step(a@.drop_last(), m0, m1);
        let m2 = choose|m: U|
            #[trigger] stage(m) && chain_shoots(a@.drop_last().drop_last(), m0, m)
                && a@.drop_last().last().shoots(m, m1);
        assert(m2 == m0);
        assert(stage(m0) && stage(m1));
        assert(call_ensures(a.spec_essence(), (x,), m0) && a@[0].shoots(m0, m1) && a@[1].shoots(
            m1,
            y,
        ));
    }
    if exists|m0: U, m1: U|
        #![trigger stage(m0), stage(m1)]
        {
            &&& stage(m0) && stage(m1)
            &&& call_ensures(a.spec_essence(), (x,), m0)
            &&& a@[0].shoots(m0, m1)
            &&& a@[1].shoots(m1, y)
        } {
        let (m0, m1) = choose|m0: U, m1: U|
            #![trigger stage(m0), stage(m1)]
            {
                &&& stage(m0) && stage(m1)
                &&& call_ensures(a.spec_essence(), (x,), m0)
                &&& a@[0].shoots(m0, m1)
                &&& a@[1].shoots(m1, y)
            };
        assert(stage(m0) && stage(m1));
        assert(chain_shoots(a@.drop_last().drop_last(), m0, m0));
        assert(chain_shoots(a@.drop_last(), m0, m1));
        assert(chain_shoots(a@, m0, y));
    }
}

/// With three symbiotes attached, a forward shot runs the essence and then
/// `a@[0]`, `a@[1]`, `a@[2]` in that order, while a reverse shot runs the
/// essence and then `a@[2]`, `a@[1]`, `a@[0]`, each symbiote itself in
/// reverse.
pub proof fn lemma_forward_backward_duality<T, U, F: Fn(T) -> U, G: Fn(U) -> U>(
    a: Arrow<T, U, F, G>,
    x: T,
    y: U,
)
    requires
        a@.len() == 3,
    ensures
        a.shoots(x, y) <==> exists|m0: U, m1: U, m2: U|
            #![trigger stage(m0), stage(m1), stage(m2)]
            {
                &&& stage(m0) && stage(m1) && stage(m2)
                &&& call_ensures(a.spec_essence(), (x,), m0)
                &&& a@[0].shoots(m0, m1)
                &&& a@[1].shoots(m1, m2)
                &&& a@[2].shoots(m2, y)
            },
        a.shoots_reverse(x, y) <==> exists|m0: U, m1: U, m2: U|
            #![trigger stage(m0), stage(m1), stage(m2)]
            {
                &&& stage(m0) && stage(m1) && stage(m2)
                &&& call_ensures(a.spec_essence(), (x,), m0)
                &&& a@[2].shoots_reverse(m0, m1)
                &&& a@[1].shoots_reverse(m1, m2)
                &&& a@[0].shoots_reverse(m2, y)
            },
{
    let s = a@;
    assert(s.drop_last().drop_last().last() == s[0]);
    assert(s.drop_last().last() == s[1]);
    assert(s.last() == s[2]);
    assert(s.drop_last().drop_last().drop_last().len() == 0);
    assert(s.drop_first().first() == s[1]);
    assert(s.drop_first().drop_first().first() == s[2]);
    assert(s.drop_first().drop_first().drop_first().len() == 0);
    if a.shoots(x, y) {
        let m0 = choose|m: U|
            #[trigger] call_ensures(a.spec_essence(), (x,), m) && chain_shoots(s, m, y);
        lemma_chain_shoots_step(s, m0, y);
        let m2 = choose|m: U|
            #[trigger] stage(m) && chain_shoots(s.drop_last(), m0, m) && s.last().shoots(m, y);
        lemma_chain_shoots_step(s.drop_last(), m0, m2);
        let m1 = choose|m: U|
            #[trigger] stage(m) && chain_shoots(s.drop_last().drop_last(), m0, m)
                && s.drop_last().last().shoots(m, m2);
        lemma_chain_shoots_step(s.drop_last().drop_last(), m0, m1);
        assert(stage(m0));
        assert(a@[0].shoots(m0, m1) && a@[1].shoots(m1, m2) && a@[2].shoots(m2, y));
    }
    if exists|m0: U, m1: U, m2: U|
        #![trigger stage(m0), stage(m1), stage(m2)]
        {
            &&& stage(m0) && stage(m1) && stage(m2)
            &&& call_ensures(a.spec_essence(), (x,), m0)
            &&& a@[0].shoots(m0, m1)
            &&& a@[1].shoots(m1, m2)
            &&& a@[2].shoots(m2, y)
        } {
        let (m0, m1, m2) = choose|m0: U, m1: U, m2: U|
            #![trigger stage(m0), stage(m1), stage(m2)]
            {
                &&& stage(m0) && stage(m1) && stage(m2)
                &&& call_ensures(a.spec_essence(), (x,), m0)
                &&& a@[0].shoots(m0, m1)
                &&& a@[1].shoots(m1, m2)
                &&& a@[2].shoots(m2, y)
            };
        assert(chain_shoots(s.drop_last().drop_last().drop_last(), m0, m0));
        assert(chain_shoots(s.drop_last().drop_last(), m0, m1));
        assert(chain_shoots(s.drop_last(), m0, m2));
        assert(chain_shoots(s, m0, y));
    }
    if a.shoots_reverse(x, y) {
        let n0 = choose|m: U|
            #[trigger] call_ensures(a.spec_essence(), (x,), m) && chain_shoots_reverse(s, m, y);
        lemma_chain_shoots_reverse_step(s, n0, y);
        let n2 = choose|m: U|
            #[trigger] stage(m) && chain_shoots_reverse(s.drop_first(), n0, m)
                && s.first().shoots_reverse(m, y);
        lemma_chain_shoots_reverse_step(s.drop_first(), n0, n2);
        let n1 = choose|m: U|
            #[trigger] stage(m) && chain_shoots_reverse(s.drop_first().drop_first(), n0, m)
                && s.drop_first().first().shoots_reverse(m, n2);
        lemma_chain_shoots_reverse_step(s.drop_first().drop_first(), n0, n1);
        assert(stage(n0));
        assert(a@[2].shoots_reverse(n0, n1) && a@[1].shoots_reverse(n1, n2)
            && a@[0].shoots_reverse(n2, y));
    }
    if exists|m0: U, m1: U, m2: U|
        #![trigger stage(m0), stage(m1), stage(m2)]
        {
            &&& stage(m0) && stage(m1) && stage(m2)
            &&& call_ensures(a.spec_essence(), (x,), m0)
            &&& a@[2].shoots_reverse(m0, m1)
            &&& a@[1].shoots_reverse(m1, m2)
            &&& a@[0].shoots_reverse(m2, y)
        } {
        let (n0, n1, n2) = choose|m0: U, m1: U, m2: U|
            #![trigger stage(m0), stage(m1), stage(m2)]
            {
                &&& stage(m0) && stage(m1) && stage(m2)
                &&& call_ensures(a.spec_essence(), (x,), m0)
                &&& a@[2].shoots_reverse(m0, m1)
                &&& a@[1].shoots_reverse(m1, m2)
                &&& a@[0].shoots_reverse(m2, y)
            };
        assert(chain_shoots_reverse(s.drop_first().drop_first().drop_first(), n0, n0));
        assert(chain_shoots_reverse(s.drop_first().drop_first(), n0, n1));
        assert(chain_shoots_reverse(s.drop_first(), n0, n2));
        assert(chain_shoots_reverse(s, n0, y));
    }
}

/// Clearing resets the arrow: afterwards a shot — forward or in reverse —
/// can produce `y` from `x` precisely when the essence alone can, no matter
/// what was attached before.
pub proof fn lemma_clear_then_execute_is_apply<T, U, F: Fn(T) -> U, G: Fn(U) -> U>(
    before: Arrow<T, U, F, G>,
    after: Arrow<T, U, F, G>,
    x: T,
    y: U,
)
    requires
        after@.len() == 0,
        after.spec_essence() == before.spec_essence(),
    ensures
        after.shoots(x, y) <==> call_ensures(before.spec_essence(), (x,), y),
        after.shoots_reverse(x, y) <==> call_ensures(before.spec_essence(), (x,), y),
{
    lemma_execute_empty_is_apply(after, x, y);
}

/// Attaching one more symbiote composes at the end: after `symbiotize`, a
/// shot of the grown arrow is a shot of the old arrow followed by a shot of
/// the new child, whatever was attached before.
pub proof fn lemma_symbiotize_composes<T, U, F: Fn(T) -> U, G: Fn(U) -> U>(
    parent: Arrow<T, U, F, G>,
    grown: Arrow<T, U, F, G>,
    child: Arrow<U, U, G, G>,
    x: T,
    y: U,
)
    requires
        grown@ == parent@.push(child),
        grown.spec_essence() == parent.spec_essence(),
    ensures
        grown.shoots(x, y) <==> exists|m: U|
            #[trigger] stage(m) && parent.shoots(x, m) && child.shoots(m, y),
{
    assert(grown@.drop_last() =~= parent@);
    assert(grown@.last() == child);
    if grown.shoots(x, y) {
        let m0 = choose|m: U|
            #[trigger] call_ensures(grown.spec_essence(), (x,), m) && chain_shoots(grown@, m, y);
        lemma_chain_shoots_step(grown@, m0, y);
        let w = choose|m: U|
            #[trigger] stage(m) && chain_shoots(grown@.drop_last(), m0, m)
                && grown@.last().shoots(m, y);
        assert(chain_shoots(parent@, m0, w));
        assert(parent.shoots(x, w));
        assert(stage(w) && parent.shoots(x, w) && child.shoots(w, y));
    }
    if exists|m: U| #[trigger] stage(m) && parent.shoots(x, m) && child.shoots(m, y) {
        let w = choose|m: U| #[trigger] stage(m) && parent.shoots(x, m) && child.shoots(m, y);
        let m0 = choose|m: U|
            #[trigger] call_ensures(parent.spec_essence(), (x,), m) && chain_shoots(parent@, m, w);
        assert(chain_shoots(grown@.drop_last(), m0, w));
        assert(chain_shoots(grown@, m0, y));
        assert(grown.shoots(x, y));
    }
}

/// Unfolds `chain_shoots` at the head of a non-empty chain: the
/// first-attached arrow runs first, and the rest of the chain runs from its
/// result.
pub proof fn lemma_chain_shoots_cons<U, G: Fn(U) -> U>(cs: Seq<Arrow<U, U, G, G>>, x: U, y: U)
    requires
        cs.len() > 0,
    ensures
        chain_shoots(cs, x, y) <==> exists|m: U|
            #[trigger] stage(m) && cs.first().shoots(x, m) && chain_shoots(cs.drop_first(), m, y),
    decreases cs.len(),
{
    if cs.len() == 1 {
        assert(cs.first() == cs.last());
        assert(cs.drop_last().len() == 0);
        assert(cs.drop_first().len() == 0);
        if chain_shoots(cs, x, y) {
            lemma_chain_shoots_step(cs, x, y);
            let w = choose|m: U|
                #[trigger] stage(m) && chain_shoots(cs.drop_last(), x, m) && cs.last().shoots(m, y);
            lemma_chain_shoots_empty(cs.drop_last(), x, w);
            assert(w == x);
            lemma_chain_shoots_empty(cs.drop_first(), y, y);
            assert(stage(y) && cs.first().shoots(x, y) && chain_shoots(cs.drop_first(), y, y));
        }
        if exists|m: U|
            #[trigger] stage(m) && cs.first().shoots(x, m) && chain_shoots(cs.drop_first(), m, y) {
            let m = choose|m: U|
                #[trigger] stage(m) && cs.first().shoots(x, m) && chain_shoots(
                    cs.drop_first(),
                    m,
                    y,
                );
            lemma_chain_shoots_empty(cs.drop_first(), m, y);
            assert(y == m);
            lemma_chain_shoots_empty(cs.drop_last(), x, x);
            assert(stage(x) && chain_shoots(cs.drop_last(), x, x) && cs.last().shoots(x, y));
            lemma_chain_shoots_step(cs, x, y);
        }
    } else {
        assert(cs.drop_last().first() == cs.first());
        assert(cs.drop_last().drop_first() =~= cs.drop_first().drop_last());
        assert(cs.drop_first().last() == cs.last());
        assert(cs.drop_first().len() > 0);
        if chain_shoots(cs, x, y) {
            lemma_chain_shoots_step(cs, x, y);
            let w = choose|m: U|
                #[trigger] stage(m) && chain_shoots(cs.drop_last(), x, m) && cs.last().shoots(m, y);
            lemma_chain_shoots_cons(cs.drop_last(), x, w);
            let m1 = choose|m: U|
                #[trigger] stage(m) && cs.drop_last().first().shoots(x, m) && chain_shoots(
                    cs.drop_last().drop_first(),
                    m,
                    w,
                );
            assert(chain_shoots(cs.drop_first().drop_last(), m1, w));
            assert(stage(w) && chain_shoots(cs.drop_first().drop_last(), m1, w)
                && cs.drop_first().last().shoots(w, y));
            lemma_chain_shoots_step(cs.drop_first(), m1, y);
            assert(stage(m1) && cs.first().shoots(x, m1) && chain_shoots(cs.drop_first(), m1, y));
        }
        if exists|m: U|
            #[trigger] stage(m) && cs.first().shoots(x, m) && chain_shoots(cs.drop_first(), m, y) {
            let m = choose|m: U|
                #[trigger] stage(m) && cs.first().shoots(x, m) && chain_shoots(
                    cs.drop_first(),
                    m,
                    y,
                );
            lemma_chain_shoots_step(cs.drop_first(), m, y);
            let w = choose|w: U|
                #[trigger] stage(w) && chain_shoots(cs.drop_first().drop_last(), m, w)
                    && cs.drop_first().last().shoots(w, y);
            assert(chain_shoots(cs.drop_last().drop_first(), m, w));
            assert(stage(m) && cs.drop_last().first().shoots(x, m) && chain_shoots(
                cs.drop_last().drop_first(),
                m,
                w,
            ));
            lemma_chain_shoots_cons(cs.drop_last(), x, w);
            assert(chain_shoots(cs.drop_last(), x, w));
            assert(stage(w) && chain_shoots(cs.drop_last(), x, w) && cs.last().shoots(w, y));
            lemma_chain_shoots_step(cs, x, y);
        }
    }
}

/// A chain grown at the end can always be run exactly when the old chain can
/// and the new arrow accepts every value the old chain can produce.
proof fn lemma_chain_can_shoot_push<U, G: Fn(U) -> U>(
    cs: Seq<Arrow<U, U, G, G>>,
    c: Arrow<U, U, G, G>,
    x: U,
)
    ensures
        chain_can_shoot(cs.push(c), x) <==> {
            &&& chain_can_shoot(cs, x)
            &&& forall|m: U| #[trigger] chain_shoots(cs, x, m) ==> c.can_shoot(m)
        },
    decreases cs.len(),
{
    lemma_chain_can_shoot_unfold(cs.push(c), x);
    lemma_chain_can_shoot_unfold(cs, x);
    if cs.len() == 0 {
        assert(cs.push(c).first() == c);
        assert(cs.push(c).drop_first() =~= Seq::<Arrow<U, U, G, G>>::empty());
        assert forall|m: U| #[trigger] cs.push(c).first().shoots(x, m) implies chain_can_shoot(
            cs.push(c).drop_first(),
            m,
        ) by {
            lemma_chain_can_shoot_unfold(cs.push(c).drop_first(), m);
        }
        assert forall|m: U| #[trigger] chain_shoots(cs, x, m) implies m == x by {
            lemma_chain_shoots_empty(cs, x, m);
        }
        if chain_can_shoot(cs, x) && (forall|m: U|
            #[trigger] chain_shoots(cs, x, m) ==> c.can_shoot(m)) {
            lemma_chain_shoots_empty(cs, x, x);
            assert(chain_shoots(cs, x, x));
            assert(c.can_shoot(x));
        }
    } else {
        assert(cs.push(c).first() == cs.first());
        assert(cs.push(c).drop_first() =~= cs.drop_first().push(c));
        if chain_can_shoot(cs.push(c), x) {
            assert forall|m: U| #[trigger] cs.first().shoots(x, m) implies chain_can_shoot(
                cs.drop_first(),
                m,
            ) by {
                assert(cs.push(c).first().shoots(x, m));
                assert(chain_can_shoot(cs.drop_first().push(c), m));
                lemma_chain_can_shoot_push(cs.drop_first(), c, m);
            }
            assert forall|w: U| #[trigger] chain_shoots(cs, x, w) implies c.can_shoot(w) by {
                lemma_chain_shoots_cons(cs, x, w);
                let m = choose|m: U|
                    #[trigger] stage(m) && cs.first().shoots(x, m) && chain_shoots(
                        cs.drop_first(),
                        m,
                        w,
                    );
                assert(cs.push(c).first().shoots(x, m));
                assert(chain_can_shoot(cs.drop_first().push(c), m));
                lemma_chain_can_shoot_push(cs.drop_first(), c, m);
            }
            assert(chain_can_shoot(cs, x));
        }
        if chain_can_shoot(cs, x) && (forall|m: U|
            #[trigger] chain_shoots(cs, x, m) ==> c.can_shoot(m)) {
            assert forall|m: U| #[trigger] cs.push(c).first().shoots(x, m) implies chain_can_shoot(
                cs.push(c).drop_first(),
                m,
            ) by {
                assert(cs.first().shoots(x, m));
                assert(chain_can_shoot(cs.drop_first(), m));
                assert forall|m2: U| #[trigger] chain_shoots(cs.drop_first(), m, m2) implies
                    c.can_shoot(m2) by {
                    assert(stage(m) && cs.first().shoots(x, m) && chain_shoots(
                        cs.drop_first(),
                        m,
                        m2,
                    ));
                    lemma_chain_shoots_cons(cs, x, m2);
                    assert(chain_shoots(cs, x, m2));
                }
                lemma_chain_can_shoot_push(cs.drop_first(), c, m);
                assert(chain_can_shoot(cs.drop_first().push(c), m));
            }
            assert(chain_can_shoot(cs.push(c), x));
        }
    }
}

/// Attaching one more symbiote composes callability as well: the grown arrow
/// may be shot at `x` exactly when the old arrow may be, and the new child
/// accepts every value the old arrow can produce from `x`.
pub proof fn lemma_symbiotize_can_shoot<T, U, F: Fn(T) -> U, G: Fn(U) -> U>(
    parent: Arrow<T, U, F, G>,
    grown: Arrow<T, U, F, G>,
    child: Arrow<U, U, G, G>,
    x: T,
)
    requires
        grown@ == parent@.push(child),
        grown.spec_essence() == parent.spec_essence(),
    ensures
        grown.can_shoot(x) <==> {
            &&& parent.can_shoot(x)
            &&& forall|m: U| #[trigger] parent.shoots(x, m) ==> child.can_shoot(m)
        },
{
    lemma_can_shoot_unfold(grown, x);
    lemma_can_shoot_unfold(parent, x);
    if grown.can_shoot(x) {
        assert forall|m0: U| #[trigger] call_ensures(parent.spec_essence(), (x,), m0) implies
            chain_can_shoot(parent@, m0) by {
            assert(chain_can_shoot(parent@.push(child), m0));
            lemma_chain_can_shoot_push(parent@, child, m0);
        }
        assert forall|m: U| #[trigger] parent.shoots(x, m) implies child.can_shoot(m) by {
            lemma_shoots_unfold(parent, x, m);
            let m0 = choose|w: U|
                #[trigger] call_ensures(parent.spec_essence(), (x,), w) && chain_shoots(
                    parent@,
                    w,
                    m,
                );
            assert(chain_can_shoot(parent@.push(child), m0));
            lemma_chain_can_shoot_push(parent@, child, m0);
        }
        assert(parent.can_shoot(x));
    }
    if parent.can_shoot(x) && (forall|m: U| #[trigger] parent.shoots(x, m) ==> child.can_shoot(m)) {
        assert forall|m0: U| #[trigger] call_ensures(grown.spec_essence(), (x,), m0) implies
            chain_can_shoot(grown@, m0) by {
            assert(chain_can_shoot(parent@, m0));
            assert forall|w: U| #[trigger] chain_shoots(parent@, m0, w) implies child.can_shoot(
                w,
            ) by {
                lemma_shoots_unfold(parent, x, w);
                assert(parent.shoots(x, w));
            }
            lemma_chain_can_shoot_push(parent@, child, m0);
        }
        assert(grown.can_shoot(x));
    }
}

/// Removing index 0 and then index 0 again from three symbiotes leaves only
/// the one that was attached last, and a shot afterwards threads the
/// essence's result through that symbiote alone.
pub proof fn lemma_remove_shifts_indices<T, U, F: Fn(T) -> U, G: Fn(U) -> U>(
    a0: Arrow<T, U, F, G>,
    a1: Arrow<T, U, F, G>,
    a2: Arrow<T, U, F, G>,
    x: T,
    y: U,
)
    requires
        a0@.len() == 3,
        a1@ == a0@.remove(0),
        a2@ == a1@.remove(0),
        a1.spec_essence() == a0.spec_essence(),
        a2.spec_essence() == a0.spec_essence(),
    ensures
        a1@ =~= seq![a0@[1], a0@[2]],
        a2@ =~= seq![a0@[2]],
        a2.shoots(x, y) <==> exists|m: U|
            #[trigger] stage(m) && call_ensures(a0.spec_essence(), (x,), m) && a0@[2].shoots(m, y),
{
    assert(a1@ =~= seq![a0@[1], a0@[2]]);
    assert(a2@ =~= seq![a0@[2]]);
    assert(a2@.last() == a0@[2]);
    assert(a2@.drop_last().len() == 0);
    if a2.shoots(x, y) {
        let m0 = choose|m: U|
            #[trigger] call_ensures(a2.spec_essence(), (x,), m) && chain_shoots(a2@, m, y);
        lemma_chain_shoots_step(a2@, m0, y);
        let m1 = choose|m: U|
            #[trigger] stage(m) && chain_shoots(a2@.drop_last(), m0, m) && a2@.last().shoots(m, y);
        assert(m1 == m0);
        assert(stage(m0));
    }
    if exists|m: U|
        #[trigger] stage(m) && call_ensures(a0.spec_essence(), (x,), m) && a0@[2].shoots(m, y) {
        let m0 = choose|m: U|
            #[trigger] stage(m) && call_ensures(a0.spec_essence(), (x,), m) && a0@[2].shoots(m, y);
        assert(chain_shoots(a2@.drop_last(), m0, m0));
        assert(chain_shoots(a2@, m0, y));
        assert(a2.shoots(x, y));
    }
}

} // verus!
