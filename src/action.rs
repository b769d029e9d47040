use vstd::prelude::*;

use crate::disk::Disk;

verus! {

// An action is a function from one storage state to a result and the next
// state: `Fn(Disk) -> (A, Disk)`. The combinators below build larger actions
// from smaller ones without running anything; running happens when the
// finished action is applied to a state.

/// The action that leaves the state as it is and gives back `a`.
pub fn unit<A: Copy>(a: A) -> (r: impl Fn(Disk) -> (A, Disk))
    ensures
        forall|d: Disk| r.requires((d,)),
        forall|d: Disk, x: (A, Disk)| r.ensures((d,), x) ==> x.0 == a && x.1 == d,
{
    move |d: Disk| -> (x: (A, Disk))
        ensures
            x.0 == a && x.1 == d,
        { (a, d) }
}

/// `d`, with its result passed through `f`.
pub fn map<A, B, D: Fn(Disk) -> (A, Disk), F: Fn(A) -> B>(d: D, f: F) -> (r: impl Fn(Disk) -> (
    B,
    Disk,
))
    requires
        forall|s: Disk| d.requires((s,)),
        forall|a: A| f.requires((a,)),
    ensures
        forall|s: Disk| r.requires((s,)),
        forall|s: Disk, y: (B, Disk)|
            r.ensures((s,), y) ==> exists|x: (A, Disk)|
                d.ensures((s,), x) && f.ensures((x.0,), y.0) && y.1 == x.1,
{
    move |s: Disk| -> (y: (B, Disk))
        ensures
            exists|x: (A, Disk)| d.ensures((s,), x) && f.ensures((x.0,), y.0) && y.1 == x.1,
        {
            let (a, s2) = d(s);
            (f(a), s2)
        }
}

/// Runs `d`, then runs the action that `d` gave back on the state after it.
pub fn flatten<A, E: Fn(Disk) -> (A, Disk), D: Fn(Disk) -> (E, Disk)>(d: D) -> (r: impl Fn(Disk) -> (
    A,
    Disk,
))
    requires
        forall|s: Disk| d.requires((s,)),
        forall|s: Disk, x: (E, Disk), s2: Disk| d.ensures((s,), x) ==> x.0.requires((s2,)),
    ensures
        forall|s: Disk| r.requires((s,)),
        forall|s: Disk, y: (A, Disk)|
            r.ensures((s,), y) ==> exists|x: (E, Disk)| d.ensures((s,), x) && x.0.ensures((x.1,), y),
{
    move |s: Disk| -> (y: (A, Disk))
        ensures
            exists|x: (E, Disk)| d.ensures((s,), x) && x.0.ensures((x.1,), y),
        {
            let (e, s2) = d(s);
            e(s2)
        }
}

/// Runs `d`, hands its result to `f`, and runs the action `f` gives back on
/// the state after `d`: the one way to make a step depend on an earlier
/// step's result.
pub fn flat_map<A, B, E: Fn(Disk) -> (B, Disk), D: Fn(Disk) -> (A, Disk), F: Fn(A) -> E>(
    d: D,
    f: F,
) -> (r: impl Fn(Disk) -> (B, Disk))
    requires
        forall|s: Disk| d.requires((s,)),
        forall|a: A| f.requires((a,)),
        forall|a: A, e: E, s: Disk| f.ensures((a,), e) ==> e.requires((s,)),
    ensures
        forall|s: Disk| r.requires((s,)),
        forall|s: Disk, y: (B, Disk)|
            r.ensures((s,), y) ==> exists|x: (A, Disk), e: E|
                d.ensures((s,), x) && f.ensures((x.0,), e) && e.ensures((x.1,), y),
{
    move |s: Disk| -> (y: (B, Disk))
        ensures
            exists|x: (A, Disk), e: E| d.ensures((s,), x) && f.ensures((x.0,), e) && e.ensures((x.1,), y),
        {
            let (a, s2) = d(s);
            let e = f(a);
            e(s2)
        }
}

/// Runs `d` then `d2` on the state `d` left, and combines their results.
pub fn map2<A, B, C, D: Fn(Disk) -> (A, Disk), D2: Fn(Disk) -> (B, Disk), F: Fn(A, B) -> C>(
    d: D,
    d2: D2,
    f: F,
) -> (r: impl Fn(Disk) -> (C, Disk))
    requires
        forall|s: Disk| d.requires((s,)),
        forall|s: Disk| d2.requires((s,)),
        forall|a: A, b: B| f.requires((a, b)),
    ensures
        forall|s: Disk| r.requires((s,)),
        forall|s: Disk, y: (C, Disk)|
            r.ensures((s,), y) ==> exists|x: (A, Disk), z: (B, Disk)|
                d.ensures((s,), x) && d2.ensures((x.1,), z) && f.ensures((x.0, z.0), y.0) && y.1
                    == z.1,
{
    move |s: Disk| -> (y: (C, Disk))
        ensures
            exists|x: (A, Disk), z: (B, Disk)|
                d.ensures((s,), x) && d2.ensures((x.1,), z) && f.ensures((x.0, z.0), y.0) && y.1
                    == z.1,
        {
            let (a, s2) = d(s);
            let (b, s3) = d2(s2);
            (f(a, b), s3)
        }
}

/// `d` with two layers of absence folded into one.
pub fn flatten_option<A, D: Fn(Disk) -> (Option<Option<A>>, Disk)>(d: D) -> (r: impl Fn(Disk) -> (
    Option<A>,
    Disk,
))
    requires
        forall|s: Disk| d.requires((s,)),
    ensures
        forall|s: Disk| r.requires((s,)),
        forall|s: Disk, y: (Option<A>, Disk)|
            r.ensures((s,), y) ==> exists|x: (Option<Option<A>>, Disk)|
                d.ensures((s,), x) && y.1 == x.1 && y.0 == match x.0 {
                    Some(inner) => inner,
                    None => None,
                },
{
    move |s: Disk| -> (y: (Option<A>, Disk))
        ensures
            exists|x: (Option<Option<A>>, Disk)|
                d.ensures((s,), x) && y.1 == x.1 && y.0 == match x.0 {
                    Some(inner) => inner,
                    None => None,
                },
        {
            let (o, s2) = d(s);
            let inner = match o {
                Some(inner) => inner,
                None => None,
            };
            (inner, s2)
        }
}

/// Runs the actions of `a` in list order, each on the state the one before
/// left, and collects their results in the same order.
pub fn sequence<A, D: Fn(Disk) -> (A, Disk)>(a: Vec<D>) -> (r: impl Fn(Disk) -> (Vec<A>, Disk))
    requires
        forall|k: int, s: Disk| 0 <= k < a@.len() ==> #[trigger] a@[k].requires((s,)),
    ensures
        forall|s: Disk| r.requires((s,)),
        forall|s: Disk, y: (Vec<A>, Disk)|
            r.ensures((s,), y) ==> y.0@.len() == a@.len() && exists|states: Seq<Disk>|
                states.len() == a@.len() + 1 && states[0] == s && states[a@.len() as int] == y.1
                    && forall|k: int|
                    0 <= k < a@.len() ==> (#[trigger] a@[k]).ensures(
                        (states[k],),
                        (y.0@[k], states[k + 1]),
                    ),
{
    move |s: Disk| -> (y: (Vec<A>, Disk))
        ensures
            y.0@.len() == a@.len() && exists|states: Seq<Disk>|
                states.len() == a@.len() + 1 && states[0] == s && states[a@.len() as int] == y.1
                    && forall|k: int|
                    0 <= k < a@.len() ==> (#[trigger] a@[k]).ensures(
                        (states[k],),
                        (y.0@[k], states[k + 1]),
                    ),
        {
            let mut out: Vec<A> = Vec::new();
            let mut cur = s;
            let ghost mut states: Seq<Disk> = seq![cur];
            let mut i: usize = 0;
            while i < a.len()
                invariant
                    0 <= i <= a@.len(),
                    forall|k: int, t: Disk| 0 <= k < a@.len() ==> #[trigger] a@[k].requires((t,)),
                    out@.len() == i,
                    states.len() == i + 1,
                    states[0] == s,
                    states[i as int] == cur,
                    forall|k: int|
                        0 <= k < i ==> (#[trigger] a@[k]).ensures(
                            (states[k],),
                            (out@[k], states[k + 1]),
                        ),
                decreases a.len() - i,
            {
                let (x, next) = (a[i])(cur);
                proof {
                    states = states.push(next);
                }
                out.push(x);
                cur = next;
                i = i + 1;
            }
            (out, cur)
        }
}

/// Where `x` holds a value, the action that `f` makes of it, with its result
/// wrapped in `Some`; otherwise the action that does nothing and gives back
/// nothing.
pub fn lift_disk_action<A: Copy, B, E: Fn(Disk) -> (B, Disk), F: Fn(A) -> E>(f: F, x: Option<A>) -> (r:
    impl Fn(Disk) -> (Option<B>, Disk))
    requires
        forall|a: A| f.requires((a,)),
        forall|a: A, e: E, s: Disk| f.ensures((a,), e) ==> e.requires((s,)),
    ensures
        forall|s: Disk| r.requires((s,)),
        forall|s: Disk, y: (Option<B>, Disk)|
            r.ensures((s,), y) ==> match x {
                Some(a) => exists|e: E, z: (B, Disk)|
                    f.ensures((a,), e) && e.ensures((s,), z) && y.0 == Some(z.0) && y.1 == z.1,
                None => y.0 is None && y.1 == s,
            },
{
    move |s: Disk| -> (y: (Option<B>, Disk))
        ensures
            match x {
                Some(a) => exists|e: E, z: (B, Disk)|
                    f.ensures((a,), e) && e.ensures((s,), z) && y.0 == Some(z.0) && y.1 == z.1,
                None => y.0 is None && y.1 == s,
            },
        {
            match x {
                Some(a) => {
                    let e = f(a);
                    let (b, s2) = e(s);
                    (Some(b), s2)
                },
                None => (None, s),
            }
        }
}

} // verus!
