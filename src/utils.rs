use vstd::prelude::*;

use crate::block::somes;

verus! {

/// `f` lifted to optional values: applied under `Some`, nothing stays nothing.
pub fn lift<A, B, F: Fn(A) -> B>(f: F) -> (r: impl Fn(Option<A>) -> Option<B>)
    requires
        forall|a: A| f.requires((a,)),
    ensures
        forall|x: Option<A>| r.requires((x,)),
        forall|x: Option<A>, y: Option<B>|
            r.ensures((x,), y) ==> match x {
                Some(a) => y matches Some(b) && f.ensures((a,), b),
                None => y is None,
            },
{
    move |x: Option<A>| -> (y: Option<B>)
        ensures
            match x {
                Some(a) => y matches Some(b) && f.ensures((a,), b),
                None => y is None,
            },
        {
            match x {
                Some(a) => Some(f(a)),
                None => None,
            }
        }
}

/// The present values of `b`, in order.
pub fn remove_options<A>(b: Vec<Option<A>>) -> (r: Vec<A>)
    ensures
        r@ == somes(b@),
{
    let ghost whole = b@;
    let mut b = b;
    let mut out: Vec<A> = Vec::new();
    while b.len() > 0
        invariant
            somes(whole) == somes(b@) + out@,
        decreases b.len(),
    {
        let ghost before = b@;
        let last = b.pop().unwrap();
        proof {
            assert(before.drop_last() == b@);
        }
        let ghost out_before = out@;
        match last {
            Some(a) => {
                out.insert(0, a);
                proof {
                    assert(somes(b@) + out@ =~= somes(b@) + seq![a] + out_before);
                }
            },
            None => {
                proof {
                    assert(somes(before) =~= somes(b@));
                }
            },
        }
    }
    assert(somes(b@) == Seq::<A>::empty());
    assert(somes(b@) + out@ =~= out@);
    out
}

/// The largest payload of one block, in characters.
pub const MAX_DATA_SIZE: usize = 50;

/// How many pieces a text of `len` characters is cut into.
pub open spec fn chunk_count(len: nat) -> nat {
    ((len + 49) / 50) as nat
}

/// `s` cut into block-sized pieces, in order; the last may be shorter, and
/// an empty text has none.
pub open spec fn data_chunks(s: Seq<char>) -> Seq<Seq<char>> {
    Seq::new(
        chunk_count(s.len()),
        |g: int|
            s.subrange(50 * g, if 50 * g + 50 < s.len() {
                50 * g + 50
            } else {
                s.len() as int
            }),
    )
}

pub open spec fn texts_view(v: Seq<String>) -> Seq<Seq<char>> {
    v.map_values(|t: String| t@)
}

/// The texts of `cs` joined in order.
pub open spec fn joined(cs: Seq<Seq<char>>) -> Seq<char>
    decreases cs.len(),
{
    if cs.len() == 0 {
        Seq::empty()
    } else {
        joined(cs.drop_last()) + cs.last()
    }
}

proof fn lemma_chunks_prefix(s: Seq<char>, g: int)
    requires
        0 <= g <= chunk_count(s.len()),
    ensures
        joined(data_chunks(s).take(g)) == s.subrange(0, if 50 * g < s.len() {
            50 * g
        } else {
            s.len() as int
        }),
    decreases g,
{
    let n = s.len() as int;
    vstd::arithmetic::div_mod::lemma_fundamental_div_mod(n + 49, 50);
    vstd::arithmetic::div_mod::lemma_mod_bound(n + 49, 50);
    if g == 0 {
        assert(data_chunks(s).take(0) =~= Seq::<Seq<char>>::empty());
        assert(s.subrange(0, 0) =~= Seq::<char>::empty());
    } else {
        lemma_chunks_prefix(s, g - 1);
        assert(data_chunks(s).take(g).drop_last() =~= data_chunks(s).take(g - 1));
        assert(50 * (g - 1) < n);
        let lo = 50 * (g - 1);
        let hi = if 50 * g < n {
            50 * g
        } else {
            n
        };
        assert(data_chunks(s).take(g).last() == s.subrange(lo, hi));
        assert(s.subrange(0, lo) + s.subrange(lo, hi) =~= s.subrange(0, hi));
    }
}

/// Cutting a text into block payloads loses nothing: the pieces joined in
/// order give the text back, and none is longer than a payload may be.
pub proof fn lemma_chunks_rejoin(s: Seq<char>)
    ensures
        joined(data_chunks(s)) == s,
        forall|g: int| 0 <= g < data_chunks(s).len() ==> 0 < (#[trigger] data_chunks(s)[g]).len() <= 50,
{
    let n = s.len() as int;
    vstd::arithmetic::div_mod::lemma_fundamental_div_mod(n + 49, 50);
    vstd::arithmetic::div_mod::lemma_mod_bound(n + 49, 50);
    let c = chunk_count(s.len()) as int;
    lemma_chunks_prefix(s, c);
    assert(data_chunks(s).take(c) =~= data_chunks(s));
    assert(50 * c >= n);
    assert(s.subrange(0, n) =~= s);
    assert forall|g: int| 0 <= g < data_chunks(s).len() implies 0 < (#[trigger] data_chunks(s)[g]).len() <= 50 by {
        assert(50 * g < n);
    }
}

/// Cuts `s` into pieces of at most one block's payload, in order.
pub fn string_to_block_data_chunks(s: String) -> (r: Vec<String>)
    ensures
        texts_view(r@) == data_chunks(s@),
{
    let text = s.as_str();
    let len = text.unicode_len();
    let mut out: Vec<String> = Vec::new();
    let mut start: usize = 0;
    let mut g: usize = 0;
    while start < len
        invariant
            len == s@.len(),
            text@ == s@,
            start as int == if 50 * g < len {
                50 * g
            } else {
                len as int
            },
            out@.len() == g,
            g <= chunk_count(len as nat),
            start < len ==> g < chunk_count(len as nat),
            start >= len ==> g == chunk_count(len as nat),
            forall|k: int| 0 <= k < g ==> (#[trigger] out@[k])@ == data_chunks(s@)[k],
        decreases len - start,
    {
        let end = if len - start > MAX_DATA_SIZE {
            start + MAX_DATA_SIZE
        } else {
            len
        };
        let piece = text.substring_char(start, end);
        out.push(String::from_str(piece));
        start = end;
        g = g + 1;
    }
    assert(texts_view(out@) =~= data_chunks(s@));
    out
}

/// Drops the last character (the line end of a line read from input).
pub fn remove_carriage_return(input: String) -> (r: String)
    ensures
        input@.len() == 0 ==> r@ == input@,
        input@.len() > 0 ==> r@ == input@.drop_last(),
{
    let text = input.as_str();
    let len = text.unicode_len();
    if len == 0 {
        return input;
    }
    String::from_str(text.substring_char(0, len - 1))
}

} // verus!
