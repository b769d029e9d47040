use vstd::prelude::*;

use crate::block::{
    block_in, block_opt_view, block_text, blocks_view, inode_capacity, inode_table_blocks,
    lemma_block_round_trip, lemma_somes_view, range_blocks, somes, storage_start, super_block_in,
    write_all, written, Block, BlockType, BlockView, SuperBlock, SuperBlockView,
};
use crate::utils::remove_options;
use crate::disk::{lemma_with_reads, with_reads, Disk, DiskView};
use crate::text::{
    chars_of, decimal, expect, expect_at, lemma_decimal_digits, lemma_read_decimal, read_number,
    read_number_at, write_decimal,
};

verus! {

/// An allocation record: a number and the head of its block chain.
/// No start block means the inode is free.
#[derive(Clone, Copy, Debug, PartialEq, Eq, Structural)]
pub struct Inode {
    pub number: u32,
    pub start_block: Option<u32>,
}

// ---------------------------------------------------------------------------
// Text form
// ---------------------------------------------------------------------------

pub open spec fn start_text(s: Option<u32>) -> Seq<char> {
    match s {
        Some(b) => decimal(b as nat),
        None => "null"@,
    }
}

pub open spec fn inode_text(i: Inode) -> Seq<char> {
    "{\"number\":"@ + decimal(i.number as nat) + ",\"start_block\":"@ + start_text(i.start_block)
        + "}"@
}

/// The inodes after the first, each preceded by a comma.
pub open spec fn inode_tail_text(s: Seq<Inode>) -> Seq<char>
    decreases s.len(),
{
    if s.len() == 0 {
        Seq::empty()
    } else {
        ","@ + inode_text(s[0]) + inode_tail_text(s.skip(1))
    }
}

/// The text form of a list of inodes, one group of the inode table.
pub open spec fn inodes_text(s: Seq<Inode>) -> Seq<char> {
    if s.len() == 0 {
        "[]"@
    } else {
        "["@ + inode_text(s[0]) + inode_tail_text(s.skip(1)) + "]"@
    }
}

pub open spec fn read_inode(t: Seq<char>, i: int) -> Option<(Inode, int)> {
    match expect(t, i, "{\"number\":"@) {
        Some(at1) => match read_number(t, at1) {
            Some((n, at2)) => match expect(t, at2, ",\"start_block\":"@) {
                Some(at3) => {
                    let start: Option<(Option<u32>, int)> = match expect(t, at3, "null"@) {
                        Some(at4) => Some((None, at4)),
                        None => match read_number(t, at3) {
                            Some((b, at4)) => Some((Some(b), at4)),
                            None => None,
                        },
                    };
                    match start {
                        Some((sb, at4)) => match expect(t, at4, "}"@) {
                            Some(at5) => Some((Inode { number: n, start_block: sb }, at5)),
                            None => None,
                        },
                        None => None,
                    }
                },
                None => None,
            },
            None => None,
        },
        None => None,
    }
}

/// Reads inodes from `i` up to and including the closing bracket.
pub open spec fn read_inode_items(t: Seq<char>, i: int) -> Option<(Seq<Inode>, int)>
    decreases t.len() - i,
{
    match read_inode(t, i) {
        Some((v, j)) => if i < j <= t.len() {
            match expect(t, j, ","@) {
                Some(k) => match read_inode_items(t, k) {
                    Some((rest, m)) => Some((seq![v] + rest, m)),
                    None => None,
                },
                None => match expect(t, j, "]"@) {
                    Some(k) => Some((seq![v], k)),
                    None => None,
                },
            }
        } else {
            None
        },
        None => None,
    }
}

pub open spec fn read_inode_list(t: Seq<char>) -> Option<Seq<Inode>> {
    match expect(t, 0, "["@) {
        Some(p) => match expect(t, p, "]"@) {
            Some(_) => Some(Seq::empty()),
            None => match read_inode_items(t, p) {
                Some((s, _)) => Some(s),
                None => None,
            },
        },
        None => None,
    }
}

/// The list of inodes whose text form `t` is, if any.
pub open spec fn decode_inodes(t: Seq<char>) -> Option<Seq<Inode>> {
    if exists|s: Seq<Inode>| inodes_text(s) == t {
        Some(choose|s: Seq<Inode>| inodes_text(s) == t)
    } else {
        None
    }
}

proof fn lemma_read_inode(t: Seq<char>, i: int, v: Inode)
    requires
        0 <= i,
        i + inode_text(v).len() <= t.len(),
        t.subrange(i, i + inode_text(v).len()) == inode_text(v),
    ensures
        read_inode(t, i) == Some((v, i + inode_text(v).len())),
{
    reveal_strlit("{\"number\":");
    reveal_strlit(",\"start_block\":");
    reveal_strlit("null");
    reveal_strlit("}");
    let w = inode_text(v);
    let l1 = "{\"number\":"@;
    let d = decimal(v.number as nat);
    let l2 = ",\"start_block\":"@;
    let st = start_text(v.start_block);
    lemma_decimal_digits(v.number as nat);
    let at1 = i + l1.len();
    let at2 = at1 + d.len();
    let at3 = at2 + l2.len();
    let at4 = at3 + st.len();
    let u = t.subrange(i, i + w.len());
    assert(u == w);
    assert(t.subrange(i, at1) =~= u.subrange(0, at1 - i));
    assert(w.subrange(0, at1 - i) =~= l1);
    assert(t.subrange(at1, at2) =~= u.subrange(at1 - i, at2 - i));
    assert(w.subrange(at1 - i, at2 - i) =~= d);
    assert(t[at2] == u[at2 - i]);
    lemma_read_decimal(t, at1, v.number);
    assert(t.subrange(at2, at3) =~= u.subrange(at2 - i, at3 - i));
    assert(w.subrange(at2 - i, at3 - i) =~= l2);
    assert(t.subrange(at3, at4) =~= u.subrange(at3 - i, at4 - i));
    assert(w.subrange(at3 - i, at4 - i) =~= st);
    assert(t.subrange(at4, at4 + 1) =~= u.subrange(at4 - i, at4 - i + 1));
    assert(w.subrange(at4 - i, at4 - i + 1) =~= "}"@);
    match v.start_block {
        Some(b) => {
            lemma_decimal_digits(b as nat);
            assert(t[at3] == st[0]);
            assert(t[at4] == u[at4 - i]);
            lemma_read_decimal(t, at3, b);
            if at3 + 4 <= t.len() {
                assert(t.subrange(at3, at3 + 4)[0] == t[at3]);
                assert(t.subrange(at3, at3 + 4) != "null"@);
            }
        },
        None => {},
    }
}

proof fn lemma_read_inode_items(t: Seq<char>, i: int, s: Seq<Inode>)
    requires
        s.len() > 0,
        0 <= i,
        i + inode_text(s[0]).len() + inode_tail_text(s.skip(1)).len() < t.len(),
        t.subrange(i, i + inode_text(s[0]).len() + inode_tail_text(s.skip(1)).len()) == inode_text(
            s[0],
        ) + inode_tail_text(s.skip(1)),
        t[i + inode_text(s[0]).len() + inode_tail_text(s.skip(1)).len()] == ']',
    ensures
        read_inode_items(t, i) == Some(
            (s, i + inode_text(s[0]).len() + inode_tail_text(s.skip(1)).len() + 1),
        ),
    decreases s.len(),
{
    reveal_strlit(",");
    reveal_strlit("]");
    reveal_strlit("{\"number\":");
    let v = s[0];
    let w = inode_text(v);
    let rest = s.skip(1);
    let tail = inode_tail_text(rest);
    let whole = w + tail;
    let j = i + w.len();
    assert(t.subrange(i, j) =~= whole.subrange(0, w.len() as int));
    assert(whole.subrange(0, w.len() as int) =~= w);
    lemma_read_inode(t, i, v);
    assert(w.len() > 0) by {
        assert(w[0] == '{');
    }
    if rest.len() == 0 {
        assert(tail.len() == 0);
        assert(t.subrange(j, j + 1) =~= "]"@);
        assert(t[j] != ',');
        assert(t.subrange(j, j + 1)[0] == t[j]);
        assert(t.subrange(j, j + 1) != ","@);
        assert(seq![v] =~= s);
    } else {
        let v2 = rest[0];
        let w2 = inode_text(v2);
        let tail2 = inode_tail_text(rest.skip(1));
        assert(tail == ","@ + w2 + tail2);
        assert(t[j] == whole[w.len() as int]);
        assert(t.subrange(j, j + 1) =~= ","@);
        let k = j + 1;
        assert(t.subrange(k, k + w2.len() + tail2.len()) =~= w2 + tail2) by {
            assert forall|m: int| 0 <= m < w2.len() + tail2.len() implies t[k + m] == (w2
                + tail2)[m] by {
                assert(t.subrange(i, i + whole.len())[w.len() + 1 + m] == t[k + m]);
            }
        }
        lemma_read_inode_items(t, k, rest);
        assert(seq![v] + rest =~= s);
    }
}

/// The text form of a list of inodes reads back as that list.
pub proof fn lemma_inode_list_fields_round_trip(s: Seq<Inode>)
    ensures
        read_inode_list(inodes_text(s)) == Some(s),
{
    reveal_strlit("[");
    reveal_strlit("]");
    reveal_strlit("[]");
    reveal_strlit("{\"number\":");
    let t = inodes_text(s);
    if s.len() == 0 {
        assert(t.subrange(0, 1) =~= "["@);
        assert(t.subrange(1, 2) =~= "]"@);
    } else {
        let w = inode_text(s[0]);
        let tail = inode_tail_text(s.skip(1));
        assert(t.subrange(0, 1) =~= "["@);
        assert(w[0] == '{');
        assert(t[1] == w[0]);
        assert(t.subrange(1, 2)[0] == t[1]);
        assert(t.subrange(1, 2) != "]"@);
        assert(t.subrange(1, (1 + w.len() + tail.len()) as int) =~= w + tail);
        lemma_read_inode_items(t, 1, s);
    }
}

/// Parsing the text form of a list of inodes gives back the list.
pub proof fn lemma_inode_list_round_trip(s: Seq<Inode>)
    ensures
        decode_inodes(inodes_text(s)) == Some(s),
{
    lemma_inode_list_fields_round_trip(s);
    let t = inodes_text(s);
    assert(exists|x: Seq<Inode>| inodes_text(x) == t);
    let c = choose|x: Seq<Inode>| inodes_text(x) == t;
    lemma_inode_list_fields_round_trip(c);
}

proof fn lemma_inode_tail_push(s: Seq<Inode>, v: Inode)
    ensures
        inode_tail_text(s.push(v)) == inode_tail_text(s) + ","@ + inode_text(v),
    decreases s.len(),
{
    assert(s.push(v)[0] == if s.len() == 0 { v } else { s[0] });
    assert(inode_tail_text(Seq::<Inode>::empty()) == Seq::<char>::empty());
    if s.len() == 0 {
        assert(s.push(v).skip(1) =~= Seq::<Inode>::empty());
        assert(inode_tail_text(s.push(v)) =~= inode_tail_text(s) + ","@ + inode_text(v));
    } else {
        assert(s.push(v).skip(1) =~= s.skip(1).push(v));
        lemma_inode_tail_push(s.skip(1), v);
        assert(inode_tail_text(s.push(v)) =~= inode_tail_text(s) + ","@ + inode_text(v));
    }
}

pub proof fn lemma_decode_inodes(t: Seq<char>)
    ensures
        decode_inodes(t) == match read_inode_list(t) {
            Some(s) => if inodes_text(s) == t {
                Some(s)
            } else {
                None
            },
            None => None,
        },
{
    if exists|s: Seq<Inode>| inodes_text(s) == t {
        let c = choose|s: Seq<Inode>| inodes_text(s) == t;
        lemma_inode_list_fields_round_trip(c);
    }
}

fn write_inode_text(out: &mut String, v: Inode)
    ensures
        final(out)@ == old(out)@ + inode_text(v),
{
    out.append("{\"number\":");
    write_decimal(out, v.number);
    out.append(",\"start_block\":");
    match v.start_block {
        Some(b) => write_decimal(out, b),
        None => out.append("null"),
    }
    out.append("}");
    proof {
        assert(final(out)@ =~= old(out)@ + inode_text(v));
    }
}

/// The text form of a list of inodes.
pub fn inodes_to_text(s: &[Inode]) -> (r: String)
    ensures
        r@ == inodes_text(s@),
{
    let mut out = String::new();
    out.append("[");
    if s.len() > 0 {
        write_inode_text(&mut out, s[0]);
        let mut i: usize = 1;
        while i < s.len()
            invariant
                1 <= i <= s.len(),
                out@ == "["@ + inode_text(s@[0]) + inode_tail_text(s@.subrange(1, i as int)),
            decreases s.len() - i,
        {
            out.append(",");
            write_inode_text(&mut out, s[i]);
            proof {
                lemma_inode_tail_push(s@.subrange(1, i as int), s@[i as int]);
                assert(s@.subrange(1, i as int).push(s@[i as int]) =~= s@.subrange(1, i + 1));
                assert(out@ =~= "["@ + inode_text(s@[0]) + inode_tail_text(s@.subrange(1, i + 1)));
            }
            i = i + 1;
        }
        assert(s@.subrange(1, s.len() as int) =~= s@.skip(1));
    }
    out.append("]");
    proof {
        if s.len() == 0 {
            reveal_strlit("[");
            reveal_strlit("]");
            reveal_strlit("[]");
            assert(out@ =~= "[]"@);
        } else {
            assert(out@ =~= inodes_text(s@));
        }
    }
    out
}

fn read_inode_at(t: &Vec<char>, i: usize) -> (r: Option<(Inode, usize)>)
    requires
        i <= t.len(),
    ensures
        match read_inode(t@, i as int) {
            Some((v, j)) => r is Some && r.unwrap().0 == v && r.unwrap().1 as int == j,
            None => r is None,
        },
        r is Some ==> r.unwrap().1 <= t.len(),
{
    let at1 = match expect_at(t, i, "{\"number\":") {
        Some(p) => p,
        None => return None,
    };
    let (n, at2) = match read_number_at(t, at1) {
        Some(x) => x,
        None => return None,
    };
    let at3 = match expect_at(t, at2, ",\"start_block\":") {
        Some(p) => p,
        None => return None,
    };
    let (sb, at4) = match expect_at(t, at3, "null") {
        Some(p) => (None, p),
        None => match read_number_at(t, at3) {
            Some((b, p)) => (Some(b), p),
            None => return None,
        },
    };
    match expect_at(t, at4, "}") {
        Some(at5) => Some((Inode { number: n, start_block: sb }, at5)),
        None => None,
    }
}

fn read_inode_list_at(t: &Vec<char>) -> (r: Option<Vec<Inode>>)
    ensures
        match read_inode_list(t@) {
            Some(s) => r is Some && r.unwrap()@ == s,
            None => r is None,
        },
{
    let p = match expect_at(t, 0, "[") {
        Some(p) => p,
        None => return None,
    };
    if expect_at(t, p, "]").is_some() {
        return Some(Vec::new());
    }
    let mut acc: Vec<Inode> = Vec::new();
    let mut j: usize = p;
    loop
        invariant
            p <= j <= t.len(),
            expect(t@, 0, "["@) == Some(p as int),
            expect(t@, p as int, "]"@) is None,
            read_inode_items(t@, p as int) == match read_inode_items(t@, j as int) {
                Some((s, k)) => Some((acc@ + s, k)),
                None => None,
            },
        decreases t.len() - j,
    {
        let (v, k) = match read_inode_at(t, j) {
            Some(x) => x,
            None => {
                assert(read_inode_items(t@, j as int) is None);
                return None;
            },
        };
        if !(j < k) {
            assert(read_inode_items(t@, j as int) is None);
            return None;
        }
        match expect_at(t, k, ",") {
            Some(m) => {
                proof {
                    match read_inode_items(t@, m as int) {
                        Some((s, q)) => {
                            assert(acc@ + (seq![v] + s) =~= acc@.push(v) + s);
                        },
                        None => {},
                    }
                }
                acc.push(v);
                j = m;
            },
            None => {
                match expect_at(t, k, "]") {
                    Some(_) => {
                        proof {
                            assert(acc@ + seq![v] =~= acc@.push(v));
                        }
                        acc.push(v);
                        return Some(acc);
                    },
                    None => {
                        assert(read_inode_items(t@, j as int) is None);
                        return None;
                    },
                }
            },
        }
    }
}

impl Inode {
    /// The list of inodes that `s` is the text form of, if any.
    pub fn parse_inodes(s: &str) -> (r: Option<Vec<Inode>>)
        ensures
            match r {
                Some(v) => decode_inodes(s@) == Some(v@),
                None => decode_inodes(s@) is None,
            },
    {
        proof {
            lemma_decode_inodes(s@);
        }
        let cs = chars_of(s);
        match read_inode_list_at(&cs) {
            Some(v) => {
                let back = inodes_to_text(v.as_slice());
                if back == s.to_owned() {
                    Some(v)
                } else {
                    None
                }
            },
            None => None,
        }
    }
}

// ---------------------------------------------------------------------------
// The inode table on the medium
// ---------------------------------------------------------------------------

/// The inodes that the blocks `bs` hold, in order; a block that is missing
/// or whose payload is no list of inodes adds none.
pub open spec fn inodes_of_blocks(bs: Seq<Option<BlockView>>) -> Seq<Inode>
    decreases bs.len(),
{
    if bs.len() == 0 {
        Seq::empty()
    } else {
        inodes_of_blocks(bs.drop_last()) + match bs.last() {
            Some(b) => match decode_inodes(b.data) {
                Some(s) => s,
                None => Seq::empty(),
            },
            None => Seq::empty(),
        }
    }
}

/// The inode table that the medium holds, if its superblock reads.
pub open spec fn inode_table_in(m: Option<Seq<Seq<char>>>) -> Option<Seq<Inode>> {
    match super_block_in(m) {
        Some(s) => Some(inodes_of_blocks(range_blocks(m, 2, storage_start(s.total_blocks) as int))),
        None => None,
    }
}

/// How many records reading the inode table takes, the superblock included.
pub open spec fn inode_table_reads(m: Option<Seq<Seq<char>>>) -> nat {
    match super_block_in(m) {
        Some(s) => 1 + inode_table_blocks(s.total_blocks),
        None => 1,
    }
}

/// The first inode of `s` with number `n`.
pub open spec fn find_inode(s: Seq<Inode>, n: u32) -> Option<Inode>
    decreases s.len(),
{
    if s.len() == 0 {
        None
    } else if s[0].number == n {
        Some(s[0])
    } else {
        find_inode(s.skip(1), n)
    }
}

/// The first free inode of `s`.
pub open spec fn first_free(s: Seq<Inode>) -> Option<Inode>
    decreases s.len(),
{
    if s.len() == 0 {
        None
    } else if s[0].start_block is None {
        Some(s[0])
    } else {
        first_free(s.skip(1))
    }
}

/// The free inodes of `s`, in order.
pub open spec fn free_inodes_of(s: Seq<Inode>) -> Seq<Inode>
    decreases s.len(),
{
    if s.len() == 0 {
        Seq::empty()
    } else {
        free_inodes_of(s.drop_last()) + if s.last().start_block is None {
            seq![s.last()]
        } else {
            Seq::empty()
        }
    }
}

/// Walks the chain that starts at block `n`, inside the block range
/// `lo .. hi`, following at most `fuel` links. Nothing where the walk leaves
/// the range, a block is missing or free, or the links run out.
pub open spec fn chain_from(m: Option<Seq<Seq<char>>>, n: u32, lo: int, hi: int, fuel: nat) -> Option<
    Seq<BlockView>,
>
    decreases fuel,
{
    if !(lo <= n < hi) {
        None
    } else {
        match block_in(m, n) {
            Some(b) => match b.b_type {
                BlockType::End => Some(seq![b]),
                BlockType::Next(k) => if fuel == 0 {
                    None
                } else {
                    match chain_from(m, k, lo, hi, (fuel - 1) as nat) {
                        Some(rest) => Some(seq![b] + rest),
                        None => None,
                    }
                },
                BlockType::Free => None,
            },
            None => None,
        }
    }
}

/// How many records that walk reads: one per block inside the range.
pub open spec fn chain_reads(m: Option<Seq<Seq<char>>>, n: u32, lo: int, hi: int, fuel: nat) -> nat
    decreases fuel,
{
    if !(lo <= n < hi) {
        0
    } else {
        match block_in(m, n) {
            Some(b) => match b.b_type {
                BlockType::Next(k) => if fuel == 0 {
                    1
                } else {
                    1 + chain_reads(m, k, lo, hi, (fuel - 1) as nat)
                },
                _ => 1,
            },
            None => 1,
        }
    }
}

/// How many blocks the storage range of a medium of `total` blocks holds:
/// no chain without a repeat follows more links than that.
pub open spec fn storage_len(total: u32) -> nat {
    if total + 1 > storage_start(total) {
        (total + 1 - storage_start(total)) as nat
    } else {
        0
    }
}

/// The chain that inode `i` owns on a medium of `total` blocks, walked in
/// its storage range.
pub open spec fn inode_chain_within(m: Option<Seq<Seq<char>>>, total: u32, i: Inode) -> Option<
    Seq<BlockView>,
> {
    match i.start_block {
        Some(s) => chain_from(m, s, storage_start(total) as int, total + 1, storage_len(total)),
        None => None,
    }
}

pub open spec fn inode_chain_reads_within(m: Option<Seq<Seq<char>>>, total: u32, i: Inode) -> nat {
    match i.start_block {
        Some(s) => chain_reads(m, s, storage_start(total) as int, total + 1, storage_len(total)),
        None => 0,
    }
}

/// The blocks of the chain that inode `i` owns, in chain order, within the
/// storage range that the medium's superblock gives.
pub open spec fn inode_chain(m: Option<Seq<Seq<char>>>, i: Inode) -> Option<Seq<BlockView>> {
    match super_block_in(m) {
        Some(sb) => inode_chain_within(m, sb.total_blocks, i),
        None => None,
    }
}

pub open spec fn inode_chain_reads(m: Option<Seq<Seq<char>>>, i: Inode) -> nat {
    match super_block_in(m) {
        Some(sb) => inode_chain_reads_within(m, sb.total_blocks, i),
        None => 0,
    }
}

/// `bs` linked into one chain: each block points to the next, the last ends it.
pub open spec fn linked(bs: Seq<BlockView>) -> Seq<BlockView> {
    Seq::new(
        bs.len(),
        |k: int|
            BlockView {
                number: bs[k].number,
                b_type: if k + 1 < bs.len() {
                    BlockType::Next(bs[k + 1].number)
                } else {
                    BlockType::End
                },
                data: bs[k].data,
            },
    )
}

pub proof fn lemma_find_inode_skip(s: Seq<Inode>, n: u32, i: int)
    requires
        0 <= i < s.len(),
        s[i].number != n,
    ensures
        find_inode(s.skip(i), n) == find_inode(s.skip(i + 1), n),
{
    assert(s.skip(i).skip(1) =~= s.skip(i + 1));
}

pub proof fn lemma_first_free_skip(s: Seq<Inode>, i: int)
    requires
        0 <= i < s.len(),
        s[i].start_block is Some,
    ensures
        first_free(s.skip(i)) == first_free(s.skip(i + 1)),
{
    assert(s.skip(i).skip(1) =~= s.skip(i + 1));
}

fn find_inode_in(v: &Vec<Inode>, n: u32) -> (r: Option<Inode>)
    ensures
        r == find_inode(v@, n),
{
    let mut i: usize = 0;
    assert(v@.skip(0) =~= v@);
    while i < v.len()
        invariant
            0 <= i <= v.len(),
            find_inode(v@, n) == find_inode(v@.skip(i as int), n),
        decreases v.len() - i,
    {
        if v[i].number == n {
            return Some(v[i]);
        }
        proof {
            lemma_find_inode_skip(v@, n, i as int);
        }
        i = i + 1;
    }
    None
}

fn first_free_in(v: &Vec<Inode>) -> (r: Option<Inode>)
    ensures
        r == first_free(v@),
{
    let mut i: usize = 0;
    assert(v@.skip(0) =~= v@);
    while i < v.len()
        invariant
            0 <= i <= v.len(),
            first_free(v@) == first_free(v@.skip(i as int)),
        decreases v.len() - i,
    {
        if v[i].start_block.is_none() {
            return Some(v[i]);
        }
        proof {
            lemma_first_free_skip(v@, i as int);
        }
        i = i + 1;
    }
    None
}

pub open spec fn opt_blocks_view(s: Seq<Option<Block>>) -> Seq<Option<BlockView>> {
    s.map_values(|o: Option<Block>| block_opt_view(o))
}

impl Inode {
    /// The all-free inode table of a medium of `size` blocks, numbered from 1.
    pub fn generate_inodes(size: u32) -> (r: Vec<Inode>)
        requires
            inode_capacity(size) <= u32::MAX,
        ensures
            r@ == Seq::new(inode_capacity(size), |k: int| Inode { number: (k + 1) as u32, start_block: None }),
    {
        let sb = SuperBlock::new(size);
        let total = sb.get_inode_count() as u32;
        let mut out: Vec<Inode> = Vec::new();
        let mut n: u32 = 0;
        while n < total
            invariant
                0 <= n <= total,
                total == inode_capacity(size),
                out@ == Seq::new(n as nat, |k: int| Inode { number: (k + 1) as u32, start_block: None }),
            decreases total - n,
        {
            out.push(Inode { number: n + 1, start_block: None });
            n = n + 1;
            assert(out@ =~= Seq::new(n as nat, |k: int| Inode { number: (k + 1) as u32, start_block: None }));
        }
        out
    }

    /// The inodes that the blocks hold, in order; blocks that are missing or
    /// hold no list of inodes are skipped.
    pub fn blocks_to_inodes(b: Vec<Option<Block>>) -> (r: Vec<Inode>)
        ensures
            r@ == inodes_of_blocks(opt_blocks_view(b@)),
    {
        let mut out: Vec<Inode> = Vec::new();
        let mut i: usize = 0;
        while i < b.len()
            invariant
                0 <= i <= b.len(),
                out@ == inodes_of_blocks(opt_blocks_view(b@).take(i as int)),
            decreases b.len() - i,
        {
            proof {
                assert(opt_blocks_view(b@).take(i + 1).drop_last() =~= opt_blocks_view(b@).take(
                    i as int,
                ));
            }
            match &b[i] {
                Some(block) => {
                    match Inode::parse_inodes(block.data.as_str()) {
                        Some(v) => {
                            let mut v = v;
                            out.append(&mut v);
                        },
                        None => {},
                    }
                },
                None => {},
            }
            proof {
                assert(out@ =~= inodes_of_blocks(opt_blocks_view(b@).take(i + 1)));
            }
            i = i + 1;
        }
        assert(opt_blocks_view(b@).take(b.len() as int) =~= opt_blocks_view(b@));
        out
    }

    /// Reads the blocks of the inode table, in order.
    fn read_table_blocks(lo: u32, hi: u32, disk: Disk) -> (r: (Vec<Option<Block>>, Disk))
        requires
            lo <= hi,
        ensures
            opt_blocks_view(r.0@) == range_blocks(disk@.medium, lo as int, hi as int),
            r.1@ == with_reads(disk@, (hi - lo) as nat),
    {
        let ghost d0 = disk@;
        let mut disk = disk;
        let mut out: Vec<Option<Block>> = Vec::new();
        let mut n: u32 = lo;
        proof {
            lemma_with_reads(d0, 0, 0);
        }
        while n < hi
            invariant
                lo <= n <= hi,
                d0.medium == disk@.medium,
                opt_blocks_view(out@) == range_blocks(d0.medium, lo as int, n as int),
                disk@ == with_reads(d0, (n - lo) as nat),
            decreases hi - n,
        {
            let (b, d2) = Block::get_block(n, disk);
            disk = d2;
            proof {
                lemma_with_reads(d0, (n - lo) as nat, 1);
            }
            out.push(b);
            proof {
                let rb = range_blocks(d0.medium, lo as int, n + 1);
                assert(rb.drop_last() == range_blocks(d0.medium, lo as int, n as int));
                assert(opt_blocks_view(out@) =~= rb);
            }
            n = n + 1;
        }
        (out, disk)
    }

    /// Reads the whole inode table, with the superblock read on the way;
    /// nothing where the superblock cannot be read.
    fn read_inode_table(disk: Disk) -> (r: (Option<(Vec<Inode>, SuperBlock)>, Disk))
        ensures
            match inode_table_in(disk@.medium) {
                Some(t) => r.0 is Some && r.0.unwrap().0@ == t && super_block_in(disk@.medium)
                    == Some(r.0.unwrap().1@),
                None => r.0 is None,
            },
            r.1@ == with_reads(disk@, inode_table_reads(disk@.medium)),
    {
        let ghost d0 = disk@;
        let (sb, disk) = SuperBlock::get_super_block(disk);
        match sb {
            None => (None, disk),
            Some(sb) => {
                let range = sb.get_inode_table_block_range();
                let (blocks, disk) = Inode::read_table_blocks(range.start, range.end, disk);
                proof {
                    lemma_with_reads(d0, 1, inode_table_blocks(sb.total_blocks));
                }
                (Some((Inode::blocks_to_inodes(blocks), sb)), disk)
            },
        }
    }

    /// Reads the whole inode table; nothing where the superblock cannot be read.
    pub fn get_inode_table(disk: Disk) -> (r: (Option<Vec<Inode>>, Disk))
        ensures
            match inode_table_in(disk@.medium) {
                Some(t) => r.0 is Some && r.0.unwrap()@ == t,
                None => r.0 is None,
            },
            r.1@ == with_reads(disk@, inode_table_reads(disk@.medium)),
    {
        let (t, disk) = Inode::read_inode_table(disk);
        match t {
            Some((t, _)) => (Some(t), disk),
            None => (None, disk),
        }
    }

    /// The first inode of the table with number `s`, with the superblock
    /// read on the way, which a walk of its chain needs.
    pub fn get_inode_and_super_block(s: u32, disk: Disk) -> (r: (Option<(Inode, SuperBlock)>, Disk))
        ensures
            match inode_table_in(disk@.medium) {
                Some(t) => match find_inode(t, s) {
                    Some(i) => r.0 is Some && r.0.unwrap().0 == i && super_block_in(disk@.medium)
                        == Some(r.0.unwrap().1@),
                    None => r.0 is None,
                },
                None => r.0 is None,
            },
            r.1@ == with_reads(disk@, inode_table_reads(disk@.medium)),
    {
        let (t, disk) = Inode::read_inode_table(disk);
        match t {
            Some((t, sb)) => match find_inode_in(&t, s) {
                Some(i) => (Some((i, sb)), disk),
                None => (None, disk),
            },
            None => (None, disk),
        }
    }

    /// The first inode of the table with number `s`.
    pub fn get_inode(s: u32, disk: Disk) -> (r: (Option<Inode>, Disk))
        ensures
            r.0 == match inode_table_in(disk@.medium) {
                Some(t) => find_inode(t, s),
                None => None,
            },
            r.1@ == with_reads(disk@, inode_table_reads(disk@.medium)),
    {
        let (t, disk) = Inode::get_inode_table(disk);
        match t {
            Some(t) => (find_inode_in(&t, s), disk),
            None => (None, disk),
        }
    }

    /// The first free inode of the table; nothing where all are taken.
    pub fn get_free_inode(disk: Disk) -> (r: (Option<Inode>, Disk))
        ensures
            r.0 == match inode_table_in(disk@.medium) {
                Some(t) => first_free(t),
                None => None,
            },
            r.1@ == with_reads(disk@, inode_table_reads(disk@.medium)),
    {
        let (t, disk) = Inode::get_inode_table(disk);
        match t {
            Some(t) => (first_free_in(&t), disk),
            None => (None, disk),
        }
    }

    /// Every free inode of the table, in order.
    pub fn get_free_inodes(disk: Disk) -> (r: (Vec<Inode>, Disk))
        ensures
            r.0@ == match inode_table_in(disk@.medium) {
                Some(t) => free_inodes_of(t),
                None => Seq::empty(),
            },
            r.1@ == with_reads(disk@, inode_table_reads(disk@.medium)),
    {
        let (t, disk) = Inode::get_inode_table(disk);
        let mut out: Vec<Inode> = Vec::new();
        match t {
            Some(t) => {
                let mut i: usize = 0;
                while i < t.len()
                    invariant
                        0 <= i <= t.len(),
                        out@ == free_inodes_of(t@.take(i as int)),
                    decreases t.len() - i,
                {
                    proof {
                        assert(t@.take(i + 1).drop_last() =~= t@.take(i as int));
                    }
                    if t[i].start_block.is_none() {
                        out.push(t[i]);
                    }
                    proof {
                        assert(out@ =~= free_inodes_of(t@.take(i + 1)));
                    }
                    i = i + 1;
                }
                assert(t@.take(t.len() as int) =~= t@);
                (out, disk)
            },
            None => (out, disk),
        }
    }

    /// Walks the chain that inode `i` owns, from its start block to the block
    /// tagged End, inside the storage range of `sb` (the medium's superblock,
    /// which the caller has read). Nothing where the inode is free, the walk
    /// leaves the storage range, a block is missing or free, or the chain
    /// follows more links than the range has blocks (it must loop). One read
    /// per block visited.
    pub fn get_inode_blocks(i: Inode, sb: &SuperBlock, disk: Disk) -> (r: (
        Option<(Inode, Vec<Block>)>,
        Disk,
    ))
        ensures
            match inode_chain_within(disk@.medium, sb.total_blocks, i) {
                Some(c) => r.0 is Some && r.0.unwrap().0 == i && blocks_view(r.0.unwrap().1@) == c,
                None => r.0 is None,
            },
            r.1@ == with_reads(disk@, inode_chain_reads_within(disk@.medium, sb.total_blocks, i)),
    {
        let ghost d0 = disk@;
        let ghost m = disk@.medium;
        let start = match i.start_block {
            Some(s) => s,
            None => {
                proof {
                    lemma_with_reads(d0, 0, 0);
                }
                return (None, disk);
            },
        };
        let lo: u64 = sb.get_inode_table_block_range().end as u64;
        let hi: u64 = sb.total_blocks as u64 + 1;
        let mut fuel: u64 = if hi > lo {
            hi - lo
        } else {
            0
        };
        let ghost limit = fuel as nat;
        assert(limit == storage_len(sb.total_blocks));
        let mut dk = disk;
        let mut blocks: Vec<Block> = Vec::new();
        let mut cur = start;
        let ghost mut done: nat = 0;
        proof {
            lemma_with_reads(d0, 0, 0);
        }
        loop
            invariant
                d0 == disk@,
                m == d0.medium,
                i.start_block == Some(start),
                lo == storage_start(sb.total_blocks),
                hi == sb.total_blocks + 1,
                limit == storage_len(sb.total_blocks),
                dk@.medium == m,
                dk@ == with_reads(d0, done),
                chain_reads(m, start, lo as int, hi as int, limit) == done + chain_reads(
                    m,
                    cur,
                    lo as int,
                    hi as int,
                    fuel as nat,
                ),
                chain_from(m, start, lo as int, hi as int, limit) == match chain_from(
                    m,
                    cur,
                    lo as int,
                    hi as int,
                    fuel as nat,
                ) {
                    Some(rest) => Some(blocks_view(blocks@) + rest),
                    None => None,
                },
            decreases fuel,
        {
            if !((cur as u64) >= lo && (cur as u64) < hi) {
                assert(chain_from(m, cur, lo as int, hi as int, fuel as nat) is None);
                assert(chain_reads(m, cur, lo as int, hi as int, fuel as nat) == 0);
                return (None, dk);
            }
            let (b, d2) = Block::get_block(cur, dk);
            dk = d2;
            proof {
                lemma_with_reads(d0, done, 1);
                done = done + 1;
            }
            match b {
                None => {
                    assert(chain_from(m, cur, lo as int, hi as int, fuel as nat) is None);
                    assert(chain_reads(m, cur, lo as int, hi as int, fuel as nat) == 1);
                    return (None, dk);
                },
                Some(b) => {
                    assert(block_in(m, cur) == Some(b@));
                    match b.b_type {
                        BlockType::End => {
                            let ghost bv = b@;
                            blocks.push(b);
                            proof {
                                assert(blocks_view(blocks@) =~= blocks_view(blocks@).drop_last()
                                    + seq![bv]);
                            }
                            return (Some((i, blocks)), dk);
                        },
                        BlockType::Next(k) => {
                            if fuel == 0 {
                                assert(chain_from(m, cur, lo as int, hi as int, fuel as nat) is None);
                                assert(chain_reads(m, cur, lo as int, hi as int, fuel as nat) == 1);
                                return (None, dk);
                            }
                            let ghost bv = b@;
                            let ghost before = blocks_view(blocks@);
                            blocks.push(b);
                            proof {
                                assert(blocks_view(blocks@) =~= before.push(bv));
                                match chain_from(m, k, lo as int, hi as int, (fuel - 1) as nat) {
                                    Some(rest) => {
                                        assert(before + (seq![bv] + rest) =~= before.push(bv)
                                            + rest);
                                    },
                                    None => {},
                                }
                            }
                            cur = k;
                            fuel = fuel - 1;
                        },
                        BlockType::Free => {
                            assert(chain_from(m, cur, lo as int, hi as int, fuel as nat) is None);
                            assert(chain_reads(m, cur, lo as int, hi as int, fuel as nat) == 1);
                            return (None, dk);
                        },
                    }
                },
            }
        }
    }

    /// Links `b` into one chain owned by `a`: each block points to the next,
    /// the last is tagged End, and the inode starts at the first. Nothing
    /// where there is no inode or no block.
    pub fn set_inode_blocks(a: Option<Inode>, b: Vec<Block>) -> (r: Option<(Inode, Vec<Block>)>)
        ensures
            match a {
                Some(i) => if b@.len() > 0 {
                    r is Some && r.unwrap().0 == (Inode {
                        number: i.number,
                        start_block: Some(b@[0].number),
                    }) && blocks_view(r.unwrap().1@) == linked(blocks_view(b@))
                } else {
                    r is None
                },
                None => r is None,
            },
    {
        let i = match a {
            Some(i) => i,
            None => return None,
        };
        if b.len() == 0 {
            return None;
        }
        let ghost bv = blocks_view(b@);
        let mut out: Vec<Block> = Vec::new();
        let mut k: usize = 0;
        while k < b.len()
            invariant
                0 <= k <= b.len(),
                bv == blocks_view(b@),
                blocks_view(out@) == linked(bv).take(k as int),
                out@.len() == k,
            decreases b.len() - k,
        {
            let t = if k + 1 < b.len() {
                BlockType::Next(b[k + 1].number)
            } else {
                BlockType::End
            };
            out.push(Block { number: b[k].number, b_type: t, data: b[k].data.clone() });
            proof {
                assert(bv[k as int] == b@[k as int]@);
                if k + 1 < b.len() {
                    assert(bv[k + 1] == b@[k + 1]@);
                }
                assert(linked(bv)[k as int].number == out@[k as int]@.number);
                assert(linked(bv)[k as int].b_type == out@[k as int]@.b_type);
                assert(linked(bv)[k as int].data == out@[k as int]@.data);
                assert(linked(bv)[k as int] == out@[k as int]@);
                assert(blocks_view(out@) =~= linked(bv).take(k + 1));
            }
            k = k + 1;
        }
        assert(linked(bv).take(b.len() as int) =~= linked(bv));
        Some((Inode { number: i.number, start_block: Some(b[0].number) }, out))
    }
}

/// How many inodes one block of the inode table holds.
pub const INODE_TABLE_SIZE: usize = 5;

/// How many groups a table of `len` inodes is cut into.
pub open spec fn group_count(len: nat) -> nat {
    ((len + 4) / 5) as nat
}

/// Group `g` of the table: inodes `5g` up to `5g + 5`, or to the end.
pub open spec fn group(s: Seq<Inode>, g: int) -> Seq<Inode> {
    s.subrange(5 * g, if 5 * g + 5 < s.len() {
        5 * g + 5
    } else {
        s.len() as int
    })
}

/// The text form of each group of the table.
pub open spec fn group_texts(s: Seq<Inode>) -> Seq<Seq<char>> {
    Seq::new(group_count(s.len()), |g: int| inodes_text(group(s, g)))
}

/// The blocks that rewriting the table puts on the medium: the blocks of
/// the inode-table range that read back, each given one group's text and
/// tagged End, as far as both go.
pub open spec fn table_writes(m: Option<Seq<Seq<char>>>, s: SuperBlockView, table: Seq<Inode>) -> Seq<
    BlockView,
> {
    let read = somes(range_blocks(m, 2, storage_start(s.total_blocks) as int));
    let texts = group_texts(table);
    let n = if read.len() < texts.len() {
        read.len()
    } else {
        texts.len()
    };
    Seq::new(
        n,
        |k: int| BlockView { number: read[k].number, b_type: BlockType::End, data: texts[k] },
    )
}

/// What rewriting the inode table with `table` gives back, and the state after.
pub open spec fn replace_all_result(d: DiskView, table: Seq<Inode>) -> (Option<Seq<Inode>>, DiskView) {
    match super_block_in(d.medium) {
        None => (None, with_reads(d, 1)),
        Some(s) => {
            let d1 = with_reads(d, 1 + inode_table_blocks(s.total_blocks));
            let ws = table_writes(d.medium, s, table);
            (
                Some(inodes_of_blocks(written(d1, ws).map_values(|b: BlockView| Some(b)))),
                write_all(d1, ws),
            )
        },
    }
}

/// `table` with the entry numbered like `i` replaced by `i`.
pub open spec fn with_inode(table: Seq<Inode>, i: Inode) -> Seq<Inode> {
    table.map_values(|x: Inode| if x.number == i.number { i } else { x })
}

/// What writing inode `i` gives back, and the state after: read the table,
/// replace the entry, rewrite the table, find the entry again.
pub open spec fn write_inode_result(d: DiskView, i: Inode) -> (Option<Inode>, DiskView) {
    let d1 = with_reads(d, inode_table_reads(d.medium));
    match inode_table_in(d.medium) {
        None => (None, d1),
        Some(t) => {
            let (r, d2) = replace_all_result(d1, with_inode(t, i));
            (
                match r {
                    Some(t2) => find_inode(t2, i.number),
                    None => None,
                },
                d2,
            )
        },
    }
}

fn group_text_vec(table: &Vec<Inode>) -> (r: Vec<String>)
    ensures
        r@.map_values(|t: String| t@) == group_texts(table@),
{
    let mut out: Vec<String> = Vec::new();
    let mut start: usize = 0;
    let mut g: usize = 0;
    while start < table.len()
        invariant
            start as int == if 5 * g < table@.len() {
                5 * g
            } else {
                table@.len() as int
            },
            out@.len() == g,
            g <= group_count(table@.len()),
            start < table@.len() ==> g < group_count(table@.len()),
            start >= table@.len() ==> g == group_count(table@.len()),
            forall|k: int| 0 <= k < g ==> (#[trigger] out@[k])@ == inodes_text(group(table@, k)),
        decreases table.len() - start,
    {
        let end = if table.len() - start > INODE_TABLE_SIZE {
            start + INODE_TABLE_SIZE
        } else {
            table.len()
        };
        let mut chunk: Vec<Inode> = Vec::new();
        let mut k: usize = start;
        while k < end
            invariant
                start <= k <= end <= table.len(),
                chunk@ == table@.subrange(start as int, k as int),
            decreases end - k,
        {
            chunk.push(table[k]);
            assert(chunk@ =~= table@.subrange(start as int, k + 1));
            k = k + 1;
        }
        out.push(inodes_to_text(chunk.as_slice()));
        start = end;
        g = g + 1;
    }
    assert(out@.map_values(|t: String| t@) =~= group_texts(table@));
    out
}

fn inodes_of_written(bs: &Vec<Block>) -> (r: Vec<Inode>)
    ensures
        r@ == inodes_of_blocks(blocks_view(bs@).map_values(|b: BlockView| Some(b))),
{
    let ghost ob = blocks_view(bs@).map_values(|b: BlockView| Some(b));
    let mut out: Vec<Inode> = Vec::new();
    let mut i: usize = 0;
    while i < bs.len()
        invariant
            0 <= i <= bs.len(),
            ob == blocks_view(bs@).map_values(|b: BlockView| Some(b)),
            out@ == inodes_of_blocks(ob.take(i as int)),
        decreases bs.len() - i,
    {
        proof {
            assert(ob.take(i + 1).drop_last() =~= ob.take(i as int));
            assert(ob.take(i + 1).last() == Some(bs@[i as int]@));
        }
        match Inode::parse_inodes(bs[i].data.as_str()) {
            Some(v) => {
                let mut v = v;
                out.append(&mut v);
            },
            None => {},
        }
        proof {
            assert(out@ =~= inodes_of_blocks(ob.take(i + 1)));
        }
        i = i + 1;
    }
    assert(ob.take(bs.len() as int) =~= ob);
    out
}

impl Inode {
    /// Rewrites the whole inode table: cuts `inode_table` into groups, writes
    /// each group's text into the next block of the inode-table range (tagged
    /// End), and reads back the inodes that the written blocks hold.
    pub fn replace_all_inodes(inode_table: Vec<Inode>, disk: Disk) -> (r: (Option<Vec<Inode>>, Disk))
        ensures
            ({
                let (t, d) = replace_all_result(disk@, inode_table@);
                &&& r.1@ == d
                &&& match t {
                    Some(t) => r.0 is Some && r.0.unwrap()@ == t,
                    None => r.0 is None,
                }
            }),
    {
        let ghost d0 = disk@;
        let texts = group_text_vec(&inode_table);
        let (sb, disk) = SuperBlock::get_super_block(disk);
        let sb = match sb {
            Some(sb) => sb,
            None => return (None, disk),
        };
        let range = sb.get_inode_table_block_range();
        let (read, disk) = Inode::read_table_blocks(range.start, range.end, disk);
        proof {
            lemma_with_reads(d0, 1, inode_table_blocks(sb.total_blocks));
            lemma_somes_view(read@);
        }
        let blocks = remove_options(read);
        let ghost rv = blocks_view(blocks@);
        let ghost tv = texts@.map_values(|t: String| t@);
        let zipped = Block::set_data_blocks_data((blocks, texts));
        let mut ended: Vec<Block> = Vec::new();
        let mut k: usize = 0;
        while k < zipped.len()
            invariant
                0 <= k <= zipped.len(),
                zipped@.len() == if rv.len() < tv.len() {
                    rv.len()
                } else {
                    tv.len()
                },
                forall|j: int|
                    0 <= j < zipped@.len() ==> (#[trigger] zipped@[j])@.number == rv[j].number
                        && zipped@[j]@.data == tv[j],
                ended@.len() == k,
                forall|j: int|
                    0 <= j < k ==> (#[trigger] ended@[j])@ == (BlockView {
                        number: rv[j].number,
                        b_type: BlockType::End,
                        data: tv[j],
                    }),
            decreases zipped.len() - k,
        {
            ended.push(Block { number: zipped[k].number, b_type: BlockType::End, data: zipped[k].data.clone() });
            k = k + 1;
        }
        proof {
            assert(blocks_view(ended@) =~= table_writes(d0.medium, sb@, inode_table@));
        }
        let (done, disk) = Block::write_blocks(ended, disk);
        (Some(inodes_of_written(&done)), disk)
    }

    /// Persists inode `i`: reads the table, replaces the entry with the same
    /// number, rewrites the table, and finds the entry again.
    pub fn write_inode(i: Inode, disk: Disk) -> (r: (Option<Inode>, Disk))
        ensures
            (r.0, r.1@) == write_inode_result(disk@, i),
    {
        let (t, disk) = Inode::get_inode_table(disk);
        let t = match t {
            Some(t) => t,
            None => return (None, disk),
        };
        let mut t2: Vec<Inode> = Vec::new();
        let mut k: usize = 0;
        while k < t.len()
            invariant
                0 <= k <= t.len(),
                t2@ == with_inode(t@, i).take(k as int),
            decreases t.len() - k,
        {
            if t[k].number == i.number {
                t2.push(i);
            } else {
                t2.push(t[k]);
            }
            assert(t2@ =~= with_inode(t@, i).take(k + 1));
            k = k + 1;
        }
        assert(t2@ =~= with_inode(t@, i));
        let (r, disk) = Inode::replace_all_inodes(t2, disk);
        match r {
            Some(t3) => (find_inode_in(&t3, i.number), disk),
            None => (None, disk),
        }
    }

    /// Marks inode `i` free (no start block) and persists it.
    pub fn free_inode(i: Inode, disk: Disk) -> (r: (Option<Inode>, Disk))
        ensures
            (r.0, r.1@) == write_inode_result(disk@, Inode { number: i.number, start_block: None }),
    {
        Inode::write_inode(Inode { number: i.number, start_block: None }, disk)
    }
}

/// `bs` stored as the medium `m` holds them once linked: each block's
/// record, at its number, is the text of its linked form.
pub open spec fn holds_linked(m: Seq<Seq<char>>, bs: Seq<BlockView>) -> bool {
    forall|k: int|
        0 <= k < bs.len() ==> 1 <= (#[trigger] bs[k]).number <= m.len() && m[bs[k].number - 1]
            == block_text(linked(bs)[k])
}

proof fn lemma_chain_suffix(
    m: Seq<Seq<char>>,
    bs: Seq<BlockView>,
    lo: int,
    hi: int,
    j: int,
    fuel: nat,
)
    requires
        0 <= j < bs.len(),
        holds_linked(m, bs),
        forall|k: int| 0 <= k < bs.len() ==> lo <= (#[trigger] bs[k]).number < hi,
        fuel + j >= bs.len() - 1,
    ensures
        chain_from(Some(m), bs[j].number, lo, hi, fuel) == Some(linked(bs).skip(j)),
    decreases bs.len() - j,
{
    let l = linked(bs);
    lemma_block_round_trip(l[j]);
    assert(block_in(Some(m), bs[j].number) == Some(l[j]));
    if j + 1 < bs.len() {
        lemma_chain_suffix(m, bs, lo, hi, j + 1, (fuel - 1) as nat);
        assert(seq![l[j]] + l.skip(j + 1) =~= l.skip(j));
    } else {
        assert(seq![l[j]] =~= l.skip(j));
    }
}

/// Chain integrity: once the K > 0 distinct blocks of the range `lo .. hi`
/// that `set_inode_blocks` links are each stored at their number, walking
/// the chain from the inode's start block within that range yields exactly
/// those K blocks in the order given, the first K - 1 tagged Next of their
/// successor and the last tagged End.
pub proof fn lemma_chain_integrity(m: Seq<Seq<char>>, bs: Seq<BlockView>, lo: int, hi: int)
    requires
        bs.len() > 0,
        forall|k: int| 0 <= k < bs.len() ==> lo <= (#[trigger] bs[k]).number < hi,
        forall|j: int, k: int| 0 <= j < k < bs.len() ==> (#[trigger] bs[j]).number != (
        #[trigger] bs[k]).number,
        holds_linked(m, bs),
    ensures
        chain_from(Some(m), bs[0].number, lo, hi, (hi - lo) as nat) == Some(linked(bs)),
        linked(bs).len() == bs.len(),
        forall|k: int|
            0 <= k < bs.len() ==> (#[trigger] linked(bs)[k]).number == bs[k].number
                && linked(bs)[k].data == bs[k].data,
        forall|k: int|
            0 <= k < bs.len() - 1 ==> (#[trigger] linked(bs)[k]).b_type == BlockType::Next(
                bs[k + 1].number,
            ),
        linked(bs)[bs.len() - 1].b_type == BlockType::End,
{
    let nums = bs.map_values(|b: BlockView| b.number as int);
    assert(nums.no_duplicates()) by {
        assert forall|j: int, k: int| 0 <= j < nums.len() && 0 <= k < nums.len() && j != k implies nums[j]
            != nums[k] by {
            if j < k {
                assert(bs[j].number != bs[k].number);
            } else {
                assert(bs[k].number != bs[j].number);
            }
        }
    }
    assert(lo <= bs[0].number < hi);
    nums.unique_seq_to_set();
    vstd::set_lib::lemma_int_range(lo, hi);
    assert(nums.to_set().subset_of(vstd::set_lib::set_int_range(lo, hi))) by {
        assert forall|x: int| nums.to_set().contains(x) implies vstd::set_lib::set_int_range(
            lo,
            hi,
        ).contains(x) by {
            let k = choose|k: int| 0 <= k < nums.len() && nums[k] == x;
            assert(lo <= bs[k].number < hi);
        }
    }
    vstd::set_lib::lemma_len_subset(nums.to_set(), vstd::set_lib::set_int_range(lo, hi));
    lemma_chain_suffix(m, bs, lo, hi, 0, (hi - lo) as nat);
    assert(linked(bs).skip(0) =~= linked(bs));
}

/// Writing an inode keeps the medium there if it was.
pub proof fn lemma_write_inode_keeps_medium(d: DiskView, i: Inode)
    ensures
        (write_inode_result(d, i).1.medium is Some) == (d.medium is Some),
{
    let d1 = with_reads(d, inode_table_reads(d.medium));
    match inode_table_in(d.medium) {
        Some(t) => match super_block_in(d1.medium) {
            Some(s) => {
                let d2 = with_reads(d1, 1 + inode_table_blocks(s.total_blocks));
                crate::block::lemma_write_all_keeps_medium(
                    d2,
                    table_writes(d1.medium, s, with_inode(t, i)),
                );
            },
            None => {},
        },
        None => {},
    }
}

} // verus!
