use vstd::prelude::*;

use crate::disk::{lemma_with_reads, put_record, record_at, with_reads, with_write, Disk, DiskView};
use crate::text::{
    chars_of, decimal, escape, expect, expect_at, lemma_read_decimal, lemma_read_escaped,
    read_number, read_number_at, read_quoted, read_quoted_at, write_decimal, write_escaped,
};

verus! {

/// The magic constant that marks a formatted medium.
pub const MAGIC_NUMBER: &'static str = "0x70736575646F4653";

/// How a block takes part in a chain.
#[derive(Clone, Copy, Debug, PartialEq, Eq, Structural)]
pub enum BlockType {
    /// Not part of any chain.
    Free,
    /// Followed in its chain by the block with this number.
    Next(u32),
    /// The last block of its chain.
    End,
}

/// A fixed-size unit of the medium: one record.
#[derive(Clone, Debug, PartialEq)]
pub struct Block {
    pub number: u32,
    pub b_type: BlockType,
    pub data: String,
}

pub ghost struct BlockView {
    pub number: u32,
    pub b_type: BlockType,
    pub data: Seq<char>,
}

impl View for Block {
    type V = BlockView;

    open spec fn view(&self) -> BlockView {
        BlockView { number: self.number, b_type: self.b_type, data: self.data@ }
    }
}

/// The disk-wide metadata kept in block 1.
#[derive(Clone, Debug, PartialEq)]
pub struct SuperBlock {
    pub magic_number: String,
    pub total_blocks: u32,
}

pub ghost struct SuperBlockView {
    pub magic_number: Seq<char>,
    pub total_blocks: u32,
}

impl View for SuperBlock {
    type V = SuperBlockView;

    open spec fn view(&self) -> SuperBlockView {
        SuperBlockView { magic_number: self.magic_number@, total_blocks: self.total_blocks }
    }
}

// ---------------------------------------------------------------------------
// Text form
// ---------------------------------------------------------------------------

pub open spec fn block_type_text(t: BlockType) -> Seq<char> {
    match t {
        BlockType::Free => "\"Free\""@,
        BlockType::End => "\"End\""@,
        BlockType::Next(n) => "{\"Next\":"@ + decimal(n as nat) + "}"@,
    }
}

/// The text form of a block, one record of the medium.
pub open spec fn block_text(b: BlockView) -> Seq<char> {
    "{\"number\":"@ + decimal(b.number as nat) + ",\"b_type\":"@ + block_type_text(b.b_type)
        + ",\"data\":\""@ + escape(b.data) + "\"}"@
}

/// The text form of a superblock, the payload of block 1.
pub open spec fn super_block_text(s: SuperBlockView) -> Seq<char> {
    "{\"magic_number\":\""@ + escape(s.magic_number) + "\",\"total_blocks\":"@ + decimal(
        s.total_blocks as nat,
    ) + "}"@
}

pub open spec fn read_block_type(t: Seq<char>, i: int) -> Option<(BlockType, int)> {
    match expect(t, i, "\"Free\""@) {
        Some(j) => Some((BlockType::Free, j)),
        None => match expect(t, i, "\"End\""@) {
            Some(j) => Some((BlockType::End, j)),
            None => match expect(t, i, "{\"Next\":"@) {
                Some(j) => match read_number(t, j) {
                    Some((n, k)) => match expect(t, k, "}"@) {
                        Some(m) => Some((BlockType::Next(n), m)),
                        None => None,
                    },
                    None => None,
                },
                None => None,
            },
        },
    }
}

/// Reads the fields of a block in the order its text form has them.
pub open spec fn read_block_fields(t: Seq<char>) -> Option<BlockView> {
    match expect(t, 0, "{\"number\":"@) {
        Some(at1) => match read_number(t, at1) {
            Some((n, at2)) => match expect(t, at2, ",\"b_type\":"@) {
                Some(at3) => match read_block_type(t, at3) {
                    Some((ty, at4)) => match expect(t, at4, ",\"data\":\""@) {
                        Some(at5) => match read_quoted(t, at5) {
                            Some((d, _p6)) => Some(BlockView { number: n, b_type: ty, data: d }),
                            None => None,
                        },
                        None => None,
                    },
                    None => None,
                },
                None => None,
            },
            None => None,
        },
        None => None,
    }
}

pub open spec fn read_super_block_fields(t: Seq<char>) -> Option<SuperBlockView> {
    match expect(t, 0, "{\"magic_number\":\""@) {
        Some(at1) => match read_quoted(t, at1) {
            Some((m, at2)) => match expect(t, at2, ",\"total_blocks\":"@) {
                Some(at3) => match read_number(t, at3) {
                    Some((n, _p4)) => Some(SuperBlockView { magic_number: m, total_blocks: n }),
                    None => None,
                },
                None => None,
            },
            None => None,
        },
        None => None,
    }
}

/// The block whose text form `t` is, if any.
pub open spec fn decode_block(t: Seq<char>) -> Option<BlockView> {
    if exists|b: BlockView| block_text(b) == t {
        Some(choose|b: BlockView| block_text(b) == t)
    } else {
        None
    }
}

/// The superblock whose text form `t` is, if any.
pub open spec fn decode_super_block(t: Seq<char>) -> Option<SuperBlockView> {
    if exists|s: SuperBlockView| super_block_text(s) == t {
        Some(choose|s: SuperBlockView| super_block_text(s) == t)
    } else {
        None
    }
}

proof fn lemma_type_round_trip(t: Seq<char>, i: int, ty: BlockType)
    requires
        0 <= i,
        i + block_type_text(ty).len() < t.len(),
        t.subrange(i, i + block_type_text(ty).len()) == block_type_text(ty),
    ensures
        read_block_type(t, i) == Some((ty, i + block_type_text(ty).len())),
{
    reveal_strlit("\"Free\"");
    reveal_strlit("\"End\"");
    reveal_strlit("{\"Next\":");
    reveal_strlit("}");
    let w = block_type_text(ty);
    assert(t[i] == w[0]) by {
        assert(t.subrange(i, i + w.len())[0] == t[i]);
    }
    match ty {
        BlockType::Free => {},
        BlockType::End => {
            assert(t[i + 1] == w[1]) by {
                assert(t.subrange(i, i + w.len())[1] == t[i + 1]);
            }
            assert(t.subrange(i, i + 6)[1] == t[i + 1]);
        },
        BlockType::Next(n) => {
            let d = decimal(n as nat);
            crate::text::lemma_decimal_digits(n as nat);
            let lit = "{\"Next\":"@;
            let ll = lit.len() as int;
            let dl = d.len() as int;
            assert(t.subrange(i, i + ll) =~= w.subrange(0, ll));
            assert(w.subrange(0, ll) =~= lit);
            let j = i + ll;
            assert(t.subrange(j, j + dl) =~= w.subrange(ll, ll + dl));
            assert(w.subrange(ll, ll + dl) =~= d);
            assert(t[j + dl] == w[ll + dl]) by {
                assert(t.subrange(i, i + w.len())[ll + dl] == t[j + dl]);
            }
            lemma_read_decimal(t, j, n);
            assert(t.subrange(j + d.len(), j + d.len() + 1) =~= "}"@);
        },
    }
}

/// The text form of a block reads back as that block.
pub proof fn lemma_block_fields_round_trip(b: BlockView)
    ensures
        read_block_fields(block_text(b)) == Some(b),
{
    let t = block_text(b);
    let l1 = "{\"number\":"@;
    let d = decimal(b.number as nat);
    let l2 = ",\"b_type\":"@;
    let w = block_type_text(b.b_type);
    let l3 = ",\"data\":\""@;
    let e = escape(b.data);
    let l4 = "\"}"@;
    reveal_strlit(",\"b_type\":");
    reveal_strlit("\"}");
    crate::text::lemma_decimal_digits(b.number as nat);
    let at1 = l1.len() as int;
    let at2 = at1 + d.len();
    let at3 = at2 + l2.len();
    let at4 = at3 + w.len();
    let at5 = at4 + l3.len();
    let at6 = at5 + e.len();
    assert(t.len() == at6 + l4.len());
    assert(t.subrange(0, at1) =~= l1);
    assert(t.subrange(at1, at2) =~= d);
    assert(t[at2] == l2[0]);
    lemma_read_decimal(t, at1, b.number);
    assert(t.subrange(at2, at3) =~= l2);
    assert(t.subrange(at3, at4) =~= w);
    lemma_type_round_trip(t, at3, b.b_type);
    assert(t.subrange(at4, at5) =~= l3);
    assert(t.subrange(at5, at6) =~= e);
    assert(t[at6] == l4[0]);
    lemma_read_escaped(t, at5, b.data);
}

/// The text form of a superblock reads back as that superblock.
pub proof fn lemma_super_block_fields_round_trip(s: SuperBlockView)
    ensures
        read_super_block_fields(super_block_text(s)) == Some(s),
{
    let t = super_block_text(s);
    let l1 = "{\"magic_number\":\""@;
    let e = escape(s.magic_number);
    let l2 = "\",\"total_blocks\":"@;
    let d = decimal(s.total_blocks as nat);
    let l3 = "}"@;
    reveal_strlit("\",\"total_blocks\":");
    reveal_strlit("}");
    crate::text::lemma_decimal_digits(s.total_blocks as nat);
    let at1 = l1.len() as int;
    let at2 = at1 + e.len();
    let at3 = at2 + l2.len();
    let at4 = at3 + d.len();
    assert(t.len() == at4 + l3.len());
    assert(t.subrange(0, at1) =~= l1);
    assert(t.subrange(at1, at2) =~= e);
    assert(t[at2] == l2[0]);
    lemma_read_escaped(t, at1, s.magic_number);
    assert(t.subrange(at2 + 1, at3) =~= ",\"total_blocks\":"@) by {
        reveal_strlit(",\"total_blocks\":");
    }
    assert(t.subrange(at3, at4) =~= d);
    assert(t[at4] == l3[0]);
    lemma_read_decimal(t, at3, s.total_blocks);
}

/// Parsing the text form of a block gives back the block.
pub proof fn lemma_block_round_trip(b: BlockView)
    ensures
        decode_block(block_text(b)) == Some(b),
{
    lemma_block_fields_round_trip(b);
    let t = block_text(b);
    assert(exists|x: BlockView| block_text(x) == t);
    let c = choose|x: BlockView| block_text(x) == t;
    lemma_block_fields_round_trip(c);
}

/// Parsing the text form of a superblock gives back the superblock.
pub proof fn lemma_super_block_round_trip(s: SuperBlockView)
    ensures
        decode_super_block(super_block_text(s)) == Some(s),
{
    lemma_super_block_fields_round_trip(s);
    let t = super_block_text(s);
    assert(exists|x: SuperBlockView| super_block_text(x) == t);
    let c = choose|x: SuperBlockView| super_block_text(x) == t;
    lemma_super_block_fields_round_trip(c);
}

/// What decoding a block's text amounts to: read the fields, and keep the
/// block only if its text form is exactly the text read.
pub proof fn lemma_decode_block(t: Seq<char>)
    ensures
        decode_block(t) == match read_block_fields(t) {
            Some(b) => if block_text(b) == t {
                Some(b)
            } else {
                None
            },
            None => None,
        },
{
    if exists|b: BlockView| block_text(b) == t {
        let c = choose|b: BlockView| block_text(b) == t;
        lemma_block_fields_round_trip(c);
    }
}

pub proof fn lemma_decode_super_block(t: Seq<char>)
    ensures
        decode_super_block(t) == match read_super_block_fields(t) {
            Some(s) => if super_block_text(s) == t {
                Some(s)
            } else {
                None
            },
            None => None,
        },
{
    if exists|s: SuperBlockView| super_block_text(s) == t {
        let c = choose|s: SuperBlockView| super_block_text(s) == t;
        lemma_super_block_fields_round_trip(c);
    }
}

fn read_block_type_at(t: &Vec<char>, i: usize) -> (r: Option<(BlockType, usize)>)
    requires
        i <= t.len(),
    ensures
        match read_block_type(t@, i as int) {
            Some((ty, j)) => r is Some && r.unwrap().0 == ty && r.unwrap().1 as int == j,
            None => r is None,
        },
        r is Some ==> r.unwrap().1 <= t.len(),
{
    if let Some(j) = expect_at(t, i, "\"Free\"") {
        return Some((BlockType::Free, j));
    }
    if let Some(j) = expect_at(t, i, "\"End\"") {
        return Some((BlockType::End, j));
    }
    let j = match expect_at(t, i, "{\"Next\":") {
        Some(j) => j,
        None => return None,
    };
    let (n, k) = match read_number_at(t, j) {
        Some(x) => x,
        None => return None,
    };
    match expect_at(t, k, "}") {
        Some(m) => Some((BlockType::Next(n), m)),
        None => None,
    }
}

fn read_block_fields_at(t: &Vec<char>) -> (r: Option<Block>)
    ensures
        match read_block_fields(t@) {
            Some(b) => r is Some && r.unwrap()@ == b,
            None => r is None,
        },
{
    let at1 = match expect_at(t, 0, "{\"number\":") {
        Some(p) => p,
        None => return None,
    };
    let (n, at2) = match read_number_at(t, at1) {
        Some(x) => x,
        None => return None,
    };
    let at3 = match expect_at(t, at2, ",\"b_type\":") {
        Some(p) => p,
        None => return None,
    };
    let (ty, at4) = match read_block_type_at(t, at3) {
        Some(x) => x,
        None => return None,
    };
    let at5 = match expect_at(t, at4, ",\"data\":\"") {
        Some(p) => p,
        None => return None,
    };
    match read_quoted_at(t, at5) {
        Some((d, _p6)) => Some(Block { number: n, b_type: ty, data: d }),
        None => None,
    }
}

fn read_super_block_fields_at(t: &Vec<char>) -> (r: Option<SuperBlock>)
    ensures
        match read_super_block_fields(t@) {
            Some(s) => r is Some && r.unwrap()@ == s,
            None => r is None,
        },
{
    let at1 = match expect_at(t, 0, "{\"magic_number\":\"") {
        Some(p) => p,
        None => return None,
    };
    let (m, at2) = match read_quoted_at(t, at1) {
        Some(x) => x,
        None => return None,
    };
    let at3 = match expect_at(t, at2, ",\"total_blocks\":") {
        Some(p) => p,
        None => return None,
    };
    match read_number_at(t, at3) {
        Some((n, _p4)) => Some(SuperBlock { magic_number: m, total_blocks: n }),
        None => None,
    }
}

impl Block {
    /// The text form of this block.
    pub fn to_text(&self) -> (r: String)
        ensures
            r@ == block_text(self@),
    {
        let mut out = String::new();
        out.append("{\"number\":");
        write_decimal(&mut out, self.number);
        out.append(",\"b_type\":");
        match self.b_type {
            BlockType::Free => out.append("\"Free\""),
            BlockType::End => out.append("\"End\""),
            BlockType::Next(n) => {
                out.append("{\"Next\":");
                write_decimal(&mut out, n);
                out.append("}");
            },
        }
        out.append(",\"data\":\"");
        write_escaped(&mut out, self.data.as_str());
        out.append("\"}");
        proof {
            assert(out@ =~= block_text(self@));
        }
        out
    }

    /// The block that `t` is the text form of, if any.
    pub fn from_text(t: &str) -> (r: Option<Block>)
        ensures
            match r {
                Some(b) => decode_block(t@) == Some(b@),
                None => decode_block(t@) is None,
            },
    {
        proof {
            lemma_decode_block(t@);
        }
        let cs = chars_of(t);
        match read_block_fields_at(&cs) {
            Some(b) => {
                let back = b.to_text();
                if back == t.to_owned() {
                    Some(b)
                } else {
                    None
                }
            },
            None => None,
        }
    }
}

impl SuperBlock {
    /// The text form of this superblock.
    pub fn to_text(&self) -> (r: String)
        ensures
            r@ == super_block_text(self@),
    {
        let mut out = String::new();
        out.append("{\"magic_number\":\"");
        write_escaped(&mut out, self.magic_number.as_str());
        out.append("\",\"total_blocks\":");
        write_decimal(&mut out, self.total_blocks);
        out.append("}");
        proof {
            assert(out@ =~= super_block_text(self@));
        }
        out
    }

    /// The superblock that `t` is the text form of, if any.
    pub fn from_text(t: &str) -> (r: Option<SuperBlock>)
        ensures
            match r {
                Some(s) => decode_super_block(t@) == Some(s@),
                None => decode_super_block(t@) is None,
            },
    {
        proof {
            lemma_decode_super_block(t@);
        }
        let cs = chars_of(t);
        match read_super_block_fields_at(&cs) {
            Some(s) => {
                let back = s.to_text();
                if back == t.to_owned() {
                    Some(s)
                } else {
                    None
                }
            },
            None => None,
        }
    }
}

// ---------------------------------------------------------------------------
// Block layout of the medium
// ---------------------------------------------------------------------------

/// How many blocks the inode table takes: a tenth of the total, rounded up.
pub open spec fn inode_table_blocks(total: u32) -> nat {
    ((total + 9) / 10) as nat
}

/// First block of general storage, just after the inode table.
pub open spec fn storage_start(total: u32) -> nat {
    2 + inode_table_blocks(total)
}

/// How many inodes a medium of `total` blocks holds.
pub open spec fn inode_capacity(total: u32) -> nat {
    (inode_table_blocks(total) * total) as nat
}

/// The block stored as record `n`, if that record reads as a block.
pub open spec fn block_in(m: Option<Seq<Seq<char>>>, n: u32) -> Option<BlockView> {
    match record_at(m, n) {
        Some(t) => decode_block(t),
        None => None,
    }
}

/// The superblock held in block 1, if any.
pub open spec fn super_block_in(m: Option<Seq<Seq<char>>>) -> Option<SuperBlockView> {
    match block_in(m, 1) {
        Some(b) => decode_super_block(b.data),
        None => None,
    }
}

/// What reading blocks `lo .. hi` one by one gives.
pub open spec fn range_blocks(m: Option<Seq<Seq<char>>>, lo: int, hi: int) -> Seq<Option<BlockView>>
    decreases hi - lo,
{
    if hi <= lo {
        Seq::empty()
    } else {
        range_blocks(m, lo, hi - 1).push(block_in(m, (hi - 1) as u32))
    }
}

/// The present values of `s`, in order.
pub open spec fn somes<A>(s: Seq<Option<A>>) -> Seq<A>
    decreases s.len(),
{
    if s.len() == 0 {
        Seq::empty()
    } else {
        somes(s.drop_last()) + match s.last() {
            Some(a) => seq![a],
            None => Seq::empty(),
        }
    }
}

/// The blocks of the storage range that read back, in block order.
pub open spec fn storage_blocks(m: Option<Seq<Seq<char>>>) -> Seq<BlockView> {
    match super_block_in(m) {
        Some(s) => somes(range_blocks(m, storage_start(s.total_blocks) as int, s.total_blocks + 1)),
        None => Seq::empty(),
    }
}

/// How many records reading the storage range takes, the superblock included.
pub open spec fn storage_reads(m: Option<Seq<Seq<char>>>) -> nat {
    match super_block_in(m) {
        Some(s) => 1 + if s.total_blocks + 1 > storage_start(s.total_blocks) {
            (s.total_blocks + 1 - storage_start(s.total_blocks)) as nat
        } else {
            0
        },
        None => 1,
    }
}

/// The free blocks of `s`, in order.
pub open spec fn free_of(s: Seq<BlockView>) -> Seq<BlockView>
    decreases s.len(),
{
    if s.len() == 0 {
        Seq::empty()
    } else {
        free_of(s.drop_last()) + if s.last().b_type == BlockType::Free {
            seq![s.last()]
        } else {
            Seq::empty()
        }
    }
}

/// The first `k` of `s`, or all of it.
pub open spec fn first_n<A>(s: Seq<A>, k: int) -> Seq<A> {
    if k < s.len() {
        s.take(k)
    } else {
        s
    }
}

pub open spec fn block_opt_view(o: Option<Block>) -> Option<BlockView> {
    match o {
        Some(b) => Some(b@),
        None => None,
    }
}

pub open spec fn blocks_view(v: Seq<Block>) -> Seq<BlockView> {
    v.map_values(|b: Block| b@)
}

/// `b` reset to free, with no payload.
pub open spec fn freed(b: BlockView) -> BlockView {
    BlockView { number: b.number, b_type: BlockType::Free, data: Seq::empty() }
}

/// The state after writing the blocks `bs` in order.
pub open spec fn write_all(d: DiskView, bs: Seq<BlockView>) -> DiskView
    decreases bs.len(),
{
    if bs.len() == 0 {
        d
    } else {
        let d1 = write_all(d, bs.drop_last());
        with_write(d1, put_record(d1.medium, bs.last().number, block_text(bs.last())))
    }
}

/// The blocks of `bs` that a writable medium takes: those with a number.
pub open spec fn numbered(bs: Seq<BlockView>) -> Seq<BlockView>
    decreases bs.len(),
{
    if bs.len() == 0 {
        Seq::empty()
    } else {
        numbered(bs.drop_last()) + if bs.last().number >= 1 {
            seq![bs.last()]
        } else {
            Seq::empty()
        }
    }
}

/// What writing `bs` gives back: the blocks written, where the medium is writable.
pub open spec fn written(d: DiskView, bs: Seq<BlockView>) -> Seq<BlockView> {
    if d.medium is Some {
        numbered(bs)
    } else {
        Seq::empty()
    }
}

pub proof fn lemma_write_all_keeps_medium(d: DiskView, bs: Seq<BlockView>)
    ensures
        (write_all(d, bs).medium is Some) == (d.medium is Some),
        write_all(d, bs).reads == d.reads,
        write_all(d, bs).file == d.file,
    decreases bs.len(),
{
    if bs.len() > 0 {
        lemma_write_all_keeps_medium(d, bs.drop_last());
    }
}

impl Block {
    /// This block reset to free, with no payload.
    pub fn free(self) -> (r: Block)
        ensures
            r@ == freed(self@),
    {
        Block { number: self.number, b_type: BlockType::Free, data: String::new() }
    }

    /// Reads block `block_number`: nothing where the record is missing or is
    /// no block.
    pub fn get_block(block_number: u32, disk: Disk) -> (r: (Option<Block>, Disk))
        ensures
            block_opt_view(r.0) == block_in(disk@.medium, block_number),
            r.1@ == with_reads(disk@, 1),
    {
        let (text, disk) = crate::disk::read(block_number, disk);
        match text {
            Some(t) => (Block::from_text(t.as_str()), disk),
            None => (None, disk),
        }
    }

    /// Writes this block as its record, and reads the written text back.
    pub fn write_block(b: Block, disk: Disk) -> (r: (Option<Block>, Disk))
        ensures
            r.0 is Some <==> (disk@.medium is Some && b.number >= 1),
            r.0 is Some ==> r.0.unwrap()@ == b@,
            r.1@ == with_write(disk@, put_record(disk@.medium, b.number, block_text(b@))),
    {
        let text = b.to_text();
        let (back, disk) = crate::disk::write(b.number, text, disk);
        match back {
            Some(t) => {
                proof {
                    lemma_block_round_trip(b@);
                }
                (Block::from_text(t.as_str()), disk)
            },
            None => (None, disk),
        }
    }

    /// Frees each block and writes it back; gives back the blocks written.
    pub fn free_blocks(b: Vec<Block>, disk: Disk) -> (r: (Vec<Block>, Disk))
        ensures
            blocks_view(r.0@) == written(disk@, blocks_view(b@).map_values(|x: BlockView| freed(x))),
            r.1@ == write_all(disk@, blocks_view(b@).map_values(|x: BlockView| freed(x))),
    {
        let mut fs: Vec<Block> = Vec::new();
        let mut i: usize = 0;
        while i < b.len()
            invariant
                0 <= i <= b.len(),
                fs@.len() == i,
                blocks_view(fs@) == blocks_view(b@).map_values(|x: BlockView| freed(x)).take(
                    i as int,
                ),
            decreases b.len() - i,
        {
            fs.push(Block { number: b[i].number, b_type: BlockType::Free, data: String::new() });
            proof {
                assert(blocks_view(fs@) =~= blocks_view(b@).map_values(|x: BlockView| freed(x)).take(
                    i + 1,
                ));
            }
            i = i + 1;
        }
        assert(blocks_view(fs@) =~= blocks_view(b@).map_values(|x: BlockView| freed(x)));
        Block::write_blocks(fs, disk)
    }

    /// The payloads of `a` joined in list order.
    pub fn blocks_to_data(a: Vec<Block>) -> (r: String)
        ensures
            r@ == data_of(blocks_view(a@)),
    {
        let mut out = String::new();
        let mut i: usize = 0;
        while i < a.len()
            invariant
                0 <= i <= a.len(),
                out@ == data_of(blocks_view(a@).take(i as int)),
            decreases a.len() - i,
        {
            out.append(a[i].data.as_str());
            proof {
                assert(blocks_view(a@).take(i + 1).drop_last() =~= blocks_view(a@).take(i as int));
            }
            i = i + 1;
        }
        assert(blocks_view(a@).take(a.len() as int) =~= blocks_view(a@));
        out
    }

    /// Pairs blocks with payloads by position; what has no partner is dropped.
    pub fn set_data_blocks_data(d: (Vec<Block>, Vec<String>)) -> (r: Vec<Block>)
        ensures
            r@.len() == if d.0@.len() < d.1@.len() {
                d.0@.len()
            } else {
                d.1@.len()
            },
            forall|i: int|
                0 <= i < r@.len() ==> (#[trigger] r@[i])@ == (BlockView {
                    number: d.0@[i].number,
                    b_type: d.0@[i].b_type,
                    data: d.1@[i]@,
                }),
    {
        let (blocks, data) = d;
        let mut out: Vec<Block> = Vec::new();
        let mut i: usize = 0;
        while i < blocks.len() && i < data.len()
            invariant
                0 <= i <= blocks.len(),
                i <= data.len(),
                out@.len() == i,
                forall|k: int|
                    0 <= k < i ==> (#[trigger] out@[k])@ == (BlockView {
                        number: blocks@[k].number,
                        b_type: blocks@[k].b_type,
                        data: data@[k]@,
                    }),
            decreases blocks.len() - i,
        {
            out.push(Block { number: blocks[i].number, b_type: blocks[i].b_type, data: data[i].clone() });
            i = i + 1;
        }
        out
    }
}

/// The payloads of `s` joined in order.
pub open spec fn data_of(s: Seq<BlockView>) -> Seq<char>
    decreases s.len(),
{
    if s.len() == 0 {
        Seq::empty()
    } else {
        data_of(s.drop_last()) + s.last().data
    }
}

pub open spec fn super_opt_view(o: Option<SuperBlock>) -> Option<SuperBlockView> {
    match o {
        Some(s) => Some(s@),
        None => None,
    }
}

impl SuperBlock {
    /// Whether the magic constant matches exactly.
    pub fn valid_super_block(&self) -> (r: bool)
        ensures
            r == (self.magic_number@ == MAGIC_NUMBER@),
    {
        self.magic_number == MAGIC_NUMBER.to_owned()
    }

    /// Reads the superblock from block 1.
    pub fn get_super_block(disk: Disk) -> (r: (Option<SuperBlock>, Disk))
        ensures
            super_opt_view(r.0) == super_block_in(disk@.medium),
            r.1@ == with_reads(disk@, 1),
    {
        let (b, disk) = Block::get_block(1, disk);
        match b {
            Some(b) => (SuperBlock::from_text(b.data.as_str()), disk),
            None => (None, disk),
        }
    }

    /// The blocks of the inode table: from 2 up to, not including, 2 plus a
    /// tenth of the total rounded up.
    pub fn get_inode_table_block_range(&self) -> (r: std::ops::Range<u32>)
        ensures
            r.start == 2,
            r.end == storage_start(self.total_blocks),
    {
        let t = self.total_blocks;
        let tenth: u32 = if t % 10 == 0 {
            t / 10
        } else {
            t / 10 + 1
        };
        2..tenth + 2
    }

    /// The blocks of general storage: from the end of the inode table up to
    /// and including the last block.
    pub fn get_storage_block_range(&self) -> (r: std::ops::Range<u32>)
        requires
            self.total_blocks < u32::MAX,
        ensures
            r.start == storage_start(self.total_blocks),
            r.end == self.total_blocks + 1,
    {
        let inodes_end = self.get_inode_table_block_range().end;
        inodes_end..self.total_blocks + 1
    }

    /// How many inodes the table holds: its block count times the total
    /// block count.
    pub fn get_inode_count(&self) -> (r: u64)
        ensures
            r == inode_capacity(self.total_blocks),
    {
        let t = self.total_blocks as u64;
        let tenth: u64 = if t % 10 == 0 {
            t / 10
        } else {
            t / 10 + 1
        };
        proof {
            assert(tenth <= 429496730);
            assert(tenth * t <= 429496730 * 4294967295) by (nonlinear_arith)
                requires
                    tenth <= 429496730,
                    t <= 4294967295,
            ;
        }
        tenth * t
    }

    /// A valid superblock for a medium of `size` blocks.
    pub fn new(size: u32) -> (r: SuperBlock)
        ensures
            r.magic_number@ == MAGIC_NUMBER@,
            r.total_blocks == size,
    {
        SuperBlock { magic_number: MAGIC_NUMBER.to_owned(), total_blocks: size }
    }
}

impl Block {
    /// Reads every block of the storage range, dropping those that do not
    /// read back; nothing where the superblock cannot be read.
    pub fn get_all_blocks(disk: Disk) -> (r: (Vec<Block>, Disk))
        ensures
            blocks_view(r.0@) == storage_blocks(disk@.medium),
            r.1@ == with_reads(disk@, storage_reads(disk@.medium)),
    {
        let ghost d0 = disk@;
        let (sb, disk) = SuperBlock::get_super_block(disk);
        let mut out: Vec<Block> = Vec::new();
        match sb {
            None => (out, disk),
            Some(sb) => {
                let lo = sb.get_inode_table_block_range().end as u64;
                let hi = sb.total_blocks as u64 + 1;
                let mut disk = disk;
                let mut n: u64 = lo;
                proof {
                    lemma_with_reads(d0, 1, 0);
                }
                while n < hi
                    invariant
                        lo <= hi ==> lo <= n <= hi,
                        lo > hi ==> n == lo,
                        hi == sb.total_blocks + 1,
                        lo == storage_start(sb.total_blocks),
                        d0.medium == disk@.medium,
                        blocks_view(out@) == somes(range_blocks(d0.medium, lo as int, n as int)),
                        disk@ == with_reads(d0, (1 + n - lo) as nat),
                    decreases hi - n,
                {
                    let (b, d2) = Block::get_block(n as u32, disk);
                    disk = d2;
                    proof {
                        lemma_with_reads(d0, (1 + n - lo) as nat, 1);
                        let rb = range_blocks(d0.medium, lo as int, n + 1);
                        assert(rb.drop_last() == range_blocks(d0.medium, lo as int, n as int));
                    }
                    match b {
                        Some(b) => {
                            out.push(b);
                        },
                        None => {},
                    }
                    proof {
                        assert(blocks_view(out@) =~= somes(
                            range_blocks(d0.medium, lo as int, n + 1),
                        ));
                    }
                    n = n + 1;
                }
                proof {
                    if lo > hi {
                        assert(range_blocks(d0.medium, lo as int, n as int) == Seq::<
                            Option<BlockView>,
                        >::empty());
                        assert(somes(Seq::<Option<BlockView>>::empty()) == Seq::<BlockView>::empty());
                    }
                }
                (out, disk)
            },
        }
    }

    /// The free blocks of the storage range, in block order.
    pub fn get_all_free_data_blocks(disk: Disk) -> (r: (Vec<Block>, Disk))
        ensures
            blocks_view(r.0@) == free_of(storage_blocks(disk@.medium)),
            r.1@ == with_reads(disk@, storage_reads(disk@.medium)),
    {
        let (all, disk) = Block::get_all_blocks(disk);
        let mut out: Vec<Block> = Vec::new();
        let mut i: usize = 0;
        while i < all.len()
            invariant
                0 <= i <= all.len(),
                blocks_view(out@) == free_of(blocks_view(all@).take(i as int)),
            decreases all.len() - i,
        {
            proof {
                assert(blocks_view(all@).take(i + 1).drop_last() =~= blocks_view(all@).take(
                    i as int,
                ));
            }
            if all[i].b_type == BlockType::Free {
                out.push(Block { number: all[i].number, b_type: all[i].b_type, data: all[i].data.clone() });
            }
            proof {
                assert(blocks_view(out@) =~= free_of(blocks_view(all@).take(i + 1)));
            }
            i = i + 1;
        }
        assert(blocks_view(all@).take(all.len() as int) =~= blocks_view(all@));
        (out, disk)
    }

    /// The first `num` free blocks of the storage range (first fit).
    pub fn get_free_data_blocks(num: usize, disk: Disk) -> (r: (Vec<Block>, Disk))
        ensures
            blocks_view(r.0@) == first_n(free_of(storage_blocks(disk@.medium)), num as int),
            r.1@ == with_reads(disk@, storage_reads(disk@.medium)),
    {
        let (mut free, disk) = Block::get_all_free_data_blocks(disk);
        if num < free.len() {
            free.truncate(num);
        }
        (free, disk)
    }
}

pub proof fn lemma_somes_view(s: Seq<Option<Block>>)
    ensures
        blocks_view(somes(s)) == somes(s.map_values(|o: Option<Block>| block_opt_view(o))),
    decreases s.len(),
{
    if s.len() > 0 {
        lemma_somes_view(s.drop_last());
        assert(s.map_values(|o: Option<Block>| block_opt_view(o)).drop_last() =~= s.drop_last().map_values(
            |o: Option<Block>| block_opt_view(o),
        ));
        assert(blocks_view(somes(s)) =~= somes(s.map_values(|o: Option<Block>| block_opt_view(o))));
    }
}

impl Block {
    /// Writes the blocks in order; gives back those written.
    pub fn write_blocks(bs: Vec<Block>, disk: Disk) -> (r: (Vec<Block>, Disk))
        ensures
            blocks_view(r.0@) == written(disk@, blocks_view(bs@)),
            r.1@ == write_all(disk@, blocks_view(bs@)),
    {
        let ghost start = disk@;
        let ghost all = blocks_view(bs@);
        let mut disk = disk;
        let mut out: Vec<Block> = Vec::new();
        let mut i: usize = 0;
        while i < bs.len()
            invariant
                0 <= i <= bs.len(),
                all == blocks_view(bs@),
                disk@ == write_all(start, all.take(i as int)),
                blocks_view(out@) == written(start, all.take(i as int)),
            decreases bs.len() - i,
        {
            let b = Block { number: bs[i].number, b_type: bs[i].b_type, data: bs[i].data.clone() };
            proof {
                assert(all[i as int] == b@);
                lemma_write_all_keeps_medium(start, all.take(i as int));
                assert(all.take(i + 1).drop_last() =~= all.take(i as int));
            }
            let (w, d2) = Block::write_block(b, disk);
            disk = d2;
            match w {
                Some(x) => {
                    out.push(x);
                },
                None => {},
            }
            proof {
                assert(blocks_view(out@) =~= written(start, all.take(i + 1)));
            }
            i = i + 1;
        }
        assert(all.take(bs.len() as int) =~= all);
        (out, disk)
    }
}

/// After the blocks `ws` (distinct numbers, each at least 1) are written on
/// a medium that is there, the record at each block's number is its text.
pub proof fn lemma_write_all_records(d: DiskView, ws: Seq<BlockView>)
    requires
        d.medium is Some,
        forall|k: int| 0 <= k < ws.len() ==> (#[trigger] ws[k]).number >= 1,
        forall|j: int, k: int| 0 <= j < k < ws.len() ==> (#[trigger] ws[j]).number != (
        #[trigger] ws[k]).number,
    ensures
        write_all(d, ws).medium is Some,
        forall|k: int|
            0 <= k < ws.len() ==> (#[trigger] ws[k]).number <= write_all(d, ws).medium.unwrap().len()
                && write_all(d, ws).medium.unwrap()[ws[k].number - 1] == block_text(ws[k]),
    decreases ws.len(),
{
    if ws.len() > 0 {
        let pre = ws.drop_last();
        assert forall|j: int, k: int| 0 <= j < k < pre.len() implies (#[trigger] pre[j]).number
            != (#[trigger] pre[k]).number by {
            assert(pre[j] == ws[j]);
            assert(pre[k] == ws[k]);
        }
        assert forall|k: int| 0 <= k < pre.len() implies (#[trigger] pre[k]).number >= 1 by {
            assert(pre[k] == ws[k]);
        }
        lemma_write_all_records(d, pre);
        let s = write_all(d, pre).medium.unwrap();
        let last = ws.last();
        let m2 = write_all(d, ws).medium.unwrap();
        assert forall|k: int| 0 <= k < ws.len() implies (#[trigger] ws[k]).number <= m2.len()
            && m2[ws[k].number - 1] == block_text(ws[k]) by {
            if k < ws.len() - 1 {
                assert(pre[k] == ws[k]);
                assert(ws[k].number != ws[ws.len() - 1].number);
            }
        }
    }
}

} // verus!
