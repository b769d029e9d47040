use vstd::prelude::*;

use crate::block::{
    blocks_view, data_of, free_of, freed, inode_capacity, storage_blocks, storage_reads,
    super_block_in, super_block_text, write_all, Block, BlockType, BlockView, MAGIC_NUMBER,
    SuperBlock, SuperBlockView,
};
use crate::directory::{
    dir_opt_view, directory_in, directory_reads, inode_in, lemma_remove_file_name_gone,
    lemma_write_file_name_listed, lookup, remove_file_name_result, save_directory_result,
    store_chain_result, write_file_name_result, Directory, EntryView,
};
use crate::disk::{lemma_with_reads, with_reads, Disk, DiskView};
use crate::inode::{
    first_free, free_inodes_of, inode_chain, inode_chain_reads, inode_table_in, inode_table_reads,
    replace_all_result, write_inode_result, Inode,
};
use crate::utils::{data_chunks, string_to_block_data_chunks};

verus! {

/// The inode and chain of the file that the directory calls `name`.
pub open spec fn file_in(m: Option<Seq<Seq<char>>>, name: Seq<char>) -> Option<
    (Inode, Seq<BlockView>),
> {
    match directory_in(m) {
        Some(es) => match lookup(es, name) {
            Some(n) => match inode_in(m, n) {
                Some(i) => match inode_chain(m, i) {
                    Some(c) => Some((i, c)),
                    None => None,
                },
                None => None,
            },
            None => None,
        },
        None => None,
    }
}

/// How many records finding the file called `name` takes.
pub open spec fn file_reads(m: Option<Seq<Seq<char>>>, name: Seq<char>) -> nat {
    directory_reads(m) + match directory_in(m) {
        Some(es) => match lookup(es, name) {
            Some(n) => inode_table_reads(m) + match inode_in(m, n) {
                Some(i) => inode_chain_reads(m, i),
                None => 0,
            },
            None => 0,
        },
        None => 0,
    }
}

/// The contents of the file called `name`, if it can be read.
pub open spec fn file_data(m: Option<Seq<Seq<char>>>, name: Seq<char>) -> Option<Seq<char>> {
    match file_in(m, name) {
        Some((_i, c)) => Some(data_of(c)),
        None => None,
    }
}

/// The first free inode of the medium's table.
pub open spec fn free_inode_in(m: Option<Seq<Seq<char>>>) -> Option<Inode> {
    match inode_table_in(m) {
        Some(t) => first_free(t),
        None => None,
    }
}

/// What saving `data` as the file `name` gives back, and the state after.
pub open spec fn save_as_file_result(d: DiskView, name: Seq<char>, data: Seq<char>) -> (
    Option<u32>,
    DiskView,
) {
    let d1 = with_reads(d, inode_table_reads(d.medium));
    let (w, d2) = store_chain_result(d1, free_inode_in(d.medium), data_chunks(data));
    match w {
        Some((i, _bs)) => write_file_name_result(d2, i.number, name),
        None => (None, d2),
    }
}

/// What removing the file `name` gives back, and the state after.
pub open spec fn remove_file_result(d: DiskView, name: Seq<char>) -> (bool, DiskView) {
    if name == "/"@ || name == "."@ {
        (false, d)
    } else {
        let m = d.medium;
        let d1 = with_reads(d, file_reads(m, name));
        let d3 = match file_in(m, name) {
            Some((i, c)) => {
                let (_r, d2) = write_inode_result(d1, Inode { number: i.number, start_block: None });
                write_all(d2, c.map_values(|b: BlockView| freed(b)))
            },
            None => d1,
        };
        let (r, d4) = remove_file_name_result(d3, name);
        (r is Some, d4)
    }
}

/// The blocks that formatting writes: block 1 carries the superblock, all
/// are free, the others are empty.
pub open spec fn format_blocks(size: u32) -> Seq<BlockView> {
    Seq::new(
        size as nat,
        |k: int|
            BlockView {
                number: (k + 1) as u32,
                b_type: BlockType::Free,
                data: if k == 0 {
                    super_block_text(SuperBlockView { magic_number: MAGIC_NUMBER@, total_blocks: size })
                } else {
                    Seq::empty()
                },
            },
    )
}

/// The all-free inode table of a medium of `size` blocks.
pub open spec fn fresh_inodes(size: u32) -> Seq<Inode> {
    Seq::new(inode_capacity(size), |k: int| Inode { number: (k + 1) as u32, start_block: None })
}

/// The directory of a freshly formatted medium.
pub open spec fn default_directory() -> Seq<EntryView> {
    seq![("."@, 1u32), ("/"@, 1u32)]
}

/// What formatting gives back, and the state after.
pub open spec fn format_result(d: DiskView, size: u32) -> (bool, DiskView) {
    let d1 = write_all(d, format_blocks(size));
    let (_t, d2) = replace_all_result(d1, fresh_inodes(size));
    let (r, d3) = save_directory_result(d2, default_directory());
    (r is Some, d3)
}

/// Idempotent read: reading a file leaves the medium as it was and moves
/// only the read counter, so a second read of the same file gives the same
/// text and moves the counter by the same number of reads.
pub proof fn lemma_read_file_idempotent(d: DiskView, name: Seq<char>)
    ensures
        ({
            let d1 = with_reads(d, file_reads(d.medium, name));
            &&& d1.medium == d.medium
            &&& d1.writes == d.writes
            &&& file_data(d1.medium, name) == file_data(d.medium, name)
            &&& file_reads(d1.medium, name) == file_reads(d.medium, name)
        }),
{
}

/// Idempotent read, counted: while the read counter does not reach its
/// limit, two reads of the same file move it by the same amount.
pub proof fn lemma_read_file_counts(d: DiskView, name: Seq<char>)
    requires
        d.reads + 2 * file_reads(d.medium, name) <= u32::MAX,
    ensures
        ({
            let k = file_reads(d.medium, name);
            let d1 = with_reads(d, k);
            let d2 = with_reads(d1, file_reads(d1.medium, name));
            &&& d1.reads == d.reads + k
            &&& d2.reads == d1.reads + k
            &&& d2.writes == d.writes
            &&& d2.medium == d.medium
            &&& file_data(d2.medium, name) == file_data(d.medium, name)
        }),
{
}

/// Directory default: when formatting succeeds, the directory then reads as
/// exactly {".": 1, "/": 1}.
pub proof fn lemma_format_gives_default_directory(d: DiskView, size: u32)
    ensures
        format_result(d, size).0 ==> directory_in(format_result(d, size).1.medium) == Some(
            default_directory(),
        ),
{
}

/// A save that succeeds leaves the name entered in the directory for the
/// inode it gave back.
pub proof fn lemma_saved_file_is_listed(d: DiskView, name: Seq<char>, data: Seq<char>)
    ensures
        save_as_file_result(d, name, data).0 matches Some(n) ==> (directory_in(
            save_as_file_result(d, name, data).1.medium,
        ) matches Some(es) && lookup(es, name) == Some(n)),
{
    let d1 = with_reads(d, inode_table_reads(d.medium));
    let (w, d2) = store_chain_result(d1, free_inode_in(d.medium), data_chunks(data));
    match w {
        Some((i, _bs)) => lemma_write_file_name_listed(d2, i.number, name),
        None => {},
    }
}

/// A removal that succeeds leaves no file under that name.
pub proof fn lemma_removed_file_is_gone(d: DiskView, name: Seq<char>)
    ensures
        remove_file_result(d, name).0 ==> file_data(remove_file_result(d, name).1.medium, name)
            is None,
{
    if !(name == "/"@ || name == "."@) {
        let m = d.medium;
        let d1 = with_reads(d, file_reads(m, name));
        let d3 = match file_in(m, name) {
            Some((i, c)) => {
                let (_r, d2) = write_inode_result(d1, Inode { number: i.number, start_block: None });
                write_all(d2, c.map_values(|b: BlockView| freed(b)))
            },
            None => d1,
        };
        lemma_remove_file_name_gone(d3, name);
    }
}

/// Disk-wide figures: the superblock's, the counters, and what is free.
#[derive(Clone, Copy, Debug, PartialEq, Eq, Structural)]
pub struct DiskDiagnostics {
    pub valid_magic_number: bool,
    pub total_reads: u32,
    pub total_writes: u32,
    pub total_blocks: u32,
    pub total_inodes: u64,
    pub total_free_inodes: u64,
    pub total_free_blocks: u64,
}

/// Finds the file that the directory calls `file_name`: its inode and chain.
pub fn get_file_inode_and_blocks(file_name: String, disk: Disk) -> (r: (
    Option<(Inode, Vec<Block>)>,
    Disk,
))
    ensures
        match file_in(disk@.medium, file_name@) {
            Some((i, c)) => r.0 is Some && r.0.unwrap().0 == i && blocks_view(r.0.unwrap().1@) == c,
            None => r.0 is None,
        },
        r.1@ == with_reads(disk@, file_reads(disk@.medium, file_name@)),
{
    let ghost d0 = disk@;
    let ghost m = disk@.medium;
    let (dir, disk) = Directory::get_directory(disk);
    let dir = match dir {
        Some(x) => x,
        None => {
            proof {
                lemma_with_reads(d0, directory_reads(m), 0);
            }
            return (None, disk);
        },
    };
    let n = match dir.find(file_name.as_str()) {
        Some(n) => n,
        None => {
            proof {
                lemma_with_reads(d0, directory_reads(m), 0);
            }
            return (None, disk);
        },
    };
    let (found, disk) = Inode::get_inode_and_super_block(n, disk);
    proof {
        lemma_with_reads(d0, directory_reads(m), inode_table_reads(m));
    }
    let (i, sb) = match found {
        Some(x) => x,
        None => {
            proof {
                lemma_with_reads(d0, directory_reads(m) + inode_table_reads(m), 0);
            }
            return (None, disk);
        },
    };
    let (c, disk) = Inode::get_inode_blocks(i, &sb, disk);
    proof {
        lemma_with_reads(
            d0,
            directory_reads(m) + inode_table_reads(m),
            inode_chain_reads(m, i),
        );
    }
    (c, disk)
}

/// The file system's operations, each a step from one storage state to the next.
#[derive(Debug)]
pub struct FileSystem {}

impl FileSystem {
    /// The contents of the file called `file_name`; nothing where the name is
    /// unknown or its inode or chain cannot be read.
    pub fn read_file(file_name: String, disk: Disk) -> (r: (Option<String>, Disk))
        ensures
            crate::disk::text_view(r.0) == file_data(disk@.medium, file_name@),
            r.1@ == with_reads(disk@, file_reads(disk@.medium, file_name@)),
    {
        let (f, disk) = get_file_inode_and_blocks(file_name, disk);
        match f {
            Some((_, b)) => (Some(Block::blocks_to_data(b)), disk),
            None => (None, disk),
        }
    }

    /// Saves `data` as a new file called `file_name`: a free inode, enough
    /// free blocks for its pieces, the chain written, the name entered.
    /// Gives back the inode number, or nothing where no inode is free, there
    /// are fewer free blocks than pieces, or a step fails. When no inode or
    /// too few blocks are free nothing is written.
    pub fn save_as_file(file_name: String, data: String, disk: Disk) -> (r: (Option<u32>, Disk))
        ensures
            (r.0, r.1@) == save_as_file_result(disk@, file_name@, data@),
            free_inode_in(disk@.medium) is None ==> r.0 is None && r.1@.medium == disk@.medium,
            free_of(storage_blocks(disk@.medium)).len() < data_chunks(data@).len() ==> r.0 is None
                && r.1@.medium == disk@.medium,
    {
        let pieces = string_to_block_data_chunks(data);
        let (fi, disk) = Inode::get_free_inode(disk);
        let (w, disk) = crate::directory::store_chain(fi, pieces, disk);
        match w {
            Some((i, _)) => Directory::write_file_name(i.number, file_name, disk),
            None => (None, disk),
        }
    }

    /// The directory, as `Directory::get_directory` reads it.
    pub fn get_directory(disk: Disk) -> (r: (Option<Directory>, Disk))
        ensures
            dir_opt_view(r.0) == directory_in(disk@.medium),
            r.1@ == with_reads(disk@, directory_reads(disk@.medium)),
    {
        Directory::get_directory(disk)
    }

    /// Removes the file called `file_name`: frees its inode and blocks, then
    /// drops the name. "." and "/" are refused. Gives back whether the
    /// directory could be rewritten.
    pub fn remove_file(file_name: String, disk: Disk) -> (r: (bool, Disk))
        ensures
            (r.0, r.1@) == remove_file_result(disk@, file_name@),
    {
        if crate::directory::same_text(file_name.as_str(), "/") || crate::directory::same_text(
            file_name.as_str(),
            ".",
        ) {
            return (false, disk);
        }
        let (f, disk) = get_file_inode_and_blocks(file_name.clone(), disk);
        let disk = match f {
            Some((i, b)) => {
                let (_fi, disk) = Inode::free_inode(i, disk);
                let (_fb, disk) = Block::free_blocks(b, disk);
                disk
            },
            None => disk,
        };
        let (r, disk) = Directory::remove_file_name(file_name, disk);
        (r.is_some(), disk)
    }

    /// Formats the medium for `size` blocks: writes every block (block 1
    /// carries the superblock), an all-free inode table and the default
    /// directory. Gives back whether the directory could be read back.
    pub fn format(disk: Disk, size: u32) -> (r: (bool, Disk))
        requires
            inode_capacity(size) <= u32::MAX,
        ensures
            (r.0, r.1@) == format_result(disk@, size),
    {
        let super_block = SuperBlock::new(size);
        let text = super_block.to_text();
        let mut blocks: Vec<Block> = Vec::new();
        let mut k: u32 = 0;
        while k < size
            invariant
                k <= size,
                blocks@.len() == k,
                text@ == super_block_text(SuperBlockView { magic_number: MAGIC_NUMBER@, total_blocks: size }),
                blocks_view(blocks@) == format_blocks(size).take(k as int),
            decreases size - k,
        {
            let data = if k == 0 {
                text.clone()
            } else {
                String::new()
            };
            blocks.push(Block { number: k + 1, b_type: BlockType::Free, data });
            proof {
                assert(blocks@.len() == k + 1);
                assert(format_blocks(size)[k as int].number == blocks@[k as int]@.number);
                assert(format_blocks(size)[k as int].b_type == blocks@[k as int]@.b_type);
                assert(format_blocks(size)[k as int].data == blocks@[k as int]@.data);
                assert(format_blocks(size)[k as int] == blocks@[k as int]@);
                assert(blocks_view(blocks@) =~= format_blocks(size).take(k + 1));
            }
            k = k + 1;
        }
        assert(blocks_view(blocks@) =~= format_blocks(size));
        let (_w, disk) = Block::write_blocks(blocks, disk);
        let inodes = Inode::generate_inodes(size);
        let (_t, disk) = Inode::replace_all_inodes(inodes, disk);
        let (r, disk) = Directory::save_directory(Directory::default(), disk);
        (r.is_some(), disk)
    }

    /// The storage state, where block 1 holds a superblock with the right
    /// magic constant; nothing otherwise.
    pub fn mount(disk: Disk) -> (r: Option<Disk>)
        ensures
            match super_block_in(disk@.medium) {
                Some(s) => if s.magic_number == MAGIC_NUMBER@ {
                    r is Some && r.unwrap()@ == with_reads(disk@, 1)
                } else {
                    r is None
                },
                None => r is None,
            },
    {
        let (sb, disk) = SuperBlock::get_super_block(disk);
        match sb {
            Some(s) => {
                if s.valid_super_block() {
                    Some(disk)
                } else {
                    None
                }
            },
            None => None,
        }
    }

    /// The diagnostics, as `DiskDiagnostics::get_diagnostics` reads them.
    pub fn get_diagnostic(disk: Disk) -> (r: (Option<DiskDiagnostics>, Disk))
        ensures
            r.1@ == with_reads(
                disk@,
                1 + storage_reads(disk@.medium) + inode_table_reads(disk@.medium),
            ),
            match super_block_in(disk@.medium) {
                Some(s) => r.0 == Some(
                    DiskDiagnostics {
                        valid_magic_number: s.magic_number == MAGIC_NUMBER@,
                        total_reads: r.1.reads,
                        total_writes: r.1.writes,
                        total_blocks: s.total_blocks,
                        total_inodes: inode_capacity(s.total_blocks) as u64,
                        total_free_inodes: match inode_table_in(disk@.medium) {
                            Some(t) => free_inodes_of(t).len() as u64,
                            None => 0,
                        },
                        total_free_blocks: free_of(storage_blocks(disk@.medium)).len() as u64,
                    },
                ),
                None => r.0 is None,
            },
    {
        DiskDiagnostics::get_diagnostics(disk)
    }
}

impl DiskDiagnostics {
    /// Reads the superblock, the free blocks and the free inodes, and reports
    /// them with the counters as they stand after those reads; nothing where
    /// the superblock cannot be read.
    pub fn get_diagnostics(disk: Disk) -> (r: (Option<DiskDiagnostics>, Disk))
        ensures
            r.1@ == with_reads(
                disk@,
                1 + storage_reads(disk@.medium) + inode_table_reads(disk@.medium),
            ),
            match super_block_in(disk@.medium) {
                Some(s) => r.0 == Some(
                    DiskDiagnostics {
                        valid_magic_number: s.magic_number == MAGIC_NUMBER@,
                        total_reads: r.1.reads,
                        total_writes: r.1.writes,
                        total_blocks: s.total_blocks,
                        total_inodes: inode_capacity(s.total_blocks) as u64,
                        total_free_inodes: match inode_table_in(disk@.medium) {
                            Some(t) => free_inodes_of(t).len() as u64,
                            None => 0,
                        },
                        total_free_blocks: free_of(storage_blocks(disk@.medium)).len() as u64,
                    },
                ),
                None => r.0 is None,
            },
    {
        let ghost d0 = disk@;
        let (sb, disk) = SuperBlock::get_super_block(disk);
        let (blocks, disk) = Block::get_all_free_data_blocks(disk);
        let (inodes, disk) = Inode::get_free_inodes(disk);
        proof {
            lemma_with_reads(d0, 1, storage_reads(d0.medium));
            lemma_with_reads(d0, 1 + storage_reads(d0.medium), inode_table_reads(d0.medium));
        }
        match sb {
            Some(x) => {
                let res = DiskDiagnostics {
                    valid_magic_number: x.valid_super_block(),
                    total_reads: disk.reads,
                    total_writes: disk.writes,
                    total_blocks: x.total_blocks,
                    total_inodes: x.get_inode_count(),
                    total_free_inodes: inodes.len() as u64,
                    total_free_blocks: blocks.len() as u64,
                };
                (Some(res), disk)
            },
            None => (None, disk),
        }
    }
}

} // verus!
