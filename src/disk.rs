use vstd::prelude::*;

verus! {

/// The storage state threaded through every operation: the medium's name,
/// how many record reads and writes were made, and the medium's records.
/// `records` is `None` when the medium cannot be opened. The records travel
/// with the state so that every operation is a plain function from a state
/// to a result and the next state; loading them from the medium and storing
/// them back is left to the program around the library.
#[derive(Clone, Debug)]
pub struct Disk {
    pub file: String,
    pub reads: u32,
    pub writes: u32,
    pub records: Option<Vec<String>>,
}

pub ghost struct DiskView {
    pub file: Seq<char>,
    pub reads: u32,
    pub writes: u32,
    pub medium: Option<Seq<Seq<char>>>,
}

pub open spec fn records_view(v: Seq<String>) -> Seq<Seq<char>> {
    v.map_values(|s: String| s@)
}

impl View for Disk {
    type V = DiskView;

    open spec fn view(&self) -> DiskView {
        DiskView {
            file: self.file@,
            reads: self.reads,
            writes: self.writes,
            medium: match self.records {
                Some(v) => Some(records_view(v@)),
                None => None,
            },
        }
    }
}

/// A counter moved on by `k`, held at `u32::MAX` once it gets there.
pub open spec fn add_count(n: u32, k: nat) -> u32 {
    if n + k > u32::MAX {
        u32::MAX
    } else {
        (n + k) as u32
    }
}

/// `d` after `k` more record reads.
pub open spec fn with_reads(d: DiskView, k: nat) -> DiskView {
    DiskView { reads: add_count(d.reads, k), ..d }
}

pub proof fn lemma_with_reads(d: DiskView, a: nat, b: nat)
    ensures
        with_reads(with_reads(d, a), b) == with_reads(d, a + b),
        with_reads(d, 0) == d,
{
}

/// `d` after one more record write that left the medium as `m`.
pub open spec fn with_write(d: DiskView, m: Option<Seq<Seq<char>>>) -> DiskView {
    DiskView { writes: add_count(d.writes, 1), medium: m, ..d }
}

/// Record `line` (counted from 1) of the medium.
pub open spec fn record_at(m: Option<Seq<Seq<char>>>, line: u32) -> Option<Seq<char>> {
    match m {
        Some(s) => if 1 <= line <= s.len() {
            Some(s[line - 1])
        } else {
            None
        },
        None => None,
    }
}

/// The medium after `text` is written as record `line`: empty records are
/// added first where the medium is shorter.
pub open spec fn put_record(m: Option<Seq<Seq<char>>>, line: u32, text: Seq<char>) -> Option<
    Seq<Seq<char>>,
> {
    match m {
        Some(s) => if line >= 1 {
            if s.len() >= line {
                Some(s.update(line - 1, text))
            } else {
                Some(
                    (s + Seq::new((line - s.len()) as nat, |k: int| Seq::<char>::empty())).update(
                        line - 1,
                        text,
                    ),
                )
            }
        } else {
            m
        },
        None => m,
    }
}

pub open spec fn text_view(o: Option<String>) -> Option<Seq<char>> {
    match o {
        Some(s) => Some(s@),
        None => None,
    }
}

impl Disk {
    /// A storage state for a medium that cannot be opened.
    pub fn new(file_name: &str) -> (r: Disk)
        ensures
            r@ == (DiskView { file: file_name@, reads: 0, writes: 0, medium: None }),
    {
        Disk { file: file_name.to_owned(), reads: 0, writes: 0, records: None }
    }

    /// A storage state for a medium holding `records`.
    pub fn with_records(file_name: &str, records: Vec<String>) -> (r: Disk)
        ensures
            r@ == (DiskView {
                file: file_name@,
                reads: 0,
                writes: 0,
                medium: Some(records_view(records@)),
            }),
    {
        Disk { file: file_name.to_owned(), reads: 0, writes: 0, records: Some(records) }
    }

    /// The same state with one more read counted.
    pub fn read(self) -> (r: Disk)
        ensures
            r@ == with_reads(self@, 1),
    {
        Disk {
            file: self.file,
            reads: self.reads.saturating_add(1),
            writes: self.writes,
            records: self.records,
        }
    }

    /// The same state with one more write counted.
    pub fn write(self) -> (r: Disk)
        ensures
            r@ == with_write(self@, self@.medium),
    {
        Disk {
            file: self.file,
            reads: self.reads,
            writes: self.writes.saturating_add(1),
            records: self.records,
        }
    }
}

/// Reads record `line` (counted from 1). Counts one read whatever comes back.
pub fn read(line: u32, disk: Disk) -> (r: (Option<String>, Disk))
    ensures
        text_view(r.0) == record_at(disk@.medium, line),
        r.1@ == with_reads(disk@, 1),
{
    let text = match &disk.records {
        Some(v) => {
            if line >= 1 && (line as usize) <= v.len() {
                proof {
                    assert(records_view(v@)[line - 1] == v@[line - 1]@);
                }
                Some(v[(line - 1) as usize].clone())
            } else {
                None
            }
        },
        None => None,
    };
    (text, disk.read())
}

/// Writes `data` as record `line` (counted from 1), padding the medium with
/// empty records where it is shorter. Gives back the text written, or
/// nothing where the medium cannot be written. Counts one write either way.
pub fn write(line: u32, data: String, disk: Disk) -> (r: (Option<String>, Disk))
    ensures
        r.0 is Some <==> (disk@.medium is Some && line >= 1),
        r.0 is Some ==> r.0.unwrap()@ == data@,
        r.1@ == with_write(disk@, put_record(disk@.medium, line, data@)),
{
    let Disk { file, reads, writes, records } = disk;
    let writes = writes.saturating_add(1);
    match records {
        Some(mut v) => {
            if line == 0 {
                return (None, Disk { file, reads, writes, records: Some(v) });
            }
            let ghost start = records_view(v@);
            assert(start + Seq::new(0, |k: int| Seq::<char>::empty()) =~= start);
            while v.len() < line as usize
                invariant
                    start.len() <= v@.len(),
                    start.len() < line ==> v@.len() <= line,
                    start.len() >= line ==> v@.len() == start.len(),
                    start.len() < line ==> records_view(v@) == start + Seq::new(
                        (v@.len() - start.len()) as nat,
                        |k: int| Seq::<char>::empty(),
                    ),
                    start.len() >= line ==> records_view(v@) == start,
                decreases line - v.len(),
            {
                let ghost before = records_view(v@);
                v.push(String::new());
                proof {
                    assert(records_view(v@) =~= before.push(Seq::<char>::empty()));
                    assert(start + Seq::new(
                        (v@.len() - start.len()) as nat,
                        |k: int| Seq::<char>::empty(),
                    ) =~= before.push(Seq::<char>::empty()));
                }
            }
            let ghost padded = records_view(v@);
            let out = data.clone();
            v.set((line - 1) as usize, data);
            proof {
                assert(records_view(v@) =~= padded.update(line - 1, data@));
                if start.len() >= line {
                    assert(padded == start);
                } else {
                    assert(v@.len() == line);
                }
            }
            (Some(out), Disk { file, reads, writes, records: Some(v) })
        },
        None => (None, Disk { file, reads, writes, records: None }),
    }
}

} // verus!
