use vstd::prelude::*;

use crate::block::{
    block_text, blocks_view, data_of, first_n, free_of, freed, lemma_write_all_records,
    storage_blocks, storage_reads, write_all, written, Block, BlockView,
};
use crate::disk::{lemma_with_reads, with_reads, Disk, DiskView};
use crate::inode::{
    chain_from, find_inode, holds_linked, inode_chain, inode_chain_reads, inode_table_in,
    inode_table_reads, lemma_chain_integrity, lemma_write_inode_keeps_medium, linked,
    write_inode_result, Inode,
};
use crate::utils::{
    data_chunks, joined, lemma_chunks_rejoin, string_to_block_data_chunks, texts_view,
};
use crate::text::{
    chars_of, decimal, escape, expect, expect_at, lemma_decimal_digits, lemma_read_decimal,
    lemma_read_escaped, read_number, read_number_at, read_quoted, read_quoted_at, write_decimal,
    write_escaped,
};

verus! {

/// One directory entry as the contracts see it: a name and an inode number.
pub type EntryView = (Seq<char>, u32);

// ---------------------------------------------------------------------------
// Text form
// ---------------------------------------------------------------------------

pub open spec fn entry_text(e: EntryView) -> Seq<char> {
    "\""@ + escape(e.0) + "\":"@ + decimal(e.1 as nat)
}

/// The entries after the first, each preceded by a comma.
pub open spec fn entry_tail_text(s: Seq<EntryView>) -> Seq<char>
    decreases s.len(),
{
    if s.len() == 0 {
        Seq::empty()
    } else {
        ","@ + entry_text(s[0]) + entry_tail_text(s.skip(1))
    }
}

/// The text form of a directory.
pub open spec fn directory_text(s: Seq<EntryView>) -> Seq<char> {
    if s.len() == 0 {
        "{\"directory\":{}}"@
    } else {
        "{\"directory\":{"@ + entry_text(s[0]) + entry_tail_text(s.skip(1)) + "}}"@
    }
}

pub open spec fn read_entry(t: Seq<char>, i: int) -> Option<(EntryView, int)> {
    match expect(t, i, "\""@) {
        Some(at1) => match read_quoted(t, at1) {
            Some((name, at2)) => match expect(t, at2, ":"@) {
                Some(at3) => match read_number(t, at3) {
                    Some((n, at4)) => Some(((name, n), at4)),
                    None => None,
                },
                None => None,
            },
            None => None,
        },
        None => None,
    }
}

/// Reads entries from `i` up to and including the closing brace.
pub open spec fn read_entry_items(t: Seq<char>, i: int) -> Option<(Seq<EntryView>, int)>
    decreases t.len() - i,
{
    match read_entry(t, i) {
        Some((e, j)) => if i < j <= t.len() {
            match expect(t, j, ","@) {
                Some(k) => match read_entry_items(t, k) {
                    Some((rest, m)) => Some((seq![e] + rest, m)),
                    None => None,
                },
                None => match expect(t, j, "}"@) {
                    Some(k) => Some((seq![e], k)),
                    None => None,
                },
            }
        } else {
            None
        },
        None => None,
    }
}

pub open spec fn read_directory_entries(t: Seq<char>) -> Option<Seq<EntryView>> {
    match expect(t, 0, "{\"directory\":{"@) {
        Some(p) => match expect(t, p, "}"@) {
            Some(_) => Some(Seq::empty()),
            None => match read_entry_items(t, p) {
                Some((s, _)) => Some(s),
                None => None,
            },
        },
        None => None,
    }
}

/// No name occurs twice.
pub open spec fn unique_names(s: Seq<EntryView>) -> bool {
    forall|i: int, j: int| 0 <= i < j < s.len() ==> (#[trigger] s[i]).0 != (#[trigger] s[j]).0
}

/// The directory whose text form `t` is, if any.
pub open spec fn decode_directory(t: Seq<char>) -> Option<Seq<EntryView>> {
    if exists|s: Seq<EntryView>| directory_text(s) == t && unique_names(s) {
        Some(choose|s: Seq<EntryView>| directory_text(s) == t && unique_names(s))
    } else {
        None
    }
}

proof fn lemma_read_entry(t: Seq<char>, i: int, e: EntryView)
    requires
        0 <= i,
        i + entry_text(e).len() < t.len(),
        t.subrange(i, i + entry_text(e).len()) == entry_text(e),
        t[i + entry_text(e).len()] == ',' || t[i + entry_text(e).len()] == '}',
    ensures
        read_entry(t, i) == Some((e, i + entry_text(e).len())),
{
    reveal_strlit("\"");
    reveal_strlit("\":");
    reveal_strlit(":");
    let w = entry_text(e);
    let q = "\""@;
    let es = escape(e.0);
    let l2 = "\":"@;
    let d = decimal(e.1 as nat);
    lemma_decimal_digits(e.1 as nat);
    let at1 = i + 1;
    let at2 = at1 + es.len();
    let at3 = at2 + 2;
    let at4 = at3 + d.len();
    let u = t.subrange(i, i + w.len());
    assert(u == w);
    assert(t.subrange(i, at1) =~= u.subrange(0, 1));
    assert(w.subrange(0, 1) =~= q);
    assert(t.subrange(at1, at2) =~= u.subrange(1, at2 - i));
    assert(w.subrange(1, at2 - i) =~= es);
    assert(t[at2] == u[at2 - i]);
    lemma_read_escaped(t, at1, e.0);
    assert(t.subrange(at2 + 1, at3) =~= u.subrange(at2 + 1 - i, at3 - i));
    assert(w.subrange(at2 + 1 - i, at3 - i) =~= ":"@);
    assert(t.subrange(at3, at4) =~= u.subrange(at3 - i, at4 - i));
    assert(w.subrange(at3 - i, at4 - i) =~= d);
    lemma_read_decimal(t, at3, e.1);
}

proof fn lemma_read_entry_items(t: Seq<char>, i: int, s: Seq<EntryView>)
    requires
        s.len() > 0,
        0 <= i,
        i + entry_text(s[0]).len() + entry_tail_text(s.skip(1)).len() < t.len(),
        t.subrange(i, i + entry_text(s[0]).len() + entry_tail_text(s.skip(1)).len()) == entry_text(
            s[0],
        ) + entry_tail_text(s.skip(1)),
        t[i + entry_text(s[0]).len() + entry_tail_text(s.skip(1)).len()] == '}',
    ensures
        read_entry_items(t, i) == Some(
            (s, i + entry_text(s[0]).len() + entry_tail_text(s.skip(1)).len() + 1),
        ),
    decreases s.len(),
{
    reveal_strlit(",");
    reveal_strlit("}");
    reveal_strlit("\"");
    let v = s[0];
    let w = entry_text(v);
    let rest = s.skip(1);
    let tail = entry_tail_text(rest);
    let whole = w + tail;
    let j = i + w.len();
    assert(t.subrange(i, j) =~= whole.subrange(0, w.len() as int));
    assert(whole.subrange(0, w.len() as int) =~= w);
    assert(w.len() > 0) by {
        assert(w[0] == '"');
    }
    if rest.len() == 0 {
        assert(tail.len() == 0);
        lemma_read_entry(t, i, v);
        assert(t.subrange(j, j + 1) =~= "}"@);
        assert(t.subrange(j, j + 1)[0] == t[j]);
        assert(t.subrange(j, j + 1) != ","@);
        assert(seq![v] =~= s);
    } else {
        let v2 = rest[0];
        let w2 = entry_text(v2);
        let tail2 = entry_tail_text(rest.skip(1));
        assert(tail == ","@ + w2 + tail2);
        assert(t[j] == whole[w.len() as int]);
        lemma_read_entry(t, i, v);
        assert(t.subrange(j, j + 1) =~= ","@);
        let k = j + 1;
        assert(t.subrange(k, k + w2.len() + tail2.len()) =~= w2 + tail2) by {
            assert forall|m: int| 0 <= m < w2.len() + tail2.len() implies t[k + m] == (w2
                + tail2)[m] by {
                assert(t.subrange(i, i + whole.len())[w.len() + 1 + m] == t[k + m]);
            }
        }
        lemma_read_entry_items(t, k, rest);
        assert(seq![v] + rest =~= s);
    }
}

/// The text form of a directory reads back as its entries.
pub proof fn lemma_directory_fields_round_trip(s: Seq<EntryView>)
    ensures
        read_directory_entries(directory_text(s)) == Some(s),
{
    reveal_strlit("{\"directory\":{");
    reveal_strlit("}");
    reveal_strlit("{\"directory\":{}}");
    reveal_strlit("}}");
    reveal_strlit("\"");
    let t = directory_text(s);
    let l1 = "{\"directory\":{"@;
    if s.len() == 0 {
        assert(t.subrange(0, 14) =~= l1);
        assert(t.subrange(14, 15) =~= "}"@);
    } else {
        let w = entry_text(s[0]);
        let tail = entry_tail_text(s.skip(1));
        assert(t.subrange(0, 14) =~= l1);
        assert(w[0] == '"');
        assert(t[14] == w[0]);
        assert(t.subrange(14, 15)[0] == t[14]);
        assert(t.subrange(14, 15) != "}"@);
        assert(t.subrange(14, (14 + w.len() + tail.len()) as int) =~= w + tail);
        lemma_read_entry_items(t, 14, s);
    }
}

/// Parsing the text form of a directory without repeated names gives back
/// its entries.
pub proof fn lemma_directory_round_trip(s: Seq<EntryView>)
    requires
        unique_names(s),
    ensures
        decode_directory(directory_text(s)) == Some(s),
{
    lemma_directory_fields_round_trip(s);
    let t = directory_text(s);
    assert(directory_text(s) == t && unique_names(s));
    let c = choose|x: Seq<EntryView>| directory_text(x) == t && unique_names(x);
    lemma_directory_fields_round_trip(c);
}

pub proof fn lemma_decode_directory(t: Seq<char>)
    ensures
        decode_directory(t) == match read_directory_entries(t) {
            Some(s) => if directory_text(s) == t && unique_names(s) {
                Some(s)
            } else {
                None
            },
            None => None,
        },
{
    if exists|s: Seq<EntryView>| directory_text(s) == t && unique_names(s) {
        let c = choose|s: Seq<EntryView>| directory_text(s) == t && unique_names(s);
        lemma_directory_fields_round_trip(c);
    }
}

proof fn lemma_entry_tail_push(s: Seq<EntryView>, v: EntryView)
    ensures
        entry_tail_text(s.push(v)) == entry_tail_text(s) + ","@ + entry_text(v),
    decreases s.len(),
{
    assert(s.push(v)[0] == if s.len() == 0 {
        v
    } else {
        s[0]
    });
    assert(entry_tail_text(Seq::<EntryView>::empty()) == Seq::<char>::empty());
    if s.len() == 0 {
        assert(s.push(v).skip(1) =~= Seq::<EntryView>::empty());
        assert(entry_tail_text(s.push(v)) =~= entry_tail_text(s) + ","@ + entry_text(v));
    } else {
        assert(s.push(v).skip(1) =~= s.skip(1).push(v));
        lemma_entry_tail_push(s.skip(1), v);
        assert(entry_tail_text(s.push(v)) =~= entry_tail_text(s) + ","@ + entry_text(v));
    }
}

/// Whether two texts are equal.
pub fn same_text(a: &str, b: &str) -> (r: bool)
    ensures
        r == (a@ == b@),
{
    a.to_owned() == b.to_owned()
}

/// The number that `s` maps `name` to, if any.
pub open spec fn lookup(s: Seq<EntryView>, name: Seq<char>) -> Option<u32> {
    if exists|i: int| 0 <= i < s.len() && s[i].0 == name {
        Some(s[choose|i: int| 0 <= i < s.len() && s[i].0 == name].1)
    } else {
        None
    }
}

/// `s` with `name` mapped to `n`: an entry of that name is replaced where it
/// stands, else one is added at the end.
pub open spec fn insert_entry(s: Seq<EntryView>, name: Seq<char>, n: u32) -> Seq<EntryView> {
    if exists|i: int| 0 <= i < s.len() && s[i].0 == name {
        s.update(choose|i: int| 0 <= i < s.len() && s[i].0 == name, (name, n))
    } else {
        s.push((name, n))
    }
}

/// `s` without an entry for `name`.
pub open spec fn remove_entry(s: Seq<EntryView>, name: Seq<char>) -> Seq<EntryView> {
    if exists|i: int| 0 <= i < s.len() && s[i].0 == name {
        s.remove(choose|i: int| 0 <= i < s.len() && s[i].0 == name)
    } else {
        s
    }
}

/// A mapping of names to inode numbers, each name at most once.
#[derive(Debug, PartialEq)]
pub struct Directory {
    directory: Vec<(String, u32)>,
}

impl View for Directory {
    type V = Seq<EntryView>;

    closed spec fn view(&self) -> Seq<EntryView> {
        self.directory@.map_values(|e: (String, u32)| (e.0@, e.1))
    }
}

impl Directory {
    #[verifier::type_invariant]
    spec fn wf(&self) -> bool {
        unique_names(self@)
    }

    /// The entries in their order, as plain values.
    pub fn entries(&self) -> (r: Vec<(String, u32)>)
        ensures
            r@.len() == self@.len(),
            forall|i: int| 0 <= i < r@.len() ==> (#[trigger] r@[i]).0@ == self@[i].0 && r@[i].1 == self@[i].1,
            unique_names(self@),
    {
        proof {
            use_type_invariant(self);
        }
        let mut r: Vec<(String, u32)> = Vec::new();
        let mut i: usize = 0;
        while i < self.directory.len()
            invariant
                0 <= i <= self.directory.len(),
                self@.len() == self.directory@.len(),
                r@.len() == i,
                forall|k: int| 0 <= k < i ==> (#[trigger] r@[k]).0@ == self@[k].0 && r@[k].1 == self@[k].1,
            decreases self.directory.len() - i,
        {
            let name = self.directory[i].0.clone();
            r.push((name, self.directory[i].1));
            i = i + 1;
        }
        r
    }

    /// The inode number that `s` names, if any.
    pub fn find(&self, s: &str) -> (r: Option<u32>)
        ensures
            r == lookup(self@, s@),
            unique_names(self@),
    {
        proof {
            use_type_invariant(self);
        }
        let mut i: usize = 0;
        while i < self.directory.len()
            invariant
                0 <= i <= self.directory.len(),
                self@.len() == self.directory@.len(),
                unique_names(self@),
                forall|k: int| 0 <= k < i ==> self@[k].0 != s@,
            decreases self.directory.len() - i,
        {
            if same_text(self.directory[i].0.as_str(), s) {
                let ghost c = choose|k: int| 0 <= k < self@.len() && self@[k].0 == s@;
                assert(self@[i as int].0 == s@);
                assert(c == i);
                return Some(self.directory[i].1);
            }
            i = i + 1;
        }
        None
    }

    /// The directory of a freshly formatted medium: "." and "/" name inode 1.
    pub fn default() -> (r: Directory)
        ensures
            r@ == seq![("."@, 1u32), ("/"@, 1u32)],
    {
        proof {
            reveal_strlit(".");
            reveal_strlit("/");
        }
        let mut v: Vec<(String, u32)> = Vec::new();
        v.push((".".to_owned(), 1));
        v.push(("/".to_owned(), 1));
        let ghost ev = v@.map_values(|e: (String, u32)| (e.0@, e.1));
        assert(ev =~= seq![("."@, 1u32), ("/"@, 1u32)]);
        assert(ev[0].0 != ev[1].0) by {
            assert(ev[0].0[0] != ev[1].0[0]);
        }
        assert(unique_names(ev));
        let r = Directory { directory: v };
        assert(r@ =~= seq![("."@, 1u32), ("/"@, 1u32)]);
        r
    }

    /// Maps `name` to `n`, replacing an entry of that name where it stands.
    pub fn insert(&mut self, name: String, n: u32)
        ensures
            final(self)@ == insert_entry(old(self)@, name@, n),
            unique_names(final(self)@),
    {
        proof {
            use_type_invariant(&*self);
        }
        let mut i: usize = 0;
        while i < self.directory.len()
            invariant
                0 <= i <= self.directory.len(),
                self@.len() == self.directory@.len(),
                self == old(self),
                unique_names(self@),
                forall|k: int| 0 <= k < i ==> self@[k].0 != name@,
            decreases self.directory.len() - i,
        {
            if same_text(self.directory[i].0.as_str(), name.as_str()) {
                let ghost c = choose|k: int| 0 <= k < self@.len() && self@[k].0 == name@;
                assert(self@[i as int].0 == name@);
                assert(c == i);
                let ghost before = self@;
                let mut v = self.entries();
                v.set(i, (name, n));
                let ghost after = v@.map_values(|e: (String, u32)| (e.0@, e.1));
                assert(after =~= before.update(i as int, (name@, n)));
                assert(unique_names(after)) by {
                    assert forall|a: int, b: int| 0 <= a < b < after.len() implies (
                    #[trigger] after[a]).0 != (#[trigger] after[b]).0 by {
                        assert(after[a].0 == before[a].0);
                        assert(after[b].0 == before[b].0);
                    }
                }
                *self = Directory { directory: v };
                assert(self@ =~= after);
                return;
            }
            i = i + 1;
        }
        let ghost before = self@;
        let mut v = self.entries();
        v.push((name, n));
        let ghost after = v@.map_values(|e: (String, u32)| (e.0@, e.1));
        assert(after =~= before.push((name@, n)));
        assert(unique_names(after)) by {
            assert forall|a: int, b: int| 0 <= a < b < after.len() implies (
            #[trigger] after[a]).0 != (#[trigger] after[b]).0 by {
                if b < before.len() {
                    assert(after[a] == before[a]);
                    assert(after[b] == before[b]);
                } else {
                    assert(after[a] == before[a]);
                }
            }
        }
        *self = Directory { directory: v };
        assert(self@ =~= after);
    }

    /// Drops the entry for `name`, if there is one.
    pub fn remove(&mut self, name: &str)
        ensures
            final(self)@ == remove_entry(old(self)@, name@),
            unique_names(final(self)@),
    {
        proof {
            use_type_invariant(&*self);
        }
        let mut i: usize = 0;
        while i < self.directory.len()
            invariant
                0 <= i <= self.directory.len(),
                self@.len() == self.directory@.len(),
                self == old(self),
                unique_names(self@),
                forall|k: int| 0 <= k < i ==> self@[k].0 != name@,
            decreases self.directory.len() - i,
        {
            if same_text(self.directory[i].0.as_str(), name) {
                let ghost c = choose|k: int| 0 <= k < self@.len() && self@[k].0 == name@;
                assert(self@[i as int].0 == name@);
                assert(c == i);
                let ghost before = self@;
                let mut v = self.entries();
                v.remove(i);
                let ghost after = v@.map_values(|e: (String, u32)| (e.0@, e.1));
                assert(after =~= before.remove(i as int));
                assert(unique_names(after)) by {
                    assert forall|a: int, b: int| 0 <= a < b < after.len() implies (
                    #[trigger] after[a]).0 != (#[trigger] after[b]).0 by {
                        let a2 = if a < i { a } else { a + 1 };
                        let b2 = if b < i { b } else { b + 1 };
                        assert(after[a] == before[a2]);
                        assert(after[b] == before[b2]);
                    }
                }
                *self = Directory { directory: v };
                assert(self@ =~= after);
                return;
            }
            i = i + 1;
        }
    }
}

fn write_entry_text(out: &mut String, name: &str, n: u32)
    ensures
        final(out)@ == old(out)@ + entry_text((name@, n)),
{
    out.append("\"");
    write_escaped(out, name);
    out.append("\":");
    write_decimal(out, n);
    proof {
        assert(final(out)@ =~= old(out)@ + entry_text((name@, n)));
    }
}

fn read_entry_at(t: &Vec<char>, i: usize) -> (r: Option<(String, u32, usize)>)
    requires
        i <= t.len(),
    ensures
        match read_entry(t@, i as int) {
            Some((e, j)) => r is Some && r.unwrap().0@ == e.0 && r.unwrap().1 == e.1
                && r.unwrap().2 as int == j,
            None => r is None,
        },
        r is Some ==> r.unwrap().2 <= t.len(),
{
    let at1 = match expect_at(t, i, "\"") {
        Some(p) => p,
        None => return None,
    };
    let (name, at2) = match read_quoted_at(t, at1) {
        Some(x) => x,
        None => return None,
    };
    let at3 = match expect_at(t, at2, ":") {
        Some(p) => p,
        None => return None,
    };
    match read_number_at(t, at3) {
        Some((n, at4)) => Some((name, n, at4)),
        None => None,
    }
}

fn read_directory_entries_at(t: &Vec<char>) -> (r: Option<Vec<(String, u32)>>)
    ensures
        match read_directory_entries(t@) {
            Some(s) => r is Some && r.unwrap()@.map_values(|e: (String, u32)| (e.0@, e.1)) == s,
            None => r is None,
        },
{
    let p = match expect_at(t, 0, "{\"directory\":{") {
        Some(p) => p,
        None => return None,
    };
    if expect_at(t, p, "}").is_some() {
        let r: Vec<(String, u32)> = Vec::new();
        assert(r@.map_values(|e: (String, u32)| (e.0@, e.1)) =~= Seq::<EntryView>::empty());
        return Some(r);
    }
    let mut acc: Vec<(String, u32)> = Vec::new();
    let mut j: usize = p;
    loop
        invariant
            p <= j <= t.len(),
            expect(t@, 0, "{\"directory\":{"@) == Some(p as int),
            expect(t@, p as int, "}"@) is None,
            read_entry_items(t@, p as int) == match read_entry_items(t@, j as int) {
                Some((s, k)) => Some((acc@.map_values(|e: (String, u32)| (e.0@, e.1)) + s, k)),
                None => None,
            },
        decreases t.len() - j,
    {
        let ghost old_acc = acc@.map_values(|e: (String, u32)| (e.0@, e.1));
        let (name, n, k) = match read_entry_at(t, j) {
            Some(x) => x,
            None => {
                assert(read_entry_items(t@, j as int) is None);
                return None;
            },
        };
        let ghost e: EntryView = (name@, n);
        if !(j < k) {
            assert(read_entry_items(t@, j as int) is None);
            return None;
        }
        match expect_at(t, k, ",") {
            Some(m) => {
                acc.push((name, n));
                proof {
                    assert(acc@.map_values(|e: (String, u32)| (e.0@, e.1)) =~= old_acc.push(e));
                    match read_entry_items(t@, m as int) {
                        Some((s, q)) => {
                            assert(old_acc + (seq![e] + s) =~= old_acc.push(e) + s);
                        },
                        None => {},
                    }
                }
                j = m;
            },
            None => {
                match expect_at(t, k, "}") {
                    Some(_) => {
                        acc.push((name, n));
                        proof {
                            assert(acc@.map_values(|e: (String, u32)| (e.0@, e.1)) =~= old_acc
                                + seq![e]);
                        }
                        return Some(acc);
                    },
                    None => {
                        assert(read_entry_items(t@, j as int) is None);
                        return None;
                    },
                }
            },
        }
    }
}

fn has_unique_names(v: &Vec<(String, u32)>) -> (r: bool)
    ensures
        r == unique_names(v@.map_values(|e: (String, u32)| (e.0@, e.1))),
{
    let ghost ev = v@.map_values(|e: (String, u32)| (e.0@, e.1));
    let mut j: usize = 1;
    while j < v.len()
        invariant
            ev == v@.map_values(|e: (String, u32)| (e.0@, e.1)),
            1 <= j || v.len() == 0,
            j <= v.len() || v.len() == 0,
            forall|a: int, b: int| 0 <= a < b < j && b < v.len() ==> (#[trigger] ev[a]).0 != (
            #[trigger] ev[b]).0,
        decreases v.len() - j,
    {
        let mut i: usize = 0;
        while i < j
            invariant
                ev == v@.map_values(|e: (String, u32)| (e.0@, e.1)),
                1 <= j < v.len(),
                0 <= i <= j,
                forall|a: int, b: int| 0 <= a < b < j ==> (#[trigger] ev[a]).0 != (
                #[trigger] ev[b]).0,
                forall|a: int| 0 <= a < i ==> (#[trigger] ev[a]).0 != ev[j as int].0,
            decreases j - i,
        {
            if same_text(v[i].0.as_str(), v[j].0.as_str()) {
                assert(ev[i as int].0 == ev[j as int].0);
                return false;
            }
            i = i + 1;
        }
        j = j + 1;
    }
    true
}

impl Directory {
    /// The text form of this directory.
    pub fn to_text(&self) -> (r: String)
        ensures
            r@ == directory_text(self@),
    {
        let mut out = String::new();
        if self.directory.len() == 0 {
            out.append("{\"directory\":{}}");
            return out;
        }
        out.append("{\"directory\":{");
        write_entry_text(&mut out, self.directory[0].0.as_str(), self.directory[0].1);
        let mut i: usize = 1;
        while i < self.directory.len()
            invariant
                1 <= i <= self.directory.len(),
                self@.len() == self.directory@.len(),
                out@ == "{\"directory\":{"@ + entry_text(self@[0]) + entry_tail_text(
                    self@.subrange(1, i as int),
                ),
            decreases self.directory.len() - i,
        {
            out.append(",");
            write_entry_text(&mut out, self.directory[i].0.as_str(), self.directory[i].1);
            proof {
                lemma_entry_tail_push(self@.subrange(1, i as int), self@[i as int]);
                assert(self@.subrange(1, i as int).push(self@[i as int]) =~= self@.subrange(
                    1,
                    i + 1,
                ));
                assert(out@ =~= "{\"directory\":{"@ + entry_text(self@[0]) + entry_tail_text(
                    self@.subrange(1, i + 1),
                ));
            }
            i = i + 1;
        }
        out.append("}}");
        assert(self@.subrange(1, self@.len() as int) =~= self@.skip(1));
        assert(out@ =~= directory_text(self@));
        out
    }

    /// The directory that `s` is the text form of, if any.
    pub fn parse_directory(s: &str) -> (r: Option<Directory>)
        ensures
            match r {
                Some(d) => decode_directory(s@) == Some(d@),
                None => decode_directory(s@) is None,
            },
    {
        proof {
            lemma_decode_directory(s@);
        }
        let cs = chars_of(s);
        match read_directory_entries_at(&cs) {
            Some(v) => {
                if !has_unique_names(&v) {
                    return None;
                }
                let d = Directory { directory: v };
                let back = d.to_text();
                if back == s.to_owned() {
                    Some(d)
                } else {
                    None
                }
            },
            None => None,
        }
    }
}

// ---------------------------------------------------------------------------
// The directory on the medium
// ---------------------------------------------------------------------------

/// The inode numbered `n` in the medium's table, if any.
pub open spec fn inode_in(m: Option<Seq<Seq<char>>>, n: u32) -> Option<Inode> {
    match inode_table_in(m) {
        Some(t) => find_inode(t, n),
        None => None,
    }
}

/// The directory that the chain of inode 1 holds, if it reads back.
pub open spec fn directory_in(m: Option<Seq<Seq<char>>>) -> Option<Seq<EntryView>> {
    match inode_in(m, 1) {
        Some(i) => match inode_chain(m, i) {
            Some(c) => decode_directory(data_of(c)),
            None => None,
        },
        None => None,
    }
}

/// How many records reading the directory takes.
pub open spec fn directory_reads(m: Option<Seq<Seq<char>>>) -> nat {
    inode_table_reads(m) + match inode_in(m, 1) {
        Some(i) => inode_chain_reads(m, i),
        None => 0,
    }
}

/// `bs` with payloads from `texts`, paired by position as far as both go.
pub open spec fn with_payloads(bs: Seq<BlockView>, texts: Seq<Seq<char>>) -> Seq<BlockView> {
    Seq::new(
        if bs.len() < texts.len() {
            bs.len()
        } else {
            texts.len()
        },
        |k: int| BlockView { number: bs[k].number, b_type: bs[k].b_type, data: texts[k] },
    )
}

/// What writing an inode and then its blocks gives back, and the state after.
pub open spec fn write_inode_and_blocks_result(d: DiskView, i: Inode, bs: Seq<BlockView>) -> (
    Option<(Inode, Seq<BlockView>)>,
    DiskView,
) {
    let (ri, d1) = write_inode_result(d, i);
    (
        match ri {
            Some(aa) => Some((aa, written(d1, bs))),
            None => None,
        },
        write_all(d1, bs),
    )
}

/// What storing `texts` as a new chain for inode `i` does: take that many
/// free blocks, give them the texts, link them to the inode, write it all.
/// Gives back the written inode and blocks, or nothing, and the state after.
/// With no inode, no text, or fewer free blocks than texts, nothing is
/// written.
pub open spec fn store_chain_result(d: DiskView, i: Option<Inode>, texts: Seq<Seq<char>>) -> (
    Option<(Inode, Seq<BlockView>)>,
    DiskView,
) {
    let free = first_n(free_of(storage_blocks(d.medium)), texts.len() as int);
    let d1 = with_reads(d, storage_reads(d.medium));
    let bs = with_payloads(free, texts);
    match i {
        Some(i) => if bs.len() > 0 && free.len() == texts.len() {
            write_inode_and_blocks_result(
                d1,
                Inode { number: i.number, start_block: Some(bs[0].number) },
                linked(bs),
            )
        } else {
            (None, d1)
        },
        None => (None, d1),
    }
}

/// What saving directory `dir` gives back, and the state after: the
/// directory read back afterwards where it is exactly `dir`, which confirms
/// the save; nothing otherwise.
pub open spec fn save_directory_result(d: DiskView, dir: Seq<EntryView>) -> (
    Option<Seq<EntryView>>,
    DiskView,
) {
    let d1 = with_reads(d, inode_table_reads(d.medium));
    let (_w, d2) = store_chain_result(d1, inode_in(d.medium, 1), data_chunks(directory_text(dir)));
    (
        if directory_in(d2.medium) == Some(dir) {
            Some(dir)
        } else {
            None
        },
        with_reads(d2, directory_reads(d2.medium)),
    )
}

/// What freeing the directory's chain gives back, and the state after.
pub open spec fn wipe_result(d: DiskView) -> (Option<Seq<BlockView>>, DiskView) {
    let m = d.medium;
    let d1 = with_reads(d, inode_table_reads(m));
    match inode_in(m, 1) {
        Some(i) => {
            let d2 = with_reads(d1, inode_chain_reads(m, i));
            match inode_chain(m, i) {
                Some(c) => {
                    let fs = c.map_values(|b: BlockView| freed(b));
                    (Some(written(d2, fs)), write_all(d2, fs))
                },
                None => (None, d2),
            }
        },
        None => (None, d1),
    }
}

/// What rewriting the directory does, given its changed entries (none where
/// it could not be read, and then nothing is done): free its old chain, then
/// save the changed entries under a new one. Gives back whether the save was
/// confirmed, and the state after.
pub open spec fn rewrite_directory_result(d: DiskView, changed: Option<Seq<EntryView>>) -> (
    bool,
    DiskView,
) {
    match changed {
        Some(x) => {
            let (_w, d2) = wipe_result(d);
            let (r, d3) = save_directory_result(d2, x);
            (r is Some, d3)
        },
        None => (false, d),
    }
}

/// What entering `name` for inode `n` gives back, and the state after.
pub open spec fn write_file_name_result(d: DiskView, n: u32, name: Seq<char>) -> (
    Option<u32>,
    DiskView,
) {
    let d1 = with_reads(d, directory_reads(d.medium));
    let changed = match directory_in(d.medium) {
        Some(es) => Some(insert_entry(es, name, n)),
        None => None,
    };
    let (ok, d2) = rewrite_directory_result(d1, changed);
    (if ok { Some(n) } else { None }, d2)
}

/// What removing `name` from the stored directory gives back, and the state
/// after. The root markers "." and "/" are refused without any access.
pub open spec fn remove_file_name_result(d: DiskView, name: Seq<char>) -> (Option<bool>, DiskView) {
    if name == "."@ || name == "/"@ {
        (None, d)
    } else {
        let d1 = with_reads(d, directory_reads(d.medium));
        let changed = match directory_in(d.medium) {
            Some(es) => Some(remove_entry(es, name)),
            None => None,
        };
        let (ok, d2) = rewrite_directory_result(d1, changed);
        (if ok { Some(true) } else { None }, d2)
    }
}

pub open spec fn dir_opt_view(o: Option<Directory>) -> Option<Seq<EntryView>> {
    match o {
        Some(d) => Some(d@),
        None => None,
    }
}

/// Writes the inode of `a`, then its blocks in order. Gives back the written
/// inode and the blocks written, or nothing where the inode was not written.
pub fn write_inode_and_blocks(a: (Inode, Vec<Block>), disk: Disk) -> (r: (
    Option<(Inode, Vec<Block>)>,
    Disk,
))
    ensures
        ({
            let (res, d) = write_inode_and_blocks_result(disk@, a.0, blocks_view(a.1@));
            &&& r.1@ == d
            &&& match res {
                Some((i, bs)) => r.0 is Some && r.0.unwrap().0 == i && blocks_view(r.0.unwrap().1@)
                    == bs,
                None => r.0 is None,
            }
        }),
{
    let (i, blocks) = a;
    let (wi, disk) = Inode::write_inode(i, disk);
    let (wb, disk) = Block::write_blocks(blocks, disk);
    match wi {
        Some(aa) => (Some((aa, wb)), disk),
        None => (None, disk),
    }
}

/// Stores `texts` as a new chain for `i`, as `store_chain_result` says.
pub(crate) fn store_chain(i: Option<Inode>, texts: Vec<String>, disk: Disk) -> (r: (
    Option<(Inode, Vec<Block>)>,
    Disk,
))
    ensures
        ({
            let (res, d) = store_chain_result(disk@, i, texts_view(texts@));
            &&& r.1@ == d
            &&& match res {
                Some((i2, bs)) => r.0 is Some && r.0.unwrap().0 == i2 && blocks_view(
                    r.0.unwrap().1@,
                ) == bs,
                None => r.0 is None,
            }
        }),
{
    let ghost tv = texts_view(texts@);
    let (free, disk) = Block::get_free_data_blocks(texts.len(), disk);
    let n = texts.len();
    let bs = Block::set_data_blocks_data((free, texts));
    proof {
        assert(blocks_view(bs@) =~= with_payloads(
            first_n(free_of(storage_blocks(disk@.medium)), tv.len() as int),
            tv,
        ));
    }
    let ghost bv = blocks_view(bs@);
    if bs.len() < n {
        return (None, disk);
    }
    match Inode::set_inode_blocks(i, bs) {
        Some(x) => {
            assert(bv.len() > 0);
            write_inode_and_blocks(x, disk)
        },
        None => (None, disk),
    }
}

impl Directory {
    /// Reads the directory: inode 1, its chain, the payloads joined, parsed.
    pub fn get_directory(disk: Disk) -> (r: (Option<Directory>, Disk))
        ensures
            dir_opt_view(r.0) == directory_in(disk@.medium),
            r.1@ == with_reads(disk@, directory_reads(disk@.medium)),
    {
        let ghost d0 = disk@;
        let (found, disk) = Inode::get_inode_and_super_block(1, disk);
        let (i, sb) = match found {
            Some(x) => x,
            None => {
                proof {
                    lemma_with_reads(d0, inode_table_reads(d0.medium), 0);
                }
                return (None, disk);
            },
        };
        let (c, disk) = Inode::get_inode_blocks(i, &sb, disk);
        proof {
            lemma_with_reads(d0, inode_table_reads(d0.medium), inode_chain_reads(d0.medium, i));
        }
        match c {
            Some((_, b)) => {
                let text = Block::blocks_to_data(b);
                (Directory::parse_directory(text.as_str()), disk)
            },
            None => (None, disk),
        }
    }

    /// Saves `d` under a fresh chain for inode 1 and reads the directory
    /// back; gives it back where it reads as exactly `d`, nothing otherwise.
    pub fn save_directory(d: Directory, disk: Disk) -> (r: (Option<Directory>, Disk))
        ensures
            ({
                let (res, dv) = save_directory_result(disk@, d@);
                &&& r.1@ == dv
                &&& dir_opt_view(r.0) == res
            }),
    {
        let ds = d.to_text();
        let blocks_data = string_to_block_data_chunks(ds.clone());
        let (inode_1, disk) = Inode::get_inode(1, disk);
        let (_w, disk) = store_chain(inode_1, blocks_data, disk);
        let (back, disk) = Directory::get_directory(disk);
        match back {
            Some(x) => {
                let same = x.to_text() == ds;
                proof {
                    use_type_invariant(&x);
                    use_type_invariant(&d);
                    lemma_directory_round_trip(x@);
                    lemma_directory_round_trip(d@);
                }
                if same {
                    (Some(x), disk)
                } else {
                    (None, disk)
                }
            },
            None => (None, disk),
        }
    }

    /// Frees every block of the directory's current chain.
    pub fn wipe_directory_blocks(disk: Disk) -> (r: (Option<Vec<Block>>, Disk))
        ensures
            ({
                let (res, dv) = wipe_result(disk@);
                &&& r.1@ == dv
                &&& match res {
                    Some(bs) => r.0 is Some && blocks_view(r.0.unwrap()@) == bs,
                    None => r.0 is None,
                }
            }),
    {
        let (found, disk) = Inode::get_inode_and_super_block(1, disk);
        let (i, sb) = match found {
            Some(x) => x,
            None => return (None, disk),
        };
        let (c, disk) = Inode::get_inode_blocks(i, &sb, disk);
        match c {
            Some((_, b)) => {
                let (w, disk) = Block::free_blocks(b, disk);
                (Some(w), disk)
            },
            None => (None, disk),
        }
    }

    /// Maps `file_name` to `inode_number` in the stored directory. Gives back
    /// the number where the directory could be read and the changed
    /// directory was saved and read back.
    pub fn write_file_name(inode_number: u32, file_name: String, disk: Disk) -> (r: (
        Option<u32>,
        Disk,
    ))
        ensures
            (r.0, r.1@) == write_file_name_result(disk@, inode_number, file_name@),
    {
        let (dir, disk) = Directory::get_directory(disk);
        let changed = match dir {
            Some(mut x) => {
                x.insert(file_name, inode_number);
                Some(x)
            },
            None => None,
        };
        match changed {
            Some(x) => {
                let (_w, disk) = Directory::wipe_directory_blocks(disk);
                let (r, disk) = Directory::save_directory(x, disk);
                match r {
                    Some(_) => (Some(inode_number), disk),
                    None => (None, disk),
                }
            },
            None => (None, disk),
        }
    }

    /// Drops `file_name` from the stored directory. Gives back `true` where
    /// the directory could be read and the changed directory was saved and
    /// read back; refuses "." and "/", which keep inode 1
    /// reachable, and then touches nothing.
    pub fn remove_file_name(file_name: String, disk: Disk) -> (r: (Option<bool>, Disk))
        ensures
            (r.0, r.1@) == remove_file_name_result(disk@, file_name@),
    {
        if same_text(file_name.as_str(), ".") || same_text(file_name.as_str(), "/") {
            return (None, disk);
        }
        let (dir, disk) = Directory::get_directory(disk);
        let changed = match dir {
            Some(mut x) => {
                x.remove(file_name.as_str());
                Some(x)
            },
            None => None,
        };
        match changed {
            Some(x) => {
                let (_w, disk) = Directory::wipe_directory_blocks(disk);
                let (r, disk) = Directory::save_directory(x, disk);
                match r {
                    Some(_) => (Some(true), disk),
                    None => (None, disk),
                }
            },
            None => (None, disk),
        }
    }
}

proof fn lemma_payload_chain_data(bs: Seq<BlockView>, ts: Seq<Seq<char>>, k: int)
    requires
        bs.len() >= ts.len(),
        0 <= k <= ts.len(),
    ensures
        data_of(linked(with_payloads(bs, ts)).take(k)) == joined(ts.take(k)),
    decreases k,
{
    if k == 0 {
        assert(linked(with_payloads(bs, ts)).take(0) =~= Seq::<BlockView>::empty());
        assert(ts.take(0) =~= Seq::<Seq<char>>::empty());
    } else {
        lemma_payload_chain_data(bs, ts, k - 1);
        assert(linked(with_payloads(bs, ts)).take(k).drop_last() =~= linked(
            with_payloads(bs, ts),
        ).take(k - 1));
        assert(ts.take(k).drop_last() =~= ts.take(k - 1));
    }
}

/// What saving a directory stores reads back as that directory: its text is
/// cut into payloads, one per fresh block; the blocks linked into a chain
/// carry, joined in chain order, exactly the directory's text, which parses
/// back to the same entries.
pub proof fn lemma_saved_directory_reads_back(dir: Seq<EntryView>, free: Seq<BlockView>)
    requires
        unique_names(dir),
        free.len() >= data_chunks(directory_text(dir)).len(),
    ensures
        decode_directory(
            data_of(linked(with_payloads(free, data_chunks(directory_text(dir))))),
        ) == Some(dir),
{
    let ts = data_chunks(directory_text(dir));
    lemma_payload_chain_data(free, ts, ts.len() as int);
    assert(linked(with_payloads(free, ts)).take(ts.len() as int) =~= linked(with_payloads(free, ts)));
    assert(ts.take(ts.len() as int) =~= ts);
    lemma_chunks_rejoin(directory_text(dir));
    lemma_directory_round_trip(dir);
}

proof fn lemma_lookup_insert(s: Seq<EntryView>, name: Seq<char>, n: u32)
    requires
        unique_names(s),
    ensures
        lookup(insert_entry(s, name, n), name) == Some(n),
{
    let t = insert_entry(s, name, n);
    if exists|i: int| 0 <= i < s.len() && s[i].0 == name {
        let i = choose|i: int| 0 <= i < s.len() && s[i].0 == name;
        assert(t[i].0 == name);
        let j = choose|j: int| 0 <= j < t.len() && t[j].0 == name;
        if j != i {
            assert(t[j] == s[j]);
            if j < i {
                assert(s[j].0 != s[i].0);
            } else {
                assert(s[i].0 != s[j].0);
            }
        }
    } else {
        assert(t[s.len() as int].0 == name);
        let j = choose|j: int| 0 <= j < t.len() && t[j].0 == name;
        if j < s.len() {
            assert(t[j] == s[j]);
        }
    }
}

proof fn lemma_lookup_remove(s: Seq<EntryView>, name: Seq<char>)
    requires
        unique_names(s),
    ensures
        lookup(remove_entry(s, name), name) is None,
{
    let t = remove_entry(s, name);
    if exists|i: int| 0 <= i < s.len() && s[i].0 == name {
        let i = choose|i: int| 0 <= i < s.len() && s[i].0 == name;
        assert forall|j: int| 0 <= j < t.len() implies t[j].0 != name by {
            if j < i {
                assert(t[j] == s[j]);
                assert(s[j].0 != s[i].0);
            } else {
                assert(t[j] == s[j + 1]);
                assert(s[i].0 != s[j + 1].0);
            }
        }
    }
}

proof fn lemma_lookup_insert_other(s: Seq<EntryView>, name: Seq<char>, n: u32, other: Seq<char>)
    requires
        unique_names(s),
        other != name,
    ensures
        lookup(insert_entry(s, name, n), other) == lookup(s, other),
{
    let t = insert_entry(s, name, n);
    if exists|i: int| 0 <= i < s.len() && s[i].0 == other {
        let i = choose|i: int| 0 <= i < s.len() && s[i].0 == other;
        assert(t[i] == s[i]) by {
            if exists|k: int| 0 <= k < s.len() && s[k].0 == name {
                let k = choose|k: int| 0 <= k < s.len() && s[k].0 == name;
                assert(k != i);
            }
        }
        let j = choose|j: int| 0 <= j < t.len() && t[j].0 == other;
        if j != i {
            if j < s.len() {
                assert(t[j] == s[j] || t[j].0 == name);
                if j < i {
                    assert(s[j].0 != s[i].0);
                } else {
                    assert(s[i].0 != s[j].0);
                }
            }
        }
    } else {
        assert forall|j: int| 0 <= j < t.len() implies t[j].0 != other by {
            if j < s.len() {
                assert(t[j] == s[j] || t[j].0 == name);
            }
        }
    }
}

proof fn lemma_lookup_remove_other(s: Seq<EntryView>, name: Seq<char>, other: Seq<char>)
    requires
        unique_names(s),
        other != name,
    ensures
        lookup(remove_entry(s, name), other) == lookup(s, other),
{
    let t = remove_entry(s, name);
    if exists|k: int| 0 <= k < s.len() && s[k].0 == name {
        let k = choose|k: int| 0 <= k < s.len() && s[k].0 == name;
        if exists|i: int| 0 <= i < s.len() && s[i].0 == other {
            let i = choose|i: int| 0 <= i < s.len() && s[i].0 == other;
            let ti = if i < k { i } else { i - 1 };
            assert(t[ti] == s[i]);
            let j = choose|j: int| 0 <= j < t.len() && t[j].0 == other;
            let sj = if j < k { j } else { j + 1 };
            assert(t[j] == s[sj]);
            if sj != i {
                if sj < i {
                    assert(s[sj].0 != s[i].0);
                } else {
                    assert(s[i].0 != s[sj].0);
                }
            }
        } else {
            assert forall|j: int| 0 <= j < t.len() implies t[j].0 != other by {
                let sj = if j < k { j } else { j + 1 };
                assert(t[j] == s[sj]);
            }
        }
    }
}

proof fn lemma_decoded_unique(t: Seq<char>)
    ensures
        decode_directory(t) matches Some(es) ==> unique_names(es),
{
}

/// Entering a name that succeeds leaves the directory mapping that name to
/// the inode given, and every other name as it was.
pub proof fn lemma_write_file_name_listed(d: DiskView, n: u32, name: Seq<char>)
    ensures
        write_file_name_result(d, n, name).0 is Some ==> (directory_in(
            write_file_name_result(d, n, name).1.medium,
        ) matches Some(es) && lookup(es, name) == Some(n)),
        write_file_name_result(d, n, name).0 is Some ==> forall|other: Seq<char>|
            other != name ==> lookup(
                directory_in(write_file_name_result(d, n, name).1.medium).unwrap(),
                other,
            ) == lookup(directory_in(d.medium).unwrap(), other),
{
    match directory_in(d.medium) {
        Some(es) => {
            lemma_decoded_unique(data_of(inode_chain(d.medium, inode_in(d.medium, 1).unwrap()).unwrap()));
            lemma_lookup_insert(es, name, n);
            assert forall|other: Seq<char>| other != name implies lookup(
                insert_entry(es, name, n),
                other,
            ) == lookup(es, other) by {
                lemma_lookup_insert_other(es, name, n, other);
            }
        },
        None => {},
    }
}

/// Dropping a name that succeeds leaves the directory without that name,
/// and every other name as it was.
pub proof fn lemma_remove_file_name_gone(d: DiskView, name: Seq<char>)
    ensures
        remove_file_name_result(d, name).0 is Some ==> (directory_in(
            remove_file_name_result(d, name).1.medium,
        ) matches Some(es) && lookup(es, name) is None),
        remove_file_name_result(d, name).0 is Some ==> forall|other: Seq<char>|
            other != name ==> lookup(
                directory_in(remove_file_name_result(d, name).1.medium).unwrap(),
                other,
            ) == lookup(directory_in(d.medium).unwrap(), other),
{
    match directory_in(d.medium) {
        Some(es) => {
            lemma_decoded_unique(data_of(inode_chain(d.medium, inode_in(d.medium, 1).unwrap()).unwrap()));
            lemma_lookup_remove(es, name);
            assert forall|other: Seq<char>| other != name implies lookup(
                remove_entry(es, name),
                other,
            ) == lookup(es, other) by {
                lemma_lookup_remove_other(es, name, other);
            }
        },
        None => {},
    }
}

/// Chain integrity through the write: once the inode and the K > 0 distinct
/// blocks of the range `lo .. hi` that `set_inode_blocks` linked are
/// written, walking the chain from the inode's start block within that range
/// yields exactly those K blocks in the order given, each tagged Next of its
/// successor and the last End.
pub proof fn lemma_written_chain_walks_back(
    d: DiskView,
    number: u32,
    bs: Seq<BlockView>,
    lo: int,
    hi: int,
)
    requires
        d.medium is Some,
        bs.len() > 0,
        1 <= lo,
        forall|k: int| 0 <= k < bs.len() ==> lo <= (#[trigger] bs[k]).number < hi,
        forall|j: int, k: int| 0 <= j < k < bs.len() ==> (#[trigger] bs[j]).number != (
        #[trigger] bs[k]).number,
    ensures
        ({
            let m = write_inode_and_blocks_result(
                d,
                Inode { number: number, start_block: Some(bs[0].number) },
                linked(bs),
            ).1.medium;
            chain_from(m, bs[0].number, lo, hi, (hi - lo) as nat) == Some(linked(bs))
        }),
{
    let i = Inode { number: number, start_block: Some(bs[0].number) };
    let (_ri, d1) = write_inode_result(d, i);
    lemma_write_inode_keeps_medium(d, i);
    let l = linked(bs);
    assert forall|k: int| 0 <= k < l.len() implies (#[trigger] l[k]).number >= 1 by {
        assert(l[k].number == bs[k].number);
        assert(lo <= bs[k].number);
    }
    assert forall|j: int, k: int| 0 <= j < k < l.len() implies (#[trigger] l[j]).number != (
    #[trigger] l[k]).number by {
        assert(l[j].number == bs[j].number);
        assert(l[k].number == bs[k].number);
    }
    lemma_write_all_records(d1, l);
    let m = write_all(d1, l).medium.unwrap();
    assert forall|k: int| 0 <= k < bs.len() implies 1 <= (#[trigger] bs[k]).number <= m.len()
        && m[bs[k].number - 1] == block_text(linked(bs)[k]) by {
        assert(l[k].number == bs[k].number);
        assert(lo <= bs[k].number);
    }
    assert(holds_linked(m, bs));
    lemma_chain_integrity(m, bs, lo, hi);
}

} // verus!
