//! Durable state behind cloud sync: the comparison unit (`FileSet`), the owed-op
//! queue (`Pending`), and the cloud-listing cache, with the text formats they are
//! stored in.
use crate::ledger::{lemma_join_free, lemma_join_last, lemma_ledger_text_lines, ledger_text, row_lines};
use crate::text::{
    chars_of, dec, dec_i, free_of, has_prefix, lemma_dec_reads_back, lemma_split_join, strip_cr, i64_dec, int_text, join_with, lemma_lex_irreflexive, lemma_lex_transitive,
    lex_lt, lex_order, lines_of, lines_spec, parse_i64, parse_u64, push_joined, push_str, slice_string,
    split_at_char, split_spec, starts_with, str_eq, string_of, u64_dec, uint_text,
};
use vstd::prelude::*;

verus! {

/// The keys of a run of `(rel, size)` entries, as character sequences.
pub open spec fn keys_of(files: Seq<(String, u64)>) -> Seq<Seq<char>> {
    files.map_values(|e: (String, u64)| e.0@)
}

/// Every key is strictly below every later one: sorted, and no key twice.
pub open spec fn strictly_sorted(ks: Seq<Seq<char>>) -> bool {
    forall|i: int, j: int| 0 <= i < j < ks.len() ==> lex_lt(#[trigger] ks[i], #[trigger] ks[j])
}

/// `person/camera/base` → size. Used for the baseline, a fetched cloud listing,
/// and the local set; sync status is set arithmetic over three of these. Entries
/// are kept sorted by key, so walking them is the order a `BTreeMap` walks.
pub struct FileSet {
    files: Vec<(String, u64)>,
}

impl FileSet {
    pub closed spec fn entries(&self) -> Seq<(String, u64)> {
        self.files@
    }

    pub open spec fn keys(&self) -> Seq<Seq<char>> {
        keys_of(self.entries())
    }

    pub open spec fn wf(&self) -> bool {
        strictly_sorted(self.keys())
    }

    /// The index of `k` among the keys (meaningful when `k` is one of them).
    pub open spec fn index_of_key(&self, k: Seq<char>) -> int {
        choose|i: int| 0 <= i < self.keys().len() && self.keys()[i] == k
    }

    pub proof fn lemma_unique(&self, i: int, j: int)
        requires
            self.wf(),
            0 <= i < self.keys().len(),
            0 <= j < self.keys().len(),
            self.keys()[i] == self.keys()[j],
        ensures
            i == j,
    {
        if i < j {
            lemma_lex_irreflexive(self.keys()[i]);
        } else if j < i {
            lemma_lex_irreflexive(self.keys()[i]);
        }
    }

    pub proof fn lemma_view_at(&self, i: int)
        requires
            self.wf(),
            0 <= i < self.keys().len(),
        ensures
            self@.contains_key(self.keys()[i]),
            self@[self.keys()[i]] == self.entries()[i].1,
    {
        let k = self.keys()[i];
        assert(self.keys().contains(k));
        let j = self.index_of_key(k);
        self.lemma_unique(i, j);
    }

    /// An empty set.
    pub fn new() -> (s: FileSet)
        ensures
            s.wf(),
            s@ == Map::<Seq<char>, u64>::empty(),
    {
        let s = FileSet { files: Vec::new() };
        assert(s@ =~= Map::<Seq<char>, u64>::empty());
        s
    }

    /// A copy of this set.
    pub fn duplicate(&self) -> (c: FileSet)
        requires
            self.wf(),
        ensures
            c.wf(),
            c@ == self@,
            c.entries() == self.entries(),
    {
        let mut files: Vec<(String, u64)> = Vec::new();
        let mut i: usize = 0;
        while i < self.files.len()
            invariant
                i <= self.files@.len(),
                files@ == self.files@.take(i as int),
            decreases self.files@.len() - i,
        {
            let e = (self.files[i].0.clone(), self.files[i].1);
            files.push(e);
            i = i + 1;
            proof { assert(files@ =~= self.files@.take(i as int)); }
        }
        proof { assert(files@ =~= self.files@); }
        let c = FileSet { files };
        proof { assert(c@ =~= self@); }
        c
    }

    /// The entries, sorted by key.
    pub fn entries_vec(&self) -> (r: &Vec<(String, u64)>)
        ensures
            r@ == self.entries(),
    {
        &self.files
    }

    pub fn len(&self) -> (n: usize)
        requires
            self.wf(),
        ensures
            n == self@.len(),
            n == self.entries().len(),
    {
        proof { self.lemma_len(); }
        self.files.len()
    }

    pub proof fn lemma_len(&self)
        requires
            self.wf(),
        ensures
            self@.len() == self.entries().len(),
            self@.dom() == self.keys().to_set(),
    {
        assert(self@.dom() =~= self.keys().to_set());
        self.lemma_no_dups();
        self.keys().unique_seq_to_set();
    }

    pub proof fn lemma_no_dups(&self)
        requires
            self.wf(),
        ensures
            self.keys().no_duplicates(),
    {
        assert forall|i: int, j: int|
            0 <= i < self.keys().len() && 0 <= j < self.keys().len() && i != j
            implies self.keys()[i] != self.keys()[j] by {
            if self.keys()[i] == self.keys()[j] {
                self.lemma_unique(i, j);
            }
        }
    }

    /// Where `rel` sits: `(true, i)` when entry `i` holds it, else `(false, i)` with
    /// `i` the position it would be inserted at to keep the keys sorted.
    fn locate(&self, rel: &[char]) -> (r: (bool, usize))
        requires
            self.wf(),
        ensures
            r.1 <= self.keys().len(),
            r.0 ==> r.1 < self.keys().len() && self.keys()[r.1 as int] == rel@,
            !r.0 ==> (forall|i: int| 0 <= i < r.1 ==> lex_lt(#[trigger] self.keys()[i], rel@)),
            !r.0 ==> (forall|i: int| r.1 <= i < self.keys().len() ==> lex_lt(rel@, #[trigger] self.keys()[i])),
            !r.0 ==> !self.keys().contains(rel@),
    {
        let mut i: usize = 0;
        while i < self.files.len()
            invariant
                self.wf(),
                i <= self.keys().len(),
                forall|j: int| 0 <= j < i ==> lex_lt(#[trigger] self.keys()[j], rel@),
            decreases self.keys().len() - i,
        {
            let kc = chars_of(self.files[i].0.as_str());
            let o = lex_order(kc.as_slice(), rel);
            if o == 0 {
                return (true, i);
            }
            if o == 1 {
                proof {
                    assert forall|j: int| i <= j < self.keys().len() implies lex_lt(rel@, #[trigger] self.keys()[j]) by {
                        if j > i {
                            lemma_lex_transitive(rel@, self.keys()[i as int], self.keys()[j]);
                        }
                    }
                    if self.keys().contains(rel@) {
                        let k = choose|k: int| 0 <= k < self.keys().len() && self.keys()[k] == rel@;
                        lemma_lex_irreflexive(rel@);
                    }
                }
                return (false, i);
            }
            i = i + 1;
        }
        proof {
            if self.keys().contains(rel@) {
                let k = choose|k: int| 0 <= k < self.keys().len() && self.keys()[k] == rel@;
                lemma_lex_irreflexive(rel@);
            }
        }
        (false, i)
    }

    /// Whether `rel` is in the set.
    pub fn contains(&self, rel: &str) -> (b: bool)
        requires
            self.wf(),
        ensures
            b == self@.contains_key(rel@),
    {
        let rc = chars_of(rel);
        let (found, _) = self.locate(rc.as_slice());
        found
    }

    /// The size recorded for `rel`, if it is in the set.
    pub fn get(&self, rel: &str) -> (r: Option<u64>)
        requires
            self.wf(),
        ensures
            r == (if self@.contains_key(rel@) { Some(self@[rel@]) } else { None::<u64> }),
    {
        let rc = chars_of(rel);
        let (found, i) = self.locate(rc.as_slice());
        if found {
            proof { self.lemma_view_at(i as int); }
            Some(self.files[i].1)
        } else {
            None
        }
    }

    pub fn is_empty(&self) -> (b: bool)
        requires
            self.wf(),
        ensures
            b == (self@.len() == 0),
            b == (self@ == Map::<Seq<char>, u64>::empty()),
    {
        proof {
            self.lemma_len();
            if self.files@.len() > 0 {
                self.lemma_view_at(0);
                assert(self@.contains_key(self.keys()[0]));
            } else {
                assert(self@ =~= Map::<Seq<char>, u64>::empty());
            }
        }
        self.files.len() == 0
    }

    /// Record `rel` with `size`, replacing any earlier size for it.
    pub fn insert(&mut self, rel: &str, size: u64)
        requires
            old(self).wf(),
        ensures
            final(self).wf(),
            final(self)@ == old(self)@.insert(rel@, size),
    {
        let rc = chars_of(rel);
        let (found, i) = self.locate(rc.as_slice());
        let ghost old_files = self.files@;
        let ghost old_keys = self.keys();
        let entry = (string_of(rc.as_slice()), size);
        if found {
            self.files.set(i, entry);
            proof {
                assert(self.keys() =~= old_keys.update(i as int, rel@));
            }
        } else {
            self.files.insert(i, entry);
            proof {
                assert(self.keys() =~= old_keys.insert(i as int, rel@));
            }
        }
        proof {
            let nk = self.keys();
            assert forall|a: int, b: int| 0 <= a < b < nk.len() implies lex_lt(#[trigger] nk[a], #[trigger] nk[b]) by {
                if !found {
                    if a < i && b == i {
                    } else if a == i && b > i {
                    } else if a < i && b > i {
                        lemma_lex_transitive(nk[a], rel@, nk[b]);
                    }
                }
            }
            assert forall|k: Seq<char>| #[trigger] self@.contains_key(k) == old(self)@.insert(rel@, size).contains_key(k) by {
                if self@.contains_key(k) && k != rel@ {
                    let j = choose|j: int| 0 <= j < nk.len() && nk[j] == k;
                    if found {
                        assert(old_keys[j] == k);
                    } else if j < i {
                        assert(old_keys[j] == k);
                    } else {
                        assert(old_keys[j - 1] == k);
                    }
                }
                if old(self)@.contains_key(k) && k != rel@ {
                    let j = choose|j: int| 0 <= j < old_keys.len() && old_keys[j] == k;
                    if found || j < i {
                        assert(nk[j] == k);
                    } else {
                        assert(nk[j + 1] == k);
                    }
                }
                if k == rel@ {
                    assert(nk[i as int] == k);
                }
            }
            assert forall|k: Seq<char>| #[trigger] self@.contains_key(k) implies self@[k] == old(self)@.insert(rel@, size)[k] by {
                let j = choose|j: int| 0 <= j < nk.len() && nk[j] == k;
                self.lemma_view_at(j);
                if k == rel@ {
                    self.lemma_unique(j, i as int);
                } else if found {
                    old(self).lemma_view_at(j);
                } else if j < i {
                    old(self).lemma_view_at(j);
                } else {
                    old(self).lemma_view_at(j - 1);
                }
            }
            assert(self@ =~= old(self)@.insert(rel@, size));
        }
    }

    /// Drop `rel` from the set (no-op when absent).
    pub fn remove(&mut self, rel: &str)
        requires
            old(self).wf(),
        ensures
            final(self).wf(),
            final(self)@ == old(self)@.remove(rel@),
    {
        let rc = chars_of(rel);
        let (found, i) = self.locate(rc.as_slice());
        if found {
            let ghost old_keys = self.keys();
            self.files.remove(i);
            proof {
                let nk = self.keys();
                assert(nk =~= old_keys.remove(i as int));
                assert forall|a: int, b: int| 0 <= a < b < nk.len() implies lex_lt(#[trigger] nk[a], #[trigger] nk[b]) by {
                    if a >= i {
                        assert(nk[a] == old_keys[a + 1]);
                        assert(nk[b] == old_keys[b + 1]);
                    } else if b >= i {
                        assert(nk[b] == old_keys[b + 1]);
                    }
                }
                assert forall|k: Seq<char>| #[trigger] self@.contains_key(k) == old(self)@.remove(rel@).contains_key(k) by {
                    if self@.contains_key(k) {
                        let j = choose|j: int| 0 <= j < nk.len() && nk[j] == k;
                        let oj = if j < i { j } else { j + 1 };
                        assert(old_keys[oj] == k);
                        if k == rel@ {
                            old(self).lemma_unique(oj, i as int);
                        }
                    }
                    if old(self)@.contains_key(k) && k != rel@ {
                        let j = choose|j: int| 0 <= j < old_keys.len() && old_keys[j] == k;
                        if j < i {
                            assert(nk[j] == k);
                        } else {
                            assert(j != i);
                            assert(nk[j - 1] == k);
                        }
                    }
                }
                assert forall|k: Seq<char>| #[trigger] self@.contains_key(k) implies self@[k] == old(self)@.remove(rel@)[k] by {
                    let j = choose|j: int| 0 <= j < nk.len() && nk[j] == k;
                    self.lemma_view_at(j);
                    let oj = if j < i { j } else { j + 1 };
                    old(self).lemma_view_at(oj);
                }
                assert(self@ =~= old(self)@.remove(rel@));
            }
        } else {
            proof {
                assert(self@ =~= old(self)@.remove(rel@));
            }
        }
    }
}

impl View for FileSet {
    type V = Map<Seq<char>, u64>;

    open spec fn view(&self) -> Map<Seq<char>, u64> {
        Map::new(
            |k: Seq<char>| self.keys().contains(k),
            |k: Seq<char>| self.entries()[self.index_of_key(k)].1,
        )
    }
}

/// One cloud op owed because the remote was down when it ran: a move and a rename
/// (which would otherwise look like a delete plus a re-add), and a whole-trip purge
/// (whose local trip is already gone, so nothing anchors the compare).
#[derive(Clone, Debug)]
pub enum PendingOp {
    /// Move one clip's cloud copy `<remote>/<from>/<rel>` → `<remote>/<to>/<rel>`.
    Move { from: String, to: String, rel: String },
    /// Rename your subtree `<remote>/<old>/<user>` → `<remote>/<new>/<user>`.
    Rename { old: String, new: String },
    /// Purge your subtree of a trip deleted while offline: `<remote>/<trip>/<user>`.
    Purge { trip: String },
}

/// A pending op as plain text fields: kind tag and its operands.
pub open spec fn op_view(op: PendingOp) -> (int, Seq<char>, Seq<char>, Seq<char>) {
    match op {
        PendingOp::Move { from, to, rel } => (0, from@, to@, rel@),
        PendingOp::Rename { old, new } => (1, old@, new@, Seq::empty()),
        PendingOp::Purge { trip } => (2, trip@, Seq::empty(), Seq::empty()),
    }
}

/// The trip an op is about for panel grouping (the destination for a move).
pub open spec fn op_trip(op: PendingOp) -> Seq<char> {
    match op {
        PendingOp::Move { to, .. } => to@,
        PendingOp::Rename { new, .. } => new@,
        PendingOp::Purge { trip } => trip@,
    }
}

impl PendingOp {
    /// The trip this op is "about": the destination for a move, the new name for a
    /// rename, the purged trip for a purge.
    pub fn trip(&self) -> (t: &str)
        ensures
            t@ == op_trip(*self),
    {
        match self {
            PendingOp::Move { to, .. } => to.as_str(),
            PendingOp::Rename { new, .. } => new.as_str(),
            PendingOp::Purge { trip } => trip.as_str(),
        }
    }

    /// Whether two ops are the same op.
    pub fn same(&self, other: &PendingOp) -> (b: bool)
        ensures
            b == (op_view(*self) == op_view(*other)),
    {
        match (self, other) {
            (PendingOp::Move { from: a, to: b, rel: c }, PendingOp::Move { from: x, to: y, rel: z }) =>
                str_eq(a.as_str(), x.as_str()) && str_eq(b.as_str(), y.as_str()) && str_eq(c.as_str(), z.as_str()),
            (PendingOp::Rename { old: a, new: b }, PendingOp::Rename { old: x, new: y }) =>
                str_eq(a.as_str(), x.as_str()) && str_eq(b.as_str(), y.as_str()),
            (PendingOp::Purge { trip: a }, PendingOp::Purge { trip: x }) => str_eq(a.as_str(), x.as_str()),
            _ => false,
        }
    }
}

/// How many rows of `rows` are about `trip`.
pub open spec fn count_trip(rows: Seq<(i64, PendingOp)>, trip: Seq<char>) -> nat
    decreases rows.len(),
{
    if rows.len() == 0 {
        0
    } else {
        count_trip(rows.drop_last(), trip) + if op_trip(rows.last().1) == trip { 1nat } else { 0nat }
    }
}

/// The owed-op queue, in the order the ops were queued.
pub struct Pending {
    pub rows: Vec<(i64, PendingOp)>,
}

impl Pending {
    /// An empty queue.
    pub fn new() -> (p: Pending)
        ensures
            p.rows@.len() == 0,
    {
        Pending { rows: Vec::new() }
    }

    /// Whether `op` is already queued.
    pub fn has(&self, op: &PendingOp) -> (b: bool)
        ensures
            b == exists|i: int| 0 <= i < self.rows@.len() && op_view(self.rows@[i].1) == op_view(*op),
    {
        let mut i: usize = 0;
        while i < self.rows.len()
            invariant
                i <= self.rows@.len(),
                forall|j: int| 0 <= j < i ==> op_view(self.rows@[j].1) != op_view(*op),
            decreases self.rows@.len() - i,
        {
            if self.rows[i].1.same(op) {
                return true;
            }
            i = i + 1;
        }
        false
    }

    /// Enqueue an op (idempotent — a duplicate op isn't queued twice).
    pub fn push(&mut self, when: i64, op: PendingOp)
        ensures
            (exists|i: int| 0 <= i < old(self).rows@.len() && op_view(old(self).rows@[i].1) == op_view(op))
                ==> final(self).rows@ == old(self).rows@,
            !(exists|i: int| 0 <= i < old(self).rows@.len() && op_view(old(self).rows@[i].1) == op_view(op))
                ==> final(self).rows@ == old(self).rows@.push((when, op)),
    {
        if !self.has(&op) {
            self.rows.push((when, op));
        }
    }

    /// How many queued ops are about `trip`.
    pub fn count_for(&self, trip: &str) -> (n: usize)
        ensures
            n == count_trip(self.rows@, trip@),
    {
        let mut n: usize = 0;
        let mut i: usize = 0;
        while i < self.rows.len()
            invariant
                i <= self.rows@.len(),
                n == count_trip(self.rows@.take(i as int), trip@),
                n <= i,
            decreases self.rows@.len() - i,
        {
            proof {
                assert(self.rows@.take(i + 1).drop_last() =~= self.rows@.take(i as int));
            }
            if str_eq(self.rows[i].1.trip(), trip) {
                n = n + 1;
            }
            i = i + 1;
        }
        proof {
            assert(self.rows@.take(i as int) =~= self.rows@);
        }
        n
    }
}

} // verus!

verus! {

/// The size a baseline row's second column gives: its number, or 0 when it is
/// missing or not one.
pub open spec fn size_field(f: Seq<Seq<char>>) -> u64 {
    if f.len() > 1 {
        match uint_text(f[1]) {
            Some(v) => if v <= u64::MAX { v as u64 } else { 0 },
            None => 0,
        }
    } else {
        0
    }
}

/// A line that carries a row: not empty and not a `#` header.
pub open spec fn is_data_line(l: Seq<char>) -> bool {
    l.len() > 0 && l[0] != '#'
}

/// The set that `rel\tsize` lines describe, a later row for a key replacing an
/// earlier one; header, empty and keyless lines skipped.
pub open spec fn fileset_of_lines(lines: Seq<Seq<char>>) -> Map<Seq<char>, u64>
    decreases lines.len(),
{
    if lines.len() == 0 {
        Map::empty()
    } else {
        let m = fileset_of_lines(lines.drop_last());
        let l = lines.last();
        let f = split_spec(l, '\t');
        if is_data_line(l) && f[0].len() > 0 {
            m.insert(f[0], size_field(f))
        } else {
            m
        }
    }
}

/// The rows a set is written as: key and decimal size.
pub open spec fn fileset_rows(entries: Seq<(String, u64)>) -> Seq<Seq<Seq<char>>> {
    entries.map_values(|e: (String, u64)| seq![e.0@, dec(e.1 as nat)])
}

impl FileSet {
    /// Parse `rel\tsize` rows, tolerating (and skipping) `#`-prefixed header lines
    /// like the cloud cache's timestamp.
    pub fn parse(txt: &str) -> (s: FileSet)
        ensures
            s.wf(),
            s@ == fileset_of_lines(lines_spec(txt@)),
    {
        let v = chars_of(txt);
        let lines = lines_of(v.as_slice());
        let ghost ls = lines_spec(txt@);
        let mut s = FileSet::new();
        let mut i: usize = 0;
        while i < lines.len()
            invariant
                i <= lines@.len(),
                lines@.len() == ls.len(),
                forall|k: int| 0 <= k < lines@.len() ==> #[trigger] lines@[k]@ == ls[k],
                s.wf(),
                s@ == fileset_of_lines(ls.take(i as int)),
            decreases lines@.len() - i,
        {
            proof {
                assert(ls.take(i + 1).drop_last() =~= ls.take(i as int));
                assert(ls.take(i + 1).last() == ls[i as int]);
            }
            let lc = chars_of(lines[i].as_str());
            if lc.len() > 0 && lc[0] != '#' {
                let f = split_at_char(lc.as_slice(), '\t');
                proof {
                    crate::text::lemma_split_nonempty(lc@, '\t');
                }
                let rel = chars_of(f[0].as_str());
                if rel.len() > 0 {
                    let size: u64 = if f.len() > 1 {
                        match parse_u64(f[1].as_str()) {
                            Some(n) => n,
                            None => 0,
                        }
                    } else {
                        0
                    };
                    s.insert(f[0].as_str(), size);
                }
            }
            i = i + 1;
        }
        proof {
            assert(ls.take(i as int) =~= ls);
        }
        s
    }

    /// The set as `rel\tsize` rows, sorted by key.
    pub fn to_tsv(&self) -> (t: String)
        requires
            self.wf(),
        ensures
            t@ == ledger_text(fileset_rows(self.entries())),
    {
        let files = self.entries_vec();
        let ghost rows = fileset_rows(self.entries());
        let mut t = String::new();
        let mut i: usize = 0;
        while i < files.len()
            invariant
                i <= files@.len(),
                files@ == self.entries(),
                rows == fileset_rows(self.entries()),
                t@ == ledger_text(rows.take(i as int)),
            decreases files@.len() - i,
        {
            proof {
                assert(rows.take(i + 1).drop_last() =~= rows.take(i as int));
                let r = rows[i as int];
                assert(r == seq![files@[i as int].0@, dec(files@[i as int].1 as nat)]);
                assert(r.skip(1) =~= seq![r[1]]);
                assert(join_with(r.skip(1), '\t') == r[1]);
                assert(join_with(r, '\t') =~= r[0] + seq!['\t'] + r[1]);
            }
            push_str(&mut t, files[i].0.as_str());
            t.push('\t');
            push_str(&mut t, u64_dec(files[i].1).as_str());
            t.push('\n');
            i = i + 1;
        }
        proof {
            assert(rows.take(i as int) =~= rows);
        }
        t
    }
}

/// A queued op as its text columns after the timestamp.
pub open spec fn op_fields(op: PendingOp) -> Seq<Seq<char>> {
    match op {
        PendingOp::Move { from, to, rel } => seq!["move"@, from@, to@, rel@],
        PendingOp::Rename { old, new } => seq!["rename"@, old@, new@, Seq::empty()],
        PendingOp::Purge { trip } => seq!["purge"@, trip@, Seq::empty(), Seq::empty()],
    }
}

/// The rows a queue is written as: timestamp, kind, operands.
pub open spec fn pending_rows(rows: Seq<(i64, PendingOp)>) -> Seq<Seq<Seq<char>>> {
    rows.map_values(|r: (i64, PendingOp)| seq![dec_i(r.0 as int)] + op_fields(r.1))
}

/// The op a queue line's columns describe, `None` for an unknown kind or too few
/// columns.
pub open spec fn op_of_fields(f: Seq<Seq<char>>) -> Option<(int, Seq<char>, Seq<char>, Seq<char>)> {
    if f[1] == "move"@ && f.len() >= 5 {
        Some((0, f[2], f[3], f[4]))
    } else if f[1] == "rename"@ && f.len() >= 4 {
        Some((1, f[2], f[3], Seq::empty()))
    } else if f[1] == "purge"@ && f.len() >= 3 {
        Some((2, f[2], Seq::empty(), Seq::empty()))
    } else {
        None
    }
}

/// A queue line's timestamp: its first column as a number, 0 when it is not one.
pub open spec fn when_field(f: Seq<Seq<char>>) -> i64 {
    match int_text(f[0]) {
        Some(v) => if i64::MIN <= v <= i64::MAX { v as i64 } else { 0 },
        None => 0,
    }
}

/// The queue that lines describe, in order: each non-empty line with a known
/// kind and enough columns.
pub open spec fn pending_of_lines(lines: Seq<Seq<char>>) -> Seq<(i64, (int, Seq<char>, Seq<char>, Seq<char>))>
    decreases lines.len(),
{
    if lines.len() == 0 {
        Seq::empty()
    } else {
        let before = pending_of_lines(lines.drop_last());
        let l = lines.last();
        let f = split_spec(l, '\t');
        if l.len() > 0 && f.len() >= 2 && op_of_fields(f) is Some {
            before.push((when_field(f), op_of_fields(f)->0))
        } else {
            before
        }
    }
}

impl Pending {
    /// The queue as timestamps and ops' text fields.
    pub open spec fn rows_view(&self) -> Seq<(i64, (int, Seq<char>, Seq<char>, Seq<char>))> {
        self.rows@.map_values(|r: (i64, PendingOp)| (r.0, op_view(r.1)))
    }

    /// Parse the queue's `when\tkind\ta\tb\tc` lines; unknown kinds are skipped.
    pub fn parse(txt: &str) -> (p: Pending)
        ensures
            p.rows_view() == pending_of_lines(lines_spec(txt@)),
    {
        let v = chars_of(txt);
        let lines = lines_of(v.as_slice());
        let ghost ls = lines_spec(txt@);
        let mut rows: Vec<(i64, PendingOp)> = Vec::new();
        let mut i: usize = 0;
        while i < lines.len()
            invariant
                i <= lines@.len(),
                lines@.len() == ls.len(),
                forall|k: int| 0 <= k < lines@.len() ==> #[trigger] lines@[k]@ == ls[k],
                rows@.map_values(|r: (i64, PendingOp)| (r.0, op_view(r.1))) == pending_of_lines(ls.take(i as int)),
            decreases lines@.len() - i,
        {
            proof {
                assert(ls.take(i + 1).drop_last() =~= ls.take(i as int));
                assert(ls.take(i + 1).last() == ls[i as int]);
            }
            let lc = chars_of(lines[i].as_str());
            if lc.len() > 0 {
                let f = split_at_char(lc.as_slice(), '\t');
                let ghost fv = f@.map_values(|s: String| s@);
                proof {
                    assert(fv =~= split_spec(lc@, '\t'));
                }
                if f.len() >= 2 {
                    let when: i64 = match parse_i64(f[0].as_str()) {
                        Some(w) => w,
                        None => 0,
                    };
                    let kind = f[1].as_str();
                    let n = f.len();
                    let op: Option<PendingOp> = if str_eq(kind, "move") && n >= 5 {
                        Some(PendingOp::Move { from: f[2].clone(), to: f[3].clone(), rel: f[4].clone() })
                    } else if str_eq(kind, "rename") && n >= 4 {
                        Some(PendingOp::Rename { old: f[2].clone(), new: f[3].clone() })
                    } else if str_eq(kind, "purge") && n >= 3 {
                        Some(PendingOp::Purge { trip: f[2].clone() })
                    } else {
                        None
                    };
                    match op {
                        Some(o) => {
                            let ghost before = rows@;
                            rows.push((when, o));
                            proof {
                                assert(rows@.map_values(|r: (i64, PendingOp)| (r.0, op_view(r.1))) =~= before.map_values(
                                    |r: (i64, PendingOp)| (r.0, op_view(r.1)),
                                ).push((when, op_of_fields(fv)->0)));
                            }
                        },
                        None => {},
                    }
                }
            }
            i = i + 1;
        }
        proof {
            assert(ls.take(i as int) =~= ls);
        }
        Pending { rows }
    }

    /// The queue as `when\tkind\ta\tb\tc` lines, in order.
    pub fn to_tsv(&self) -> (t: String)
        ensures
            t@ == ledger_text(pending_rows(self.rows@)),
    {
        let ghost rows = pending_rows(self.rows@);
        let mut t = String::new();
        let mut i: usize = 0;
        while i < self.rows.len()
            invariant
                i <= self.rows@.len(),
                rows == pending_rows(self.rows@),
                t@ == ledger_text(rows.take(i as int)),
            decreases self.rows@.len() - i,
        {
            proof {
                assert(rows.take(i + 1).drop_last() =~= rows.take(i as int));
            }
            let mut cols: Vec<String> = Vec::new();
            cols.push(i64_dec(self.rows[i].0));
            match &self.rows[i].1 {
                PendingOp::Move { from, to, rel } => {
                    cols.push("move".to_string());
                    cols.push(from.clone());
                    cols.push(to.clone());
                    cols.push(rel.clone());
                },
                PendingOp::Rename { old, new } => {
                    cols.push("rename".to_string());
                    cols.push(old.clone());
                    cols.push(new.clone());
                    cols.push(String::new());
                },
                PendingOp::Purge { trip } => {
                    cols.push("purge".to_string());
                    cols.push(trip.clone());
                    cols.push(String::new());
                    cols.push(String::new());
                },
            }
            proof {
                assert(cols@.map_values(|f: String| f@) =~= rows[i as int]);
            }
            push_joined(&mut t, &cols, '\t');
            t.push('\n');
            i = i + 1;
        }
        proof {
            assert(rows.take(i as int) =~= rows);
        }
        t
    }
}

/// The fetch time a cloud cache's lines record: the first `#checked\t<epoch>`
/// header whose epoch reads as a number.
pub open spec fn checked_of_lines(lines: Seq<Seq<char>>) -> Option<i64>
    decreases lines.len(),
{
    if lines.len() == 0 {
        None
    } else {
        let l = lines[0];
        let p = "#checked\t"@;
        if has_prefix(l, p) && (int_text(l.skip(p.len() as int)) matches Some(v) && i64::MIN <= v
            <= i64::MAX) {
            Some(int_text(l.skip(p.len() as int))->0 as i64)
        } else {
            checked_of_lines(lines.drop_first())
        }
    }
}

/// A cached cloud listing plus when it was fetched (`None` = never / unparseable).
pub struct CloudCache {
    pub checked: Option<i64>,
    pub files: FileSet,
}

impl CloudCache {
    /// Read a cloud cache: a `#checked\t<epoch>` header line then `rel\tsize` rows.
    pub fn parse(txt: &str) -> (c: CloudCache)
        ensures
            c.files.wf(),
            c.checked == checked_of_lines(lines_spec(txt@)),
            c.files@ == fileset_of_lines(lines_spec(txt@)),
    {
        let v = chars_of(txt);
        let lines = lines_of(v.as_slice());
        let ghost ls = lines_spec(txt@);
        let mut checked: Option<i64> = None;
        let mut i: usize = 0;
        proof {
            assert(ls.skip(0) =~= ls);
        }
        while i < lines.len() && checked.is_none()
            invariant
                i <= lines@.len(),
                lines@.len() == ls.len(),
                forall|k: int| 0 <= k < lines@.len() ==> #[trigger] lines@[k]@ == ls[k],
                checked is None ==> checked_of_lines(ls) == checked_of_lines(ls.skip(i as int)),
                checked is Some ==> checked == checked_of_lines(ls),
            decreases lines@.len() - i,
        {
            proof {
                assert(ls.skip(i as int)[0] == ls[i as int]);
                assert(ls.skip(i as int).drop_first() =~= ls.skip(i + 1));
            }
            let lc = chars_of(lines[i].as_str());
            if starts_with(lc.as_slice(), "#checked\t") {
                let k = "#checked\t".unicode_len();
                let rest = slice_string(lc.as_slice(), k, lc.len());
                proof {
                    assert(rest@ =~= ls[i as int].skip("#checked\t"@.len() as int));
                }
                match parse_i64(rest.as_str()) {
                    Some(w) => {
                        checked = Some(w);
                    },
                    None => {},
                }
            }
            i = i + 1;
        }
        proof {
            if checked is None {
                assert(ls.skip(i as int) =~= Seq::<Seq<char>>::empty());
            }
        }
        CloudCache { checked, files: FileSet::parse(txt) }
    }
}

/// A cloud cache file: the fetch-time header, then the listing's rows.
pub fn cloud_cache_text(checked: i64, files: &FileSet) -> (t: String)
    requires
        files.wf(),
    ensures
        t@ == "#checked\t"@ + dec_i(checked as int) + seq!['\n'] + ledger_text(fileset_rows(files.entries())),
{
    let mut t = String::new();
    push_str(&mut t, "#checked\t");
    push_str(&mut t, i64_dec(checked).as_str());
    t.push('\n');
    push_str(&mut t, files.to_tsv().as_str());
    t
}

} // verus!

verus! {

/// A baseline key that survives a write and a read: not empty, not starting with
/// the header mark `#`, holding no tab or line break.
pub open spec fn writable_key(k: Seq<char>) -> bool {
    k.len() > 0 && k[0] != '#' && free_of(k, '\t') && free_of(k, '\n')
}

proof fn lemma_fileset_line(k: Seq<char>, size: u64)
    requires
        writable_key(k),
    ensures
        ({
            let line = join_with(seq![k, dec(size as nat)], '\t');
            let f = split_spec(line, '\t');
            &&& free_of(line, '\n')
            &&& strip_cr(line) == line
            &&& is_data_line(line)
            &&& f == seq![k, dec(size as nat)]
            &&& size_field(f) == size
        }),
{
    let r = seq![k, dec(size as nat)];
    lemma_dec_reads_back(size as nat);
    assert(r.skip(1) =~= seq![r[1]]);
    assert(join_with(r.skip(1), '\t') == r[1]);
    let line = join_with(r, '\t');
    assert(line =~= k + seq!['\t'] + dec(size as nat));
    assert forall|i: int| 0 <= i < r.len() implies free_of(#[trigger] r[i], '\n') by {}
    lemma_join_free(r, '\t', '\n');
    assert forall|i: int| 0 <= i < r.len() implies free_of(#[trigger] r[i], '\t') by {}
    lemma_split_join(r, '\t');
    lemma_join_last(r);
    assert(line[0] == k[0]);
}

/// Reading back the rows of the first `n` entries gives exactly those entries.
proof fn lemma_fileset_prefix(s: FileSet, n: int)
    requires
        s.wf(),
        0 <= n <= s.entries().len(),
        forall|i: int| 0 <= i < s.keys().len() ==> writable_key(#[trigger] s.keys()[i]),
    ensures
        ({
            let m = fileset_of_lines(row_lines(fileset_rows(s.entries())).take(n));
            &&& forall|key: Seq<char>|
                #[trigger] m.contains_key(key) == (exists|j: int| 0 <= j < n && s.keys()[j] == key)
            &&& forall|j: int| 0 <= j < n ==> m[#[trigger] s.keys()[j]] == s.entries()[j].1
        }),
    decreases n,
{
    let lines = row_lines(fileset_rows(s.entries()));
    if n > 0 {
        lemma_fileset_prefix(s, n - 1);
        let e = s.entries()[n - 1];
        let k = s.keys()[n - 1];
        assert(k == e.0@);
        assert(writable_key(k));
        lemma_fileset_line(k, e.1);
        assert(lines.take(n).drop_last() =~= lines.take(n - 1));
        assert(lines.take(n).last() == join_with(seq![k, dec(e.1 as nat)], '\t'));
        s.lemma_no_dups();
        let m = fileset_of_lines(lines.take(n));
        let m0 = fileset_of_lines(lines.take(n - 1));
        assert(m == m0.insert(k, e.1));
        assert forall|key: Seq<char>|
            #[trigger] m.contains_key(key) == (exists|j: int| 0 <= j < n && s.keys()[j] == key) by {
            if m.contains_key(key) && key != k {
                assert(m0.contains_key(key));
            }
            if exists|j: int| 0 <= j < n && s.keys()[j] == key {
                let j = choose|j: int| 0 <= j < n && s.keys()[j] == key;
                if j < n - 1 {
                    assert(m0.contains_key(key));
                }
            }
        }
        assert forall|j: int| 0 <= j < n implies m[#[trigger] s.keys()[j]] == s.entries()[j].1 by {
            if j < n - 1 {
                assert(s.keys()[j] != k);
            }
        }
    }
}

/// Writing a set and reading the file back gives the same set.
pub proof fn lemma_fileset_roundtrip(s: FileSet)
    requires
        s.wf(),
        forall|i: int| 0 <= i < s.keys().len() ==> writable_key(#[trigger] s.keys()[i]),
    ensures
        fileset_of_lines(lines_spec(ledger_text(fileset_rows(s.entries())))) == s@,
{
    let rows = fileset_rows(s.entries());
    let ls = row_lines(rows);
    lemma_ledger_text_lines(rows);
    let parts = ls.push(Seq::empty());
    assert forall|i: int| 0 <= i < parts.len() implies free_of(#[trigger] parts[i], '\n') by {
        if i < ls.len() {
            lemma_fileset_line(s.keys()[i], s.entries()[i].1);
            assert(ls[i] == join_with(seq![s.keys()[i], dec(s.entries()[i].1 as nat)], '\t'));
        }
    }
    lemma_split_join(parts, '\n');
    assert(parts.take(parts.len() - 1) =~= ls);
    assert forall|i: int| 0 <= i < ls.len() implies strip_cr(#[trigger] ls[i]) == ls[i] by {
        lemma_fileset_line(s.keys()[i], s.entries()[i].1);
        assert(ls[i] == join_with(seq![s.keys()[i], dec(s.entries()[i].1 as nat)], '\t'));
    }
    assert(lines_spec(ledger_text(rows)) =~= ls);
    let n = s.entries().len() as int;
    lemma_fileset_prefix(s, n);
    assert(ls.take(n) =~= ls);
    let m = fileset_of_lines(ls);
    assert forall|key: Seq<char>| #[trigger] m.contains_key(key) == s@.contains_key(key) by {
        if s@.contains_key(key) {
            let j = choose|j: int| 0 <= j < s.keys().len() && s.keys()[j] == key;
        }
    }
    assert forall|key: Seq<char>| #[trigger] m.contains_key(key) implies m[key] == s@[key] by {
        let j = choose|j: int| 0 <= j < n && s.keys()[j] == key;
        s.lemma_view_at(j);
    }
    assert(m =~= s@);
}

} // verus!

verus! {

/// An op whose text survives a write and a read: no operand holds a tab or a
/// line break, and a move's path does not end in a carriage return.
pub open spec fn writable_op(op: PendingOp) -> bool {
    let f = op_fields(op);
    &&& forall|i: int| 0 <= i < 4 ==> free_of(#[trigger] f[i], '\t') && free_of(f[i], '\n')
    &&& !(f[3].len() > 0 && f[3].last() == '\r')
}

proof fn lemma_signed_reads_back(n: int)
    ensures
        int_text(dec_i(n)) == Some(n),
        free_of(dec_i(n), '\t'),
        free_of(dec_i(n), '\n'),
{
    if n < 0 {
        lemma_dec_reads_back((-n) as nat);
        let s = dec_i(n);
        assert(s.skip(1) =~= dec((-n) as nat));
        assert forall|i: int| 0 <= i < s.len() implies s[i] != '\t' && s[i] != '\n' by {
            if i > 0 {
                assert(s[i] == dec((-n) as nat)[i - 1]);
            }
        }
    } else {
        lemma_dec_reads_back(n as nat);
        assert(dec(n as nat)[0] != '-') by {
            assert(crate::text::is_digit(dec(n as nat)[0]));
        }
    }
}

#[verifier::spinoff_prover]
#[verifier::rlimit(40)]
proof fn lemma_pending_line(when: i64, op: PendingOp)
    requires
        writable_op(op),
    ensures
        ({
            let r = seq![dec_i(when as int)] + op_fields(op);
            let line = join_with(r, '\t');
            let f = split_spec(line, '\t');
            &&& free_of(line, '\n')
            &&& strip_cr(line) == line
            &&& line.len() > 0
            &&& f == r
            &&& f.len() >= 2
            &&& op_of_fields(f) == Some(op_view(op))
            &&& when_field(f) == when
        }),
{
    reveal_strlit("move");
    reveal_strlit("rename");
    reveal_strlit("purge");
    let r = seq![dec_i(when as int)] + op_fields(op);
    lemma_signed_reads_back(when as int);
    assert forall|i: int| 0 <= i < r.len() implies free_of(#[trigger] r[i], '\t') && free_of(r[i], '\n') by {
        if i > 0 {
            assert(r[i] == op_fields(op)[i - 1]);
        }
        if i == 1 {
            assert forall|j: int| 0 <= j < r[1].len() implies r[1][j] != '\t' && r[1][j] != '\n' by {}
        }
    }
    assert forall|i: int| 0 <= i < r.len() implies free_of(#[trigger] r[i], '\n') by {}
    assert forall|i: int| 0 <= i < r.len() implies free_of(#[trigger] r[i], '\t') by {}
    lemma_join_free(r, '\t', '\n');
    lemma_split_join(r, '\t');
    lemma_join_last(r);
    assert(r.last() == op_fields(op)[3]);
    let line = join_with(r, '\t');
    assert(line.len() > 0);
    assert(r[1] == op_fields(op)[0]);
}

/// Writing the queue and reading the file back gives the same ops, in order, with
/// their timestamps: an owed cloud op is never lost or reordered by a save.
pub proof fn lemma_pending_roundtrip(p: Pending)
    requires
        forall|i: int| 0 <= i < p.rows@.len() ==> writable_op((#[trigger] p.rows@[i]).1),
    ensures
        pending_of_lines(lines_spec(ledger_text(pending_rows(p.rows@)))) == p.rows_view(),
{
    let rows = pending_rows(p.rows@);
    let ls = row_lines(rows);
    lemma_ledger_text_lines(rows);
    let parts = ls.push(Seq::empty());
    assert forall|i: int| 0 <= i < parts.len() implies free_of(#[trigger] parts[i], '\n') by {
        if i < ls.len() {
            lemma_pending_line(p.rows@[i].0, p.rows@[i].1);
        }
    }
    lemma_split_join(parts, '\n');
    assert(parts.take(parts.len() - 1) =~= ls);
    assert forall|i: int| 0 <= i < ls.len() implies strip_cr(#[trigger] ls[i]) == ls[i] by {
        lemma_pending_line(p.rows@[i].0, p.rows@[i].1);
    }
    assert(lines_spec(ledger_text(rows)) =~= ls);
    lemma_pending_prefix(p, p.rows@.len() as int);
    assert(ls.take(p.rows@.len() as int) =~= ls);
}

proof fn lemma_pending_prefix(p: Pending, n: int)
    requires
        0 <= n <= p.rows@.len(),
        forall|i: int| 0 <= i < p.rows@.len() ==> writable_op((#[trigger] p.rows@[i]).1),
    ensures
        pending_of_lines(row_lines(pending_rows(p.rows@)).take(n)) == p.rows_view().take(n),
    decreases n,
{
    let ls = row_lines(pending_rows(p.rows@));
    if n > 0 {
        lemma_pending_prefix(p, n - 1);
        lemma_pending_line(p.rows@[n - 1].0, p.rows@[n - 1].1);
        assert(ls.take(n).drop_last() =~= ls.take(n - 1));
        assert(ls.take(n).last() == ls[n - 1]);
        assert(p.rows_view().take(n) =~= p.rows_view().take(n - 1).push(p.rows_view()[n - 1]));
    } else {
        assert(ls.take(0) =~= Seq::<Seq<char>>::empty());
        assert(p.rows_view().take(0) =~= Seq::<(i64, (int, Seq<char>, Seq<char>, Seq<char>))>::empty());
    }
}

} // verus!
