//! The import ledger: content-id → trip that already owns each clip. Kept in the
//! same TSV the `reel` shell script uses, so the two stay interoperable. Also the
//! tombstones: content ids the user permanently deleted.
use crate::store::FileSet;
use crate::text::{
    chars_of, free_of, join_with, lemma_join_push, lemma_split_join, lines_of, lines_spec, push_joined,
    split_at_char, split_spec, str_eq, strip_cr,
};
use vstd::prelude::*;

verus! {

#[derive(Clone, Debug)]
pub struct LedgerRow {
    pub id: String,
    pub trip: String,
    pub person: String,
    pub camera: String,
    pub base: String,
    pub bytes: String,
    pub captured: String,
    pub imported_at: String,
}

impl LedgerRow {
    /// The row's columns, in file order.
    pub open spec fn fields(&self) -> Seq<Seq<char>> {
        seq![
            self.id@,
            self.trip@,
            self.person@,
            self.camera@,
            self.base@,
            self.bytes@,
            self.captured@,
            self.imported_at@,
        ]
    }

    /// A copy of this row.
    pub fn duplicate(&self) -> (r: LedgerRow)
        ensures
            r == *self,
    {
        LedgerRow {
            id: self.id.clone(),
            trip: self.trip.clone(),
            person: self.person.clone(),
            camera: self.camera.clone(),
            base: self.base.clone(),
            bytes: self.bytes.clone(),
            captured: self.captured.clone(),
            imported_at: self.imported_at.clone(),
        }
    }
}

/// Field `i` of a split line, empty when the line has fewer.
pub open spec fn field_at(f: Seq<Seq<char>>, i: int) -> Seq<char> {
    if 0 <= i < f.len() {
        f[i]
    } else {
        Seq::empty()
    }
}

/// The eight columns a ledger line gives (missing trailing ones empty).
pub open spec fn row_fields(line: Seq<char>) -> Seq<Seq<char>> {
    let f = split_spec(line, '\t');
    seq![
        field_at(f, 0),
        field_at(f, 1),
        field_at(f, 2),
        field_at(f, 3),
        field_at(f, 4),
        field_at(f, 5),
        field_at(f, 6),
        field_at(f, 7),
    ]
}

/// A line that holds a row: not empty, and at least an id and a trip.
pub open spec fn is_row_line(line: Seq<char>) -> bool {
    line.len() > 0 && split_spec(line, '\t').len() >= 2
}

/// The rows that `lines` hold, in order.
pub open spec fn rows_of_lines(lines: Seq<Seq<char>>) -> Seq<Seq<Seq<char>>>
    decreases lines.len(),
{
    if lines.len() == 0 {
        Seq::empty()
    } else {
        let before = rows_of_lines(lines.drop_last());
        if is_row_line(lines.last()) {
            before.push(row_fields(lines.last()))
        } else {
            before
        }
    }
}

/// The ledger file for `rows`: each row's columns tab-separated, one per line.
pub open spec fn ledger_text(rows: Seq<Seq<Seq<char>>>) -> Seq<char>
    decreases rows.len(),
{
    if rows.len() == 0 {
        Seq::empty()
    } else {
        ledger_text(rows.drop_last()) + join_with(rows.last(), '\t') + seq!['\n']
    }
}

/// `rows` without those for content id `id`, the rest in order.
pub open spec fn without_id(rows: Seq<Seq<Seq<char>>>, id: Seq<char>) -> Seq<Seq<Seq<char>>>
    decreases rows.len(),
{
    if rows.len() == 0 {
        Seq::empty()
    } else {
        let before = without_id(rows.drop_last(), id);
        if rows.last()[0] == id {
            before
        } else {
            before.push(rows.last())
        }
    }
}

#[derive(Default)]
pub struct Ledger {
    pub rows: Vec<LedgerRow>,
}

fn field(f: &Vec<String>, i: usize) -> (r: String)
    ensures
        r@ == field_at(f@.map_values(|s: String| s@), i as int),
{
    if i < f.len() {
        f[i].clone()
    } else {
        String::new()
    }
}

fn row_from_line(line: &String) -> (r: Option<LedgerRow>)
    ensures
        match r {
            Some(row) => is_row_line(line@) && row.fields() == row_fields(line@),
            None => !is_row_line(line@),
        },
{
    let lc = chars_of(line.as_str());
    if lc.len() == 0 {
        return None;
    }
    let f = split_at_char(lc.as_slice(), '\t');
    let ghost fv = f@.map_values(|s: String| s@);
    proof {
        assert(fv =~= split_spec(line@, '\t'));
    }
    if f.len() >= 2 {
        let row = LedgerRow {
            id: field(&f, 0),
            trip: field(&f, 1),
            person: field(&f, 2),
            camera: field(&f, 3),
            base: field(&f, 4),
            bytes: field(&f, 5),
            captured: field(&f, 6),
            imported_at: field(&f, 7),
        };
        assert(row.fields() =~= row_fields(line@));
        Some(row)
    } else {
        None
    }
}

impl Ledger {
    /// The rows, each as its columns.
    pub open spec fn rows_view(&self) -> Seq<Seq<Seq<char>>> {
        self.rows@.map_values(|r: LedgerRow| r.fields())
    }

    pub fn new() -> (l: Ledger)
        ensures
            l.rows@.len() == 0,
    {
        Ledger { rows: Vec::new() }
    }

    /// The ledger a TSV file holds: a row per non-empty line with at least two
    /// tab-separated columns; other lines are skipped.
    pub fn parse(txt: &str) -> (l: Ledger)
        ensures
            l.rows_view() == rows_of_lines(lines_spec(txt@)),
    {
        let v = chars_of(txt);
        let lines = lines_of(v.as_slice());
        let ghost ls = lines_spec(txt@);
        let mut rows: Vec<LedgerRow> = Vec::new();
        let mut i: usize = 0;
        while i < lines.len()
            invariant
                i <= lines@.len(),
                lines@.len() == ls.len(),
                forall|k: int| 0 <= k < lines@.len() ==> #[trigger] lines@[k]@ == ls[k],
                rows@.map_values(|r: LedgerRow| r.fields()) == rows_of_lines(ls.take(i as int)),
            decreases lines@.len() - i,
        {
            proof {
                assert(ls.take(i + 1).drop_last() =~= ls.take(i as int));
                assert(ls.take(i + 1).last() == ls[i as int]);
            }
            match row_from_line(&lines[i]) {
                Some(row) => {
                    rows.push(row);
                    proof {
                        assert(rows@.map_values(|r: LedgerRow| r.fields()) =~= rows_of_lines(
                            ls.take(i + 1),
                        ));
                    }
                },
                None => {},
            }
            i = i + 1;
        }
        proof {
            assert(ls.take(i as int) =~= ls);
        }
        Ledger { rows }
    }

    /// The ledger as the same TSV the script reads.
    pub fn to_tsv(&self) -> (s: String)
        ensures
            s@ == ledger_text(self.rows_view()),
    {
        let ghost rv = self.rows_view();
        let mut s = String::new();
        let mut i: usize = 0;
        while i < self.rows.len()
            invariant
                i <= self.rows@.len(),
                rv == self.rows@.map_values(|r: LedgerRow| r.fields()),
                s@ == ledger_text(rv.take(i as int)),
            decreases self.rows@.len() - i,
        {
            let r = &self.rows[i];
            let mut cols: Vec<String> = Vec::new();
            cols.push(r.id.clone());
            cols.push(r.trip.clone());
            cols.push(r.person.clone());
            cols.push(r.camera.clone());
            cols.push(r.base.clone());
            cols.push(r.bytes.clone());
            cols.push(r.captured.clone());
            cols.push(r.imported_at.clone());
            proof {
                assert(cols@.map_values(|f: String| f@) =~= r.fields());
                assert(rv.take(i + 1).drop_last() =~= rv.take(i as int));
                assert(rv.take(i + 1).last() == rv[i as int]);
            }
            push_joined(&mut s, &cols, '\t');
            s.push('\n');
            i = i + 1;
        }
        proof {
            assert(rv.take(i as int) =~= rv);
        }
        s
    }

    /// The trip that owns this content id, if any.
    pub fn trip_of(&self, id: &str) -> (r: Option<String>)
        ensures
            match r {
                Some(t) => exists|i: int|
                    0 <= i < self.rows@.len() && (#[trigger] self.rows@[i]).id@ == id@
                        && t@ == self.rows@[i].trip@ && forall|j: int|
                        0 <= j < i ==> self.rows@[j].id@ != id@,
                None => forall|i: int| 0 <= i < self.rows@.len() ==> (#[trigger] self.rows@[i]).id@ != id@,
            },
    {
        match self.row_of(id) {
            Some(row) => Some(row.trip.clone()),
            None => None,
        }
    }

    /// The full row for a content id — trip plus the person/camera/base needed to
    /// find that clip's local copy.
    pub fn row_of(&self, id: &str) -> (r: Option<&LedgerRow>)
        ensures
            match r {
                Some(row) => exists|i: int|
                    0 <= i < self.rows@.len() && self.rows@[i] == *row && (#[trigger] self.rows@[i]).id@
                        == id@ && forall|j: int| 0 <= j < i ==> self.rows@[j].id@ != id@,
                None => forall|i: int| 0 <= i < self.rows@.len() ==> (#[trigger] self.rows@[i]).id@ != id@,
            },
    {
        let mut i: usize = 0;
        while i < self.rows.len()
            invariant
                i <= self.rows@.len(),
                forall|j: int| 0 <= j < i ==> self.rows@[j].id@ != id@,
            decreases self.rows@.len() - i,
        {
            if str_eq(self.rows[i].id.as_str(), id) {
                return Some(&self.rows[i]);
            }
            i = i + 1;
        }
        None
    }

    /// Insert or replace the row for a content id (upsert by id), so re-importing
    /// the same clip updates its owner rather than duplicating it.
    pub fn upsert(&mut self, row: LedgerRow)
        ensures
            final(self).rows_view() == without_id(old(self).rows_view(), row.id@).push(row.fields()),
    {
        let ghost before = self.rows_view();
        let mut kept: Vec<LedgerRow> = Vec::new();
        let mut i: usize = 0;
        while i < self.rows.len()
            invariant
                i <= self.rows@.len(),
                before == self.rows@.map_values(|r: LedgerRow| r.fields()),
                kept@.map_values(|r: LedgerRow| r.fields()) == without_id(before.take(i as int), row.id@),
            decreases self.rows@.len() - i,
        {
            proof {
                assert(before.take(i + 1).drop_last() =~= before.take(i as int));
                assert(before.take(i + 1).last() == before[i as int]);
            }
            if !str_eq(self.rows[i].id.as_str(), row.id.as_str()) {
                kept.push(self.rows[i].duplicate());
                proof {
                    assert(kept@.map_values(|r: LedgerRow| r.fields()) =~= without_id(
                        before.take(i + 1),
                        row.id@,
                    ));
                }
            }
            i = i + 1;
        }
        proof {
            assert(before.take(i as int) =~= before);
        }
        kept.push(row);
        self.rows = kept;
        proof {
            assert(self.rows_view() =~= without_id(before, row.id@).push(row.fields()));
        }
    }
}

/// The ids that tombstone `lines` record: the first column of each line, when
/// it is not empty.
pub open spec fn tomb_ids(lines: Seq<Seq<char>>) -> Set<Seq<char>>
    decreases lines.len(),
{
    if lines.len() == 0 {
        Set::empty()
    } else {
        let before = tomb_ids(lines.drop_last());
        let id = split_spec(lines.last(), '\t')[0];
        if id.len() > 0 {
            before.insert(id)
        } else {
            before
        }
    }
}

/// Content ids the user permanently deleted. A tombstoned clip is dead to the
/// pipeline: import skips it, and a copy still on a card reads as "discarded"
/// rather than "new", so a clip you threw away never claws its way back in.
/// Its own tiny TSV (`deleted.tsv`), separate from the script-shared ledger.
/// The ids are kept sorted, so the file is stable across runs.
pub struct Tombstones {
    ids: FileSet,
}

impl View for Tombstones {
    type V = Set<Seq<char>>;

    closed spec fn view(&self) -> Set<Seq<char>> {
        self.ids@.dom()
    }
}

impl Tombstones {
    pub closed spec fn wf(&self) -> bool {
        self.ids.wf()
    }

    /// The ids in the order they are written: sorted.
    pub closed spec fn sorted_ids(&self) -> Seq<Seq<char>> {
        self.ids.keys()
    }

    pub proof fn lemma_sorted_ids(&self)
        requires
            self.wf(),
        ensures
            self.sorted_ids().to_set() == self@,
            self.sorted_ids().no_duplicates(),
            self.sorted_ids().len() == self@.len(),
    {
        self.ids.lemma_no_dups();
        self.ids.lemma_len();
        self.sorted_ids().unique_seq_to_set();
    }

    pub fn new() -> (t: Tombstones)
        ensures
            t.wf(),
            t@ == Set::<Seq<char>>::empty(),
    {
        let t = Tombstones { ids: FileSet::new() };
        assert(t@ =~= Set::<Seq<char>>::empty());
        t
    }

    /// The tombstones a `deleted.tsv` holds: the first column of each line; the
    /// extra columns (base, when) are for humans.
    pub fn parse(txt: &str) -> (t: Tombstones)
        ensures
            t.wf(),
            t@ == tomb_ids(lines_spec(txt@)),
    {
        let v = chars_of(txt);
        let lines = lines_of(v.as_slice());
        let ghost ls = lines_spec(txt@);
        let mut t = Tombstones::new();
        let mut i: usize = 0;
        while i < lines.len()
            invariant
                i <= lines@.len(),
                lines@.len() == ls.len(),
                forall|k: int| 0 <= k < lines@.len() ==> #[trigger] lines@[k]@ == ls[k],
                t.wf(),
                t@ == tomb_ids(ls.take(i as int)),
            decreases lines@.len() - i,
        {
            proof {
                assert(ls.take(i + 1).drop_last() =~= ls.take(i as int));
                assert(ls.take(i + 1).last() == ls[i as int]);
            }
            let lc = chars_of(lines[i].as_str());
            let f = split_at_char(lc.as_slice(), '\t');
            proof {
                crate::text::lemma_split_nonempty(lc@, '\t');
            }
            let first = &f[0];
            let fc = chars_of(first.as_str());
            if fc.len() > 0 {
                t.insert(first.as_str());
            }
            i = i + 1;
        }
        proof {
            assert(ls.take(i as int) =~= ls);
        }
        t
    }

    /// The ids, one per line, sorted.
    pub fn to_text(&self) -> (s: String)
        requires
            self.wf(),
        ensures
            s@ == ledger_text(self.sorted_ids().map_values(|k: Seq<char>| seq![k])),
    {
        let files = self.ids.entries_vec();
        let ghost rows = self.sorted_ids().map_values(|k: Seq<char>| seq![k]);
        let mut s = String::new();
        let mut i: usize = 0;
        while i < files.len()
            invariant
                i <= files@.len(),
                files@ == self.ids.entries(),
                rows == self.sorted_ids().map_values(|k: Seq<char>| seq![k]),
                self.sorted_ids() == self.ids.keys(),
                s@ == ledger_text(rows.take(i as int)),
            decreases files@.len() - i,
        {
            proof {
                assert(rows.take(i + 1).drop_last() =~= rows.take(i as int));
                assert(rows[i as int] == seq![files@[i as int].0@]);
                assert(join_with(rows[i as int], '\t') == files@[i as int].0@);
            }
            crate::text::push_str(&mut s, files[i].0.as_str());
            s.push('\n');
            i = i + 1;
        }
        proof {
            assert(rows.take(i as int) =~= rows);
        }
        s
    }

    pub fn contains(&self, id: &str) -> (b: bool)
        requires
            self.wf(),
        ensures
            b == self@.contains(id@),
    {
        self.ids.contains(id)
    }

    /// Record a content id as deleted (idempotent).
    pub fn insert(&mut self, id: &str)
        requires
            old(self).wf(),
        ensures
            final(self).wf(),
            final(self)@ == old(self)@.insert(id@),
    {
        self.ids.insert(id, 0);
        proof {
            assert(self@ =~= old(self)@.insert(id@));
        }
    }
}

} // verus!

verus! {

/// The line each row is written as.
pub open spec fn row_lines(rows: Seq<Seq<Seq<char>>>) -> Seq<Seq<char>> {
    rows.map_values(|r: Seq<Seq<char>>| join_with(r, '\t'))
}

/// A row that survives a write and a read: eight columns, none holding a tab or
/// a line break, the last not ending in a carriage return.
pub open spec fn writable_row(r: Seq<Seq<char>>) -> bool {
    &&& r.len() == 8
    &&& forall|i: int| 0 <= i < 8 ==> free_of(#[trigger] r[i], '\t') && free_of(r[i], '\n')
    &&& !(r[7].len() > 0 && r[7].last() == '\r')
}

pub proof fn lemma_ledger_text_lines(rows: Seq<Seq<Seq<char>>>)
    ensures
        ledger_text(rows) == join_with(row_lines(rows).push(Seq::empty()), '\n'),
    decreases rows.len(),
{
    if rows.len() > 0 {
        let pre = rows.drop_last();
        lemma_ledger_text_lines(pre);
        let l = row_lines(pre);
        let x = join_with(rows.last(), '\t');
        assert(row_lines(rows) =~= l.push(x));
        lemma_join_push(l, Seq::empty(), '\n');
        lemma_join_push(l, x, '\n');
        lemma_join_push(l.push(x), Seq::empty(), '\n');
        if l.len() == 0 {
            assert(join_with(l.push(Seq::empty()), '\n') =~= Seq::<char>::empty());
        }
        assert(ledger_text(rows) =~= join_with(row_lines(rows).push(Seq::empty()), '\n'));
    } else {
        assert(row_lines(rows).push(Seq::empty()) =~= seq![Seq::<char>::empty()]);
    }
}

pub proof fn lemma_join_free(fields: Seq<Seq<char>>, sep: char, c: char)
    requires
        sep != c,
        forall|i: int| 0 <= i < fields.len() ==> free_of(#[trigger] fields[i], c),
    ensures
        free_of(join_with(fields, sep), c),
    decreases fields.len(),
{
    if fields.len() > 1 {
        let rest = fields.skip(1);
        assert forall|i: int| 0 <= i < rest.len() implies free_of(#[trigger] rest[i], c) by {
            assert(rest[i] == fields[i + 1]);
        }
        lemma_join_free(rest, sep, c);
        assert(free_of(fields[0], c));
        let j = join_with(fields, sep);
        assert forall|i: int| 0 <= i < j.len() implies j[i] != c by {
            let a = fields[0];
            if i < a.len() {
                assert(j[i] == a[i]);
            } else if i > a.len() {
                assert(j[i] == join_with(rest, sep)[i - a.len() - 1]);
            }
        }
    } else if fields.len() == 1 {
        assert(free_of(fields[0], c));
    }
}

/// The last character of a row's line is that of its last column (or the tab
/// before it, when that column is empty).
pub proof fn lemma_join_last(r: Seq<Seq<char>>)
    requires
        r.len() >= 2,
    ensures
        join_with(r, '\t').len() > 0,
        join_with(r, '\t').last() == if r.last().len() > 0 { r.last().last() } else { '\t' },
    decreases r.len(),
{
    let rest = r.skip(1);
    if r.len() == 2 {
        assert(rest =~= seq![r[1]]);
        assert(join_with(rest, '\t') == r[1]);
    } else {
        lemma_join_last(rest);
        assert(rest.last() == r.last());
    }
}

/// Writing a ledger and reading the file back gives the same rows, in order.
pub proof fn lemma_ledger_roundtrip(rows: Seq<Seq<Seq<char>>>)
    requires
        forall|i: int| 0 <= i < rows.len() ==> writable_row(#[trigger] rows[i]),
    ensures
        rows_of_lines(lines_spec(ledger_text(rows))) == rows,
{
    lemma_ledger_text_lines(rows);
    let ls = row_lines(rows);
    let parts = ls.push(Seq::empty());
    assert forall|i: int| 0 <= i < parts.len() implies free_of(#[trigger] parts[i], '\n') by {
        if i < ls.len() {
            let r = rows[i];
            assert(writable_row(r));
            assert forall|k: int| 0 <= k < r.len() implies free_of(#[trigger] r[k], '\n') by {}
            lemma_join_free(r, '\t', '\n');
        }
    }
    lemma_split_join(parts, '\n');
    assert(parts.take(parts.len() - 1) =~= ls);
    let lines = lines_spec(ledger_text(rows));
    assert forall|i: int| 0 <= i < ls.len() implies strip_cr(#[trigger] ls[i]) == ls[i] by {
        let r = rows[i];
        assert(writable_row(r));
        lemma_join_last(r);
    }
    assert(lines =~= ls);
    lemma_rows_of_written_lines(rows);
}

proof fn lemma_rows_of_written_lines(rows: Seq<Seq<Seq<char>>>)
    requires
        forall|i: int| 0 <= i < rows.len() ==> writable_row(#[trigger] rows[i]),
    ensures
        rows_of_lines(row_lines(rows)) == rows,
    decreases rows.len(),
{
    if rows.len() > 0 {
        let pre = rows.drop_last();
        assert forall|i: int| 0 <= i < pre.len() implies writable_row(#[trigger] pre[i]) by {
            assert(pre[i] == rows[i]);
        }
        lemma_rows_of_written_lines(pre);
        assert(row_lines(rows).drop_last() =~= row_lines(pre));
        let r = rows.last();
        assert(writable_row(r));
        assert forall|k: int| 0 <= k < r.len() implies free_of(#[trigger] r[k], '\t') by {}
        lemma_split_join(r, '\t');
        lemma_join_last(r);
        let line = join_with(r, '\t');
        assert(row_lines(rows).last() == line);
        assert(is_row_line(line));
        assert(row_fields(line) =~= r);
    }
}

/// Rows of `rows` for content id `id`, in order.
pub open spec fn rows_with_id(rows: Seq<Seq<Seq<char>>>, id: Seq<char>) -> Seq<Seq<Seq<char>>>
    decreases rows.len(),
{
    if rows.len() == 0 {
        Seq::empty()
    } else {
        let before = rows_with_id(rows.drop_last(), id);
        if rows.last()[0] == id {
            before.push(rows.last())
        } else {
            before
        }
    }
}

/// After an upsert the ledger holds exactly one row for the upserted id, the new
/// one, and every other id's rows are as they were.
pub proof fn lemma_upsert(rows: Seq<Seq<Seq<char>>>, row: Seq<Seq<char>>, other: Seq<char>)
    requires
        row.len() == 8,
        other != row[0],
    ensures
        rows_with_id(without_id(rows, row[0]).push(row), row[0]) == seq![row],
        rows_with_id(without_id(rows, row[0]).push(row), other) == rows_with_id(rows, other),
{
    lemma_without_id(rows, row[0], other);
    let w = without_id(rows, row[0]);
    assert(w.push(row).drop_last() =~= w);
}

proof fn lemma_without_id(rows: Seq<Seq<Seq<char>>>, id: Seq<char>, other: Seq<char>)
    requires
        other != id,
    ensures
        rows_with_id(without_id(rows, id), id) == Seq::<Seq<Seq<char>>>::empty(),
        rows_with_id(without_id(rows, id), other) == rows_with_id(rows, other),
    decreases rows.len(),
{
    if rows.len() > 0 {
        let pre = rows.drop_last();
        lemma_without_id(pre, id, other);
        let w = without_id(pre, id);
        if rows.last()[0] != id {
            assert(w.push(rows.last()).drop_last() =~= w);
        }
    }
}

/// A content id that survives a write and a read of `deleted.tsv`: not empty,
/// no tab or line break in it, not ending in a carriage return.
pub open spec fn writable_id(k: Seq<char>) -> bool {
    k.len() > 0 && crate::text::free_of(k, '\t') && crate::text::free_of(k, '\n') && k.last() != '\r'
}

proof fn lemma_tomb_ids_of_ids(ks: Seq<Seq<char>>)
    requires
        forall|i: int| 0 <= i < ks.len() ==> writable_id(#[trigger] ks[i]),
    ensures
        tomb_ids(ks) == ks.to_set(),
    decreases ks.len(),
{
    if ks.len() > 0 {
        lemma_tomb_ids_of_ids(ks.drop_last());
        let k = ks.last();
        assert(writable_id(ks[ks.len() - 1]));
        crate::text::lemma_split_join(seq![k], '\t');
        assert(join_with(seq![k], '\t') == k);
        assert(ks.to_set() =~= ks.drop_last().to_set().insert(k)) by {
            assert(ks =~= ks.drop_last().push(k));
            vstd::seq_lib::seq_to_set_distributes_over_add(ks.drop_last(), seq![k]);
        }
    } else {
        assert(ks.to_set() =~= Set::<Seq<char>>::empty());
    }
}

/// Writing the tombstones and reading the file back gives the same set.
pub proof fn lemma_tombstones_roundtrip(t: Tombstones)
    requires
        t.wf(),
        forall|i: int| 0 <= i < t.sorted_ids().len() ==> writable_id(#[trigger] t.sorted_ids()[i]),
    ensures
        tomb_ids(lines_spec(ledger_text(t.sorted_ids().map_values(|k: Seq<char>| seq![k])))) == t@,
{
    let ks = t.sorted_ids();
    let rows = ks.map_values(|k: Seq<char>| seq![k]);
    let ls = row_lines(rows);
    assert forall|i: int| 0 <= i < ls.len() implies #[trigger] ls[i] == ks[i] by {
        assert(rows[i] == seq![ks[i]]);
    }
    assert(ls =~= ks);
    lemma_ledger_text_lines(rows);
    let parts = ls.push(Seq::empty());
    assert forall|i: int| 0 <= i < parts.len() implies crate::text::free_of(#[trigger] parts[i], '\n') by {
        if i < ls.len() {
            assert(writable_id(ks[i]));
        }
    }
    crate::text::lemma_split_join(parts, '\n');
    assert(parts.take(parts.len() - 1) =~= ls);
    assert forall|i: int| 0 <= i < ls.len() implies crate::text::strip_cr(#[trigger] ls[i]) == ls[i] by {
        assert(writable_id(ks[i]));
    }
    assert(lines_spec(ledger_text(rows)) =~= ls);
    lemma_tomb_ids_of_ids(ks);
    t.lemma_sorted_ids();
}

} // verus!
