//! The accumulator: per reference sequence, per read, a running
//! (matches, mismatches) tally.

use vstd::prelude::*;

verus! {

/// The counts of one read within one reference sequence.
pub struct ReadTally {
    pub read_id: String,
    pub matches: usize,
    pub mismatches: usize,
}

/// All read tallies of one reference sequence.
pub struct RefTallies {
    pub reference_name: String,
    pub reads: Vec<ReadTally>,
}

/// The table that `fold` fills: reference name to read id to tally.
pub struct Accumulator {
    tables: Vec<RefTallies>,
}

/// Model of a whole tally table.
pub type TallyTable = Map<Seq<char>, Map<Seq<char>, (nat, nat)>>;

pub open spec fn reads_unique(reads: Seq<ReadTally>) -> bool {
    forall|i: int, j: int|
        0 <= i < j < reads.len() ==> reads[i].read_id@ != reads[j].read_id@
}

pub open spec fn has_read(reads: Seq<ReadTally>, id: Seq<char>) -> bool {
    exists|i: int| 0 <= i < reads.len() && reads[i].read_id@ == id
}

/// The read id to tally map that a list of unique read tallies stands for.
pub open spec fn reads_view(reads: Seq<ReadTally>) -> Map<Seq<char>, (nat, nat)> {
    Map::new(
        |id: Seq<char>| has_read(reads, id),
        |id: Seq<char>|
            {
                let i = choose|i: int| 0 <= i < reads.len() && reads[i].read_id@ == id;
                (reads[i].matches as nat, reads[i].mismatches as nat)
            },
    )
}

pub open spec fn tables_unique(tables: Seq<RefTallies>) -> bool {
    forall|i: int, j: int|
        0 <= i < j < tables.len() ==> tables[i].reference_name@ != tables[j].reference_name@
}

pub open spec fn has_table(tables: Seq<RefTallies>, name: Seq<char>) -> bool {
    exists|i: int| 0 <= i < tables.len() && tables[i].reference_name@ == name
}

/// Well-formed tables: names unique, read ids unique within each, and no
/// reference sequence without a read.
pub open spec fn tables_wf(tables: Seq<RefTallies>) -> bool {
    &&& tables_unique(tables)
    &&& forall|i: int|
        0 <= i < tables.len() ==> reads_unique(#[trigger] tables[i].reads@) && tables[i].reads@.len()
            > 0
}

/// The tally table that a list of well-formed per-reference tables stands for.
pub open spec fn tables_view(tables: Seq<RefTallies>) -> TallyTable {
    Map::new(
        |name: Seq<char>| has_table(tables, name),
        |name: Seq<char>|
            {
                let i = choose|i: int| 0 <= i < tables.len() && tables[i].reference_name@ == name;
                reads_view(tables[i].reads@)
            },
    )
}

/// The tally of `read_id` under `reference_name`; (0, 0) where there is none.
pub open spec fn tally_of(t: TallyTable, reference_name: Seq<char>, read_id: Seq<char>) -> (
    nat,
    nat,
) {
    if t.contains_key(reference_name) && t[reference_name].contains_key(read_id) {
        t[reference_name][read_id]
    } else {
        (0, 0)
    }
}

/// The table after adding `(m, n)` to the tally of `read_id` under
/// `reference_name`, creating the bucket and the tally where absent.
pub open spec fn fold_spec(
    t: TallyTable,
    reference_name: Seq<char>,
    read_id: Seq<char>,
    m: nat,
    n: nat,
) -> TallyTable {
    let bucket = if t.contains_key(reference_name) {
        t[reference_name]
    } else {
        Map::empty()
    };
    let prior = tally_of(t, reference_name, read_id);
    t.insert(reference_name, bucket.insert(read_id, (prior.0 + m, prior.1 + n)))
}

proof fn lemma_reads_index(reads: Seq<ReadTally>, j: int)
    requires
        reads_unique(reads),
        0 <= j < reads.len(),
    ensures
        reads_view(reads).contains_key(reads[j].read_id@),
        reads_view(reads)[reads[j].read_id@] == (reads[j].matches as nat, reads[j].mismatches as nat),
{
    let id = reads[j].read_id@;
    assert(has_read(reads, id));
    let i = choose|i: int| 0 <= i < reads.len() && reads[i].read_id@ == id;
    assert(i == j);
}

proof fn lemma_reads_update(reads: Seq<ReadTally>, j: int, t: ReadTally)
    requires
        reads_unique(reads),
        0 <= j < reads.len(),
        t.read_id@ == reads[j].read_id@,
    ensures
        reads_unique(reads.update(j, t)),
        reads_view(reads.update(j, t)) == reads_view(reads).insert(
            t.read_id@,
            (t.matches as nat, t.mismatches as nat),
        ),
{
    let r2 = reads.update(j, t);
    assert forall|id: Seq<char>| has_read(r2, id) <==> has_read(reads, id) by {
        if has_read(r2, id) {
            let i = choose|i: int| 0 <= i < r2.len() && r2[i].read_id@ == id;
            assert(reads[i].read_id@ == id);
        }
        if has_read(reads, id) {
            let i = choose|i: int| 0 <= i < reads.len() && reads[i].read_id@ == id;
            assert(r2[i].read_id@ == id);
        }
    }
    assert forall|id: Seq<char>| #[trigger]
        reads_view(r2).contains_key(id) implies reads_view(r2)[id] == reads_view(reads).insert(
        t.read_id@,
        (t.matches as nat, t.mismatches as nat),
    )[id] by {
        let i = choose|i: int| 0 <= i < r2.len() && r2[i].read_id@ == id;
        lemma_reads_index(r2, i);
        if i != j {
            lemma_reads_index(reads, i);
        }
    }
    assert(reads_view(r2) =~= reads_view(reads).insert(
        t.read_id@,
        (t.matches as nat, t.mismatches as nat),
    ));
}

proof fn lemma_reads_push(reads: Seq<ReadTally>, t: ReadTally)
    requires
        reads_unique(reads),
        !has_read(reads, t.read_id@),
    ensures
        reads_unique(reads.push(t)),
        reads_view(reads.push(t)) == reads_view(reads).insert(
            t.read_id@,
            (t.matches as nat, t.mismatches as nat),
        ),
{
    let r2 = reads.push(t);
    assert(reads_unique(r2)) by {
        assert forall|i: int, j: int| 0 <= i < j < r2.len() implies r2[i].read_id@
            != r2[j].read_id@ by {
            if j == reads.len() {
                assert(reads[i].read_id@ != t.read_id@);
            }
        }
    }
    assert forall|id: Seq<char>| has_read(r2, id) <==> (has_read(reads, id) || id == t.read_id@) by {
        if has_read(r2, id) {
            let i = choose|i: int| 0 <= i < r2.len() && r2[i].read_id@ == id;
            if i < reads.len() {
                assert(reads[i].read_id@ == id);
            }
        }
        if has_read(reads, id) {
            let i = choose|i: int| 0 <= i < reads.len() && reads[i].read_id@ == id;
            assert(r2[i].read_id@ == id);
        }
        if id == t.read_id@ {
            assert(r2[reads.len() as int].read_id@ == id);
        }
    }
    assert forall|id: Seq<char>| #[trigger]
        reads_view(r2).contains_key(id) implies reads_view(r2)[id] == reads_view(reads).insert(
        t.read_id@,
        (t.matches as nat, t.mismatches as nat),
    )[id] by {
        let i = choose|i: int| 0 <= i < r2.len() && r2[i].read_id@ == id;
        lemma_reads_index(r2, i);
        if i < reads.len() {
            lemma_reads_index(reads, i);
        }
    }
    assert(reads_view(r2) =~= reads_view(reads).insert(
        t.read_id@,
        (t.matches as nat, t.mismatches as nat),
    ));
}

proof fn lemma_tables_index(tables: Seq<RefTallies>, j: int)
    requires
        tables_unique(tables),
        0 <= j < tables.len(),
    ensures
        tables_view(tables).contains_key(tables[j].reference_name@),
        tables_view(tables)[tables[j].reference_name@] == reads_view(tables[j].reads@),
{
    let name = tables[j].reference_name@;
    assert(has_table(tables, name));
    let i = choose|i: int| 0 <= i < tables.len() && tables[i].reference_name@ == name;
    assert(i == j);
}

proof fn lemma_tables_update(tables: Seq<RefTallies>, j: int, b: RefTallies)
    requires
        tables_unique(tables),
        0 <= j < tables.len(),
        b.reference_name@ == tables[j].reference_name@,
    ensures
        tables_unique(tables.update(j, b)),
        tables_view(tables.update(j, b)) == tables_view(tables).insert(
            b.reference_name@,
            reads_view(b.reads@),
        ),
{
    let t2 = tables.update(j, b);
    assert forall|name: Seq<char>| has_table(t2, name) <==> has_table(tables, name) by {
        if has_table(t2, name) {
            let i = choose|i: int| 0 <= i < t2.len() && t2[i].reference_name@ == name;
            assert(tables[i].reference_name@ == name);
        }
        if has_table(tables, name) {
            let i = choose|i: int| 0 <= i < tables.len() && tables[i].reference_name@ == name;
            assert(t2[i].reference_name@ == name);
        }
    }
    assert forall|name: Seq<char>| #[trigger]
        tables_view(t2).contains_key(name) implies tables_view(t2)[name] == tables_view(
        tables,
    ).insert(b.reference_name@, reads_view(b.reads@))[name] by {
        let i = choose|i: int| 0 <= i < t2.len() && t2[i].reference_name@ == name;
        lemma_tables_index(t2, i);
        if i != j {
            lemma_tables_index(tables, i);
        }
    }
    assert(tables_view(t2) =~= tables_view(tables).insert(
        b.reference_name@,
        reads_view(b.reads@),
    ));
}

proof fn lemma_tables_push(tables: Seq<RefTallies>, b: RefTallies)
    requires
        tables_unique(tables),
        !has_table(tables, b.reference_name@),
    ensures
        tables_unique(tables.push(b)),
        tables_view(tables.push(b)) == tables_view(tables).insert(
            b.reference_name@,
            reads_view(b.reads@),
        ),
{
    let t2 = tables.push(b);
    assert(tables_unique(t2)) by {
        assert forall|i: int, j: int| 0 <= i < j < t2.len() implies t2[i].reference_name@
            != t2[j].reference_name@ by {
            if j == tables.len() {
                assert(tables[i].reference_name@ != b.reference_name@);
            }
        }
    }
    assert forall|name: Seq<char>|
        has_table(t2, name) <==> (has_table(tables, name) || name == b.reference_name@) by {
        if has_table(t2, name) {
            let i = choose|i: int| 0 <= i < t2.len() && t2[i].reference_name@ == name;
            if i < tables.len() {
                assert(tables[i].reference_name@ == name);
            }
        }
        if has_table(tables, name) {
            let i = choose|i: int| 0 <= i < tables.len() && tables[i].reference_name@ == name;
            assert(t2[i].reference_name@ == name);
        }
        if name == b.reference_name@ {
            assert(t2[tables.len() as int].reference_name@ == name);
        }
    }
    assert forall|name: Seq<char>| #[trigger]
        tables_view(t2).contains_key(name) implies tables_view(t2)[name] == tables_view(
        tables,
    ).insert(b.reference_name@, reads_view(b.reads@))[name] by {
        let i = choose|i: int| 0 <= i < t2.len() && t2[i].reference_name@ == name;
        lemma_tables_index(t2, i);
        if i < tables.len() {
            lemma_tables_index(tables, i);
        }
    }
    assert(tables_view(t2) =~= tables_view(tables).insert(
        b.reference_name@,
        reads_view(b.reads@),
    ));
}

/// Index of the tally of `read_id`, if there is one.
fn find_read(reads: &Vec<ReadTally>, read_id: &String) -> (r: Option<usize>)
    ensures
        r matches Some(j) ==> j < reads@.len() && reads@[j as int].read_id@ == read_id@,
        r is None ==> !has_read(reads@, read_id@),
{
    let mut j: usize = 0;
    while j < reads.len()
        invariant
            j <= reads@.len(),
            forall|k: int| 0 <= k < j ==> reads@[k].read_id@ != read_id@,
        decreases reads.len() - j,
    {
        if reads[j].read_id == *read_id {
            return Some(j);
        }
        j = j + 1;
    }
    None
}

impl Accumulator {
    /// The tally table held so far.
    pub closed spec fn view(&self) -> TallyTable {
        tables_view(self.tables@)
    }

    pub closed spec fn wf(&self) -> bool {
        tables_wf(self.tables@)
    }

    /// An empty accumulator.
    pub fn new() -> (r: Accumulator)
        ensures
            r.wf(),
            r@ == TallyTable::empty(),
    {
        let r = Accumulator { tables: Vec::new() };
        assert(r@ =~= TallyTable::empty());
        r
    }

    /// Index of the bucket of `reference_name`, if there is one.
    fn find_table(&self, reference_name: &String) -> (r: Option<usize>)
        ensures
            r matches Some(i) ==> i < self.tables@.len() && self.tables@[i as int].reference_name@
                == reference_name@,
            r is None ==> !has_table(self.tables@, reference_name@),
    {
        let mut i: usize = 0;
        while i < self.tables.len()
            invariant
                i <= self.tables@.len(),
                forall|k: int| 0 <= k < i ==> self.tables@[k].reference_name@ != reference_name@,
            decreases self.tables.len() - i,
        {
            if self.tables[i].reference_name == *reference_name {
                return Some(i);
            }
            i = i + 1;
        }
        None
    }

    /// The current tally of `read_id` under `reference_name`, (0, 0) if none.
    pub fn tally(&self, reference_name: &String, read_id: &String) -> (r: (usize, usize))
        requires
            self.wf(),
        ensures
            r.0 as nat == tally_of(self@, reference_name@, read_id@).0,
            r.1 as nat == tally_of(self@, reference_name@, read_id@).1,
    {
        match self.find_table(reference_name) {
            None => (0, 0),
            Some(i) => {
                proof {
                    lemma_tables_index(self.tables@, i as int);
                }
                let reads = &self.tables[i].reads;
                match find_read(reads, read_id) {
                    None => (0, 0),
                    Some(j) => {
                        proof {
                            lemma_reads_index(reads@, j as int);
                        }
                        (reads[j].matches, reads[j].mismatches)
                    },
                }
            },
        }
    }

    /// Adds `matches` and `mismatches` to the tally of `read_id` under
    /// `reference_name`, creating the bucket and the tally where absent.
    pub fn fold(
        &mut self,
        reference_name: &String,
        read_id: &String,
        matches: usize,
        mismatches: usize,
    )
        requires
            old(self).wf(),
            tally_of(old(self)@, reference_name@, read_id@).0 + matches <= usize::MAX,
            tally_of(old(self)@, reference_name@, read_id@).1 + mismatches <= usize::MAX,
        ensures
            final(self).wf(),
            final(self)@ == fold_spec(
                old(self)@,
                reference_name@,
                read_id@,
                matches as nat,
                mismatches as nat,
            ),
    {
        match self.find_table(reference_name) {
            None => {
                let mut reads: Vec<ReadTally> = Vec::new();
                let t = ReadTally { read_id: read_id.clone(), matches, mismatches };
                reads.push(t);
                let b = RefTallies { reference_name: reference_name.clone(), reads };
                proof {
                    lemma_reads_push(Seq::empty(), t);
                    assert(Seq::<ReadTally>::empty().push(t) == reads@);
                    assert(reads_view(Seq::<ReadTally>::empty()) =~= Map::empty());
                    lemma_tables_push(self.tables@, b);
                    assert(!self@.contains_key(reference_name@));
                }
                self.tables.push(b);
                proof {
                    assert(tables_wf(self.tables@)) by {
                        assert forall|k: int| 0 <= k < self.tables@.len() implies reads_unique(
                            #[trigger] self.tables@[k].reads@,
                        ) && self.tables@[k].reads@.len() > 0 by {
                            if k < old(self).tables@.len() {
                                assert(self.tables@[k] == old(self).tables@[k]);
                            }
                        }
                    }
                }
            },
            Some(i) => {
                let ghost old_tables = self.tables@;
                proof {
                    lemma_tables_index(old_tables, i as int);
                }
                let mut b = self.tables.remove(i);
                assert(b == old_tables[i as int]);
                let ghost old_reads = b.reads@;
                match find_read(&b.reads, read_id) {
                    None => {
                        let t = ReadTally { read_id: read_id.clone(), matches, mismatches };
                        proof {
                            lemma_reads_push(old_reads, t);
                        }
                        b.reads.push(t);
                    },
                    Some(j) => {
                        proof {
                            lemma_reads_index(old_reads, j as int);
                        }
                        let old_t = b.reads.remove(j);
                        let t = ReadTally {
                            read_id: old_t.read_id,
                            matches: old_t.matches + matches,
                            mismatches: old_t.mismatches + mismatches,
                        };
                        proof {
                            lemma_reads_update(old_reads, j as int, t);
                            assert(old_reads.remove(j as int).insert(j as int, t) =~= old_reads.update(
                                j as int,
                                t,
                            ));
                        }
                        b.reads.insert(j, t);
                    },
                }
                proof {
                    lemma_tables_update(old_tables, i as int, b);
                    assert(old_tables.remove(i as int).insert(i as int, b) =~= old_tables.update(
                        i as int,
                        b,
                    ));
                }
                self.tables.insert(i, b);
                proof {
                    assert(self.tables@ == old_tables.update(i as int, b));
                    assert(tables_wf(self.tables@)) by {
                        assert forall|k: int| 0 <= k < self.tables@.len() implies reads_unique(
                            #[trigger] self.tables@[k].reads@,
                        ) && self.tables@[k].reads@.len() > 0 by {
                            if k != i {
                                assert(self.tables@[k] == old_tables[k]);
                            }
                        }
                    }
                }
            },
        }
        proof {
            assert(final(self)@ =~= fold_spec(
                old(self)@,
                reference_name@,
                read_id@,
                matches as nat,
                mismatches as nat,
            ));
        }
    }

    /// Hands over the whole table; the accumulator is consumed.
    pub fn drain(self) -> (r: Vec<RefTallies>)
        requires
            self.wf(),
        ensures
            tables_wf(r@),
            tables_view(r@) == self@,
    {
        self.tables
    }
}

/// Folding the same counts twice for one read adds them twice: from a
/// table with no tally for that read, the result is `(2m, 2n)`.
pub proof fn lemma_fold_twice(
    t: TallyTable,
    reference_name: Seq<char>,
    read_id: Seq<char>,
    m: nat,
    n: nat,
)
    ensures
        tally_of(
            fold_spec(fold_spec(t, reference_name, read_id, m, n), reference_name, read_id, m, n),
            reference_name,
            read_id,
        ) == (tally_of(t, reference_name, read_id).0 + 2 * m, tally_of(
            t,
            reference_name,
            read_id,
        ).1 + 2 * n),
        tally_of(t, reference_name, read_id) == (0nat, 0nat) ==> tally_of(
            fold_spec(fold_spec(t, reference_name, read_id, m, n), reference_name, read_id, m, n),
            reference_name,
            read_id,
        ) == (2 * m, 2 * n),
{
}

} // verus!
