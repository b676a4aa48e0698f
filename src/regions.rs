//! The region table: reference name to one half-open interval, read from
//! tab-separated lines `name<TAB>start<TAB>end`.

use vstd::prelude::*;
use crate::text::{chars_of, parse_u32, parse_u32_spec, split, split_spec, string_of, trim, trim_spec, views_of};

verus! {

/// A half-open interval `[start, end)` on a named reference sequence.
pub struct Region {
    pub reference_name: String,
    pub start: u32,
    pub end: u32,
}

/// Why the region list could not be read.
#[derive(Debug, Clone, Copy, PartialEq, Eq, Structural)]
pub enum RegionError {
    /// A line with three or more fields has a start or end that is not an
    /// unsigned 32-bit number.
    ParseError,
}

/// Reference name to interval; a later line for a name replaces an earlier one.
pub type RegionMap = Map<Seq<char>, (u32, u32)>;

/// What one line contributes: nothing (fewer than three fields), a named
/// interval, or a parse failure.
pub open spec fn line_spec(line: Seq<char>) -> Result<Option<(Seq<char>, u32, u32)>, RegionError> {
    let f = split_spec(trim_spec(line), '\t');
    if f.len() < 3 {
        Ok(None)
    } else {
        match (parse_u32_spec(f[1]), parse_u32_spec(f[2])) {
            (Some(s), Some(e)) => Ok(Some((f[0], s, e))),
            _ => Err(RegionError::ParseError),
        }
    }
}

/// The region map built from `lines` in order, or the first failure.
pub open spec fn regions_spec(lines: Seq<Seq<char>>) -> Result<RegionMap, RegionError>
    decreases lines.len(),
{
    if lines.len() == 0 {
        Ok(Map::empty())
    } else {
        match regions_spec(lines.drop_last()) {
            Err(e) => Err(e),
            Ok(m) => match line_spec(lines.last()) {
                Err(e) => Err(e),
                Ok(None) => Ok(m),
                Ok(Some(r)) => Ok(m.insert(r.0, (r.1, r.2))),
            },
        }
    }
}

pub open spec fn names_unique(rs: Seq<Region>) -> bool {
    forall|i: int, j: int|
        0 <= i < j < rs.len() ==> rs[i].reference_name@ != rs[j].reference_name@
}

pub open spec fn has_region(rs: Seq<Region>, name: Seq<char>) -> bool {
    exists|i: int| 0 <= i < rs.len() && rs[i].reference_name@ == name
}

pub open spec fn regions_view(rs: Seq<Region>) -> RegionMap {
    Map::new(
        |name: Seq<char>| has_region(rs, name),
        |name: Seq<char>|
            {
                let i = choose|i: int| 0 <= i < rs.len() && rs[i].reference_name@ == name;
                (rs[i].start, rs[i].end)
            },
    )
}

/// The regions of interest, one per reference name.
pub struct RegionTable {
    regions: Vec<Region>,
}

proof fn lemma_region_index(rs: Seq<Region>, j: int)
    requires
        names_unique(rs),
        0 <= j < rs.len(),
    ensures
        regions_view(rs).contains_key(rs[j].reference_name@),
        regions_view(rs)[rs[j].reference_name@] == (rs[j].start, rs[j].end),
{
    let name = rs[j].reference_name@;
    assert(has_region(rs, name));
    let i = choose|i: int| 0 <= i < rs.len() && rs[i].reference_name@ == name;
    assert(i == j);
}

proof fn lemma_region_update(rs: Seq<Region>, j: int, r: Region)
    requires
        names_unique(rs),
        0 <= j < rs.len(),
        r.reference_name@ == rs[j].reference_name@,
    ensures
        names_unique(rs.update(j, r)),
        regions_view(rs.update(j, r)) == regions_view(rs).insert(r.reference_name@, (r.start, r.end)),
{
    let r2 = rs.update(j, r);
    assert forall|name: Seq<char>| has_region(r2, name) <==> has_region(rs, name) by {
        if has_region(r2, name) {
            let i = choose|i: int| 0 <= i < r2.len() && r2[i].reference_name@ == name;
            assert(rs[i].reference_name@ == name);
        }
        if has_region(rs, name) {
            let i = choose|i: int| 0 <= i < rs.len() && rs[i].reference_name@ == name;
            assert(r2[i].reference_name@ == name);
        }
    }
    assert forall|name: Seq<char>| #[trigger]
        regions_view(r2).contains_key(name) implies regions_view(r2)[name] == regions_view(
        rs,
    ).insert(r.reference_name@, (r.start, r.end))[name] by {
        let i = choose|i: int| 0 <= i < r2.len() && r2[i].reference_name@ == name;
        lemma_region_index(r2, i);
        if i != j {
            lemma_region_index(rs, i);
        }
    }
    assert(regions_view(r2) =~= regions_view(rs).insert(r.reference_name@, (r.start, r.end)));
}

proof fn lemma_region_push(rs: Seq<Region>, r: Region)
    requires
        names_unique(rs),
        !has_region(rs, r.reference_name@),
    ensures
        names_unique(rs.push(r)),
        regions_view(rs.push(r)) == regions_view(rs).insert(r.reference_name@, (r.start, r.end)),
{
    let r2 = rs.push(r);
    assert(names_unique(r2)) by {
        assert forall|i: int, j: int| 0 <= i < j < r2.len() implies r2[i].reference_name@
            != r2[j].reference_name@ by {
            if j == rs.len() {
                assert(rs[i].reference_name@ != r.reference_name@);
            }
        }
    }
    assert forall|name: Seq<char>|
        has_region(r2, name) <==> (has_region(rs, name) || name == r.reference_name@) by {
        if has_region(r2, name) {
            let i = choose|i: int| 0 <= i < r2.len() && r2[i].reference_name@ == name;
            if i < rs.len() {
                assert(rs[i].reference_name@ == name);
            }
        }
        if has_region(rs, name) {
            let i = choose|i: int| 0 <= i < rs.len() && rs[i].reference_name@ == name;
            assert(r2[i].reference_name@ == name);
        }
        if name == r.reference_name@ {
            assert(r2[rs.len() as int].reference_name@ == name);
        }
    }
    assert forall|name: Seq<char>| #[trigger]
        regions_view(r2).contains_key(name) implies regions_view(r2)[name] == regions_view(
        rs,
    ).insert(r.reference_name@, (r.start, r.end))[name] by {
        let i = choose|i: int| 0 <= i < r2.len() && r2[i].reference_name@ == name;
        lemma_region_index(r2, i);
        if i < rs.len() {
            lemma_region_index(rs, i);
        }
    }
    assert(regions_view(r2) =~= regions_view(rs).insert(r.reference_name@, (r.start, r.end)));
}

impl RegionTable {
    pub closed spec fn view(&self) -> RegionMap {
        regions_view(self.regions@)
    }

    pub closed spec fn wf(&self) -> bool {
        names_unique(self.regions@)
    }

    /// An empty table.
    pub fn new() -> (r: RegionTable)
        ensures
            r.wf(),
            r@ == RegionMap::empty(),
    {
        let r = RegionTable { regions: Vec::new() };
        assert(r@ =~= RegionMap::empty());
        r
    }

    /// Index of the region of `reference_name`, if there is one.
    fn find(&self, reference_name: &String) -> (r: Option<usize>)
        ensures
            r matches Some(i) ==> i < self.regions@.len() && self.regions@[i as int].reference_name@
                == reference_name@,
            r is None ==> !has_region(self.regions@, reference_name@),
    {
        let mut i: usize = 0;
        while i < self.regions.len()
            invariant
                i <= self.regions@.len(),
                forall|k: int| 0 <= k < i ==> self.regions@[k].reference_name@ != reference_name@,
            decreases self.regions.len() - i,
        {
            if self.regions[i].reference_name == *reference_name {
                return Some(i);
            }
            i = i + 1;
        }
        None
    }

    /// Sets the interval of `reference_name`, replacing any earlier one.
    pub fn insert(&mut self, reference_name: String, start: u32, end: u32)
        requires
            old(self).wf(),
        ensures
            final(self).wf(),
            final(self)@ == old(self)@.insert(reference_name@, (start, end)),
    {
        let r = Region { reference_name, start, end };
        match self.find(&r.reference_name) {
            None => {
                proof {
                    lemma_region_push(self.regions@, r);
                }
                self.regions.push(r);
            },
            Some(i) => {
                let ghost old_regions = self.regions@;
                proof {
                    lemma_region_update(old_regions, i as int, r);
                    assert(old_regions.remove(i as int).insert(i as int, r) =~= old_regions.update(
                        i as int,
                        r,
                    ));
                }
                let _ = self.regions.remove(i);
                self.regions.insert(i, r);
            },
        }
    }

    /// The interval of `reference_name`, if the table has one.
    pub fn get(&self, reference_name: &String) -> (r: Option<(u32, u32)>)
        requires
            self.wf(),
        ensures
            r == if self@.contains_key(reference_name@) {
                Some(self@[reference_name@])
            } else {
                None::<(u32, u32)>
            },
    {
        match self.find(reference_name) {
            None => None,
            Some(i) => {
                proof {
                    lemma_region_index(self.regions@, i as int);
                }
                Some((self.regions[i].start, self.regions[i].end))
            },
        }
    }

    /// The regions, one per reference name, in no particular order.
    pub fn regions(&self) -> (r: &Vec<Region>)
        requires
            self.wf(),
        ensures
            names_unique(r@),
            regions_view(r@) == self@,
    {
        &self.regions
    }

    /// Number of regions in the table.
    pub fn len(&self) -> (r: usize)
        requires
            self.wf(),
        ensures
            r == self@.len(),
    {
        proof {
            lemma_regions_len(self.regions@);
        }
        self.regions.len()
    }
}

proof fn lemma_regions_len(rs: Seq<Region>)
    requires
        names_unique(rs),
    ensures
        regions_view(rs).len() == rs.len(),
    decreases rs.len(),
{
    if rs.len() > 0 {
        let init = rs.drop_last();
        assert(names_unique(init));
        lemma_regions_len(init);
        assert(!has_region(init, rs.last().reference_name@)) by {
            if has_region(init, rs.last().reference_name@) {
                let i = choose|i: int|
                    0 <= i < init.len() && init[i].reference_name@ == rs.last().reference_name@;
                assert(rs[i].reference_name@ == rs[rs.len() - 1].reference_name@);
            }
        }
        lemma_region_push(init, rs.last());
        assert(init.push(rs.last()) == rs);
        assert(regions_view(init).dom().finite()) by {
            lemma_regions_finite(init);
        }
    } else {
        assert(regions_view(rs).dom() =~= Set::empty());
    }
}

proof fn lemma_regions_finite(rs: Seq<Region>)
    ensures
        regions_view(rs).dom().finite(),
{
    let f = |i: int| rs[i].reference_name@;
    let idx = Set::new(|i: int| 0 <= i < rs.len());
    assert(idx =~= vstd::set_lib::set_int_range(0, rs.len() as int));
    vstd::set_lib::lemma_int_range(0, rs.len() as int);
    assert(regions_view(rs).dom() =~= idx.map(f)) by {
        assert forall|name: Seq<char>| regions_view(rs).dom().contains(name) implies idx.map(
            f,
        ).contains(name) by {
            let i = choose|i: int| 0 <= i < rs.len() && rs[i].reference_name@ == name;
            assert(idx.contains(i) && f(i) == name);
        }
    }
    idx.lemma_map_finite(f);
}

/// Reads one line: `None` where it has fewer than three tab-separated fields
/// (after trimming white space), else its name and interval.
pub fn parse_region_line(line: &str) -> (r: Result<Option<Region>, RegionError>)
    ensures
        match (r, line_spec(line@)) {
            (Ok(None), Ok(None)) => true,
            (Ok(Some(reg)), Ok(Some(t))) => reg.reference_name@ == t.0 && reg.start == t.1
                && reg.end == t.2,
            (Err(e), Err(e2)) => e == e2,
            _ => false,
        },
{
    let cs = chars_of(line);
    let t = trim(&cs);
    let fields = split(&t, '\t');
    if fields.len() < 3 {
        return Ok(None);
    }
    assert(views_of(fields@)[1] == fields@[1]@);
    assert(views_of(fields@)[2] == fields@[2]@);
    assert(views_of(fields@)[0] == fields@[0]@);
    let start = parse_u32(&fields[1]);
    let end = parse_u32(&fields[2]);
    match (start, end) {
        (Some(s), Some(e)) => Ok(
            Some(Region { reference_name: string_of(&fields[0]), start: s, end: e }),
        ),
        _ => Err(RegionError::ParseError),
    }
}

/// Builds the region table from the lines of a region list, in order.
pub fn load_bed_regions(lines: &Vec<String>) -> (r: Result<RegionTable, RegionError>)
    ensures
        r is Ok <==> regions_spec(lines@.map_values(|l: String| l@)) is Ok,
        r matches Ok(t) ==> t.wf() && t@ == regions_spec(lines@.map_values(|l: String| l@))->Ok_0,
        r matches Err(e) ==> regions_spec(lines@.map_values(|l: String| l@)) == Err::<
            RegionMap,
            RegionError,
        >(e),
{
    let ghost ls = lines@.map_values(|l: String| l@);
    let mut table = RegionTable::new();
    let mut i: usize = 0;
    while i < lines.len()
        invariant
            i <= lines@.len(),
            ls == lines@.map_values(|l: String| l@),
            table.wf(),
            regions_spec(ls.take(i as int)) == Ok::<RegionMap, RegionError>(table@),
        decreases lines.len() - i,
    {
        proof {
            assert(ls.take(i as int + 1).drop_last() == ls.take(i as int));
            assert(ls.take(i as int + 1).last() == lines@[i as int]@);
        }
        match parse_region_line(lines[i].as_str()) {
            Err(e) => {
                proof {
                    lemma_regions_stop(ls, i as int + 1);
                }
                return Err(e);
            },
            Ok(None) => {},
            Ok(Some(reg)) => {
                table.insert(reg.reference_name, reg.start, reg.end);
            },
        }
        i = i + 1;
    }
    assert(ls.take(lines.len() as int) == ls);
    Ok(table)
}

/// Once a prefix of the lines fails, the whole list fails the same way.
proof fn lemma_regions_stop(lines: Seq<Seq<char>>, k: int)
    requires
        0 <= k <= lines.len(),
        regions_spec(lines.take(k)) is Err,
    ensures
        regions_spec(lines) == regions_spec(lines.take(k)),
    decreases lines.len() - k,
{
    if k < lines.len() {
        assert(lines.take(k + 1).drop_last() == lines.take(k));
        lemma_regions_stop(lines, k + 1);
    } else {
        assert(lines.take(k) == lines);
    }
}

/// A line with fewer than three tab-separated fields adds no region: the
/// table read from the lines before it is left as it was.
pub proof fn lemma_short_line_adds_nothing(lines: Seq<Seq<char>>, line: Seq<char>)
    requires
        split_spec(trim_spec(line), '\t').len() < 3,
    ensures
        regions_spec(lines.push(line)) == regions_spec(lines),
{
    assert(lines.push(line).drop_last() == lines);
}

/// A line with three or more fields whose start is not an unsigned number
/// makes reading the list fail with a parse error.
pub proof fn lemma_bad_start_fails(lines: Seq<Seq<char>>, line: Seq<char>)
    requires
        split_spec(trim_spec(line), '\t').len() >= 3,
        parse_u32_spec(split_spec(trim_spec(line), '\t')[1]) is None,
        regions_spec(lines) is Ok,
    ensures
        regions_spec(lines.push(line)) == Err::<RegionMap, RegionError>(RegionError::ParseError),
{
    assert(lines.push(line).drop_last() == lines);
}

} // verus!
