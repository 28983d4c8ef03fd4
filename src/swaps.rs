//! The table of active swap areas: splitting the listing into lines and
//! fields, decoding each record, and looking paths up.
use vstd::prelude::*;

use crate::escape::{decode_field, decoded, EscapeError};

verus! {

/// One of the five fields of a record, in the order they stand on a line.
#[derive(Debug, Clone, Copy, PartialEq, Eq, Structural)]
pub enum Field {
    Source,
    Kind,
    Size,
    Used,
    Priority,
}

impl Field {
    /// The field's column name, in lower case.
    pub fn name(&self) -> (r: &'static str)
        ensures
            r@ == match *self {
                Field::Source => "source"@,
                Field::Kind => "kind"@,
                Field::Size => "size"@,
                Field::Used => "used"@,
                Field::Priority => "priority"@,
            },
    {
        match self {
            Field::Source => "source",
            Field::Kind => "kind",
            Field::Size => "size",
            Field::Used => "used",
            Field::Priority => "priority",
        }
    }
}

/// Why a listing could not be turned into a table.
#[derive(Debug, Clone, Copy, PartialEq, Eq, Structural)]
pub enum SwapsError {
    /// A data line ends before the given field.
    MalformedRecord(Field),
    /// A field holds a bad octal escape.
    MalformedEscape(EscapeError),
}

/// One active swap area, each field decoded to raw bytes.
pub struct SwapInfo {
    pub source: Vec<u8>,
    pub kind: Vec<u8>,
    pub size: Vec<u8>,
    pub used: Vec<u8>,
    pub priority: Vec<u8>,
}

/// The contents of a `SwapInfo`.
pub struct SwapRecord {
    pub source: Seq<u8>,
    pub kind: Seq<u8>,
    pub size: Seq<u8>,
    pub used: Seq<u8>,
    pub priority: Seq<u8>,
}

impl View for SwapInfo {
    type V = SwapRecord;

    open spec fn view(&self) -> SwapRecord {
        SwapRecord {
            source: self.source@,
            kind: self.kind@,
            size: self.size@,
            used: self.used@,
            priority: self.priority@,
        }
    }
}

/// A snapshot of the active swap areas, in the order the listing gives them.
pub struct Swaps(Vec<SwapInfo>);

impl View for Swaps {
    type V = Seq<SwapRecord>;

    closed spec fn view(&self) -> Seq<SwapRecord> {
        self.0@.map_values(|e: SwapInfo| e@)
    }
}

/// The byte that ends a line of the listing.
pub const NEWLINE: u8 = 10;

/// Bytes that separate fields: space, and tab through carriage return.
pub open spec fn is_blank(b: u8) -> bool {
    b == 32 || (9 <= b && b <= 13)
}

/// The run `cur` as a list of fields: none when it is empty.
pub open spec fn closed_run(cur: Seq<u8>) -> Seq<Seq<u8>> {
    if cur.len() == 0 {
        Seq::empty()
    } else {
        seq![cur]
    }
}

/// The fields of `s`, when the run `cur` of non-blank bytes has been read
/// just before it.
pub open spec fn runs_from(s: Seq<u8>, cur: Seq<u8>) -> Seq<Seq<u8>>
    decreases s.len(),
{
    if s.len() == 0 {
        closed_run(cur)
    } else if is_blank(s[0]) {
        closed_run(cur) + runs_from(s.subrange(1, s.len() as int), Seq::empty())
    } else {
        runs_from(s.subrange(1, s.len() as int), cur.push(s[0]))
    }
}

/// The fields of a line: its maximal runs of non-blank bytes, in order.
pub open spec fn fields_of(line: Seq<u8>) -> Seq<Seq<u8>> {
    runs_from(line, Seq::empty())
}

proof fn lemma_concat_assoc(a: Seq<Seq<u8>>, b: Seq<Seq<u8>>, c: Seq<Seq<u8>>)
    ensures
        a + (b + c) == (a + b) + c,
{
    assert(a + (b + c) =~= (a + b) + c);
}

/// The first five fields of `line`, or all of them where it has fewer.
fn leading_fields(line: &[u8]) -> (r: Vec<Vec<u8>>)
    ensures
        r@.len() == if fields_of(line@).len() < 5 { fields_of(line@).len() } else { 5 },
        forall|j: int| 0 <= j < r@.len() ==> (#[trigger] r@[j])@ == fields_of(line@)[j],
{
    let mut found: Vec<Vec<u8>> = Vec::new();
    let mut cur: Vec<u8> = Vec::new();
    let ghost seen: Seq<Seq<u8>> = Seq::empty();
    let n = line.len();
    let mut i: usize = 0;
    assert(line@.subrange(0, n as int) =~= line@);
    assert(seen + fields_of(line@) =~= fields_of(line@));
    while i < n
        invariant
            n == line@.len(),
            i <= n,
            found@.len() == seen.len(),
            seen.len() < 5,
            forall|j: int| 0 <= j < seen.len() ==> (#[trigger] found@[j])@ == seen[j],
            fields_of(line@) == seen + runs_from(line@.subrange(i as int, n as int), cur@),
        decreases n - i,
    {
        let ghost rest = line@.subrange(i as int, n as int);
        assert(rest.subrange(1, rest.len() as int) =~= line@.subrange(i + 1, n as int));
        let b = line[i];
        if b == 32 || (9 <= b && b <= 13) {
            assert(runs_from(rest, cur@) == closed_run(cur@) + runs_from(
                line@.subrange(i + 1, n as int),
                Seq::empty(),
            ));
            if cur.len() > 0 {
                proof {
                    lemma_concat_assoc(seen, seq![cur@], runs_from(line@.subrange(i + 1, n as int), Seq::empty()));
                    assert(seen.push(cur@) =~= seen + seq![cur@]);
                    seen = seen.push(cur@);
                }
                found.push(cur);
                cur = Vec::new();
                if found.len() == 5 {
                    return found;
                }
            } else {
                assert(cur@ =~= Seq::<u8>::empty());
                assert(closed_run(cur@) =~= Seq::<Seq<u8>>::empty());
                assert(Seq::<Seq<u8>>::empty() + runs_from(line@.subrange(i + 1, n as int), Seq::empty())
                    =~= runs_from(line@.subrange(i + 1, n as int), Seq::empty()));
            }
        } else {
            assert(runs_from(rest, cur@) == runs_from(line@.subrange(i + 1, n as int), cur@.push(b)));
            cur.push(b);
        }
        i = i + 1;
    }
    assert(line@.subrange(n as int, n as int) =~= Seq::<u8>::empty());
    if cur.len() > 0 {
        let ghost last = cur@;
        found.push(cur);
        proof {
            seen = seen.push(last);
        }
        assert(fields_of(line@) =~= seen);
    } else {
        assert(fields_of(line@) =~= seen);
    }
    found
}

/// The field that a line with `count` fields lacks first.
pub open spec fn missing_field(count: nat) -> Field {
    if count == 0 {
        Field::Source
    } else if count == 1 {
        Field::Kind
    } else if count == 2 {
        Field::Size
    } else if count == 3 {
        Field::Used
    } else {
        Field::Priority
    }
}

/// The first of the five fields `f` that fails to decode, if any.
pub open spec fn first_bad_escape(f: Seq<Seq<u8>>) -> Option<EscapeError> {
    if decoded(f[0]) is Err {
        Some(decoded(f[0])->Err_0)
    } else if decoded(f[1]) is Err {
        Some(decoded(f[1])->Err_0)
    } else if decoded(f[2]) is Err {
        Some(decoded(f[2])->Err_0)
    } else if decoded(f[3]) is Err {
        Some(decoded(f[3])->Err_0)
    } else if decoded(f[4]) is Err {
        Some(decoded(f[4])->Err_0)
    } else {
        None
    }
}

/// What a data line stands for: its first five fields, decoded, as source,
/// kind, size, used and priority. Fields beyond the fifth are ignored.
pub open spec fn record_of(line: Seq<u8>) -> Result<SwapRecord, SwapsError> {
    let f = fields_of(line);
    if f.len() < 5 {
        Err(SwapsError::MalformedRecord(missing_field(f.len())))
    } else {
        match first_bad_escape(f) {
            Some(e) => Err(SwapsError::MalformedEscape(e)),
            None => Ok(
                SwapRecord {
                    source: decoded(f[0])->Ok_0,
                    kind: decoded(f[1])->Ok_0,
                    size: decoded(f[2])->Ok_0,
                    used: decoded(f[3])->Ok_0,
                    priority: decoded(f[4])->Ok_0,
                },
            ),
        }
    }
}

/// The lines of `s`, when the bytes `cur` of an unfinished line have been
/// read just before it.
pub open spec fn lines_from(s: Seq<u8>, cur: Seq<u8>) -> Seq<Seq<u8>>
    decreases s.len(),
{
    if s.len() == 0 {
        closed_run(cur)
    } else if s[0] == NEWLINE {
        seq![cur] + lines_from(s.subrange(1, s.len() as int), Seq::empty())
    } else {
        lines_from(s.subrange(1, s.len() as int), cur.push(s[0]))
    }
}

/// The lines of a listing, without their newline bytes. A newline at the
/// very end closes the last line and opens no empty one.
pub open spec fn lines_of(s: Seq<u8>) -> Seq<Seq<u8>> {
    lines_from(s, Seq::empty())
}

/// The records of the data lines `ls`, or the error of the first line that
/// is not one.
pub open spec fn records_of(ls: Seq<Seq<u8>>) -> Result<Seq<SwapRecord>, SwapsError>
    decreases ls.len(),
{
    if ls.len() == 0 {
        Ok(Seq::empty())
    } else {
        match records_of(ls.drop_last()) {
            Err(e) => Err(e),
            Ok(rs) => match record_of(ls.last()) {
                Err(e) => Err(e),
                Ok(r) => Ok(rs.push(r)),
            },
        }
    }
}

/// The table that a listing describes: the records of all its lines but the
/// first, which is a header.
pub open spec fn table_of(listing: Seq<u8>) -> Result<Seq<SwapRecord>, SwapsError> {
    let ls = lines_of(listing);
    if ls.len() == 0 {
        Ok(Seq::empty())
    } else {
        records_of(ls.subrange(1, ls.len() as int))
    }
}

/// Whether some record of `table` has `path` as its source.
pub open spec fn is_swapped(table: Seq<SwapRecord>, path: Seq<u8>) -> bool {
    exists|i: int| 0 <= i < table.len() && (#[trigger] table[i]).source == path
}

proof fn lemma_records_error_stays(a: Seq<Seq<u8>>, b: Seq<Seq<u8>>)
    requires
        records_of(a) is Err,
    ensures
        records_of(a + b) == records_of(a),
    decreases b.len(),
{
    if b.len() == 0 {
        assert(a + b =~= a);
    } else {
        lemma_records_error_stays(a, b.drop_last());
        assert((a + b).drop_last() =~= a + b.drop_last());
    }
}

/// A listing with no line after its header gives an empty table, and an
/// empty table has no path in use as swap.
pub proof fn lemma_no_data_lines_no_swap(listing: Seq<u8>, path: Seq<u8>)
    requires
        lines_of(listing).len() <= 1,
    ensures
        table_of(listing) == Ok::<Seq<SwapRecord>, SwapsError>(Seq::empty()),
        !is_swapped(Seq::empty(), path),
{
    let ls = lines_of(listing);
    if ls.len() == 1 {
        assert(ls.subrange(1, 1) =~= Seq::<Seq<u8>>::empty());
    }
}

/// A table is never partial: where the data lines give a table, it holds one
/// record per line, each the record of its line, in the same order.
pub proof fn lemma_records_one_per_line(ls: Seq<Seq<u8>>)
    requires
        records_of(ls) is Ok,
    ensures
        records_of(ls)->Ok_0.len() == ls.len(),
        forall|i: int|
            0 <= i < ls.len() ==> record_of(#[trigger] ls[i]) == Ok::<SwapRecord, SwapsError>(
                records_of(ls)->Ok_0[i],
            ),
    decreases ls.len(),
{
    if ls.len() > 0 {
        let init = ls.drop_last();
        lemma_records_one_per_line(init);
        assert forall|i: int| 0 <= i < ls.len() implies record_of(#[trigger] ls[i]) == Ok::<
            SwapRecord,
            SwapsError,
        >(records_of(ls)->Ok_0[i]) by {
            if i < ls.len() - 1 {
                assert(ls[i] == init[i]);
            }
        }
    }
}

fn same_bytes(a: &[u8], b: &[u8]) -> (r: bool)
    ensures
        r == (a@ == b@),
{
    if a.len() != b.len() {
        return false;
    }
    let mut i: usize = 0;
    while i < a.len()
        invariant
            a@.len() == b@.len(),
            i <= a@.len(),
            forall|j: int| 0 <= j < i ==> a@[j] == b@[j],
        decreases a@.len() - i,
    {
        if a[i] != b[i] {
            return false;
        }
        i = i + 1;
    }
    assert(a@ =~= b@);
    true
}

impl Swaps {
    /// Builds the table from the whole text of the listing. Any line that is
    /// not a record fails the whole table.
    pub fn new(listing: &[u8]) -> (r: Result<Swaps, SwapsError>)
        ensures
            match r {
                Ok(t) => table_of(listing@) == Ok::<Seq<SwapRecord>, SwapsError>(t@),
                Err(e) => table_of(listing@) == Err::<Seq<SwapRecord>, SwapsError>(e),
            },
    {
        let mut entries: Vec<SwapInfo> = Vec::new();
        let mut cur: Vec<u8> = Vec::new();
        let mut past_header = false;
        let ghost done: Seq<Seq<u8>> = Seq::empty();
        let n = listing.len();
        let mut i: usize = 0;
        assert(listing@.subrange(0, n as int) =~= listing@);
        assert(done + lines_of(listing@) =~= lines_of(listing@));
        while i < n
            invariant
                n == listing@.len(),
                i <= n,
                past_header == (done.len() > 0),
                !past_header ==> entries@.len() == 0,
                past_header ==> records_of(done.subrange(1, done.len() as int)) == Ok::<
                    Seq<SwapRecord>,
                    SwapsError,
                >(entries@.map_values(|e: SwapInfo| e@)),
                lines_of(listing@) == done + lines_from(listing@.subrange(i as int, n as int), cur@),
            decreases n - i,
        {
            let ghost rest = listing@.subrange(i as int, n as int);
            assert(rest.subrange(1, rest.len() as int) =~= listing@.subrange(i + 1, n as int));
            let b = listing[i];
            if b == NEWLINE {
                let ghost after = listing@.subrange(i + 1, n as int);
                let ghost line = cur@;
                assert(lines_from(rest, cur@) == seq![line] + lines_from(after, Seq::empty()));
                proof {
                    lemma_concat_assoc(done, seq![line], lines_from(after, Seq::empty()));
                    assert(done.push(line) =~= done + seq![line]);
                }
                if past_header {
                    let ghost data = done.subrange(1, done.len() as int);
                    assert(done.push(line).subrange(1, done.len() + 1 as int) =~= data.push(line));
                    assert(data.push(line).drop_last() =~= data);
                    match Self::parse_line(cur.as_slice()) {
                        Ok(info) => {
                            entries.push(info);
                            assert(entries@.map_values(|e: SwapInfo| e@) =~= records_of(data)->Ok_0.push(
                                info@,
                            ));
                            assert(records_of(data.push(line)) == Ok::<Seq<SwapRecord>, SwapsError>(
                                entries@.map_values(|e: SwapInfo| e@),
                            ));
                        },
                        Err(e) => {
                            proof {
                                lemma_records_error_stays(
                                    data.push(line),
                                    lines_from(after, Seq::empty()),
                                );
                                let all = lines_of(listing@);
                                assert(all.subrange(1, all.len() as int) =~= data.push(line)
                                    + lines_from(after, Seq::empty()));
                            }
                            return Err(e);
                        },
                    }
                } else {
                    assert(done.push(line).subrange(1, 1) =~= Seq::<Seq<u8>>::empty());
                    assert(entries@.map_values(|e: SwapInfo| e@) =~= Seq::<SwapRecord>::empty());
                }
                proof {
                    done = done.push(line);
                }
                past_header = true;
                cur = Vec::new();
            } else {
                assert(lines_from(rest, cur@) == lines_from(
                    listing@.subrange(i + 1, n as int),
                    cur@.push(b),
                ));
                cur.push(b);
            }
            i = i + 1;
        }
        assert(listing@.subrange(n as int, n as int) =~= Seq::<u8>::empty());
        if cur.len() > 0 && past_header {
            let ghost data = done.subrange(1, done.len() as int);
            let ghost line = cur@;
            let all = Ghost(lines_of(listing@));
            assert(all@ =~= done.push(line));
            assert(all@.subrange(1, all@.len() as int) =~= data.push(line));
            assert(data.push(line).drop_last() =~= data);
            match Self::parse_line(cur.as_slice()) {
                Ok(info) => {
                    entries.push(info);
                    assert(entries@.map_values(|e: SwapInfo| e@) =~= records_of(data)->Ok_0.push(
                        info@,
                    ));
                },
                Err(e) => {
                    return Err(e);
                },
            }
        } else if past_header {
            assert(lines_of(listing@) =~= done);
        } else {
            assert(entries@.map_values(|e: SwapInfo| e@) =~= Seq::<SwapRecord>::empty());
            assert(lines_of(listing@).len() <= 1);
        }
        Ok(Swaps(entries))
    }

    /// The records of the table, in order.
    pub fn entries(&self) -> (r: &[SwapInfo])
        ensures
            r@.map_values(|e: SwapInfo| e@) == self@,
    {
        self.0.as_slice()
    }

    /// Whether `path` is, byte for byte, the source of some swap area.
    pub fn get_swapped(&self, path: &[u8]) -> (r: bool)
        ensures
            r == is_swapped(self@, path@),
    {
        let n = self.0.len();
        let mut i: usize = 0;
        while i < n
            invariant
                n == self.0@.len(),
                i <= n,
                forall|j: int| 0 <= j < i ==> (#[trigger] self@[j]).source != path@,
            decreases n - i,
        {
            if same_bytes(self.0[i].source.as_slice(), path) {
                assert(self@[i as int].source == path@);
                return true;
            }
            i = i + 1;
        }
        false
    }

    /// Decodes a field; an escape error becomes a malformed-escape error.
    pub fn parse_value(value: &[u8]) -> (r: Result<Vec<u8>, SwapsError>)
        ensures
            match r {
                Ok(v) => decoded(value@) == Ok::<Seq<u8>, EscapeError>(v@),
                Err(e) => decoded(value@) is Err && e == SwapsError::MalformedEscape(
                    decoded(value@)->Err_0,
                ),
            },
    {
        match decode_field(value) {
            Ok(v) => Ok(v),
            Err(e) => Err(SwapsError::MalformedEscape(e)),
        }
    }

    /// Turns one data line into a record.
    pub fn parse_line(line: &[u8]) -> (r: Result<SwapInfo, SwapsError>)
        ensures
            match r {
                Ok(info) => record_of(line@) == Ok::<SwapRecord, SwapsError>(info@),
                Err(e) => record_of(line@) == Err::<SwapRecord, SwapsError>(e),
            },
    {
        let parts = leading_fields(line);
        let count = parts.len();
        if count < 5 {
            let missing = if count == 0 {
                Field::Source
            } else if count == 1 {
                Field::Kind
            } else if count == 2 {
                Field::Size
            } else if count == 3 {
                Field::Used
            } else {
                Field::Priority
            };
            return Err(SwapsError::MalformedRecord(missing));
        }
        assert(parts@[0]@ == fields_of(line@)[0]);
        assert(parts@[1]@ == fields_of(line@)[1]);
        assert(parts@[2]@ == fields_of(line@)[2]);
        assert(parts@[3]@ == fields_of(line@)[3]);
        assert(parts@[4]@ == fields_of(line@)[4]);
        let source = Self::parse_value(parts[0].as_slice())?;
        let kind = Self::parse_value(parts[1].as_slice())?;
        let size = Self::parse_value(parts[2].as_slice())?;
        let used = Self::parse_value(parts[3].as_slice())?;
        let priority = Self::parse_value(parts[4].as_slice())?;
        Ok(SwapInfo { source, kind, size, used, priority })
    }
}

} // verus!
