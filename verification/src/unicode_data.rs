//! Reading the per-code-point records of the Unicode character database.

use crate::category::Category;
use crate::decompose::seqs_of;
use std::collections::HashMap;
use vstd::prelude::*;
use vstd::slice::slice_subrange;

verus! {

broadcast use vstd::std_specs::hash::group_hash_axioms;

/// Why a record could not be read.
#[derive(Debug, Clone, Copy, PartialEq, Eq, Structural)]
pub enum ParseError {
    /// The line has not fifteen fields.
    InvalidLine,
    /// The code point is no hexadecimal number of 32 bits.
    InvalidCodepoint,
    /// The combining class is no decimal number below 256.
    InvalidCombiningClass,
    /// A code point of the decomposition is no hexadecimal number of 32 bits.
    InvalidDecomposition,
    /// The category is not one of the thirty tags.
    InvalidCategory,
    /// The record is of an unassigned code point, which the data never lists.
    Unassigned,
}

/// Whether `b` is ASCII white space.
pub open spec fn is_space(b: u8) -> bool {
    b == 0x20 || 0x09 <= b <= 0x0d
}

/// Whether `b` separates fields: it is `sep`, or white space where no
/// separator is given.
pub open spec fn separates(b: u8, sep: Option<u8>) -> bool {
    match sep {
        Some(x) => b == x,
        None => is_space(b),
    }
}

/// The scan over `s`: the fields that are closed, and the one that is open.
pub open spec fn split_parts(s: Seq<u8>, sep: Option<u8>) -> (Seq<Seq<u8>>, Seq<u8>)
    decreases s.len(),
{
    if s.len() == 0 {
        (Seq::empty(), Seq::empty())
    } else {
        let p = split_parts(s.drop_last(), sep);
        if separates(s.last(), sep) {
            (p.0.push(p.1), Seq::empty())
        } else {
            (p.0, p.1.push(s.last()))
        }
    }
}

/// The fields of `s`: what stands between separators, one more than there
/// are separators.
pub open spec fn split(s: Seq<u8>, sep: Option<u8>) -> Seq<Seq<u8>> {
    split_parts(s, sep).0.push(split_parts(s, sep).1)
}

/// The fields that are not empty.
pub open spec fn nonempty(fields: Seq<Seq<u8>>) -> Seq<Seq<u8>>
    decreases fields.len(),
{
    if fields.len() == 0 {
        fields
    } else if fields.last().len() == 0 {
        nonempty(fields.drop_last())
    } else {
        nonempty(fields.drop_last()).push(fields.last())
    }
}

/// The words of `s`: what stands between white space.
pub open spec fn words(s: Seq<u8>) -> Seq<Seq<u8>> {
    nonempty(split(s, None))
}

/// A list of byte strings as a sequence of sequences.
pub open spec fn fields_view(v: Seq<Vec<u8>>) -> Seq<Seq<u8>> {
    Seq::new(v.len(), |i: int| v[i]@)
}

/// The value of a digit in the radix, which is 10 or 16.
pub open spec fn digit_value(b: u8, radix: u32) -> Option<nat> {
    if 0x30 <= b <= 0x39 {
        Some((b - 0x30) as nat)
    } else if radix == 16 && 0x61 <= b <= 0x66 {
        Some((b - 0x61 + 10) as nat)
    } else if radix == 16 && 0x41 <= b <= 0x46 {
        Some((b - 0x41 + 10) as nat)
    } else {
        None
    }
}

/// The value of a string of digits, as long as it stays within `max`.
pub open spec fn digits_value(s: Seq<u8>, radix: u32, max: u32) -> Option<nat>
    decreases s.len(),
{
    if s.len() == 0 {
        Some(0)
    } else {
        match (digits_value(s.drop_last(), radix, max), digit_value(s.last(), radix)) {
            (Some(v), Some(d)) => if v * radix + d <= max {
                Some((v * radix + d) as nat)
            } else {
                None
            },
            _ => None,
        }
    }
}

/// The number that `s` spells: digits, at least one, after an optional plus
/// sign, with a value of at most `max`.
pub open spec fn number(s: Seq<u8>, radix: u32, max: u32) -> Option<u32> {
    let body = if s.len() > 0 && s[0] == 0x2b {
        s.skip(1)
    } else {
        s
    };
    if body.len() == 0 {
        None
    } else {
        match digits_value(body, radix, max) {
            Some(v) => Some(v as u32),
            None => None,
        }
    }
}

/// Where a prefix spells no number within `max`, the whole spells none.
proof fn lemma_digits_prefix(s: Seq<u8>, k: int, radix: u32, max: u32)
    requires
        0 <= k <= s.len(),
        digits_value(s.take(k), radix, max).is_none(),
    ensures
        digits_value(s, radix, max).is_none(),
    decreases s.len() - k,
{
    if k < s.len() {
        assert(s.take(k + 1).drop_last() =~= s.take(k));
        lemma_digits_prefix(s, k + 1, radix, max);
    } else {
        assert(s.take(k) =~= s);
    }
}

/// Cuts `line` into its fields.
pub fn split_fields(line: &[u8], sep: Option<u8>) -> (r: Vec<Vec<u8>>)
    ensures
        fields_view(r@) == split(line@, sep),
{
    let mut fields: Vec<Vec<u8>> = Vec::new();
    let mut cur: Vec<u8> = Vec::new();
    let mut i: usize = 0;
    proof {
        assert(line@.take(0) =~= Seq::empty());
        assert(fields_view(fields@) =~= Seq::empty());
    }
    while i < line.len()
        invariant
            i <= line@.len(),
            fields_view(fields@) == split_parts(line@.take(i as int), sep).0,
            cur@ == split_parts(line@.take(i as int), sep).1,
        decreases line@.len() - i,
    {
        let b: u8 = line[i];
        let ghost before = fields@;
        proof {
            assert(line@.take(i + 1).drop_last() =~= line@.take(i as int));
            assert(line@.take(i + 1).last() == b);
        }
        let cut: bool = match sep {
            Some(x) => b == x,
            None => b == 0x20 || (0x09 <= b && b <= 0x0d),
        };
        if cut {
            fields.push(cur);
            proof {
                assert(fields_view(fields@) =~= fields_view(before).push(cur@));
            }
            cur = Vec::new();
        } else {
            cur.push(b);
        }
        i = i + 1;
    }
    let ghost before = fields@;
    fields.push(cur);
    proof {
        assert(line@.take(i as int) =~= line@);
        assert(fields_view(fields@) =~= fields_view(before).push(cur@));
    }
    fields
}

/// Cuts `text` into its words.
pub fn split_words(text: &[u8]) -> (r: Vec<Vec<u8>>)
    ensures
        fields_view(r@) == words(text@),
{
    let mut fields = split_fields(text, None);
    let ghost all = fields_view(fields@);
    let mut out: Vec<Vec<u8>> = Vec::new();
    let n: usize = fields.len();
    let mut i: usize = 0;
    proof {
        assert(all.take(0) =~= Seq::empty());
        assert(fields_view(out@) =~= Seq::empty());
    }
    while i < n
        invariant
            i <= n,
            n == fields@.len(),
            all == fields_view(fields@),
            fields_view(out@) == nonempty(all.take(i as int)),
        decreases n - i,
    {
        let ghost before = out@;
        proof {
            assert(all.take(i + 1).drop_last() =~= all.take(i as int));
            assert(all.take(i + 1).last() == fields@[i as int]@);
        }
        if fields[i].len() != 0 {
            let w: Vec<u8> = fields[i].clone();
            assert(w@ == fields@[i as int]@);
            out.push(w);
            proof {
                assert(fields_view(out@) =~= fields_view(before).push(w@));
            }
        }
        i = i + 1;
    }
    proof {
        assert(all.take(i as int) =~= all);
    }
    out
}

/// Reads a number in radix 10 or 16.
pub fn parse_number(text: &[u8], radix: u32, max: u32) -> (r: Option<u32>)
    requires
        radix == 10 || radix == 16,
    ensures
        r == number(text@, radix, max),
{
    let n: usize = text.len();
    let start: usize = if n > 0 && text[0] == 0x2b {
        1
    } else {
        0
    };
    if start == n {
        return None;
    }
    let ghost body = text@.skip(start as int);
    let mut acc: u64 = 0;
    let mut i: usize = start;
    proof {
        assert(body.take(0) =~= Seq::empty());
        assert(text@.skip(0) =~= text@);
        assert(body.len() > 0);
    }
    while i < n
        invariant
            start <= i <= n,
            n == text@.len(),
            body == text@.skip(start as int),
            body.len() > 0,
            body == (if text@.len() > 0 && text@[0] == 0x2b {
                text@.skip(1)
            } else {
                text@
            }),
            radix == 10 || radix == 16,
            acc <= max,
            digits_value(body.take(i - start), radix, max) == Some(acc as nat),
        decreases n - i,
    {
        let b: u8 = text[i];
        proof {
            assert(body.take(i - start + 1).drop_last() =~= body.take(i - start));
            assert(body.take(i - start + 1).last() == b);
        }
        let d: u64 = if 0x30 <= b && b <= 0x39 {
            (b - 0x30) as u64
        } else if radix == 16 && 0x61 <= b && b <= 0x66 {
            (b - 0x61 + 10) as u64
        } else if radix == 16 && 0x41 <= b && b <= 0x46 {
            (b - 0x41 + 10) as u64
        } else {
            proof {
                lemma_digits_prefix(body, i - start + 1, radix, max);
            }
            return None;
        };
        assert(acc * (radix as u64) <= 0xffff_ffff * 16) by (nonlinear_arith)
            requires
                acc <= 0xffff_ffff,
                radix <= 16,
        ;
        let next: u64 = acc * (radix as u64) + d;
        if next > max as u64 {
            proof {
                lemma_digits_prefix(body, i - start + 1, radix, max);
            }
            return None;
        }
        acc = next;
        i = i + 1;
    }
    proof {
        assert(body.take(i - start) =~= body);
    }
    Some(acc as u32)
}

/// The code points that the words spell in hexadecimal, if every one does.
pub open spec fn hex_list(ws: Seq<Seq<u8>>) -> Option<Seq<u32>>
    decreases ws.len(),
{
    if ws.len() == 0 {
        Some(Seq::empty())
    } else {
        match (hex_list(ws.drop_last()), number(ws.last(), 16, u32::MAX)) {
            (Some(v), Some(x)) => Some(v.push(x)),
            _ => None,
        }
    }
}

/// Where a prefix of the words spells no list, the whole spells none.
proof fn lemma_hex_prefix(ws: Seq<Seq<u8>>, k: int)
    requires
        0 <= k <= ws.len(),
        hex_list(ws.take(k)).is_none(),
    ensures
        hex_list(ws).is_none(),
    decreases ws.len() - k,
{
    if k < ws.len() {
        assert(ws.take(k + 1).drop_last() =~= ws.take(k));
        lemma_hex_prefix(ws, k + 1);
    } else {
        assert(ws.take(k) =~= ws);
    }
}

/// Reads each word as a hexadecimal code point.
pub fn parse_hex_list(ws: &Vec<Vec<u8>>) -> (r: Option<Vec<u32>>)
    ensures
        match hex_list(fields_view(ws@)) {
            Some(v) => r.is_some() && r.unwrap()@ == v,
            None => r.is_none(),
        },
{
    let ghost all = fields_view(ws@);
    let mut out: Vec<u32> = Vec::new();
    let mut i: usize = 0;
    proof {
        assert(all.take(0) =~= Seq::empty());
    }
    while i < ws.len()
        invariant
            i <= ws@.len(),
            all == fields_view(ws@),
            hex_list(all.take(i as int)) == Some(out@),
        decreases ws@.len() - i,
    {
        proof {
            assert(all.take(i + 1).drop_last() =~= all.take(i as int));
            assert(all.take(i + 1).last() == ws@[i as int]@);
        }
        match parse_number(ws[i].as_slice(), 16, u32::MAX) {
            Some(x) => {
                out.push(x);
            },
            None => {
                proof {
                    lemma_hex_prefix(all, i + 1);
                }
                return None;
            },
        }
        i = i + 1;
    }
    proof {
        assert(all.take(i as int) =~= all);
    }
    Some(out)
}

/// One record of the character database.
pub struct Record {
    /// The code point.
    pub codepoint: u32,
    /// Its general category.
    pub category: Category,
    /// Its combining class.
    pub combining_class: u8,
    /// Whether its decomposition is a compatibility decomposition.
    pub compatibility: bool,
    /// Its decomposition, if it has one.
    pub decomposition: Option<Vec<u32>>,
}

/// A record as a mathematical value.
pub struct RecordView {
    pub codepoint: u32,
    pub category: Category,
    pub combining_class: u8,
    pub compatibility: bool,
    pub decomposition: Option<Seq<u32>>,
}

impl Record {
    /// The record as a mathematical value.
    pub open spec fn view(&self) -> RecordView {
        RecordView {
            codepoint: self.codepoint,
            category: self.category,
            combining_class: self.combining_class,
            compatibility: self.compatibility,
            decomposition: match self.decomposition {
                Some(v) => Some(v@),
                None => None,
            },
        }
    }
}

/// What a decomposition field says: nothing where it is empty; behind `<`, a
/// tag and then the code points of a compatibility decomposition; else the
/// code points of a canonical one. The flag tells the compatibility form.
pub open spec fn decomposition_of(field: Seq<u8>) -> Option<(bool, Option<Seq<u32>>)> {
    if field.len() > 0 && field[0] == 0x3c {
        let ws = words(field.skip(1));
        let rest = if ws.len() > 0 {
            ws.skip(1)
        } else {
            ws
        };
        match hex_list(rest) {
            Some(v) => Some((true, Some(v))),
            None => None,
        }
    } else if field.len() > 0 {
        match hex_list(words(field)) {
            Some(v) => Some((false, Some(v))),
            None => None,
        }
    } else {
        Some((false, None))
    }
}

/// What a line says: fifteen fields between semicolons, of which the first is
/// the code point, the third the category, the fourth the combining class
/// and the sixth the decomposition.
pub open spec fn record_of(line: Seq<u8>) -> Result<RecordView, ParseError> {
    let f = split(line, Some(0x3bu8));
    if f.len() != 15 {
        Err(ParseError::InvalidLine)
    } else {
        match number(f[0], 16, u32::MAX) {
            None => Err(ParseError::InvalidCodepoint),
            Some(cp) => match number(f[3], 10, 255) {
                None => Err(ParseError::InvalidCombiningClass),
                Some(cc) => match decomposition_of(f[5]) {
                    None => Err(ParseError::InvalidDecomposition),
                    Some(d) => match Category::of_tag(f[2]) {
                        None => Err(ParseError::InvalidCategory),
                        Some(c) => if c is Unassigned {
                            Err(ParseError::Unassigned)
                        } else {
                            Ok(
                                RecordView {
                                    codepoint: cp,
                                    category: c,
                                    combining_class: cc as u8,
                                    compatibility: d.0,
                                    decomposition: d.1,
                                },
                            )
                        },
                    },
                },
            },
        }
    }
}

/// Reads a decomposition field.
pub fn parse_decomposition(field: &[u8]) -> (r: Option<(bool, Option<Vec<u32>>)>)
    ensures
        match decomposition_of(field@) {
            Some(d) => r.is_some() && r.unwrap().0 == d.0 && match d.1 {
                Some(v) => r.unwrap().1.is_some() && r.unwrap().1.unwrap()@ == v,
                None => r.unwrap().1.is_none(),
            },
            None => r.is_none(),
        },
{
    let n: usize = field.len();
    if n > 0 && field[0] == 0x3c {
        let tail = slice_subrange(field, 1, n);
        proof {
            assert(tail@ =~= field@.skip(1));
        }
        let mut ws = split_words(tail);
        let ghost all = fields_view(ws@);
        if ws.len() > 0 {
            ws.remove(0);
            proof {
                assert(fields_view(ws@) =~= all.skip(1));
            }
        }
        match parse_hex_list(&ws) {
            Some(v) => Some((true, Some(v))),
            None => None,
        }
    } else if n > 0 {
        let ws = split_words(field);
        match parse_hex_list(&ws) {
            Some(v) => Some((false, Some(v))),
            None => None,
        }
    } else {
        Some((false, None))
    }
}

/// Reads one line of the character database.
pub fn parse_record(line: &[u8]) -> (r: Result<Record, ParseError>)
    ensures
        match record_of(line@) {
            Ok(v) => r is Ok && r.unwrap()@ == v,
            Err(e) => r matches Err(x) && x == e,
        },
{
    let fields = split_fields(line, Some(0x3b));
    if fields.len() != 15 {
        return Err(ParseError::InvalidLine);
    }
    proof {
        let f = fields_view(fields@);
        assert(f[0] == fields@[0]@ && f[2] == fields@[2]@ && f[3] == fields@[3]@ && f[5]
            == fields@[5]@);
    }
    let codepoint: u32 = match parse_number(fields[0].as_slice(), 16, u32::MAX) {
        Some(cp) => cp,
        None => {
            return Err(ParseError::InvalidCodepoint);
        },
    };
    let class: u32 = match parse_number(fields[3].as_slice(), 10, 255) {
        Some(cc) => cc,
        None => {
            return Err(ParseError::InvalidCombiningClass);
        },
    };
    let decomp = match parse_decomposition(fields[5].as_slice()) {
        Some(d) => d,
        None => {
            return Err(ParseError::InvalidDecomposition);
        },
    };
    let category: Category = match Category::from_str(fields[2].as_slice()) {
        Ok(c) => c,
        Err(_) => {
            return Err(ParseError::InvalidCategory);
        },
    };
    if let Category::Unassigned = category {
        return Err(ParseError::Unassigned);
    }
    proof {
        assert(number(fields@[3]@, 10, 255).unwrap() <= 255) by {
            let s = fields@[3]@;
            let body = if s.len() > 0 && s[0] == 0x2b {
                s.skip(1)
            } else {
                s
            };
            assert(digits_value(body, 10, 255).unwrap() <= 255);
        }
    }
    Ok(
        Record {
            codepoint,
            category,
            combining_class: class as u8,
            compatibility: decomp.0,
            decomposition: decomp.1,
        },
    )
}

/// The tables that the records fill.
pub struct UnicodeData {
    /// The combining class of each code point whose class is not 0.
    pub combining_classes: HashMap<u32, u8>,
    /// The compatibility decompositions.
    pub compat_decomp: HashMap<u32, Vec<u32>>,
    /// The canonical decompositions.
    pub canon_decomp: HashMap<u32, Vec<u32>>,
    /// The highest code point of any record.
    pub last: u32,
}

/// The tables as mathematical maps.
pub struct DataView {
    pub classes: Map<u32, u8>,
    pub compat: Map<u32, Seq<u32>>,
    pub canon: Map<u32, Seq<u32>>,
    pub last: u32,
}

/// The tables before any record.
pub open spec fn no_data() -> DataView {
    DataView { classes: Map::empty(), compat: Map::empty(), canon: Map::empty(), last: 0 }
}

/// The tables after one more record.
pub open spec fn absorbed(d: DataView, r: RecordView) -> DataView {
    DataView {
        classes: if r.combining_class != 0 {
            d.classes.insert(r.codepoint, r.combining_class)
        } else {
            d.classes
        },
        compat: match r.decomposition {
            Some(v) => if r.compatibility {
                d.compat.insert(r.codepoint, v)
            } else {
                d.compat
            },
            None => d.compat,
        },
        canon: match r.decomposition {
            Some(v) => if r.compatibility {
                d.canon
            } else {
                d.canon.insert(r.codepoint, v)
            },
            None => d.canon,
        },
        last: if r.codepoint > d.last {
            r.codepoint
        } else {
            d.last
        },
    }
}

/// The tables that the lines fill, or the error of the first line that
/// cannot be read.
pub open spec fn loaded(lines: Seq<Seq<u8>>) -> Result<DataView, ParseError>
    decreases lines.len(),
{
    if lines.len() == 0 {
        Ok(no_data())
    } else {
        match loaded(lines.drop_last()) {
            Err(e) => Err(e),
            Ok(d) => match record_of(lines.last()) {
                Err(e) => Err(e),
                Ok(r) => Ok(absorbed(d, r)),
            },
        }
    }
}

/// A line without the carriage return at its end.
pub open spec fn trim_cr(line: Seq<u8>) -> Seq<u8> {
    if line.len() > 0 && line.last() == 0x0d {
        line.drop_last()
    } else {
        line
    }
}

/// The lines of a text: what stands between line feeds, without the carriage
/// return before a line feed, and without an empty line behind the last line
/// feed.
pub open spec fn lines_of(text: Seq<u8>) -> Seq<Seq<u8>> {
    let f = split(text, Some(0x0au8));
    let g = if f.last().len() == 0 {
        f.drop_last()
    } else {
        f
    };
    Seq::new(
        g.len(),
        |i: int|
            if i < f.len() - 1 {
                trim_cr(f[i])
            } else {
                f[i]
            },
    )
}

/// Where the lines up to some line give an error, all the lines give it.
proof fn lemma_loaded_prefix(lines: Seq<Seq<u8>>, k: int)
    requires
        0 <= k <= lines.len(),
        loaded(lines.take(k)) is Err,
    ensures
        loaded(lines) == loaded(lines.take(k)),
    decreases lines.len() - k,
{
    if k < lines.len() {
        assert(lines.take(k + 1).drop_last() =~= lines.take(k));
        lemma_loaded_prefix(lines, k + 1);
    } else {
        assert(lines.take(k) =~= lines);
    }
}

impl UnicodeData {
    /// The tables as mathematical maps.
    pub open spec fn view(&self) -> DataView {
        DataView {
            classes: self.combining_classes@,
            compat: seqs_of(self.compat_decomp@),
            canon: seqs_of(self.canon_decomp@),
            last: self.last,
        }
    }

    /// Tables without a record.
    pub fn new() -> (d: UnicodeData)
        ensures
            d@ == no_data(),
    {
        let d = UnicodeData {
            combining_classes: HashMap::new(),
            compat_decomp: HashMap::new(),
            canon_decomp: HashMap::new(),
            last: 0,
        };
        proof {
            assert(d@.compat =~= Map::empty());
            assert(d@.canon =~= Map::empty());
        }
        d
    }

    /// Enters one record.
    pub fn absorb(&mut self, rec: Record)
        ensures
            final(self)@ == absorbed(old(self)@, rec@),
    {
        let ghost before = self@;
        if rec.combining_class != 0 {
            self.combining_classes.insert(rec.codepoint, rec.combining_class);
        }
        if rec.codepoint > self.last {
            self.last = rec.codepoint;
        }
        if let Some(v) = rec.decomposition {
            if rec.compatibility {
                self.compat_decomp.insert(rec.codepoint, v);
                proof {
                    assert(self@.compat =~= before.compat.insert(rec.codepoint, v@));
                }
            } else {
                self.canon_decomp.insert(rec.codepoint, v);
                proof {
                    assert(self@.canon =~= before.canon.insert(rec.codepoint, v@));
                }
            }
        }
    }
}

/// Reads the character database from its text: one record a line. Stops at
/// the first line that cannot be read, with its error.
pub fn load_unicode_data(text: &[u8]) -> (r: Result<UnicodeData, ParseError>)
    ensures
        match loaded(lines_of(text@)) {
            Ok(v) => r is Ok && r.unwrap()@ == v,
            Err(e) => r matches Err(x) && x == e,
        },
{
    let fields = split_fields(text, Some(0x0a));
    let ghost lines = lines_of(text@);
    let n: usize = fields.len();
    let count: usize = if fields[n - 1].len() == 0 {
        n - 1
    } else {
        n
    };
    proof {
        assert(fields_view(fields@).last() == fields@[n - 1]@);
        assert(lines.len() == count);
        assert forall|k: int| 0 <= k < count implies #[trigger] lines[k] == (if k < n - 1 {
            trim_cr(fields@[k]@)
        } else {
            fields@[k]@
        }) by {
            assert(fields_view(fields@)[k] == fields@[k]@);
        }
        assert(lines.take(0) =~= Seq::empty());
    }
    let mut data = UnicodeData::new();
    let mut i: usize = 0;
    while i < count
        invariant
            i <= count,
            count <= fields@.len(),
            lines == lines_of(text@),
            lines.len() == count,
            n == fields@.len(),
            forall|k: int|
                0 <= k < count ==> #[trigger] lines[k] == (if k < n - 1 {
                    trim_cr(fields@[k]@)
                } else {
                    fields@[k]@
                }),
            loaded(lines.take(i as int)) == Ok::<DataView, ParseError>(data@),
        decreases count - i,
    {
        let line: &[u8] = fields[i].as_slice();
        let m: usize = line.len();
        let cut: usize = if i + 1 < n && m > 0 && line[m - 1] == 0x0d {
            m - 1
        } else {
            m
        };
        let trimmed = slice_subrange(line, 0, cut);
        proof {
            assert(trimmed@ =~= lines[i as int]);
            assert(lines.take(i + 1).drop_last() =~= lines.take(i as int));
            assert(lines.take(i + 1).last() == lines[i as int]);
        }
        match parse_record(trimmed) {
            Ok(rec) => {
                data.absorb(rec);
            },
            Err(e) => {
                proof {
                    assert(lines[i as int] == trimmed@);
                    assert(record_of(lines.take(i + 1).last()) is Err);
                    assert(loaded(lines.take(i + 1)) == Err::<DataView, ParseError>(e));
                    lemma_loaded_prefix(lines, i + 1);
                }
                return Err(e);
            },
        }
        i = i + 1;
    }
    proof {
        assert(lines.take(i as int) =~= lines);
    }
    Ok(data)
}

} // verus!
