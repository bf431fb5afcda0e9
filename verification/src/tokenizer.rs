//! The tokenizer: a raw command line is split into compound units on the
//! statement delimiter `;`; each unit is split into a mnemonic path, a query
//! marker and a parameter tail.

use vstd::prelude::*;
use crate::ascii::{spec_is_blank, views, is_blank};
use crate::error::Error;

verus! {

/// The segments of `s` between occurrences of `sep`, scanning from index `i`
/// with the bytes gathered so far in `cur`. `n` separators give `n + 1`
/// segments.
pub open spec fn spec_split_acc(s: Seq<u8>, sep: u8, i: int, cur: Seq<u8>) -> Seq<Seq<u8>>
    decreases s.len() - i,
{
    if i < 0 || i >= s.len() {
        seq![cur]
    } else if s[i] == sep {
        seq![cur] + spec_split_acc(s, sep, i + 1, seq![])
    } else {
        spec_split_acc(s, sep, i + 1, cur.push(s[i]))
    }
}

/// The segments of `s` between occurrences of `sep`.
pub open spec fn spec_split(s: Seq<u8>, sep: u8) -> Seq<Seq<u8>> {
    spec_split_acc(s, sep, 0, seq![])
}

/// The first index at or after `i` whose byte is blank-free, that is the
/// start of `s` once leading blanks are dropped.
pub open spec fn spec_scan_blank_lo(s: Seq<u8>, i: int) -> int
    decreases s.len() - i,
{
    if 0 <= i && i < s.len() && spec_is_blank(s[i]) {
        spec_scan_blank_lo(s, i + 1)
    } else {
        i
    }
}

/// The end of `s` once trailing blanks before index `j` are dropped.
pub open spec fn spec_scan_blank_hi(s: Seq<u8>, j: int) -> int
    decreases j,
{
    if 0 < j && j <= s.len() && spec_is_blank(s[j - 1]) {
        spec_scan_blank_hi(s, j - 1)
    } else {
        j
    }
}

/// `s` with leading and trailing blanks removed.
pub open spec fn spec_trim(s: Seq<u8>) -> Seq<u8> {
    let lo = spec_scan_blank_lo(s, 0);
    let hi = spec_scan_blank_hi(s, s.len() as int);
    if lo >= hi {
        seq![]
    } else {
        s.subrange(lo, hi)
    }
}

/// A command unit after tokenization: the root-anchoring flag, the common
/// (asterisk) flag, the mnemonic path, the query marker and the parameter
/// fields.
pub ghost struct ParsedUnitS {
    pub anchored: bool,
    pub common: bool,
    pub path: Seq<Seq<u8>>,
    pub query: bool,
    pub params: Seq<Seq<u8>>,
}

/// The parameter fields of a unit's tail: comma-separated, each trimmed;
/// an all-blank tail carries no fields.
pub open spec fn spec_params(tail: Seq<u8>) -> Seq<Seq<u8>> {
    let t = spec_trim(tail);
    if t.len() == 0 {
        seq![]
    } else {
        spec_split(t, 44).map_values(|f: Seq<u8>| spec_trim(f))
    }
}

/// The first index at or after `i` holding byte `sep`, if any.
pub open spec fn spec_first_from(s: Seq<u8>, sep: u8, i: int) -> Option<int>
    decreases s.len() - i,
{
    if i < 0 || i >= s.len() {
        None
    } else if s[i] == sep {
        Some(i)
    } else {
        spec_first_from(s, sep, i + 1)
    }
}

/// A split yields at least one segment.
pub proof fn lemma_split_acc_nonempty(s: Seq<u8>, sep: u8, i: int, cur: Seq<u8>)
    ensures
        spec_split_acc(s, sep, i, cur).len() >= 1,
    decreases s.len() - i,
{
    if 0 <= i && i < s.len() {
        if s[i] == sep {
            lemma_split_acc_nonempty(s, sep, i + 1, seq![]);
        } else {
            lemma_split_acc_nonempty(s, sep, i + 1, cur.push(s[i]));
        }
    }
}

/// A tokenized unit's mnemonic path is never empty.
pub proof fn lemma_parse_unit_path_nonempty(u: Seq<u8>)
    requires
        spec_parse_unit(u) is Some,
    ensures
        spec_parse_unit(u)->0.path.len() >= 1,
{
    let t = spec_trim(u);
    let hend = match spec_first_from(t, 32, 0) {
        Some(j) => j,
        None => t.len() as int,
    };
    let header0 = t.subrange(0, hend);
    let query = header0.len() > 0 && header0[header0.len() - 1] == 63;
    let header = if query {
        header0.drop_last()
    } else {
        header0
    };
    let common = header[0] == 42;
    let anchored = !common && header[0] == 58;
    let pathsrc = if anchored {
        header.drop_first()
    } else {
        header
    };
    if !common {
        lemma_split_acc_nonempty(pathsrc, 58, 0, seq![]);
    }
}

/// Whether some mnemonic in `path` is empty.
pub open spec fn spec_has_empty(path: Seq<Seq<u8>>) -> bool {
    exists|k: int| 0 <= k < path.len() && #[trigger] path[k].len() == 0
}

/// Tokenization of one compound unit. `None` marks a malformed header (an
/// empty unit, an empty mnemonic, or a bare query marker), which dispatch
/// reports as `UndefinedHeader`.
pub open spec fn spec_parse_unit(u: Seq<u8>) -> Option<ParsedUnitS> {
    let t = spec_trim(u);
    if t.len() == 0 {
        None
    } else {
        let hend = match spec_first_from(t, 32, 0) {
            Some(j) => j,
            None => t.len() as int,
        };
        let header0 = t.subrange(0, hend);
        let tail = if hend < t.len() {
            t.subrange(hend + 1, t.len() as int)
        } else {
            seq![]
        };
        let query = header0.len() > 0 && header0[header0.len() - 1] == 63;
        let header = if query {
            header0.drop_last()
        } else {
            header0
        };
        if header.len() == 0 {
            None
        } else {
            let common = header[0] == 42;
            let anchored = !common && header[0] == 58;
            let pathsrc = if anchored {
                header.drop_first()
            } else {
                header
            };
            let path = if common {
                seq![header]
            } else {
                spec_split(pathsrc, 58)
            };
            if !common && spec_has_empty(path) {
                None
            } else {
                Some(ParsedUnitS {
                    anchored,
                    common,
                    path,
                    query,
                    params: spec_params(tail),
                })
            }
        }
    }
}

/// The tokenized units of a whole line: `None` for a blank line, otherwise
/// one entry per `;`-separated unit.
pub open spec fn spec_line_units(line: Seq<u8>) -> Seq<Option<ParsedUnitS>> {
    if spec_trim(line).len() == 0 {
        seq![]
    } else {
        spec_split(line, 59).map_values(|u: Seq<u8>| spec_parse_unit(u))
    }
}

/// The bytes of `s` from `i` (inclusive) to `j` (exclusive).
pub fn copy_range(s: &[u8], i: usize, j: usize) -> (r: Vec<u8>)
    requires
        i <= j && j <= s@.len(),
    ensures
        r@ == s@.subrange(i as int, j as int),
{
    let mut v: Vec<u8> = Vec::new();
    let mut k: usize = i;
    while k < j
        invariant
            i <= k <= j <= s@.len(),
            v@ == s@.subrange(i as int, k as int),
        decreases j - k,
    {
        proof {
            assert(s@.subrange(i as int, k + 1 as int) =~= s@.subrange(i as int, k as int).push(
                s@[k as int],
            ));
        }
        v.push(s[k]);
        k += 1;
    }
    v
}

fn split_go(s: &[u8], sep: u8, i: usize, cur: Vec<u8>, out: &mut Vec<Vec<u8>>)
    requires
        i <= s@.len(),
    ensures
        views(final(out)@) == views(old(out)@) + spec_split_acc(s@, sep, i as int, cur@),
    decreases s@.len() - i,
{
    if i >= s.len() {
        let ghost before = views(out@);
        out.push(cur);
        proof {
            assert(views(out@) =~= before.push(cur@));
            assert(before.push(cur@) =~= before + seq![cur@]);
        }
    } else {
        let c = s[i];
        if c == sep {
            let ghost before = views(out@);
            out.push(cur);
            proof {
                assert(views(out@) =~= before.push(cur@));
            }
            split_go(s, sep, i + 1, Vec::new(), out);
            proof {
                assert(views(out@) =~= before + (seq![cur@] + spec_split_acc(
                    s@,
                    sep,
                    i + 1,
                    seq![],
                )));
            }
        } else {
            let mut cur2 = cur;
            cur2.push(c);
            split_go(s, sep, i + 1, cur2, out);
        }
    }
}

/// The segments of `s` between occurrences of `sep`.
pub fn split(s: &[u8], sep: u8) -> (r: Vec<Vec<u8>>)
    ensures
        views(r@) == spec_split(s@, sep),
{
    let mut out: Vec<Vec<u8>> = Vec::new();
    split_go(s, sep, 0, Vec::new(), &mut out);
    proof {
        assert(views(out@) =~= seq![] + spec_split_acc(s@, sep, 0, seq![]));
    }
    out
}

fn scan_blank_lo(s: &[u8], i: usize) -> (r: usize)
    requires
        i <= s@.len(),
    ensures
        r as int == spec_scan_blank_lo(s@, i as int),
        i <= r <= s@.len(),
    decreases s@.len() - i,
{
    if i < s.len() && is_blank(s[i]) {
        scan_blank_lo(s, i + 1)
    } else {
        i
    }
}

fn scan_blank_hi(s: &[u8], j: usize) -> (r: usize)
    requires
        j <= s@.len(),
    ensures
        r as int == spec_scan_blank_hi(s@, j as int),
        r <= j,
    decreases j,
{
    if j > 0 && is_blank(s[j - 1]) {
        scan_blank_hi(s, j - 1)
    } else {
        j
    }
}

/// `s` with leading and trailing blanks removed.
pub fn trim(s: &[u8]) -> (r: Vec<u8>)
    ensures
        r@ == spec_trim(s@),
{
    let lo = scan_blank_lo(s, 0);
    let hi = scan_blank_hi(s, s.len());
    if lo >= hi {
        Vec::new()
    } else {
        copy_range(s, lo, hi)
    }
}

fn first_from(s: &[u8], sep: u8, i: usize) -> (r: Option<usize>)
    requires
        i <= s@.len(),
    ensures
        match r {
            Some(j) => spec_first_from(s@, sep, i as int) == Some(j as int) && i <= j < s@.len(),
            None => spec_first_from(s@, sep, i as int) is None,
        },
    decreases s@.len() - i,
{
    if i >= s.len() {
        None
    } else if s[i] == sep {
        Some(i)
    } else {
        first_from(s, sep, i + 1)
    }
}

/// A tokenized command unit; its view is the tokenizer's mathematical model
/// of the unit.
#[derive(Debug, PartialEq, Eq)]
pub struct ParsedUnit {
    pub anchored: bool,
    pub common: bool,
    pub path: Vec<Vec<u8>>,
    pub query: bool,
    pub params: Vec<Vec<u8>>,
}

impl View for ParsedUnit {
    type V = ParsedUnitS;

    open spec fn view(&self) -> ParsedUnitS {
        ParsedUnitS {
            anchored: self.anchored,
            common: self.common,
            path: views(self.path@),
            query: self.query,
            params: views(self.params@),
        }
    }
}

fn trim_fields(fields: Vec<Vec<u8>>) -> (r: Vec<Vec<u8>>)
    ensures
        views(r@) == views(fields@).map_values(|f: Seq<u8>| spec_trim(f)),
{
    let mut out: Vec<Vec<u8>> = Vec::new();
    let mut i: usize = 0;
    while i < fields.len()
        invariant
            i <= fields@.len(),
            views(out@) =~= views(fields@).map_values(|f: Seq<u8>| spec_trim(f)).take(i as int),
        decreases fields@.len() - i,
    {
        let ghost before = views(out@);
        let t = trim(fields[i].as_slice());
        out.push(t);
        proof {
            assert(views(out@) =~= before.push(spec_trim(fields@[i as int]@)));
            assert(views(out@) =~= views(fields@).map_values(|f: Seq<u8>| spec_trim(f)).take(
                i + 1 as int,
            ));
        }
        i += 1;
    }
    proof {
        assert(views(fields@).map_values(|f: Seq<u8>| spec_trim(f)).take(fields@.len() as int)
            =~= views(fields@).map_values(|f: Seq<u8>| spec_trim(f)));
    }
    out
}

/// The parameter fields of a unit's tail.
pub fn parse_params(tail: &[u8]) -> (r: Vec<Vec<u8>>)
    ensures
        views(r@) == spec_params(tail@),
{
    let t = trim(tail);
    if t.len() == 0 {
        Vec::new()
    } else {
        let fields = split(t.as_slice(), 44);
        trim_fields(fields)
    }
}

fn has_empty_field(path: &Vec<Vec<u8>>) -> (b: bool)
    ensures
        b == spec_has_empty(views(path@)),
{
    let mut k: usize = 0;
    while k < path.len()
        invariant
            k <= path@.len(),
            forall|m: int| 0 <= m < k ==> #[trigger] views(path@)[m].len() != 0,
        decreases path@.len() - k,
    {
        if path[k].len() == 0 {
            proof {
                assert(views(path@)[k as int].len() == 0);
            }
            return true;
        }
        k += 1;
    }
    false
}

/// Tokenizes one compound unit. A malformed header is rejected as
/// `UndefinedHeader`, exactly when the model rejects it.
pub fn parse_unit(u: &[u8]) -> (r: Result<ParsedUnit, Error>)
    ensures
        match r {
            Ok(p) => spec_parse_unit(u@) == Some(p@),
            Err(e) => spec_parse_unit(u@) is None && e == Error::UndefinedHeader,
        },
{
    let t = trim(u);
    if t.len() == 0 {
        return Err(Error::UndefinedHeader);
    }
    let hend = match first_from(t.as_slice(), 32, 0) {
        Some(j) => j,
        None => t.len(),
    };
    let header0 = copy_range(t.as_slice(), 0, hend);
    let tail = if hend < t.len() {
        copy_range(t.as_slice(), hend + 1, t.len())
    } else {
        Vec::new()
    };
    let query = header0.len() > 0 && header0[header0.len() - 1] == 63;
    let header = if query {
        copy_range(header0.as_slice(), 0, header0.len() - 1)
    } else {
        header0
    };
    proof {
        if query {
            assert(header@ =~= spec_trim(u@).subrange(0, hend as int).drop_last());
        }
    }
    if header.len() == 0 {
        return Err(Error::UndefinedHeader);
    }
    let common = header[0] == 42;
    let anchored = !common && header[0] == 58;
    let ghost hview = header@;
    let path: Vec<Vec<u8>> = if common {
        let mut p: Vec<Vec<u8>> = Vec::new();
        p.push(header);
        proof {
            assert(views(p@) =~= seq![hview]);
        }
        p
    } else {
        let pathsrc = if anchored {
            copy_range(header.as_slice(), 1, header.len())
        } else {
            header
        };
        proof {
            if anchored {
                assert(pathsrc@ =~= hview.drop_first());
            }
        }
        split(pathsrc.as_slice(), 58)
    };
    if !common && has_empty_field(&path) {
        proof {
            let st = spec_trim(u@);
            let shend: int = match spec_first_from(st, 32, 0) {
                Some(j) => j,
                None => st.len() as int,
            };
            let sheader0 = st.subrange(0, shend);
            let squery = sheader0.len() > 0 && sheader0[sheader0.len() - 1] == 63;
            let sheader = if squery {
                sheader0.drop_last()
            } else {
                sheader0
            };
            assert(sheader == hview);
            let spathsrc = if anchored {
                sheader.drop_first()
            } else {
                sheader
            };
            let sp = spec_split(spathsrc, 58);
            assert(sp == views(path@));
            assert(st.len() != 0);
            assert(squery == query);
            assert(sheader.len() != 0);
            assert(common == (sheader[0] == 42));
            assert(anchored == (!common && sheader[0] == 58));
            assert(spec_has_empty(sp));
            assert(spec_parse_unit(u@) is None);
        }
        return Err(Error::UndefinedHeader);
    }
    let params = parse_params(tail.as_slice());
    let p = ParsedUnit { anchored, common, path, query, params };
    proof {
        let su = spec_parse_unit(u@);
        assert(su is Some);
        assert(p@.path == su->0.path);
        assert(p@.params == su->0.params);
        assert(su == Some(p@));
    }
    Ok(p)
}

} // verus!
