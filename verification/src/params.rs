//! The parameter source: a forward-only, restartable-only-once view over
//! the comma-separated parameter fields of one handler invocation, with
//! typed extraction.

use vstd::prelude::*;
use crate::ascii::views;
use crate::error::Error;

verus! {

/// Whether `c` is an ASCII decimal digit.
pub open spec fn spec_is_digit(c: u8) -> bool {
    48 <= c && c <= 57
}

/// Whether every byte of `s` is a decimal digit.
pub open spec fn spec_all_digits(s: Seq<u8>) -> bool {
    forall|i: int| 0 <= i < s.len() ==> spec_is_digit(#[trigger] s[i])
}

/// The value of the decimal numeral `s`.
pub open spec fn spec_dec_value(s: Seq<u8>) -> int
    decreases s.len(),
{
    if s.len() == 0 {
        0
    } else {
        spec_dec_value(s.drop_last()) * 10 + (s.last() - 48)
    }
}

/// A longer prefix of a decimal numeral never has a smaller value.
proof fn lemma_dec_value_prefix(s: Seq<u8>, i: int)
    requires
        0 <= i <= s.len(),
        spec_all_digits(s),
    ensures
        spec_dec_value(s) >= spec_dec_value(s.take(i)),
    decreases s.len() - i,
{
    if i < s.len() {
        lemma_dec_value_prefix(s, i + 1);
        assert(s.take(i + 1).drop_last() =~= s.take(i));
        assert(s.take(i + 1).last() == s[i]);
        assert(spec_dec_value(s.take(i + 1)) == spec_dec_value(s.take(i)) * 10 + (s[i] - 48));
        assert(spec_dec_value(s.take(i)) * 10 >= spec_dec_value(s.take(i))) by {
            lemma_dec_value_nonneg(s.take(i));
        }
    } else {
        assert(s.take(i) =~= s);
    }
}

/// The value of a numeral is never negative.
proof fn lemma_dec_value_nonneg(s: Seq<u8>)
    requires
        spec_all_digits(s),
    ensures
        spec_dec_value(s) >= 0,
    decreases s.len(),
{
    if s.len() > 0 {
        assert(spec_all_digits(s.drop_last()));
        lemma_dec_value_nonneg(s.drop_last());
    }
}

/// Parses `s` as an unsigned decimal numeral. The parse succeeds exactly
/// when `s` is non-empty, all digits, and its value fits in 32 bits; any
/// other field is a parameter error.
pub fn parse_dec_u32(s: &Vec<u8>) -> (r: Result<u32, Error>)
    ensures
        match r {
            Ok(v) => s@.len() > 0 && spec_all_digits(s@) && spec_dec_value(s@) == v as int,
            Err(e) => (s@.len() == 0 || !spec_all_digits(s@) || spec_dec_value(s@) > u32::MAX)
                && e == Error::ParameterError,
        },
{
    if s.len() == 0 {
        return Err(Error::ParameterError);
    }
    let mut acc: u64 = 0;
    let mut i: usize = 0;
    while i < s.len()
        invariant
            i <= s@.len(),
            spec_all_digits(s@.take(i as int)),
            acc as int == spec_dec_value(s@.take(i as int)),
            acc <= u32::MAX,
        decreases s@.len() - i,
    {
        let c = s[i];
        if c < 48 || c > 57 {
            proof {
                assert(!spec_is_digit(s@[i as int]));
            }
            return Err(Error::ParameterError);
        }
        let d: u64 = (c - 48) as u64;
        let next: u64 = acc * 10 + d;
        proof {
            assert(s@.take(i + 1).drop_last() =~= s@.take(i as int));
            assert(s@.take(i + 1).last() == s@[i as int]);
        }
        if next > 0xFFFF_FFFF {
            proof {
                assert(spec_all_digits(s@.take(i + 1)));
                assert(spec_dec_value(s@.take(i + 1)) == next as int);
                if spec_all_digits(s@) {
                    lemma_dec_value_prefix(s@, i + 1);
                    assert(spec_dec_value(s@) > u32::MAX);
                }
            }
            return Err(Error::ParameterError);
        }
        acc = next;
        i += 1;
    }
    proof {
        assert(s@.take(s@.len() as int) =~= s@);
    }
    Ok(acc as u32)
}

/// The parameter source handed to one handler invocation. Its model is the
/// sequence of raw fields, the cursor, and whether the one allowed restart
/// was spent.
pub struct Parameters {
    pub fields: Vec<Vec<u8>>,
    pub pos: usize,
    pub restarted: bool,
}

impl Parameters {
    /// The raw fields, as the model sees them.
    pub open spec fn fields_view(&self) -> Seq<Seq<u8>> {
        views(self.fields@)
    }

    /// The cursor never runs past the end.
    pub open spec fn wf(&self) -> bool {
        self.pos <= self.fields@.len()
    }

    pub fn new(fields: Vec<Vec<u8>>) -> (r: Parameters)
        ensures
            r.fields_view() == views(fields@),
            r.pos == 0,
            r.restarted == false,
            r.wf(),
    {
        Parameters { fields, pos: 0, restarted: false }
    }

    /// How many fields remain ahead of the cursor.
    pub fn remaining(&self) -> (r: usize)
        requires
            self.wf(),
        ensures
            r as int == self.fields_view().len() - self.pos,
    {
        self.fields.len() - self.pos
    }

    /// The next raw field, advancing the cursor; `None` once exhausted.
    pub fn next_raw(&mut self) -> (r: Option<Vec<u8>>)
        requires
            old(self).wf(),
        ensures
            final(self).wf(),
            final(self).fields_view() == old(self).fields_view(),
            final(self).restarted == old(self).restarted,
            match r {
                Some(v) => old(self).pos < old(self).fields_view().len() && v@ == old(
                    self,
                ).fields_view()[old(self).pos as int] && final(self).pos == old(self).pos + 1,
                None => old(self).pos == old(self).fields_view().len() && final(self).pos == old(
                    self,
                ).pos,
            },
    {
        if self.pos < self.fields.len() {
            let v = copy_bytes(&self.fields[self.pos]);
            self.pos = self.pos + 1;
            Some(v)
        } else {
            None
        }
    }

    /// The next field parsed as an unsigned 32-bit decimal; a missing or
    /// malformed field is a parameter error.
    pub fn next_u32(&mut self) -> (r: Result<u32, Error>)
        requires
            old(self).wf(),
        ensures
            final(self).wf(),
            final(self).fields_view() == old(self).fields_view(),
            final(self).restarted == old(self).restarted,
            match r {
                Ok(v) => {
                    &&& old(self).pos < old(self).fields_view().len()
                    &&& final(self).pos == old(self).pos + 1
                    &&& {
                        let f = old(self).fields_view()[old(self).pos as int];
                        f.len() > 0 && spec_all_digits(f) && spec_dec_value(f) == v as int
                    }
                },
                Err(e) => e == Error::ParameterError && (
                (old(self).pos == old(self).fields_view().len() && final(self).pos == old(
                    self,
                ).pos) || (old(self).pos < old(self).fields_view().len() && final(self).pos == old(
                    self,
                ).pos + 1 && {
                    let f = old(self).fields_view()[old(self).pos as int];
                    f.len() == 0 || !spec_all_digits(f) || spec_dec_value(f) > u32::MAX
                })),
            },
    {
        match self.next_raw() {
            None => Err(Error::ParameterError),
            Some(v) => parse_dec_u32(&v),
        }
    }

    /// Rewinds the cursor to the first field. The source is restartable
    /// only once: a second restart is refused and changes nothing.
    pub fn restart(&mut self) -> (ok: bool)
        requires
            old(self).wf(),
        ensures
            final(self).wf(),
            final(self).fields_view() == old(self).fields_view(),
            ok == !old(self).restarted,
            if ok {
                final(self).pos == 0 && final(self).restarted
            } else {
                *final(self) == *old(self)
            },
    {
        if self.restarted {
            false
        } else {
            self.pos = 0;
            self.restarted = true;
            true
        }
    }
}

/// A copy of a byte vector.
pub fn copy_bytes(v: &Vec<u8>) -> (r: Vec<u8>)
    ensures
        r@ == v@,
{
    let mut out: Vec<u8> = Vec::new();
    let mut i: usize = 0;
    while i < v.len()
        invariant
            i <= v@.len(),
            out@ == v@.take(i as int),
        decreases v@.len() - i,
    {
        proof {
            assert(v@.take(i + 1) =~= v@.take(i as int).push(v@[i as int]));
        }
        out.push(v[i]);
        i += 1;
    }
    proof {
        assert(v@.take(v@.len() as int) =~= v@);
    }
    out
}

} // verus!
