//! The response sink: an ordered, append-only accumulator of response
//! fields written by query handlers, serialized once the unit completes.

use vstd::prelude::*;
use crate::ascii::views;

verus! {

/// The decimal numeral of `n`, most significant digit first.
pub open spec fn spec_dec_digits(n: int) -> Seq<u8>
    decreases n,
{
    if n < 10 {
        seq![(48 + if n >= 0 { n } else { 0 }) as u8]
    } else {
        spec_dec_digits(n / 10).push((48 + n % 10) as u8)
    }
}

/// The pieces from index `i` on, joined by the separator `sep`.
pub open spec fn spec_join_sep(fs: Seq<Seq<u8>>, sep: u8, i: int) -> Seq<u8>
    decreases fs.len() - i,
{
    if i < 0 || i >= fs.len() {
        seq![]
    } else if i == fs.len() - 1 {
        fs[i]
    } else {
        fs[i] + seq![sep] + spec_join_sep(fs, sep, i + 1)
    }
}

/// The serialized form of response fields: the fields in write order,
/// separated by commas.
pub open spec fn spec_join_fields(fs: Seq<Seq<u8>>, i: int) -> Seq<u8> {
    spec_join_sep(fs, 44, i)
}

/// Joining one more piece appends it, behind a separator once the join is
/// non-empty.
pub proof fn lemma_join_sep_push(fs: Seq<Seq<u8>>, sep: u8, d: Seq<u8>, i: int)
    requires
        0 <= i <= fs.len(),
    ensures
        spec_join_sep(fs.push(d), sep, i) == if i == fs.len() {
            d
        } else {
            spec_join_sep(fs, sep, i) + seq![sep] + d
        },
    decreases fs.len() - i,
{
    let pp = fs.push(d);
    if i == fs.len() {
        assert(pp[i] == d);
    } else {
        assert(pp[i] == fs[i]);
        lemma_join_sep_push(fs, sep, d, i + 1);
        if i == fs.len() - 1 {
            assert(spec_join_sep(pp, sep, i) == pp[i] + seq![sep] + spec_join_sep(pp, sep, i + 1));
            assert(spec_join_sep(fs, sep, i) == fs[i]);
        } else {
            assert(spec_join_sep(pp, sep, i) == pp[i] + seq![sep] + spec_join_sep(pp, sep, i + 1));
            assert(fs[i] + seq![sep] + (spec_join_sep(fs, sep, i + 1) + seq![sep] + d) =~= (fs[i]
                + seq![sep] + spec_join_sep(fs, sep, i + 1)) + seq![sep] + d);
        }
    }
}

/// The response sink of one compound unit.
pub struct ResponseUnit {
    pub fields: Vec<Vec<u8>>,
}

fn push_dec_digits(buf: &mut Vec<u8>, n: u32)
    ensures
        final(buf)@ == old(buf)@ + spec_dec_digits(n as int),
    decreases n,
{
    if n < 10 {
        buf.push(48 + n as u8);
        proof {
            assert(buf@ =~= old(buf)@ + spec_dec_digits(n as int));
        }
    } else {
        push_dec_digits(buf, n / 10);
        buf.push(48 + (n % 10) as u8);
        proof {
            assert(buf@ =~= old(buf)@ + spec_dec_digits(n as int));
        }
    }
}

impl ResponseUnit {
    /// The fields written so far, as the model sees them.
    pub open spec fn fields_view(&self) -> Seq<Seq<u8>> {
        views(self.fields@)
    }

    pub fn new() -> (r: ResponseUnit)
        ensures
            r.fields_view() == Seq::<Seq<u8>>::empty(),
    {
        let r = ResponseUnit { fields: Vec::new() };
        proof {
            assert(r.fields_view() =~= Seq::<Seq<u8>>::empty());
        }
        r
    }

    /// How many fields were written.
    pub fn count(&self) -> (r: usize)
        ensures
            r as int == self.fields_view().len(),
    {
        self.fields.len()
    }

    /// Appends a raw byte field.
    pub fn push_bytes(&mut self, v: Vec<u8>)
        ensures
            final(self).fields_view() == old(self).fields_view().push(v@),
    {
        let ghost vv = v@;
        self.fields.push(v);
        proof {
            assert(self.fields_view() =~= old(self).fields_view().push(vv));
        }
    }

    /// Appends an unsigned 32-bit value as its decimal numeral.
    pub fn push_u32(&mut self, n: u32)
        ensures
            final(self).fields_view() == old(self).fields_view().push(
                spec_dec_digits(n as int),
            ),
    {
        let mut buf: Vec<u8> = Vec::new();
        push_dec_digits(&mut buf, n);
        proof {
            assert(buf@ =~= spec_dec_digits(n as int));
        }
        self.push_bytes(buf);
    }

    /// The serialized response: the fields in write order, separated by
    /// commas.
    pub fn serialize(&self) -> (r: Vec<u8>)
        ensures
            r@ == spec_join_fields(self.fields_view(), 0),
    {
        let mut out: Vec<u8> = Vec::new();
        self.serialize_from(0, &mut out);
        proof {
            assert(out@ =~= seq![] + spec_join_fields(self.fields_view(), 0));
        }
        out
    }

    fn serialize_from(&self, i: usize, out: &mut Vec<u8>)
        requires
            i <= self.fields@.len(),
        ensures
            final(out)@ == old(out)@ + spec_join_fields(self.fields_view(), i as int),
        decreases self.fields@.len() - i,
    {
        if i >= self.fields.len() {
            proof {
                assert(out@ =~= old(out)@ + spec_join_fields(self.fields_view(), i as int));
            }
        } else {
            let ghost before = out@;
            append_bytes(out, &self.fields[i]);
            if i + 1 < self.fields.len() {
                out.push(44);
                self.serialize_from(i + 1, out);
                proof {
                    assert(out@ =~= before + spec_join_fields(self.fields_view(), i as int));
                }
            } else {
                proof {
                    assert(out@ =~= before + spec_join_fields(self.fields_view(), i as int));
                }
            }
        }
    }
}

/// Appends the bytes of `v` to `out`.
pub fn append_bytes(out: &mut Vec<u8>, v: &Vec<u8>)
    ensures
        final(out)@ == old(out)@ + v@,
{
    let mut i: usize = 0;
    while i < v.len()
        invariant
            i <= v@.len(),
            out@ == old(out)@ + v@.take(i as int),
        decreases v@.len() - i,
    {
        proof {
            assert(old(out)@ + v@.take(i + 1) =~= (old(out)@ + v@.take(i as int)).push(
                v@[i as int],
            ));
        }
        out.push(v[i]);
        i += 1;
    }
    proof {
        assert(old(out)@ + v@.take(v@.len() as int) =~= old(out)@ + v@);
    }
}

} // verus!
