use vstd::prelude::*;

use crate::record::{record_of, Pkg, PkgError, PkgView};
use crate::text::{chars_of, split, split_chars, string_of};

verus! {

/// The views of a sequence of packages.
pub open spec fn views_of(v: Seq<Pkg>) -> Seq<PkgView> {
    Seq::new(v.len(), |i: int| v[i]@)
}

/// The records of a sequence of paragraphs, in order, empty paragraphs
/// dropped; the first malformed paragraph when there is one.
pub open spec fn records_of(ps: Seq<Seq<char>>) -> Result<Seq<PkgView>, Seq<char>>
    decreases ps.len(),
{
    if ps.len() == 0 {
        Ok(Seq::empty())
    } else {
        match records_of(ps.drop_last()) {
            Err(t) => Err(t),
            Ok(rs) => {
                let t = ps.last();
                if t.len() == 0 {
                    Ok(rs)
                } else {
                    match record_of(t) {
                        None => Err(t),
                        Some(r) => Ok(rs.push(r)),
                    }
                }
            },
        }
    }
}

/// The records of a whole index: paragraphs are separated by a blank line.
pub open spec fn index_of(text: Seq<char>) -> Result<Seq<PkgView>, Seq<char>> {
    records_of(split(text, seq!['\n', '\n']))
}

proof fn lemma_records_err_stays(ps: Seq<Seq<char>>, i: int)
    requires
        0 <= i <= ps.len(),
        records_of(ps.take(i)) is Err,
    ensures
        records_of(ps) == records_of(ps.take(i)),
    decreases ps.len() - i,
{
    if i < ps.len() {
        assert(ps.take(i + 1).drop_last() =~= ps.take(i));
        lemma_records_err_stays(ps, i + 1);
    } else {
        assert(ps.take(i) =~= ps);
    }
}

/// Parses a whole package index into its records, in the order of the text.
pub fn parse_index(text: &str) -> (r: Result<Vec<Pkg>, PkgError>)
    ensures
        match r {
            Ok(v) => index_of(text@) == Ok::<Seq<PkgView>, Seq<char>>(views_of(v@)),
            Err(e) => match e {
                PkgError::Malformed(t) => index_of(text@) == Err::<Seq<PkgView>, Seq<char>>(t@),
                _ => false,
            },
        },
{
    let chars = chars_of(text);
    let sep = vec!['\n', '\n'];
    assert(sep@ =~= seq!['\n', '\n']);
    let paragraphs = split_chars(&chars, &sep);
    let ghost ps = paragraphs@.map_values(|p: Vec<char>| p@);
    let mut out: Vec<Pkg> = Vec::new();
    let mut i: usize = 0;
    assert(ps.take(0) =~= Seq::<Seq<char>>::empty());
    assert(views_of(out@) =~= Seq::<PkgView>::empty());
    while i < paragraphs.len()
        invariant
            i <= paragraphs@.len(),
            ps == paragraphs@.map_values(|p: Vec<char>| p@),
            ps == split(text@, seq!['\n', '\n']),
            records_of(ps.take(i as int)) == Ok::<Seq<PkgView>, Seq<char>>(views_of(out@)),
        decreases paragraphs@.len() - i,
    {
        let par = &paragraphs[i];
        let s = string_of(par, 0, par.len());
        assert(par@.subrange(0, par@.len() as int) =~= par@);
        assert(ps.take(i + 1).drop_last() =~= ps.take(i as int));
        assert(ps[i as int] == par@);
        match Pkg::new(s.as_str()) {
            Ok(None) => {},
            Ok(Some(p)) => {
                let ghost before = views_of(out@);
                out.push(p);
                assert(views_of(out@) =~= before.push(p@));
            },
            Err(e) => {
                proof { lemma_records_err_stays(ps, i + 1); }
                return Err(e);
            },
        }
        i += 1;
    }
    assert(ps.take(i as int) =~= ps);
    Ok(out)
}

} // verus!
