use crate::text::push_char;
use vstd::prelude::*;

verus! {

/// `s` with each occurrence of `c` doubled.
pub open spec fn doubled(s: Seq<char>, c: char) -> Seq<char>
    decreases s.len(),
{
    if s.len() == 0 {
        s
    } else if s.last() == c {
        doubled(s.drop_last(), c).push(c).push(c)
    } else {
        doubled(s.drop_last(), c).push(s.last())
    }
}

/// An SQL identifier between double quotes, each double quote within it doubled.
pub open spec fn quoted_identifier(name: Seq<char>) -> Seq<char> {
    seq!['"'] + doubled(name, '"') + seq!['"']
}

/// Appends `s` to `out` with each occurrence of `c` doubled.
pub fn push_doubled(out: &mut String, s: &str, c: char)
    ensures
        final(out)@ == old(out)@ + doubled(s@, c),
{
    let ghost start = out@;
    assert(out@ =~= start + doubled(s@.take(0), c));
    for x in it: s.chars()
        invariant
            it.seq() == s@,
            out@ == start + doubled(s@.take(it.index() as int), c),
    {
        let ghost k = it.index() as int;
        assert(s@.take(k + 1).drop_last() =~= s@.take(k));
        assert(s@.take(k + 1).last() == x);
        push_char(out, x);
        if x == c {
            push_char(out, x);
        }
        assert(out@ =~= start + doubled(s@.take(k + 1), c));
    }
    assert(s@.take(s@.len() as int) =~= s@);
}

/// Quotes an identifier for SQL.
pub fn qi(name: &str) -> (out: String)
    ensures
        out@ == quoted_identifier(name@),
{
    let mut out = String::new();
    push_char(&mut out, '"');
    push_doubled(&mut out, name, '"');
    push_char(&mut out, '"');
    assert(out@ =~= quoted_identifier(name@));
    out
}

} // verus!
