//! Character-sequence helpers shared by the records parser and the resolver.
use vstd::prelude::*;

verus! {

/// `s` ends with `suffix`.
pub open spec fn ends_with(s: Seq<char>, suffix: Seq<char>) -> bool {
    suffix.len() <= s.len() && s.subrange(s.len() - suffix.len(), s.len() as int) == suffix
}

/// Splits `s` at every occurrence of `sep`; always yields at least one part.
pub open spec fn split_on<A>(s: Seq<A>, sep: A) -> Seq<Seq<A>>
    decreases s.len(),
{
    if s.len() == 0 {
        seq![Seq::<A>::empty()]
    } else {
        let init = split_on(s.drop_last(), sep);
        if s.last() == sep {
            init.push(Seq::<A>::empty())
        } else {
            init.update(init.len() - 1, init.last().push(s.last()))
        }
    }
}

/// Index of the first `sep` in `s`, or `s.len()` when there is none.
pub open spec fn first_index_of<A>(s: Seq<A>, sep: A) -> int
    decreases s.len(),
{
    if s.len() == 0 {
        0
    } else if s[0] == sep {
        0
    } else {
        1 + first_index_of(s.drop_first(), sep)
    }
}

pub proof fn lemma_first_index_of<A>(s: Seq<A>, sep: A)
    ensures
        0 <= first_index_of(s, sep) <= s.len(),
        forall|k: int| 0 <= k < first_index_of(s, sep) ==> s[k] != sep,
        first_index_of(s, sep) < s.len() ==> s[first_index_of(s, sep)] == sep,
    decreases s.len(),
{
    if s.len() > 0 && s[0] != sep {
        lemma_first_index_of(s.drop_first(), sep);
        assert forall|k: int| 0 <= k < first_index_of(s, sep) implies s[k] != sep by {
            if k > 0 {
                assert(s[k] == s.drop_first()[k - 1]);
            }
        }
    }
}

/// Any index with the two properties of the first `sep` is that index.
pub proof fn lemma_first_index_of_unique<A>(s: Seq<A>, sep: A, i: int)
    requires
        0 <= i <= s.len(),
        forall|k: int| 0 <= k < i ==> s[k] != sep,
        i < s.len() ==> s[i] == sep,
    ensures
        first_index_of(s, sep) == i,
    decreases s.len(),
{
    if s.len() > 0 && i > 0 {
        assert forall|k: int| 0 <= k < i - 1 implies s.drop_first()[k] != sep by {
            assert(s.drop_first()[k] == s[k + 1]);
        }
        lemma_first_index_of_unique(s.drop_first(), sep, i - 1);
    }
}

/// The characters of `s`, in order.
pub fn chars_of(s: &str) -> (r: Vec<char>)
    ensures
        r@ == s@,
{
    let mut out: Vec<char> = Vec::new();
    for c in it: s.chars()
        invariant
            it.seq() == s@,
            out@ == it.seq().take(it.index() as int),
    {
        out.push(c);
    }
    out
}

/// Relies on `String::push`: appends one character.
#[verifier::external_body]
fn push_char(s: &mut String, c: char)
    ensures
        final(s)@ == old(s)@.push(c),
{
    s.push(c)
}

/// A string holding `cs`.
pub fn string_from_chars(cs: &[char]) -> (r: String)
    ensures
        r@ == cs@,
{
    let mut s = String::new();
    let mut i: usize = 0;
    while i < cs.len()
        invariant
            i <= cs@.len(),
            s@ == cs@.take(i as int),
        decreases cs@.len() - i,
    {
        push_char(&mut s, cs[i]);
        i += 1;
        assert(s@ =~= cs@.take(i as int));
    }
    assert(s@ =~= cs@);
    s
}

} // verus!

verus! {

/// Whether `s` ends with `suffix`.
pub fn slice_ends_with(s: &[char], suffix: &[char]) -> (r: bool)
    ensures
        r == ends_with(s@, suffix@),
{
    if suffix.len() > s.len() {
        return false;
    }
    let off = s.len() - suffix.len();
    let mut i: usize = 0;
    while i < suffix.len()
        invariant
            suffix@.len() <= s@.len(),
            off == s@.len() - suffix@.len(),
            s@.len() == s.len(),
            i <= suffix@.len(),
            forall|j: int| 0 <= j < i ==> s@[off + j] == suffix@[j],
        decreases suffix@.len() - i,
    {
        assert(off + i < s.len());
        if s[off + i] != suffix[i] {
            proof {
                assert(s@.subrange(off as int, s@.len() as int)[i as int] != suffix@[i as int]);
            }
            return false;
        }
        i += 1;
    }
    assert(s@.subrange(off as int, s@.len() as int) =~= suffix@);
    true
}

/// Whether two character slices are equal.
pub fn slice_eq(a: &[char], b: &[char]) -> (r: bool)
    ensures
        r == (a@ == b@),
{
    if a.len() != b.len() {
        return false;
    }
    let mut i: usize = 0;
    while i < a.len()
        invariant
            a@.len() == b@.len(),
            i <= a@.len(),
            forall|j: int| 0 <= j < i ==> a@[j] == b@[j],
        decreases a@.len() - i,
    {
        if a[i] != b[i] {
            return false;
        }
        i += 1;
    }
    assert(a@ =~= b@);
    true
}

} // verus!

verus! {

/// Index of the first `c` in `cs`, or `cs.len()` when there is none.
pub fn index_of_char(cs: &[char], c: char) -> (r: usize)
    ensures
        r == first_index_of(cs@, c),
{
    proof {
        lemma_first_index_of(cs@, c);
    }
    let mut i: usize = 0;
    while i < cs.len()
        invariant
            i <= cs@.len(),
            forall|k: int| 0 <= k < i ==> cs@[k] != c,
        decreases cs@.len() - i,
    {
        if cs[i] == c {
            proof {
                lemma_first_index_of_unique(cs@, c, i as int);
            }
            return i;
        }
        i += 1;
    }
    proof {
        lemma_first_index_of_unique(cs@, c, i as int);
    }
    i
}

/// The characters of `cs` from `from` up to `to`.
pub fn sub_chars(cs: &[char], from: usize, to: usize) -> (r: Vec<char>)
    requires
        from <= to <= cs@.len(),
    ensures
        r@ == cs@.subrange(from as int, to as int),
{
    let mut out: Vec<char> = Vec::new();
    let mut i: usize = from;
    while i < to
        invariant
            from <= i <= to <= cs@.len(),
            out@ == cs@.subrange(from as int, i as int),
        decreases to - i,
    {
        out.push(cs[i]);
        i += 1;
        assert(out@ =~= cs@.subrange(from as int, i as int));
    }
    out
}

} // verus!
