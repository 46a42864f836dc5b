//! IPv4 addresses and their dotted-decimal text form.
use vstd::prelude::*;
use crate::text::split_on;

verus! {

/// An IPv4 address, as its four octets in network order.
#[derive(Clone, Copy, Debug, PartialEq, Eq, Structural, Hash)]
pub struct Ipv4Addr {
    pub a: u8,
    pub b: u8,
    pub c: u8,
    pub d: u8,
}

pub open spec fn localhost_spec() -> Ipv4Addr {
    Ipv4Addr { a: 127, b: 0, c: 0, d: 1 }
}

pub open spec fn is_digit(c: char) -> bool {
    '0' <= c && c <= '9'
}

pub open spec fn digit_value(c: char) -> int {
    (c as int) - ('0' as int)
}

/// The number that the decimal digits `s` spell.
pub open spec fn decimal_value(s: Seq<char>) -> int
    decreases s.len(),
{
    if s.len() == 0 {
        0
    } else {
        decimal_value(s.drop_last()) * 10 + digit_value(s.last())
    }
}

/// One to three digits, no leading zero, at most 255.
pub open spec fn valid_octet(s: Seq<char>) -> bool {
    &&& 1 <= s.len() <= 3
    &&& forall|j: int| 0 <= j < s.len() ==> is_digit(#[trigger] s[j])
    &&& (s.len() > 1 ==> s[0] != '0')
    &&& decimal_value(s) <= 255
}

/// The address that `s` spells in dotted-decimal form: four valid octets
/// separated by dots, nothing else.
pub open spec fn parse_ipv4_spec(s: Seq<char>) -> Option<Ipv4Addr> {
    let parts = split_on(s, '.');
    if parts.len() == 4 && forall|k: int| 0 <= k < 4 ==> valid_octet(#[trigger] parts[k]) {
        Some(
            Ipv4Addr {
                a: decimal_value(parts[0]) as u8,
                b: decimal_value(parts[1]) as u8,
                c: decimal_value(parts[2]) as u8,
                d: decimal_value(parts[3]) as u8,
            },
        )
    } else {
        None
    }
}

proof fn lemma_decimal_bound(s: Seq<char>)
    requires
        forall|j: int| 0 <= j < s.len() ==> is_digit(#[trigger] s[j]),
    ensures
        0 <= decimal_value(s),
        s.len() == 0 ==> decimal_value(s) == 0,
        s.len() <= 1 ==> decimal_value(s) <= 9,
        s.len() <= 2 ==> decimal_value(s) <= 99,
        s.len() <= 3 ==> decimal_value(s) <= 999,
    decreases s.len(),
{
    if s.len() > 0 {
        lemma_decimal_bound(s.drop_last());
        assert(is_digit(s[s.len() - 1]));
    }
}

impl Ipv4Addr {
    pub fn new(a: u8, b: u8, c: u8, d: u8) -> (r: Ipv4Addr)
        ensures
            r == (Ipv4Addr { a, b, c, d }),
    {
        Ipv4Addr { a, b, c, d }
    }

    /// The loopback address 127.0.0.1.
    pub fn localhost() -> (r: Ipv4Addr)
        ensures
            r == localhost_spec(),
    {
        Ipv4Addr { a: 127, b: 0, c: 0, d: 1 }
    }

    pub fn octets(&self) -> (r: [u8; 4])
        ensures
            r@ == seq![self.a, self.b, self.c, self.d],
    {
        let r = [self.a, self.b, self.c, self.d];
        assert(r@ =~= seq![self.a, self.b, self.c, self.d]);
        r
    }

    /// Reads a dotted-decimal address such as `192.168.0.1`.
    pub fn parse(s: &str) -> (r: Option<Ipv4Addr>)
        ensures
            r == parse_ipv4_spec(s@),
    {
        let cs = crate::text::chars_of(s);
        Self::parse_chars(cs.as_slice())
    }

    /// Reads a dotted-decimal address given as characters.
    pub fn parse_chars(cs: &[char]) -> (r: Option<Ipv4Addr>)
        ensures
            r == parse_ipv4_spec(cs@),
    {
        let ghost sq = cs@;
        let mut vals: Vec<u8> = Vec::new();
        let mut ok = true;
        let mut dots: usize = 0;
        let mut cur_digits = true;
        let mut cur_len: usize = 0;
        let mut cur_first = ' ';
        let mut cur_val: u32 = 0;
        let mut i: usize = 0;
        proof {
            assert(sq.take(0) =~= Seq::<char>::empty());
        }
        while i < cs.len()
            invariant
                sq == cs@,
                i <= sq.len(),
                dots <= i,
                cur_len <= i,
                ({
                    let p = split_on(sq.take(i as int), '.');
                    &&& p.len() == dots + 1
                    &&& ok == (forall|k: int| 0 <= k < p.len() - 1 ==> valid_octet(#[trigger] p[k]))
                    &&& ok ==> vals@.len() == dots
                    &&& ok ==> forall|k: int| 0 <= k < dots ==> #[trigger] vals@[k] == decimal_value(p[k])
                    &&& cur_digits == (forall|j: int| 0 <= j < p.last().len() ==> is_digit(#[trigger] p.last()[j]))
                    &&& cur_len == p.last().len()
                    &&& (cur_len >= 1 ==> cur_first == p.last()[0])
                    &&& (cur_digits && cur_len <= 3 ==> cur_val == decimal_value(p.last()))
                }),
            decreases sq.len() - i,
        {
            let c = cs[i];
            let ghost p = split_on(sq.take(i as int), '.');
            proof {
                assert(sq.take(i + 1).drop_last() =~= sq.take(i as int));
                assert(sq.take(i + 1).last() == c);
            }
            if c == '.' {
                let valid = cur_digits && 1 <= cur_len && cur_len <= 3 && !(cur_len > 1
                    && cur_first == '0') && cur_val <= 255;
                proof {
                    let np = split_on(sq.take(i + 1), '.');
                    assert(np == p.push(Seq::<char>::empty()));
                    if cur_digits && cur_len <= 3 {
                        lemma_decimal_bound(p.last());
                    }
                    assert(valid == valid_octet(p.last()));
                    assert forall|k: int| 0 <= k < p.len() implies #[trigger] np[k] == p[k] by {}
                }
                let ghost ok_before = ok;
                if ok && valid {
                    vals.push(cur_val as u8);
                }
                ok = ok && valid;
                dots += 1;
                cur_digits = true;
                cur_len = 0;
                cur_val = 0;
                proof {
                    let np = split_on(sq.take(i + 1), '.');
                    assert(np.len() - 1 == p.len());
                    if ok {
                        assert forall|k: int| 0 <= k < np.len() - 1 implies valid_octet(#[trigger] np[k]) by {
                            assert(np[k] == p[k]);
                            if k < p.len() - 1 {
                                assert(valid_octet(p[k]));
                            }
                        }
                    } else if ok_before {
                        assert(np[p.len() - 1] == p.last());
                        assert(!valid_octet(np[p.len() - 1]));
                    } else {
                        let k = choose|k: int| 0 <= k < p.len() - 1 && !valid_octet(#[trigger] p[k]);
                        assert(np[k] == p[k]);
                    }
                }
            } else {
                let d = c >= '0' && c <= '9';
                proof {
                    let np = split_on(sq.take(i + 1), '.');
                    assert(np == p.update(p.len() - 1, p.last().push(c)));
                    assert(np.last() == p.last().push(c));
                    assert(np.last().drop_last() =~= p.last());
                    if cur_len >= 1 {
                        assert(np.last()[0] == p.last()[0]);
                    }
                    assert forall|k: int| 0 <= k < np.len() - 1 implies np[k] == p[k] by {}
                    if cur_digits && cur_len <= 3 {
                        lemma_decimal_bound(p.last());
                    }
                    if cur_digits && d {
                        assert forall|j: int| 0 <= j < np.last().len() implies is_digit(#[trigger] np.last()[j]) by {
                            if j < p.last().len() {
                                assert(np.last()[j] == p.last()[j]);
                            }
                        }
                    }
                    if !d {
                        assert(!is_digit(np.last()[np.last().len() - 1]));
                    }
                    if !cur_digits {
                        let j = choose|j: int| 0 <= j < p.last().len() && !is_digit(#[trigger] p.last()[j]);
                        assert(np.last()[j] == p.last()[j]);
                    }
                }
                if cur_len == 0 {
                    cur_first = c;
                }
                if cur_digits && d && cur_len < 3 {
                    cur_val = cur_val * 10 + (c as u32 - '0' as u32);
                }
                cur_digits = cur_digits && d;
                cur_len += 1;
            }
            i += 1;
        }
        proof {
            assert(sq.take(i as int) =~= sq);
        }
        let p = Ghost(split_on(sq, '.'));
        if ok && dots == 3 && cur_digits && 1 <= cur_len && cur_len <= 3 && !(cur_len > 1
            && cur_first == '0') && cur_val <= 255 {
            proof {
                assert(valid_octet(p@[3]));
                assert forall|k: int| 0 <= k < 4 implies valid_octet(#[trigger] p@[k]) by {
                    if k < 3 {
                        assert(valid_octet(p@[k]));
                    }
                }
            }
            Some(Ipv4Addr { a: vals[0], b: vals[1], c: vals[2], d: cur_val as u8 })
        } else {
            proof {
                if p@.len() == 4 && forall|k: int| 0 <= k < 4 ==> valid_octet(#[trigger] p@[k]) {
                    assert(valid_octet(p@[3]));
                    assert(forall|k: int| 0 <= k < p@.len() - 1 ==> valid_octet(#[trigger] p@[k]));
                    lemma_decimal_bound(p@[3]);
                }
            }
            None
        }
    }
}

} // verus!
