//! The exclusion-file line grammar.
//!
//! A line is either a bare dotted-quad IPv4 address (`10.0.0.1`) or a CIDR
//! form `a.b.c.d/8`, `a.b.c.d/16` or `a.b.c.d/24`.  Octets are written in
//! decimal without leading zeros.  Anything else is malformed.

use vstd::prelude::*;

use crate::addr::Addr;

verus! {

/// `b` is an ASCII decimal digit (`'0'` is 48, `'9'` is 57).
pub open spec fn is_digit(b: u8) -> bool {
    48 <= b <= 57
}

pub open spec fn digit_val(b: u8) -> int {
    b - 48
}

pub open spec fn all_digits(s: Seq<u8>) -> bool {
    forall|i: int| 0 <= i < s.len() ==> is_digit(s[i])
}

/// The number written by a sequence of decimal digits, most significant first.
pub open spec fn digits_val(s: Seq<u8>) -> int
    decreases s.len(),
{
    if s.len() == 0 {
        0
    } else {
        digits_val(s.drop_last()) * 10 + digit_val(s.last())
    }
}

/// The decimal text of one octet: one to three digits, no leading zero,
/// value at most 255.
pub open spec fn valid_octet(s: Seq<u8>) -> bool {
    &&& 1 <= s.len() <= 3
    &&& all_digits(s)
    &&& s.len() > 1 ==> s[0] != 48
    &&& digits_val(s) <= 255
}

/// `i < j < k` are the positions of the three dots (`'.'` is 46) of a
/// dotted-quad address spanning all of `s`.
pub open spec fn quad_at(s: Seq<u8>, i: int, j: int, k: int) -> bool {
    &&& 0 <= i < j < k < s.len()
    &&& s[i] == 46 && s[j] == 46 && s[k] == 46
    &&& valid_octet(s.subrange(0, i))
    &&& valid_octet(s.subrange(i + 1, j))
    &&& valid_octet(s.subrange(j + 1, k))
    &&& valid_octet(s.subrange(k + 1, s.len() as int))
}

/// `s` is the text of a dotted-quad IPv4 address.
pub open spec fn is_addr_text(s: Seq<u8>) -> bool {
    exists|i: int, j: int, k: int| quad_at(s, i, j, k)
}

/// The address written by a dotted-quad text.
pub open spec fn addr_of_text(s: Seq<u8>) -> Addr {
    let (i, j, k) = choose|i: int, j: int, k: int| quad_at(s, i, j, k);
    Addr {
        o1: digits_val(s.subrange(0, i)) as u8,
        o2: digits_val(s.subrange(i + 1, j)) as u8,
        o3: digits_val(s.subrange(j + 1, k)) as u8,
        o4: digits_val(s.subrange(k + 1, s.len() as int)) as u8,
    }
}

/// A recognized CIDR prefix length.  Only `/24` exclusions are honored;
/// `/8` and `/16` are recognized so that they can be reported and skipped.
#[derive(Clone, Copy, Debug, PartialEq, Eq, Structural)]
pub enum CidrPrefix {
    Len8,
    Len16,
    Len24,
}

/// The text after the slash for each recognized prefix length.
pub open spec fn prefix_text(p: CidrPrefix) -> Seq<u8> {
    match p {
        CidrPrefix::Len8 => seq![56u8],
        CidrPrefix::Len16 => seq![49u8, 54u8],
        CidrPrefix::Len24 => seq![50u8, 52u8],
    }
}

/// `m` is the position of the slash (`'/'` is 47) of a CIDR line whose
/// address part precedes it and whose prefix text `p` follows it.
pub open spec fn cidr_at(s: Seq<u8>, m: int, p: CidrPrefix) -> bool {
    &&& 0 < m < s.len()
    &&& s[m] == 47
    &&& is_addr_text(s.subrange(0, m))
    &&& s.subrange(m + 1, s.len() as int) == prefix_text(p)
}

/// `s` is the text of a CIDR form with a recognized prefix length.
pub open spec fn is_cidr_text(s: Seq<u8>) -> bool {
    exists|m: int, p: CidrPrefix| cidr_at(s, m, p)
}

/// What one exclusion-file line says.
#[derive(Clone, Copy, Debug, PartialEq, Eq, Structural)]
pub enum LineForm {
    /// A bare address.
    Host(Addr),
    /// An address with a recognized prefix length.
    Cidr(Addr, CidrPrefix),
    /// Neither: a fatal configuration error.
    Malformed,
}

/// The meaning of one exclusion-file line.
pub open spec fn spec_parse_line(s: Seq<u8>) -> LineForm {
    if is_addr_text(s) {
        LineForm::Host(addr_of_text(s))
    } else if is_cidr_text(s) {
        let (m, p) = choose|m: int, p: CidrPrefix| cidr_at(s, m, p);
        LineForm::Cidr(addr_of_text(s.subrange(0, m)), p)
    } else {
        LineForm::Malformed
    }
}

pub proof fn lemma_digits_val_1(s: Seq<u8>)
    requires
        s.len() == 1,
    ensures
        digits_val(s) == digit_val(s[0]),
{
    assert(s.drop_last().len() == 0);
    assert(digits_val(s.drop_last()) == 0);
}

pub proof fn lemma_digits_val_2(s: Seq<u8>)
    requires
        s.len() == 2,
    ensures
        digits_val(s) == digit_val(s[0]) * 10 + digit_val(s[1]),
{
    lemma_digits_val_1(s.drop_last());
    assert(s.drop_last()[0] == s[0]);
}

pub proof fn lemma_digits_val_3(s: Seq<u8>)
    requires
        s.len() == 3,
    ensures
        digits_val(s) == digit_val(s[0]) * 100 + digit_val(s[1]) * 10 + digit_val(s[2]),
{
    lemma_digits_val_2(s.drop_last());
    assert(s.drop_last()[0] == s[0]);
    assert(s.drop_last()[1] == s[1]);
}

/// Checks that `s[lo..hi]` is a valid octet text, and returns its value.
fn check_octet(s: &Vec<u8>, lo: usize, hi: usize) -> (r: Option<u8>)
    requires
        lo <= hi <= s@.len(),
    ensures
        r is Some <==> valid_octet(s@.subrange(lo as int, hi as int)),
        r matches Some(v) ==> v == digits_val(s@.subrange(lo as int, hi as int)),
{
    let ghost sub = s@.subrange(lo as int, hi as int);
    let n = hi - lo;
    if n == 0 || n > 3 {
        return None;
    }
    let b0 = s[lo];
    if !(48 <= b0 && b0 <= 57) {
        assert(sub[0] == b0);
        return None;
    }
    if n == 1 {
        proof {
            lemma_digits_val_1(sub);
            assert(sub[0] == b0);
        }
        return Some(b0 - 48);
    }
    if b0 == 48 {
        assert(sub[0] == b0);
        return None;
    }
    let b1 = s[lo + 1];
    if !(48 <= b1 && b1 <= 57) {
        assert(sub[1] == b1);
        return None;
    }
    if n == 2 {
        proof {
            lemma_digits_val_2(sub);
            assert(sub[0] == b0);
            assert(sub[1] == b1);
            assert forall|i: int| 0 <= i < sub.len() implies is_digit(sub[i]) by {
                if i == 0 {
                } else {
                    assert(sub[1] == b1);
                }
            }
        }
        return Some((b0 - 48) * 10 + (b1 - 48));
    }
    let b2 = s[lo + 2];
    if !(48 <= b2 && b2 <= 57) {
        assert(sub[2] == b2);
        return None;
    }
    proof {
        lemma_digits_val_3(sub);
        assert(sub[0] == b0);
        assert(sub[1] == b1);
        assert(sub[2] == b2);
        assert forall|i: int| 0 <= i < sub.len() implies is_digit(sub[i]) by {
            if i == 0 {
            } else if i == 1 {
                assert(sub[1] == b1);
            } else {
                assert(sub[2] == b2);
            }
        }
    }
    let v: u32 = (b0 as u32 - 48) * 100 + (b1 as u32 - 48) * 10 + (b2 as u32 - 48);
    if v > 255 {
        return None;
    }
    Some(v as u8)
}

/// `d` lists, in ascending order, exactly the positions of byte `c` in `s`.
pub open spec fn marks_ok(s: Seq<u8>, d: Seq<usize>, c: u8) -> bool {
    &&& forall|t: int| 0 <= t < d.len() ==> d[t] < s.len() && s[d[t] as int] == c
    &&& forall|q: int| 0 <= q < s.len() && s[q] == c ==> d.contains(q as usize)
    &&& forall|t1: int, t2: int| 0 <= t1 < t2 < d.len() ==> d[t1] < d[t2]
}

/// Collects the positions of the dots and of the slashes of `s`.
fn scan_marks(s: &Vec<u8>) -> (r: (Vec<usize>, Vec<usize>))
    ensures
        marks_ok(s@, r.0@, 46),
        marks_ok(s@, r.1@, 47),
{
    let mut dots: Vec<usize> = Vec::new();
    let mut slashes: Vec<usize> = Vec::new();
    let mut p: usize = 0;
    while p < s.len()
        invariant
            p <= s@.len(),
            forall|t: int| 0 <= t < dots@.len() ==> dots@[t] < p && s@[dots@[t] as int] == 46,
            forall|q: int| 0 <= q < p && s@[q] == 46 ==> dots@.contains(q as usize),
            forall|t1: int, t2: int| 0 <= t1 < t2 < dots@.len() ==> dots@[t1] < dots@[t2],
            forall|t: int| 0 <= t < slashes@.len() ==> slashes@[t] < p && s@[slashes@[t] as int]
                == 47,
            forall|q: int| 0 <= q < p && s@[q] == 47 ==> slashes@.contains(q as usize),
            forall|t1: int, t2: int| 0 <= t1 < t2 < slashes@.len() ==> slashes@[t1] < slashes@[t2],
        decreases s@.len() - p,
    {
        let b = s[p];
        if b == 46 {
            let ghost before = dots@;
            dots.push(p);
            proof {
                assert forall|q: int| 0 <= q < p + 1 && s@[q] == 46 implies dots@.contains(
                    q as usize,
                ) by {
                    if q < p {
                        let t = choose|t: int| 0 <= t < before.len() && before[t] == q as usize;
                        assert(dots@[t] == q as usize);
                    } else {
                        assert(dots@[dots@.len() - 1] == q as usize);
                    }
                }
            }
        } else if b == 47 {
            let ghost before = slashes@;
            slashes.push(p);
            proof {
                assert forall|q: int| 0 <= q < p + 1 && s@[q] == 47 implies slashes@.contains(
                    q as usize,
                ) by {
                    if q < p {
                        let t = choose|t: int| 0 <= t < before.len() && before[t] == q as usize;
                        assert(slashes@[t] == q as usize);
                    } else {
                        assert(slashes@[slashes@.len() - 1] == q as usize);
                    }
                }
            }
        }
        p = p + 1;
    }
    (dots, slashes)
}

/// In a dotted-quad text, every position is a digit or one of the three dots.
pub proof fn lemma_quad_chars(s: Seq<u8>, i: int, j: int, k: int)
    requires
        quad_at(s, i, j, k),
    ensures
        forall|p: int| 0 <= p < s.len() ==> p == i || p == j || p == k || is_digit(s[p]),
{
    assert forall|p: int| 0 <= p < s.len() && p != i && p != j && p != k implies is_digit(
        s[p],
    ) by {
        if p < i {
            assert(s.subrange(0, i)[p] == s[p]);
            assert(is_digit(s.subrange(0, i)[p]));
        } else if p < j {
            assert(s.subrange(i + 1, j)[p - (i + 1)] == s[p]);
            assert(is_digit(s.subrange(i + 1, j)[p - (i + 1)]));
        } else if p < k {
            assert(s.subrange(j + 1, k)[p - (j + 1)] == s[p]);
            assert(is_digit(s.subrange(j + 1, k)[p - (j + 1)]));
        } else {
            assert(s.subrange(k + 1, s.len() as int)[p - (k + 1)] == s[p]);
            assert(is_digit(s.subrange(k + 1, s.len() as int)[p - (k + 1)]));
        }
    }
}

/// The dot list of a dotted-quad text is exactly its three dot positions.
pub proof fn lemma_quad_dots(s: Seq<u8>, i: int, j: int, k: int, d: Seq<usize>)
    requires
        quad_at(s, i, j, k),
        marks_ok(s, d, 46),
    ensures
        d.len() == 3,
        d[0] == i,
        d[1] == j,
        d[2] == k,
{
    lemma_quad_chars(s, i, j, k);
    assert(d.contains(i as usize));
    assert(d.contains(j as usize));
    assert(d.contains(k as usize));
    let ti = choose|t: int| 0 <= t < d.len() && d[t] == i as usize;
    let tj = choose|t: int| 0 <= t < d.len() && d[t] == j as usize;
    let tk = choose|t: int| 0 <= t < d.len() && d[t] == k as usize;
    assert forall|t: int| 0 <= t < d.len() implies d[t] == i as usize || d[t] == j as usize
        || d[t] == k as usize by {
        assert(s[d[t] as int] == 46);
        assert(!is_digit(46));
    }
    assert(d.len() >= 3);
    if d.len() > 3 {
        assert(d[0] < d[1] < d[2] < d[3]);
        assert(false);
    }
}

/// A dotted-quad text contains no slash.
pub proof fn lemma_addr_text_no_slash(s: Seq<u8>, p: int)
    requires
        is_addr_text(s),
        0 <= p < s.len(),
    ensures
        s[p] != 47,
{
    let (i, j, k) = choose|i: int, j: int, k: int| quad_at(s, i, j, k);
    lemma_quad_chars(s, i, j, k);
}

/// The slash list of a CIDR text is exactly its one slash position.
pub proof fn lemma_cidr_slashes(s: Seq<u8>, m: int, p: CidrPrefix, sl: Seq<usize>)
    requires
        cidr_at(s, m, p),
        marks_ok(s, sl, 47),
    ensures
        sl.len() == 1,
        sl[0] == m,
{
    assert(sl.contains(m as usize));
    let suffix = s.subrange(m + 1, s.len() as int);
    assert forall|t: int| 0 <= t < sl.len() implies sl[t] == m as usize by {
        let q = sl[t] as int;
        assert(s[q] == 47);
        if q < m {
            lemma_addr_text_no_slash(s.subrange(0, m), q);
        } else if q > m {
            let idx = q - (m + 1);
            assert(suffix[idx] == s[q]);
            assert(suffix == prefix_text(p));
            match p {
                CidrPrefix::Len8 => {
                    assert(prefix_text(p).len() == 1);
                    assert(idx == 0);
                    assert(prefix_text(p)[0] == 56);
                },
                CidrPrefix::Len16 => {
                    assert(prefix_text(p).len() == 2);
                    assert(prefix_text(p)[0] == 49);
                    assert(prefix_text(p)[1] == 54);
                },
                CidrPrefix::Len24 => {
                    assert(prefix_text(p).len() == 2);
                    assert(prefix_text(p)[0] == 50);
                    assert(prefix_text(p)[1] == 52);
                },
            }
            assert(false);
        }
    }
    let tm = choose|t: int| 0 <= t < sl.len() && sl[t] == m as usize;
    assert(sl.len() >= 1);
    if sl.len() > 1 {
        assert(sl[0] < sl[1]);
        assert(false);
    }
}

/// Distinct prefix lengths are written with distinct texts.
pub proof fn lemma_prefix_text_injective(p1: CidrPrefix, p2: CidrPrefix)
    requires
        prefix_text(p1) == prefix_text(p2),
    ensures
        p1 == p2,
{
    if p1 != p2 {
        assert(prefix_text(CidrPrefix::Len8).len() == 1);
        assert(prefix_text(CidrPrefix::Len16).len() == 2);
        assert(prefix_text(CidrPrefix::Len24).len() == 2);
        assert(prefix_text(CidrPrefix::Len16)[0] == 49);
        assert(prefix_text(CidrPrefix::Len24)[0] == 50);
        assert(false);
    }
}

/// Checks whether `s[0..end]` is a dotted-quad text, given the positions of
/// its dots, and returns the address it writes.
fn try_quad(s: &Vec<u8>, end: usize, dots: &Vec<usize>) -> (r: Option<Addr>)
    requires
        end <= s@.len(),
        marks_ok(s@.subrange(0, end as int), dots@, 46),
    ensures
        r is Some <==> is_addr_text(s@.subrange(0, end as int)),
        r matches Some(a) ==> a == addr_of_text(s@.subrange(0, end as int)),
{
    let ghost sub = s@.subrange(0, end as int);
    if dots.len() != 3 {
        proof {
            if is_addr_text(sub) {
                let (i, j, k) = choose|i: int, j: int, k: int| quad_at(sub, i, j, k);
                lemma_quad_dots(sub, i, j, k, dots@);
            }
        }
        return None;
    }
    let d0 = dots[0];
    let d1 = dots[1];
    let d2 = dots[2];
    assert(d0 < d1 < d2 < end);
    proof {
        assert(sub.subrange(0, d0 as int) =~= s@.subrange(0, d0 as int));
        assert(sub.subrange(d0 + 1, d1 as int) =~= s@.subrange(d0 + 1, d1 as int));
        assert(sub.subrange(d1 + 1, d2 as int) =~= s@.subrange(d1 + 1, d2 as int));
        assert(sub.subrange(d2 + 1, end as int) =~= s@.subrange(d2 + 1, end as int));
    }
    let r1 = check_octet(s, 0, d0);
    let r2 = check_octet(s, d0 + 1, d1);
    let r3 = check_octet(s, d1 + 1, d2);
    let r4 = check_octet(s, d2 + 1, end);
    match (r1, r2, r3, r4) {
        (Some(o1), Some(o2), Some(o3), Some(o4)) => {
            let a = Addr { o1, o2, o3, o4 };
            proof {
                assert(sub[d0 as int] == 46 && sub[d1 as int] == 46 && sub[d2 as int] == 46);
                assert(quad_at(sub, d0 as int, d1 as int, d2 as int));
                let (i, j, k) = choose|i: int, j: int, k: int| quad_at(sub, i, j, k);
                lemma_quad_dots(sub, i, j, k, dots@);
                assert(a == addr_of_text(sub));
            }
            Some(a)
        },
        _ => {
            proof {
                if is_addr_text(sub) {
                    let (i, j, k) = choose|i: int, j: int, k: int| quad_at(sub, i, j, k);
                    lemma_quad_dots(sub, i, j, k, dots@);
                    assert(false);
                }
            }
            None
        },
    }
}

/// Classifies one exclusion-file line: a bare address, a CIDR form with a
/// recognized prefix length, or a malformed line.
#[verifier::rlimit(60)]
pub fn parse_line(s: &Vec<u8>) -> (r: LineForm)
    ensures
        r == spec_parse_line(s@),
{
    let (dots, slashes) = scan_marks(s);
    if slashes.len() == 0 {
        proof {
            assert(s@.subrange(0, s@.len() as int) =~= s@);
            if is_cidr_text(s@) {
                let (m, p) = choose|m: int, p: CidrPrefix| cidr_at(s@, m, p);
                assert(slashes@.contains(m as usize));
                assert(false);
            }
        }
        match try_quad(s, s.len(), &dots) {
            Some(a) => LineForm::Host(a),
            None => LineForm::Malformed,
        }
    } else if slashes.len() == 1 {
        let m = slashes[0];
        assert(m < s@.len() && s@[m as int] == 47);
        proof {
            if is_addr_text(s@) {
                lemma_addr_text_no_slash(s@, m as int);
            }
        }
        let n = s.len() - m - 1;
        let ghost suffix = s@.subrange(m + 1, s@.len() as int);
        let pr: Option<CidrPrefix> = if n == 1 && s[m + 1] == 56 {
            proof {
                assert(suffix =~= prefix_text(CidrPrefix::Len8));
            }
            Some(CidrPrefix::Len8)
        } else if n == 2 && s[m + 1] == 49 && s[m + 2] == 54 {
            proof {
                assert(suffix =~= prefix_text(CidrPrefix::Len16));
            }
            Some(CidrPrefix::Len16)
        } else if n == 2 && s[m + 1] == 50 && s[m + 2] == 52 {
            proof {
                assert(suffix =~= prefix_text(CidrPrefix::Len24));
            }
            Some(CidrPrefix::Len24)
        } else {
            proof {
                if is_cidr_text(s@) {
                    let (m2, p2) = choose|m2: int, p2: CidrPrefix| cidr_at(s@, m2, p2);
                    lemma_cidr_slashes(s@, m2, p2, slashes@);
                    assert(m2 == m);
                    assert(suffix == prefix_text(p2));
                    assert(n == suffix.len());
                    match p2 {
                        CidrPrefix::Len8 => {
                            assert(prefix_text(p2).len() == 1);
                            assert(prefix_text(p2)[0] == 56);
                            assert(suffix[0] == s@[m + 1]);
                        },
                        CidrPrefix::Len16 => {
                            assert(prefix_text(p2).len() == 2);
                            assert(prefix_text(p2)[0] == 49);
                            assert(prefix_text(p2)[1] == 54);
                            assert(suffix[0] == s@[m + 1]);
                            assert(suffix[1] == s@[m + 2]);
                        },
                        CidrPrefix::Len24 => {
                            assert(prefix_text(p2).len() == 2);
                            assert(prefix_text(p2)[0] == 50);
                            assert(prefix_text(p2)[1] == 52);
                            assert(suffix[0] == s@[m + 1]);
                            assert(suffix[1] == s@[m + 2]);
                        },
                    }
                    assert(false);
                }
            }
            None
        };
        match pr {
            None => LineForm::Malformed,
            Some(p) => {
                let ghost sub = s@.subrange(0, m as int);
                proof {
                    assert forall|t: int| 0 <= t < dots@.len() implies dots@[t] < m by {
                        let q = dots@[t] as int;
                        assert(s@[q] == 46);
                        if q > m {
                            assert(suffix[q - (m + 1)] == s@[q]);
                            match p {
                                CidrPrefix::Len8 => {
                                    assert(suffix[0] == 56);
                                },
                                CidrPrefix::Len16 => {
                                    assert(suffix[0] == 49 && suffix[1] == 54);
                                },
                                CidrPrefix::Len24 => {
                                    assert(suffix[0] == 50 && suffix[1] == 52);
                                },
                            }
                            assert(false);
                        }
                    }
                    assert forall|q: int| 0 <= q < sub.len() && sub[q] == 46 implies
                        dots@.contains(q as usize) by {
                        assert(s@[q] == 46);
                    }
                    assert(marks_ok(sub, dots@, 46));
                }
                match try_quad(s, m, &dots) {
                    Some(a) => {
                        proof {
                            assert(cidr_at(s@, m as int, p));
                            assert(is_cidr_text(s@));
                            let (m2, p2) = choose|m2: int, p2: CidrPrefix| cidr_at(s@, m2, p2);
                            lemma_cidr_slashes(s@, m2, p2, slashes@);
                            assert(m2 == m);
                            lemma_prefix_text_injective(p, p2);
                        }
                        LineForm::Cidr(a, p)
                    },
                    None => {
                        proof {
                            if is_cidr_text(s@) {
                                let (m2, p2) = choose|m2: int, p2: CidrPrefix| cidr_at(s@, m2, p2);
                                lemma_cidr_slashes(s@, m2, p2, slashes@);
                                assert(m2 == m);
                                assert(false);
                            }
                        }
                        LineForm::Malformed
                    },
                }
            },
        }
    } else {
        proof {
            if is_addr_text(s@) {
                lemma_addr_text_no_slash(s@, slashes@[0] as int);
                assert(false);
            }
            if is_cidr_text(s@) {
                let (m2, p2) = choose|m2: int, p2: CidrPrefix| cidr_at(s@, m2, p2);
                lemma_cidr_slashes(s@, m2, p2, slashes@);
                assert(false);
            }
        }
        LineForm::Malformed
    }
}

} // verus!
