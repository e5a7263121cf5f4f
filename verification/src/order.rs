//! Lexicographic order on byte strings.
//!
//! The storage engine keeps its index ordered by the raw bytes of the keys;
//! range queries are stated over this order.

use vstd::prelude::*;

verus! {

/// Strict lexicographic order on byte sequences: `a` comes before `b`
/// at the first differing byte, and a proper prefix comes before any
/// of its extensions.
pub open spec fn lex_lt(a: Seq<u8>, b: Seq<u8>) -> bool
    decreases a.len(),
{
    if b.len() == 0 {
        false
    } else if a.len() == 0 {
        true
    } else if a[0] < b[0] {
        true
    } else if a[0] > b[0] {
        false
    } else {
        lex_lt(a.subrange(1, a.len() as int), b.subrange(1, b.len() as int))
    }
}

/// Reflexive closure of `lex_lt`.
pub open spec fn lex_le(a: Seq<u8>, b: Seq<u8>) -> bool {
    lex_lt(a, b) || a == b
}

/// A position-wise account of `lex_lt`: either the two sequences agree up to
/// some index where `a` holds the smaller byte, or `a` is a proper prefix of `b`.
pub open spec fn lex_lt_at(a: Seq<u8>, b: Seq<u8>, i: int) -> bool {
    &&& 0 <= i < a.len()
    &&& i < b.len()
    &&& a.subrange(0, i) == b.subrange(0, i)
    &&& a[i] < b[i]
}

pub open spec fn is_strict_prefix(a: Seq<u8>, b: Seq<u8>) -> bool {
    a.len() < b.len() && a == b.subrange(0, a.len() as int)
}

pub proof fn lemma_lex_lt_alt(a: Seq<u8>, b: Seq<u8>)
    ensures
        lex_lt(a, b) <==> ((exists|i: int| lex_lt_at(a, b, i)) || is_strict_prefix(a, b)),
    decreases a.len(),
{
    if b.len() == 0 {
        assert(forall|i: int| !lex_lt_at(a, b, i));
    } else if a.len() == 0 {
        assert(is_strict_prefix(a, b)) by {
            assert(a =~= b.subrange(0, 0));
        }
    } else if a[0] < b[0] {
        assert(lex_lt_at(a, b, 0)) by {
            assert(a.subrange(0, 0) =~= b.subrange(0, 0));
        }
    } else if a[0] > b[0] {
        assert(forall|i: int| !lex_lt_at(a, b, i)) by {
            assert forall|i: int| #[trigger] lex_lt_at(a, b, i) implies false by {
                if i > 0 {
                    assert(a.subrange(0, i)[0] == b.subrange(0, i)[0]);
                }
            }
        }
        assert(!is_strict_prefix(a, b)) by {
            if a.len() < b.len() {
                assert(b.subrange(0, a.len() as int)[0] == b[0]);
            }
        }
    } else {
        let a1 = a.subrange(1, a.len() as int);
        let b1 = b.subrange(1, b.len() as int);
        lemma_lex_lt_alt(a1, b1);
        if lex_lt(a, b) {
            if is_strict_prefix(a1, b1) {
                assert(is_strict_prefix(a, b)) by {
                    assert forall|j: int| 0 <= j < a.len() implies a[j] == b.subrange(
                        0,
                        a.len() as int,
                    )[j] by {
                        if j > 0 {
                            assert(a1[j - 1] == b1.subrange(0, a1.len() as int)[j - 1]);
                        }
                    }
                    assert(a =~= b.subrange(0, a.len() as int));
                }
            } else {
                let i = choose|i: int| lex_lt_at(a1, b1, i);
                assert(lex_lt_at(a, b, i + 1)) by {
                    assert forall|j: int| 0 <= j < i + 1 implies a[j] == b[j] by {
                        if j > 0 {
                            assert(a1.subrange(0, i)[j - 1] == b1.subrange(0, i)[j - 1]);
                        }
                    }
                    assert(a.subrange(0, i + 1) =~= b.subrange(0, i + 1));
                    assert(a[i + 1] == a1[i] && b[i + 1] == b1[i]);
                }
            }
        }
        if exists|i: int| lex_lt_at(a, b, i) {
            let i = choose|i: int| lex_lt_at(a, b, i);
            if i == 0 {
            } else {
                assert(lex_lt_at(a1, b1, i - 1)) by {
                    assert forall|j: int| 0 <= j < i - 1 implies a1[j] == b1[j] by {
                        assert(a.subrange(0, i)[j + 1] == b.subrange(0, i)[j + 1]);
                    }
                    assert(a1.subrange(0, i - 1) =~= b1.subrange(0, i - 1));
                    assert(a1[i - 1] == a[i] && b1[i - 1] == b[i]);
                }
            }
        }
        if is_strict_prefix(a, b) {
            assert(is_strict_prefix(a1, b1)) by {
                assert forall|j: int| 0 <= j < a1.len() implies a1[j] == b1.subrange(
                    0,
                    a1.len() as int,
                )[j] by {
                    assert(a[j + 1] == b.subrange(0, a.len() as int)[j + 1]);
                }
                assert(a1 =~= b1.subrange(0, a1.len() as int));
            }
        }
    }
}

pub proof fn lemma_lex_total(a: Seq<u8>, b: Seq<u8>)
    ensures
        lex_lt(a, b) || lex_lt(b, a) || a == b,
    decreases a.len(),
{
    if b.len() == 0 {
        if a.len() == 0 {
            assert(a =~= b);
        }
    } else if a.len() == 0 {
    } else if a[0] < b[0] || a[0] > b[0] {
    } else {
        let a1 = a.subrange(1, a.len() as int);
        let b1 = b.subrange(1, b.len() as int);
        lemma_lex_total(a1, b1);
        if a1 == b1 {
            assert forall|j: int| 0 <= j < a.len() implies a[j] == b[j] by {
                if j > 0 {
                    assert(a1[j - 1] == b1[j - 1]);
                }
            }
            assert(a =~= b);
        }
    }
}

pub proof fn lemma_lex_asym(a: Seq<u8>, b: Seq<u8>)
    ensures
        lex_lt(a, b) ==> !lex_lt(b, a) && a != b,
    decreases a.len(),
{
    if b.len() == 0 || a.len() == 0 {
    } else if a[0] < b[0] || a[0] > b[0] {
    } else {
        lemma_lex_asym(a.subrange(1, a.len() as int), b.subrange(1, b.len() as int));
        if lex_lt(a, b) && a == b {
            assert(a.subrange(1, a.len() as int) == b.subrange(1, b.len() as int));
        }
    }
}

pub proof fn lemma_lex_trans(a: Seq<u8>, b: Seq<u8>, c: Seq<u8>)
    requires
        lex_lt(a, b),
        lex_lt(b, c),
    ensures
        lex_lt(a, c),
    decreases a.len(),
{
    if c.len() == 0 {
    } else if b.len() == 0 {
    } else if a.len() == 0 {
    } else {
        if a[0] < b[0] {
            if b[0] <= c[0] {
            }
        } else if a[0] == b[0] {
            if b[0] < c[0] {
            } else if b[0] == c[0] {
                lemma_lex_trans(
                    a.subrange(1, a.len() as int),
                    b.subrange(1, b.len() as int),
                    c.subrange(1, c.len() as int),
                );
            }
        }
    }
}

/// Transitivity in the shape the range scans use.
pub proof fn lemma_lex_le_trans(a: Seq<u8>, b: Seq<u8>, c: Seq<u8>)
    requires
        lex_le(a, b),
        lex_le(b, c),
    ensures
        lex_le(a, c),
{
    if lex_lt(a, b) && lex_lt(b, c) {
        lemma_lex_trans(a, b, c);
    }
}

/// Comparing two concatenations whose left parts have equal length reduces
/// to comparing the parts.
pub proof fn lemma_lex_concat(a: Seq<u8>, b: Seq<u8>, c: Seq<u8>, d: Seq<u8>)
    requires
        a.len() == b.len(),
    ensures
        lex_lt(a + c, b + d) <==> (lex_lt(a, b) || (a == b && lex_lt(c, d))),
    decreases a.len(),
{
    if a.len() == 0 {
        assert(a =~= b);
        assert(a + c =~= c);
        assert(b + d =~= d);
    } else {
        let ac = a + c;
        let bd = b + d;
        assert(ac[0] == a[0] && bd[0] == b[0]);
        if a[0] < b[0] || a[0] > b[0] {
        } else {
            let a1 = a.subrange(1, a.len() as int);
            let b1 = b.subrange(1, b.len() as int);
            lemma_lex_concat(a1, b1, c, d);
            assert(ac.subrange(1, ac.len() as int) =~= a1 + c);
            assert(bd.subrange(1, bd.len() as int) =~= b1 + d);
            if a1 == b1 && a[0] == b[0] {
                assert forall|j: int| 0 <= j < a.len() implies a[j] == b[j] by {
                    if j > 0 {
                        assert(a1[j - 1] == b1[j - 1]);
                    }
                }
                assert(a =~= b);
            }
            if a == b {
                assert(a1 =~= b1);
            }
        }
    }
}

/// Exec equality on byte strings.
pub fn bytes_eq(a: &Vec<u8>, b: &Vec<u8>) -> (r: bool)
    ensures
        r == (a@ == b@),
{
    if a.len() != b.len() {
        proof {
            assert(a@ != b@);
        }
        return false;
    }
    let n = a.len();
    let mut i: usize = 0;
    while i < n
        invariant
            n == a@.len() == b@.len(),
            i <= n,
            a@.subrange(0, i as int) == b@.subrange(0, i as int),
        decreases n - i,
    {
        if a[i] != b[i] {
            proof {
                assert(a@[i as int] != b@[i as int]);
            }
            return false;
        }
        proof {
            assert(a@.subrange(0, i + 1 as int) =~= b@.subrange(0, i + 1 as int));
        }
        i = i + 1;
    }
    proof {
        assert(a@ =~= a@.subrange(0, n as int));
        assert(b@ =~= b@.subrange(0, n as int));
    }
    true
}

/// Exec strict lexicographic comparison, `a` before `b`.
pub fn bytes_lt(a: &Vec<u8>, b: &Vec<u8>) -> (r: bool)
    ensures
        r == lex_lt(a@, b@),
{
    let na = a.len();
    let nb = b.len();
    let n = if na < nb {
        na
    } else {
        nb
    };
    let mut i: usize = 0;
    proof {
        lemma_lex_lt_alt(a@, b@);
    }
    while i < n
        invariant
            na == a@.len(),
            nb == b@.len(),
            n == if na < nb {
                na as int
            } else {
                nb as int
            },
            i <= n,
            a@.subrange(0, i as int) == b@.subrange(0, i as int),
            lex_lt(a@, b@) <==> ((exists|j: int| lex_lt_at(a@, b@, j)) || is_strict_prefix(
                a@,
                b@,
            )),
        decreases n - i,
    {
        if a[i] < b[i] {
            proof {
                assert(lex_lt_at(a@, b@, i as int));
            }
            return true;
        }
        if a[i] > b[i] {
            proof {
                assert forall|j: int| #[trigger] lex_lt_at(a@, b@, j) implies false by {
                    if j < i {
                        assert(a@.subrange(0, i as int)[j] == b@.subrange(0, i as int)[j]);
                        assert(false);
                    } else if j == i {
                    } else {
                        assert(a@.subrange(0, j)[i as int] == b@.subrange(0, j)[i as int]);
                    }
                }
                if is_strict_prefix(a@, b@) {
                    assert(a@[i as int] == b@.subrange(0, na as int)[i as int]);
                }
            }
            return false;
        }
        proof {
            assert(a@.subrange(0, i + 1 as int) =~= b@.subrange(0, i + 1 as int));
        }
        i = i + 1;
    }
    // the shorter sequence is a prefix of the longer
    if na < nb {
        proof {
            assert(a@ =~= a@.subrange(0, na as int));
            assert(is_strict_prefix(a@, b@)) by {
                assert(a@ =~= b@.subrange(0, na as int));
            }
        }
        true
    } else {
        proof {
            assert forall|j: int| #[trigger] lex_lt_at(a@, b@, j) implies false by {
                assert(a@.subrange(0, n as int)[j] == b@.subrange(0, n as int)[j]);
            }
        }
        false
    }
}

/// Exec reflexive lexicographic comparison.
pub fn bytes_le(a: &Vec<u8>, b: &Vec<u8>) -> (r: bool)
    ensures
        r == lex_le(a@, b@),
{
    proof {
        lemma_lex_total(a@, b@);
        lemma_lex_asym(b@, a@);
    }
    !bytes_lt(b, a)
}

} // verus!
