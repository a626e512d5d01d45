//! Byte-string helpers: equality, lexicographic order, substring
//! containment, and the name normalization used by the fuzzy stop matcher.
//!
//! Stop names and identifiers are UTF-8 byte strings throughout the
//! library; ordering and containment are defined on the bytes, which for
//! UTF-8 text agrees with the usual string ordering and substring test.

use vstd::prelude::*;

verus! {

/// Byte-for-byte equality of two byte strings.
pub fn bytes_eq(a: &Vec<u8>, b: &Vec<u8>) -> (r: bool)
    ensures
        r == (a@ == b@),
{
    if a.len() != b.len() {
        return false;
    }
    let n = a.len();
    let mut i: usize = 0;
    while i < n
        invariant
            n == a@.len() == b@.len(),
            i <= n,
            forall|j: int| 0 <= j < i ==> a@[j] == b@[j],
        decreases n - i,
    {
        if a[i] != b[i] {
            return false;
        }
        i += 1;
    }
    proof {
        assert(a@ =~= b@);
    }
    true
}

/// Strict lexicographic order on byte strings: a proper prefix comes first,
/// otherwise the first differing byte decides.
pub open spec fn lex_lt(a: Seq<u8>, b: Seq<u8>) -> bool
    decreases a.len(),
{
    if b.len() == 0 {
        false
    } else if a.len() == 0 {
        true
    } else if a[0] < b[0] {
        true
    } else if a[0] > b[0] {
        false
    } else {
        lex_lt(a.drop_first(), b.drop_first())
    }
}

/// `lex_lt` is irreflexive.
pub proof fn lemma_lex_lt_irreflexive(a: Seq<u8>)
    ensures
        !lex_lt(a, a),
    decreases a.len(),
{
    if a.len() > 0 {
        lemma_lex_lt_irreflexive(a.drop_first());
    }
}

/// `lex_lt` is transitive.
pub proof fn lemma_lex_lt_transitive(a: Seq<u8>, b: Seq<u8>, c: Seq<u8>)
    requires
        lex_lt(a, b),
        lex_lt(b, c),
    ensures
        lex_lt(a, c),
    decreases a.len(),
{
    if a.len() == 0 {
        // b is nonempty, hence c is nonempty, hence lex_lt(a, c)
    } else {
        // a nonempty, so b nonempty (else !lex_lt(a, b)), and c nonempty
        if a[0] == b[0] && b[0] == c[0] {
            lemma_lex_lt_transitive(a.drop_first(), b.drop_first(), c.drop_first());
        }
    }
}

/// If `a` and `b` agree on their first `i` bytes and differ at index `i`
/// in `a`'s favour, then `a` is lexicographically below `b`.
pub proof fn lemma_lex_lt_from_diff(a: Seq<u8>, b: Seq<u8>, i: int)
    requires
        0 <= i < a.len(),
        i < b.len(),
        a.take(i) == b.take(i),
        a[i] < b[i],
    ensures
        lex_lt(a, b),
    decreases i,
{
    if i == 0 {
    } else {
        assert(a[0] == a.take(i)[0]);
        assert(b[0] == b.take(i)[0]);
        assert(a.drop_first().take(i - 1) =~= b.drop_first().take(i - 1)) by {
            assert forall|j: int| 0 <= j < i - 1 implies #[trigger] a.drop_first().take(i - 1)[j]
                == b.drop_first().take(i - 1)[j] by {
                assert(a.drop_first().take(i - 1)[j] == a.drop_first()[j]);
                assert(b.drop_first().take(i - 1)[j] == b.drop_first()[j]);
                assert(a.drop_first()[j] == a[j + 1]);
                assert(b.drop_first()[j] == b[j + 1]);
                assert(a.take(i)[j + 1] == a[j + 1]);
                assert(b.take(i)[j + 1] == b[j + 1]);
                assert(a.take(i)[j + 1] == b.take(i)[j + 1]);
            }
        }
        lemma_lex_lt_from_diff(a.drop_first(), b.drop_first(), i - 1);
    }
}

/// A proper prefix is lexicographically below the longer string.
pub proof fn lemma_lex_lt_from_prefix(a: Seq<u8>, b: Seq<u8>)
    requires
        a.len() < b.len(),
        a == b.take(a.len() as int),
    ensures
        lex_lt(a, b),
    decreases a.len(),
{
    if a.len() > 0 {
        assert(a[0] == b.take(a.len() as int)[0]);
        assert(a.drop_first() =~= b.drop_first().take(a.drop_first().len() as int)) by {
            assert forall|j: int| 0 <= j < a.len() - 1 implies #[trigger] a.drop_first()[j]
                == b.drop_first().take(a.len() - 1)[j] by {
                assert(a[j + 1] == b.take(a.len() as int)[j + 1]);
            }
        }
        lemma_lex_lt_from_prefix(a.drop_first(), b.drop_first());
    }
}

/// Three-way comparison outcome for byte strings.
#[derive(Clone, Copy, PartialEq, Eq, Structural, Debug)]
pub enum ByteOrder {
    Less,
    Equal,
    Greater,
}

/// Compares two byte strings lexicographically.
pub fn lex_cmp(a: &Vec<u8>, b: &Vec<u8>) -> (o: ByteOrder)
    ensures
        o == ByteOrder::Less <==> lex_lt(a@, b@),
        o == ByteOrder::Equal <==> a@ == b@,
        o == ByteOrder::Greater <==> lex_lt(b@, a@),
{
    let an = a.len();
    let bn = b.len();
    let mut i: usize = 0;
    loop
        invariant
            i <= an,
            i <= bn,
            an == a@.len(),
            bn == b@.len(),
            a@.take(i as int) =~= b@.take(i as int),
        decreases an - i,
    {
        if i >= an || i >= bn {
            if an == bn {
                proof {
                    assert(a@ =~= a@.take(i as int));
                    assert(b@ =~= b@.take(i as int));
                    lemma_lex_lt_irreflexive(a@);
                }
                return ByteOrder::Equal;
            } else if an < bn {
                proof {
                    assert(a@ =~= a@.take(i as int));
                    lemma_lex_lt_from_prefix(a@, b@);
                    lemma_lex_lt_irreflexive(a@);
                    lemma_lex_lt_irreflexive(b@);
                    if a@ == b@ {
                        assert(a@.len() == b@.len());
                    }
                    if lex_lt(b@, a@) {
                        lemma_lex_lt_transitive(a@, b@, a@);
                    }
                }
                return ByteOrder::Less;
            } else {
                proof {
                    assert(b@ =~= b@.take(i as int));
                    lemma_lex_lt_from_prefix(b@, a@);
                    lemma_lex_lt_irreflexive(a@);
                    lemma_lex_lt_irreflexive(b@);
                    if a@ == b@ {
                        assert(a@.len() == b@.len());
                    }
                    if lex_lt(a@, b@) {
                        lemma_lex_lt_transitive(b@, a@, b@);
                    }
                }
                return ByteOrder::Greater;
            }
        }
        let x = a[i];
        let y = b[i];
        if x < y {
            proof {
                lemma_lex_lt_from_diff(a@, b@, i as int);
                lemma_lex_lt_irreflexive(a@);
                if a@ == b@ {
                    assert(a@[i as int] == b@[i as int]);
                }
                if lex_lt(b@, a@) {
                    lemma_lex_lt_transitive(a@, b@, a@);
                }
            }
            return ByteOrder::Less;
        } else if x > y {
            proof {
                lemma_lex_lt_from_diff(b@, a@, i as int);
                lemma_lex_lt_irreflexive(b@);
                if a@ == b@ {
                    assert(a@[i as int] == b@[i as int]);
                }
                if lex_lt(a@, b@) {
                    lemma_lex_lt_transitive(b@, a@, b@);
                }
            }
            return ByteOrder::Greater;
        }
        proof {
            assert(a@.take(i + 1) =~= b@.take(i + 1)) by {
                assert forall|j: int| 0 <= j < i + 1 implies #[trigger] a@.take(i + 1)[j]
                    == b@.take(i + 1)[j] by {
                    if j < i {
                        assert(a@.take(i as int)[j] == b@.take(i as int)[j]);
                    }
                }
            }
        }
        i += 1;
    }
}

/// `needle` occurs as a contiguous run of bytes somewhere in `hay`.
pub open spec fn contains_sub(hay: Seq<u8>, needle: Seq<u8>) -> bool {
    exists|k: int|
        0 <= k <= hay.len() - needle.len() && #[trigger] hay.subrange(k, k + needle.len())
            == needle
}

/// Substring containment test: does `hay` contain `needle` as a
/// contiguous byte sequence? The empty needle is contained in anything.
pub fn contains_bytes(hay: &Vec<u8>, needle: &Vec<u8>) -> (r: bool)
    ensures
        r == contains_sub(hay@, needle@),
{
    let hn = hay.len();
    let nn = needle.len();
    if nn > hn {
        proof {
            assert(!contains_sub(hay@, needle@));
        }
        return false;
    }
    let mut k: usize = 0;
    while k <= hn - nn
        invariant
            nn <= hn,
            hn == hay@.len(),
            nn == needle@.len(),
            k <= hn - nn + 1,
            forall|j: int|
                0 <= j < k ==> #[trigger] hay@.subrange(j, j + needle@.len()) != needle@,
        decreases hn - nn - k + 1,
    {
        let mut i: usize = 0;
        let mut matched = true;
        while i < nn
            invariant
                nn <= hn,
                hn == hay@.len(),
                nn == needle@.len(),
                k <= hn - nn,
                i <= nn,
                matched <==> hay@.subrange(k as int, k + i as int) =~= needle@.take(i as int),
            decreases nn - i,
        {
            proof {
                assert(hay@.subrange(k as int, k + i + 1).drop_last() =~= hay@.subrange(
                    k as int,
                    k + i as int,
                ));
                assert(needle@.take(i + 1).drop_last() =~= needle@.take(i as int));
            }
            if hay[k + i] != needle[i] {
                matched = false;
                proof {
                    assert(hay@.subrange(k as int, k + i + 1)[i as int] == hay@[k + i]);
                    assert(needle@.take(i + 1)[i as int] == needle@[i as int]);
                }
            } else {
                proof {
                    if matched {
                        assert(hay@.subrange(k as int, k + i + 1) =~= hay@.subrange(
                            k as int,
                            k + i as int,
                        ).push(hay@[k + i]));
                        assert(needle@.take(i + 1) =~= needle@.take(i as int).push(
                            needle@[i as int],
                        ));
                    } else {
                        assert(hay@.subrange(k as int, k + i + 1).drop_last() != needle@.take(
                            i + 1,
                        ).drop_last());
                    }
                }
            }
            i += 1;
        }
        if matched {
            proof {
                assert(hay@.subrange(k as int, k + needle@.len()) =~= needle@.take(nn as int));
                assert(needle@.take(nn as int) =~= needle@);
            }
            return true;
        }
        proof {
            assert(hay@.subrange(k as int, k + needle@.len()) != needle@) by {
                assert(needle@.take(nn as int) =~= needle@);
            }
        }
        k += 1;
    }
    proof {
        assert(!contains_sub(hay@, needle@));
    }
    false
}

/// The byte string with every ASCII hyphen removed.
pub open spec fn strip_dashes(s: Seq<u8>) -> Seq<u8>
    decreases s.len(),
{
    if s.len() == 0 {
        s
    } else if s.last() == 45u8 {
        strip_dashes(s.drop_last())
    } else {
        strip_dashes(s.drop_last()).push(s.last())
    }
}

/// Removes every ASCII hyphen (`-`) from a byte string.
pub fn remove_dashes(s: &Vec<u8>) -> (r: Vec<u8>)
    ensures
        r@ == strip_dashes(s@),
{
    let mut out: Vec<u8> = Vec::new();
    let n = s.len();
    let mut i: usize = 0;
    while i < n
        invariant
            n == s@.len(),
            i <= n,
            out@ == strip_dashes(s@.take(i as int)),
        decreases n - i,
    {
        proof {
            assert(s@.take(i + 1).drop_last() =~= s@.take(i as int));
            assert(s@.take(i + 1).last() == s@[i as int]);
        }
        let b = s[i];
        if b != 45u8 {
            out.push(b);
        }
        i += 1;
    }
    proof {
        assert(s@.take(n as int) =~= s@);
    }
    out
}

/// What `str::to_lowercase` yields on the UTF-8 bytes of a string; the
/// result depends on the bytes alone.
pub uninterp spec fn lower_bytes(s: Seq<u8>) -> Seq<u8>;

/// Relies on str::to_lowercase for Unicode lowercasing, a pure function
/// of the characters, so the result depends on the bytes alone; an empty
/// string stays empty. The argument is viewed as UTF-8
/// (`String::from_utf8_lossy` converts it in) and the result is handed
/// back as its UTF-8 bytes.
#[verifier::external_body]
pub fn lowercase_bytes(s: &Vec<u8>) -> (r: Vec<u8>)
    ensures
        r@ == lower_bytes(s@),
        s@.len() == 0 ==> r@.len() == 0,
{
    String::from_utf8_lossy(s).to_lowercase().into_bytes()
}

/// A name as the fuzzy matcher sees it: lower-cased, hyphens removed.
pub open spec fn normalize(s: Seq<u8>) -> Seq<u8> {
    strip_dashes(lower_bytes(s))
}

/// Normalizes a name for fuzzy matching: lower-case it, then remove
/// hyphens.
pub fn normalize_name(s: &Vec<u8>) -> (r: Vec<u8>)
    ensures
        r@ == normalize(s@),
{
    let lowered = lowercase_bytes(s);
    remove_dashes(&lowered)
}

} // verus!
