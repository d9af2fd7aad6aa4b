use vstd::prelude::*;

verus! {

/// Strict lexicographic order on byte strings: a proper prefix sorts first.
pub open spec fn lex_lt(a: Seq<u8>, b: Seq<u8>) -> bool
    decreases a.len(),
{
    if a.len() == 0 {
        b.len() > 0
    } else if b.len() == 0 {
        false
    } else if a[0] != b[0] {
        a[0] < b[0]
    } else {
        lex_lt(a.drop_first(), b.drop_first())
    }
}

/// Lexicographic `<=` on byte strings.
pub open spec fn lex_le(a: Seq<u8>, b: Seq<u8>) -> bool {
    lex_lt(a, b) || a == b
}

/// The three-way lexicographic comparison of two byte strings.
pub open spec fn lex_cmp(a: Seq<u8>, b: Seq<u8>) -> std::cmp::Ordering {
    if lex_lt(a, b) {
        std::cmp::Ordering::Less
    } else if a == b {
        std::cmp::Ordering::Equal
    } else {
        std::cmp::Ordering::Greater
    }
}

pub proof fn lemma_lex_irreflexive(a: Seq<u8>)
    ensures
        !lex_lt(a, a),
    decreases a.len(),
{
    if a.len() > 0 {
        lemma_lex_irreflexive(a.drop_first());
    }
}

/// Exactly one of `a < b`, `a == b`, `b < a` holds.
pub proof fn lemma_lex_trichotomy(a: Seq<u8>, b: Seq<u8>)
    ensures
        lex_lt(a, b) || a == b || lex_lt(b, a),
        !(lex_lt(a, b) && lex_lt(b, a)),
        lex_lt(a, b) ==> a != b,
    decreases a.len(),
{
    lemma_lex_irreflexive(a);
    if a.len() > 0 && b.len() > 0 && a[0] == b[0] {
        lemma_lex_trichotomy(a.drop_first(), b.drop_first());
        if a.drop_first() == b.drop_first() {
            assert(a =~= seq![a[0]] + a.drop_first());
            assert(b =~= seq![b[0]] + b.drop_first());
        }
    }
    if a.len() == 0 && b.len() == 0 {
        assert(a =~= b);
    }
}

pub proof fn lemma_lex_transitive(a: Seq<u8>, b: Seq<u8>, c: Seq<u8>)
    requires
        lex_lt(a, b),
        lex_lt(b, c),
    ensures
        lex_lt(a, c),
    decreases a.len(),
{
    if a.len() > 0 && b.len() > 0 && c.len() > 0 && a[0] == b[0] && b[0] == c[0] {
        lemma_lex_transitive(a.drop_first(), b.drop_first(), c.drop_first());
    }
}

/// Comparing past a common prefix of length `i` is the same as comparing the rests.
proof fn lemma_lex_skip(a: Seq<u8>, b: Seq<u8>, i: int)
    requires
        0 <= i <= a.len(),
        i <= b.len(),
        forall|j: int| 0 <= j < i ==> a[j] == b[j],
    ensures
        lex_lt(a, b) == lex_lt(a.skip(i), b.skip(i)),
    decreases i,
{
    if i == 0 {
        assert(a.skip(0) =~= a);
        assert(b.skip(0) =~= b);
    } else {
        lemma_lex_skip(a.drop_first(), b.drop_first(), i - 1);
        assert(a.drop_first().skip(i - 1) =~= a.skip(i));
        assert(b.drop_first().skip(i - 1) =~= b.skip(i));
    }
}

/// Compares `a[..la]` with `b[..lb]` lexicographically.
fn compare_prefixes(a: &[u8], la: usize, b: &[u8], lb: usize) -> (r: std::cmp::Ordering)
    requires
        la <= a@.len(),
        lb <= b@.len(),
    ensures
        r == lex_cmp(a@.subrange(0, la as int), b@.subrange(0, lb as int)),
{
    let ghost sa = a@.subrange(0, la as int);
    let ghost sb = b@.subrange(0, lb as int);
    let mut i: usize = 0;
    while i < la && i < lb
        invariant
            i <= la <= a@.len(),
            i <= lb <= b@.len(),
            sa == a@.subrange(0, la as int),
            sb == b@.subrange(0, lb as int),
            forall|j: int| 0 <= j < i ==> sa[j] == sb[j],
        decreases la - i,
    {
        if a[i] != b[i] {
            proof {
                lemma_lex_skip(sa, sb, i as int);
                lemma_lex_trichotomy(sa, sb);
            }
            if a[i] < b[i] {
                return std::cmp::Ordering::Less;
            } else {
                return std::cmp::Ordering::Greater;
            }
        }
        i = i + 1;
    }
    proof {
        lemma_lex_skip(sa, sb, i as int);
        lemma_lex_trichotomy(sa, sb);
    }
    if la < lb {
        std::cmp::Ordering::Less
    } else if lb < la {
        std::cmp::Ordering::Greater
    } else {
        assert(sa =~= sb);
        std::cmp::Ordering::Equal
    }
}

/// Lexicographic comparison of two byte strings.
pub fn compare_bytes(a: &[u8], b: &[u8]) -> (r: std::cmp::Ordering)
    ensures
        r == lex_cmp(a@, b@),
{
    let r = compare_prefixes(a, a.len(), b, b.len());
    assert(a@.subrange(0, a@.len() as int) =~= a@);
    assert(b@.subrange(0, b@.len() as int) =~= b@);
    r
}

/// A copy of `src[start..end]`.
pub fn copy_range(src: &[u8], start: usize, end: usize) -> (r: Vec<u8>)
    requires
        start <= end <= src@.len(),
    ensures
        r@ == src@.subrange(start as int, end as int),
{
    let mut r: Vec<u8> = Vec::with_capacity(end - start);
    let mut i: usize = start;
    while i < end
        invariant
            start <= i <= end <= src@.len(),
            r@ == src@.subrange(start as int, i as int),
        decreases end - i,
    {
        r.push(src[i]);
        i = i + 1;
        assert(r@ =~= src@.subrange(start as int, i as int));
    }
    r
}

/// A total order on keys, supplied by the user of a list.
pub trait KeyComparator {
    /// `a` sorts strictly before `b`.
    spec fn key_lt(&self, a: Seq<u8>, b: Seq<u8>) -> bool;

    /// `a` and `b` name the same key.
    spec fn key_eq(&self, a: Seq<u8>, b: Seq<u8>) -> bool;

    /// `key_lt` is a strict total order whose ties are exactly `key_eq`, an
    /// equivalence that `key_lt` respects.
    proof fn lemma_order(&self, a: Seq<u8>, b: Seq<u8>, c: Seq<u8>)
        ensures
            self.key_lt(a, b) || self.key_eq(a, b) || self.key_lt(b, a),
            !(self.key_lt(a, b) && self.key_lt(b, a)),
            self.key_lt(a, b) ==> !self.key_eq(a, b),
            self.key_eq(a, a),
            self.key_eq(a, b) ==> self.key_eq(b, a),
            self.key_lt(a, b) && self.key_lt(b, c) ==> self.key_lt(a, c),
            self.key_eq(a, b) ==> (self.key_lt(a, c) == self.key_lt(b, c) && self.key_lt(c, a) == self.key_lt(c, b)
                && self.key_eq(a, c) == self.key_eq(b, c)),
    ;

    /// Three-way comparison of two keys.
    fn compare_key(&self, a: &[u8], b: &[u8]) -> (r: std::cmp::Ordering)
        ensures
            (r == std::cmp::Ordering::Less) == self.key_lt(a@, b@),
            (r == std::cmp::Ordering::Equal) == self.key_eq(a@, b@),
            (r == std::cmp::Ordering::Greater) == self.key_lt(b@, a@),
    ;

    /// Whether two keys are the same key.
    fn same_key(&self, a: &[u8], b: &[u8]) -> (r: bool)
        ensures
            r == self.key_eq(a@, b@),
    ;
}

/// Orders keys by what is left once a fixed-length suffix (a version stamp, say)
/// is stripped. A key no longer than the suffix is compared whole.
#[derive(Clone, Copy, Debug)]
pub struct FixedLengthSuffixComparator {
    pub suffix_len: usize,
}

impl FixedLengthSuffixComparator {
    /// The part of `k` that takes part in comparisons.
    pub open spec fn prefix_of(self, k: Seq<u8>) -> Seq<u8> {
        if k.len() > self.suffix_len {
            k.subrange(0, k.len() - self.suffix_len)
        } else {
            k
        }
    }

    pub fn new(suffix_len: usize) -> (c: Self)
        ensures
            c.suffix_len == suffix_len,
    {
        FixedLengthSuffixComparator { suffix_len }
    }

    fn prefix_len(&self, k: &[u8]) -> (n: usize)
        ensures
            n <= k@.len(),
            k@.subrange(0, n as int) == self.prefix_of(k@),
    {
        if k.len() > self.suffix_len {
            k.len() - self.suffix_len
        } else {
            assert(k@.subrange(0, k@.len() as int) =~= k@);
            k.len()
        }
    }
}

impl KeyComparator for FixedLengthSuffixComparator {
    open spec fn key_lt(&self, a: Seq<u8>, b: Seq<u8>) -> bool {
        lex_lt(self.prefix_of(a), self.prefix_of(b))
    }

    open spec fn key_eq(&self, a: Seq<u8>, b: Seq<u8>) -> bool {
        self.prefix_of(a) == self.prefix_of(b)
    }

    proof fn lemma_order(&self, a: Seq<u8>, b: Seq<u8>, c: Seq<u8>) {
        lemma_lex_trichotomy(self.prefix_of(a), self.prefix_of(b));
        lemma_lex_irreflexive(self.prefix_of(a));
        if self.key_lt(a, b) && self.key_lt(b, c) {
            lemma_lex_transitive(self.prefix_of(a), self.prefix_of(b), self.prefix_of(c));
        }
    }

    /// Three-way comparison of two keys with their suffixes stripped.
    fn compare_key(&self, a: &[u8], b: &[u8]) -> (r: std::cmp::Ordering) {
        let la = self.prefix_len(a);
        let lb = self.prefix_len(b);
        let r = compare_prefixes(a, la, b, lb);
        proof {
            lemma_lex_trichotomy(self.prefix_of(a@), self.prefix_of(b@));
        }
        r
    }

    /// Whether two keys are equal once their suffixes are stripped.
    fn same_key(&self, a: &[u8], b: &[u8]) -> (r: bool) {
        let r = self.compare_key(a, b);
        proof {
            lemma_lex_trichotomy(self.prefix_of(a@), self.prefix_of(b@));
        }
        match r {
            std::cmp::Ordering::Equal => true,
            _ => false,
        }
    }
}

} // verus!
