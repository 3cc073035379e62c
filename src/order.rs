//! Value-level ordering of the data stored in batches and layer files.
//!
//! Every datum has a representation as a sequence of integers; data are
//! ordered by the lexicographic order of their representations, and two data
//! with the same representation are the same datum as far as batches are
//! concerned.
use vstd::prelude::*;
use vstd::string::StringSliceAdditionalSpecFns;

verus! {

/// Strict lexicographic order on integer sequences.
pub open spec fn seq_lt(a: Seq<int>, b: Seq<int>) -> bool
    decreases a.len(),
{
    if a.len() == 0 {
        b.len() > 0
    } else if b.len() == 0 {
        false
    } else if a[0] < b[0] {
        true
    } else if a[0] > b[0] {
        false
    } else {
        seq_lt(a.drop_first(), b.drop_first())
    }
}

pub proof fn lemma_seq_lt_irreflexive(a: Seq<int>)
    ensures
        !seq_lt(a, a),
    decreases a.len(),
{
    if a.len() > 0 {
        lemma_seq_lt_irreflexive(a.drop_first());
    }
}

pub proof fn lemma_seq_lt_transitive(a: Seq<int>, b: Seq<int>, c: Seq<int>)
    requires
        seq_lt(a, b),
        seq_lt(b, c),
    ensures
        seq_lt(a, c),
    decreases a.len(),
{
    if a.len() > 0 && b.len() > 0 && c.len() > 0 && a[0] == b[0] && b[0] == c[0] {
        lemma_seq_lt_transitive(a.drop_first(), b.drop_first(), c.drop_first());
    }
}

pub proof fn lemma_seq_lt_trichotomy(a: Seq<int>, b: Seq<int>)
    ensures
        seq_lt(a, b) || a == b || seq_lt(b, a),
    decreases a.len(),
{
    if a.len() > 0 && b.len() > 0 && a[0] == b[0] {
        lemma_seq_lt_trichotomy(a.drop_first(), b.drop_first());
        if a.drop_first() == b.drop_first() {
            assert(a =~= seq![a[0]] + a.drop_first());
            assert(b =~= seq![b[0]] + b.drop_first());
        }
    } else if a.len() == 0 && b.len() == 0 {
        assert(a =~= b);
    }
}

pub proof fn lemma_seq_lt_asymmetric(a: Seq<int>, b: Seq<int>)
    requires
        seq_lt(a, b),
    ensures
        !seq_lt(b, a),
        a != b,
{
    lemma_seq_lt_irreflexive(a);
    if seq_lt(b, a) {
        lemma_seq_lt_transitive(a, b, a);
    }
}

/// Lexicographic order on a key/value pair of representations.
pub open spec fn pair_lt(a: (Seq<int>, Seq<int>), b: (Seq<int>, Seq<int>)) -> bool {
    seq_lt(a.0, b.0) || (a.0 == b.0 && seq_lt(a.1, b.1))
}

pub proof fn lemma_pair_lt_transitive(
    a: (Seq<int>, Seq<int>),
    b: (Seq<int>, Seq<int>),
    c: (Seq<int>, Seq<int>),
)
    requires
        pair_lt(a, b),
        pair_lt(b, c),
    ensures
        pair_lt(a, c),
{
    if seq_lt(a.0, b.0) && seq_lt(b.0, c.0) {
        lemma_seq_lt_transitive(a.0, b.0, c.0);
    }
    if a.0 == b.0 && b.0 == c.0 && seq_lt(a.1, b.1) && seq_lt(b.1, c.1) {
        lemma_seq_lt_transitive(a.1, b.1, c.1);
    }
}

pub proof fn lemma_pair_lt_asymmetric(a: (Seq<int>, Seq<int>), b: (Seq<int>, Seq<int>))
    requires
        pair_lt(a, b),
    ensures
        !pair_lt(b, a),
        a != b,
{
    if seq_lt(a.0, b.0) {
        lemma_seq_lt_asymmetric(a.0, b.0);
    } else {
        lemma_seq_lt_asymmetric(a.1, b.1);
    }
}

pub proof fn lemma_pair_lt_trichotomy(a: (Seq<int>, Seq<int>), b: (Seq<int>, Seq<int>))
    ensures
        pair_lt(a, b) || a == b || pair_lt(b, a),
{
    lemma_seq_lt_trichotomy(a.0, b.0);
    lemma_seq_lt_trichotomy(a.1, b.1);
}

pub proof fn lemma_singleton_lt(x: int, y: int)
    ensures
        seq_lt(seq![x], seq![y]) == (x < y),
{
    assert(seq![x][0] == x);
    assert(seq![y][0] == y);
    if x == y {
        assert(seq![x].drop_first() =~= Seq::<int>::empty());
        assert(seq![y].drop_first() =~= Seq::<int>::empty());
        assert(!seq_lt(Seq::<int>::empty(), Seq::<int>::empty()));
    }
}

/// Data that batches and layer files can hold.
///
/// `repr` gives the datum's representation; `compare` and `duplicate` are its
/// executable comparison and copy.
pub trait DBData: Sized {
    spec fn repr(&self) -> Seq<int>;

    fn compare(&self, other: &Self) -> (r: core::cmp::Ordering)
        ensures
            (r == core::cmp::Ordering::Less) == seq_lt(self.repr(), other.repr()),
            (r == core::cmp::Ordering::Equal) == (self.repr() == other.repr()),
            (r == core::cmp::Ordering::Greater) == seq_lt(other.repr(), self.repr()),
    ;

    fn duplicate(&self) -> (r: Self)
        ensures
            r.repr() == self.repr(),
    ;
}

/// Three-way comparison of two representations, as `compare` reports it.
pub open spec fn cmp_of(a: Seq<int>, b: Seq<int>) -> core::cmp::Ordering {
    if seq_lt(a, b) {
        core::cmp::Ordering::Less
    } else if a == b {
        core::cmp::Ordering::Equal
    } else {
        core::cmp::Ordering::Greater
    }
}

impl DBData for i64 {
    open spec fn repr(&self) -> Seq<int> {
        seq![*self as int]
    }

    fn compare(&self, other: &Self) -> (r: core::cmp::Ordering) {
        proof {
            lemma_singleton_lt(*self as int, *other as int);
            lemma_singleton_lt(*other as int, *self as int);
        }
        if *self < *other {
            core::cmp::Ordering::Less
        } else if *self == *other {
            core::cmp::Ordering::Equal
        } else {
            proof {
                assert(seq![*self as int] != seq![*other as int]) by {
                    assert(seq![*self as int][0] != seq![*other as int][0]);
                }
            }
            core::cmp::Ordering::Greater
        }
    }

    fn duplicate(&self) -> (r: Self) {
        *self
    }
}

impl DBData for u64 {
    open spec fn repr(&self) -> Seq<int> {
        seq![*self as int]
    }

    fn compare(&self, other: &Self) -> (r: core::cmp::Ordering) {
        proof {
            lemma_singleton_lt(*self as int, *other as int);
            lemma_singleton_lt(*other as int, *self as int);
        }
        if *self < *other {
            core::cmp::Ordering::Less
        } else if *self == *other {
            core::cmp::Ordering::Equal
        } else {
            proof {
                assert(seq![*self as int] != seq![*other as int]) by {
                    assert(seq![*self as int][0] != seq![*other as int][0]);
                }
            }
            core::cmp::Ordering::Greater
        }
    }

    fn duplicate(&self) -> (r: Self) {
        *self
    }
}

impl DBData for i32 {
    open spec fn repr(&self) -> Seq<int> {
        seq![*self as int]
    }

    fn compare(&self, other: &Self) -> (r: core::cmp::Ordering) {
        proof {
            lemma_singleton_lt(*self as int, *other as int);
            lemma_singleton_lt(*other as int, *self as int);
        }
        if *self < *other {
            core::cmp::Ordering::Less
        } else if *self == *other {
            core::cmp::Ordering::Equal
        } else {
            proof {
                assert(seq![*self as int] != seq![*other as int]) by {
                    assert(seq![*self as int][0] != seq![*other as int][0]);
                }
            }
            core::cmp::Ordering::Greater
        }
    }

    fn duplicate(&self) -> (r: Self) {
        *self
    }
}

impl DBData for () {
    open spec fn repr(&self) -> Seq<int> {
        Seq::empty()
    }

    fn compare(&self, other: &Self) -> (r: core::cmp::Ordering) {
        core::cmp::Ordering::Equal
    }

    fn duplicate(&self) -> (r: Self) {
        ()
    }
}

/// The representation of a byte string.
pub open spec fn bytes_repr(b: Seq<u8>) -> Seq<int> {
    b.map_values(|x: u8| x as int)
}

/// Lexicographic comparison of two byte strings.
pub fn compare_bytes(a: &[u8], b: &[u8]) -> (r: core::cmp::Ordering)
    ensures
        r == cmp_of(bytes_repr(a@), bytes_repr(b@)),
{
    let ghost ra = bytes_repr(a@);
    let ghost rb = bytes_repr(b@);
    assert(ra.subrange(0, ra.len() as int) =~= ra);
    assert(rb.subrange(0, rb.len() as int) =~= rb);
    let mut i: usize = 0;
    while i < a.len() && i < b.len()
        invariant
            i <= a.len(),
            i <= b.len(),
            ra == bytes_repr(a@),
            rb == bytes_repr(b@),
            ra.subrange(0, i as int) == rb.subrange(0, i as int),
            cmp_of(ra.subrange(i as int, ra.len() as int), rb.subrange(i as int, rb.len() as int))
                == cmp_of(ra, rb),
        decreases a.len() - i,
    {
        if a[i] < b[i] {
            proof {
                let x = ra.subrange(i as int, ra.len() as int);
                let y = rb.subrange(i as int, rb.len() as int);
                assert(seq_lt(x, y));
                lemma_seq_lt_asymmetric(x, y);
            }
            return core::cmp::Ordering::Less;
        } else if a[i] > b[i] {
            proof {
                let x = ra.subrange(i as int, ra.len() as int);
                let y = rb.subrange(i as int, rb.len() as int);
                assert(seq_lt(y, x));
                lemma_seq_lt_asymmetric(y, x);
            }
            return core::cmp::Ordering::Greater;
        }
        proof {
            let x = ra.subrange(i as int, ra.len() as int);
            let y = rb.subrange(i as int, rb.len() as int);
            let x1 = ra.subrange(i + 1, ra.len() as int);
            let y1 = rb.subrange(i + 1, rb.len() as int);
            assert(x.drop_first() =~= x1);
            assert(y.drop_first() =~= y1);
            assert(seq_lt(x, y) == seq_lt(x1, y1));
            assert(seq_lt(y, x) == seq_lt(y1, x1));
            if x1 == y1 {
                assert(x =~= seq![x[0]] + x1);
                assert(y =~= seq![y[0]] + y1);
            }
            if x == y {
                assert(x1 =~= x.drop_first());
            }
            assert(cmp_of(x1, y1) == cmp_of(x, y));
            assert(ra.subrange(0, i + 1) =~= ra.subrange(0, i as int).push(ra[i as int]));
            assert(rb.subrange(0, i + 1) =~= rb.subrange(0, i as int).push(rb[i as int]));
        }
        i = i + 1;
    }
    proof {
        let x = ra.subrange(i as int, ra.len() as int);
        let y = rb.subrange(i as int, rb.len() as int);
        assert(cmp_of(x, y) == cmp_of(ra, rb));
        if i == a.len() && i == b.len() {
            assert(ra =~= ra.subrange(0, i as int));
            assert(rb =~= rb.subrange(0, i as int));
        }
    }
    if a.len() < b.len() {
        core::cmp::Ordering::Less
    } else if a.len() == b.len() {
        core::cmp::Ordering::Equal
    } else {
        core::cmp::Ordering::Greater
    }
}

impl DBData for String {
    open spec fn repr(&self) -> Seq<int> {
        bytes_repr(vstd::utf8::encode_utf8(self@))
    }

    fn compare(&self, other: &Self) -> (r: core::cmp::Ordering) {
        let r = compare_bytes(self.as_str().as_bytes(), other.as_str().as_bytes());
        proof {
            let a = self.repr();
            let b = other.repr();
            lemma_seq_lt_trichotomy(a, b);
            if seq_lt(a, b) {
                lemma_seq_lt_asymmetric(a, b);
            }
            if seq_lt(b, a) {
                lemma_seq_lt_asymmetric(b, a);
            }
        }
        r
    }

    fn duplicate(&self) -> (r: Self) {
        self.clone()
    }
}

} // verus!
