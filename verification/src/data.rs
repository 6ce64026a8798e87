//! Data contract shared by every key, value and timestamp type that flows
//! through the engine: a total order and equality, both stated over the
//! type's deep view, so that contracts can speak of mathematical models.

use vstd::prelude::*;

verus! {

/// A record type usable as a Z-set key or value.
///
/// `mlt` is a strict total order on the type's deep view; `lt_exec` and
/// `eq_exec` decide it; `dup` copies a value without losing its model.
pub trait DBData: DeepView + Sized {
    /// Strict total order on models.
    spec fn mlt(a: Self::V, b: Self::V) -> bool;

    /// `mlt` relates every pair of distinct models, one way only.
    proof fn mlt_trichotomy(a: Self::V, b: Self::V)
        ensures
            Self::mlt(a, b) || Self::mlt(b, a) || a == b,
            Self::mlt(a, b) ==> !Self::mlt(b, a) && a != b,
            Self::mlt(b, a) ==> !Self::mlt(a, b) && a != b,
    ;

    /// `mlt` is transitive.
    proof fn mlt_transitive(a: Self::V, b: Self::V, c: Self::V)
        requires
            Self::mlt(a, b),
            Self::mlt(b, c),
        ensures
            Self::mlt(a, c),
    ;

    fn lt_exec(&self, other: &Self) -> (r: bool)
        ensures
            r == Self::mlt(self.deep_view(), other.deep_view()),
    ;

    fn eq_exec(&self, other: &Self) -> (r: bool)
        ensures
            r == (self.deep_view() == other.deep_view()),
    ;

    fn dup(&self) -> (r: Self)
        ensures
            r.deep_view() == self.deep_view(),
    ;
}

impl DBData for usize {
    open spec fn mlt(a: usize, b: usize) -> bool {
        a < b
    }

    proof fn mlt_trichotomy(a: usize, b: usize) {
    }

    proof fn mlt_transitive(a: usize, b: usize, c: usize) {
    }

    fn lt_exec(&self, other: &Self) -> (r: bool) {
        *self < *other
    }

    fn eq_exec(&self, other: &Self) -> (r: bool) {
        *self == *other
    }

    fn dup(&self) -> (r: Self) {
        *self
    }
}

impl DBData for u16 {
    open spec fn mlt(a: u16, b: u16) -> bool {
        a < b
    }

    proof fn mlt_trichotomy(a: u16, b: u16) {
    }

    proof fn mlt_transitive(a: u16, b: u16, c: u16) {
    }

    fn lt_exec(&self, other: &Self) -> (r: bool) {
        *self < *other
    }

    fn eq_exec(&self, other: &Self) -> (r: bool) {
        *self == *other
    }

    fn dup(&self) -> (r: Self) {
        *self
    }
}

impl DBData for u32 {
    open spec fn mlt(a: u32, b: u32) -> bool {
        a < b
    }

    proof fn mlt_trichotomy(a: u32, b: u32) {
    }

    proof fn mlt_transitive(a: u32, b: u32, c: u32) {
    }

    fn lt_exec(&self, other: &Self) -> (r: bool) {
        *self < *other
    }

    fn eq_exec(&self, other: &Self) -> (r: bool) {
        *self == *other
    }

    fn dup(&self) -> (r: Self) {
        *self
    }
}

impl DBData for u64 {
    open spec fn mlt(a: u64, b: u64) -> bool {
        a < b
    }

    proof fn mlt_trichotomy(a: u64, b: u64) {
    }

    proof fn mlt_transitive(a: u64, b: u64, c: u64) {
    }

    fn lt_exec(&self, other: &Self) -> (r: bool) {
        *self < *other
    }

    fn eq_exec(&self, other: &Self) -> (r: bool) {
        *self == *other
    }

    fn dup(&self) -> (r: Self) {
        *self
    }
}

/// Lexicographic order on pairs, the order every flat batch is sorted by.
pub open spec fn pair_mlt<A: DBData, B: DBData>(a: (A::V, B::V), b: (A::V, B::V)) -> bool {
    A::mlt(a.0, b.0) || (a.0 == b.0 && B::mlt(a.1, b.1))
}

impl<A: DBData, B: DBData> DBData for (A, B) {
    open spec fn mlt(a: (A::V, B::V), b: (A::V, B::V)) -> bool {
        pair_mlt::<A, B>(a, b)
    }

    proof fn mlt_trichotomy(a: (A::V, B::V), b: (A::V, B::V)) {
        A::mlt_trichotomy(a.0, b.0);
        B::mlt_trichotomy(a.1, b.1);
    }

    proof fn mlt_transitive(a: (A::V, B::V), b: (A::V, B::V), c: (A::V, B::V)) {
        A::mlt_trichotomy(a.0, b.0);
        A::mlt_trichotomy(b.0, c.0);
        A::mlt_trichotomy(a.0, c.0);
        if A::mlt(a.0, b.0) && A::mlt(b.0, c.0) {
            A::mlt_transitive(a.0, b.0, c.0);
        }
        if a.0 == b.0 && b.0 == c.0 {
            B::mlt_transitive(a.1, b.1, c.1);
        }
    }

    fn lt_exec(&self, other: &Self) -> (r: bool) {
        if self.0.lt_exec(&other.0) {
            true
        } else if self.0.eq_exec(&other.0) {
            self.1.lt_exec(&other.1)
        } else {
            false
        }
    }

    fn eq_exec(&self, other: &Self) -> (r: bool) {
        self.0.eq_exec(&other.0) && self.1.eq_exec(&other.1)
    }

    fn dup(&self) -> (r: Self) {
        (self.0.dup(), self.1.dup())
    }
}

/// Lexicographic strict order on character sequences.
pub open spec fn char_seq_lt(a: Seq<char>, b: Seq<char>) -> bool
    decreases a.len(),
{
    if b.len() == 0 {
        false
    } else if a.len() == 0 {
        true
    } else if a[0] != b[0] {
        (a[0] as u32) < (b[0] as u32)
    } else {
        char_seq_lt(a.skip(1), b.skip(1))
    }
}

proof fn char_seq_lt_trichotomy(a: Seq<char>, b: Seq<char>)
    ensures
        char_seq_lt(a, b) || char_seq_lt(b, a) || a == b,
        char_seq_lt(a, b) ==> !char_seq_lt(b, a) && a != b,
        char_seq_lt(b, a) ==> !char_seq_lt(a, b) && a != b,
    decreases a.len(),
{
    if a.len() == 0 || b.len() == 0 {
        if a.len() == 0 && b.len() == 0 {
            assert(a =~= b);
        }
    } else if a[0] != b[0] {
        vstd::utf8::char_u32_cast(a[0], a[0] as u32);
        vstd::utf8::char_u32_cast(b[0], b[0] as u32);
        assert((a[0] as u32) != (b[0] as u32));
    } else {
        char_seq_lt_trichotomy(a.skip(1), b.skip(1));
        if a.skip(1) == b.skip(1) {
            assert(a =~= b) by {
                assert(forall|i: int| 1 <= i < a.len() ==> a[i] == a.skip(1)[i - 1]);
            }
        }
        if a == b {
            assert(a.skip(1) =~= b.skip(1));
        }
    }
}

proof fn char_seq_lt_transitive(a: Seq<char>, b: Seq<char>, c: Seq<char>)
    requires
        char_seq_lt(a, b),
        char_seq_lt(b, c),
    ensures
        char_seq_lt(a, c),
    decreases a.len(),
{
    if c.len() == 0 {
    } else if a.len() == 0 {
    } else {
        if b.len() == 0 {
        } else if a[0] == b[0] && b[0] == c[0] {
            char_seq_lt_transitive(a.skip(1), b.skip(1), c.skip(1));
        }
    }
}

impl DBData for String {
    open spec fn mlt(a: Seq<char>, b: Seq<char>) -> bool {
        char_seq_lt(a, b)
    }

    proof fn mlt_trichotomy(a: Seq<char>, b: Seq<char>) {
        char_seq_lt_trichotomy(a, b);
    }

    proof fn mlt_transitive(a: Seq<char>, b: Seq<char>, c: Seq<char>) {
        char_seq_lt_transitive(a, b, c);
    }

    fn lt_exec(&self, other: &Self) -> (r: bool) {
        str_lt_exec(self.as_str(), other.as_str())
    }

    fn eq_exec(&self, other: &Self) -> (r: bool) {
        *self == *other
    }

    fn dup(&self) -> (r: Self) {
        self.clone()
    }
}

/// Decides the lexicographic order on the character sequences of two
/// string slices.
fn str_lt_exec(a: &str, b: &str) -> (r: bool)
    ensures
        r == char_seq_lt(a@, b@),
{
    let a_len = a.unicode_len();
    let b_len = b.unicode_len();
    let mut i: usize = 0;
    proof {
        assert(a@.skip(0) =~= a@);
        assert(b@.skip(0) =~= b@);
    }
    loop
        invariant
            i <= a_len,
            i <= b_len,
            a_len == a@.len(),
            b_len == b@.len(),
            a@.take(i as int) =~= b@.take(i as int),
            char_seq_lt(a@, b@) == char_seq_lt(a@.skip(i as int), b@.skip(i as int)),
        decreases a_len - i,
    {
        if i == b_len {
            proof {
                assert(b@.skip(i as int).len() == 0);
            }
            return false;
        }
        if i == a_len {
            proof {
                assert(a@.skip(i as int).len() == 0);
                assert(b@.skip(i as int).len() > 0);
            }
            return true;
        }
        let ca = a.get_char(i);
        let cb = b.get_char(i);
        if ca != cb {
            proof {
                let sa = a@.skip(i as int);
                let sb = b@.skip(i as int);
                assert(sa[0] == a@[i as int]);
                assert(sb[0] == b@[i as int]);
            }
            return (ca as u32) < (cb as u32);
        }
        proof {
            let sa = a@.skip(i as int);
            let sb = b@.skip(i as int);
            assert(sa[0] == a@[i as int]);
            assert(sb[0] == b@[i as int]);
            assert(sa[0] == sb[0]);
            assert(sa.skip(1) =~= a@.skip(i + 1));
            assert(sb.skip(1) =~= b@.skip(i + 1));
            assert(a@.take(i + 1) =~= b@.take(i + 1));
        }
        i = i + 1;
    }
}

/// The unit value of a Z-set whose entries carry no value column.
#[derive(Clone, Copy, Debug, PartialEq, Eq, Structural)]
pub struct NoVal;

impl View for NoVal {
    type V = NoVal;

    open spec fn view(&self) -> NoVal {
        *self
    }
}

impl DeepView for NoVal {
    type V = NoVal;

    open spec fn deep_view(&self) -> NoVal {
        *self
    }
}

impl DBData for NoVal {
    open spec fn mlt(a: NoVal, b: NoVal) -> bool {
        false
    }

    proof fn mlt_trichotomy(a: NoVal, b: NoVal) {
    }

    proof fn mlt_transitive(a: NoVal, b: NoVal, c: NoVal) {
    }

    fn lt_exec(&self, other: &Self) -> (r: bool) {
        false
    }

    fn eq_exec(&self, other: &Self) -> (r: bool) {
        true
    }

    fn dup(&self) -> (r: Self) {
        NoVal
    }
}

} // verus!
