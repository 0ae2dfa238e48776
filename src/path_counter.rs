//! An odometer over derivation paths: every finite sequence of normal child
//! indices, shortest first, and within one length in lexicographic order.

use vstd::prelude::*;

verus! {

/// The largest normal (non-hardened) child index, 2^31 - 1.
pub const MAX_INDEX: u32 = 2147483647;

/// Every index of `s` is a normal child index.
pub open spec fn is_valid_path(s: Seq<u32>) -> bool {
    forall|k: int| 0 <= k < s.len() ==> s[k] <= MAX_INDEX
}

/// The path that follows `s` in the enumeration: the last index counts up,
/// an index at `MAX_INDEX` wraps to 0 and carries to the one before it, and a
/// carry out of the first index makes the path one longer, all zeros.
pub open spec fn successor(s: Seq<u32>) -> Seq<u32>
    decreases s.len(),
{
    if s.len() == 0 {
        seq![0u32]
    } else if s.last() < MAX_INDEX {
        s.drop_last().push((s.last() + 1) as u32)
    } else {
        successor(s.drop_last()).push(0u32)
    }
}

/// The root visited after `n` advances from the empty path.
pub open spec fn nth_root(n: nat) -> Seq<u32>
    decreases n,
{
    if n == 0 {
        Seq::empty()
    } else {
        successor(nth_root((n - 1) as nat))
    }
}

/// Lexicographic order on two paths of the same length.
pub open spec fn lex_lt(a: Seq<u32>, b: Seq<u32>) -> bool
    decreases a.len(),
{
    a.len() > 0 && b.len() == a.len() && (lex_lt(a.drop_last(), b.drop_last()) || (a.drop_last()
        == b.drop_last() && a.last() < b.last()))
}

/// The enumeration order: shorter paths first, then lexicographic.
pub open spec fn path_lt(a: Seq<u32>, b: Seq<u32>) -> bool {
    a.len() < b.len() || (a.len() == b.len() && lex_lt(a, b))
}

/// `n` zeros.
pub open spec fn zeros(n: nat) -> Seq<u32> {
    Seq::new(n, |_k: int| 0u32)
}

proof fn lemma_lex_lt_trans(a: Seq<u32>, b: Seq<u32>, c: Seq<u32>)
    requires
        lex_lt(a, b),
        lex_lt(b, c),
    ensures
        lex_lt(a, c),
    decreases a.len(),
{
    if lex_lt(a.drop_last(), b.drop_last()) && lex_lt(b.drop_last(), c.drop_last()) {
        lemma_lex_lt_trans(a.drop_last(), b.drop_last(), c.drop_last());
    }
}

proof fn lemma_lex_lt_irreflexive(a: Seq<u32>)
    ensures
        !lex_lt(a, a),
    decreases a.len(),
{
    if a.len() > 0 {
        lemma_lex_lt_irreflexive(a.drop_last());
    }
}

/// The enumeration order is transitive.
pub proof fn lemma_path_lt_trans(a: Seq<u32>, b: Seq<u32>, c: Seq<u32>)
    requires
        path_lt(a, b),
        path_lt(b, c),
    ensures
        path_lt(a, c),
{
    if a.len() == b.len() && b.len() == c.len() {
        lemma_lex_lt_trans(a, b, c);
    }
}

/// No path comes before itself, so two paths in order are distinct.
pub proof fn lemma_path_lt_irreflexive(a: Seq<u32>)
    ensures
        !path_lt(a, a),
{
    lemma_lex_lt_irreflexive(a);
}

/// The successor of a valid path is valid, and at most one index longer.
pub proof fn lemma_successor_shape(s: Seq<u32>)
    requires
        is_valid_path(s),
    ensures
        is_valid_path(successor(s)),
        successor(s).len() == s.len() || successor(s).len() == s.len() + 1,
        successor(s).len() == s.len() + 1 ==> successor(s) == zeros(s.len() + 1),
    decreases s.len(),
{
    if s.len() == 0 {
        assert(successor(s) =~= zeros(1));
    } else if s.last() < MAX_INDEX {
    } else {
        lemma_successor_shape(s.drop_last());
        if successor(s.drop_last()).len() == s.len() {
            assert(successor(s) =~= zeros(s.len() + 1));
        }
    }
}

/// Advancing moves strictly forward in the enumeration order.
pub proof fn lemma_successor_increases(s: Seq<u32>)
    ensures
        path_lt(s, successor(s)),
    decreases s.len(),
{
    if s.len() > 0 {
        let t = successor(s);
        if s.last() < MAX_INDEX {
            assert(t.drop_last() =~= s.drop_last());
        } else {
            lemma_successor_increases(s.drop_last());
            assert(t.drop_last() =~= successor(s.drop_last()));
        }
    }
}

/// A path of zeros comes no later than any other valid path of its length.
proof fn lemma_zeros_least(c: Seq<u32>)
    requires
        is_valid_path(c),
    ensures
        c == zeros(c.len()) || lex_lt(zeros(c.len()), c),
    decreases c.len(),
{
    if c.len() > 0 {
        lemma_zeros_least(c.drop_last());
        assert(zeros(c.len()).drop_last() =~= zeros((c.len() - 1) as nat));
        if c.drop_last() == zeros((c.len() - 1) as nat) && c.last() == 0 {
            assert forall|k: int| 0 <= k < c.len() implies c[k] == 0u32 by {
                if k < c.len() - 1 {
                    assert(c[k] == c.drop_last()[k]);
                }
            }
            assert(c =~= zeros(c.len()));
        }
    }
}

/// Advancing skips nothing: every valid path after `s` is `successor(s)` or
/// comes after it.
pub proof fn lemma_successor_no_skip(s: Seq<u32>, c: Seq<u32>)
    requires
        is_valid_path(s),
        is_valid_path(c),
        path_lt(s, c),
    ensures
        successor(s) == c || path_lt(successor(s), c),
    decreases s.len(),
{
    lemma_successor_shape(s);
    let t = successor(s);
    if c.len() > s.len() {
        if t.len() == c.len() {
            lemma_zeros_least(c);
        }
    } else if s.len() > 0 {
        if s.last() < MAX_INDEX {
            assert(t.drop_last() =~= s.drop_last());
            if !lex_lt(s.drop_last(), c.drop_last()) && (s.last() + 1) as u32 == c.last() {
                assert(t =~= c);
            }
        } else {
            assert(t.drop_last() =~= successor(s.drop_last()));
            assert(c.last() <= MAX_INDEX);
            lemma_successor_no_skip(s.drop_last(), c.drop_last());
            lemma_successor_shape(s.drop_last());
            if successor(s.drop_last()) == c.drop_last() && c.last() == 0 {
                assert(t =~= c);
            }
        }
    }
}

/// Roots come in strictly increasing order, so no root is visited twice.
pub proof fn lemma_roots_strictly_increase(m: nat, n: nat)
    requires
        m < n,
    ensures
        path_lt(nth_root(m), nth_root(n)),
        nth_root(m) != nth_root(n),
    decreases n,
{
    lemma_successor_increases(nth_root((n - 1) as nat));
    if m < n - 1 {
        lemma_roots_strictly_increase(m, (n - 1) as nat);
        lemma_path_lt_trans(nth_root(m), nth_root((n - 1) as nat), nth_root(n));
    }
    lemma_path_lt_irreflexive(nth_root(m));
}

/// Where every index from `i` on is at `MAX_INDEX`, the successor is that of
/// the first `i` indices followed by zeros.
proof fn lemma_successor_carry(s: Seq<u32>, i: int)
    requires
        0 <= i <= s.len(),
        forall|k: int| i <= k < s.len() ==> s[k] == MAX_INDEX,
    ensures
        successor(s) =~= successor(s.subrange(0, i)) + zeros((s.len() - i) as nat),
    decreases s.len(),
{
    if i == s.len() {
        assert(s.subrange(0, i) =~= s);
    } else {
        lemma_successor_carry(s.drop_last(), i);
        assert(s.drop_last().subrange(0, i) =~= s.subrange(0, i));
    }
}

/// A position in the enumeration of derivation paths.
pub struct IncrementablePath {
    digits: Vec<u32>,
}

impl View for IncrementablePath {
    type V = Seq<u32>;

    closed spec fn view(&self) -> Seq<u32> {
        self.digits@
    }
}

impl IncrementablePath {
    /// Every index is a normal child index.
    pub open spec fn wf(&self) -> bool {
        is_valid_path(self@)
    }

    /// The empty path, the base key itself.
    pub fn new() -> (r: Self)
        ensures
            r@ == Seq::<u32>::empty(),
            r.wf(),
    {
        IncrementablePath { digits: Vec::new() }
    }

    /// A counter at `digits`, or `None` where an index is above `MAX_INDEX`.
    pub fn from_digits(digits: Vec<u32>) -> (r: Option<Self>)
        ensures
            r is Some <==> is_valid_path(digits@),
            r matches Some(p) ==> p@ == digits@ && p.wf(),
    {
        let mut k: usize = 0;
        while k < digits.len()
            invariant
                k <= digits@.len(),
                forall|j: int| 0 <= j < k ==> digits@[j] <= MAX_INDEX,
            decreases digits@.len() - k,
        {
            if digits[k] > MAX_INDEX {
                return None;
            }
            k += 1;
        }
        Some(IncrementablePath { digits })
    }

    /// Moves to the next path of the enumeration.
    pub fn increment(&mut self)
        requires
            old(self).wf(),
        ensures
            final(self)@ == successor(old(self)@),
            final(self).wf(),
    {
        let ghost s = self@;
        let n = self.digits.len();
        let mut i: usize = n;
        while i > 0
            invariant
                i <= n,
                s == old(self)@,
                n == s.len(),
                is_valid_path(s),
                self.digits@.len() == n,
                forall|k: int| 0 <= k < i ==> self.digits@[k] == s[k],
                forall|k: int| i <= k < n ==> self.digits@[k] == 0,
                forall|k: int| i <= k < n ==> s[k] == MAX_INDEX,
            decreases i,
        {
            let d = self.digits[i - 1];
            let ghost before = self.digits@;
            if d < MAX_INDEX {
                self.digits[i - 1] = d + 1;
                proof {
                    lemma_successor_carry(s, i as int);
                    let head = s.subrange(0, i as int);
                    assert(head.last() == d);
                    assert(successor(head) == head.drop_last().push((d + 1) as u32));
                    assert(head.drop_last() =~= s.subrange(0, i - 1));
                    let expected = head.drop_last().push((d + 1) as u32) + zeros((n - i) as nat);
                    assert forall|k: int| 0 <= k < n implies self.digits@[k] == expected[k] by {
                        if k < i - 1 {
                            assert(self.digits@[k] == before[k]);
                            assert(expected[k] == head[k]);
                        } else if k == i - 1 {
                            assert(expected[k] == head.drop_last().push((d + 1) as u32)[k]);
                        } else {
                            assert(self.digits@[k] == before[k]);
                            assert(expected[k] == zeros((n - i) as nat)[k - i]);
                        }
                    }
                    assert(self.digits@ =~= expected);
                    assert(successor(s) == successor(head) + zeros((n - i) as nat));
                    assert(self.digits@ == successor(s));

                    lemma_successor_shape(s);
                }
                return;
            }
            self.digits[i - 1] = 0;
            i -= 1;
        }
        let ghost before = self.digits@;
        self.digits.push(0);
        proof {
            lemma_successor_carry(s, 0);
            assert(s.subrange(0, 0) =~= Seq::<u32>::empty());
            assert(successor(Seq::<u32>::empty()) == seq![0u32]);
            let expected = seq![0u32] + zeros(n as nat);
            assert forall|k: int| 0 <= k <= n implies self.digits@[k] == expected[k] by {
                if k > 0 {
                    assert(expected[k] == zeros(n as nat)[k - 1]);
                } else {
                    assert(expected[k] == seq![0u32][k]);
                }
                if k < n {
                    assert(self.digits@[k] == before[k]);
                }
            }
            assert(self.digits@ =~= expected);
            lemma_successor_shape(s);
        }
    }

    /// The current path, as its child indices.
    pub fn path(&self) -> (r: Vec<u32>)
        ensures
            r@ == self@,
    {
        self.digits.clone()
    }
}

} // verus!
