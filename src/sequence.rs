use vstd::prelude::*;
use vstd::string::StrSliceExecFns;
use vstd::string::StringExecFns;
use crate::matrix::{lemma_set_then_get, Matrix};
use crate::text::chars_of;

verus! {

/// A labelled string of symbols.
#[derive(Clone, Debug)]
pub struct Sequence {
    pub label: String,
    pub content: String,
}

/// How many of the first `n` positions hold different symbols in `a` and `b`.
pub open spec fn mismatches(a: Seq<char>, b: Seq<char>, n: int) -> nat
    decreases n,
{
    if n <= 0 {
        0
    } else {
        mismatches(a, b, n - 1) + if a[n - 1] != b[n - 1] { 1nat } else { 0nat }
    }
}

/// The Hamming distance: positions of `a` at which `b` holds another symbol.
pub open spec fn hamming(a: Seq<char>, b: Seq<char>) -> nat {
    mismatches(a, b, a.len() as int)
}

/// The distance of two sequences, defined only when their lengths agree.
pub open spec fn hamming_opt(a: Seq<char>, b: Seq<char>) -> Option<nat> {
    if a.len() == b.len() {
        Some(hamming(a, b))
    } else {
        None
    }
}

/// Whether `r` is what a distance count of `a` and `b` returns.
pub open spec fn is_hamming_result(r: Option<u64>, a: Seq<char>, b: Seq<char>) -> bool {
    match r {
        Some(d) => hamming_opt(a, b) == Some(d as nat),
        None => hamming_opt(a, b) is None,
    }
}

/// A sequence is at distance zero from itself.
pub proof fn lemma_hamming_self(a: Seq<char>)
    ensures
        hamming(a, a) == 0,
{
    lemma_mismatches_self(a, a.len() as int);
}

proof fn lemma_mismatches_self(a: Seq<char>, n: int)
    ensures
        mismatches(a, a, n) == 0,
    decreases n,
{
    if n > 0 {
        lemma_mismatches_self(a, n - 1);
    }
}

/// For sequences of one length, the distance does not depend on the order
/// of the two arguments.
pub proof fn lemma_hamming_symmetric(a: Seq<char>, b: Seq<char>)
    requires
        a.len() == b.len(),
    ensures
        hamming(a, b) == hamming(b, a),
{
    lemma_mismatches_symmetric(a, b, a.len() as int);
}

proof fn lemma_mismatches_symmetric(a: Seq<char>, b: Seq<char>, n: int)
    ensures
        mismatches(a, b, n) == mismatches(b, a, n),
    decreases n,
{
    if n > 0 {
        lemma_mismatches_symmetric(a, b, n - 1);
    }
}

/// Distances between sequences of different lengths are undefined, in
/// either order.
pub proof fn lemma_hamming_undefined(a: Seq<char>, b: Seq<char>)
    requires
        a.len() != b.len(),
    ensures
        hamming_opt(a, b) is None,
        hamming_opt(b, a) is None,
{
}

impl Sequence {
    /// The number of symbols.
    pub fn length(&self) -> (r: usize)
        ensures
            r == self.content@.len(),
    {
        self.content.as_str().unicode_len()
    }

    /// Counts the positions at which the two sequences differ; `None` when
    /// their lengths differ.
    pub fn hamming_distance(&self, other: &Sequence) -> (r: Option<u64>)
        ensures
            is_hamming_result(r, self.content@, other.content@),
    {
        let a = chars_of(self.content.as_str());
        let b = chars_of(other.content.as_str());
        if a.len() != b.len() {
            return None;
        }
        let mut count: u64 = 0;
        let mut i: usize = 0;
        while i < a.len()
            invariant
                i <= a@.len(),
                a@ == self.content@,
                b@ == other.content@,
                a@.len() == b@.len(),
                count == mismatches(a@, b@, i as int),
                count <= i,
            decreases a@.len() - i,
        {
            if a[i] != b[i] {
                count = count + 1;
            }
            i = i + 1;
        }
        Some(count)
    }

    /// The record as text: the label after `>` on one line, the content on
    /// the next.
    pub fn to_string(&self) -> (r: String)
        ensures
            r@ == seq!['>'] + self.label@ + seq!['\n'] + self.content@ + seq!['\n'],
    {
        let mut s = String::new();
        s.push('>');
        s.append(self.label.as_str());
        s.push('\n');
        s.append(self.content.as_str());
        s.push('\n');
        proof {
            assert(s@ =~= seq!['>'] + self.label@ + seq!['\n'] + self.content@ + seq!['\n']);
        }
        s
    }
}

/// The greatest content length among `s`, zero when `s` is empty.
pub open spec fn max_length(s: Seq<Sequence>) -> nat
    decreases s.len(),
{
    if s.len() == 0 {
        0
    } else {
        let m = max_length(s.drop_last());
        let l = s.last().content@.len();
        if l > m { l } else { m }
    }
}

/// `c` extended with gap symbols `-` up to length `n`.
pub open spec fn pad_to(c: Seq<char>, n: nat) -> Seq<char> {
    if c.len() >= n {
        c
    } else {
        c + Seq::new((n - c.len()) as nat, |i: int| '-')
    }
}

proof fn lemma_max_length(s: Seq<Sequence>)
    ensures
        forall|i: int| 0 <= i < s.len() ==> #[trigger] s[i].content@.len() <= max_length(s),
    decreases s.len(),
{
    if s.len() > 0 {
        lemma_max_length(s.drop_last());
        assert forall|i: int| 0 <= i < s.len() implies #[trigger] s[i].content@.len()
            <= max_length(s) by {
            if i < s.len() - 1 {
                assert(s[i] == s.drop_last()[i]);
            }
        }
    }
}

/// The greatest content length among `a` followed by `b`.
fn longest(a: &Vec<Sequence>, b: &Vec<Sequence>) -> (r: usize)
    requires
        a@.len() + b@.len() <= usize::MAX,
    ensures
        r == max_length(a@ + b@),
{
    let ghost all = a@ + b@;
    let mut best: usize = 0;
    let mut i: usize = 0;
    while i < a.len() + b.len()
        invariant
            all == a@ + b@,
            a@.len() + b@.len() <= usize::MAX,
            i <= all.len(),
            best == max_length(all.subrange(0, i as int)),
        decreases all.len() - i,
    {
        let l = if i < a.len() { a[i].length() } else { b[i - a.len()].length() };
        proof {
            assert(all.subrange(0, i + 1).drop_last() =~= all.subrange(0, i as int));
        }
        if l > best {
            best = l;
        }
        i = i + 1;
    }
    proof {
        assert(all.subrange(0, all.len() as int) =~= all);
    }
    best
}

/// A copy of `s` whose content is padded with `-` up to `n` symbols.
fn padded(s: &Sequence, n: usize) -> (r: Sequence)
    ensures
        r.label@ == s.label@,
        r.content@ == pad_to(s.content@, n as nat),
{
    let mut content = s.content.clone();
    let mut k: usize = s.length();
    while k < n
        invariant
            k == content@.len(),
            k <= n ==> content@ == s.content@ + Seq::new((k - s.content@.len()) as nat, |i: int| '-'),
            k > n ==> content@ == s.content@,
            k >= s.content@.len(),
        decreases n - k,
    {
        content.push('-');
        proof {
            assert(content@ =~= s.content@ + Seq::new((k + 1 - s.content@.len()) as nat, |i: int| '-'));
        }
        k = k + 1;
    }
    proof {
        if s.content@.len() >= n {
            assert(content@ == s.content@);
        } else {
            assert(content@ =~= pad_to(s.content@, n as nat));
        }
    }
    Sequence { label: s.label.clone(), content }
}

/// The sequences of `a` followed by those of `b`, each content padded with
/// `-` to the greatest content length among them all.
pub fn join(a: &Vec<Sequence>, b: &Vec<Sequence>) -> (r: Vec<Sequence>)
    requires
        a@.len() + b@.len() <= usize::MAX,
    ensures
        r@.len() == a@.len() + b@.len(),
        forall|i: int|
            0 <= i < r@.len() ==> (#[trigger] r@[i]).label@ == (a@ + b@)[i].label@ && r@[i].content@
                == pad_to((a@ + b@)[i].content@, max_length(a@ + b@)),
        forall|i: int| 0 <= i < r@.len() ==> (#[trigger] r@[i]).content@.len() == max_length(a@ + b@),
{
    let n = longest(a, b);
    let ghost all = a@ + b@;
    let mut out: Vec<Sequence> = Vec::new();
    let mut i: usize = 0;
    while i < a.len() + b.len()
        invariant
            all == a@ + b@,
            a@.len() + b@.len() <= usize::MAX,
            n == max_length(all),
            i <= all.len(),
            out@.len() == i,
            forall|j: int|
                0 <= j < i ==> (#[trigger] out@[j]).label@ == all[j].label@ && out@[j].content@
                    == pad_to(all[j].content@, max_length(all)),
        decreases all.len() - i,
    {
        let s = if i < a.len() { &a[i] } else { &b[i - a.len()] };
        out.push(padded(s, n));
        i = i + 1;
    }
    proof {
        lemma_max_length(all);
        assert forall|j: int| 0 <= j < out@.len() implies (#[trigger] out@[j]).content@.len()
            == max_length(all) by {
            assert(all[j].content@.len() <= max_length(all));
        }
    }
    out
}

/// The distance of every ordered pair: the cell at column `i`, row `j`
/// compares `seqs[i]` with `seqs[j]`.
pub fn pairwise_hamming(seqs: &Vec<Sequence>) -> (m: Matrix<Option<u64>>)
    ensures
        m.wf(),
        m.spec_width() == seqs@.len(),
        m.spec_height() == seqs@.len(),
        forall|i: int, j: int|
            0 <= i < seqs@.len() && 0 <= j < seqs@.len() ==> is_hamming_result(
                #[trigger] m.cell(i, j),
                seqs@[i].content@,
                seqs@[j].content@,
            ),
{
    let n = seqs.len();
    let mut m: Matrix<Option<u64>> = Matrix::new(n, n, None);
    let mut i: usize = 0;
    while i < n
        invariant
            n == seqs@.len(),
            i <= n,
            m.wf(),
            m.spec_width() == n,
            m.spec_height() == n,
            forall|a: int, b: int|
                0 <= a < i && 0 <= b < n ==> is_hamming_result(
                    #[trigger] m.cell(a, b),
                    seqs@[a].content@,
                    seqs@[b].content@,
                ),
        decreases n - i,
    {
        let mut j: usize = 0;
        while j < n
            invariant
                n == seqs@.len(),
                i < n,
                j <= n,
                m.wf(),
                m.spec_width() == n,
                m.spec_height() == n,
                forall|a: int, b: int|
                    (0 <= a < i && 0 <= b < n) || (a == i && 0 <= b < j) ==> is_hamming_result(
                        #[trigger] m.cell(a, b),
                        seqs@[a].content@,
                        seqs@[b].content@,
                    ),
            decreases n - j,
        {
            let d = seqs[i].hamming_distance(&seqs[j]);
            let ghost before = m;
            m.set(i, j, d);
            proof {
                lemma_set_then_get(before, m, i as int, j as int, d);
            }
            j = j + 1;
        }
        i = i + 1;
    }
    m
}

/// The matrix of all pairwise distances is symmetric, with zero on its
/// diagonal.
pub proof fn lemma_pairwise_symmetric(seqs: Seq<Sequence>, m: Matrix<Option<u64>>, i: int, j: int)
    requires
        m.wf(),
        0 <= i < seqs.len(),
        0 <= j < seqs.len(),
        m.spec_width() == seqs.len(),
        m.spec_height() == seqs.len(),
        forall|a: int, b: int|
            0 <= a < seqs.len() && 0 <= b < seqs.len() ==> is_hamming_result(
                #[trigger] m.cell(a, b),
                seqs[a].content@,
                seqs[b].content@,
            ),
    ensures
        m.cell(i, j) == m.cell(j, i),
        m.cell(i, i) == Some(0u64),
{
    assert(is_hamming_result(m.cell(i, j), seqs[i].content@, seqs[j].content@));
    assert(is_hamming_result(m.cell(j, i), seqs[j].content@, seqs[i].content@));
    assert(is_hamming_result(m.cell(i, i), seqs[i].content@, seqs[i].content@));
    lemma_hamming_self(seqs[i].content@);
    if seqs[i].content@.len() == seqs[j].content@.len() {
        lemma_hamming_symmetric(seqs[i].content@, seqs[j].content@);
    }
}

} // verus!
