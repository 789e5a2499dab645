//! Longest common subsequence over sequences of character strings, and the
//! edit script that walks it. Both the block level and the token level of the
//! body diff run through here.

use vstd::prelude::*;

verus! {

/// One step of an edit script; indices point into the old and new sequence.
#[derive(Debug, Clone, Copy, PartialEq, Eq)]
pub enum DiffOp {
    Same(usize, usize),
    Delete(usize),
    Insert(usize),
}

/// Length of a longest common subsequence of `a[i..]` and `b[j..]`.
pub open spec fn lcs_len(a: Seq<Seq<char>>, b: Seq<Seq<char>>, i: int, j: int) -> nat
    decreases (a.len() - i) + (b.len() - j),
{
    if i >= a.len() || j >= b.len() || i < 0 || j < 0 {
        0
    } else if a[i] == b[j] {
        1 + lcs_len(a, b, i + 1, j + 1)
    } else {
        let down = lcs_len(a, b, i + 1, j);
        let right = lcs_len(a, b, i, j + 1);
        if down >= right {
            down
        } else {
            right
        }
    }
}

/// The edit script from `a[i..]` to `b[j..]`: equal heads are kept, otherwise
/// the side whose removal keeps the longer common subsequence is consumed,
/// deletions first on a tie.
pub open spec fn script(a: Seq<Seq<char>>, b: Seq<Seq<char>>, i: int, j: int) -> Seq<DiffOp>
    decreases (a.len() - i) + (b.len() - j),
{
    if i < 0 || j < 0 || i > a.len() || j > b.len() || (i == a.len() && j == b.len()) {
        seq![]
    } else if i == a.len() {
        seq![DiffOp::Insert(j as usize)] + script(a, b, i, j + 1)
    } else if j == b.len() {
        seq![DiffOp::Delete(i as usize)] + script(a, b, i + 1, j)
    } else if a[i] == b[j] {
        seq![DiffOp::Same(i as usize, j as usize)] + script(a, b, i + 1, j + 1)
    } else if lcs_len(a, b, i + 1, j) >= lcs_len(a, b, i, j + 1) {
        seq![DiffOp::Delete(i as usize)] + script(a, b, i + 1, j)
    } else {
        seq![DiffOp::Insert(j as usize)] + script(a, b, i, j + 1)
    }
}

/// The old-side indices an edit script walks through (kept and deleted).
pub open spec fn old_indices(ops: Seq<DiffOp>) -> Seq<int>
    decreases ops.len(),
{
    if ops.len() == 0 {
        seq![]
    } else {
        let rest = old_indices(ops.drop_first());
        match ops[0] {
            DiffOp::Same(i, _) => seq![i as int] + rest,
            DiffOp::Delete(i) => seq![i as int] + rest,
            DiffOp::Insert(_) => rest,
        }
    }
}

/// The new-side indices an edit script walks through (kept and inserted).
pub open spec fn new_indices(ops: Seq<DiffOp>) -> Seq<int>
    decreases ops.len(),
{
    if ops.len() == 0 {
        seq![]
    } else {
        let rest = new_indices(ops.drop_first());
        match ops[0] {
            DiffOp::Same(_, j) => seq![j as int] + rest,
            DiffOp::Insert(j) => seq![j as int] + rest,
            DiffOp::Delete(_) => rest,
        }
    }
}

/// How many elements an edit script keeps.
pub open spec fn kept(ops: Seq<DiffOp>) -> nat
    decreases ops.len(),
{
    if ops.len() == 0 {
        0
    } else {
        kept(ops.drop_first()) + if ops[0] is Same {
            1nat
        } else {
            0nat
        }
    }
}

/// The integers `lo, lo + 1, .., hi - 1`.
pub open spec fn range_seq(lo: int, hi: int) -> Seq<int> {
    Seq::new((hi - lo) as nat, |k: int| lo + k)
}

/// Every `Same` step of the script pairs equal elements.
pub open spec fn pairs_equal(a: Seq<Seq<char>>, b: Seq<Seq<char>>, ops: Seq<DiffOp>) -> bool {
    forall|k: int|
        0 <= k < ops.len() ==> match #[trigger] ops[k] {
            DiffOp::Same(x, y) => x < a.len() && y < b.len() && a[x as int] == b[y as int],
            _ => true,
        }
}

proof fn lemma_lcs_bounded(a: Seq<Seq<char>>, b: Seq<Seq<char>>, i: int, j: int)
    requires
        0 <= i <= a.len(),
        0 <= j <= b.len(),
    ensures
        lcs_len(a, b, i, j) <= a.len() - i,
        lcs_len(a, b, i, j) <= b.len() - j,
    decreases (a.len() - i) + (b.len() - j),
{
    if i < a.len() && j < b.len() {
        lemma_lcs_bounded(a, b, i + 1, j + 1);
        lemma_lcs_bounded(a, b, i + 1, j);
        lemma_lcs_bounded(a, b, i, j + 1);
    }
}

/// The script is an alignment: read on the old side it visits `a[i..]` in
/// order, read on the new side it visits `b[j..]` in order, every kept pair
/// is equal, and it keeps exactly a longest common subsequence.
pub proof fn lemma_script_aligns(a: Seq<Seq<char>>, b: Seq<Seq<char>>, i: int, j: int)
    requires
        a.len() <= usize::MAX,
        b.len() <= usize::MAX,
        0 <= i <= a.len(),
        0 <= j <= b.len(),
    ensures
        old_indices(script(a, b, i, j)) == range_seq(i, a.len() as int),
        new_indices(script(a, b, i, j)) == range_seq(j, b.len() as int),
        pairs_equal(a, b, script(a, b, i, j)),
        kept(script(a, b, i, j)) == lcs_len(a, b, i, j),
    decreases (a.len() - i) + (b.len() - j),
{
    let s = script(a, b, i, j);
    if i >= a.len() && j >= b.len() {
        assert(range_seq(i, a.len() as int) =~= seq![]);
        assert(range_seq(j, b.len() as int) =~= seq![]);
    } else {
        let (ni, nj) = if i == a.len() {
            (i, j + 1)
        } else if j == b.len() {
            (i + 1, j)
        } else if a[i] == b[j] {
            (i + 1, j + 1)
        } else if lcs_len(a, b, i + 1, j) >= lcs_len(a, b, i, j + 1) {
            (i + 1, j)
        } else {
            (i, j + 1)
        };
        lemma_script_aligns(a, b, ni, nj);
        let rest = script(a, b, ni, nj);
        assert(s.drop_first() =~= rest);
        if ni == i + 1 {
            assert(range_seq(i, a.len() as int) =~= seq![i] + range_seq(i + 1, a.len() as int));
        } else {
            assert(range_seq(i, a.len() as int) =~= range_seq(ni, a.len() as int));
        }
        if nj == j + 1 {
            assert(range_seq(j, b.len() as int) =~= seq![j] + range_seq(j + 1, b.len() as int));
        } else {
            assert(range_seq(j, b.len() as int) =~= range_seq(nj, b.len() as int));
        }
        assert forall|k: int| 0 <= k < s.len() implies match #[trigger] s[k] {
            DiffOp::Same(x, y) => x < a.len() && y < b.len() && a[x as int] == b[y as int],
            _ => true,
        } by {
            if k > 0 {
                assert(s[k] == rest[k - 1]);
            }
        }
    }
}

/// Equality of two character vectors.
pub fn chars_eq(x: &Vec<char>, y: &Vec<char>) -> (r: bool)
    ensures
        r == (x@ == y@),
{
    if x.len() != y.len() {
        return false;
    }
    let mut k: usize = 0;
    while k < x.len()
        invariant
            x.len() == y.len(),
            0 <= k <= x.len(),
            forall|t: int| 0 <= t < k ==> x@[t] == y@[t],
        decreases x.len() - k,
    {
        if x[k] != y[k] {
            return false;
        }
        k += 1;
    }
    assert(x@ =~= y@);
    true
}

/// A vector of `len` zeros.
fn zeros(len: usize) -> (v: Vec<usize>)
    ensures
        v.len() == len,
        forall|k: int| 0 <= k < len ==> v[k] == 0,
{
    let mut v = Vec::new();
    while v.len() < len
        invariant
            v.len() <= len,
            forall|k: int| 0 <= k < v.len() ==> v[k] == 0,
        decreases len - v.len(),
    {
        v.push(0);
    }
    v
}

/// The edit script when one side is empty: everything inserted or deleted.
fn one_sided(a: &Vec<Vec<char>>, b: &Vec<Vec<char>>) -> (ops: Vec<DiffOp>)
    requires
        a.len() == 0 || b.len() == 0,
    ensures
        ops@ == script(a.deep_view(), b.deep_view(), 0, 0),
{
    let ghost da = a.deep_view();
    let ghost db = b.deep_view();
    let mut out: Vec<DiffOp> = Vec::new();
    let mut i: usize = 0;
    while i < a.len()
        invariant
            da == a.deep_view(),
            db == b.deep_view(),
            db.len() == 0 || da.len() == 0,
            i <= a.len(),
            out@ + script(da, db, i as int, 0) == script(da, db, 0, 0),
        decreases a.len() - i,
    {
        let ghost before = out@;
        out.push(DiffOp::Delete(i));
        i += 1;
        assert(out@ + script(da, db, i as int, 0) =~= before + script(da, db, (i - 1) as int, 0));
    }
    let mut j: usize = 0;
    while j < b.len()
        invariant
            da == a.deep_view(),
            db == b.deep_view(),
            i == a.len(),
            j <= b.len(),
            out@ + script(da, db, i as int, j as int) == script(da, db, 0, 0),
        decreases b.len() - j,
    {
        let ghost before = out@;
        out.push(DiffOp::Insert(j));
        j += 1;
        assert(out@ + script(da, db, i as int, j as int) =~= before + script(da, db, i as int, (j - 1) as int));
    }
    assert(script(da, db, i as int, j as int) =~= seq![]);
    assert(out@ =~= script(da, db, 0, 0));
    out
}

/// The edit script from `a` to `b` (see [`script`]), computed with a table of
/// common-subsequence lengths and a walk back through it.
pub fn lcs_ops(a: &Vec<Vec<char>>, b: &Vec<Vec<char>>) -> (ops: Vec<DiffOp>)
    requires
        a.len() == 0 || b.len() == 0 || (a.len() < usize::MAX && b.len() < usize::MAX),
    ensures
        ops@ == script(a.deep_view(), b.deep_view(), 0, 0),
{
    let ghost da = a.deep_view();
    let ghost db = b.deep_view();
    let n = a.len();
    let m = b.len();
    assert(da.len() == n && db.len() == m);
    if n == 0 || m == 0 {
        return one_sided(a, b);
    }
    // table[k][j] is the LCS length of a[n - k..] and b[j..]
    let mut table: Vec<Vec<usize>> = Vec::new();
    table.push(zeros(m + 1));
    let mut i = n;
    while i > 0
        invariant
            n == a.len(),
            m == b.len(),
            da == a.deep_view(),
            db == b.deep_view(),
            i <= n,
            m < usize::MAX,
            table.len() == n - i + 1,
            forall|k: int| #![trigger table[k]] 0 <= k < table.len() ==> table[k].len() == m + 1,
            forall|k: int, jj: int|
                0 <= k < table.len() && 0 <= jj <= m ==> #[trigger] table[k][jj] == lcs_len(
                    da,
                    db,
                    n - k,
                    jj,
                ),
        decreases i,
    {
        i -= 1;
        let last = table.len() - 1;
        let mut row = zeros(m + 1);
        let mut j = m;
        while j > 0
            invariant
                n == a.len(),
                m == b.len(),
                da == a.deep_view(),
                db == b.deep_view(),
                i < n,
                last == table.len() - 1,
                table.len() == n - i,
                table[last as int].len() == m + 1,
                forall|jj: int| 0 <= jj <= m ==> #[trigger] table[last as int][jj] == lcs_len(da, db, i + 1, jj),
                j <= m,
                row.len() == m + 1,
                row[m as int] == 0,
                forall|jj: int| j <= jj <= m ==> #[trigger] row[jj] == lcs_len(da, db, i as int, jj),
            decreases j,
        {
            j -= 1;
            assert(da[i as int] == a@[i as int]@);
            assert(db[j as int] == b@[j as int]@);
            proof {
                lemma_lcs_bounded(da, db, i as int, j as int);
                lemma_lcs_bounded(da, db, i + 1, j + 1);
            }
            let v = if chars_eq(&a[i], &b[j]) {
                table[last][j + 1] + 1
            } else {
                let down = table[last][j];
                let right = row[j + 1];
                if down >= right {
                    down
                } else {
                    right
                }
            };
            row.set(j, v);
        }
        proof {
            assert(lcs_len(da, db, i as int, m as int) == 0);
        }
        table.push(row);
    }
    // walk back through the table
    let mut out: Vec<DiffOp> = Vec::new();
    let mut i: usize = 0;
    let mut j: usize = 0;
    while i < n && j < m
        invariant
            n == a.len(),
            m == b.len(),
            da == a.deep_view(),
            db == b.deep_view(),
            i <= n,
            j <= m,
            table.len() == n + 1,
            forall|k: int| #![trigger table[k]] 0 <= k < table.len() ==> table[k].len() == m + 1,
            forall|k: int, jj: int|
                0 <= k < table.len() && 0 <= jj <= m ==> #[trigger] table[k][jj] == lcs_len(
                    da,
                    db,
                    n - k,
                    jj,
                ),
            out@ + script(da, db, i as int, j as int) == script(da, db, 0, 0),
        decreases (n - i) + (m - j),
    {
        let ghost before = out@;
        let ghost i0 = i as int;
        let ghost j0 = j as int;
        assert(da[i as int] == a@[i as int]@);
        assert(db[j as int] == b@[j as int]@);
        if chars_eq(&a[i], &b[j]) {
            out.push(DiffOp::Same(i, j));
            i += 1;
            j += 1;
        } else if table[n - (i + 1)][j] >= table[n - i][j + 1] {
            out.push(DiffOp::Delete(i));
            i += 1;
        } else {
            out.push(DiffOp::Insert(j));
            j += 1;
        }
        assert(script(da, db, i0, j0) =~= seq![out@.last()] + script(da, db, i as int, j as int));
        assert(out@ + script(da, db, i as int, j as int) =~= before + script(da, db, i0, j0));
    }
    while i < n
        invariant
            n == a.len(),
            m == b.len(),
            da == a.deep_view(),
            db == b.deep_view(),
            i <= n,
            i < n ==> j == m,
            j <= m,
            out@ + script(da, db, i as int, j as int) == script(da, db, 0, 0),
        decreases n - i,
    {
        let ghost before = out@;
        out.push(DiffOp::Delete(i));
        i += 1;
        assert(out@ + script(da, db, i as int, j as int) =~= before + script(da, db, (i - 1) as int, j as int));
    }
    while j < m
        invariant
            n == a.len(),
            m == b.len(),
            da == a.deep_view(),
            db == b.deep_view(),
            i == n,
            j <= m,
            out@ + script(da, db, i as int, j as int) == script(da, db, 0, 0),
        decreases m - j,
    {
        let ghost before = out@;
        out.push(DiffOp::Insert(j));
        j += 1;
        assert(out@ + script(da, db, i as int, j as int) =~= before + script(da, db, i as int, (j - 1) as int));
    }
    assert(script(da, db, n as int, m as int) =~= seq![]);
    assert(out@ =~= script(da, db, 0, 0));
    out
}

} // verus!
