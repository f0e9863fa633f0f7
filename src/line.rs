use vstd::prelude::*;

verus! {

/// The values of a line of cells, as mathematical integers.
pub open spec fn ints(s: Seq<u32>) -> Seq<int> {
    s.map_values(|v: u32| v as int)
}

/// The sum of a sequence of values.
pub open spec fn total(s: Seq<int>) -> int
    decreases s.len(),
{
    if s.len() == 0 {
        0
    } else {
        s[0] + total(s.skip(1))
    }
}

/// The non-empty cells of a line, in order.
pub open spec fn nonzeros(s: Seq<int>) -> Seq<int>
    decreases s.len(),
{
    if s.len() == 0 {
        seq![]
    } else if s[0] != 0 {
        seq![s[0]] + nonzeros(s.skip(1))
    } else {
        nonzeros(s.skip(1))
    }
}

/// Merges a packed line of tiles from its leading end: two equal neighbours
/// become one tile of twice the value, and a tile made by a merge is not
/// merged again.
pub open spec fn merged(t: Seq<int>) -> Seq<int>
    decreases t.len(),
{
    if t.len() == 0 {
        seq![]
    } else if t.len() >= 2 && t[0] == t[1] {
        seq![2 * t[0]] + merged(t.skip(2))
    } else {
        seq![t[0]] + merged(t.skip(1))
    }
}

/// The points that `merged` earns: the value of each tile it forms.
pub open spec fn merge_gain(t: Seq<int>) -> int
    decreases t.len(),
{
    if t.len() == 0 {
        0
    } else if t.len() >= 2 && t[0] == t[1] {
        2 * t[0] + merge_gain(t.skip(2))
    } else {
        merge_gain(t.skip(1))
    }
}

/// `t` followed by empty cells up to length `n`.
pub open spec fn padded(t: Seq<int>, n: nat) -> Seq<int> {
    t + Seq::new((n - t.len()) as nat, |i: int| 0int)
}

/// A line after a move toward its first cell: packed, merged, packed again.
pub open spec fn slid(s: Seq<int>) -> Seq<int> {
    padded(merged(nonzeros(s)), s.len())
}

/// The points a move earns on one line.
pub open spec fn line_gain(s: Seq<int>) -> int {
    merge_gain(nonzeros(s))
}

/// Every value is at least zero.
pub open spec fn all_nonneg(s: Seq<int>) -> bool {
    forall|i: int| 0 <= i < s.len() ==> s[i] >= 0
}

/// Every value is positive.
pub open spec fn all_pos(s: Seq<int>) -> bool {
    forall|i: int| 0 <= i < s.len() ==> s[i] > 0
}

/// `v` is a power of two (one included).
pub open spec fn is_pow2(v: int) -> bool
    decreases v,
{
    if v <= 0 {
        false
    } else if v == 1 {
        true
    } else {
        v % 2 == 0 && is_pow2(v / 2)
    }
}

/// A cell value: empty (zero) or a power of two of at least two.
pub open spec fn is_tile(v: int) -> bool {
    v == 0 || (v >= 2 && is_pow2(v))
}

/// Every value is a cell value.
pub open spec fn all_tiles(s: Seq<int>) -> bool {
    forall|i: int| 0 <= i < s.len() ==> is_tile(s[i])
}


proof fn lemma_total_cons(a: int, x: Seq<int>)
    ensures
        total(seq![a] + x) == a + total(x),
{
    assert((seq![a] + x).skip(1) =~= x);
}

proof fn lemma_total_skip(s: Seq<int>, j: int)
    requires
        0 <= j < s.len(),
    ensures
        total(s.skip(j)) == s[j] + total(s.skip(j + 1)),
{
    assert(s.skip(j).skip(1) =~= s.skip(j + 1));
}

/// The sum of four values, written out.
pub(crate) proof fn lemma_total4(s: Seq<int>)
    requires
        s.len() == 4,
    ensures
        total(s) == s[0] + s[1] + s[2] + s[3],
{
    lemma_total_skip(s, 0);
    lemma_total_skip(s, 1);
    lemma_total_skip(s, 2);
    lemma_total_skip(s, 3);
    assert(s.skip(0) =~= s);
    assert(s.skip(4) =~= Seq::<int>::empty());
}

proof fn lemma_total_concat(a: Seq<int>, b: Seq<int>)
    ensures
        total(a + b) == total(a) + total(b),
    decreases a.len(),
{
    if a.len() > 0 {
        assert((a + b).skip(1) =~= a.skip(1) + b);
        lemma_total_concat(a.skip(1), b);
    }
}

proof fn lemma_total_zeros(n: nat)
    ensures
        total(Seq::new(n, |i: int| 0int)) == 0,
    decreases n,
{
    if n > 0 {
        assert(Seq::new(n, |i: int| 0int).skip(1) =~= Seq::new((n - 1) as nat, |i: int| 0int));
        lemma_total_zeros((n - 1) as nat);
    }
}

pub(crate) proof fn lemma_total_nonneg(s: Seq<int>)
    requires
        all_nonneg(s),
    ensures
        total(s) >= 0,
    decreases s.len(),
{
    if s.len() > 0 {
        lemma_total_nonneg(s.skip(1));
    }
}

/// Packing keeps the sum, drops only empty cells, and keeps cell values.
pub proof fn lemma_nonzeros(s: Seq<int>)
    ensures
        total(nonzeros(s)) == total(s),
        nonzeros(s).len() <= s.len(),
        forall|i: int| 0 <= i < nonzeros(s).len() ==> nonzeros(s)[i] != 0,
        all_nonneg(s) ==> all_pos(nonzeros(s)),
        all_tiles(s) ==> all_tiles(nonzeros(s)),
        nonzeros(s).len() == s.len() ==> nonzeros(s) == s,
    decreases s.len(),
{
    if s.len() > 0 {
        let r = nonzeros(s.skip(1));
        lemma_nonzeros(s.skip(1));
        if s[0] != 0 {
            lemma_total_cons(s[0], r);
            if nonzeros(s).len() == s.len() {
                assert(s =~= seq![s[0]] + s.skip(1));
            }
        }
    }
}

proof fn lemma_pow2_double(v: int)
    requires
        is_tile(v),
        v > 0,
    ensures
        is_tile(2 * v),
{
    assert(is_pow2(2 * v)) by {
        assert((2 * v) / 2 == v);
    }
}

/// Merging keeps the sum, earns no more than the sum, never lengthens the
/// line, and changes it exactly when it earns points.
pub proof fn lemma_merged(t: Seq<int>)
    requires
        all_pos(t),
    ensures
        total(merged(t)) == total(t),
        0 <= merge_gain(t) <= total(t),
        merged(t).len() <= t.len(),
        merge_gain(t) > 0 ==> merged(t).len() < t.len(),
        merged(t).len() == t.len() ==> merged(t) == t,
        all_pos(merged(t)),
        all_tiles(t) ==> all_tiles(merged(t)),
    decreases t.len(),
{
    if t.len() > 0 {
        if t.len() >= 2 && t[0] == t[1] {
            let r = merged(t.skip(2));
            lemma_merged(t.skip(2));
            lemma_total_cons(2 * t[0], r);
            lemma_total_skip(t, 0);
            lemma_total_skip(t, 1);
            assert(t.skip(0) =~= t);
            if all_tiles(t) {
                lemma_pow2_double(t[0]);
                assert(is_tile(t[0]));
            }
        } else {
            let r = merged(t.skip(1));
            lemma_merged(t.skip(1));
            lemma_total_cons(t[0], r);
            lemma_total_skip(t, 0);
            assert(t.skip(0) =~= t);
            if merged(t).len() == t.len() {
                assert(t =~= seq![t[0]] + t.skip(1));
            }
        }
    }
}


proof fn lemma_nonzeros_of_padded(m: Seq<int>, n: nat)
    requires
        all_pos(m),
        m.len() <= n,
    ensures
        nonzeros(padded(m, n)) == m,
    decreases m.len(),
{
    let z = Seq::new((n - m.len()) as nat, |i: int| 0int);
    if m.len() == 0 {
        assert(padded(m, n) =~= z);
        lemma_nonzeros_of_zeros((n - m.len()) as nat);
    } else {
        let rest = m.skip(1);
        assert(padded(m, n).skip(1) =~= padded(rest, (n - 1) as nat));
        lemma_nonzeros_of_padded(rest, (n - 1) as nat);
        assert(m =~= seq![m[0]] + rest);
    }
}

proof fn lemma_nonzeros_of_zeros(k: nat)
    ensures
        nonzeros(Seq::new(k, |i: int| 0int)) =~= Seq::<int>::empty(),
    decreases k,
{
    if k > 0 {
        assert(Seq::new(k, |i: int| 0int).skip(1) =~= Seq::new((k - 1) as nat, |i: int| 0int));
        lemma_nonzeros_of_zeros((k - 1) as nat);
    }
}

/// What a move does to one line of cell values: it keeps the sum and the
/// kind of values, earns no more than the sum, earns nothing when it leaves
/// the line as it was, and leaves an empty cell when it changes the line.
pub proof fn lemma_slid(s: Seq<int>)
    requires
        all_tiles(s),
    ensures
        slid(s).len() == s.len(),
        total(slid(s)) == total(s),
        0 <= line_gain(s) <= total(s),
        all_tiles(slid(s)),
        slid(s) == s ==> line_gain(s) == 0,
        slid(s) != s ==> exists|k: int| 0 <= k < s.len() && slid(s)[k] == 0,
{
    let t = nonzeros(s);
    let m = merged(t);
    let z = Seq::new((s.len() - m.len()) as nat, |i: int| 0int);
    lemma_nonzeros(s);
    assert(all_nonneg(s));
    lemma_merged(t);
    lemma_total_concat(m, z);
    lemma_total_zeros((s.len() - m.len()) as nat);
    assert(all_tiles(slid(s)));
    if slid(s) == s {
        lemma_nonzeros_of_padded(m, s.len());
    }
    if slid(s) != s {
        if m.len() == s.len() {
            assert(slid(s) =~= s);
        }
        assert(slid(s)[s.len() - 1] == 0);
    }
}

/// A line with no empty cell and no two equal neighbours is left as it is
/// by a move.
pub proof fn lemma_slid_fixed(s: Seq<int>)
    requires
        forall|k: int| 0 <= k < s.len() ==> #[trigger] s[k] != 0,
        forall|k: int| 0 <= k < s.len() - 1 ==> #[trigger] s[k] != s[k + 1],
    ensures
        slid(s) == s,
{
    lemma_nonzeros_full(s);
    lemma_merged_distinct(s);
    assert(slid(s) =~= s);
}

proof fn lemma_nonzeros_full(s: Seq<int>)
    requires
        forall|k: int| 0 <= k < s.len() ==> #[trigger] s[k] != 0,
    ensures
        nonzeros(s) == s,
    decreases s.len(),
{
    if s.len() > 0 {
        let rest = s.skip(1);
        assert forall|k: int| 0 <= k < rest.len() implies #[trigger] rest[k] != 0 by {
            assert(rest[k] == s[k + 1]);
        }
        lemma_nonzeros_full(rest);
        assert(s =~= seq![s[0]] + rest);
    }
}

proof fn lemma_merged_distinct(t: Seq<int>)
    requires
        forall|k: int| 0 <= k < t.len() - 1 ==> #[trigger] t[k] != t[k + 1],
    ensures
        merged(t) == t,
    decreases t.len(),
{
    if t.len() > 0 {
        let rest = t.skip(1);
        assert forall|k: int| 0 <= k < rest.len() - 1 implies #[trigger] rest[k] != rest[k + 1] by {
            assert(rest[k] == t[k + 1]);
            assert(rest[k + 1] == t[k + 2]);
        }
        lemma_merged_distinct(rest);
        if t.len() >= 2 {
            assert(t[0] != t[1]);
        }
        assert(t =~= seq![t[0]] + rest);
    }
}

/// How many tiles of the packed line `t` each tile of `merged(t)` is made
/// of: two for a merge, one otherwise.
pub open spec fn merge_widths(t: Seq<int>) -> Seq<int>
    decreases t.len(),
{
    if t.len() == 0 {
        seq![]
    } else if t.len() >= 2 && t[0] == t[1] {
        seq![2int] + merge_widths(t.skip(2))
    } else {
        seq![1int] + merge_widths(t.skip(1))
    }
}

/// No tile takes part in more than one merge: the packed line `t` splits
/// into consecutive groups of one tile or of two equal tiles, each group
/// covering its own tiles only, and the `k`-th tile after merging is the sum
/// of the `k`-th group. A tile formed by a merge thus never merges again in
/// the same move, whatever its neighbours hold.
pub proof fn lemma_merge_once(t: Seq<int>)
    ensures
        merge_widths(t).len() == merged(t).len(),
        total(merge_widths(t)) == t.len(),
        forall|k: int|
            0 <= k < merge_widths(t).len() ==> {
                let w = #[trigger] merge_widths(t)[k];
                let first = total(merge_widths(t).take(k));
                &&& w == 1 || w == 2
                &&& 0 <= first && first + w <= t.len()
                &&& w == 1 ==> merged(t)[k] == t[first]
                &&& w == 2 ==> t[first] == t[first + 1] && merged(t)[k] == t[first] + t[first + 1]
            },
    decreases t.len(),
{
    if t.len() > 0 {
        let n: int = if t.len() >= 2 && t[0] == t[1] {
            2
        } else {
            1
        };
        let rest = t.skip(n);
        lemma_merge_once(rest);
        let w = merge_widths(t);
        let wr = merge_widths(rest);
        assert(w == seq![n] + wr);
        lemma_total_cons(n, wr);
        assert forall|k: int| 0 <= k < w.len() implies {
            let wk = #[trigger] w[k];
            let first = total(w.take(k));
            &&& wk == 1 || wk == 2
            &&& 0 <= first && first + wk <= t.len()
            &&& wk == 1 ==> merged(t)[k] == t[first]
            &&& wk == 2 ==> t[first] == t[first + 1] && merged(t)[k] == t[first] + t[first + 1]
        } by {
            if k == 0 {
                assert(w.take(0) =~= Seq::<int>::empty());
            } else {
                assert(w.take(k) =~= seq![n] + wr.take(k - 1));
                lemma_total_cons(n, wr.take(k - 1));
                assert(w[k] == wr[k - 1]);
                let f = total(wr.take(k - 1));
                assert(t[n + f] == rest[f]);
                if wr[k - 1] == 2 {
                    assert(t[n + f + 1] == rest[f + 1]);
                }
            }
        }
    }
}

/// The non-empty cells of `s`, in order.
pub fn compact_tiles(s: &Vec<u32>) -> (r: Vec<u32>)
    ensures
        ints(r@) == nonzeros(ints(s@)),
{
    let mut out: Vec<u32> = Vec::new();
    let mut i: usize = 0;
    assert(ints(s@).skip(0) =~= ints(s@));
    assert(ints(out@) =~= Seq::<int>::empty());
    assert(Seq::<int>::empty() + nonzeros(ints(s@)) =~= nonzeros(ints(s@)));
    while i < s.len()
        invariant
            i <= s.len(),
            ints(out@) + nonzeros(ints(s@).skip(i as int)) == nonzeros(ints(s@)),
        decreases s.len() - i,
    {
        let ghost u = ints(s@).skip(i as int);
        assert(u.skip(1) =~= ints(s@).skip(i as int + 1));
        let ghost before = ints(out@);
        if s[i] != 0 {
            out.push(s[i]);
            assert(ints(out@) =~= before + seq![s[i as int] as int]);
            assert(before + nonzeros(u) =~= ints(out@) + nonzeros(u.skip(1)));
        }
        i = i + 1;
    }
    assert(ints(s@).skip(i as int) =~= Seq::<int>::empty());
    assert(ints(out@) + Seq::<int>::empty() =~= ints(out@));
    out
}

/// Merges a packed line of tiles from its leading end, and returns the
/// merged line with the points it earns.
pub fn merge_tiles(t: &Vec<u32>) -> (r: (Vec<u32>, u32))
    requires
        all_pos(ints(t@)),
        total(ints(t@)) <= u32::MAX,
    ensures
        ints(r.0@) == merged(ints(t@)),
        r.1 == merge_gain(ints(t@)),
{
    let ghost whole = ints(t@);
    let mut out: Vec<u32> = Vec::new();
    let mut gain: u32 = 0;
    let mut j: usize = 0;
    proof {
        lemma_merged(whole);
        assert(whole.skip(0) =~= whole);
    }
    while j < t.len()
        invariant
            j <= t.len(),
            whole == ints(t@),
            all_pos(whole),
            merge_gain(whole) <= u32::MAX,
            ints(out@) + merged(whole.skip(j as int)) == merged(whole),
            gain + merge_gain(whole.skip(j as int)) == merge_gain(whole),
        decreases t.len() - j,
    {
        let ghost u = whole.skip(j as int);
        let ghost before = ints(out@);
        if j + 1 < t.len() && t[j] == t[j + 1] {
            assert(u.skip(2) =~= whole.skip(j as int + 2));
            proof {
                lemma_merged(u.skip(2));
            }
            let v = t[j] + t[j];
            out.push(v);
            gain = gain + v;
            assert(ints(out@) =~= before + seq![v as int]);
            assert(before + merged(u) =~= ints(out@) + merged(u.skip(2)));
            j = j + 2;
        } else {
            assert(u.skip(1) =~= whole.skip(j as int + 1));
            out.push(t[j]);
            assert(ints(out@) =~= before + seq![t[j as int] as int]);
            assert(before + merged(u) =~= ints(out@) + merged(u.skip(1)));
            j = j + 1;
        }
    }
    assert(whole.skip(j as int) =~= Seq::<int>::empty());
    assert(ints(out@) + Seq::<int>::empty() =~= ints(out@));
    (out, gain)
}

/// Moves a line of cells toward its first cell: the tiles are packed,
/// equal neighbours merge from the leading end (a merged tile does not merge
/// again), and the rest is filled with empty cells. Returns the new line and
/// the points earned.
pub fn slide_line(s: &Vec<u32>) -> (r: (Vec<u32>, u32))
    requires
        all_tiles(ints(s@)),
        total(ints(s@)) <= u32::MAX,
    ensures
        ints(r.0@) == slid(ints(s@)),
        r.1 == line_gain(ints(s@)),
        r.0@.len() == s@.len(),
{
    proof {
        lemma_nonzeros(ints(s@));
        assert(all_nonneg(ints(s@)));
    }
    let packed = compact_tiles(s);
    let (mut out, gain) = merge_tiles(&packed);
    proof {
        lemma_merged(ints(packed@));
    }
    let ghost m = ints(out@);
    while out.len() < s.len()
        invariant
            m.len() <= out@.len() <= s@.len(),
            ints(out@) == padded(m, out@.len() as nat),
        decreases s.len() - out.len(),
    {
        let ghost before = ints(out@);
        out.push(0);
        assert(ints(out@) =~= before.push(0int));
        assert(ints(out@) =~= padded(m, out@.len() as nat));
    }
    (out, gain)
}

} // verus!
