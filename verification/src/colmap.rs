//! A small map from columns to heights, kept as a vector of pairs; each
//! operation acts on the first pair with the given column, as a map would on
//! its only entry for that column.
use vstd::prelude::*;

verus! {

/// The first index below `n` whose pair has column `x`.
pub open spec fn first_upto(s: Seq<(int, int)>, x: int, n: nat) -> Option<nat>
    decreases n,
{
    if n == 0 {
        None
    } else {
        match first_upto(s, x, (n - 1) as nat) {
            Some(j) => Some(j),
            None => if s[n - 1].0 == x {
                Some((n - 1) as nat)
            } else {
                None
            },
        }
    }
}

/// The first index whose pair has column `x`.
pub open spec fn first_idx(s: Seq<(int, int)>, x: int) -> Option<nat> {
    first_upto(s, x, s.len())
}

/// The height stored for column `x`.
pub open spec fn get(s: Seq<(int, int)>, x: int) -> Option<int> {
    match first_idx(s, x) {
        Some(i) => Some(s[i as int].1),
        None => None,
    }
}

/// Stores `y` for column `x`.
pub open spec fn put(s: Seq<(int, int)>, x: int, y: int) -> Seq<(int, int)> {
    match first_idx(s, x) {
        Some(i) => s.update(i as int, (x, y)),
        None => s.push((x, y)),
    }
}

/// Stores `y` for column `x` unless the column already has a height.
pub open spec fn put_absent(s: Seq<(int, int)>, x: int, y: int) -> Seq<(int, int)> {
    match first_idx(s, x) {
        Some(_) => s,
        None => s.push((x, y)),
    }
}

/// Moves every entry by `(ox, oy)`.
pub open spec fn shift_all(s: Seq<(int, int)>, ox: int, oy: int) -> Seq<(int, int)> {
    s.map_values(|p: (int, int)| (p.0 + ox, p.1 + oy))
}

/// Adds the entries of `o` to `s`, in order; where a column is in both, the
/// larger height (`keep_max`) or the smaller one (`!keep_max`) stays.
pub open spec fn merge(s: Seq<(int, int)>, o: Seq<(int, int)>, keep_max: bool) -> Seq<(int, int)>
    decreases o.len(),
{
    if o.len() == 0 {
        s
    } else {
        let s1 = merge(s, o.drop_last(), keep_max);
        let p = o.last();
        match get(s1, p.0) {
            Some(y1) => if (keep_max && y1 < p.1) || (!keep_max && y1 > p.1) {
                put(s1, p.0, p.1)
            } else {
                s1
            },
            None => put(s1, p.0, p.1),
        }
    }
}

/// The largest value, if any.
pub open spec fn seq_max(v: Seq<int>) -> Option<int>
    decreases v.len(),
{
    if v.len() == 0 {
        None
    } else {
        match seq_max(v.drop_last()) {
            Some(m) => Some(if m >= v.last() {
                m
            } else {
                v.last()
            }),
            None => Some(v.last()),
        }
    }
}

/// The value, or 0 for none.
pub open spec fn or0(v: Option<int>) -> int {
    match v {
        Some(x) => x,
        None => 0,
    }
}

/// The view of a vector of pairs.
pub open spec fn pairs(v: Seq<(i32, i32)>) -> Seq<(int, int)> {
    v.map_values(|p: (i32, i32)| (p.0 as int, p.1 as int))
}

proof fn lemma_first_upto_stable(s: Seq<(int, int)>, x: int, n: nat, m: nat)
    requires
        n <= m,
        first_upto(s, x, n) is Some,
    ensures
        first_upto(s, x, m) == first_upto(s, x, n),
    decreases m,
{
    if m > n {
        lemma_first_upto_stable(s, x, n, (m - 1) as nat);
    }
}

proof fn lemma_first_upto_none(s: Seq<(int, int)>, x: int, n: nat)
    requires
        n <= s.len(),
    ensures
        first_upto(s, x, n) is None <==> forall|j: int| 0 <= j < n ==> s[j].0 != x,
        first_upto(s, x, n) matches Some(i) ==> i < n && s[i as int].0 == x,
    decreases n,
{
    if n > 0 {
        lemma_first_upto_none(s, x, (n - 1) as nat);
    }
}

/// The first index, when there is one, holds the column; when there is none,
/// no entry does.
pub proof fn lemma_first_idx(s: Seq<(int, int)>, x: int)
    ensures
        first_idx(s, x) matches Some(i) ==> i < s.len() && s[i as int].0 == x,
        first_idx(s, x) is None <==> forall|j: int| 0 <= j < s.len() ==> s[j].0 != x,
{
    lemma_first_upto_none(s, x, s.len());
}

/// A stored height is one of the entries' heights.
pub proof fn lemma_get_bounded(s: Seq<(int, int)>, x: int, b: int)
    requires
        bounded(s, b),
    ensures
        get(s, x) matches Some(v) ==> -b <= v <= b,
{
    lemma_first_idx(s, x);
}

/// Storing bounded values keeps the entries bounded.
pub proof fn lemma_put_bounded(s: Seq<(int, int)>, x: int, y: int, b: int)
    requires
        bounded(s, b),
        -b <= x <= b,
        -b <= y <= b,
    ensures
        bounded(put(s, x, y), b),
        bounded(put_absent(s, x, y), b),
{
    lemma_first_idx(s, x);
    assert forall|i: int| 0 <= i < put(s, x, y).len() implies -b <= #[trigger] put(s, x, y)[i].0
        <= b && -b <= put(s, x, y)[i].1 <= b by {
        if i < s.len() {
            assert(s[i].0 == s[i].0);
        }
    }
    if first_idx(s, x) is None {
        assert(put_absent(s, x, y) == s.push((x, y)));
        assert forall|i: int| 0 <= i < s.push((x, y)).len() implies -b <= #[trigger] s.push(
            (x, y),
        )[i].0 <= b && -b <= s.push((x, y))[i].1 <= b by {
            if i < s.len() {
                assert(s[i].0 == s[i].0);
            }
        }
    }
}

/// Merging bounded entries keeps them bounded.
pub proof fn lemma_merge_bounded(s: Seq<(int, int)>, o: Seq<(int, int)>, keep_max: bool, b: int)
    requires
        bounded(s, b),
        bounded(o, b),
    ensures
        bounded(merge(s, o, keep_max), b),
    decreases o.len(),
{
    if o.len() > 0 {
        assert(bounded(o.drop_last(), b)) by {
            assert forall|i: int| 0 <= i < o.drop_last().len() implies -b <= #[trigger] o.drop_last()[i].0 <= b
                && -b <= o.drop_last()[i].1 <= b by {
                assert(o.drop_last()[i] == o[i]);
            }
        }
        lemma_merge_bounded(s, o.drop_last(), keep_max, b);
        let s1 = merge(s, o.drop_last(), keep_max);
        assert(-b <= o.last().0 <= b && -b <= o.last().1 <= b) by {
            assert(o.last() == o[o.len() - 1]);
        }
        lemma_put_bounded(s1, o.last().0, o.last().1, b);
    }
}

/// Moving bounded entries by at most `c` keeps them within `b + c`.
pub proof fn lemma_shift_bounded(s: Seq<(int, int)>, ox: int, oy: int, b: int, c: int)
    requires
        bounded(s, b),
        -c <= ox <= c,
        -c <= oy <= c,
    ensures
        bounded(shift_all(s, ox, oy), b + c),
{
    assert forall|i: int| 0 <= i < shift_all(s, ox, oy).len() implies -(b + c) <= #[trigger] shift_all(
        s,
        ox,
        oy,
    )[i].0 <= b + c && -(b + c) <= shift_all(s, ox, oy)[i].1 <= b + c by {
        assert(s[i].0 == s[i].0);
    }
}

/// A largest value is one of the values; all of them lie within the bounds
/// that the values lie in.
pub proof fn lemma_seq_max_bounded(v: Seq<int>, lo: int, hi: int)
    requires
        forall|i: int| 0 <= i < v.len() ==> lo <= #[trigger] v[i] <= hi,
    ensures
        seq_max(v) matches Some(m) ==> lo <= m <= hi,
        v.len() > 0 ==> seq_max(v) is Some,
        forall|i: int| 0 <= i < v.len() ==> (seq_max(v) matches Some(m) && #[trigger] v[i] <= m),
    decreases v.len(),
{
    if v.len() > 0 {
        assert forall|i: int| 0 <= i < v.drop_last().len() implies lo <= #[trigger] v.drop_last()[i] <= hi by {
            assert(v.drop_last()[i] == v[i]);
        }
        lemma_seq_max_bounded(v.drop_last(), lo, hi);
        assert(v.last() == v[v.len() - 1]);
        assert forall|i: int| 0 <= i < v.len() implies (seq_max(v) matches Some(m) && #[trigger] v[i] <= m) by {
            if i < v.len() - 1 {
                assert(v.drop_last()[i] == v[i]);
            }
        }
    }
}

/// Finds the first index with column `x`.
pub fn find(s: &Vec<(i32, i32)>, x: i32) -> (r: Option<usize>)
    ensures
        r matches Some(i) ==> first_idx(pairs(s@), x as int) == Some(i as nat),
        r is None ==> first_idx(pairs(s@), x as int) is None,
        r matches Some(i) ==> i < s@.len(),
{
    let ghost ps = pairs(s@);
    let mut i: usize = 0;
    while i < s.len()
        invariant
            i <= s@.len(),
            ps == pairs(s@),
            first_upto(ps, x as int, i as nat) is None,
        decreases s@.len() - i,
    {
        if s[i].0 == x {
            proof {
                assert(ps[i as int].0 == x as int);
                assert(first_upto(ps, x as int, (i + 1) as nat) == Some(i as nat));
                lemma_first_upto_stable(ps, x as int, (i + 1) as nat, ps.len());
            }
            return Some(i);
        }
        proof {
            assert(ps[i as int].0 != x as int);
        }
        i = i + 1;
    }
    None
}

/// The height stored for column `x`.
pub fn get_exec(s: &Vec<(i32, i32)>, x: i32) -> (r: Option<i32>)
    ensures
        r matches Some(y) ==> get(pairs(s@), x as int) == Some(y as int),
        r is None ==> get(pairs(s@), x as int) is None,
{
    match find(s, x) {
        Some(i) => Some(s[i].1),
        None => None,
    }
}

/// Stores `y` for column `x`.
pub fn put_exec(s: &mut Vec<(i32, i32)>, x: i32, y: i32)
    ensures
        pairs(final(s)@) == put(pairs(old(s)@), x as int, y as int),
{
    match find(s, x) {
        Some(i) => {
            s.set(i, (x, y));
            proof {
                assert(pairs(s@) =~= pairs(old(s)@).update(i as int, (x as int, y as int)));
            }
        },
        None => {
            s.push((x, y));
            proof {
                assert(pairs(s@) =~= pairs(old(s)@).push((x as int, y as int)));
            }
        },
    }
}

/// Stores `y` for column `x` unless the column has a height.
pub fn put_absent_exec(s: &mut Vec<(i32, i32)>, x: i32, y: i32)
    ensures
        pairs(final(s)@) == put_absent(pairs(old(s)@), x as int, y as int),
{
    match find(s, x) {
        Some(_) => {},
        None => {
            s.push((x, y));
            proof {
                assert(pairs(s@) =~= pairs(old(s)@).push((x as int, y as int)));
            }
        },
    }
}

/// Adds the entries of `o` to `s` (see `merge`).
pub fn merge_exec(s: &mut Vec<(i32, i32)>, o: &Vec<(i32, i32)>, keep_max: bool)
    ensures
        pairs(final(s)@) == merge(pairs(old(s)@), pairs(o@), keep_max),
{
    let ghost po = pairs(o@);
    let mut i: usize = 0;
    proof {
        assert(po.take(0) =~= seq![]);
    }
    while i < o.len()
        invariant
            i <= o@.len(),
            po == pairs(o@),
            pairs(s@) == merge(pairs(old(s)@), po.take(i as int), keep_max),
        decreases o@.len() - i,
    {
        let (x, y) = o[i];
        proof {
            assert(po.take(i as int + 1).drop_last() =~= po.take(i as int));
            assert(po.take(i as int + 1).last() == (x as int, y as int));
        }
        match get_exec(s, x) {
            Some(y1) => {
                if (keep_max && y1 < y) || (!keep_max && y1 > y) {
                    put_exec(s, x, y);
                }
            },
            None => {
                put_exec(s, x, y);
            },
        }
        i = i + 1;
    }
    proof {
        assert(po.take(o@.len() as int) =~= po);
    }
}


/// Every column and height lies in `[-b, b]`.
pub open spec fn bounded(s: Seq<(int, int)>, b: int) -> bool {
    forall|i: int| 0 <= i < s.len() ==> -b <= #[trigger] s[i].0 <= b && -b <= s[i].1 <= b
}

/// Every column lies in `[x0, x1]` and every height in `[y0, y1]`.
pub open spec fn within(s: Seq<(int, int)>, x0: int, x1: int, y0: int, y1: int) -> bool {
    forall|i: int| 0 <= i < s.len() ==> x0 <= #[trigger] s[i].0 <= x1 && y0 <= s[i].1 <= y1
}

/// The first index depends only on the columns.
proof fn lemma_first_upto_keys(s: Seq<(int, int)>, s2: Seq<(int, int)>, x: int, n: nat)
    requires
        n <= s.len(),
        n <= s2.len(),
        forall|j: int| 0 <= j < n ==> s[j].0 == s2[j].0,
    ensures
        first_upto(s, x, n) == first_upto(s2, x, n),
    decreases n,
{
    if n > 0 {
        lemma_first_upto_keys(s, s2, x, (n - 1) as nat);
    }
}

/// What `get` returns after `put`.
pub proof fn lemma_get_put(s: Seq<(int, int)>, x: int, y: int, x2: int)
    ensures
        get(put(s, x, y), x2) == (if x2 == x {
            Some(y)
        } else {
            get(s, x2)
        }),
        get(put_absent(s, x, y), x2) == (if x2 == x && get(s, x) is None {
            Some(y)
        } else {
            get(s, x2)
        }),
{
    lemma_first_idx(s, x);
    lemma_first_idx(s, x2);
    match first_idx(s, x) {
        Some(i) => {
            let s1 = s.update(i as int, (x, y));
            lemma_first_upto_keys(s, s1, x2, s.len());
            lemma_first_idx(s1, x2);
        },
        None => {
            let s1 = s.push((x, y));
            lemma_first_upto_keys(s, s1, x2, s.len());
            lemma_first_idx(s1, x2);
            if x2 == x {
                assert(first_upto(s1, x, s.len()) is None);
                assert(first_upto(s1, x, s1.len()) == Some(s.len()));
            } else {
                assert(first_upto(s1, x2, s1.len()) == first_upto(s1, x2, s.len()));
            }
        },
    }
}

/// What `get` returns after moving every entry.
pub proof fn lemma_get_shift(s: Seq<(int, int)>, ox: int, oy: int, x: int)
    ensures
        get(shift_all(s, ox, oy), x + ox) == (match get(s, x) {
            Some(v) => Some(v + oy),
            None => None,
        }),
{
    let s1 = shift_all(s, ox, oy);
    let k = s.map_values(|p: (int, int)| (p.0 + ox, p.1));
    let k0 = s.map_values(|p: (int, int)| (p.0, p.1));
    lemma_first_shift(s, ox, oy, x, s.len());
    lemma_first_idx(s, x);
}

proof fn lemma_first_shift(s: Seq<(int, int)>, ox: int, oy: int, x: int, n: nat)
    requires
        n <= s.len(),
    ensures
        first_upto(shift_all(s, ox, oy), x + ox, n) == first_upto(s, x, n),
    decreases n,
{
    if n > 0 {
        lemma_first_shift(s, ox, oy, x, (n - 1) as nat);
        assert(shift_all(s, ox, oy)[n - 1].0 == s[n - 1].0 + ox);
    }
}

/// A column outside the entries' range has no height.
pub proof fn lemma_get_outside(s: Seq<(int, int)>, x: int, x0: int, x1: int, y0: int, y1: int)
    requires
        within(s, x0, x1, y0, y1),
        x < x0 || x > x1,
    ensures
        get(s, x) is None,
{
    lemma_first_idx(s, x);
    assert forall|j: int| 0 <= j < s.len() implies s[j].0 != x by {
        assert(x0 <= s[j].0 <= x1);
    }
}

/// A stored height lies in the entries' range.
pub proof fn lemma_get_within(s: Seq<(int, int)>, x: int, x0: int, x1: int, y0: int, y1: int)
    requires
        within(s, x0, x1, y0, y1),
    ensures
        get(s, x) matches Some(v) ==> x0 <= x <= x1 && y0 <= v <= y1,
{
    lemma_first_idx(s, x);
    if let Some(i) = first_idx(s, x) {
        assert(x0 <= s[i as int].0 <= x1);
    }
}

/// Storing an entry in range keeps the entries in range.
pub proof fn lemma_put_within(s: Seq<(int, int)>, x: int, y: int, x0: int, x1: int, y0: int, y1: int)
    requires
        within(s, x0, x1, y0, y1),
        x0 <= x <= x1,
        y0 <= y <= y1,
    ensures
        within(put(s, x, y), x0, x1, y0, y1),
        within(put_absent(s, x, y), x0, x1, y0, y1),
{
    lemma_first_idx(s, x);
    assert forall|i: int| 0 <= i < put(s, x, y).len() implies x0 <= #[trigger] put(s, x, y)[i].0
        <= x1 && y0 <= put(s, x, y)[i].1 <= y1 by {
        if i < s.len() {
            assert(s[i].0 == s[i].0);
        }
    }
    if first_idx(s, x) is None {
        assert(put_absent(s, x, y) == s.push((x, y)));
        assert forall|i: int| 0 <= i < s.push((x, y)).len() implies x0 <= #[trigger] s.push(
            (x, y),
        )[i].0 <= x1 && y0 <= s.push((x, y))[i].1 <= y1 by {
            if i < s.len() {
                assert(s[i].0 == s[i].0);
            }
        }
    }
}

/// Merging entries in range keeps them in range.
pub proof fn lemma_merge_within(s: Seq<(int, int)>, o: Seq<(int, int)>, keep_max: bool, x0: int, x1: int, y0: int, y1: int)
    requires
        within(s, x0, x1, y0, y1),
        within(o, x0, x1, y0, y1),
    ensures
        within(merge(s, o, keep_max), x0, x1, y0, y1),
    decreases o.len(),
{
    if o.len() > 0 {
        assert(within(o.drop_last(), x0, x1, y0, y1)) by {
            assert forall|i: int| 0 <= i < o.drop_last().len() implies x0 <= #[trigger] o.drop_last()[i].0 <= x1
                && y0 <= o.drop_last()[i].1 <= y1 by {
                assert(o.drop_last()[i] == o[i]);
            }
        }
        lemma_merge_within(s, o.drop_last(), keep_max, x0, x1, y0, y1);
        let s1 = merge(s, o.drop_last(), keep_max);
        assert(x0 <= o.last().0 <= x1 && y0 <= o.last().1 <= y1) by {
            assert(o.last() == o[o.len() - 1]);
        }
        lemma_put_within(s1, o.last().0, o.last().1, x0, x1, y0, y1);
    }
}

/// Moving entries moves their range.
pub proof fn lemma_shift_within(s: Seq<(int, int)>, ox: int, oy: int, x0: int, x1: int, y0: int, y1: int)
    requires
        within(s, x0, x1, y0, y1),
    ensures
        within(shift_all(s, ox, oy), x0 + ox, x1 + ox, y0 + oy, y1 + oy),
{
    assert forall|i: int| 0 <= i < shift_all(s, ox, oy).len() implies x0 + ox <= #[trigger] shift_all(
        s,
        ox,
        oy,
    )[i].0 <= x1 + ox && y0 + oy <= shift_all(s, ox, oy)[i].1 <= y1 + oy by {
        assert(s[i].0 == s[i].0);
    }
}

/// Merging, keeping the smaller height, entries whose heights at column `x`
/// are all at least `v` leaves the height `v` at `x`.
pub proof fn lemma_merge_min_keeps(s: Seq<(int, int)>, o: Seq<(int, int)>, x: int, v: int)
    requires
        get(s, x) == Some(v),
        forall|i: int| 0 <= i < o.len() && #[trigger] o[i].0 == x ==> o[i].1 >= v,
    ensures
        get(merge(s, o, false), x) == Some(v),
    decreases o.len(),
{
    if o.len() > 0 {
        assert forall|i: int| 0 <= i < o.drop_last().len() && #[trigger] o.drop_last()[i].0 == x implies o.drop_last()[i].1 >= v by {
            assert(o.drop_last()[i] == o[i]);
        }
        lemma_merge_min_keeps(s, o.drop_last(), x, v);
        let s1 = merge(s, o.drop_last(), false);
        let p = o.last();
        assert(p == o[o.len() - 1]);
        lemma_get_put(s1, p.0, p.1, x);
    }
}

/// The quantity that a skew measure maximizes: `x - y` (0), `y - x` (1) or `x + y` (2).
pub open spec fn measure(p: (int, int), mode: u8) -> int {
    if mode == 0 {
        p.0 - p.1
    } else if mode == 1 {
        p.1 - p.0
    } else {
        p.0 + p.1
    }
}

/// The largest measure over the entries, if any.
pub open spec fn max_measure(s: Seq<(int, int)>, mode: u8) -> Option<int> {
    seq_max(s.map_values(|p: (int, int)| measure(p, mode)))
}

/// Measures of bounded entries lie within twice the bound.
pub proof fn lemma_max_measure_bounded(s: Seq<(int, int)>, mode: u8, b: int)
    requires
        bounded(s, b),
    ensures
        max_measure(s, mode) matches Some(m) ==> -2 * b <= m <= 2 * b,
{
    let vs = s.map_values(|p: (int, int)| measure(p, mode));
    assert forall|i: int| 0 <= i < vs.len() implies -2 * b <= #[trigger] vs[i] <= 2 * b by {
        assert(s[i].0 == s[i].0);
    }
    lemma_seq_max_bounded(vs, -2 * b, 2 * b);
}

/// The largest measure over the entries (see `max_measure`).
pub fn max_measure_exec(s: &Vec<(i32, i32)>, mode: u8) -> (r: Option<i32>)
    requires
        bounded(pairs(s@), 0x3f00_0002),
    ensures
        r matches Some(v) ==> max_measure(pairs(s@), mode) == Some(v as int),
        r is None ==> max_measure(pairs(s@), mode) is None,
{
    let ghost ps = pairs(s@);
    let ghost vs = ps.map_values(|p: (int, int)| measure(p, mode));
    let mut best: Option<i32> = None;
    let mut i: usize = 0;
    proof {
        assert(vs.take(0) =~= seq![]);
    }
    while i < s.len()
        invariant
            i <= s@.len(),
            ps == pairs(s@),
            vs == ps.map_values(|p: (int, int)| measure(p, mode)),
            bounded(ps, 0x3f00_0002),
            best matches Some(v) ==> seq_max(vs.take(i as int)) == Some(v as int),
            best is None ==> seq_max(vs.take(i as int)) is None,
        decreases s@.len() - i,
    {
        let (x, y) = s[i];
        proof {
            assert(ps[i as int] == (x as int, y as int));
        }
        let v = if mode == 0 {
            x - y
        } else if mode == 1 {
            y - x
        } else {
            x + y
        };
        proof {
            assert(vs.take(i as int + 1).drop_last() =~= vs.take(i as int));
            assert(vs.take(i as int + 1).last() == v as int);
        }
        best = match best {
            Some(m) => Some(if m >= v { m } else { v }),
            None => Some(v),
        };
        i = i + 1;
    }
    proof {
        assert(vs.take(s@.len() as int) =~= vs);
    }
    best
}


/// `a` is at least `b` (`keep_max`) or at most `b` (`!keep_max`).
pub open spec fn kept(keep_max: bool, a: int, b: int) -> bool {
    if keep_max {
        a >= b
    } else {
        a <= b
    }
}

/// After merging, a column holds a height at least as far out (up for
/// `keep_max`, down otherwise) as any height that either side held for it.
pub proof fn lemma_merge_get(s: Seq<(int, int)>, o: Seq<(int, int)>, keep_max: bool, x: int)
    ensures
        get(s, x) matches Some(v) ==> (get(merge(s, o, keep_max), x) matches Some(w) && kept(keep_max, w, v)),
        forall|i: int|
            0 <= i < o.len() && #[trigger] o[i].0 == x ==> (get(merge(s, o, keep_max), x) matches Some(w)
                && kept(keep_max, w, o[i].1)),
    decreases o.len(),
{
    if o.len() > 0 {
        let o1 = o.drop_last();
        lemma_merge_get(s, o1, keep_max, x);
        let s1 = merge(s, o1, keep_max);
        let p = o.last();
        assert(p == o[o.len() - 1]);
        lemma_get_put(s1, p.0, p.1, x);
        assert forall|i: int| 0 <= i < o.len() && #[trigger] o[i].0 == x implies (get(
            merge(s, o, keep_max),
            x,
        ) matches Some(w) && kept(keep_max, w, o[i].1)) by {
            if i < o.len() - 1 {
                assert(o1[i] == o[i]);
            }
        }
    }
}


/// The largest value is at least each value.
pub proof fn lemma_seq_max_ge(v: Seq<int>, k: int)
    requires
        0 <= k < v.len(),
    ensures
        seq_max(v) matches Some(m) && v[k] <= m,
    decreases v.len(),
{
    if k < v.len() - 1 {
        lemma_seq_max_ge(v.drop_last(), k);
        assert(v.drop_last()[k] == v[k]);
    } else if v.len() > 1 {
        lemma_seq_max_ge(v.drop_last(), 0);
    }
}

} // verus!
