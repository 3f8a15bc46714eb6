//! A snapshot index from each character of a grid to its positions.

use vstd::prelude::*;
use vstd::pervasive::VecAdditionalExecFns;
use crate::multi_line_parser::{grid_count, row_count, MultiLineParser};

verus! {

/// A (row, column) position in a grid.
pub type Point = (usize, usize);

/// The positions of `c` in `row` (which is row number `r`), left to right.
pub open spec fn row_positions(row: Seq<char>, c: char, r: int) -> Seq<(int, int)>
    decreases row.len(),
{
    if row.len() == 0 {
        Seq::empty()
    } else {
        row_positions(row.drop_last(), c, r) + if row.last() == c {
            seq![(r, row.len() - 1)]
        } else {
            Seq::empty()
        }
    }
}

/// The positions of `c` in the grid, in row-major order.
pub open spec fn grid_positions(rows: Seq<Seq<char>>, c: char) -> Seq<(int, int)>
    decreases rows.len(),
{
    if rows.len() == 0 {
        Seq::empty()
    } else {
        grid_positions(rows.drop_last(), c) + row_positions(
            rows.last(),
            c,
            rows.len() - 1,
        )
    }
}

/// A character occurs in a row as often as it has positions there.
pub proof fn lemma_row_count_positions(row: Seq<char>, c: char, r: int)
    ensures
        row_count(row, c) == row_positions(row, c, r).len(),
    decreases row.len(),
{
    if row.len() > 0 {
        lemma_row_count_positions(row.drop_last(), c, r);
    }
}

/// A character occurs in a grid as often as its index lists positions for
/// it: the row-major count and the position list agree in length.
pub proof fn lemma_grid_count_positions(rows: Seq<Seq<char>>, c: char)
    ensures
        grid_count(rows, c) == grid_positions(rows, c).len(),
    decreases rows.len(),
{
    if rows.len() > 0 {
        lemma_grid_count_positions(rows.drop_last(), c);
        lemma_row_count_positions(rows.last(), c, rows.len() - 1);
    }
}

/// Index of the first entry with key `c`, or `-1` when there is none.
pub open spec fn find_key(s: Seq<(char, Seq<Point>)>, c: char) -> int
    decreases s.len(),
{
    if s.len() == 0 {
        -1
    } else if s[0].0 == c {
        0
    } else {
        let r = find_key(s.drop_first(), c);
        if r < 0 {
            -1
        } else {
            r + 1
        }
    }
}

/// `find_key` finds the first entry with key `c` when one exists, and
/// reports `-1` exactly when none does.
pub proof fn lemma_find_key(s: Seq<(char, Seq<Point>)>, c: char)
    ensures
        ({
            let k = find_key(s, c);
            if k < 0 {
                forall|i: int| 0 <= i < s.len() ==> (#[trigger] s[i]).0 != c
            } else {
                &&& 0 <= k < s.len()
                &&& s[k].0 == c
                &&& forall|i: int| 0 <= i < k ==> (#[trigger] s[i]).0 != c
            }
        }),
    decreases s.len(),
{
    if s.len() > 0 && s[0].0 != c {
        lemma_find_key(s.drop_first(), c);
        let k = find_key(s, c);
        if k < 0 {
            assert forall|i: int| 0 <= i < s.len() implies (#[trigger] s[i]).0 != c by {
                if i > 0 {
                    assert(s[i] == s.drop_first()[i - 1]);
                }
            }
        } else {
            assert(s[k] == s.drop_first()[k - 1]);
            assert forall|i: int| 0 <= i < k implies (#[trigger] s[i]).0 != c by {
                if i > 0 {
                    assert(s[i] == s.drop_first()[i - 1]);
                }
            }
        }
    }
}

/// The bucket stored under key `c`, or `None` when the key is absent.
pub open spec fn bucket_of(s: Seq<(char, Seq<Point>)>, c: char) -> Option<Seq<Point>> {
    let k = find_key(s, c);
    if k < 0 {
        None
    } else {
        Some(s[k].1)
    }
}

/// Positions as mathematical pairs.
pub open spec fn as_pairs(s: Seq<Point>) -> Seq<(int, int)> {
    s.map_values(|p: Point| (p.0 as int, p.1 as int))
}

/// A snapshot mapping from each character of a grid to the list of its
/// positions in row-major order. Built in one pass over a grid; later
/// mutation of the grid is not reflected.
pub struct CharIndex {
    entries: Vec<(char, Vec<Point>)>,
}

impl CharIndex {
    /// The entries as key/bucket pairs.
    pub closed spec fn entries_seq(&self) -> Seq<(char, Seq<Point>)> {
        self.entries@.map_values(|e: (char, Vec<Point>)| (e.0, e.1@))
    }

    /// Every key appears in one entry only.
    pub open spec fn wf(&self) -> bool {
        forall|i: int, j: int|
            0 <= i < j < self.entries_seq().len() ==> (#[trigger] self.entries_seq()[i]).0 != (
            #[trigger] self.entries_seq()[j]).0
    }

    /// The bucket of `c`: its positions, or `None` for an absent key.
    pub open spec fn bucket(&self, c: char) -> Option<Seq<Point>> {
        bucket_of(self.entries_seq(), c)
    }

    /// Whether this index is exactly the index of `rows`: each character
    /// that occurs has the bucket of its row-major positions, and no other
    /// key exists.
    pub open spec fn indexes(&self, rows: Seq<Seq<char>>) -> bool {
        forall|c: char|
            match #[trigger] self.bucket(c) {
                Option::Some(v) => as_pairs(v) == grid_positions(rows, c) && v.len() > 0,
                Option::None => grid_positions(rows, c).len() == 0,
            }
    }

    /// Number of entries.
    pub fn entries_len(&self) -> (r: usize)
        ensures
            r == self.entries_seq().len(),
    {
        self.entries.len()
    }

    /// The entry at position `i`, as a key and its bucket.
    pub fn entry_at(&self, i: usize) -> (r: &(char, Vec<Point>))
        requires
            i < self.entries_seq().len(),
        ensures
            r.0 == self.entries_seq()[i as int].0,
            r.1@ == self.entries_seq()[i as int].1,
    {
        &self.entries[i]
    }

    /// The bucket of `c`, in row-major insertion order, or `None` when the
    /// index holds no position for `c`.
    pub fn get(&self, c: char) -> (r: Option<&Vec<Point>>)
        ensures
            ({
                match r {
                    Option::Some(v) => self.bucket(c) == Some(v@),
                    Option::None => self.bucket(c) is None,
                }
            }),
    {
        proof {
            lemma_find_key(self.entries_seq(), c);
        }
        let n = self.entries.len();
        let mut i: usize = 0;
        while i < n
            invariant
                i <= n,
                n == self.entries_seq().len(),
                forall|k: int| 0 <= k < i ==> (#[trigger] self.entries_seq()[k]).0 != c,
            decreases n - i,
        {
            let e = &self.entries[i];
            if e.0 == c {
                proof {
                    let s = self.entries_seq();
                    assert(s[i as int].0 == c);
                    lemma_find_key(s, c);
                    let k = find_key(s, c);
                    if k < 0 {
                        assert((#[trigger] s[i as int]).0 != c);
                    } else if k < i {
                        assert((#[trigger] s[k]).0 != c);
                    } else if k > i {
                        assert((#[trigger] s[i as int]).0 != c);
                    }
                    assert(k == i);
                }
                return Some(&e.1);
            }
            i = i + 1;
        }
        proof {
            lemma_find_key(self.entries_seq(), c);
            assert(self.bucket(c) is None);
        }
        None
    }

    /// Appends `p` to the bucket of `c`, creating the bucket when the key
    /// is new.
    fn add_position(&mut self, c: char, p: Point)
        requires
            old(self).wf(),
        ensures
            final(self).wf(),
            ({
                match old(self).bucket(c) {
                    Option::Some(v) => final(self).bucket(c) == Some(v.push(p)),
                    Option::None => final(self).bucket(c) == Some(seq![p]),
                }
            }),
            forall|c2: char| c2 != c ==> #[trigger] final(self).bucket(c2) == old(self).bucket(c2),
    {
        let ghost s0 = self.entries_seq();
        proof {
            lemma_find_key(s0, c);
        }
        let n = self.entries.len();
        let mut i: usize = 0;
        while i < n
            invariant
                i <= n,
                n == self.entries_seq().len(),
                self.entries_seq() == s0,
                s0 == old(self).entries_seq(),
                old(self).wf(),
                forall|k: int| 0 <= k < i ==> (#[trigger] s0[k]).0 != c,
            decreases n - i,
        {
            let found = self.entries[i].0 == c;
            if found {
                proof {
                    assert(s0[i as int].0 == c);
                    lemma_find_key(s0, c);
                    let k = find_key(s0, c);
                    if k < 0 {
                        assert((#[trigger] s0[i as int]).0 != c);
                    } else if k < i {
                        assert((#[trigger] s0[k]).0 != c);
                    } else if k > i {
                        assert((#[trigger] s0[i as int]).0 != c);
                    }
                    assert(k == i);
                }
                let old_bucket = &self.entries[i].1;
                let m = old_bucket.len();
                let mut new_bucket: Vec<Point> = Vec::new();
                let mut j: usize = 0;
                while j < m
                    invariant
                        j <= m,
                        i < self.entries@.len(),
                        m == self.entries@[i as int].1@.len(),
                        new_bucket@ == self.entries@[i as int].1@.take(j as int),
                    decreases m - j,
                {
                    let q = self.entries[i].1[j];
                    new_bucket.push(q);
                    j = j + 1;
                    proof {
                        assert(new_bucket@ =~= self.entries@[i as int].1@.take(j as int));
                    }
                }
                proof {
                    assert(new_bucket@ =~= s0[i as int].1);
                }
                new_bucket.push(p);
                self.entries.set(i, (c, new_bucket));
                proof {
                    let s1 = self.entries_seq();
                    assert(s1 =~= s0.update(i as int, (c, s0[i as int].1.push(p))));
                    assert(forall|x: int| 0 <= x < s1.len() ==> (#[trigger] s1[x]).0 == s0[x].0);
                    lemma_find_key(s1, c);
                    let k1 = find_key(s1, c);
                    assert(s1[i as int].0 == c);
                    assert(k1 >= 0);
                    assert(k1 == i) by {
                        if k1 > i {
                            assert((#[trigger] s1[i as int]).0 != c);
                        }
                        if k1 < i {
                            assert(s0[k1].0 == s1[k1].0);
                        }
                    }
                    assert forall|c2: char| c2 != c implies #[trigger] bucket_of(s1, c2)
                        == bucket_of(s0, c2) by {
                        lemma_find_key(s0, c2);
                        lemma_find_key(s1, c2);
                        let k0 = find_key(s0, c2);
                        let kk1 = find_key(s1, c2);
                        if k0 < 0 && kk1 >= 0 {
                            assert(s0[kk1].0 == s1[kk1].0);
                        }
                        if k0 >= 0 && kk1 < 0 {
                            assert(s1[k0].0 == s0[k0].0);
                        }
                        if k0 >= 0 && kk1 >= 0 {
                            assert(k0 == kk1) by {
                                if k0 < kk1 {
                                    assert((#[trigger] s1[k0]).0 == s0[k0].0);
                                }
                                if kk1 < k0 {
                                    assert((#[trigger] s0[kk1]).0 == s1[kk1].0);
                                }
                            }
                            assert(k0 != i);
                        }
                    }
                }
                return ;
            }
            i = i + 1;
        }
        proof {
            lemma_find_key(s0, c);
            assert(bucket_of(s0, c) is None);
        }
        let single: Vec<Point> = vec![p];
        proof {
            assert(single@ =~= seq![p]);
        }
        self.entries.push((c, single));
        proof {
            let s1 = self.entries_seq();
            assert(s1 =~= s0.push((c, seq![p])));
            lemma_find_key(s1, c);
            let k1 = find_key(s1, c);
            assert(s1[s0.len() as int].0 == c);
            assert(k1 >= 0);
            assert(k1 == s0.len()) by {
                if k1 < s0.len() {
                    assert((#[trigger] s0[k1]).0 == s1[k1].0);
                }
            }
            assert(bucket_of(s1, c) == Some(seq![p]));
            assert forall|c2: char| c2 != c implies #[trigger] bucket_of(s1, c2) == bucket_of(
                s0,
                c2,
            ) by {
                lemma_find_key(s0, c2);
                lemma_find_key(s1, c2);
                let k0 = find_key(s0, c2);
                let kk1 = find_key(s1, c2);
                if k0 < 0 && kk1 >= 0 {
                    assert(kk1 < s0.len() ==> (#[trigger] s0[kk1]).0 == s1[kk1].0);
                    assert(kk1 == s0.len() ==> s1[kk1].0 == c);
                }
                if k0 >= 0 && kk1 < 0 {
                    assert(s1[k0].0 == s0[k0].0);
                }
                if k0 >= 0 && kk1 >= 0 {
                    assert(k0 == kk1) by {
                        if k0 < kk1 {
                            assert((#[trigger] s1[k0]).0 == s0[k0].0);
                        }
                        if kk1 < k0 {
                            assert((#[trigger] s0[kk1]).0 == s1[kk1].0);
                        }
                    }
                }
            }
            assert forall|a: int, b: int| 0 <= a < b < s1.len() implies (#[trigger] s1[a]).0 != (
            #[trigger] s1[b]).0 by {
                if b < s0.len() {
                    assert(s1[a].0 == s0[a].0 && s1[b].0 == s0[b].0);
                } else {
                    assert(s1[b].0 == c);
                    assert(s1[a].0 == s0[a].0);
                    assert((#[trigger] s0[a]).0 != c);
                }
            }
        }
    }

    /// Builds the index of the grid in one row-major pass. The grid's rows
    /// are unchanged and its cursor ends back on the first cell.
    pub fn create(parser: &mut MultiLineParser) -> (r: CharIndex)
        ensures
            final(parser).rows() == old(parser).rows(),
            final(parser).ln() == 0,
            final(parser).col() == 0,
            r.wf(),
            r.indexes(old(parser).rows()),
    {
        let ghost rows = parser.rows();
        let mut idx = CharIndex { entries: Vec::new() };
        proof {
            assert(idx.entries_seq() =~= Seq::<(char, Seq<Point>)>::empty());
            assert(rows.take(0) =~= Seq::<Seq<char>>::empty());
            assert forall|c: char|
                match #[trigger] idx.bucket(c) {
                    Option::Some(v) => as_pairs(v) == grid_positions(rows.take(0), c) && v.len()
                        > 0,
                    Option::None => grid_positions(rows.take(0), c).len() == 0,
                } by {
                lemma_find_key(idx.entries_seq(), c);
            }
        }
        let nrows = parser.len();
        let mut rr: usize = 0;
        while rr < nrows
            invariant
                rr <= nrows,
                nrows == rows.len(),
                parser.rows() == rows,
                idx.wf(),
                forall|c: char|
                    match #[trigger] idx.bucket(c) {
                        Option::Some(v) => as_pairs(v) == grid_positions(rows.take(rr as int), c)
                            && v.len() > 0,
                        Option::None => grid_positions(rows.take(rr as int), c).len() == 0,
                    },
            decreases nrows - rr,
        {
            parser.go_to((rr, 0));
            let m = parser.cursor_len();
            let ghost row = rows[rr as int];
            proof {
                assert(row.take(0) =~= Seq::<char>::empty());
            }
            let mut j: usize = 0;
            while j < m
                invariant
                    j <= m,
                    rr < nrows,
                    nrows == rows.len(),
                    m == row.len(),
                    row == rows[rr as int],
                    parser.rows() == rows,
                    idx.wf(),
                    forall|c: char|
                        match #[trigger] idx.bucket(c) {
                            Option::Some(v) => as_pairs(v) == grid_positions(
                                rows.take(rr as int),
                                c,
                            ) + row_positions(row.take(j as int), c, rr as int) && v.len() > 0,
                            Option::None => grid_positions(rows.take(rr as int), c).len() == 0
                                && row_positions(row.take(j as int), c, rr as int).len() == 0,
                        },
                decreases m - j,
            {
                parser.go_to((rr, j));
                let looked = parser.peek();
                let ch = match looked {
                    Option::Some(x) => *x,
                    Option::None => vstd::pervasive::unreached(),
                };
                let ghost pre = idx;
                idx.add_position(ch, (rr, j));
                proof {
                    assert(row.take(j + 1).drop_last() =~= row.take(j as int));
                    assert(row.take(j + 1).last() == ch);
                    assert forall|c: char|
                        match #[trigger] idx.bucket(c) {
                            Option::Some(v) => as_pairs(v) == grid_positions(
                                rows.take(rr as int),
                                c,
                            ) + row_positions(row.take(j + 1), c, rr as int) && v.len() > 0,
                            Option::None => grid_positions(rows.take(rr as int), c).len() == 0
                                && row_positions(row.take(j + 1), c, rr as int).len() == 0,
                        } by {
                        if c == ch {
                            match pre.bucket(c) {
                                Option::Some(v) => {
                                    assert(idx.bucket(c) == Some(v.push((rr, j))));
                                    assert(as_pairs(v.push((rr, j))) =~= as_pairs(v) + seq![
                                        (rr as int, j as int),
                                    ]);
                                },
                                Option::None => {
                                    assert(idx.bucket(c) == Some(seq![(rr, j)]));
                                    assert(as_pairs(seq![(rr, j)]) =~= seq![(rr as int, j as int)]);
                                },
                            }
                        } else {
                            assert(idx.bucket(c) == pre.bucket(c));
                            assert(row_positions(row.take(j + 1), c, rr as int) =~= row_positions(
                                row.take(j as int),
                                c,
                                rr as int,
                            ));
                        }
                    }
                }
                j = j + 1;
            }
            proof {
                assert(rows.take(rr + 1).drop_last() =~= rows.take(rr as int));
                assert(rows.take(rr + 1).last() == row);
                assert(row.take(m as int) =~= row);
                assert forall|c: char|
                    match #[trigger] idx.bucket(c) {
                        Option::Some(v) => as_pairs(v) == grid_positions(rows.take(rr + 1), c)
                            && v.len() > 0,
                        Option::None => grid_positions(rows.take(rr + 1), c).len() == 0,
                    } by {
                    assert(grid_positions(rows.take(rr + 1), c) == grid_positions(
                        rows.take(rr as int),
                        c,
                    ) + row_positions(row, c, rr as int));
                }
            }
            rr = rr + 1;
        }
        proof {
            assert(rows.take(nrows as int) =~= rows);
        }
        parser.reset();
        idx
    }

    /// Removes the key `c` and its bucket; other buckets are untouched.
    pub fn remove(&mut self, c: char)
        requires
            old(self).wf(),
        ensures
            final(self).wf(),
            final(self).bucket(c) is None,
            forall|c2: char| c2 != c ==> #[trigger] final(self).bucket(c2) == old(self).bucket(c2),
    {
        let ghost s0 = self.entries_seq();
        proof {
            lemma_find_key(s0, c);
        }
        let n = self.entries.len();
        let mut i: usize = 0;
        while i < n
            invariant
                i <= n,
                n == self.entries_seq().len(),
                self.entries_seq() == s0,
                s0 == old(self).entries_seq(),
                old(self).wf(),
                forall|k: int| 0 <= k < i ==> (#[trigger] s0[k]).0 != c,
            decreases n - i,
        {
            let e = &self.entries[i];
            if e.0 == c {
                proof {
                    assert(s0[i as int].0 == c);
                    lemma_find_key(s0, c);
                    let k = find_key(s0, c);
                    if k < 0 {
                        assert((#[trigger] s0[i as int]).0 != c);
                    } else if k < i {
                        assert((#[trigger] s0[k]).0 != c);
                    } else if k > i {
                        assert((#[trigger] s0[i as int]).0 != c);
                    }
                    assert(k == i);
                }
                self.entries.remove(i);
                proof {
                    let s1 = self.entries_seq();
                    assert(s1 =~= s0.remove(i as int));
                    assert forall|a: int, b: int|
                        0 <= a < b < s1.len() implies (#[trigger] s1[a]).0 != (
                    #[trigger] s1[b]).0 by {
                        let a0 = if a < i { a } else { a + 1 };
                        let b0 = if b < i { b } else { b + 1 };
                        assert(s1[a] == s0[a0]);
                        assert(s1[b] == s0[b0]);
                    }
                    lemma_find_key(s1, c);
                    if find_key(s1, c) >= 0 {
                        let k1 = find_key(s1, c);
                        let k0 = if k1 < i { k1 } else { k1 + 1 };
                        assert(s1[k1] == s0[k0]);
                    }
                    assert(bucket_of(s1, c) is None);
                    assert forall|c2: char| c2 != c implies #[trigger] bucket_of(s1, c2)
                        == bucket_of(s0, c2) by {
                        lemma_find_key(s0, c2);
                        lemma_find_key(s1, c2);
                        let k0 = find_key(s0, c2);
                        let k1 = find_key(s1, c2);
                        if k0 < 0 {
                            if k1 >= 0 {
                                let j0 = if k1 < i { k1 } else { k1 + 1 };
                                assert(s1[k1] == s0[j0]);
                            }
                        } else {
                            let j1 = if k0 < i { k0 } else { k0 - 1 };
                            assert(k0 != i);
                            assert(s1[j1] == s0[k0]);
                            if k1 < 0 {
                                assert(s1[j1].0 != c2);
                            } else {
                                let j0 = if k1 < i { k1 } else { k1 + 1 };
                                assert(s1[k1] == s0[j0]);
                                assert(s0[j0].0 == c2 && s0[k0].0 == c2);
                                if j0 != k0 {
                                    if j0 < k0 {
                                        assert((#[trigger] s0[j0]).0 != s0[k0].0);
                                    } else {
                                        assert(s0[k0].0 != s0[j0].0);
                                    }
                                }
                            }
                        }
                    }
                }
                return ;
            }
            i = i + 1;
        }
        proof {
            lemma_find_key(s0, c);
            assert(bucket_of(s0, c) is None);
        }
    }
}

} // verus!
