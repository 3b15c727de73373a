//! The stand-alone grid validator: re-checks one candidate grid, given by
//! category names, against explicit word sets.

use vstd::prelude::*;

verus! {

/// The meta label that may occur only once in a grid.
pub const STRICT_META_LABEL: &'static str = "Letter Patterns";

/// Occurrences allowed of a meta label in a grid.
pub open spec fn label_cap_spec(label: Seq<char>) -> usize {
    if label == STRICT_META_LABEL@ {
        1
    } else {
        2
    }
}

/// Occurrences allowed of `label` in a grid: one for the strict label, two
/// for any other.
pub fn label_cap(label: &String) -> (c: usize)
    ensures
        c == label_cap_spec(label@),
{
    let strict = STRICT_META_LABEL.to_owned();
    if *label == strict {
        1
    } else {
        2
    }
}

/// Why a grid is invalid.
#[derive(Debug, Clone, Copy, PartialEq, Eq, Structural)]
pub enum InvalidReason {
    /// The category at this position (rows first, then columns) is unknown.
    UnknownCategory { position: usize },
    /// The meta label of the category at this position occurs `count` times
    /// up to it, more than the `max` allowed.
    MetaCap { position: usize, count: usize, max: usize },
    /// This cell has no word of its own.
    EmptyCell { row: usize, col: usize },
}

/// Category names, their word sets (as word ids) and their meta labels.
pub struct Validator {
    pub names: Vec<String>,
    pub words: Vec<Vec<u64>>,
    pub labels: Vec<Option<String>>,
}

/// Whether `w` is in both `a` and `b`.
pub open spec fn in_both(a: Seq<u64>, b: Seq<u64>, w: u64) -> bool {
    a.contains(w) && b.contains(w)
}

/// Whether `v` holds `w`.
pub fn contains_word(v: &Vec<u64>, w: u64) -> (b: bool)
    ensures
        b == v@.contains(w),
{
    let mut t: usize = 0;
    while t < v.len()
        invariant
            t <= v@.len(),
            forall|x: int| 0 <= x < t ==> v@[x] != w,
        decreases v@.len() - t,
    {
        if v[t] == w {
            return true;
        }
        t = t + 1;
    }
    false
}

/// The words common to both sets, scanning the smaller one.
pub fn intersect(a: &Vec<u64>, b: &Vec<u64>) -> (r: Vec<u64>)
    ensures
        forall|w: u64| #[trigger] r@.contains(w) <==> in_both(a@, b@, w),
{
    let (small, large) = if a.len() < b.len() {
        (a, b)
    } else {
        (b, a)
    };
    let mut r: Vec<u64> = Vec::new();
    let mut t: usize = 0;
    while t < small.len()
        invariant
            (small@ == a@ && large@ == b@) || (small@ == b@ && large@ == a@),
            t <= small@.len(),
            forall|w: u64|
                #[trigger] r@.contains(w) <==> (small@.subrange(0, t as int).contains(w)
                    && large@.contains(w)),
        decreases small@.len() - t,
    {
        let w = small[t];
        let ghost old_r = r@;
        if contains_word(large, w) {
            r.push(w);
        }
        proof {
            let pre = small@.subrange(0, t as int);
            let post = small@.subrange(0, t as int + 1);
            assert(post =~= pre.push(w));
            assert forall|x: u64| #[trigger] post.contains(x) <==> (pre.contains(x) || x == w) by {
                if post.contains(x) {
                    let y = choose|y: int| 0 <= y < post.len() && post[y] == x;
                    if y < pre.len() {
                        assert(pre[y] == x);
                    }
                }
                if pre.contains(x) {
                    let y = choose|y: int| 0 <= y < pre.len() && pre[y] == x;
                    assert(post[y] == x);
                }
                if x == w {
                    assert(post[t as int] == w);
                }
            }
            assert forall|x: u64| #[trigger] r@.contains(x) <==> (old_r.contains(x) || (x == w
                && large@.contains(w))) by {
                if r@ != old_r {
                    assert(r@ == old_r.push(w));
                    if r@.contains(x) {
                        let y = choose|y: int| 0 <= y < r@.len() && r@[y] == x;
                        if y < old_r.len() {
                            assert(old_r[y] == x);
                        }
                    }
                    if old_r.contains(x) {
                        let y = choose|y: int| 0 <= y < old_r.len() && old_r[y] == x;
                        assert(r@[y] == x);
                    }
                    if x == w {
                        assert(r@[old_r.len() as int] == w);
                    }
                }
            }
        }
        t = t + 1;
    }
    assert(small@.subrange(0, small@.len() as int) =~= small@);
    r
}

/// `i` is the first index of a category called `name`.
pub open spec fn is_first_named(names: Seq<String>, name: Seq<char>, i: int) -> bool {
    &&& 0 <= i < names.len()
    &&& names[i]@ == name
    &&& forall|j: int| 0 <= j < i ==> #[trigger] names[j]@ != name
}

/// Some category is called `name`.
pub open spec fn known(names: Seq<String>, name: Seq<char>) -> bool {
    exists|i: int| 0 <= i < names.len() && #[trigger] names[i]@ == name
}

/// The first index of a category called `name`.
pub open spec fn first_named(names: Seq<String>, name: Seq<char>) -> int {
    choose|i: int| is_first_named(names, name, i)
}

/// The eight names of a grid, rows first.
pub open spec fn grid_names(rows: [String; 4], cols: [String; 4]) -> Seq<Seq<char>> {
    Seq::new(8, |t: int| if t < 4 { rows@[t]@ } else { cols@[t - 4]@ })
}

/// Meta label of the grid's category at `t`, as characters.
pub open spec fn label_at(v: Validator, gn: Seq<Seq<char>>, t: int) -> Option<Seq<char>> {
    match v.labels@[first_named(v.names@, gn[t])] {
        Some(s) => Some(s@),
        None => None,
    }
}

/// How many of the grid's categories before position `upto` carry `l`.
pub open spec fn prefix_count(v: Validator, gn: Seq<Seq<char>>, upto: int, l: Seq<char>) -> nat
    decreases upto,
{
    if upto <= 0 {
        0
    } else {
        prefix_count(v, gn, upto - 1, l) + if label_at(v, gn, upto - 1) == Some(l) {
            1nat
        } else {
            0nat
        }
    }
}

/// The label at `t` has now occurred more often than its cap allows.
pub open spec fn meta_fails_at(v: Validator, gn: Seq<Seq<char>>, t: int) -> bool {
    match label_at(v, gn, t) {
        Some(l) => prefix_count(v, gn, t + 1, l) > label_cap_spec(l),
        None => false,
    }
}

/// Word `w` belongs to a grid category named neither `a` nor `b`.
pub open spec fn other_has(v: Validator, gn: Seq<Seq<char>>, a: int, b: int, w: u64) -> bool {
    exists|t: int|
        0 <= t < 8 && gn[t] != gn[a] && gn[t] != gn[b] && #[trigger] v.words@[first_named(
            v.names@,
            gn[t],
        )]@.contains(w)
}

/// The cell of row `r` and column `c` has a word of its own.
pub open spec fn cell_ok(v: Validator, gn: Seq<Seq<char>>, r: int, c: int) -> bool {
    exists|w: u64|
        #[trigger] in_both(
            v.words@[first_named(v.names@, gn[r])]@,
            v.words@[first_named(v.names@, gn[4 + c])]@,
            w,
        ) && !other_has(v, gn, r, 4 + c, w)
}

pub open spec fn all_known(v: Validator, gn: Seq<Seq<char>>) -> bool {
    forall|t: int| 0 <= t < 8 ==> #[trigger] known(v.names@, gn[t])
}

pub open spec fn meta_ok(v: Validator, gn: Seq<Seq<char>>) -> bool {
    forall|t: int| 0 <= t < 8 ==> !#[trigger] meta_fails_at(v, gn, t)
}

proof fn lemma_first_named_unique(names: Seq<String>, name: Seq<char>, i: int)
    requires
        is_first_named(names, name, i),
    ensures
        first_named(names, name) == i,
{
    let k = first_named(names, name);
    assert(is_first_named(names, name, k));
    if k < i {
        assert(names[k]@ != name);
    }
    if i < k {
        assert(names[i]@ != name);
    }
}

impl Validator {
    pub open spec fn wf(&self) -> bool {
        self.words@.len() == self.names@.len() && self.labels@.len() == self.names@.len()
    }

    /// The first index of a category called `name`.
    pub fn find_category(&self, name: &String) -> (r: Option<usize>)
        ensures
            match r {
                Some(i) => is_first_named(self.names@, name@, i as int),
                None => !known(self.names@, name@),
            },
    {
        let mut i: usize = 0;
        while i < self.names.len()
            invariant
                i <= self.names@.len(),
                forall|j: int| 0 <= j < i ==> #[trigger] self.names@[j]@ != name@,
            decreases self.names@.len() - i,
        {
            if self.names[i] == *name {
                return Some(i);
            }
            i = i + 1;
        }
        None
    }

    /// Checks the meta caps over the grid's categories, rows first.
    fn check_meta(&self, sel: &Vec<usize>, Ghost(gn): Ghost<Seq<Seq<char>>>) -> (r: Result<(), InvalidReason>)
        requires
            self.wf(),
            gn.len() == 8,
            sel@.len() == 8,
            forall|t: int| 0 <= t < 8 ==> #[trigger] sel@[t] == first_named(self.names@, gn[t]),
            forall|t: int| 0 <= t < 8 ==> #[trigger] sel@[t] < self.names@.len(),
        ensures
            match r {
                Ok(()) => meta_ok(*self, gn),
                Err(InvalidReason::MetaCap { position, count, max }) => {
                    &&& position < 8
                    &&& meta_fails_at(*self, gn, position as int)
                    &&& forall|q: int| 0 <= q < position ==> !#[trigger] meta_fails_at(*self, gn, q)
                    &&& count == prefix_count(*self, gn, position + 1, label_at(*self, gn, position as int)->0)
                    &&& max == label_cap_spec(label_at(*self, gn, position as int)->0)
                },
                _ => false,
            },
    {
        let mut t: usize = 0;
        while t < 8
            invariant
                self.wf(),
                gn.len() == 8,
                sel@.len() == 8,
                forall|x: int| 0 <= x < 8 ==> #[trigger] sel@[x] == first_named(self.names@, gn[x]),
                forall|x: int| 0 <= x < 8 ==> #[trigger] sel@[x] < self.names@.len(),
                t <= 8,
                forall|q: int| 0 <= q < t ==> !#[trigger] meta_fails_at(*self, gn, q),
            decreases 8 - t,
        {
            match &self.labels[sel[t]] {
                Some(l) => {
                    let mut count: usize = 0;
                    let mut u: usize = 0;
                    while u <= t
                        invariant
                            self.wf(),
                            gn.len() == 8,
                            sel@.len() == 8,
                            forall|x: int| 0 <= x < 8 ==> #[trigger] sel@[x] == first_named(self.names@, gn[x]),
                            forall|x: int| 0 <= x < 8 ==> #[trigger] sel@[x] < self.names@.len(),
                            t < 8,
                            u <= t + 1,
                            count <= u,
                            count == prefix_count(*self, gn, u as int, l@),
                        decreases t + 1 - u,
                    {
                        let same = match &self.labels[sel[u]] {
                            Some(m) => *m == *l,
                            None => false,
                        };
                        if same {
                            count = count + 1;
                        }
                        u = u + 1;
                    }
                    let max = label_cap(l);
                    if count > max {
                        return Err(InvalidReason::MetaCap { position: t, count, max });
                    }
                },
                None => {},
            }
            t = t + 1;
        }
        Ok(())
    }

    /// Whether word `w` belongs to a grid category named neither `a` nor `b`.
    fn other_has_word(
        &self,
        gnames: &Vec<String>,
        sel: &Vec<usize>,
        a: usize,
        b: usize,
        w: u64,
        Ghost(gn): Ghost<Seq<Seq<char>>>,
    ) -> (res: bool)
        requires
            self.wf(),
            gn.len() == 8,
            gnames@.len() == 8,
            sel@.len() == 8,
            a < 8,
            b < 8,
            forall|t: int| 0 <= t < 8 ==> #[trigger] gnames@[t]@ == gn[t],
            forall|t: int| 0 <= t < 8 ==> #[trigger] sel@[t] == first_named(self.names@, gn[t]),
            forall|t: int| 0 <= t < 8 ==> #[trigger] sel@[t] < self.names@.len(),
        ensures
            res == other_has(*self, gn, a as int, b as int, w),
    {
        let mut t: usize = 0;
        while t < 8
            invariant
                self.wf(),
                gn.len() == 8,
                gnames@.len() == 8,
                sel@.len() == 8,
                a < 8,
                b < 8,
                forall|x: int| 0 <= x < 8 ==> #[trigger] gnames@[x]@ == gn[x],
                forall|x: int| 0 <= x < 8 ==> #[trigger] sel@[x] == first_named(self.names@, gn[x]),
                forall|x: int| 0 <= x < 8 ==> #[trigger] sel@[x] < self.names@.len(),
                t <= 8,
                forall|x: int|
                    0 <= x < t ==> !(gn[x] != gn[a as int] && gn[x] != gn[b as int]
                        && #[trigger] self.words@[first_named(self.names@, gn[x])]@.contains(w)),
            decreases 8 - t,
        {
            if gnames[t] != gnames[a] && gnames[t] != gnames[b] && contains_word(&self.words[sel[t]], w) {
                return true;
            }
            t = t + 1;
        }
        false
    }

    /// Whether the cell of row `r` and column `c` has a word of its own.
    fn cell_has_word(
        &self,
        gnames: &Vec<String>,
        sel: &Vec<usize>,
        r: usize,
        c: usize,
        Ghost(gn): Ghost<Seq<Seq<char>>>,
    ) -> (res: bool)
        requires
            self.wf(),
            gn.len() == 8,
            gnames@.len() == 8,
            sel@.len() == 8,
            r < 4,
            c < 4,
            forall|t: int| 0 <= t < 8 ==> #[trigger] gnames@[t]@ == gn[t],
            forall|t: int| 0 <= t < 8 ==> #[trigger] sel@[t] == first_named(self.names@, gn[t]),
            forall|t: int| 0 <= t < 8 ==> #[trigger] sel@[t] < self.names@.len(),
        ensures
            res == cell_ok(*self, gn, r as int, c as int),
    {
        let inter = intersect(&self.words[sel[r]], &self.words[sel[4 + c]]);
        let mut p: usize = 0;
        while p < inter.len()
            invariant
                self.wf(),
                gn.len() == 8,
                gnames@.len() == 8,
                sel@.len() == 8,
                r < 4,
                c < 4,
                forall|t: int| 0 <= t < 8 ==> #[trigger] gnames@[t]@ == gn[t],
                forall|t: int| 0 <= t < 8 ==> #[trigger] sel@[t] == first_named(self.names@, gn[t]),
                forall|t: int| 0 <= t < 8 ==> #[trigger] sel@[t] < self.names@.len(),
                forall|w: u64|
                    #[trigger] inter@.contains(w) <==> in_both(
                        self.words@[sel@[r as int] as int]@,
                        self.words@[sel@[4 + c] as int]@,
                        w,
                    ),
                p <= inter@.len(),
                forall|x: int| 0 <= x < p ==> other_has(*self, gn, r as int, 4 + c, #[trigger] inter@[x]),
            decreases inter@.len() - p,
        {
            let w = inter[p];
            if !self.other_has_word(gnames, sel, r, 4 + c, w, Ghost(gn)) {
                assert(inter@.contains(w));
                return true;
            }
            p = p + 1;
        }
        proof {
            assert forall|w: u64| #[trigger] in_both(
                self.words@[first_named(self.names@, gn[r as int])]@,
                self.words@[first_named(self.names@, gn[4 + c])]@,
                w,
            ) implies other_has(*self, gn, r as int, 4 + c, w) by {
                assert(inter@.contains(w));
                let x = choose|x: int| 0 <= x < inter@.len() && inter@[x] == w;
                assert(other_has(*self, gn, r as int, 4 + c, inter@[x]));
            }
        }
        false
    }

    /// Re-checks a grid given by names: every category must exist, the meta
    /// caps must hold, and every cell must have a word of its own. Reports
    /// the first failure, in that order.
    pub fn validate(&self, rows: &[String; 4], cols: &[String; 4]) -> (r: Result<(), InvalidReason>)
        requires
            self.wf(),
        ensures
            ({
                let gn = grid_names(*rows, *cols);
                match r {
                    Err(InvalidReason::UnknownCategory { position }) => {
                        &&& position < 8
                        &&& !known(self.names@, gn[position as int])
                        &&& forall|q: int| 0 <= q < position ==> #[trigger] known(self.names@, gn[q])
                    },
                    Err(InvalidReason::MetaCap { position, count, max }) => {
                        &&& all_known(*self, gn)
                        &&& position < 8
                        &&& meta_fails_at(*self, gn, position as int)
                        &&& forall|q: int| 0 <= q < position ==> !#[trigger] meta_fails_at(*self, gn, q)
                        &&& count == prefix_count(*self, gn, position + 1, label_at(*self, gn, position as int)->0)
                        &&& max == label_cap_spec(label_at(*self, gn, position as int)->0)
                    },
                    Err(InvalidReason::EmptyCell { row, col }) => {
                        &&& all_known(*self, gn)
                        &&& meta_ok(*self, gn)
                        &&& row < 4
                        &&& col < 4
                        &&& !cell_ok(*self, gn, row as int, col as int)
                        &&& forall|a: int, b: int|
                            0 <= a < 4 && 0 <= b < 4 && (a < row || (a == row && b < col))
                                ==> #[trigger] cell_ok(*self, gn, a, b)
                    },
                    Ok(()) => {
                        &&& all_known(*self, gn)
                        &&& meta_ok(*self, gn)
                        &&& forall|a: int, b: int| 0 <= a < 4 && 0 <= b < 4 ==> #[trigger] cell_ok(*self, gn, a, b)
                    },
                }
            }),
    {
        let ghost gn = grid_names(*rows, *cols);
        let gnames: Vec<String> = vec![
            rows[0].clone(),
            rows[1].clone(),
            rows[2].clone(),
            rows[3].clone(),
            cols[0].clone(),
            cols[1].clone(),
            cols[2].clone(),
            cols[3].clone(),
        ];
        assert(forall|t: int| 0 <= t < 8 ==> #[trigger] gnames@[t]@ == gn[t]);
        let mut sel: Vec<usize> = Vec::new();
        let mut t: usize = 0;
        while t < 8
            invariant
                self.wf(),
                gn == grid_names(*rows, *cols),
                gnames@.len() == 8,
                forall|x: int| 0 <= x < 8 ==> #[trigger] gnames@[x]@ == gn[x],
                t <= 8,
                sel@.len() == t,
                forall|x: int| 0 <= x < t ==> #[trigger] sel@[x] == first_named(self.names@, gn[x]),
                forall|x: int| 0 <= x < t ==> #[trigger] sel@[x] < self.names@.len(),
                forall|x: int| 0 <= x < t ==> #[trigger] known(self.names@, gn[x]),
            decreases 8 - t,
        {
            match self.find_category(&gnames[t]) {
                Some(i) => {
                    proof {
                        lemma_first_named_unique(self.names@, gn[t as int], i as int);
                    }
                    sel.push(i);
                },
                None => {
                    return Err(InvalidReason::UnknownCategory { position: t });
                },
            }
            t = t + 1;
        }
        match self.check_meta(&sel, Ghost(gn)) {
            Ok(()) => {},
            Err(e) => {
                return Err(e);
            },
        }
        let mut r: usize = 0;
        while r < 4
            invariant
                self.wf(),
                gn == grid_names(*rows, *cols),
                gnames@.len() == 8,
                forall|x: int| 0 <= x < 8 ==> #[trigger] gnames@[x]@ == gn[x],
                sel@.len() == 8,
                forall|x: int| 0 <= x < 8 ==> #[trigger] sel@[x] == first_named(self.names@, gn[x]),
                forall|x: int| 0 <= x < 8 ==> #[trigger] sel@[x] < self.names@.len(),
                all_known(*self, gn),
                meta_ok(*self, gn),
                r <= 4,
                forall|a: int, b: int| 0 <= a < r && 0 <= b < 4 ==> #[trigger] cell_ok(*self, gn, a, b),
            decreases 4 - r,
        {
            let mut c: usize = 0;
            while c < 4
                invariant
                    self.wf(),
                    gn == grid_names(*rows, *cols),
                    gnames@.len() == 8,
                    forall|x: int| 0 <= x < 8 ==> #[trigger] gnames@[x]@ == gn[x],
                    sel@.len() == 8,
                    forall|x: int| 0 <= x < 8 ==> #[trigger] sel@[x] == first_named(self.names@, gn[x]),
                    forall|x: int| 0 <= x < 8 ==> #[trigger] sel@[x] < self.names@.len(),
                    all_known(*self, gn),
                    meta_ok(*self, gn),
                    r < 4,
                    c <= 4,
                    forall|a: int, b: int|
                        0 <= a < 4 && 0 <= b < 4 && (a < r || (a == r && b < c)) ==> #[trigger] cell_ok(
                            *self,
                            gn,
                            a,
                            b,
                        ),
                decreases 4 - c,
            {
                if !self.cell_has_word(&gnames, &sel, r, c, Ghost(gn)) {
                    return Err(InvalidReason::EmptyCell { row: r, col: c });
                }
                c = c + 1;
            }
            r = r + 1;
        }
        Ok(())
    }
}

} // verus!
