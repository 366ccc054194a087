use vstd::prelude::*;
use crate::step::copy_row;

verus! {

/// The best score reached so far for each grid seen in one search; grids are
/// told apart by their full contents, so two different grids never share an
/// entry.
pub struct Visited {
    keys: Vec<Vec<u8>>,
    scores: Vec<i32>,
}

/// Some entry of `keys` holds `g`.
pub open spec fn has_key(keys: Seq<Vec<u8>>, g: Seq<u8>) -> bool {
    exists|i: int| 0 <= i < keys.len() && (#[trigger] keys[i])@ == g
}

impl View for Visited {
    type V = Map<Seq<u8>, i32>;

    closed spec fn view(&self) -> Map<Seq<u8>, i32> {
        Map::new(
            |g: Seq<u8>| has_key(self.keys@, g),
            |g: Seq<u8>|
                self.scores@[choose|i: int| 0 <= i < self.keys@.len() && (#[trigger] self.keys@[i])@ == g],
        )
    }
}

fn same_data(a: &Vec<u8>, b: &Vec<u8>) -> (r: bool)
    ensures
        r == (a@ == b@),
{
    if a.len() != b.len() {
        return false;
    }
    let mut i: usize = 0;
    while i < a.len()
        invariant
            i <= a@.len() == b@.len(),
            forall|k: int| 0 <= k < i ==> a@[k] == b@[k],
        decreases a@.len() - i,
    {
        if a[i] != b[i] {
            return false;
        }
        i += 1;
    }
    assert(a@ =~= b@);
    true
}

impl Visited {
    pub closed spec fn wf(&self) -> bool {
        &&& self.keys@.len() == self.scores@.len()
        &&& forall|i: int, j: int|
            0 <= i < j < self.keys@.len() ==> (#[trigger] self.keys@[i])@ != (#[trigger] self.keys@[j])@
    }

    pub fn new() -> (r: Visited)
        ensures
            r.wf(),
            r@ == Map::<Seq<u8>, i32>::empty(),
    {
        let r = Visited { keys: Vec::new(), scores: Vec::new() };
        assert(r@ =~= Map::<Seq<u8>, i32>::empty());
        r
    }

    /// Records that `grid` was reached with `score`, unless it was already
    /// reached with an equal or better score; says whether it recorded it.
    pub fn visit(&mut self, grid: &Vec<u8>, score: i32) -> (r: bool)
        requires
            old(self).wf(),
        ensures
            final(self).wf(),
            r == !(old(self)@.contains_key(grid@) && old(self)@[grid@] >= score),
            r ==> final(self)@ == old(self)@.insert(grid@, score),
            !r ==> final(self)@ == old(self)@,
    {
        let ghost pre = *self;
        let found = find_key(&self.keys, grid);
        if let Some(i) = found {
            proof {
                assert(self@.contains_key(grid@));
                let c = choose|j: int| 0 <= j < self.keys@.len() && (#[trigger] self.keys@[j])@ == grid@;
                if c != i {
                    if c < i {
                        assert(self.keys@[c]@ != self.keys@[i as int]@);
                    } else {
                        assert(self.keys@[i as int]@ != self.keys@[c]@);
                    }
                }
                assert(self@[grid@] == self.scores@[i as int]);
            }
            if self.scores[i] >= score {
                return false;
            }
            self.scores.set(i, score);
            proof {
                assert forall|g: Seq<u8>| #[trigger] self@.contains_key(g) implies self@[g] == pre@.insert(
                    grid@,
                    score,
                )[g] by {
                    let c = choose|j: int| 0 <= j < self.keys@.len() && (#[trigger] self.keys@[j])@ == g;
                    if g != grid@ {
                        assert(c != i);
                    } else if c != i {
                        if c < i {
                            assert(self.keys@[c]@ != self.keys@[i as int]@);
                        } else {
                            assert(self.keys@[i as int]@ != self.keys@[c]@);
                        }
                    }
                }
                assert(self@ =~= pre@.insert(grid@, score));
            }
            return true;
        }
        assert(!pre@.contains_key(grid@));
        let key = copy_row(grid);
        self.keys.push(key);
        self.scores.push(score);
        proof {
            let n = pre.keys@.len() as int;
            assert(self.keys@[n]@ == grid@);
            assert forall|g: Seq<u8>| #[trigger] self@.contains_key(g) == pre@.insert(grid@, score).contains_key(g) by {
                if has_key(pre.keys@, g) {
                    let c = choose|j: int| 0 <= j < pre.keys@.len() && (#[trigger] pre.keys@[j])@ == g;
                    assert(self.keys@[c] == pre.keys@[c]);
                }
                if has_key(self.keys@, g) && g != grid@ {
                    let c = choose|j: int| 0 <= j < self.keys@.len() && (#[trigger] self.keys@[j])@ == g;
                    assert(c != n);
                    assert(pre.keys@[c] == self.keys@[c]);
                }
            }
            assert forall|g: Seq<u8>| #[trigger] self@.contains_key(g) implies self@[g] == pre@.insert(
                grid@,
                score,
            )[g] by {
                let c = choose|j: int| 0 <= j < self.keys@.len() && (#[trigger] self.keys@[j])@ == g;
                if g == grid@ {
                    if c != n {
                        assert(pre.keys@[c] == self.keys@[c]);
                    }
                } else {
                    assert(c != n);
                    assert(pre.keys@[c] == self.keys@[c]);
                    let d = choose|j: int| 0 <= j < pre.keys@.len() && (#[trigger] pre.keys@[j])@ == g;
                    if d != c {
                        assert(self.keys@[d] == pre.keys@[d]);
                        if c < d {
                            assert(pre.keys@[c]@ != pre.keys@[d]@);
                        } else {
                            assert(pre.keys@[d]@ != pre.keys@[c]@);
                        }
                    }
                }
            }
            assert forall|a: int, b: int| 0 <= a < b < self.keys@.len() implies (#[trigger] self.keys@[a])@
                != (#[trigger] self.keys@[b])@ by {
                assert(self.keys@[a] == pre.keys@[a]);
                if b < n {
                    assert(self.keys@[b] == pre.keys@[b]);
                }
            }
            assert(self@ =~= pre@.insert(grid@, score));
        }
        true
    }
}

fn find_key(keys: &Vec<Vec<u8>>, grid: &Vec<u8>) -> (r: Option<usize>)
    ensures
        r matches Some(i) ==> i < keys@.len() && keys@[i as int]@ == grid@,
        r is None ==> !has_key(keys@, grid@),
{
    let mut i: usize = 0;
    while i < keys.len()
        invariant
            i <= keys@.len(),
            forall|k: int| 0 <= k < i ==> (#[trigger] keys@[k])@ != grid@,
        decreases keys@.len() - i,
    {
        if same_data(&keys[i], grid) {
            return Some(i);
        }
        i += 1;
    }
    None
}

} // verus!
