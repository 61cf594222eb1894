//! Mapping Synthesizer: from the resolved order it builds the rotation
//! mapping — the paired successor and predecessor lookup tables, each a
//! bijection over the member set forming one single cycle — and the two
//! enumeration orders (canonical, and rotated to start at a given member).

use vstd::prelude::*;

use crate::resolve::{clone_names, str_eq};

verus! {

/// `s` rotated left by `k`: the members from position `k` on, then those
/// before `k`.
pub open spec fn rotl(s: Seq<Seq<char>>, k: int) -> Seq<Seq<char>>
    recommends
        0 <= k <= s.len(),
{
    s.subrange(k, s.len() as int) + s.subrange(0, k)
}

/// One left rotation — the successor table's right-hand column. An empty
/// order stays empty.
pub open spec fn rot1(s: Seq<Seq<char>>) -> Seq<Seq<char>> {
    if s.len() == 0 {
        s
    } else {
        rotl(s, 1)
    }
}

/// The member after position `i`, wrapping at the end.
pub open spec fn succ_at(s: Seq<Seq<char>>, i: int) -> Seq<char>
    recommends
        0 <= i < s.len(),
{
    if i + 1 == s.len() {
        s[0]
    } else {
        s[i + 1]
    }
}

/// The member before position `i`, wrapping at the start.
pub open spec fn pred_at(s: Seq<Seq<char>>, i: int) -> Seq<char>
    recommends
        0 <= i < s.len(),
{
    if i == 0 {
        s[s.len() - 1]
    } else {
        s[i - 1]
    }
}

/// The successor of member `m` in the cyclic order `s`.
pub open spec fn succ_of(s: Seq<Seq<char>>, m: Seq<char>) -> Seq<char>
    recommends
        s.contains(m),
{
    succ_at(s, s.index_of(m))
}

/// The predecessor of member `m` in the cyclic order `s`.
pub open spec fn pred_of(s: Seq<Seq<char>>, m: Seq<char>) -> Seq<char>
    recommends
        s.contains(m),
{
    pred_at(s, s.index_of(m))
}

/// `m` taken `k` successor steps along `s`.
pub open spec fn succ_iter(s: Seq<Seq<char>>, m: Seq<char>, k: nat) -> Seq<char>
    decreases k,
{
    if k == 0 {
        m
    } else {
        succ_of(s, succ_iter(s, m, (k - 1) as nat))
    }
}

/// A member of an order holds some position in it.
pub proof fn lemma_index_of_contains(s: Seq<Seq<char>>, m: Seq<char>)
    requires
        s.contains(m),
    ensures
        0 <= s.index_of(m) < s.len(),
        s[s.index_of(m)] == m,
{
    assert(exists|k: int| 0 <= k < s.len() && s[k] == m);
}

/// In an order without duplicates, a member's index is the one position it
/// stands at.
pub proof fn lemma_index_of_unique(s: Seq<Seq<char>>, m: Seq<char>, j: int)
    requires
        s.no_duplicates(),
        0 <= j < s.len(),
        s[j] == m,
    ensures
        s.index_of(m) == j,
{
    assert(s.contains(m));
    lemma_index_of_contains(s, m);
}

/// Find the position of `name` among `v`'s names.
fn index_of_name(v: &Vec<String>, name: &str) -> (j: usize)
    requires
        v.deep_view().contains(name@),
    ensures
        j < v@.len(),
        v.deep_view()[j as int] == name@,
{
    let n = v.len();
    let mut i: usize = 0;
    while i < n
        invariant
            i <= n,
            n == v@.len(),
            forall|k: int| 0 <= k < i ==> v.deep_view()[k] != name@,
        decreases n - i,
    {
        if str_eq(v[i].as_str(), name) {
            proof {
                assert(v.deep_view()[i as int] == v@[i as int]@);
            }
            return i;
        }
        proof {
            assert(v.deep_view()[i as int] == v@[i as int]@);
        }
        i = i + 1;
    }
    proof {
        lemma_index_of_contains(v.deep_view(), name@);
        assert(false);
    }
    0
}

/// The rotation mapping for one resolved order: member to successor and
/// member to predecessor, realised as paired lookup tables built once from
/// a single rotated copy of the order — never as hand-paired branches — so
/// that the tables form one cycle by construction.
pub struct RotationMapping {
    from: Vec<String>,
    to: Vec<String>,
}

impl View for RotationMapping {
    type V = Seq<Seq<char>>;

    /// A mapping is abstractly the resolved order it was built from.
    closed spec fn view(&self) -> Seq<Seq<char>> {
        self.from.deep_view()
    }
}

impl RotationMapping {
    /// The order repeats no member, and the successor column is its single
    /// left rotation.
    pub closed spec fn wf(&self) -> bool {
        &&& self.from.deep_view().no_duplicates()
        &&& self.to.deep_view() == rot1(self.from.deep_view())
    }

    /// A well-formed mapping's order repeats no member.
    pub proof fn lemma_wf_distinct(&self)
        requires
            self.wf(),
        ensures
            self@.no_duplicates(),
    {
    }

    /// Build the paired lookup tables from the resolved order.
    #[verifier::loop_isolation(false)]
    pub fn new(order: Vec<String>) -> (r: RotationMapping)
        requires
            order.deep_view().no_duplicates(),
        ensures
            r.wf(),
            r@ == order.deep_view(),
    {
        let n = order.len();
        let mut to: Vec<String> = Vec::new();
        let mut i: usize = 0;
        while i < n
            invariant
                i <= n,
                to@.len() == i,
                forall|k: int| 0 <= k < i ==> to@[k]@ == succ_at(order.deep_view(), k),
            decreases n - i,
        {
            if i + 1 < n {
                to.push(order[i + 1].clone());
            } else {
                to.push(order[0].clone());
            }
            i = i + 1;
        }
        proof {
            let dv = order.deep_view();
            assert(to.deep_view().len() == to@.len());
            assert(dv.len() == n);
            assert forall|k: int| 0 <= k < n implies to.deep_view()[k] == rot1(dv)[k] by {
                assert(to.deep_view()[k] == to@[k]@);
                assert(to@[k]@ == succ_at(dv, k));
                if k + 1 < n {
                    assert(rot1(dv)[k] == dv.subrange(1, n as int)[k]);
                } else {
                    assert(rot1(dv)[k] == dv.subrange(0, 1)[k - (n - 1)]);
                }
            }
            assert(to.deep_view() =~= rot1(dv));
        }
        RotationMapping { from: order, to }
    }

    /// How many members the mapping covers.
    pub fn member_count(&self) -> (r: usize)
        ensures
            r == self@.len(),
    {
        self.from.len()
    }

    /// The member after `m` in the cyclic resolved order.
    pub fn successor(&self, m: &str) -> (r: String)
        requires
            self.wf(),
            self@.contains(m@),
        ensures
            r@ == succ_of(self@, m@),
    {
        let j = index_of_name(&self.from, m);
        proof {
            lemma_index_of_unique(self@, m@, j as int);
            let n = self@.len() as int;
            if j as int + 1 < n {
                assert(rot1(self@)[j as int] == self@.subrange(1, n)[j as int]);
            } else {
                assert(rot1(self@)[j as int] == self@.subrange(0, 1)[j - (n - 1)]);
            }
            assert(self.to.deep_view().len() == self.to@.len());
            assert(self.to.deep_view()[j as int] == self.to@[j as int]@);
        }
        self.to[j].clone()
    }

    /// The member before `m` in the cyclic resolved order.
    pub fn predecessor(&self, m: &str) -> (r: String)
        requires
            self.wf(),
            self@.contains(m@),
        ensures
            r@ == pred_of(self@, m@),
    {
        proof {
            lemma_index_of_contains(self@, m@);
            let i = self@.index_of(m@);
            let n = self@.len() as int;
            let j0 = if i == 0 { n - 1 } else { i - 1 };
            assert(rot1(self@)[j0] == succ_at(self@, j0));
            assert(self.to.deep_view()[j0] == m@);
            assert(self.to.deep_view().contains(m@));
        }
        let j = index_of_name(&self.to, m);
        proof {
            let i = self@.index_of(m@);
            let n = self@.len() as int;
            assert(rot1(self@)[j as int] == succ_at(self@, j as int));
            assert(succ_at(self@, j as int) == m@);
            if j as int + 1 == n {
                assert(self@[0] == m@);
                lemma_index_of_unique(self@, m@, 0);
                assert(pred_of(self@, m@) == self@[j as int]);
            } else {
                assert(self@[j as int + 1] == m@);
                lemma_index_of_unique(self@, m@, j as int + 1);
                assert(pred_of(self@, m@) == self@[j as int]);
            }
        }
        self.from[j].clone()
    }

    /// The canonical enumeration: the resolved order, start to end.
    pub fn canonical_sequence(&self) -> (r: Vec<String>)
        ensures
            r.deep_view() == self@,
    {
        clone_names(&self.from)
    }

    /// The enumeration starting at `m`: the canonical order rotated left so
    /// that `m` is first, wrapping back to just before `m`.
    #[verifier::loop_isolation(false)]
    pub fn sequence_from(&self, m: &str) -> (r: Vec<String>)
        requires
            self.wf(),
            self@.contains(m@),
        ensures
            r.deep_view() == rotl(self@, self@.index_of(m@)),
    {
        let j = index_of_name(&self.from, m);
        proof {
            lemma_index_of_unique(self@, m@, j as int);
        }
        let n = self.from.len();
        let mut out: Vec<String> = Vec::new();
        let mut i: usize = j;
        while i < n
            invariant
                j <= i <= n,
                out@.len() == i - j,
                forall|k: int| 0 <= k < i - j ==> out@[k]@ == self@[j + k],
            decreases n - i,
        {
            out.push(self.from[i].clone());
            i = i + 1;
        }
        let mut i2: usize = 0;
        while i2 < j
            invariant
                i2 <= j,
                out@.len() == (n - j) + i2,
                forall|k: int| 0 <= k < n - j ==> out@[k]@ == self@[j + k],
                forall|k: int| n - j <= k < (n - j) + i2 ==> out@[k]@ == self@[k - (n - j)],
            decreases j - i2,
    {
            out.push(self.from[i2].clone());
            i2 = i2 + 1;
        }
        proof {
            assert(out.deep_view() =~= rotl(self@, j as int));
        }
        out
    }

    /// The successor lookup table, emission-ready: each member paired with
    /// its successor, in the resolved order. Read right to left, the same
    /// pairs are the predecessor table.
    #[verifier::loop_isolation(false)]
    pub fn successor_table(&self) -> (r: Vec<(String, String)>)
        requires
            self.wf(),
        ensures
            r@.len() == self@.len(),
            forall|k: int|
                0 <= k < r@.len() ==> (#[trigger] r@[k]).0@ == self@[k] && r@[k].1@ == succ_at(
                    self@,
                    k,
                ),
    {
        let n = self.from.len();
        let mut out: Vec<(String, String)> = Vec::new();
        let mut i: usize = 0;
        while i < n
            invariant
                i <= n,
                out@.len() == i,
                forall|k: int|
                    0 <= k < i ==> (#[trigger] out@[k]).0@ == self@[k] && out@[k].1@ == succ_at(
                        self@,
                        k,
                    ),
            decreases n - i,
        {
            proof {
                let n2 = self@.len() as int;
                if i as int + 1 < n2 {
                    assert(rot1(self@)[i as int] == self@.subrange(1, n2)[i as int]);
                } else {
                    assert(rot1(self@)[i as int] == self@.subrange(0, 1)[i - (n2 - 1)]);
                }
                assert(self.to.deep_view().len() == self.to@.len());
                assert(self.to.deep_view()[i as int] == self.to@[i as int]@);
                assert(self.from.deep_view()[i as int] == self.from@[i as int]@);
            }
            out.push((self.from[i].clone(), self.to[i].clone()));
            i = i + 1;
        }
        out
    }
}

/// Law: successor and predecessor are mutual inverses over the member set.
pub proof fn lemma_mutual_inverse(order: Seq<Seq<char>>, m: Seq<char>)
    requires
        order.no_duplicates(),
        order.contains(m),
    ensures
        pred_of(order, succ_of(order, m)) == m,
        succ_of(order, pred_of(order, m)) == m,
{
    lemma_index_of_contains(order, m);
    let i = order.index_of(m);
    let n = order.len() as int;
    let i2 = if i + 1 == n { 0int } else { i + 1 };
    assert(succ_of(order, m) == order[i2]);
    lemma_index_of_unique(order, order[i2], i2);
    assert(pred_of(order, succ_of(order, m)) == pred_at(order, i2));
    let i3 = if i == 0 { n - 1 } else { i - 1 };
    assert(pred_of(order, m) == order[i3]);
    lemma_index_of_unique(order, order[i3], i3);
    assert(succ_of(order, pred_of(order, m)) == succ_at(order, i3));
}

/// `k` successor steps from position `i` land `i + k` positions along the
/// order, wrapped once past the end.
proof fn lemma_succ_iter_shift(order: Seq<Seq<char>>, i: int, k: nat)
    requires
        order.no_duplicates(),
        0 <= i < order.len(),
        k <= order.len(),
    ensures
        succ_iter(order, order[i], k) == order[if i + k < order.len() {
            i + k
        } else {
            i + k - order.len()
        }],
    decreases k,
{
    let n = order.len() as int;
    if k > 0 {
        lemma_succ_iter_shift(order, i, (k - 1) as nat);
        let j = if i + k - 1 < n { i + k - 1 } else { i + k - 1 - n };
        lemma_index_of_unique(order, order[j], j);
        assert(succ_iter(order, order[i], k) == succ_at(order, j));
    }
}

/// Law: from any member, composing `successor` as many times as the order
/// has members leads back to that member — the mapping is one single cycle,
/// not several disjoint ones.
pub proof fn lemma_single_cycle(order: Seq<Seq<char>>, m: Seq<char>)
    requires
        order.no_duplicates(),
        order.contains(m),
    ensures
        succ_iter(order, m, order.len()) == m,
{
    lemma_index_of_contains(order, m);
    lemma_succ_iter_shift(order, order.index_of(m), order.len());
}

/// Law: in an order with a single member, successor and predecessor both
/// map that member to itself.
pub proof fn lemma_single_member_fixpoint(order: Seq<Seq<char>>, m: Seq<char>)
    requires
        order.len() == 1,
        order.contains(m),
    ensures
        m == order[0],
        succ_of(order, m) == m,
        pred_of(order, m) == m,
{
    lemma_index_of_contains(order, m);
}

/// Law: a zero-member order admits no member at all, so neither successor,
/// predecessor nor an enumeration starting at a member can ever be invoked
/// on it.
pub proof fn lemma_empty_order(order: Seq<Seq<char>>)
    requires
        order.len() == 0,
    ensures
        forall|m: Seq<char>| !order.contains(m),
{
}

/// Law: the enumeration starting at `m` has the order's full length, starts
/// at `m`, repeats no member, and holds exactly the order's members.
pub proof fn lemma_sequence_from_properties(order: Seq<Seq<char>>, m: Seq<char>)
    requires
        order.no_duplicates(),
        order.contains(m),
    ensures
        rotl(order, order.index_of(m)).len() == order.len(),
        rotl(order, order.index_of(m))[0] == m,
        rotl(order, order.index_of(m)).no_duplicates(),
        forall|x: Seq<char>|
            #[trigger] rotl(order, order.index_of(m)).contains(x) <==> order.contains(x),
{
    lemma_index_of_contains(order, m);
    let i = order.index_of(m);
    let n = order.len() as int;
    let rot = rotl(order, i);
    assert(rot.len() == n);
    assert(rot[0] == order[i]);
    assert forall|k: int| 0 <= k < n implies #[trigger] rot[k] == order[
        if k < n - i {
            i + k
        } else {
            k - (n - i)
        }
    ] by {
    }
    assert forall|k1: int, k2: int|
        0 <= k1 < n && 0 <= k2 < n && k1 != k2 implies rot[k1] != rot[k2] by {
        let m1 = if k1 < n - i { i + k1 } else { k1 - (n - i) };
        let m2 = if k2 < n - i { i + k2 } else { k2 - (n - i) };
        assert(m1 != m2);
        assert(order[m1] != order[m2]);
    }
    assert forall|x: Seq<char>| #[trigger] rot.contains(x) implies order.contains(x) by {
        let k = choose|k: int| 0 <= k < rot.len() && rot[k] == x;
        let mk = if k < n - i { i + k } else { k - (n - i) };
        assert(order[mk] == x);
    }
    assert forall|x: Seq<char>| order.contains(x) implies #[trigger] rot.contains(x) by {
        let k = choose|k: int| 0 <= k < order.len() && order[k] == x;
        let rk = if k >= i { k - i } else { k + (n - i) };
        assert(rot[rk] == x);
    }
}

} // verus!
