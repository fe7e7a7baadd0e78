//! Collapsing readings of one physical device that arrive through several
//! transports: one reading per normalised name, the preferred one winning,
//! the survivors ordered by display name.
use vstd::prelude::*;

use crate::model::{normalized_device_name, normalized_name};
use crate::text::{
    compare_str, lemma_seq_lt_irreflexive, lemma_seq_lt_transitive, seq_lt, str_eq, Order,
};

verus! {

/// A reading that can be grouped by normalised display name and ranked
/// within its group (lower rank is preferred).
pub trait Ranked: Sized {
    /// The display name.
    spec fn name_view(&self) -> Seq<char>;

    /// The preference rank within a group; lower wins.
    spec fn rank_view(&self) -> int;

    /// The display name.
    fn display_name_str(&self) -> (r: &str)
        ensures
            r@ == self.name_view(),
    ;

    /// The preference rank within a group.
    fn rank(&self) -> (r: u8)
        ensures
            r as int == self.rank_view(),
    ;
}

/// The group a reading belongs to: its normalised display name.
pub open spec fn group_of<T: Ranked>(x: T) -> Seq<char> {
    normalized_name(x.name_view())
}

/// Reading `k` is preferred to reading `j`: a lower rank, or the same rank
/// and not later in the sequence.
pub open spec fn preferred<T: Ranked>(s: Seq<T>, k: int, j: int) -> bool {
    s[k].rank_view() < s[j].rank_view() || (s[k].rank_view() == s[j].rank_view() && k <= j)
}

/// Among the first `n` readings, `k` is preferred to every reading of its
/// group.
pub open spec fn wins_within<T: Ranked>(s: Seq<T>, n: int, k: int) -> bool {
    &&& 0 <= k < n <= s.len()
    &&& forall|j: int|
        0 <= j < n && #[trigger] group_of(s[j]) == group_of(s[k]) ==> preferred(s, k, j)
}

/// Reading `k` is the one kept for its group: the first of the lowest rank.
pub open spec fn is_winner<T: Ranked>(s: Seq<T>, k: int) -> bool {
    wins_within(s, s.len() as int, k)
}

/// Every reading of `r` is a winner of `s`.
pub open spec fn only_winners<T: Ranked>(s: Seq<T>, r: Seq<T>) -> bool {
    forall|i: int| 0 <= i < r.len() ==> is_winning_reading(s, #[trigger] r[i])
}

/// `x` is the reading kept for its group in `s`.
pub open spec fn is_winning_reading<T: Ranked>(s: Seq<T>, x: T) -> bool {
    exists|k: int| is_winner(s, k) && s[k] == x
}

/// Every winner of `s` is in `r`.
pub open spec fn all_winners<T: Ranked>(s: Seq<T>, r: Seq<T>) -> bool {
    forall|k: int| #[trigger] is_winner(s, k) ==> r.contains(s[k])
}

/// `r` is the deduplication of `s`: exactly the winners of `s`, in strictly
/// increasing order of display name.
pub open spec fn is_dedup_of<T: Ranked>(s: Seq<T>, r: Seq<T>) -> bool {
    &&& only_winners(s, r)
    &&& all_winners(s, r)
    &&& sorted_by_name(r)
}

/// Two winners of one group are the same reading.
pub proof fn lemma_winner_unique<T: Ranked>(s: Seq<T>, k1: int, k2: int)
    requires
        is_winner(s, k1),
        is_winner(s, k2),
        group_of(s[k1]) == group_of(s[k2]),
    ensures
        k1 == k2,
{
    assert(preferred(s, k1, k2));
    assert(preferred(s, k2, k1));
}

/// Strictly increasing display names.
pub open spec fn sorted_by_name<T: Ranked>(s: Seq<T>) -> bool {
    forall|i: int, j: int| 0 <= i < j < s.len() ==> seq_lt(s[i].name_view(), s[j].name_view())
}

proof fn lemma_insert_index<A>(s: Seq<A>, p: int, x: A, i: int)
    requires
        0 <= p <= s.len(),
        0 <= i <= s.len(),
    ensures
        s.insert(p, x).len() == s.len() + 1,
        s.insert(p, x)[i] == if i < p {
            s[i]
        } else if i == p {
            x
        } else {
            s[i - 1]
        },
{
    s.insert_ensures(p, x);
    if i > p {
        assert(s.insert(p, x)[(i - 1) + 1] == s[i - 1]);
    }
}

/// Inserts `x` into `out`, keeping display names strictly increasing;
/// returns the position it took.
fn insert_by_name<T: Ranked>(out: &mut Vec<T>, x: T) -> (p: usize)
    requires
        sorted_by_name(old(out)@),
        forall|y: int| 0 <= y < old(out)@.len() ==> old(out)@[y].name_view() != x.name_view(),
    ensures
        p <= old(out)@.len(),
        final(out)@ == old(out)@.insert(p as int, x),
        sorted_by_name(final(out)@),
{
    let mut p: usize = 0;
    loop
        invariant
            p <= out.len(),
            forall|y: int| 0 <= y < p ==> seq_lt(out@[y].name_view(), x.name_view()),
        ensures
            p <= out.len(),
            forall|y: int| 0 <= y < p ==> seq_lt(out@[y].name_view(), x.name_view()),
            p < out.len() ==> !seq_lt(out@[p as int].name_view(), x.name_view()),
        decreases out.len() - p,
    {
        if p == out.len() {
            break;
        }
        if compare_str(out[p].display_name_str(), x.display_name_str()) != Order::Less {
            break;
        }
        p = p + 1;
    }
    let ghost old_out = out@;
    proof {
        if p < out.len() {
            crate::text::lemma_seq_lt_total(old_out[p as int].name_view(), x.name_view());
            assert(seq_lt(x.name_view(), old_out[p as int].name_view()));
        }
    }
    out.insert(p, x);
    proof {
        assert(out@ == old_out.insert(p as int, x));
        assert forall|y: int, z: int| 0 <= y < z < out@.len() implies seq_lt(
            out@[y].name_view(),
            out@[z].name_view(),
        ) by {
            lemma_insert_index(old_out, p as int, x, y);
            lemma_insert_index(old_out, p as int, x, z);
            if z > p {
                if z - 1 > p {
                    lemma_seq_lt_transitive(
                        x.name_view(),
                        old_out[p as int].name_view(),
                        old_out[z - 1].name_view(),
                    );
                }
                assert(seq_lt(x.name_view(), old_out[z - 1].name_view()));
            }
            if y < p && z > p {
                lemma_seq_lt_transitive(
                    old_out[y].name_view(),
                    x.name_view(),
                    old_out[z - 1].name_view(),
                );
            }
        }
    }
    p
}

/// Keeps one reading per normalised display name (the first of the lowest
/// rank) and orders the survivors by display name.
pub fn deduplicate_by_name<T: Ranked>(devices: Vec<T>) -> (r: Vec<T>)
    ensures
        is_dedup_of(devices@, r@),
{
    let ghost s = devices@;
    let n = devices.len();
    let mut rest = devices;
    let mut groups: Vec<String> = Vec::new();
    let mut winners: Vec<T> = Vec::new();
    let ghost mut widx: Seq<int> = Seq::empty();
    let mut i: usize = 0;
    while i < n
        invariant
            n == s.len(),
            i <= n,
            rest@ == s.subrange(i as int, n as int),
            groups.len() == winners.len(),
            widx.len() == winners.len(),
            forall|a: int|
                0 <= a < widx.len() ==> {
                    &&& winners@[a] == s[#[trigger] widx[a]]
                    &&& groups@[a]@ == group_of(s[widx[a]])
                    &&& wins_within(s, i as int, widx[a])
                },
            forall|a: int, b: int|
                0 <= a < groups.len() && 0 <= b < groups.len() && a != b ==> groups@[a]@
                    != groups@[b]@,
            forall|j: int|
                0 <= j < i ==> exists|a: int|
                    0 <= a < groups.len() && #[trigger] groups@[a]@ == group_of(#[trigger] s[j]),
        decreases n - i,
    {
        let x = rest.remove(0);
        assert(x == s[i as int]);
        let g = normalized_device_name(x.display_name_str());
        let mut found: Option<usize> = None;
        let mut a: usize = 0;
        while a < groups.len()
            invariant_except_break
                found is None,
            invariant
                a <= groups.len(),
                forall|b: int| 0 <= b < a ==> groups@[b]@ != g@,
            ensures
                match found {
                    Some(f) => f < groups.len() && groups@[f as int]@ == g@,
                    None => forall|b: int| 0 <= b < groups.len() ==> groups@[b]@ != g@,
                },
            decreases groups.len() - a,
        {
            if str_eq(groups[a].as_str(), g.as_str()) {
                found = Some(a);
                break;
            }
            a = a + 1;
        }
        let ghost old_widx = widx;
        let ghost old_groups = groups@;
        match found {
            Some(f) => {
                if x.rank() < winners[f].rank() {
                    winners.set(f, x);
                    proof {
                        widx = widx.update(f as int, i as int);
                    }
                }
            },
            None => {
                groups.push(g);
                winners.push(x);
                proof {
                    widx = widx.push(i as int);
                }
            },
        }
        proof {
            let ii = i as int;
            assert forall|b: int| 0 <= b < widx.len() implies wins_within(
                s,
                ii + 1,
                #[trigger] widx[b],
            ) by {
                if b < old_widx.len() && widx[b] == old_widx[b] {
                    let k = widx[b];
                    assert forall|j: int|
                        0 <= j < ii + 1 && #[trigger] group_of(s[j]) == group_of(s[k]) implies preferred(
                        s,
                        k,
                        j,
                    ) by {
                        if j < ii {
                            assert(wins_within(s, ii, old_widx[b]));
                        } else {
                            assert(j == ii);
                            match found {
                                Some(f) => {
                                    if b != f as int {
                                        assert(groups@[b]@ != groups@[f as int]@);
                                    }
                                },
                                None => {
                                    assert(groups@[b]@ != g@);
                                },
                            }
                        }
                    }
                } else {
                    assert(widx[b] == ii);
                    assert forall|j: int|
                        0 <= j < ii + 1 && #[trigger] group_of(s[j]) == group_of(s[ii]) implies preferred(
                        s,
                        ii,
                        j,
                    ) by {
                        if j < ii {
                            match found {
                                Some(f) => {
                                    assert(b == f as int);
                                    assert(wins_within(s, ii, old_widx[b]));
                                    assert(preferred(s, old_widx[b], j));
                                },
                                None => {
                                    let c = choose|c: int|
                                        0 <= c < old_widx.len() && #[trigger] groups@[c]@
                                            == group_of(s[j]);
                                    assert(groups@[c]@ != g@);
                                },
                            }
                        }
                    }
                }
            }
            assert forall|j: int| 0 <= j < ii + 1 implies exists|a: int|
                0 <= a < groups.len() && #[trigger] groups@[a]@ == group_of(#[trigger] s[j]) by {
                if j < ii {
                    let c = choose|c: int|
                        0 <= c < old_groups.len() && #[trigger] old_groups[c]@ == group_of(s[j]);
                    assert(groups@[c] == old_groups[c]);
                } else {
                    match found {
                        Some(f) => {
                            assert(groups@[f as int]@ == group_of(s[j]));
                        },
                        None => {
                            assert(groups@[old_widx.len() as int]@ == group_of(s[j]));
                        },
                    }
                }
            }
        }
        i = i + 1;
    }
    // Order the winners by display name; their names are pairwise distinct
    // because their groups are.
    let ghost w = winners@;
    let ghost gs = groups@;
    assert forall|a: int| 0 <= a < w.len() implies gs[a]@ == group_of(#[trigger] w[a]) by {
        assert(winners@[a] == s[widx[a]]);
    }
    let m = winners.len();
    let mut pending = winners;
    let mut out: Vec<T> = Vec::new();
    let mut q: usize = 0;
    while q < m
        invariant
            m == w.len(),
            q <= m,
            pending@ == w.subrange(q as int, m as int),
            gs.len() == m,
            forall|a: int| 0 <= a < m ==> gs[a]@ == group_of(#[trigger] w[a]),
            forall|a: int, b: int| 0 <= a < m && 0 <= b < m && a != b ==> gs[a]@ != gs[b]@,
            forall|y: int| 0 <= y < out.len() ==> w.take(q as int).contains(#[trigger] out@[y]),
            forall|a: int| 0 <= a < q ==> out@.contains(#[trigger] w[a]),
            sorted_by_name(out@),
        decreases m - q,
    {
        let x = pending.remove(0);
        assert(x == w[q as int]);
        proof {
            assert forall|y: int| 0 <= y < out.len() implies out@[y].name_view() != x.name_view() by {
                assert(w.take(q as int).contains(out@[y]));
                let a = choose|a: int| 0 <= a < q && w.take(q as int)[a] == out@[y];
                assert(gs[a]@ != gs[q as int]@);
            }
        }
        let ghost old_out = out@;
        let p = insert_by_name(&mut out, x);
        proof {
            assert forall|y: int| 0 <= y < out.len() implies w.take(q + 1).contains(
                #[trigger] out@[y],
            ) by {
                lemma_insert_index(old_out, p as int, x, y);
                if y == p {
                    assert(w.take(q + 1)[q as int] == out@[y]);
                } else {
                    let yy = if y < p { y } else { y - 1 };
                    assert(out@[y] == old_out[yy]);
                    assert(w.take(q as int).contains(old_out[yy]));
                    let a = choose|a: int| 0 <= a < q && w.take(q as int)[a] == old_out[yy];
                    assert(w.take(q + 1)[a] == out@[y]);
                }
            }
            assert forall|a: int| 0 <= a < q + 1 implies out@.contains(#[trigger] w[a]) by {
                if a == q {
                    lemma_insert_index(old_out, p as int, x, p as int);
                    assert(out@[p as int] == w[a]);
                } else {
                    assert(old_out.contains(w[a]));
                    let y = choose|y: int| 0 <= y < old_out.len() && old_out[y] == w[a];
                    if y < p {
                        lemma_insert_index(old_out, p as int, x, y);
                        assert(out@[y] == w[a]);
                    } else {
                        lemma_insert_index(old_out, p as int, x, y + 1);
                        assert(out@[y + 1] == w[a]);
                    }
                }
            }
        }
        q = q + 1;
    }
    proof {
        assert forall|y: int| 0 <= y < out@.len() implies is_winning_reading(
            s,
            #[trigger] out@[y],
        ) by {
            assert(w.take(q as int).contains(out@[y]));
            let a = choose|a: int| 0 <= a < q && w.take(q as int)[a] == out@[y];
            assert(wins_within(s, n as int, widx[a]));
            assert(is_winner(s, widx[a]));
        }
        assert forall|k: int| is_winner(s, k) implies out@.contains(s[k]) by {
            let a = choose|a: int| 0 <= a < gs.len() && #[trigger] gs[a]@ == group_of(#[trigger] s[k]);
            assert(wins_within(s, n as int, widx[a]));
            lemma_winner_unique(s, k, widx[a]);
            assert(out@.contains(w[a]));
        }
    }
    out
}

/// Every group of the first `n` readings has a reading preferred to all
/// others of the group.
proof fn lemma_winner_exists_within<T: Ranked>(s: Seq<T>, n: int, j: int)
    requires
        0 <= j < n <= s.len(),
    ensures
        exists|k: int| wins_within(s, n, k) && group_of(s[k]) == group_of(s[j]),
    decreases n,
{
    let last = n - 1;
    if exists|i: int| 0 <= i < last && group_of(s[i]) == group_of(s[j]) {
        let i = choose|i: int| 0 <= i < last && group_of(s[i]) == group_of(s[j]);
        lemma_winner_exists_within(s, last, i);
        let k = choose|k: int| wins_within(s, last, k) && group_of(s[k]) == group_of(s[i]);
        if group_of(s[last]) != group_of(s[k]) || preferred(s, k, last) {
            assert(wins_within(s, n, k));
        } else {
            assert forall|x: int|
                0 <= x < n && #[trigger] group_of(s[x]) == group_of(s[last]) implies preferred(
                s,
                last,
                x,
            ) by {
                if x < last {
                    assert(preferred(s, k, x));
                }
            }
            assert(wins_within(s, n, last));
        }
    } else {
        assert(j == last);
        assert(wins_within(s, n, last));
    }
}

/// Deduplication keeps one reading per physical device: no two survivors
/// share a normalised name.
pub proof fn lemma_dedup_one_per_device<T: Ranked>(s: Seq<T>, r: Seq<T>, i: int, j: int)
    requires
        is_dedup_of(s, r),
        0 <= i < j < r.len(),
    ensures
        group_of(r[i]) != group_of(r[j]),
{
    assert(is_winning_reading(s, r[i]));
    assert(is_winning_reading(s, r[j]));
    let ki = choose|k: int| is_winner(s, k) && s[k] == r[i];
    let kj = choose|k: int| is_winner(s, k) && s[k] == r[j];
    if group_of(r[i]) == group_of(r[j]) {
        lemma_winner_unique(s, ki, kj);
        lemma_seq_lt_irreflexive(r[i].name_view());
    }
}

/// Deduplication loses no device: every reading's normalised name is that
/// of some survivor.
pub proof fn lemma_dedup_keeps_every_device<T: Ranked>(s: Seq<T>, r: Seq<T>, j: int)
    requires
        is_dedup_of(s, r),
        0 <= j < s.len(),
    ensures
        exists|i: int| 0 <= i < r.len() && group_of(r[i]) == group_of(s[j]),
{
    lemma_winner_exists_within(s, s.len() as int, j);
    let k = choose|k: int| wins_within(s, s.len() as int, k) && group_of(s[k]) == group_of(s[j]);
    assert(is_winner(s, k));
    assert(r.contains(s[k]));
    let i = choose|i: int| 0 <= i < r.len() && r[i] == s[k];
    assert(group_of(r[i]) == group_of(s[j]));
}

/// The survivor of a device is preferred to every reading of that device:
/// its rank is the lowest of the group.
pub proof fn lemma_dedup_survivor_preferred<T: Ranked>(s: Seq<T>, r: Seq<T>, i: int, j: int)
    requires
        is_dedup_of(s, r),
        0 <= i < r.len(),
        0 <= j < s.len(),
        group_of(r[i]) == group_of(s[j]),
    ensures
        r[i].rank_view() <= s[j].rank_view(),
{
    assert(is_winning_reading(s, r[i]));
    let k = choose|k: int| is_winner(s, k) && s[k] == r[i];
    assert(preferred(s, k, j));
}


/// Two sequences in strictly increasing order of display name that hold the
/// same readings are equal.
proof fn lemma_sorted_same_readings<T: Ranked>(a: Seq<T>, b: Seq<T>)
    requires
        sorted_by_name(a),
        sorted_by_name(b),
        forall|i: int| 0 <= i < a.len() ==> b.contains(#[trigger] a[i]),
        forall|i: int| 0 <= i < b.len() ==> a.contains(#[trigger] b[i]),
    ensures
        a == b,
    decreases a.len(),
{
    if a.len() == 0 {
        if b.len() > 0 {
            assert(a.contains(b[0]));
        }
        assert(a =~= b);
    } else if b.len() == 0 {
        assert(b.contains(a[0]));
    } else {
        assert(b.contains(a[0]));
        let p = choose|p: int| 0 <= p < b.len() && b[p] == a[0];
        assert(a.contains(b[0]));
        let q = choose|q: int| 0 <= q < a.len() && a[q] == b[0];
        if p > 0 {
            assert(seq_lt(b[0].name_view(), b[p].name_view()));
            if q > 0 {
                assert(seq_lt(a[0].name_view(), a[q].name_view()));
                lemma_seq_lt_transitive(b[0].name_view(), a[0].name_view(), b[0].name_view());
            }
            lemma_seq_lt_irreflexive(b[0].name_view());
        }
        assert(a[0] == b[0]);
        let a1 = a.drop_first();
        let b1 = b.drop_first();
        assert forall|i: int| 0 <= i < a1.len() implies b1.contains(#[trigger] a1[i]) by {
            assert(a[i + 1] == a1[i]);
            assert(b.contains(a[i + 1]));
            let k = choose|k: int| 0 <= k < b.len() && b[k] == a[i + 1];
            if k == 0 {
                assert(seq_lt(a[0].name_view(), a[i + 1].name_view()));
                lemma_seq_lt_irreflexive(a[0].name_view());
            }
            assert(b1[k - 1] == a1[i]);
        }
        assert forall|i: int| 0 <= i < b1.len() implies a1.contains(#[trigger] b1[i]) by {
            assert(b[i + 1] == b1[i]);
            assert(a.contains(b[i + 1]));
            let k = choose|k: int| 0 <= k < a.len() && a[k] == b[i + 1];
            if k == 0 {
                assert(seq_lt(b[0].name_view(), b[i + 1].name_view()));
                lemma_seq_lt_irreflexive(b[0].name_view());
            }
            assert(a1[k - 1] == b1[i]);
        }
        lemma_sorted_same_readings(a1, b1);
        assert forall|i: int| 0 <= i < a.len() implies a[i] == b[i] by {
            if i > 0 {
                assert(a1[i - 1] == b1[i - 1]);
            }
        }
        assert(a =~= b);
    }
}

/// Deduplicating a deduplicated sequence again changes nothing: each of its
/// readings is the only one of its device, so it is kept, in the same order.
pub proof fn lemma_dedup_idempotent<T: Ranked>(s: Seq<T>, r: Seq<T>, r2: Seq<T>)
    requires
        is_dedup_of(s, r),
        is_dedup_of(r, r2),
    ensures
        r2 == r,
{
    assert forall|k: int| 0 <= k < r.len() implies #[trigger] is_winner(r, k) by {
        assert forall|j: int|
            0 <= j < r.len() && #[trigger] group_of(r[j]) == group_of(r[k]) implies preferred(
            r,
            k,
            j,
        ) by {
            if j < k {
                lemma_dedup_one_per_device(s, r, j, k);
            } else if k < j {
                lemma_dedup_one_per_device(s, r, k, j);
            }
        }
    }
    assert forall|i: int| 0 <= i < r.len() implies r2.contains(#[trigger] r[i]) by {
        assert(is_winner(r, i));
    }
    assert forall|i: int| 0 <= i < r2.len() implies r.contains(#[trigger] r2[i]) by {
        assert(is_winning_reading(r, r2[i]));
        let k = choose|k: int| is_winner(r, k) && r[k] == r2[i];
    }
    lemma_sorted_same_readings(r, r2);
}

/// A sequence has one deduplication: any two are equal.
pub proof fn lemma_dedup_unique<T: Ranked>(s: Seq<T>, r1: Seq<T>, r2: Seq<T>)
    requires
        is_dedup_of(s, r1),
        is_dedup_of(s, r2),
    ensures
        r1 == r2,
{
    assert forall|i: int| 0 <= i < r1.len() implies r2.contains(#[trigger] r1[i]) by {
        assert(is_winning_reading(s, r1[i]));
        let k = choose|k: int| is_winner(s, k) && s[k] == r1[i];
    }
    assert forall|i: int| 0 <= i < r2.len() implies r1.contains(#[trigger] r2[i]) by {
        assert(is_winning_reading(s, r2[i]));
        let k = choose|k: int| is_winner(s, k) && s[k] == r2[i];
    }
    lemma_sorted_same_readings(r1, r2);
}

} // verus!
