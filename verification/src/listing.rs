//! The order of addresses, and the sorted listing of a set of addresses.

use vstd::prelude::*;

use crate::address;
use crate::address::Address;

verus! {

/// `a` comes before `b`: they differ, and where they first differ `a` is smaller.
pub open spec fn comes_before(a: Seq<u8>, b: Seq<u8>) -> bool {
    exists|k: int|
        #![trigger a[k], b[k]]
        0 <= k < a.len() && k < b.len() && a[k] < b[k] && (forall|i: int|
            0 <= i < k ==> a[i] == b[i])
}

/// Every element comes before all that follow it.
pub open spec fn ascending(s: Seq<Seq<u8>>) -> bool {
    forall|i: int, j: int|
        #![trigger s[i], s[j]]
        0 <= i < j < s.len() ==> comes_before(s[i], s[j])
}

/// `s` holds the elements of `set`, each of them once, in ascending order.
pub open spec fn is_listing(s: Seq<Seq<u8>>, set: Set<Seq<u8>>) -> bool {
    ascending(s) && s.to_set() == set
}

/// The elements of `set` in ascending order.
pub open spec fn listing(set: Set<Seq<u8>>) -> Seq<Seq<u8>> {
    choose|s: Seq<Seq<u8>>| is_listing(s, set)
}

/// What comes before something comes before all that follows it.
proof fn lemma_transitive(a: Seq<u8>, b: Seq<u8>, c: Seq<u8>)
    requires
        comes_before(a, b),
        comes_before(b, c),
    ensures
        comes_before(a, c),
{
    let k = choose|k: int|
        #![trigger a[k], b[k]]
        0 <= k < a.len() && k < b.len() && a[k] < b[k] && (forall|i: int|
            0 <= i < k ==> a[i] == b[i]);
    let m = choose|m: int|
        #![trigger b[m], c[m]]
        0 <= m < b.len() && m < c.len() && b[m] < c[m] && (forall|i: int|
            0 <= i < m ==> b[i] == c[i]);
    if k <= m {
        assert(a[k] < c[k]);
    } else {
        assert(a[m] < c[m]);
    }
}

/// Whether `a` comes before `b`.
fn is_before(a: &Address, b: &Address) -> (res: bool)
    ensures
        res == comes_before(a@, b@),
        !res ==> a@ == b@ || comes_before(b@, a@),
{
    let mut i: usize = 0;
    while i < 20
        invariant
            i <= 20,
            forall|j: int| 0 <= j < i ==> a@[j] == b@[j],
        decreases 20 - i,
    {
        if a[i] < b[i] {
            return true;
        }
        if a[i] > b[i] {
            assert(b@[i as int] < a@[i as int]);
            return false;
        }
        i = i + 1;
    }
    assert(a@ =~= b@);
    false
}

/// Merges two ascending lists without a common address into one.
fn merge(left: &Vec<Address>, right: &Vec<Address>) -> (res: Vec<Address>)
    requires
        ascending(address::bytes_of(left@)),
        ascending(address::bytes_of(right@)),
        forall|i: int, j: int|
            #![trigger left@[i], right@[j]]
            0 <= i < left@.len() && 0 <= j < right@.len() ==> left@[i]@ != right@[j]@,
    ensures
        ascending(address::bytes_of(res@)),
        address::bytes_of(res@).to_set() == address::bytes_of(left@).to_set().union(
            address::bytes_of(right@).to_set(),
        ),
{
    let ghost l = address::bytes_of(left@);
    let ghost r = address::bytes_of(right@);
    let mut out: Vec<Address> = Vec::new();
    let mut i: usize = 0;
    let mut j: usize = 0;
    while i < left.len() || j < right.len()
        invariant
            l == address::bytes_of(left@),
            r == address::bytes_of(right@),
            ascending(l),
            ascending(r),
            forall|a: int, b: int|
                #![trigger left@[a], right@[b]]
                0 <= a < left@.len() && 0 <= b < right@.len() ==> left@[a]@ != right@[b]@,
            i <= left@.len(),
            j <= right@.len(),
            ascending(address::bytes_of(out@)),
            forall|k: int, a: int|
                #![trigger out@[k], l[a]]
                0 <= k < out@.len() && i <= a < l.len() ==> comes_before(out@[k]@, l[a]),
            forall|k: int, b: int|
                #![trigger out@[k], r[b]]
                0 <= k < out@.len() && j <= b < r.len() ==> comes_before(out@[k]@, r[b]),
            forall|k: int|
                #![trigger out@[k]]
                0 <= k < out@.len() ==> l.contains(out@[k]@) || r.contains(out@[k]@),
            forall|a: int|
                #![trigger l[a]]
                0 <= a < i ==> address::bytes_of(out@).contains(l[a]),
            forall|b: int|
                #![trigger r[b]]
                0 <= b < j ==> address::bytes_of(out@).contains(r[b]),
        decreases left@.len() - i + right@.len() - j,
    {
        let from_left: bool = if i >= left.len() {
            false
        } else if j >= right.len() {
            true
        } else {
            is_before(&left[i], &right[j])
        };
        let item: Address = if from_left {
            left[i]
        } else {
            right[j]
        };
        let ghost before = address::bytes_of(out@);
        proof {
            if i < left@.len() && j < right@.len() {
                assert(left@[i as int]@ != right@[j as int]@);
            }
            assert forall|a: int|
                #![trigger l[a]]
                i <= a < l.len() && !(from_left && a == i) implies comes_before(item@, l[a]) by {
                if from_left {
                    assert(comes_before(l[i as int], l[a]));
                } else {
                    assert(comes_before(r[j as int], l[i as int]));
                    if a > i {
                        lemma_transitive(r[j as int], l[i as int], l[a]);
                    }
                }
            }
            assert forall|b: int|
                #![trigger r[b]]
                j <= b < r.len() && !(!from_left && b == j) implies comes_before(item@, r[b]) by {
                if !from_left {
                    assert(comes_before(r[j as int], r[b]));
                } else {
                    assert(comes_before(l[i as int], r[j as int]));
                    if b > j {
                        lemma_transitive(l[i as int], r[j as int], r[b]);
                    }
                }
            }
            if from_left {
                assert(l[i as int] == item@);
            } else {
                assert(r[j as int] == item@);
            }
        }
        out.push(item);
        proof {
            let after = address::bytes_of(out@);
            assert(after =~= before.push(item@));
            assert forall|x: int, y: int|
                #![trigger after[x], after[y]]
                0 <= x < y < after.len() implies comes_before(after[x], after[y]) by {
                if y < before.len() {
                    assert(after[x] == before[x] && after[y] == before[y]);
                } else {
                    assert(after[x] == out@[x]@);
                }
            }
            assert forall|z: Seq<u8>| before.contains(z) implies #[trigger] after.contains(z) by {
                let k = choose|k: int| 0 <= k < before.len() && before[k] == z;
                assert(after[k] == z);
            }
            assert(after[before.len() as int] == item@);
            assert(after.contains(item@));
        }
        if from_left {
            i = i + 1;
        } else {
            j = j + 1;
        }
    }
    proof {
        let all = address::bytes_of(out@);
        assert forall|z: Seq<u8>| #[trigger] all.to_set().contains(z) <==> l.to_set().union(
            r.to_set(),
        ).contains(z) by {
            if all.contains(z) {
                let k = choose|k: int| 0 <= k < all.len() && all[k] == z;
                assert(out@[k]@ == z);
            }
            if l.contains(z) {
                let a = choose|a: int| 0 <= a < l.len() && l[a] == z;
                assert(all.contains(l[a]));
            }
            if r.contains(z) {
                let b = choose|b: int| 0 <= b < r.len() && r[b] == z;
                assert(all.contains(r[b]));
            }
        }
        assert(all.to_set() =~= l.to_set().union(r.to_set()));
    }
    out
}

/// The addresses from position `lo` up to, but without, `hi`, in ascending order.
fn sort_range(v: &Vec<Address>, lo: usize, hi: usize) -> (res: Vec<Address>)
    requires
        lo <= hi <= v@.len(),
        address::bytes_of(v@).no_duplicates(),
    ensures
        is_listing(
            address::bytes_of(res@),
            address::bytes_of(v@).subrange(lo as int, hi as int).to_set(),
        ),
    decreases hi - lo,
{
    let ghost all = address::bytes_of(v@);
    if hi - lo <= 1 {
        let mut out: Vec<Address> = Vec::new();
        if lo < hi {
            out.push(v[lo]);
        }
        assert(address::bytes_of(out@) =~= all.subrange(lo as int, hi as int));
        return out;
    }
    let mid: usize = lo + (hi - lo) / 2;
    let left = sort_range(v, lo, mid);
    let right = sort_range(v, mid, hi);
    let ghost l = address::bytes_of(left@);
    let ghost r = address::bytes_of(right@);
    let ghost first = all.subrange(lo as int, mid as int);
    let ghost second = all.subrange(mid as int, hi as int);
    proof {
        assert forall|i: int, j: int|
            #![trigger left@[i], right@[j]]
            0 <= i < left@.len() && 0 <= j < right@.len() implies left@[i]@ != right@[j]@ by {
            assert(l[i] == left@[i]@ && r[j] == right@[j]@);
            assert(l.to_set().contains(l[i]) && r.to_set().contains(r[j]));
            let a = choose|a: int| 0 <= a < first.len() && first[a] == l[i];
            let b = choose|b: int| 0 <= b < second.len() && second[b] == r[j];
            assert(all[lo + a] == l[i] && all[mid + b] == r[j]);
        }
    }
    let out = merge(&left, &right);
    proof {
        let whole = all.subrange(lo as int, hi as int);
        assert forall|z: Seq<u8>| #[trigger] whole.to_set().contains(z) <==> first.to_set().union(
            second.to_set(),
        ).contains(z) by {
            if whole.contains(z) {
                let k = choose|k: int| 0 <= k < whole.len() && whole[k] == z;
                if k < first.len() {
                    assert(first[k] == z);
                } else {
                    assert(second[k - first.len()] == z);
                }
            }
            if first.contains(z) {
                let k = choose|k: int| 0 <= k < first.len() && first[k] == z;
                assert(whole[k] == z);
            }
            if second.contains(z) {
                let k = choose|k: int| 0 <= k < second.len() && second[k] == z;
                assert(whole[first.len() + k] == z);
            }
        }
        assert(whole.to_set() =~= first.to_set().union(second.to_set()));
    }
    out
}

/// The addresses in ascending order.
pub fn sorted_addresses(v: &Vec<Address>) -> (res: Vec<Address>)
    requires
        address::bytes_of(v@).no_duplicates(),
    ensures
        address::bytes_of(res@) == listing(address::bytes_of(v@).to_set()),
        is_listing(address::bytes_of(res@), address::bytes_of(v@).to_set()),
{
    let out = sort_range(v, 0, v.len());
    proof {
        let all = address::bytes_of(v@);
        assert(all.subrange(0, all.len() as int) =~= all);
        law_listing_is_unique(
            address::bytes_of(out@),
            listing(all.to_set()),
            all.to_set(),
        );
    }
    out
}

/// An ascending list holds nothing twice.
pub proof fn law_listing_has_no_repetition(s: Seq<Seq<u8>>)
    requires
        ascending(s),
    ensures
        s.no_duplicates(),
{
    assert forall|i: int, j: int| 0 <= i < s.len() && 0 <= j < s.len() && i != j implies s[i]
        != s[j] by {
        if i < j {
            assert(comes_before(s[i], s[j]));
        } else {
            assert(comes_before(s[j], s[i]));
        }
    }
}

/// A set has only one listing: what is listed depends on the set alone.
pub proof fn law_listing_is_unique(s: Seq<Seq<u8>>, t: Seq<Seq<u8>>, set: Set<Seq<u8>>)
    requires
        is_listing(s, set),
        is_listing(t, set),
    ensures
        s == t,
    decreases s.len(),
{
    law_listing_has_no_repetition(s);
    law_listing_has_no_repetition(t);
    s.unique_seq_to_set();
    t.unique_seq_to_set();
    if s.len() > 0 {
        assert(set.contains(s[0]));
        assert(set.contains(t[0]));
        let a = choose|a: int| 0 <= a < t.len() && t[a] == s[0];
        let b = choose|b: int| 0 <= b < s.len() && s[b] == t[0];
        if a > 0 && b > 0 {
            assert(comes_before(t[0], t[a]));
            assert(comes_before(s[0], s[b]));
            lemma_transitive(s[0], t[0], s[0]);
        }
        assert(s[0] == t[0]);
        let x = s.drop_first();
        let y = t.drop_first();
        let rest = set.remove(s[0]);
        lemma_rest_is_listing(s, set);
        lemma_rest_is_listing(t, set);
        law_listing_is_unique(x, y, rest);
        assert(s =~= seq![s[0]] + x);
        assert(t =~= seq![t[0]] + y);
    } else {
        assert(s =~= t);
    }
}

/// Without its first element a listing lists the rest of the set.
proof fn lemma_rest_is_listing(s: Seq<Seq<u8>>, set: Set<Seq<u8>>)
    requires
        is_listing(s, set),
        s.len() > 0,
    ensures
        is_listing(s.drop_first(), set.remove(s[0])),
{
    let rest = s.drop_first();
    law_listing_has_no_repetition(s);
    assert forall|i: int, j: int|
        #![trigger rest[i], rest[j]]
        0 <= i < j < rest.len() implies comes_before(rest[i], rest[j]) by {
        assert(comes_before(s[i + 1], s[j + 1]));
    }
    assert forall|z: Seq<u8>| #[trigger] rest.to_set().contains(z) <==> set.remove(s[0]).contains(
        z,
    ) by {
        if rest.contains(z) {
            let k = choose|k: int| 0 <= k < rest.len() && rest[k] == z;
            assert(s[k + 1] == z);
        }
        if set.contains(z) && z != s[0] {
            assert(s.contains(z));
            let k = choose|k: int| 0 <= k < s.len() && s[k] == z;
            assert(rest[k - 1] == z);
        }
    }
    assert(rest.to_set() =~= set.remove(s[0]));
}

/// Of two byte sequences that agree up to some position and differ there, the one with the
/// smaller byte there comes before the other; none comes before itself.
pub proof fn law_first_difference_decides(
    common: Seq<u8>,
    x: u8,
    y: u8,
    s: Seq<u8>,
    t: Seq<u8>,
)
    ensures
        x != y ==> (comes_before(common + seq![x] + s, common + seq![y] + t) <==> x < y),
        !comes_before(s, s),
{
    let a = common + seq![x] + s;
    let b = common + seq![y] + t;
    let n = common.len() as int;
    assert(a[n] == x && b[n] == y);
    assert forall|i: int| 0 <= i < n implies a[i] == b[i] by {
        assert(a[i] == common[i] && b[i] == common[i]);
    }
    if x < y {
        assert(a[n] < b[n]);
        assert(comes_before(a, b));
    }
    if x > y && comes_before(a, b) {
        let k = choose|k: int|
            #![trigger a[k], b[k]]
            0 <= k < a.len() && k < b.len() && a[k] < b[k] && (forall|i: int|
                0 <= i < k ==> a[i] == b[i]);
        if k > n {
            assert(a[n] == b[n]);
        }
    }
}

/// A listing holds what is in the set and nothing else, and of two entries the former comes
/// before the latter.
pub proof fn law_listing_holds_the_set(s: Seq<Seq<u8>>, set: Set<Seq<u8>>, a: Seq<u8>)
    requires
        is_listing(s, set),
    ensures
        set.contains(a) <==> exists|i: int| 0 <= i < s.len() && #[trigger] s[i] == a,
        forall|i: int, j: int|
            0 <= i < j < s.len() ==> comes_before(#[trigger] s[i], #[trigger] s[j]),
        s.len() == set.len(),
{
    law_listing_has_no_repetition(s);
    s.unique_seq_to_set();
    if set.contains(a) {
        assert(s.to_set().contains(a));
        let i = choose|i: int| 0 <= i < s.len() && s[i] == a;
        assert(s[i] == a);
    }
    if exists|i: int| 0 <= i < s.len() && #[trigger] s[i] == a {
        assert(s.to_set().contains(a));
    }
}

} // verus!
