//! The constraint algebra: ranges, AND-terms, DNF constraint sets, and the
//! complement memoization table.
//!
//! A range over an ordered value type is kept in a canonical closed form:
//! either a finite set of admitted values, or the complement of a finite set
//! (`cofinite`). The member list is strictly sorted, so structurally equal
//! ranges admit exactly the same values and vice versa (for ranges of the
//! same kind). This closed form supports every operation the algebra needs:
//! `none`, `any`, `equal`, `intersection`, `negate` and `contains`.
//!
//! A constraint set keeps its DNF canonical: no term is the impossible
//! term, no term occurs twice, a term matching everything stands alone, and
//! every operation builds its terms in a deterministic order derived from
//! the input values alone.

use vstd::prelude::*;
use vstd::seq_lib::*;
use vstd::set_lib::*;
use crate::version::Version;

verus! {

/// The mathematical value of a range: the admitted values are those in
/// `items` if `cofinite` is false, and those not in `items` otherwise.
#[verifier::ext_equal]
pub ghost struct RangeView<T> {
    pub cofinite: bool,
    pub items: Seq<T>,
}

impl<T> RangeView<T> {
    /// Whether the range admits the value `v`.
    pub open spec fn has(self, v: T) -> bool {
        self.items.contains(v) != self.cofinite
    }

    /// The canonical range admitting nothing.
    pub open spec fn is_none(self) -> bool {
        !self.cofinite && self.items.len() == 0
    }

    /// The canonical range admitting everything.
    pub open spec fn is_any(self) -> bool {
        self.cofinite && self.items.len() == 0
    }
}

/// Strictly increasing order of a build-number list.
pub open spec fn sorted_b(s: Seq<u64>) -> bool {
    forall|i: int, j: int| 0 <= i < j < s.len() ==> s[i] < s[j]
}

/// Strictly increasing order of a version list.
pub open spec fn sorted_v(s: Seq<Version>) -> bool {
    forall|i: int, j: int| 0 <= i < j < s.len() ==> s[i].lt_spec(s[j])
}

/// Well-formedness of a build-number range: the member list is strictly
/// sorted and no longer than a vector can be.
pub open spec fn br_wf(r: RangeView<u64>) -> bool {
    sorted_b(r.items) && r.items.len() <= usize::MAX
}

/// Well-formedness of a version range.
pub open spec fn vr_wf(r: RangeView<Version>) -> bool {
    sorted_v(r.items) && r.items.len() <= usize::MAX
}

/// A range of build numbers.
#[derive(Debug, Hash)]
pub struct BuildRange {
    cofinite: bool,
    items: Vec<u64>,
}

/// A range of versions.
#[derive(Debug, Hash)]
pub struct VersionRange {
    cofinite: bool,
    items: Vec<Version>,
}

impl View for BuildRange {
    type V = RangeView<u64>;

    closed spec fn view(&self) -> RangeView<u64> {
        RangeView { cofinite: self.cofinite, items: self.items@ }
    }
}

impl View for VersionRange {
    type V = RangeView<Version>;

    closed spec fn view(&self) -> RangeView<Version> {
        RangeView { cofinite: self.cofinite, items: self.items@ }
    }
}

/// Every strictly sorted list misses at least one build number, because a
/// vector is shorter than the number of distinct `u64` values.
proof fn lemma_missing_u64(l: Seq<u64>)
    requires
        l.len() <= usize::MAX,
    ensures
        exists|x: u64| !l.contains(x),
{
    let m = l.map_values(|x: u64| x as int);
    m.lemma_cardinality_of_set();
    let full = set_int_range(0, 0x1_0000_0000_0000_0000);
    lemma_int_range(0, 0x1_0000_0000_0000_0000);
    if forall|k: int| full.contains(k) ==> #[trigger] m.to_set().contains(k) {
        lemma_len_subset(full, m.to_set());
        assert(false);
    }
    let k = choose|k: int| full.contains(k) && !(#[trigger] m.to_set().contains(k));
    let x = k as u64;
    assert(!l.contains(x)) by {
        if l.contains(x) {
            let i = choose|i: int| 0 <= i < l.len() && l[i] == x;
            assert(m[i] == k);
            assert(m.contains(k));
        }
    }
}

/// Every strictly sorted list misses at least one version, by the same
/// counting argument applied to the patch component.
proof fn lemma_missing_version(l: Seq<Version>)
    requires
        l.len() <= usize::MAX,
    ensures
        exists|x: Version| !l.contains(x),
{
    let m = l.map_values(|v: Version| v.patch as int);
    m.lemma_cardinality_of_set();
    let full = set_int_range(0, 0x1_0000_0000_0000_0000);
    lemma_int_range(0, 0x1_0000_0000_0000_0000);
    if forall|k: int| full.contains(k) ==> #[trigger] m.to_set().contains(k) {
        lemma_len_subset(full, m.to_set());
        assert(false);
    }
    let k = choose|k: int| full.contains(k) && !(#[trigger] m.to_set().contains(k));
    let x = Version { major: 0, minor: 0, patch: k as u64 };
    assert(!l.contains(x)) by {
        if l.contains(x) {
            let i = choose|i: int| 0 <= i < l.len() && l[i] == x;
            assert(m[i] == k);
            assert(m.contains(k));
        }
    }
}

/// A well-formed range that is not the canonical `none` admits some value.
pub proof fn lemma_br_nonempty(r: RangeView<u64>)
    requires
        br_wf(r),
        !r.is_none(),
    ensures
        exists|x: u64| r.has(x),
{
    if r.cofinite {
        lemma_missing_u64(r.items);
        let x = choose|x: u64| !r.items.contains(x);
        assert(r.has(x));
    } else {
        assert(r.items.contains(r.items[0]));
        assert(r.has(r.items[0]));
    }
}

/// A well-formed version range that is not the canonical `none` admits some
/// value.
pub proof fn lemma_vr_nonempty(r: RangeView<Version>)
    requires
        vr_wf(r),
        !r.is_none(),
    ensures
        exists|x: Version| r.has(x),
{
    if r.cofinite {
        lemma_missing_version(r.items);
        let x = choose|x: Version| !r.items.contains(x);
        assert(r.has(x));
    } else {
        assert(r.items.contains(r.items[0]));
        assert(r.has(r.items[0]));
    }
}

/// Strictly sorted lists with the same members are equal.
proof fn lemma_sorted_b_unique(a: Seq<u64>, b: Seq<u64>)
    requires
        sorted_b(a),
        sorted_b(b),
        forall|x: u64| a.contains(x) == b.contains(x),
    ensures
        a =~= b,
    decreases a.len(),
{
    if a.len() == 0 {
        if b.len() > 0 {
            assert(b.contains(b[0]));
        }
    } else {
        assert(a.contains(a[0]));
        assert(b.contains(b[0]));
        let i = choose|i: int| 0 <= i < a.len() && a[i] == b[0];
        let j = choose|j: int| 0 <= j < b.len() && b[j] == a[0];
        assert(a[0] == b[0]) by {
            if i > 0 {
                assert(a[0] < a[i]);
                if j > 0 {
                    assert(b[0] < b[j]);
                }
            }
        }
        let at = a.subrange(1, a.len() as int);
        let bt = b.subrange(1, b.len() as int);
        assert forall|x: u64| at.contains(x) == bt.contains(x) by {
            assert(at.contains(x) == (a.contains(x) && x != a[0])) by {
                if at.contains(x) {
                    let k = choose|k: int| 0 <= k < at.len() && at[k] == x;
                    assert(a[k + 1] == x);
                    assert(a[0] < a[k + 1]);
                }
                if a.contains(x) && x != a[0] {
                    let k = choose|k: int| 0 <= k < a.len() && a[k] == x;
                    assert(k > 0);
                    assert(at[k - 1] == x);
                }
            }
            assert(bt.contains(x) == (b.contains(x) && x != b[0])) by {
                if bt.contains(x) {
                    let k = choose|k: int| 0 <= k < bt.len() && bt[k] == x;
                    assert(b[k + 1] == x);
                    assert(b[0] < b[k + 1]);
                }
                if b.contains(x) && x != b[0] {
                    let k = choose|k: int| 0 <= k < b.len() && b[k] == x;
                    assert(k > 0);
                    assert(bt[k - 1] == x);
                }
            }
        }
        lemma_sorted_b_unique(at, bt);
        assert(a.len() == b.len());
        assert forall|n: int| 0 <= n < a.len() implies a[n] == b[n] by {
            if n > 0 {
                assert(at[n - 1] == bt[n - 1]);
                assert(at[n - 1] == a[n]);
                assert(bt[n - 1] == b[n]);
            }
        }
        assert(a =~= b);
    }
}

/// Strictly sorted version lists with the same members are equal.
proof fn lemma_sorted_v_unique(a: Seq<Version>, b: Seq<Version>)
    requires
        sorted_v(a),
        sorted_v(b),
        forall|x: Version| a.contains(x) == b.contains(x),
    ensures
        a =~= b,
    decreases a.len(),
{
    if a.len() == 0 {
        if b.len() > 0 {
            assert(b.contains(b[0]));
        }
    } else {
        assert(a.contains(a[0]));
        assert(b.contains(b[0]));
        let i = choose|i: int| 0 <= i < a.len() && a[i] == b[0];
        let j = choose|j: int| 0 <= j < b.len() && b[j] == a[0];
        assert(a[0] == b[0]) by {
            if i > 0 {
                assert(a[0].lt_spec(a[i]));
                if j > 0 {
                    assert(b[0].lt_spec(b[j]));
                }
            }
        }
        let at = a.subrange(1, a.len() as int);
        let bt = b.subrange(1, b.len() as int);
        assert forall|x: Version| at.contains(x) == bt.contains(x) by {
            assert(at.contains(x) == (a.contains(x) && x != a[0])) by {
                if at.contains(x) {
                    let k = choose|k: int| 0 <= k < at.len() && at[k] == x;
                    assert(a[k + 1] == x);
                    assert(a[0].lt_spec(a[k + 1]));
                }
                if a.contains(x) && x != a[0] {
                    let k = choose|k: int| 0 <= k < a.len() && a[k] == x;
                    assert(k > 0);
                    assert(at[k - 1] == x);
                }
            }
            assert(bt.contains(x) == (b.contains(x) && x != b[0])) by {
                if bt.contains(x) {
                    let k = choose|k: int| 0 <= k < bt.len() && bt[k] == x;
                    assert(b[k + 1] == x);
                    assert(b[0].lt_spec(b[k + 1]));
                }
                if b.contains(x) && x != b[0] {
                    let k = choose|k: int| 0 <= k < b.len() && b[k] == x;
                    assert(k > 0);
                    assert(bt[k - 1] == x);
                }
            }
        }
        lemma_sorted_v_unique(at, bt);
        assert(a.len() == b.len());
        assert forall|n: int| 0 <= n < a.len() implies a[n] == b[n] by {
            if n > 0 {
                assert(at[n - 1] == bt[n - 1]);
                assert(at[n - 1] == a[n]);
                assert(bt[n - 1] == b[n]);
            }
        }
        assert(a =~= b);
    }
}

/// Well-formed ranges of the same kind admitting the same values are equal.
pub proof fn lemma_br_ext(a: RangeView<u64>, b: RangeView<u64>)
    requires
        br_wf(a),
        br_wf(b),
        a.cofinite == b.cofinite,
        forall|x: u64| a.has(x) == b.has(x),
    ensures
        a == b,
{
    assert forall|x: u64| a.items.contains(x) == b.items.contains(x) by {
        assert(a.has(x) == b.has(x));
    }
    lemma_sorted_b_unique(a.items, b.items);
    assert(a =~= b);
}

/// Well-formed version ranges of the same kind admitting the same values are
/// equal.
pub proof fn lemma_vr_ext(a: RangeView<Version>, b: RangeView<Version>)
    requires
        vr_wf(a),
        vr_wf(b),
        a.cofinite == b.cofinite,
        forall|x: Version| a.has(x) == b.has(x),
    ensures
        a == b,
{
    assert forall|x: Version| a.items.contains(x) == b.items.contains(x) by {
        assert(a.has(x) == b.has(x));
    }
    lemma_sorted_v_unique(a.items, b.items);
    assert(a =~= b);
}

/// Linear membership test in a build-number list.
fn contains_u64(l: &Vec<u64>, x: u64) -> (r: bool)
    ensures
        r == l@.contains(x),
{
    let mut i: usize = 0;
    while i < l.len()
        invariant
            i <= l@.len(),
            forall|k: int| 0 <= k < i ==> l@[k] != x,
        decreases l@.len() - i,
    {
        if l[i] == x {
            return true;
        }
        i += 1;
    }
    false
}

/// Linear membership test in a version list.
fn contains_version(l: &Vec<Version>, x: &Version) -> (r: bool)
    ensures
        r == l@.contains(*x),
{
    let mut i: usize = 0;
    while i < l.len()
        invariant
            i <= l@.len(),
            forall|k: int| 0 <= k < i ==> l@[k] != *x,
        decreases l@.len() - i,
    {
        if l[i] == *x {
            return true;
        }
        i += 1;
    }
    false
}

/// Keeps the members of `a` whose membership in `b` equals `keep`: the
/// sorted-list intersection (`keep == true`) or difference (`keep == false`).
fn filter_b(a: &Vec<u64>, b: &Vec<u64>, keep: bool) -> (r: Vec<u64>)
    requires
        sorted_b(a@),
    ensures
        sorted_b(r@),
        r@.len() <= a@.len(),
        forall|x: u64| r@.contains(x) == (a@.contains(x) && (b@.contains(x) == keep)),
{
    let mut r: Vec<u64> = Vec::new();
    let mut i: usize = 0;
    while i < a.len()
        invariant
            i <= a@.len(),
            sorted_b(a@),
            sorted_b(r@),
            r@.len() <= i,
            forall|j: int| #![trigger r@[j]] 0 <= j < r@.len() ==> exists|k: int|
                #![trigger a@[k]]
                0 <= k < i && r@[j] == a@[k],
            forall|x: u64| r@.contains(x) ==> (a@.contains(x) && (b@.contains(x) == keep)),
            forall|k: int| 0 <= k < i && ((b@.contains(a@[k])) == keep) ==> r@.contains(a@[k]),
        decreases a@.len() - i,
    {
        let x = a[i];
        let m = contains_u64(b, x);
        if m == keep {
            proof {
                assert forall|j: int| 0 <= j < r@.len() implies r@[j] < x by {
                    let k = choose|k: int| 0 <= k < i && r@[j] == a@[k];
                    assert(a@[k] < a@[i as int]);
                }
            }
            let ghost old_r = r@;
            r.push(x);
            proof {
                assert(r@ == old_r.push(x));
                assert(r@[r@.len() - 1] == x);
                assert forall|y: u64| r@.contains(y) implies (a@.contains(y) && (b@.contains(y)
                    == keep)) by {
                    let j = choose|j: int| 0 <= j < r@.len() && r@[j] == y;
                    if j < r@.len() - 1 {
                        assert(old_r[j] == y);
                        assert(old_r.contains(y));
                    } else {
                        assert(y == x);
                        assert(a@.contains(x));
                    }
                }
                assert forall|k: int| 0 <= k < i + 1 && ((b@.contains(a@[k])) == keep) implies r@
                    .contains(a@[k]) by {
                    if k < i {
                        assert(old_r.contains(a@[k]));
                        let j = choose|j: int| 0 <= j < old_r.len() && old_r[j] == a@[k];
                        assert(r@[j] == a@[k]);
                    } else {
                        assert(r@[r@.len() - 1] == a@[k]);
                    }
                }
            }
        } else {
            proof {
                assert(a@.contains(x)) by {
                    assert(a@[i as int] == x);
                }
            }
        }
        i += 1;
    }
    proof {
        assert forall|x: u64| r@.contains(x) == (a@.contains(x) && (b@.contains(x) == keep)) by {
            if a@.contains(x) && (b@.contains(x) == keep) {
                let k = choose|k: int| 0 <= k < a@.len() && a@[k] == x;
                assert(r@.contains(a@[k]));
            }
        }
    }
    r
}

/// The version-list analogue of `filter_b`.
fn filter_v(a: &Vec<Version>, b: &Vec<Version>, keep: bool) -> (r: Vec<Version>)
    requires
        sorted_v(a@),
    ensures
        sorted_v(r@),
        r@.len() <= a@.len(),
        forall|x: Version| r@.contains(x) == (a@.contains(x) && (b@.contains(x) == keep)),
{
    let mut r: Vec<Version> = Vec::new();
    let mut i: usize = 0;
    while i < a.len()
        invariant
            i <= a@.len(),
            sorted_v(a@),
            sorted_v(r@),
            r@.len() <= i,
            forall|j: int| #![trigger r@[j]] 0 <= j < r@.len() ==> exists|k: int|
                #![trigger a@[k]]
                0 <= k < i && r@[j] == a@[k],
            forall|x: Version| r@.contains(x) ==> (a@.contains(x) && (b@.contains(x) == keep)),
            forall|k: int| 0 <= k < i && ((b@.contains(a@[k])) == keep) ==> r@.contains(a@[k]),
        decreases a@.len() - i,
    {
        let x = a[i];
        let m = contains_version(b, &x);
        if m == keep {
            proof {
                assert forall|j: int| 0 <= j < r@.len() implies r@[j].lt_spec(x) by {
                    let k = choose|k: int| 0 <= k < i && r@[j] == a@[k];
                    assert(a@[k].lt_spec(a@[i as int]));
                }
            }
            let ghost old_r = r@;
            r.push(x);
            proof {
                assert(r@ == old_r.push(x));
                assert(r@[r@.len() - 1] == x);
                assert forall|y: Version| r@.contains(y) implies (a@.contains(y) && (b@.contains(y)
                    == keep)) by {
                    let j = choose|j: int| 0 <= j < r@.len() && r@[j] == y;
                    if j < r@.len() - 1 {
                        assert(old_r[j] == y);
                        assert(old_r.contains(y));
                    } else {
                        assert(y == x);
                        assert(a@.contains(x));
                    }
                }
                assert forall|k: int| 0 <= k < i + 1 && ((b@.contains(a@[k])) == keep) implies r@
                    .contains(a@[k]) by {
                    if k < i {
                        assert(old_r.contains(a@[k]));
                        let j = choose|j: int| 0 <= j < old_r.len() && old_r[j] == a@[k];
                        assert(r@[j] == a@[k]);
                    } else {
                        assert(r@[r@.len() - 1] == a@[k]);
                    }
                }
            }
        } else {
            proof {
                assert(a@.contains(x)) by {
                    assert(a@[i as int] == x);
                }
            }
        }
        i += 1;
    }
    proof {
        assert forall|x: Version| r@.contains(x) == (a@.contains(x) && (b@.contains(x)
            == keep)) by {
            if a@.contains(x) && (b@.contains(x) == keep) {
                let k = choose|k: int| 0 <= k < a@.len() && a@[k] == x;
                assert(r@.contains(a@[k]));
            }
        }
    }
    r
}

/// Membership in a sequence extended by one element.
proof fn lemma_push_contains<T>(s: Seq<T>, x: T)
    ensures
        forall|y: T| #[trigger] s.push(x).contains(y) == (s.contains(y) || y == x),
{
    assert forall|y: T| #[trigger] s.push(x).contains(y) == (s.contains(y) || y == x) by {
        if s.contains(y) {
            let k = choose|k: int| 0 <= k < s.len() && s[k] == y;
            assert(s.push(x)[k] == y);
        }
        assert(s.push(x)[s.len() as int] == x);
        if s.push(x).contains(y) {
            let k = choose|k: int| 0 <= k < s.push(x).len() && s.push(x)[k] == y;
            if k < s.len() {
                assert(s[k] == y);
            }
        }
    }
}

/// Merges two strictly sorted build-number lists: the sorted-list union.
fn union_b(a: &Vec<u64>, b: &Vec<u64>) -> (r: Vec<u64>)
    requires
        sorted_b(a@),
        sorted_b(b@),
    ensures
        sorted_b(r@),
        r@.len() <= a@.len() + b@.len(),
        forall|x: u64| r@.contains(x) == (a@.contains(x) || b@.contains(x)),
{
    let mut r: Vec<u64> = Vec::new();
    let mut i: usize = 0;
    let mut j: usize = 0;
    while i < a.len() || j < b.len()
        invariant
            i <= a@.len(),
            j <= b@.len(),
            sorted_b(a@),
            sorted_b(b@),
            sorted_b(r@),
            r@.len() <= i + j,
            forall|x: u64| r@.contains(x) ==> (a@.contains(x) || b@.contains(x)),
            forall|k: int| 0 <= k < i ==> r@.contains(a@[k]),
            forall|k: int| 0 <= k < j ==> r@.contains(b@[k]),
            forall|t: int, k: int| 0 <= t < r@.len() && i <= k < a@.len() ==> r@[t] < a@[k],
            forall|t: int, k: int| 0 <= t < r@.len() && j <= k < b@.len() ==> r@[t] < b@[k],
        decreases a@.len() - i + b@.len() - j,
    {
        let take_a = if i < a.len() {
            if j < b.len() {
                a[i] <= b[j]
            } else {
                true
            }
        } else {
            false
        };
        if take_a {
            let x = a[i];
            let ghost old_r = r@;
            proof {
                lemma_push_contains(old_r, x);
                assert(a@.contains(x)) by {
                    assert(a@[i as int] == x);
                }
            }
            r.push(x);
            i += 1;
            if j < b.len() && b[j] == x {
                j += 1;
            }
            proof {
                assert forall|k: int| 0 <= k < i implies r@.contains(a@[k]) by {
                    if k < i - 1 {
                        assert(old_r.contains(a@[k]));
                    }
                }
            }
        } else {
            let x = b[j];
            let ghost old_r = r@;
            proof {
                lemma_push_contains(old_r, x);
                assert(b@.contains(x)) by {
                    assert(b@[j as int] == x);
                }
            }
            r.push(x);
            j += 1;
            proof {
                assert forall|k: int| 0 <= k < j implies r@.contains(b@[k]) by {
                    if k < j - 1 {
                        assert(old_r.contains(b@[k]));
                    }
                }
            }
        }
    }
    proof {
        assert forall|x: u64| r@.contains(x) == (a@.contains(x) || b@.contains(x)) by {
            if a@.contains(x) {
                let k = choose|k: int| 0 <= k < a@.len() && a@[k] == x;
                assert(r@.contains(a@[k]));
            }
            if b@.contains(x) {
                let k = choose|k: int| 0 <= k < b@.len() && b@[k] == x;
                assert(r@.contains(b@[k]));
            }
        }
    }
    r
}

/// Merges two strictly sorted version lists: the sorted-list union.
fn union_v(a: &Vec<Version>, b: &Vec<Version>) -> (r: Vec<Version>)
    requires
        sorted_v(a@),
        sorted_v(b@),
    ensures
        sorted_v(r@),
        r@.len() <= a@.len() + b@.len(),
        forall|x: Version| r@.contains(x) == (a@.contains(x) || b@.contains(x)),
{
    let mut r: Vec<Version> = Vec::new();
    let mut i: usize = 0;
    let mut j: usize = 0;
    while i < a.len() || j < b.len()
        invariant
            i <= a@.len(),
            j <= b@.len(),
            sorted_v(a@),
            sorted_v(b@),
            sorted_v(r@),
            r@.len() <= i + j,
            forall|x: Version| r@.contains(x) ==> (a@.contains(x) || b@.contains(x)),
            forall|k: int| 0 <= k < i ==> r@.contains(a@[k]),
            forall|k: int| 0 <= k < j ==> r@.contains(b@[k]),
            forall|t: int, k: int|
                0 <= t < r@.len() && i <= k < a@.len() ==> r@[t].lt_spec(a@[k]),
            forall|t: int, k: int|
                0 <= t < r@.len() && j <= k < b@.len() ==> r@[t].lt_spec(b@[k]),
        decreases a@.len() - i + b@.len() - j,
    {
        let take_a = if i < a.len() {
            if j < b.len() {
                !b[j].lt(&a[i])
            } else {
                true
            }
        } else {
            false
        };
        if take_a {
            let x = a[i];
            let ghost old_r = r@;
            let ghost old_i = i as int;
            let ghost old_j = j as int;
            proof {
                lemma_push_contains(old_r, x);
                assert(a@.contains(x)) by {
                    assert(a@[i as int] == x);
                }
            }
            r.push(x);
            i += 1;
            if j < b.len() && b[j] == x {
                j += 1;
            }
            proof {
                assert forall|k: int| 0 <= k < i implies r@.contains(a@[k]) by {
                    if k < i - 1 {
                        assert(old_r.contains(a@[k]));
                    }
                }
                assert forall|t: int, k: int|
                    0 <= t < r@.len() && i <= k < a@.len() implies r@[t].lt_spec(a@[k]) by {
                    if t < r@.len() - 1 {
                        assert(old_r[t].lt_spec(a@[k]));
                    } else {
                        assert(r@[t] == x);
                        assert(a@[old_i].lt_spec(a@[k]));
                    }
                }
                assert forall|t: int, k: int|
                    0 <= t < r@.len() && j <= k < b@.len() implies r@[t].lt_spec(b@[k]) by {
                    if t < r@.len() - 1 {
                        assert(old_r[t].lt_spec(b@[k]));
                    } else {
                        assert(r@[t] == x);
                        if old_j < b@.len() {
                            if b@[old_j] == x {
                                assert(k > old_j);
                                assert(b@[old_j].lt_spec(b@[k]));
                            } else {
                                assert(x.lt_spec(b@[old_j]));
                                if k > old_j {
                                    assert(b@[old_j].lt_spec(b@[k]));
                                    crate::version::lemma_version_order_trans(
                                        x,
                                        b@[old_j],
                                        b@[k],
                                    );
                                }
                            }
                        }
                    }
                }
            }
        } else {
            let x = b[j];
            let ghost old_r = r@;
            let ghost old_i = i as int;
            let ghost old_j = j as int;
            proof {
                lemma_push_contains(old_r, x);
                assert(b@.contains(x)) by {
                    assert(b@[j as int] == x);
                }
            }
            r.push(x);
            j += 1;
            proof {
                assert forall|k: int| 0 <= k < j implies r@.contains(b@[k]) by {
                    if k < j - 1 {
                        assert(old_r.contains(b@[k]));
                    }
                }
                assert forall|t: int, k: int|
                    0 <= t < r@.len() && j <= k < b@.len() implies r@[t].lt_spec(b@[k]) by {
                    if t < r@.len() - 1 {
                        assert(old_r[t].lt_spec(b@[k]));
                    } else {
                        assert(r@[t] == x);
                        assert(b@[old_j].lt_spec(b@[k]));
                    }
                }
                assert forall|t: int, k: int|
                    0 <= t < r@.len() && i <= k < a@.len() implies r@[t].lt_spec(a@[k]) by {
                    if t < r@.len() - 1 {
                        assert(old_r[t].lt_spec(a@[k]));
                    } else {
                        assert(r@[t] == x);
                        assert(x.lt_spec(a@[old_i]));
                        if k > old_i {
                            assert(a@[old_i].lt_spec(a@[k]));
                            crate::version::lemma_version_order_trans(x, a@[old_i], a@[k]);
                        }
                    }
                }
            }
        }
    }
    proof {
        assert forall|x: Version| r@.contains(x) == (a@.contains(x) || b@.contains(x)) by {
            if a@.contains(x) {
                let k = choose|k: int| 0 <= k < a@.len() && a@[k] == x;
                assert(r@.contains(a@[k]));
            }
            if b@.contains(x) {
                let k = choose|k: int| 0 <= k < b@.len() && b@[k] == x;
                assert(r@.contains(b@[k]));
            }
        }
    }
    r
}

/// Copies a build-number list.
fn copy_b(l: &Vec<u64>) -> (r: Vec<u64>)
    ensures
        r@ =~= l@,
{
    let mut r: Vec<u64> = Vec::new();
    let mut i: usize = 0;
    while i < l.len()
        invariant
            i <= l@.len(),
            r@ =~= l@.subrange(0, i as int),
        decreases l@.len() - i,
    {
        r.push(l[i]);
        i += 1;
    }
    r
}

/// Copies a version list.
fn copy_v(l: &Vec<Version>) -> (r: Vec<Version>)
    ensures
        r@ =~= l@,
{
    let mut r: Vec<Version> = Vec::new();
    let mut i: usize = 0;
    while i < l.len()
        invariant
            i <= l@.len(),
            r@ =~= l@.subrange(0, i as int),
        decreases l@.len() - i,
    {
        r.push(l[i]);
        i += 1;
    }
    r
}

/// An intersection of ranges is the `any` range exactly when both inputs
/// are.
proof fn lemma_inter_any_b(a: RangeView<u64>, b: RangeView<u64>, r: RangeView<u64>)
    requires
        r.cofinite == (a.cofinite && b.cofinite),
        forall|x: u64| #[trigger] r.has(x) == (a.has(x) && b.has(x)),
    ensures
        r.is_any() == (a.is_any() && b.is_any()),
{
    if r.is_any() {
        if a.items.len() > 0 {
            let x = a.items[0];
            assert(a.items.contains(x));
            assert(r.has(x));
            assert(false);
        }
        if b.items.len() > 0 {
            let x = b.items[0];
            assert(b.items.contains(x));
            assert(r.has(x));
            assert(false);
        }
    }
    if a.is_any() && b.is_any() {
        if r.items.len() > 0 {
            let x = r.items[0];
            assert(r.items.contains(x));
            assert(r.has(x) == (a.has(x) && b.has(x)));
            assert(false);
        }
    }
}

/// The version analogue of `lemma_inter_any_b`.
proof fn lemma_inter_any_v(a: RangeView<Version>, b: RangeView<Version>, r: RangeView<Version>)
    requires
        r.cofinite == (a.cofinite && b.cofinite),
        forall|x: Version| #[trigger] r.has(x) == (a.has(x) && b.has(x)),
    ensures
        r.is_any() == (a.is_any() && b.is_any()),
{
    if r.is_any() {
        if a.items.len() > 0 {
            let x = a.items[0];
            assert(a.items.contains(x));
            assert(r.has(x));
            assert(false);
        }
        if b.items.len() > 0 {
            let x = b.items[0];
            assert(b.items.contains(x));
            assert(r.has(x));
            assert(false);
        }
    }
    if a.is_any() && b.is_any() {
        if r.items.len() > 0 {
            let x = r.items[0];
            assert(r.items.contains(x));
            assert(r.has(x) == (a.has(x) && b.has(x)));
            assert(false);
        }
    }
}

/// The canonical range value admitting nothing.
pub open spec fn rv_none<T>() -> RangeView<T> {
    RangeView { cofinite: false, items: Seq::empty() }
}

/// The canonical range value admitting everything.
pub open spec fn rv_any<T>() -> RangeView<T> {
    RangeView { cofinite: true, items: Seq::empty() }
}

/// Being the canonical `any` is the same as equalling the `any` value.
pub proof fn lemma_rv_any_char<T>(r: RangeView<T>)
    ensures
        r.is_any() == (r == rv_any::<T>()),
{
    if r.is_any() {
        assert(r.items =~= Seq::empty());
        assert(r =~= rv_any::<T>());
    }
}

/// Compares two build-number lists.
fn list_eq_b(a: &Vec<u64>, b: &Vec<u64>) -> (r: bool)
    ensures
        r == (a@ =~= b@),
{
    if a.len() != b.len() {
        return false;
    }
    let mut i: usize = 0;
    while i < a.len()
        invariant
            i <= a@.len(),
            a@.len() == b@.len(),
            forall|k: int| 0 <= k < i ==> a@[k] == b@[k],
        decreases a@.len() - i,
    {
        if a[i] != b[i] {
            return false;
        }
        i += 1;
    }
    true
}

/// Compares two version lists.
fn list_eq_v(a: &Vec<Version>, b: &Vec<Version>) -> (r: bool)
    ensures
        r == (a@ =~= b@),
{
    if a.len() != b.len() {
        return false;
    }
    let mut i: usize = 0;
    while i < a.len()
        invariant
            i <= a@.len(),
            a@.len() == b@.len(),
            forall|k: int| 0 <= k < i ==> a@[k] == b@[k],
        decreases a@.len() - i,
    {
        if a[i] != b[i] {
            return false;
        }
        i += 1;
    }
    true
}

impl BuildRange {
    /// The range that admits no build number.
    pub fn none() -> (r: Self)
        ensures
            r@ == rv_none::<u64>(),
            br_wf(r@),
    {
        let r = BuildRange { cofinite: false, items: Vec::new() };
        proof {
            assert(r@ =~= rv_none::<u64>());
        }
        r
    }

    /// The range that admits every build number.
    pub fn any() -> (r: Self)
        ensures
            r@ == rv_any::<u64>(),
            br_wf(r@),
    {
        let r = BuildRange { cofinite: true, items: Vec::new() };
        proof {
            assert(r@ =~= rv_any::<u64>());
        }
        r
    }

    /// The range that admits exactly the build number `x`.
    pub fn equal(x: u64) -> (r: Self)
        ensures
            r@ == (RangeView { cofinite: false, items: seq![x] }),
            br_wf(r@),
            forall|y: u64| r@.has(y) == (y == x),
    {
        let mut items: Vec<u64> = Vec::new();
        items.push(x);
        let r = BuildRange { cofinite: false, items };
        proof {
            assert(r@ =~= (RangeView { cofinite: false, items: seq![x] }));
            assert forall|y: u64| r@.has(y) == (y == x) by {
                if y == x {
                    assert(r@.items[0] == x);
                }
                if r@.items.contains(y) {
                    let k = choose|k: int| 0 <= k < r@.items.len() && r@.items[k] == y;
                }
            }
        }
        r
    }

    /// The complement: admits exactly the build numbers this range refuses.
    pub fn negate(&self) -> (r: Self)
        requires
            br_wf(self@),
        ensures
            br_wf(r@),
            r@.cofinite == !self@.cofinite,
            r@.items == self@.items,
            forall|x: u64| r@.has(x) == !self@.has(x),
    {
        BuildRange { cofinite: !self.cofinite, items: copy_b(&self.items) }
    }

    /// The build numbers admitted by both ranges.
    pub fn intersection(&self, other: &Self) -> (r: Self)
        requires
            br_wf(self@),
            br_wf(other@),
        ensures
            br_wf(r@),
            r@.cofinite == (self@.cofinite && other@.cofinite),
            forall|x: u64| #[trigger] r@.has(x) == (self@.has(x) && other@.has(x)),
            r@.is_any() == (self@.is_any() && other@.is_any()),
            other@.is_any() ==> r@ == self@,
            self@.is_any() ==> r@ == other@,
    {
        let items = if !self.cofinite && !other.cofinite {
            filter_b(&self.items, &other.items, true)
        } else if !self.cofinite && other.cofinite {
            filter_b(&self.items, &other.items, false)
        } else if self.cofinite && !other.cofinite {
            filter_b(&other.items, &self.items, false)
        } else {
            union_b(&self.items, &other.items)
        };
        proof {
            assert(items.len() == items@.len());
        }
        let r = BuildRange { cofinite: self.cofinite && other.cofinite, items };
        proof {
            lemma_inter_any_b(self@, other@, r@);
            if other@.is_any() {
                lemma_br_ext(r@, self@);
            }
            if self@.is_any() {
                lemma_br_ext(r@, other@);
            }
        }
        r
    }

    /// Whether the range admits the build number `x`.
    pub fn contains(&self, x: u64) -> (r: bool)
        ensures
            r == self@.has(x),
    {
        let m = contains_u64(&self.items, x);
        if self.cofinite {
            !m
        } else {
            m
        }
    }

    /// Whether this is the canonical range admitting nothing.
    pub fn is_none(&self) -> (r: bool)
        ensures
            r == self@.is_none(),
    {
        !self.cofinite && self.items.len() == 0
    }

    /// Whether this is the canonical range admitting everything.
    pub fn is_any(&self) -> (r: bool)
        ensures
            r == self@.is_any(),
    {
        self.cofinite && self.items.len() == 0
    }

    /// Structural equality of two ranges.
    pub fn same(&self, other: &Self) -> (r: bool)
        ensures
            r == (self@ == other@),
    {
        let r = self.cofinite == other.cofinite && list_eq_b(&self.items, &other.items);
        proof {
            if self@ =~= other@ {
                assert(self@ == other@);
            }
        }
        r
    }
}

impl VersionRange {
    /// The range that admits no version.
    pub fn none() -> (r: Self)
        ensures
            r@ == rv_none::<Version>(),
            vr_wf(r@),
    {
        let r = VersionRange { cofinite: false, items: Vec::new() };
        proof {
            assert(r@ =~= rv_none::<Version>());
        }
        r
    }

    /// The range that admits every version.
    pub fn any() -> (r: Self)
        ensures
            r@ == rv_any::<Version>(),
            vr_wf(r@),
    {
        let r = VersionRange { cofinite: true, items: Vec::new() };
        proof {
            assert(r@ =~= rv_any::<Version>());
        }
        r
    }

    /// The range that admits exactly the version `x`.
    pub fn equal(x: Version) -> (r: Self)
        ensures
            r@ == (RangeView { cofinite: false, items: seq![x] }),
            vr_wf(r@),
            forall|y: Version| r@.has(y) == (y == x),
    {
        let mut items: Vec<Version> = Vec::new();
        items.push(x);
        let r = VersionRange { cofinite: false, items };
        proof {
            assert(r@ =~= (RangeView { cofinite: false, items: seq![x] }));
            assert forall|y: Version| r@.has(y) == (y == x) by {
                if y == x {
                    assert(r@.items[0] == x);
                }
                if r@.items.contains(y) {
                    let k = choose|k: int| 0 <= k < r@.items.len() && r@.items[k] == y;
                }
            }
        }
        r
    }

    /// The complement: admits exactly the versions this range refuses.
    pub fn negate(&self) -> (r: Self)
        requires
            vr_wf(self@),
        ensures
            vr_wf(r@),
            r@.cofinite == !self@.cofinite,
            r@.items == self@.items,
            forall|x: Version| r@.has(x) == !self@.has(x),
    {
        VersionRange { cofinite: !self.cofinite, items: copy_v(&self.items) }
    }

    /// The versions admitted by both ranges.
    pub fn intersection(&self, other: &Self) -> (r: Self)
        requires
            vr_wf(self@),
            vr_wf(other@),
        ensures
            vr_wf(r@),
            r@.cofinite == (self@.cofinite && other@.cofinite),
            forall|x: Version| #[trigger] r@.has(x) == (self@.has(x) && other@.has(x)),
            r@.is_any() == (self@.is_any() && other@.is_any()),
            other@.is_any() ==> r@ == self@,
            self@.is_any() ==> r@ == other@,
    {
        let items = if !self.cofinite && !other.cofinite {
            filter_v(&self.items, &other.items, true)
        } else if !self.cofinite && other.cofinite {
            filter_v(&self.items, &other.items, false)
        } else if self.cofinite && !other.cofinite {
            filter_v(&other.items, &self.items, false)
        } else {
            union_v(&self.items, &other.items)
        };
        proof {
            assert(items.len() == items@.len());
        }
        let r = VersionRange { cofinite: self.cofinite && other.cofinite, items };
        proof {
            lemma_inter_any_v(self@, other@, r@);
            if other@.is_any() {
                lemma_vr_ext(r@, self@);
            }
            if self@.is_any() {
                lemma_vr_ext(r@, other@);
            }
        }
        r
    }

    /// Whether the range admits the version `x`.
    pub fn contains(&self, x: &Version) -> (r: bool)
        ensures
            r == self@.has(*x),
    {
        let m = contains_version(&self.items, x);
        if self.cofinite {
            !m
        } else {
            m
        }
    }

    /// Whether this is the canonical range admitting nothing.
    pub fn is_none(&self) -> (r: bool)
        ensures
            r == self@.is_none(),
    {
        !self.cofinite && self.items.len() == 0
    }

    /// Whether this is the canonical range admitting everything.
    pub fn is_any(&self) -> (r: bool)
        ensures
            r == self@.is_any(),
    {
        self.cofinite && self.items.len() == 0
    }

    /// Structural equality of two ranges.
    pub fn same(&self, other: &Self) -> (r: bool)
        ensures
            r == (self@ == other@),
    {
        let r = self.cofinite == other.cofinite && list_eq_v(&self.items, &other.items);
        proof {
            if self@ =~= other@ {
                assert(self@ == other@);
            }
        }
        r
    }
}

/// The mathematical value of one AND-term: a conjunction of a version
/// constraint and a build-number constraint.
#[verifier::ext_equal]
pub ghost struct ElementView {
    pub version: RangeView<Version>,
    pub build_number: RangeView<u64>,
}

impl ElementView {
    /// Whether the AND-term matches a package with version `v` and build
    /// number `b`.
    pub open spec fn matches(self, v: Version, b: u64) -> bool {
        self.version.has(v) && self.build_number.has(b)
    }

    /// Well-formed terms have well-formed components, and an impossible
    /// component only in the canonical `none` term.
    pub open spec fn wf(self) -> bool {
        &&& vr_wf(self.version)
        &&& br_wf(self.build_number)
        &&& self.version.is_none() == self.build_number.is_none()
    }

    /// The canonical term matching nothing.
    pub open spec fn is_none(self) -> bool {
        self.version.is_none() && self.build_number.is_none()
    }

    /// The canonical term matching everything.
    pub open spec fn is_any(self) -> bool {
        self.version.is_any() && self.build_number.is_any()
    }
}

/// The canonical term value matching nothing.
pub open spec fn elem_none() -> ElementView {
    ElementView { version: rv_none(), build_number: rv_none() }
}

/// The canonical term value matching everything.
pub open spec fn elem_any() -> ElementView {
    ElementView { version: rv_any(), build_number: rv_any() }
}

/// Being the canonical `none` term is the same as equalling the `none`
/// value.
pub proof fn lemma_elem_none_char(e: ElementView)
    ensures
        e.is_none() == (e == elem_none()),
{
    if e.is_none() {
        assert(e.version.items =~= Seq::<Version>::empty());
        assert(e.build_number.items =~= Seq::<u64>::empty());
        assert(e =~= elem_none());
    }
}

/// A well-formed term that is not the canonical `none` matches some pair of
/// version and build number.
pub proof fn lemma_elem_nonempty(e: ElementView)
    requires
        e.wf(),
        !e.is_none(),
    ensures
        exists|v: Version, b: u64| e.matches(v, b),
{
    lemma_vr_nonempty(e.version);
    lemma_br_nonempty(e.build_number);
    let v = choose|v: Version| e.version.has(v);
    let b = choose|b: u64| e.build_number.has(b);
    assert(e.matches(v, b));
}

/// A concrete package: the fields the constraint algebra reads are the
/// version and the build number.
#[derive(Clone, Debug)]
pub struct PackageRecord {
    pub name: String,
    pub version: Version,
    pub build: String,
    pub build_number: u64,
}

/// A single AND-term in a `MatchSpecConstraints`.
#[derive(Debug, Hash)]
pub struct MatchSpecElement {
    version: VersionRange,
    build_number: BuildRange,
}

impl View for MatchSpecElement {
    type V = ElementView;

    closed spec fn view(&self) -> ElementView {
        ElementView { version: self.version@, build_number: self.build_number@ }
    }
}

impl MatchSpecElement {
    /// Returns an instance that matches nothing.
    pub fn none() -> (r: Self)
        ensures
            r@ == elem_none(),
            r@.wf(),
            forall|v: Version, b: u64| !r@.matches(v, b),
    {
        let r = MatchSpecElement { version: VersionRange::none(), build_number: BuildRange::none() };
        proof {
            assert(r@ =~= elem_none());
        }
        r
    }

    /// Returns an instance that matches anything.
    pub fn any() -> (r: Self)
        ensures
            r@ == elem_any(),
            r@.wf(),
            forall|v: Version, b: u64| r@.matches(v, b),
    {
        let r = MatchSpecElement { version: VersionRange::any(), build_number: BuildRange::any() };
        proof {
            assert(r@ =~= elem_any());
        }
        r
    }

    /// Returns the intersection of this element and another. An impossible
    /// combination collapses to the canonical `none` element.
    pub fn intersection(&self, other: &Self) -> (r: Self)
        requires
            self@.wf(),
            other@.wf(),
        ensures
            r@.wf(),
            forall|v: Version, b: u64|
                #[trigger] r@.matches(v, b) == (self@.matches(v, b) && other@.matches(v, b)),
            r@.is_none() == (forall|v: Version, b: u64| !r@.matches(v, b)),
            r@.is_none() ==> r@ == elem_none(),
            !r@.is_none() ==> (r@.version.cofinite == (self@.version.cofinite
                && other@.version.cofinite) && r@.build_number.cofinite == (
            self@.build_number.cofinite && other@.build_number.cofinite) && (forall|v: Version|
                #[trigger] r@.version.has(v) == (self@.version.has(v) && other@.version.has(v)))
                && (forall|b: u64|
                #[trigger] r@.build_number.has(b) == (self@.build_number.has(b)
                    && other@.build_number.has(b)))),
            r@.is_any() == (self@.is_any() && other@.is_any()),
            elem_product(r@, self@, other@),
            self@ == other@ ==> r@ == self@,
            other@ == elem_any() ==> r@ == self@,
            self@ == elem_any() ==> r@ == other@,
    {
        let version = self.version.intersection(&other.version);
        let build_number = self.build_number.intersection(&other.build_number);
        let r = if version.is_none() || build_number.is_none() {
            Self::none()
        } else {
            MatchSpecElement { version, build_number }
        };
        proof {
            if version@.is_none() || build_number@.is_none() {
                assert(forall|v: Version, b: u64| !r@.matches(v, b));
                assert forall|v: Version, b: u64|
                    #[trigger] r@.matches(v, b) == (self@.matches(v, b) && other@.matches(
                    v,
                    b,
                )) by {
                    if version@.is_none() {
                        assert(!version@.has(v));
                    } else {
                        assert(!build_number@.has(b));
                    }
                }
                assert(!r@.is_any());
                if self@.is_any() && other@.is_any() {
                    assert(version@.is_any() && build_number@.is_any());
                    assert(false);
                }
                if self@ == other@ {
                    if !self@.is_none() {
                        lemma_vr_nonempty(self@.version);
                        lemma_br_nonempty(self@.build_number);
                        let v = choose|v: Version| self@.version.has(v);
                        let b = choose|b: u64| self@.build_number.has(b);
                        assert(version@.has(v));
                        assert(build_number@.has(b));
                        if version@.is_none() {
                            assert(!version@.has(v));
                        } else {
                            assert(!build_number@.has(b));
                        }
                        assert(false);
                    }
                    assert(self@ =~= elem_none());
                }
                if other@ == elem_any() {
                    assert(version@ == self@.version);
                    assert(build_number@ == self@.build_number);
                    assert(self@.is_none());
                    lemma_elem_none_char(self@);
                }
                if self@ == elem_any() {
                    assert(version@ == other@.version);
                    assert(build_number@ == other@.build_number);
                    assert(other@.is_none());
                    lemma_elem_none_char(other@);
                }
            } else {
                lemma_vr_nonempty(version@);
                lemma_br_nonempty(build_number@);
                let v = choose|v: Version| version@.has(v);
                let b = choose|b: u64| build_number@.has(b);
                assert(r@.matches(v, b));
                if other@ == elem_any() {
                    assert(version@ == self@.version);
                    assert(build_number@ == self@.build_number);
                    assert(r@ =~= self@);
                }
                if self@ == elem_any() {
                    assert(version@ == other@.version);
                    assert(build_number@ == other@.build_number);
                    assert(r@ =~= other@);
                }
                if self@ == other@ {
                    assert forall|x: Version| version@.has(x) == self@.version.has(x) by {}
                    assert forall|x: u64| build_number@.has(x) == self@.build_number.has(x) by {}
                    lemma_vr_ext(version@, self@.version);
                    lemma_br_ext(build_number@, self@.build_number);
                    assert(r@ =~= self@);
                }
            }
            assert(elem_product(r@, self@, other@)) by {
                if r@.is_none() {
                    assert forall|v: Version, b: u64|
                        !(self@.matches(v, b) && other@.matches(v, b)) by {
                        assert(r@.matches(v, b) == (self@.matches(v, b) && other@.matches(v, b)));
                    }
                }
            }
        }
        r
    }

    /// Returns true if the specified package matches this instance.
    pub fn contains(&self, package: &PackageRecord) -> (r: bool)
        ensures
            r == self@.matches(package.version, package.build_number),
    {
        self.version.contains(&package.version) && self.build_number.contains(package.build_number)
    }

    /// Whether this is the canonical element matching nothing.
    pub fn is_none(&self) -> (r: bool)
        ensures
            r == self@.is_none(),
    {
        self.version.is_none() && self.build_number.is_none()
    }

    /// Whether this is the canonical element matching everything.
    pub fn is_any(&self) -> (r: bool)
        ensures
            r == self@.is_any(),
    {
        self.version.is_any() && self.build_number.is_any()
    }

    /// Structural equality of two elements.
    pub fn same(&self, other: &Self) -> (r: bool)
        ensures
            r == (self@ == other@),
    {
        let r = self.version.same(&other.version) && self.build_number.same(&other.build_number);
        proof {
            if self@.version == other@.version && self@.build_number == other@.build_number {
                assert(self@ =~= other@);
            }
        }
        r
    }
}

impl PartialEq for MatchSpecElement {
    fn eq(&self, other: &Self) -> (r: bool) {
        self.same(other)
    }
}

impl Eq for MatchSpecElement {

}

impl vstd::std_specs::cmp::PartialEqSpecImpl for MatchSpecElement {
    open spec fn obeys_eq_spec() -> bool {
        true
    }

    open spec fn eq_spec(&self, other: &Self) -> bool {
        self@ == other@
    }
}

/// The element views of a group list.
pub open spec fn groups_view(g: Seq<MatchSpecElement>) -> Seq<ElementView> {
    g.map_values(|e: MatchSpecElement| e@)
}

/// Whether a DNF — an OR of AND-terms — matches a version and build number.
pub open spec fn set_matches(s: Seq<ElementView>, v: Version, b: u64) -> bool {
    exists|i: int| 0 <= i < s.len() && (#[trigger] s[i]).matches(v, b)
}

/// Canonical invariants of a DNF: every term is well formed, no term is the
/// impossible term, and a term matching everything stands alone.
pub open spec fn set_wf(s: Seq<ElementView>) -> bool {
    &&& forall|i: int| 0 <= i < s.len() ==> (#[trigger] s[i]).wf()
    &&& forall|i: int| 0 <= i < s.len() ==> !(#[trigger] s[i]).is_none()
    &&& forall|i: int| 0 <= i < s.len() && (#[trigger] s[i]).is_any() ==> s.len() == 1
    &&& forall|i: int, j: int| 0 <= i < j < s.len() ==> #[trigger] s[i] != #[trigger] s[j]
    &&& sorted_elems(s)
}

/// A well-formed DNF matches nothing exactly when it has no terms.
pub proof fn lemma_set_empty_iff(s: Seq<ElementView>)
    requires
        set_wf(s),
    ensures
        (forall|v: Version, b: u64| !set_matches(s, v, b)) <==> s.len() == 0,
{
    if s.len() > 0 {
        lemma_elem_nonempty(s[0]);
        let (v, b) = choose|v: Version, b: u64| s[0].matches(v, b);
        assert(set_matches(s, v, b));
    }
}

/// Matching against a DNF extended by one term.
proof fn lemma_sm_push(s: Seq<ElementView>, e: ElementView)
    ensures
        forall|v: Version, b: u64|
            set_matches(s.push(e), v, b) == (set_matches(s, v, b) || e.matches(v, b)),
{
    assert forall|v: Version, b: u64|
        set_matches(s.push(e), v, b) == (set_matches(s, v, b) || e.matches(v, b)) by {
        if set_matches(s, v, b) {
            let i = choose|i: int| 0 <= i < s.len() && s[i].matches(v, b);
            assert(s.push(e)[i].matches(v, b));
        }
        if e.matches(v, b) {
            assert(s.push(e)[s.len() as int].matches(v, b));
        }
        if set_matches(s.push(e), v, b) {
            let i = choose|i: int| 0 <= i < s.push(e).len() && s.push(e)[i].matches(v, b);
            if i < s.len() {
                assert(s[i].matches(v, b));
            }
        }
    }
}

/// Whether some element of the list has the same value as `g`.
fn contains_elem(v: &Vec<MatchSpecElement>, g: &MatchSpecElement) -> (r: bool)
    ensures
        r == exists|k: int| 0 <= k < v@.len() && (#[trigger] v@[k])@ == g@,
{
    let mut i: usize = 0;
    while i < v.len()
        invariant
            i <= v@.len(),
            forall|k: int| 0 <= k < i ==> (#[trigger] v@[k])@ != g@,
        decreases v@.len() - i,
    {
        if v[i].same(g) {
            return true;
        }
        i += 1;
    }
    false
}

/// A parsed match specification, reduced to the two constraints the algebra
/// consumes: an optional version range and an optional exact build number.
pub struct MatchSpec {
    pub version: Option<VersionRange>,
    pub build_number: Option<u64>,
}

impl MatchSpec {
    /// A usable specification carries a well-formed version range when it
    /// carries one at all.
    pub open spec fn wf(self) -> bool {
        match self.version {
            Some(vr) => vr_wf(vr@),
            None => true,
        }
    }

    /// The version constraint: the given range, or everything.
    pub open spec fn version_view(self) -> RangeView<Version> {
        match self.version {
            Some(vr) => vr@,
            None => rv_any(),
        }
    }

    /// The build-number constraint: exactly the given number, or everything.
    pub open spec fn build_view(self) -> RangeView<u64> {
        match self.build_number {
            Some(b) => RangeView { cofinite: false, items: seq![b] },
            None => rv_any(),
        }
    }
}

/// Represents several constraints as a DNF: an OR of AND-terms.
#[derive(Debug, Hash)]
pub struct MatchSpecConstraints {
    groups: Vec<MatchSpecElement>,
}

impl View for MatchSpecConstraints {
    type V = Seq<ElementView>;

    closed spec fn view(&self) -> Seq<ElementView> {
        groups_view(self.groups@)
    }
}

impl MatchSpecConstraints {
    /// The set matching nothing: the empty DNF.
    pub fn empty() -> (r: Self)
        ensures
            r@ =~= Seq::<ElementView>::empty(),
            set_wf(r@),
            forall|v: Version, b: u64| !set_matches(r@, v, b),
    {
        let r = MatchSpecConstraints { groups: Vec::new() };
        proof {
            assert(r@ =~= Seq::<ElementView>::empty());
        }
        r
    }

    /// The set matching everything: one term without constraints.
    pub fn full() -> (r: Self)
        ensures
            r@ =~= seq![elem_any()],
            set_wf(r@),
            forall|v: Version, b: u64| set_matches(r@, v, b),
    {
        let mut groups: Vec<MatchSpecElement> = Vec::new();
        groups.push(MatchSpecElement::any());
        let r = MatchSpecConstraints { groups };
        proof {
            assert(r@ =~= seq![elem_any()]);
            assert forall|v: Version, b: u64| set_matches(r@, v, b) by {
                assert(r@[0].matches(v, b));
            }
        }
        r
    }

    /// The set matching exactly the given package's version and build number.
    pub fn singleton(p: PackageRecord) -> (r: Self)
        ensures
            set_wf(r@),
            r@ =~= seq![
                (ElementView {
                    version: RangeView { cofinite: false, items: seq![p.version] },
                    build_number: RangeView { cofinite: false, items: seq![p.build_number] },
                }),
            ],
            forall|v: Version, b: u64|
                #[trigger] set_matches(r@, v, b) == (v == p.version && b == p.build_number),
    {
        let mut groups: Vec<MatchSpecElement> = Vec::new();
        groups.push(
            MatchSpecElement {
                version: VersionRange::equal(p.version),
                build_number: BuildRange::equal(p.build_number),
            },
        );
        let r = MatchSpecConstraints { groups };
        proof {
            assert(r@.len() == 1);
            assert(r@[0] == groups@[0]@);
            assert(r@[0] =~= (ElementView {
                version: RangeView { cofinite: false, items: seq![p.version] },
                build_number: RangeView { cofinite: false, items: seq![p.build_number] },
            }));
            assert forall|v: Version, b: u64|
                #[trigger] set_matches(r@, v, b) == (v == p.version && b == p.build_number) by {
                if set_matches(r@, v, b) {
                    let i = choose|i: int| 0 <= i < r@.len() && r@[i].matches(v, b);
                    assert(i == 0);
                }
                if v == p.version && b == p.build_number {
                    assert(r@[0].matches(v, b));
                }
            }
        }
        r
    }

    /// The one-group set carrying the given AND-term; the impossible term
    /// gives the empty set.
    pub fn from_element(elem: MatchSpecElement) -> (r: Self)
        requires
            elem@.wf(),
        ensures
            set_wf(r@),
            forall|v: Version, b: u64|
                #[trigger] set_matches(r@, v, b) == elem@.matches(v, b),
            elem@.is_none() ==> r@ =~= Seq::<ElementView>::empty(),
            !elem@.is_none() ==> r@ =~= seq![elem@],
    {
        if elem.is_none() {
            let r = Self::empty();
            proof {
                assert forall|v: Version, b: u64|
                    #[trigger] set_matches(r@, v, b) == elem@.matches(v, b) by {
                    assert(!elem@.version.has(v));
                }
            }
            r
        } else {
            let mut groups: Vec<MatchSpecElement> = Vec::new();
            groups.push(elem);
            let r = MatchSpecConstraints { groups };
            proof {
                assert(r@.len() == 1);
                assert(r@[0] == groups@[0]@);
                assert(r@ =~= seq![elem@]);
                assert forall|v: Version, b: u64|
                    #[trigger] set_matches(r@, v, b) == elem@.matches(v, b) by {
                    if set_matches(r@, v, b) {
                        let i = choose|i: int| 0 <= i < r@.len() && r@[i].matches(v, b);
                        assert(i == 0);
                    }
                    if elem@.matches(v, b) {
                        assert(r@[0].matches(v, b));
                    }
                }
            }
            r
        }
    }

    /// Builds the one-group set a parsed match specification denotes: its
    /// version constraint AND its build-number constraint. A version range
    /// admitting nothing gives the empty set, keeping the DNF canonical.
    pub fn from_match_spec(spec: MatchSpec) -> (r: Self)
        requires
            spec.wf(),
        ensures
            set_wf(r@),
            forall|v: Version, b: u64|
                #[trigger] set_matches(r@, v, b) == (spec.version_view().has(v)
                    && spec.build_view().has(b)),
            !spec.version_view().is_none() ==> r@ =~= seq![
                (ElementView {
                    version: spec.version_view(),
                    build_number: spec.build_view(),
                }),
            ],
            spec.version_view().is_none() ==> r@ =~= Seq::<ElementView>::empty(),
    {
        let ghost gspec = spec;
        let version = match spec.version {
            Some(vr) => vr,
            None => VersionRange::any(),
        };
        let build_number = match spec.build_number {
            Some(b) => BuildRange::equal(b),
            None => BuildRange::any(),
        };
        proof {
            assert(version@ == gspec.version_view());
            assert(build_number@ == gspec.build_view()) by {
                if gspec.build_number is Some {
                    assert(build_number@ =~= gspec.build_view());
                }
            }
            assert(!build_number@.is_none());
        }
        if version.is_none() {
            let r = Self::empty();
            proof {
                assert forall|v: Version, b: u64|
                    #[trigger] set_matches(r@, v, b) == (gspec.version_view().has(v)
                        && gspec.build_view().has(b)) by {
                    assert(!gspec.version_view().has(v));
                }
            }
            r
        } else {
            let elem = MatchSpecElement { version, build_number };
            proof {
                assert(elem@ =~= (ElementView {
                    version: gspec.version_view(),
                    build_number: gspec.build_view(),
                }));
            }
            Self::from_element(elem)
        }
    }
}

/// Mapping a group list to views commutes with extending it.
proof fn lemma_gv_push(g: Seq<MatchSpecElement>, e: MatchSpecElement)
    ensures
        groups_view(g.push(e)) =~= groups_view(g).push(e@),
{
}

/// Being the canonical `any` term is the same as equalling the `any` value.
pub proof fn lemma_elem_any_char(e: ElementView)
    ensures
        e.is_any() == (e == elem_any()),
{
    lemma_rv_any_char::<Version>(e.version);
    lemma_rv_any_char::<u64>(e.build_number);
    if e.is_any() {
        assert(e =~= elem_any());
    }
}

impl MatchSpecConstraints {
    /// The set matching whatever both sets match. AND distributes over OR:
    /// every pair of terms is intersected, impossible products are dropped,
    /// duplicates are kept once, and a product matching everything collapses
    /// the result to the full set.
    pub fn intersection(&self, other: &Self) -> (r: Self)
        requires
            set_wf(self@),
            set_wf(other@),
        ensures
            set_wf(r@),
            forall|v: Version, b: u64|
                #[trigger] set_matches(r@, v, b) == (set_matches(self@, v, b) && set_matches(
                    other@,
                    v,
                    b,
                )),
            (forall|v: Version, b: u64|
                !(set_matches(self@, v, b) && set_matches(other@, v, b))) ==> r@.len() == 0,
            (self@ =~= other@ && self@.len() <= 1) ==> r@ =~= self@,
            other@ =~= seq![elem_any()] ==> r@ =~= self@,
            self@ =~= seq![elem_any()] ==> r@ =~= other@,
    {
        if self.groups.len() == 0 || other.groups.len() == 0 {
            let r = Self::empty();
            proof {
                if other@ =~= seq![elem_any()] {
                    assert(self@.len() == 0);
                    assert(r@ =~= self@);
                }
                if self@ =~= seq![elem_any()] {
                    assert(other@.len() == 0);
                    assert(r@ =~= other@);
                }
            }
            return r;
        }
        if self.groups.len() == 1 && other.groups.len() == 1 {
            proof {
                assert(self.groups@[0]@ == self@[0]);
                assert(other.groups@[0]@ == other@[0]);
            }
            let g = self.groups[0].intersection(&other.groups[0]);
            proof {
                assert forall|v: Version, b: u64|
                    set_matches(self@, v, b) == self@[0].matches(v, b) by {
                    if set_matches(self@, v, b) {
                        let i = choose|i: int| 0 <= i < self@.len() && self@[i].matches(v, b);
                        assert(i == 0);
                    }
                }
                assert forall|v: Version, b: u64|
                    set_matches(other@, v, b) == other@[0].matches(v, b) by {
                    if set_matches(other@, v, b) {
                        let i = choose|i: int| 0 <= i < other@.len() && other@[i].matches(v, b);
                        assert(i == 0);
                    }
                }
            }
            if g.is_none() {
                let r = Self::empty();
                proof {
                    assert forall|v: Version, b: u64|
                        #[trigger] set_matches(r@, v, b) == (set_matches(self@, v, b)
                            && set_matches(other@, v, b)) by {
                        assert(!g@.matches(v, b));
                    }
                    if self@ =~= other@ {
                        assert(self@[0] == other@[0]);
                        assert(g@ == self@[0]);
                        assert(!self@[0].is_none());
                        assert(false);
                    }
                    if other@ =~= seq![elem_any()] {
                        assert(other@[0] == elem_any());
                        assert(g@ == self@[0]);
                        assert(!self@[0].is_none());
                        assert(false);
                    }
                    if self@ =~= seq![elem_any()] {
                        assert(self@[0] == elem_any());
                        assert(g@ == other@[0]);
                        assert(!other@[0].is_none());
                        assert(false);
                    }
                }
                return r;
            } else if g.is_any() {
                let r = Self::full();
                proof {
                    assert forall|v: Version, b: u64|
                        #[trigger] set_matches(r@, v, b) == (set_matches(self@, v, b)
                            && set_matches(other@, v, b)) by {
                        assert(g@.matches(v, b));
                    }
                    let v0 = Version { major: 0, minor: 0, patch: 0 };
                    assert(set_matches(self@, v0, 0) && set_matches(other@, v0, 0));
                    if self@ =~= other@ {
                        assert(self@[0] == other@[0]);
                        assert(g@ == self@[0]);
                        assert(self@[0].is_any());
                        lemma_elem_any_char(self@[0]);
                        assert(r@.len() == 1 && self@.len() == 1);
                        assert(r@[0] == elem_any());
                        assert(r@ =~= self@);
                    }
                    if other@ =~= seq![elem_any()] {
                        assert(other@[0] == elem_any());
                        assert(g@ == self@[0]);
                        assert(self@[0].is_any());
                        lemma_elem_any_char(self@[0]);
                        assert(r@ =~= self@);
                    }
                    if self@ =~= seq![elem_any()] {
                        assert(self@[0] == elem_any());
                        assert(g@ == other@[0]);
                        assert(other@[0].is_any());
                        lemma_elem_any_char(other@[0]);
                        assert(r@ =~= other@);
                    }
                }
                return r;
            } else {
                let r = Self::from_element(g);
                proof {
                    assert forall|v: Version, b: u64|
                        #[trigger] set_matches(r@, v, b) == (set_matches(self@, v, b)
                            && set_matches(other@, v, b)) by {
                        assert(set_matches(r@, v, b) == g@.matches(v, b));
                    }
                    if self@ =~= other@ {
                        assert(self@[0] == other@[0]);
                        assert(g@ == self@[0]);
                        assert(r@.len() == 1 && r@[0] == g@);
                        assert(r@ =~= self@);
                    }
                    if other@ =~= seq![elem_any()] {
                        assert(other@[0] == elem_any());
                        assert(g@ == self@[0]);
                        assert(r@.len() == 1 && r@[0] == g@);
                        assert(r@ =~= self@);
                    }
                    if self@ =~= seq![elem_any()] {
                        assert(self@[0] == elem_any());
                        assert(g@ == other@[0]);
                        assert(r@.len() == 1 && r@[0] == g@);
                        assert(r@ =~= other@);
                    }
                    if forall|v: Version, b: u64|
                        !(set_matches(self@, v, b) && set_matches(other@, v, b)) {
                        assert forall|v: Version, b: u64| !g@.matches(v, b) by {
                            assert(!(set_matches(self@, v, b) && set_matches(other@, v, b)));
                        }
                        assert(false);
                    }
                    lemma_set_empty_iff(r@);
                }
                return r;
            }
        }
        let mut out: Vec<MatchSpecElement> = Vec::new();
        let mut i: usize = 0;
        proof {
            assert(self@.subrange(0, 0) =~= Seq::<ElementView>::empty());
        }
        while i < self.groups.len()
            invariant
                i <= self@.len(),
                self@.len() == self.groups@.len(),
                other@.len() == other.groups@.len(),
                self@.len() >= 1,
                other@.len() >= 1,
                self@.len() + other@.len() >= 3,
                set_wf(self@),
                set_wf(other@),
                forall|k: int|
                    0 <= k < out@.len() ==> ((#[trigger] out@[k])@.wf() && !out@[k]@.is_none()
                        && !out@[k]@.is_any()),
                forall|a: int, c: int|
                    0 <= a < c < out@.len() ==> (#[trigger] out@[a])@ != (#[trigger] out@[c])@,
                sorted_elems(groups_view(out@)),
                other@ =~= seq![elem_any()] ==> groups_view(out@) =~= self@.subrange(0, i as int),
                self@ =~= seq![elem_any()] ==> groups_view(out@) =~= other@.subrange(
                    0,
                    (if i == 0 {
                        0int
                    } else {
                        other@.len() as int
                    }),
                ),
                forall|v: Version, b: u64|
                    #[trigger] set_matches(groups_view(out@), v, b) == (set_matches(
                        self@.subrange(0, i as int),
                        v,
                        b,
                    ) && set_matches(other@, v, b)),
            decreases self@.len() - i,
        {
            let mut j: usize = 0;
            proof {
                assert(other@.subrange(0, 0) =~= Seq::<ElementView>::empty());
            }
            while j < other.groups.len()
                invariant
                    i < self@.len(),
                    j <= other@.len(),
                    self@.len() == self.groups@.len(),
                    other@.len() == other.groups@.len(),
                    self@.len() >= 1,
                    other@.len() >= 1,
                    self@.len() + other@.len() >= 3,
                    set_wf(self@),
                    set_wf(other@),
                    forall|k: int|
                        0 <= k < out@.len() ==> ((#[trigger] out@[k])@.wf() && !out@[k]@.is_none()
                            && !out@[k]@.is_any()),
                    forall|a: int, c: int|
                        0 <= a < c < out@.len() ==> (#[trigger] out@[a])@ != (#[trigger] out@[c])@,
                    sorted_elems(groups_view(out@)),
                    other@ =~= seq![elem_any()] ==> groups_view(out@) =~= self@.subrange(
                        0,
                        i as int + j as int,
                    ),
                    self@ =~= seq![elem_any()] ==> groups_view(out@) =~= other@.subrange(
                        0,
                        j as int,
                    ),
                    forall|v: Version, b: u64|
                        #[trigger] set_matches(groups_view(out@), v, b) == ((set_matches(
                            self@.subrange(0, i as int),
                            v,
                            b,
                        ) && set_matches(other@, v, b)) || (self@[i as int].matches(v, b)
                            && set_matches(other@.subrange(0, j as int), v, b))),
                decreases other@.len() - j,
            {
                proof {
                    assert(self.groups@[i as int]@ == self@[i as int]);
                    assert(other.groups@[j as int]@ == other@[j as int]);
                }
                let g = self.groups[i].intersection(&other.groups[j]);
                proof {
                    if other@ =~= seq![elem_any()] {
                        assert(other@[j as int] == elem_any());
                        assert(g@ == self@[i as int]);
                    }
                    if self@ =~= seq![elem_any()] {
                        assert(self@[i as int] == elem_any());
                        assert(g@ == other@[j as int]);
                    }
                }
                let ghost target = |v: Version, b: u64|
                    (set_matches(self@.subrange(0, i as int), v, b) && set_matches(other@, v, b))
                        || (self@[i as int].matches(v, b) && set_matches(
                        other@.subrange(0, (j + 1) as int),
                        v,
                        b,
                    ));
                proof {
                    assert(other@.subrange(0, (j + 1) as int) =~= other@.subrange(
                        0,
                        j as int,
                    ).push(other@[j as int]));
                    lemma_sm_push(other@.subrange(0, j as int), other@[j as int]);
                }
                if g.is_any() {
                    let r = Self::full();
                    proof {
                        assert forall|v: Version, b: u64|
                            #[trigger] set_matches(r@, v, b) == (set_matches(self@, v, b)
                                && set_matches(other@, v, b)) by {
                            assert(g@.matches(v, b));
                            assert(self@[i as int].matches(v, b));
                            assert(other@[j as int].matches(v, b));
                            assert(set_matches(self@, v, b));
                            assert(set_matches(other@, v, b));
                        }
                        let v0 = Version { major: 0, minor: 0, patch: 0 };
                        assert(set_matches(self@, v0, 0) && set_matches(other@, v0, 0));
                        if self@ =~= other@ && self@.len() <= 1 {
                            assert(self@.len() == other@.len());
                            assert(false);
                        }
                        if other@ =~= seq![elem_any()] {
                            assert(self@[i as int].is_any());
                            assert(self@.len() == 1);
                            assert(false);
                        }
                        if self@ =~= seq![elem_any()] {
                            assert(other@[j as int].is_any());
                            assert(other@.len() == 1);
                            assert(false);
                        }
                    }
                    return r;
                }
                if !g.is_none() {
                    let dup = contains_elem(&out, &g);
                    if !dup {
                        let ghost old_out = out@;
                        proof {
                            lemma_sm_push(groups_view(old_out), g@);
                            lemma_push_contains(groups_view(old_out), g@);
                        }
                        insert_sorted(&mut out, g);
                        proof {
                            lemma_sm_membership(
                                groups_view(out@),
                                groups_view(old_out).push(g@),
                            );
                            assert forall|v: Version, b: u64|
                                #[trigger] set_matches(groups_view(out@), v, b) == target(v, b) by {
                                assert(set_matches(groups_view(old_out).push(g@), v, b) == (
                                set_matches(groups_view(old_out), v, b) || g@.matches(v, b)));
                            }
                            assert forall|k: int| 0 <= k < out@.len() implies ((
                            #[trigger] out@[k])@.wf() && !out@[k]@.is_none()
                                && !out@[k]@.is_any()) by {
                                assert(groups_view(out@)[k] == out@[k]@);
                                assert(groups_view(out@).contains(out@[k]@));
                                if groups_view(old_out).contains(out@[k]@) {
                                    let t = choose|t: int|
                                        0 <= t < old_out.len() && groups_view(old_out)[t] == out@[
                                        k]@;
                                    assert(old_out[t]@ == out@[k]@);
                                }
                            }
                            assert forall|a: int, c: int| 0 <= a < c < out@.len() implies (
                            #[trigger] out@[a])@ != (#[trigger] out@[c])@ by {
                                assert(groups_view(out@)[a] == out@[a]@);
                                assert(groups_view(out@)[c] == out@[c]@);
                                if out@[a]@ == out@[c]@ {
                                    lemma_elem_before_props(out@[a]@, out@[a]@);
                                }
                            }
                            if other@ =~= seq![elem_any()] {
                                assert(j as int == 0);
                                let tgt = self@.subrange(0, i as int + 1);
                                assert(tgt =~= self@.subrange(0, i as int).push(
                                    self@[i as int],
                                ));
                                lemma_push_contains(
                                    self@.subrange(0, i as int),
                                    self@[i as int],
                                );
                                assert(sorted_elems(tgt)) by {
                                    assert forall|a: int, c: int|
                                        0 <= a < c < tgt.len() implies elem_before(
                                        #[trigger] tgt[a],
                                        #[trigger] tgt[c],
                                    ) by {
                                        assert(tgt[a] == self@[a]);
                                        assert(tgt[c] == self@[c]);
                                    }
                                }
                                assert forall|y: ElementView|
                                    groups_view(out@).contains(y) == tgt.contains(y) by {
                                    assert(groups_view(out@).contains(y) == (groups_view(
                                        old_out,
                                    ).contains(y) || y == g@));
                                }
                                lemma_sorted_elems_unique(groups_view(out@), tgt);
                            }
                            if self@ =~= seq![elem_any()] {
                                let tgt = other@.subrange(0, j as int + 1);
                                assert(tgt =~= other@.subrange(0, j as int).push(
                                    other@[j as int],
                                ));
                                lemma_push_contains(
                                    other@.subrange(0, j as int),
                                    other@[j as int],
                                );
                                assert(sorted_elems(tgt)) by {
                                    assert forall|a: int, c: int|
                                        0 <= a < c < tgt.len() implies elem_before(
                                        #[trigger] tgt[a],
                                        #[trigger] tgt[c],
                                    ) by {
                                        assert(tgt[a] == other@[a]);
                                        assert(tgt[c] == other@[c]);
                                    }
                                }
                                assert forall|y: ElementView|
                                    groups_view(out@).contains(y) == tgt.contains(y) by {
                                    assert(groups_view(out@).contains(y) == (groups_view(
                                        old_out,
                                    ).contains(y) || y == g@));
                                }
                                lemma_sorted_elems_unique(groups_view(out@), tgt);
                            }
                        }
                    } else {
                        proof {
                            let k = choose|k: int| 0 <= k < out@.len() && (#[trigger] out@[k])@
                                == g@;
                            assert forall|v: Version, b: u64|
                                #[trigger] set_matches(groups_view(out@), v, b) == target(v, b) by {
                                if g@.matches(v, b) {
                                    assert(groups_view(out@)[k] == g@);
                                    assert(groups_view(out@)[k].matches(v, b));
                                    assert(set_matches(groups_view(out@), v, b));
                                }
                            }
                            if other@ =~= seq![elem_any()] {
                                assert(j as int == 0);
                                assert(groups_view(out@)[k] == out@[k]@);
                                assert(self@.subrange(0, i as int)[k] == self@[k]);
                                assert(self@[k] == self@[i as int]);
                                assert(false);
                            }
                            if self@ =~= seq![elem_any()] {
                                assert(groups_view(out@)[k] == out@[k]@);
                                assert(other@.subrange(0, j as int)[k] == other@[k]);
                                assert(other@[k] == other@[j as int]);
                                assert(false);
                            }
                        }
                    }
                } else {
                    proof {
                        assert forall|v: Version, b: u64|
                            #[trigger] set_matches(groups_view(out@), v, b) == target(v, b) by {
                            assert(!g@.matches(v, b));
                        }
                        if other@ =~= seq![elem_any()] {
                            assert(!self@[i as int].is_none());
                            assert(false);
                        }
                        if self@ =~= seq![elem_any()] {
                            assert(!other@[j as int].is_none());
                            assert(false);
                        }
                    }
                }
                j += 1;
            }
            proof {
                assert(other@.subrange(0, other@.len() as int) =~= other@);
                assert(self@.subrange(0, (i + 1) as int) =~= self@.subrange(0, i as int).push(
                    self@[i as int],
                ));
                lemma_sm_push(self@.subrange(0, i as int), self@[i as int]);
            }
            i += 1;
        }
        let r = MatchSpecConstraints { groups: out };
        proof {
            assert(r@ == groups_view(out@));
            assert(self@.subrange(0, self@.len() as int) =~= self@);
            assert(other@.subrange(0, other@.len() as int) =~= other@);
            assert(set_wf(r@)) by {
                assert forall|k: int| 0 <= k < r@.len() implies ((#[trigger] r@[k]).wf()
                    && !r@[k].is_none() && !r@[k].is_any()) by {
                    assert(r@[k] == out@[k]@);
                }
                assert forall|a: int, c: int| 0 <= a < c < r@.len() implies #[trigger] r@[a]
                    != #[trigger] r@[c] by {
                    assert(r@[a] == out@[a]@ && r@[c] == out@[c]@);
                }
                assert(sorted_elems(r@));
            }
            if forall|v: Version, b: u64|
                !(set_matches(self@, v, b) && set_matches(other@, v, b)) {
                lemma_set_empty_iff(r@);
            }
            if self@ =~= other@ && self@.len() <= 1 {
                assert(false);
            }
        }
        r
    }
}

impl MatchSpecConstraints {
    /// Computes the set matching exactly what this set refuses, by De
    /// Morgan's law: the complement of an OR of AND-terms is the AND of the
    /// terms' complements, and each term's complement is an OR of up to two
    /// one-sided terms. The AND is expanded incrementally back into a DNF.
    pub fn compute_complement(&self) -> (r: Self)
        requires
            set_wf(self@),
        ensures
            set_wf(r@),
            forall|v: Version, b: u64|
                #[trigger] set_matches(r@, v, b) == !set_matches(self@, v, b),
            self@.len() == 0 ==> r@ =~= seq![elem_any()],
            (forall|v: Version, b: u64| set_matches(self@, v, b)) ==> r@.len() == 0,
    {
        if self.groups.len() == 0 {
            let r = Self::full();
            proof {
                let v0 = Version { major: 0, minor: 0, patch: 0 };
                if forall|v: Version, b: u64| set_matches(self@, v, b) {
                    assert(set_matches(self@, v0, 0));
                    assert(false);
                }
            }
            return r;
        }
        let mut acc: Vec<MatchSpecElement> = Vec::new();
        acc.push(MatchSpecElement::any());
        let mut idx: usize = 0;
        proof {
            assert(self@.subrange(0, 0) =~= Seq::<ElementView>::empty());
            assert(acc@[0]@ == elem_any());
            assert forall|v: Version, b: u64|
                #[trigger] set_matches(groups_view(acc@), v, b) == !set_matches(
                self@.subrange(0, 0),
                v,
                b,
            ) by {
                assert(groups_view(acc@)[0].matches(v, b));
            }
        }
        while idx < self.groups.len()
            invariant
                idx <= self@.len(),
                self@.len() == self.groups@.len(),
                self@.len() >= 1,
                set_wf(self@),
                forall|k: int|
                    0 <= k < acc@.len() ==> ((#[trigger] acc@[k])@.wf() && !acc@[k]@.is_none()),
                forall|a: int, c: int|
                    0 <= a < c < acc@.len() ==> (#[trigger] acc@[a])@ != (#[trigger] acc@[c])@,
                sorted_elems(groups_view(acc@)),
                idx > 0 ==> forall|k: int| 0 <= k < acc@.len() ==> !(#[trigger] acc@[k])@.is_any(),
                forall|v: Version, b: u64|
                    #[trigger] set_matches(groups_view(acc@), v, b) == !set_matches(
                        self@.subrange(0, idx as int),
                        v,
                        b,
                    ),
            decreases self@.len() - idx,
        {
            proof {
                assert(self.groups@[idx as int]@ == self@[idx as int]);
                assert(self@[idx as int].wf() && !self@[idx as int].is_none());
            }
            let ghost gelem = self@[idx as int];
            let ghost cvm = |v: Version| !gelem.version.has(v);
            let ghost cbm = |b: u64| !gelem.build_number.has(b);
            let mut next: Vec<MatchSpecElement> = Vec::new();
            let vneg = self.groups[idx].version.negate();
            let bneg = self.groups[idx].build_number.negate();
            if !vneg.is_none() {
                let cand = MatchSpecElement { version: vneg, build_number: BuildRange::any() };
                proof {
                    assert(cand@.wf());
                    assert(!cand@.is_none());
                    assert(!cand@.is_any()) by {
                        if cand@.version.is_any() {
                            assert(gelem.version.is_none());
                            assert(gelem.build_number.is_none());
                        }
                    }
                    assert forall|v: Version, b: u64|
                        #[trigger] cand@.matches(v, b) == cvm(v) by {}
                }
                let mut k: usize = 0;
                proof {
                    assert(groups_view(acc@).subrange(0, 0) =~= Seq::<ElementView>::empty());
                }
                while k < acc.len()
                    invariant
                        k <= acc@.len(),
                        cand@.wf(),
                        !cand@.is_none(),
                        !cand@.is_any(),
                        forall|v: Version, b: u64| #[trigger] cand@.matches(v, b) == cvm(v),
                        forall|kk: int|
                            0 <= kk < acc@.len() ==> ((#[trigger] acc@[kk])@.wf()
                                && !acc@[kk]@.is_none()),
                        forall|kk: int|
                            0 <= kk < next@.len() ==> ((#[trigger] next@[kk])@.wf()
                                && !next@[kk]@.is_none() && !next@[kk]@.is_any()),
                        forall|a: int, c: int|
                            0 <= a < c < next@.len() ==> (#[trigger] next@[a])@ != (
                            #[trigger] next@[c])@,
                        sorted_elems(groups_view(next@)),
                        forall|v: Version, b: u64|
                            #[trigger] set_matches(groups_view(next@), v, b) == (set_matches(
                                groups_view(acc@).subrange(0, k as int),
                                v,
                                b,
                            ) && cvm(v)),
                    decreases acc@.len() - k,
                {
                    let g = acc[k].intersection(&cand);
                    let ghost gva = groups_view(acc@);
                    proof {
                        assert(acc@[k as int]@ == gva[k as int]);
                        assert(gva.subrange(0, (k + 1) as int) =~= gva.subrange(0, k as int).push(
                            gva[k as int],
                        ));
                        lemma_sm_push(gva.subrange(0, k as int), gva[k as int]);
                    }
                    let ghost target = |v: Version, b: u64|
                        set_matches(gva.subrange(0, (k + 1) as int), v, b) && cvm(v);
                    if !g.is_none() {
                        if !contains_elem(&next, &g) {
                            let ghost old_next = next@;
                            proof {
                                lemma_sm_push(groups_view(old_next), g@);
                                lemma_push_contains(groups_view(old_next), g@);
                            }
                            insert_sorted(&mut next, g);
                            proof {
                                lemma_sm_membership(
                                    groups_view(next@),
                                    groups_view(old_next).push(g@),
                                );
                                assert forall|v: Version, b: u64|
                                    #[trigger] set_matches(groups_view(next@), v, b) == target(
                                    v,
                                    b,
                                ) by {
                                    assert(set_matches(groups_view(old_next).push(g@), v, b) == (
                                    set_matches(groups_view(old_next), v, b) || g@.matches(v, b)));
                                }
                                assert forall|kk: int| 0 <= kk < next@.len() implies ((
                                #[trigger] next@[kk])@.wf() && !next@[kk]@.is_none()
                                    && !next@[kk]@.is_any()) by {
                                    assert(groups_view(next@)[kk] == next@[kk]@);
                                    assert(groups_view(next@).contains(next@[kk]@));
                                    if groups_view(old_next).contains(next@[kk]@) {
                                        let t = choose|t: int|
                                            0 <= t < old_next.len() && groups_view(old_next)[t]
                                                == next@[kk]@;
                                        assert(old_next[t]@ == next@[kk]@);
                                    }
                                }
                                assert forall|a: int, c: int| 0 <= a < c < next@.len() implies (
                                #[trigger] next@[a])@ != (#[trigger] next@[c])@ by {
                                    assert(groups_view(next@)[a] == next@[a]@);
                                    assert(groups_view(next@)[c] == next@[c]@);
                                    if next@[a]@ == next@[c]@ {
                                        lemma_elem_before_props(next@[a]@, next@[a]@);
                                    }
                                }
                            }
                        } else {
                            proof {
                                let kk = choose|kk: int|
                                    0 <= kk < next@.len() && (#[trigger] next@[kk])@ == g@;
                                assert forall|v: Version, b: u64|
                                    #[trigger] set_matches(groups_view(next@), v, b) == target(
                                    v,
                                    b,
                                ) by {
                                    if g@.matches(v, b) {
                                        assert(groups_view(next@)[kk].matches(v, b));
                                        assert(set_matches(groups_view(next@), v, b));
                                    }
                                }
                            }
                        }
                    } else {
                        proof {
                            assert forall|v: Version, b: u64|
                                #[trigger] set_matches(groups_view(next@), v, b) == target(
                                v,
                                b,
                            ) by {
                                assert(!g@.matches(v, b));
                            }
                        }
                    }
                    k += 1;
                }
                proof {
                    assert(groups_view(acc@).subrange(0, acc@.len() as int) =~= groups_view(acc@));
                }
            } else {
                proof {
                    assert(gelem.version.is_any());
                    assert forall|v: Version, b: u64|
                        #[trigger] set_matches(groups_view(next@), v, b) == (set_matches(
                        groups_view(acc@),
                        v,
                        b,
                    ) && cvm(v)) by {
                        assert(!cvm(v));
                    }
                }
            }
            if !bneg.is_none() {
                let cand = MatchSpecElement { version: VersionRange::any(), build_number: bneg };
                proof {
                    assert(cand@.wf());
                    assert(!cand@.is_none());
                    assert(!cand@.is_any()) by {
                        if cand@.build_number.is_any() {
                            assert(gelem.build_number.is_none());
                            assert(gelem.version.is_none());
                        }
                    }
                    assert forall|v: Version, b: u64|
                        #[trigger] cand@.matches(v, b) == cbm(b) by {}
                }
                let mut k: usize = 0;
                proof {
                    assert(groups_view(acc@).subrange(0, 0) =~= Seq::<ElementView>::empty());
                }
                while k < acc.len()
                    invariant
                        k <= acc@.len(),
                        cand@.wf(),
                        !cand@.is_none(),
                        !cand@.is_any(),
                        forall|v: Version, b: u64| #[trigger] cand@.matches(v, b) == cbm(b),
                        forall|kk: int|
                            0 <= kk < acc@.len() ==> ((#[trigger] acc@[kk])@.wf()
                                && !acc@[kk]@.is_none()),
                        forall|kk: int|
                            0 <= kk < next@.len() ==> ((#[trigger] next@[kk])@.wf()
                                && !next@[kk]@.is_none() && !next@[kk]@.is_any()),
                        forall|a: int, c: int|
                            0 <= a < c < next@.len() ==> (#[trigger] next@[a])@ != (
                            #[trigger] next@[c])@,
                        sorted_elems(groups_view(next@)),
                        forall|v: Version, b: u64|
                            #[trigger] set_matches(groups_view(next@), v, b) == ((set_matches(
                                groups_view(acc@),
                                v,
                                b,
                            ) && cvm(v)) || (set_matches(
                                groups_view(acc@).subrange(0, k as int),
                                v,
                                b,
                            ) && cbm(b))),
                    decreases acc@.len() - k,
                {
                    let g = acc[k].intersection(&cand);
                    let ghost gva = groups_view(acc@);
                    proof {
                        assert(acc@[k as int]@ == gva[k as int]);
                        assert(gva.subrange(0, (k + 1) as int) =~= gva.subrange(0, k as int).push(
                            gva[k as int],
                        ));
                        lemma_sm_push(gva.subrange(0, k as int), gva[k as int]);
                    }
                    let ghost target = |v: Version, b: u64|
                        (set_matches(gva, v, b) && cvm(v)) || (set_matches(
                            gva.subrange(0, (k + 1) as int),
                            v,
                            b,
                        ) && cbm(b));
                    if !g.is_none() {
                        if !contains_elem(&next, &g) {
                            let ghost old_next = next@;
                            proof {
                                lemma_sm_push(groups_view(old_next), g@);
                                lemma_push_contains(groups_view(old_next), g@);
                            }
                            insert_sorted(&mut next, g);
                            proof {
                                lemma_sm_membership(
                                    groups_view(next@),
                                    groups_view(old_next).push(g@),
                                );
                                assert forall|v: Version, b: u64|
                                    #[trigger] set_matches(groups_view(next@), v, b) == target(
                                    v,
                                    b,
                                ) by {
                                    assert(set_matches(groups_view(old_next).push(g@), v, b) == (
                                    set_matches(groups_view(old_next), v, b) || g@.matches(v, b)));
                                }
                                assert forall|kk: int| 0 <= kk < next@.len() implies ((
                                #[trigger] next@[kk])@.wf() && !next@[kk]@.is_none()
                                    && !next@[kk]@.is_any()) by {
                                    assert(groups_view(next@)[kk] == next@[kk]@);
                                    assert(groups_view(next@).contains(next@[kk]@));
                                    if groups_view(old_next).contains(next@[kk]@) {
                                        let t = choose|t: int|
                                            0 <= t < old_next.len() && groups_view(old_next)[t]
                                                == next@[kk]@;
                                        assert(old_next[t]@ == next@[kk]@);
                                    }
                                }
                                assert forall|a: int, c: int| 0 <= a < c < next@.len() implies (
                                #[trigger] next@[a])@ != (#[trigger] next@[c])@ by {
                                    assert(groups_view(next@)[a] == next@[a]@);
                                    assert(groups_view(next@)[c] == next@[c]@);
                                    if next@[a]@ == next@[c]@ {
                                        lemma_elem_before_props(next@[a]@, next@[a]@);
                                    }
                                }
                            }
                        } else {
                            proof {
                                let kk = choose|kk: int|
                                    0 <= kk < next@.len() && (#[trigger] next@[kk])@ == g@;
                                assert forall|v: Version, b: u64|
                                    #[trigger] set_matches(groups_view(next@), v, b) == target(
                                    v,
                                    b,
                                ) by {
                                    if g@.matches(v, b) {
                                        assert(groups_view(next@)[kk].matches(v, b));
                                        assert(set_matches(groups_view(next@), v, b));
                                    }
                                }
                            }
                        }
                    } else {
                        proof {
                            assert forall|v: Version, b: u64|
                                #[trigger] set_matches(groups_view(next@), v, b) == target(
                                v,
                                b,
                            ) by {
                                assert(!g@.matches(v, b));
                            }
                        }
                    }
                    k += 1;
                }
                proof {
                    assert(groups_view(acc@).subrange(0, acc@.len() as int) =~= groups_view(acc@));
                }
            } else {
                proof {
                    assert(gelem.build_number.is_any());
                    assert forall|v: Version, b: u64|
                        #[trigger] set_matches(groups_view(next@), v, b) == ((set_matches(
                        groups_view(acc@),
                        v,
                        b,
                    ) && cvm(v)) || (set_matches(groups_view(acc@), v, b) && cbm(b))) by {
                        assert(!cbm(b));
                    }
                }
            }
            acc = next;
            proof {
                assert(self@.subrange(0, (idx + 1) as int) =~= self@.subrange(0, idx as int).push(
                    self@[idx as int],
                ));
                lemma_sm_push(self@.subrange(0, idx as int), self@[idx as int]);
                assert forall|v: Version, b: u64|
                    #[trigger] set_matches(groups_view(acc@), v, b) == !set_matches(
                    self@.subrange(0, (idx + 1) as int),
                    v,
                    b,
                ) by {
                    assert(gelem.matches(v, b) == (gelem.version.has(v) && gelem.build_number.has(
                        b,
                    )));
                }
            }
            idx += 1;
        }
        let r = MatchSpecConstraints { groups: acc };
        proof {
            assert(r@ == groups_view(acc@));
            assert(self@.subrange(0, self@.len() as int) =~= self@);
            assert(set_wf(r@)) by {
                assert forall|k: int| 0 <= k < r@.len() implies ((#[trigger] r@[k]).wf()
                    && !r@[k].is_none() && !r@[k].is_any()) by {
                    assert(r@[k] == acc@[k]@);
                }
                assert forall|a: int, c: int| 0 <= a < c < r@.len() implies #[trigger] r@[a]
                    != #[trigger] r@[c] by {
                    assert(r@[a] == acc@[a]@ && r@[c] == acc@[c]@);
                }
                assert(sorted_elems(r@));
            }
            if forall|v: Version, b: u64| set_matches(self@, v, b) {
                lemma_set_empty_iff(r@);
            }
        }
        r
    }
}

impl BuildRange {
    /// A structurally equal copy.
    fn duplicate(&self) -> (r: Self)
        ensures
            r@ == self@,
    {
        let r = BuildRange { cofinite: self.cofinite, items: copy_b(&self.items) };
        proof {
            assert(r@ =~= self@);
        }
        r
    }
}

impl VersionRange {
    /// A structurally equal copy.
    fn duplicate(&self) -> (r: Self)
        ensures
            r@ == self@,
    {
        let r = VersionRange { cofinite: self.cofinite, items: copy_v(&self.items) };
        proof {
            assert(r@ =~= self@);
        }
        r
    }
}

impl MatchSpecElement {
    /// A structurally equal copy.
    fn duplicate(&self) -> (r: Self)
        ensures
            r@ == self@,
    {
        let r = MatchSpecElement {
            version: self.version.duplicate(),
            build_number: self.build_number.duplicate(),
        };
        proof {
            assert(r@ =~= self@);
        }
        r
    }
}

impl MatchSpecConstraints {
    /// The set matching exactly what this set refuses.
    pub fn complement(&self) -> (r: Self)
        requires
            set_wf(self@),
        ensures
            set_wf(r@),
            forall|v: Version, b: u64|
                #[trigger] set_matches(r@, v, b) == !set_matches(self@, v, b),
            self@.len() == 0 ==> r@ =~= seq![elem_any()],
            (forall|v: Version, b: u64| set_matches(self@, v, b)) ==> r@.len() == 0,
    {
        self.compute_complement()
    }

    /// The set matching whatever either set matches, derived by De Morgan's
    /// law from complement and intersection. Two sets that together match
    /// everything unite into the full set.
    pub fn union(&self, other: &Self) -> (r: Self)
        requires
            set_wf(self@),
            set_wf(other@),
        ensures
            set_wf(r@),
            forall|v: Version, b: u64|
                #[trigger] set_matches(r@, v, b) == (set_matches(self@, v, b) || set_matches(
                    other@,
                    v,
                    b,
                )),
            (forall|v: Version, b: u64|
                set_matches(self@, v, b) || set_matches(other@, v, b)) ==> r@ =~= seq![
                elem_any(),
            ],
    {
        let ca = self.complement();
        let cb = other.complement();
        let m = ca.intersection(&cb);
        let r = m.complement();
        proof {
            if forall|v: Version, b: u64| set_matches(self@, v, b) || set_matches(other@, v, b) {
                assert forall|v: Version, b: u64|
                    !(set_matches(ca@, v, b) && set_matches(cb@, v, b)) by {
                    assert(set_matches(self@, v, b) || set_matches(other@, v, b));
                }
                assert(m@.len() == 0);
            }
        }
        r
    }

    /// Returns true if the specified package matches any term of this set.
    pub fn contains(&self, v: &PackageRecord) -> (r: bool)
        ensures
            r == set_matches(self@, v.version, v.build_number),
    {
        let mut i: usize = 0;
        while i < self.groups.len()
            invariant
                i <= self@.len(),
                self@.len() == self.groups@.len(),
                forall|k: int| 0 <= k < i ==> !(#[trigger] self@[k]).matches(v.version, v.build_number),
            decreases self@.len() - i,
        {
            proof {
                assert(self.groups@[i as int]@ == self@[i as int]);
            }
            if self.groups[i].contains(v) {
                proof {
                    assert(self@[i as int].matches(v.version, v.build_number));
                }
                return true;
            }
            i += 1;
        }
        proof {
            if set_matches(self@, v.version, v.build_number) {
                let k = choose|k: int|
                    0 <= k < self@.len() && self@[k].matches(v.version, v.build_number);
            }
        }
        false
    }

    /// Structural equality of two sets.
    pub fn same(&self, other: &Self) -> (r: bool)
        ensures
            r == (self@ == other@),
    {
        if self.groups.len() != other.groups.len() {
            return false;
        }
        let mut i: usize = 0;
        while i < self.groups.len()
            invariant
                i <= self@.len(),
                self@.len() == self.groups@.len(),
                other@.len() == other.groups@.len(),
                self@.len() == other@.len(),
                forall|k: int| 0 <= k < i ==> (#[trigger] self@[k]) == other@[k],
            decreases self@.len() - i,
        {
            proof {
                assert(self.groups@[i as int]@ == self@[i as int]);
                assert(other.groups@[i as int]@ == other@[i as int]);
            }
            if !self.groups[i].same(&other.groups[i]) {
                return false;
            }
            i += 1;
        }
        proof {
            assert(self@ =~= other@);
        }
        true
    }

    /// A structurally equal copy.
    pub fn duplicate(&self) -> (r: Self)
        ensures
            r@ == self@,
    {
        let mut groups: Vec<MatchSpecElement> = Vec::new();
        let mut i: usize = 0;
        while i < self.groups.len()
            invariant
                i <= self@.len(),
                self@.len() == self.groups@.len(),
                groups_view(groups@) =~= self@.subrange(0, i as int),
            decreases self@.len() - i,
        {
            proof {
                assert(self.groups@[i as int]@ == self@[i as int]);
            }
            let g = self.groups[i].duplicate();
            let ghost old_groups = groups@;
            proof {
                lemma_gv_push(old_groups, g);
            }
            groups.push(g);
            proof {
                assert(self@.subrange(0, (i + 1) as int) =~= self@.subrange(0, i as int).push(
                    self@[i as int],
                ));
                assert(groups_view(groups@) =~= self@.subrange(0, (i + 1) as int));
            }
            i += 1;
        }
        let r = MatchSpecConstraints { groups };
        proof {
            assert(self@.subrange(0, self@.len() as int) =~= self@);
            assert(r@ =~= self@);
        }
        r
    }
}

impl PartialEq for MatchSpecConstraints {
    fn eq(&self, other: &Self) -> (r: bool) {
        self.same(other)
    }
}

impl Eq for MatchSpecConstraints {

}

impl vstd::std_specs::cmp::PartialEqSpecImpl for MatchSpecConstraints {
    open spec fn obeys_eq_spec() -> bool {
        true
    }

    open spec fn eq_spec(&self, other: &Self) -> bool {
        self@ == other@
    }
}

/// A memoization table from a constraint set's value to its complement,
/// owned by one resolution session. Entries are inserted once computed and
/// never changed, and keys are compared by value, so value-equal sets are
/// answered from the same entry.
pub struct ComplementCache {
    entries: Vec<(MatchSpecConstraints, MatchSpecConstraints)>,
}

impl ComplementCache {
    /// The key and value views of the stored entries.
    pub closed spec fn entries_view(self) -> Seq<(Seq<ElementView>, Seq<ElementView>)> {
        self.entries@.map_values(
            |p: (MatchSpecConstraints, MatchSpecConstraints)| (p.0@, p.1@),
        )
    }

    /// Every stored value is the complement of its well-formed key, and no
    /// key occurs twice.
    pub open spec fn wf(self) -> bool {
        &&& forall|k: int|
            0 <= k < self.entries_view().len() ==> (set_wf(
                (#[trigger] self.entries_view()[k]).0,
            ) && set_wf(self.entries_view()[k].1))
        &&& forall|k: int, v: Version, b: u64|
            0 <= k < self.entries_view().len() ==> #[trigger] set_matches(
                self.entries_view()[k].1,
                v,
                b,
            ) == !set_matches(self.entries_view()[k].0, v, b)
        &&& forall|k1: int, k2: int|
            0 <= k1 < k2 < self.entries_view().len() ==> (#[trigger] self.entries_view()[k1]).0
                != (#[trigger] self.entries_view()[k2]).0
    }

    /// An empty cache.
    pub fn new() -> (r: Self)
        ensures
            r.wf(),
            r.entries_view() =~= Seq::<(Seq<ElementView>, Seq<ElementView>)>::empty(),
    {
        let r = ComplementCache { entries: Vec::new() };
        proof {
            assert(r.entries_view() =~= Seq::<(Seq<ElementView>, Seq<ElementView>)>::empty());
        }
        r
    }

    /// The complement of `set`, answered from the table when the same value
    /// was asked before and computed and remembered otherwise.
    pub fn complement(&mut self, set: &MatchSpecConstraints) -> (r: MatchSpecConstraints)
        requires
            old(self).wf(),
            set_wf(set@),
        ensures
            final(self).wf(),
            set_wf(r@),
            forall|v: Version, b: u64|
                #[trigger] set_matches(r@, v, b) == !set_matches(set@, v, b),
            (exists|k: int|
                0 <= k < old(self).entries_view().len()
                    && (#[trigger] old(self).entries_view()[k]).0 == set@) ==> (*final(self)
                == *old(self) && exists|k: int|
                0 <= k < final(self).entries_view().len()
                    && (#[trigger] final(self).entries_view()[k]).0 == set@ && final(
                self).entries_view()[k].1 == r@),
            (!exists|k: int|
                0 <= k < old(self).entries_view().len()
                    && (#[trigger] old(self).entries_view()[k]).0 == set@) ==> final(
                self).entries_view() =~= old(self).entries_view().push((set@, r@)),
    {
        let mut i: usize = 0;
        while i < self.entries.len()
            invariant
                *self == *old(self),
                self.wf(),
                set_wf(set@),
                i <= self.entries_view().len(),
                self.entries_view().len() == self.entries@.len(),
                forall|k: int| 0 <= k < i ==> (#[trigger] self.entries_view()[k]).0 != set@,
            decreases self.entries@.len() - i,
        {
            proof {
                assert(self.entries_view()[i as int] == (self.entries@[i as int].0@, self.entries@[
                    i as int].1@));
            }
            if self.entries[i].0.same(set) {
                let r = self.entries[i].1.duplicate();
                proof {
                    assert((#[trigger] self.entries_view()[i as int]).0 == set@);
                    assert(self.entries_view()[i as int].1 == r@);
                }
                return r;
            }
            i += 1;
        }
        let c = set.compute_complement();
        let key = set.duplicate();
        let val = c.duplicate();
        let ghost old_ev = self.entries_view();
        let ghost old_entries = self.entries@;
        self.entries.push((key, val));
        proof {
            assert(self.entries@ == old_entries.push((key, val)));
            assert(self.entries_view() =~= old_ev.push((set@, c@)));
            assert(final(self).wf()) by {
                assert forall|k1: int, k2: int|
                    0 <= k1 < k2 < self.entries_view().len() implies (
                #[trigger] self.entries_view()[k1]).0 != (#[trigger] self.entries_view()[k2]).0 by {
                    if k2 == self.entries_view().len() - 1 {
                        assert(old_ev[k1].0 != set@);
                    }
                }
            }
        }
        c
    }
}

/// The strict lexicographic order on build-number lists; a proper prefix
/// comes first.
pub open spec fn lex_b(x: Seq<u64>, y: Seq<u64>) -> bool
    decreases x.len(),
{
    if y.len() == 0 {
        false
    } else if x.len() == 0 {
        true
    } else if x[0] != y[0] {
        x[0] < y[0]
    } else {
        lex_b(x.subrange(1, x.len() as int), y.subrange(1, y.len() as int))
    }
}

/// The strict lexicographic order on version lists; a proper prefix comes
/// first.
pub open spec fn lex_v(x: Seq<Version>, y: Seq<Version>) -> bool
    decreases x.len(),
{
    if y.len() == 0 {
        false
    } else if x.len() == 0 {
        true
    } else if x[0] != y[0] {
        x[0].lt_spec(y[0])
    } else {
        lex_v(x.subrange(1, x.len() as int), y.subrange(1, y.len() as int))
    }
}

/// The lexicographic order on build-number lists is strict and total.
proof fn lemma_lex_b_props(x: Seq<u64>, y: Seq<u64>)
    ensures
        !(lex_b(x, y) && lex_b(y, x)),
        x == y || lex_b(x, y) || lex_b(y, x),
    decreases x.len(),
{
    if y.len() == 0 {
        if x.len() == 0 {
            assert(x =~= y);
        }
    } else if x.len() == 0 {
    } else if x[0] != y[0] {
    } else {
        let xt = x.subrange(1, x.len() as int);
        let yt = y.subrange(1, y.len() as int);
        lemma_lex_b_props(xt, yt);
        if xt == yt {
            assert forall|n: int| 0 <= n < x.len() implies x[n] == y[n] by {
                if n > 0 {
                    assert(xt[n - 1] == yt[n - 1]);
                }
            }
            assert(x =~= y);
        }
    }
}

/// The lexicographic order on version lists is strict and total.
proof fn lemma_lex_v_props(x: Seq<Version>, y: Seq<Version>)
    ensures
        !(lex_v(x, y) && lex_v(y, x)),
        x == y || lex_v(x, y) || lex_v(y, x),
    decreases x.len(),
{
    if y.len() == 0 {
        if x.len() == 0 {
            assert(x =~= y);
        }
    } else if x.len() == 0 {
    } else if x[0] != y[0] {
    } else {
        let xt = x.subrange(1, x.len() as int);
        let yt = y.subrange(1, y.len() as int);
        lemma_lex_v_props(xt, yt);
        if xt == yt {
            assert forall|n: int| 0 <= n < x.len() implies x[n] == y[n] by {
                if n > 0 {
                    assert(xt[n - 1] == yt[n - 1]);
                }
            }
            assert(x =~= y);
        }
    }
}

/// The lexicographic order on build-number lists is transitive.
proof fn lemma_lex_b_trans(x: Seq<u64>, y: Seq<u64>, z: Seq<u64>)
    requires
        lex_b(x, y),
        lex_b(y, z),
    ensures
        lex_b(x, z),
    decreases x.len(),
{
    if x.len() == 0 {
    } else if x[0] == y[0] && y[0] == z[0] {
        lemma_lex_b_trans(
            x.subrange(1, x.len() as int),
            y.subrange(1, y.len() as int),
            z.subrange(1, z.len() as int),
        );
    }
}

/// The lexicographic order on version lists is transitive.
proof fn lemma_lex_v_trans(x: Seq<Version>, y: Seq<Version>, z: Seq<Version>)
    requires
        lex_v(x, y),
        lex_v(y, z),
    ensures
        lex_v(x, z),
    decreases x.len(),
{
    if x.len() == 0 {
    } else if x[0] == y[0] && y[0] == z[0] {
        lemma_lex_v_trans(
            x.subrange(1, x.len() as int),
            y.subrange(1, y.len() as int),
            z.subrange(1, z.len() as int),
        );
    }
}

/// The structural total order on AND-terms: lexicographic over the version
/// range's kind and members, then the build-number range's kind and
/// members. It orders every pair of distinct term values, so sorting by it
/// gives a deterministic, value-derived group order.
pub open spec fn elem_before(a: ElementView, b: ElementView) -> bool {
    if a.version.cofinite != b.version.cofinite {
        !a.version.cofinite
    } else if a.version.items != b.version.items {
        lex_v(a.version.items, b.version.items)
    } else if a.build_number.cofinite != b.build_number.cofinite {
        !a.build_number.cofinite
    } else {
        lex_b(a.build_number.items, b.build_number.items)
    }
}

/// A group list in strictly increasing term order.
pub open spec fn sorted_elems(s: Seq<ElementView>) -> bool {
    forall|i: int, j: int| 0 <= i < j < s.len() ==> elem_before(#[trigger] s[i], #[trigger] s[j])
}

/// The term order is strict and total.
proof fn lemma_elem_before_props(a: ElementView, b: ElementView)
    ensures
        !(elem_before(a, b) && elem_before(b, a)),
        a == b || elem_before(a, b) || elem_before(b, a),
{
    lemma_lex_v_props(a.version.items, b.version.items);
    lemma_lex_b_props(a.build_number.items, b.build_number.items);
    if a.version.cofinite == b.version.cofinite && a.version.items == b.version.items
        && a.build_number.cofinite == b.build_number.cofinite && a.build_number.items
        == b.build_number.items {
        assert(a =~= b);
    }
}

/// The term order is transitive.
proof fn lemma_elem_before_trans(a: ElementView, b: ElementView, c: ElementView)
    requires
        elem_before(a, b),
        elem_before(b, c),
    ensures
        elem_before(a, c),
{
    lemma_lex_v_props(a.version.items, b.version.items);
    lemma_lex_v_props(b.version.items, c.version.items);
    lemma_lex_v_props(a.version.items, c.version.items);
    lemma_lex_b_props(a.build_number.items, b.build_number.items);
    lemma_lex_b_props(b.build_number.items, c.build_number.items);
    lemma_lex_b_props(a.build_number.items, c.build_number.items);
    if lex_v(a.version.items, b.version.items) && lex_v(b.version.items, c.version.items) {
        lemma_lex_v_trans(a.version.items, b.version.items, c.version.items);
    }
    if lex_b(a.build_number.items, b.build_number.items) && lex_b(
        b.build_number.items,
        c.build_number.items,
    ) {
        lemma_lex_b_trans(a.build_number.items, b.build_number.items, c.build_number.items);
    }
}

/// Decides the lexicographic order of two build-number lists from position
/// `k` on.
fn lex_b_from(x: &Vec<u64>, y: &Vec<u64>, k: usize) -> (r: bool)
    requires
        k <= x@.len(),
        k <= y@.len(),
    ensures
        r == lex_b(x@.skip(k as int), y@.skip(k as int)),
    decreases x@.len() - k,
{
    let ghost xs = x@.skip(k as int);
    let ghost ys = y@.skip(k as int);
    if k == y.len() {
        false
    } else if k == x.len() {
        true
    } else if x[k] != y[k] {
        proof {
            assert(xs[0] == x@[k as int]);
            assert(ys[0] == y@[k as int]);
        }
        x[k] < y[k]
    } else {
        let r = lex_b_from(x, y, k + 1);
        proof {
            assert(xs[0] == x@[k as int]);
            assert(ys[0] == y@[k as int]);
            assert(xs.subrange(1, xs.len() as int) =~= x@.skip((k + 1) as int));
            assert(ys.subrange(1, ys.len() as int) =~= y@.skip((k + 1) as int));
        }
        r
    }
}

/// Decides the lexicographic order of two version lists from position `k`
/// on.
fn lex_v_from(x: &Vec<Version>, y: &Vec<Version>, k: usize) -> (r: bool)
    requires
        k <= x@.len(),
        k <= y@.len(),
    ensures
        r == lex_v(x@.skip(k as int), y@.skip(k as int)),
    decreases x@.len() - k,
{
    let ghost xs = x@.skip(k as int);
    let ghost ys = y@.skip(k as int);
    if k == y.len() {
        false
    } else if k == x.len() {
        true
    } else if !(x[k] == y[k]) {
        proof {
            assert(xs[0] == x@[k as int]);
            assert(ys[0] == y@[k as int]);
        }
        x[k].lt(&y[k])
    } else {
        let r = lex_v_from(x, y, k + 1);
        proof {
            assert(xs[0] == x@[k as int]);
            assert(ys[0] == y@[k as int]);
            assert(xs.subrange(1, xs.len() as int) =~= x@.skip((k + 1) as int));
            assert(ys.subrange(1, ys.len() as int) =~= y@.skip((k + 1) as int));
        }
        r
    }
}

/// Decides the structural term order.
fn elem_before_exec(a: &MatchSpecElement, b: &MatchSpecElement) -> (r: bool)
    ensures
        r == elem_before(a@, b@),
{
    if a.version.cofinite != b.version.cofinite {
        return !a.version.cofinite;
    }
    if !list_eq_v(&a.version.items, &b.version.items) {
        let r = lex_v_from(&a.version.items, &b.version.items, 0);
        proof {
            assert(a.version.items@.skip(0) =~= a@.version.items);
            assert(b.version.items@.skip(0) =~= b@.version.items);
        }
        return r;
    }
    proof {
        assert(a@.version.items == b@.version.items);
    }
    if a.build_number.cofinite != b.build_number.cofinite {
        return !a.build_number.cofinite;
    }
    let r = lex_b_from(&a.build_number.items, &b.build_number.items, 0);
    proof {
        assert(a.build_number.items@.skip(0) =~= a@.build_number.items);
        assert(b.build_number.items@.skip(0) =~= b@.build_number.items);
    }
    r
}

/// What it is to be the intersection of two AND-terms: the impossible
/// term when the conjunction matches nothing, else the well-formed term
/// whose components conjoin the operands' components. Exactly one term
/// value satisfies this for given operands, and it does not depend on
/// their order.
pub open spec fn elem_product(e: ElementView, x: ElementView, y: ElementView) -> bool {
    ||| (e == elem_none() && forall|v: Version, b: u64| !(x.matches(v, b) && y.matches(v, b)))
    ||| {
        &&& e.wf()
        &&& !e.is_none()
        &&& e.version.cofinite == (x.version.cofinite && y.version.cofinite)
        &&& e.build_number.cofinite == (x.build_number.cofinite && y.build_number.cofinite)
        &&& forall|v: Version| #[trigger] e.version.has(v) == (x.version.has(v) && y.version.has(v))
        &&& forall|b: u64|
            #[trigger] e.build_number.has(b) == (x.build_number.has(b) && y.build_number.has(b))
    }
}

/// For given operands, only one term value is their product.
pub proof fn lemma_elem_product_unique(
    x: ElementView,
    y: ElementView,
    e1: ElementView,
    e2: ElementView,
)
    requires
        elem_product(e1, x, y),
        elem_product(e2, x, y),
    ensures
        e1 == e2,
{
    if e1 == elem_none() && (forall|v: Version, b: u64| !(x.matches(v, b) && y.matches(v, b)))
        && !(e2 == elem_none()) {
        lemma_elem_nonempty(e2);
        let (v, b) = choose|v: Version, b: u64| e2.matches(v, b);
        assert(e2.version.has(v) && e2.build_number.has(b));
        assert(x.matches(v, b) && y.matches(v, b));
        assert(false);
    }
    if e2 == elem_none() && (forall|v: Version, b: u64| !(x.matches(v, b) && y.matches(v, b)))
        && !(e1 == elem_none()) {
        lemma_elem_nonempty(e1);
        let (v, b) = choose|v: Version, b: u64| e1.matches(v, b);
        assert(e1.version.has(v) && e1.build_number.has(b));
        assert(x.matches(v, b) && y.matches(v, b));
        assert(false);
    }
    if e1 != elem_none() && e2 != elem_none() {
        assert forall|v: Version| e1.version.has(v) == e2.version.has(v) by {}
        assert forall|b: u64| e1.build_number.has(b) == e2.build_number.has(b) by {}
        lemma_vr_ext(e1.version, e2.version);
        lemma_br_ext(e1.build_number, e2.build_number);
        assert(e1 =~= e2);
    }
}

/// The product does not depend on the operands' order.
pub proof fn lemma_elem_product_sym(e: ElementView, x: ElementView, y: ElementView)
    ensures
        elem_product(e, x, y) == elem_product(e, y, x),
{
    assert(forall|v: Version, b: u64|
        (x.matches(v, b) && y.matches(v, b)) == (y.matches(v, b) && x.matches(v, b)));
}

/// Strictly ordered group lists holding the same terms are equal: the
/// order makes the canonical form of a term set unique.
pub proof fn lemma_sorted_elems_unique(a: Seq<ElementView>, b: Seq<ElementView>)
    requires
        sorted_elems(a),
        sorted_elems(b),
        forall|y: ElementView| a.contains(y) == b.contains(y),
    ensures
        a =~= b,
    decreases a.len(),
{
    if a.len() == 0 {
        if b.len() > 0 {
            assert(b.contains(b[0]));
        }
    } else {
        assert(a.contains(a[0]));
        assert(b.contains(b[0]));
        let i = choose|i: int| 0 <= i < a.len() && a[i] == b[0];
        let j = choose|j: int| 0 <= j < b.len() && b[j] == a[0];
        assert(a[0] == b[0]) by {
            if i > 0 {
                assert(elem_before(a[0], a[i]));
                if j > 0 {
                    assert(elem_before(b[0], b[j]));
                }
                lemma_elem_before_props(a[0], b[0]);
            }
        }
        let at = a.subrange(1, a.len() as int);
        let bt = b.subrange(1, b.len() as int);
        assert forall|y: ElementView| at.contains(y) == bt.contains(y) by {
            assert(at.contains(y) == (a.contains(y) && y != a[0])) by {
                if at.contains(y) {
                    let k = choose|k: int| 0 <= k < at.len() && at[k] == y;
                    assert(a[k + 1] == y);
                    assert(elem_before(a[0], a[k + 1]));
                    if y == a[0] {
                        lemma_elem_before_props(a[0], a[0]);
                    }
                }
                if a.contains(y) && y != a[0] {
                    let k = choose|k: int| 0 <= k < a.len() && a[k] == y;
                    assert(k > 0);
                    assert(at[k - 1] == y);
                }
            }
            assert(bt.contains(y) == (b.contains(y) && y != b[0])) by {
                if bt.contains(y) {
                    let k = choose|k: int| 0 <= k < bt.len() && bt[k] == y;
                    assert(b[k + 1] == y);
                    assert(elem_before(b[0], b[k + 1]));
                    if y == b[0] {
                        lemma_elem_before_props(b[0], b[0]);
                    }
                }
                if b.contains(y) && y != b[0] {
                    let k = choose|k: int| 0 <= k < b.len() && b[k] == y;
                    assert(k > 0);
                    assert(bt[k - 1] == y);
                }
            }
        }
        lemma_sorted_elems_unique(at, bt);
        assert(a.len() == b.len());
        assert forall|n: int| 0 <= n < a.len() implies a[n] == b[n] by {
            if n > 0 {
                assert(at[n - 1] == bt[n - 1]);
                assert(at[n - 1] == a[n]);
                assert(bt[n - 1] == b[n]);
            }
        }
        assert(a =~= b);
    }
}

/// Two DNFs holding the same terms match the same packages.
proof fn lemma_sm_membership(s1: Seq<ElementView>, s2: Seq<ElementView>)
    requires
        forall|y: ElementView| s1.contains(y) == s2.contains(y),
    ensures
        forall|v: Version, b: u64| set_matches(s1, v, b) == set_matches(s2, v, b),
{
    assert forall|v: Version, b: u64| set_matches(s1, v, b) == set_matches(s2, v, b) by {
        if set_matches(s1, v, b) {
            let i = choose|i: int| 0 <= i < s1.len() && s1[i].matches(v, b);
            assert(s1.contains(s1[i]));
            let j = choose|j: int| 0 <= j < s2.len() && s2[j] == s1[i];
            assert(s2[j].matches(v, b));
        }
        if set_matches(s2, v, b) {
            let i = choose|i: int| 0 <= i < s2.len() && s2[i].matches(v, b);
            assert(s2.contains(s2[i]));
            let j = choose|j: int| 0 <= j < s1.len() && s1[j] == s2[i];
            assert(s1[j].matches(v, b));
        }
    }
}

/// Places a fresh term at its position in a strictly ordered group list.
fn insert_sorted(v: &mut Vec<MatchSpecElement>, g: MatchSpecElement)
    requires
        sorted_elems(groups_view(old(v)@)),
        forall|k: int| 0 <= k < old(v)@.len() ==> (#[trigger] old(v)@[k])@ != g@,
    ensures
        final(v)@.len() == old(v)@.len() + 1,
        sorted_elems(groups_view(final(v)@)),
        forall|y: ElementView| #[trigger] groups_view(final(v)@).contains(y) == (groups_view(
            old(v)@,
        ).contains(y) || y == g@),
{
    let mut idx: usize = 0;
    let mut stop: bool = false;
    while !stop && idx < v.len()
        invariant
            v@ == old(v)@,
            idx <= v@.len(),
            sorted_elems(groups_view(v@)),
            forall|k: int| 0 <= k < v@.len() ==> (#[trigger] v@[k])@ != g@,
            forall|t: int| 0 <= t < idx ==> elem_before((#[trigger] v@[t])@, g@),
            stop ==> idx < v@.len() && !elem_before(v@[idx as int]@, g@),
        decreases v@.len() - idx + (if stop { 0int } else { 1int }),
    {
        if elem_before_exec(&v[idx], &g) {
            idx += 1;
        } else {
            stop = true;
        }
    }
    proof {
        assert forall|t: int| idx <= t < v@.len() implies elem_before(
            g@,
            (#[trigger] v@[t])@,
        ) by {
            lemma_elem_before_props(g@, v@[idx as int]@);
            assert(groups_view(v@)[idx as int] == v@[idx as int]@);
            if t > idx {
                assert(elem_before(v@[idx as int]@, v@[t]@)) by {
                    assert(groups_view(v@)[t] == v@[t]@);
                }
                lemma_elem_before_trans(g@, v@[idx as int]@, v@[t]@);
            }
        }
    }
    let ghost before_v = v@;
    v.insert(idx, g);
    proof {
        assert(v@ == before_v.insert(idx as int, g));
        assert(v@.len() == before_v.len() + 1);
        assert forall|t: int| 0 <= t < v@.len() implies (#[trigger] v@[t]) == (if t < idx {
            before_v[t]
        } else if t == idx {
            g
        } else {
            before_v[t - 1]
        }) by {
            assert(v@ == before_v.subrange(0, idx as int).push(g) + before_v.subrange(
                idx as int,
                before_v.len() as int,
            ));
        }
        assert(sorted_elems(groups_view(v@))) by {
            assert forall|a: int, c: int| 0 <= a < c < v@.len() implies elem_before(
                #[trigger] groups_view(v@)[a],
                #[trigger] groups_view(v@)[c],
            ) by {
                assert(groups_view(v@)[a] == v@[a]@);
                assert(groups_view(v@)[c] == v@[c]@);
                if a < idx {
                    assert(v@[a] == before_v[a]);
                }
                if c < idx {
                    assert(v@[c] == before_v[c]);
                }
                if a > idx {
                    assert(v@[a] == before_v[a - 1]);
                }
                if c > idx {
                    assert(v@[c] == before_v[c - 1]);
                }
                assert(forall|t1: int, t2: int|
                    0 <= t1 < t2 < before_v.len() ==> elem_before(
                        (#[trigger] before_v[t1])@,
                        (#[trigger] before_v[t2])@,
                    )) by {
                    assert forall|t1: int, t2: int|
                        0 <= t1 < t2 < before_v.len() implies elem_before(
                        (#[trigger] before_v[t1])@,
                        (#[trigger] before_v[t2])@,
                    ) by {
                        assert(groups_view(before_v)[t1] == before_v[t1]@);
                        assert(groups_view(before_v)[t2] == before_v[t2]@);
                    }
                }
            }
        }
        assert forall|y: ElementView| #[trigger] groups_view(v@).contains(y) == (groups_view(
            before_v,
        ).contains(y) || y == g@) by {
            if groups_view(v@).contains(y) {
                let t = choose|t: int| 0 <= t < v@.len() && groups_view(v@)[t] == y;
                assert(groups_view(v@)[t] == v@[t]@);
                if t < idx {
                    assert(groups_view(before_v)[t] == y);
                } else if t > idx {
                    assert(groups_view(before_v)[t - 1] == y);
                }
            }
            if groups_view(before_v).contains(y) {
                let t = choose|t: int| 0 <= t < before_v.len() && groups_view(before_v)[t] == y;
                assert(before_v[t]@ == y);
                if t < idx {
                    assert(groups_view(v@)[t] == y);
                } else {
                    assert(groups_view(v@)[t + 1] == y);
                }
            }
            assert(groups_view(v@)[idx as int] == g@);
        }
    }
}

} // verus!
